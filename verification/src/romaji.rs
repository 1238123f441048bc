use vstd::prelude::*;
use crate::text::{str_chars, chars_to_string};

verus! {

// The romaji/kana normalizer: a small state machine with the states
// "no pending consonant" and "pending consonant".  A vowel completes a
// syllable together with the consonant before it; a bare `n` before
// another consonant (except `y`) stands for its own syllable.  Erasing
// always removes one whole logical unit, never part of a syllable.
//
// The table covers the plain consonant-vowel syllabary and the syllabic
// `n`; a unit outside it (a digraph, a doubled consonant, a non-letter)
// passes through unchanged as its own unit.

pub open spec fn is_vowel(c: char) -> bool {
    c == 'a' || c == 'i' || c == 'u' || c == 'e' || c == 'o'
}

pub open spec fn is_cons(c: char) -> bool {
    ('a' <= c && c <= 'z') && !is_vowel(c)
}

/// The hiragana for one (consonant, vowel) pair, `None` for the consonant
/// alone, where the table knows the pair.
pub open spec fn spec_kana_of(c: Option<char>, v: char) -> Option<char> {
    match c {
        None => match v {
            'a' => Some('\u{3042}'),
            'i' => Some('\u{3044}'),
            'u' => Some('\u{3046}'),
            'e' => Some('\u{3048}'),
            'o' => Some('\u{304a}'),
            _ => None,
        },
        Some(cc) => match cc {
            'k' => match v {
                'a' => Some('\u{304b}'),
                'i' => Some('\u{304d}'),
                'u' => Some('\u{304f}'),
                'e' => Some('\u{3051}'),
                'o' => Some('\u{3053}'),
                _ => None,
            },
            's' => match v {
                'a' => Some('\u{3055}'),
                'i' => Some('\u{3057}'),
                'u' => Some('\u{3059}'),
                'e' => Some('\u{305b}'),
                'o' => Some('\u{305d}'),
                _ => None,
            },
            't' => match v {
                'a' => Some('\u{305f}'),
                'i' => Some('\u{3061}'),
                'u' => Some('\u{3064}'),
                'e' => Some('\u{3066}'),
                'o' => Some('\u{3068}'),
                _ => None,
            },
            'n' => match v {
                'a' => Some('\u{306a}'),
                'i' => Some('\u{306b}'),
                'u' => Some('\u{306c}'),
                'e' => Some('\u{306d}'),
                'o' => Some('\u{306e}'),
                _ => None,
            },
            'h' => match v {
                'a' => Some('\u{306f}'),
                'i' => Some('\u{3072}'),
                'u' => Some('\u{3075}'),
                'e' => Some('\u{3078}'),
                'o' => Some('\u{307b}'),
                _ => None,
            },
            'm' => match v {
                'a' => Some('\u{307e}'),
                'i' => Some('\u{307f}'),
                'u' => Some('\u{3080}'),
                'e' => Some('\u{3081}'),
                'o' => Some('\u{3082}'),
                _ => None,
            },
            'r' => match v {
                'a' => Some('\u{3089}'),
                'i' => Some('\u{308a}'),
                'u' => Some('\u{308b}'),
                'e' => Some('\u{308c}'),
                'o' => Some('\u{308d}'),
                _ => None,
            },
            'g' => match v {
                'a' => Some('\u{304c}'),
                'i' => Some('\u{304e}'),
                'u' => Some('\u{3050}'),
                'e' => Some('\u{3052}'),
                'o' => Some('\u{3054}'),
                _ => None,
            },
            'z' => match v {
                'a' => Some('\u{3056}'),
                'i' => Some('\u{3058}'),
                'u' => Some('\u{305a}'),
                'e' => Some('\u{305c}'),
                'o' => Some('\u{305e}'),
                _ => None,
            },
            'd' => match v {
                'a' => Some('\u{3060}'),
                'i' => Some('\u{3062}'),
                'u' => Some('\u{3065}'),
                'e' => Some('\u{3067}'),
                'o' => Some('\u{3069}'),
                _ => None,
            },
            'b' => match v {
                'a' => Some('\u{3070}'),
                'i' => Some('\u{3073}'),
                'u' => Some('\u{3076}'),
                'e' => Some('\u{3079}'),
                'o' => Some('\u{307c}'),
                _ => None,
            },
            'p' => match v {
                'a' => Some('\u{3071}'),
                'i' => Some('\u{3074}'),
                'u' => Some('\u{3077}'),
                'e' => Some('\u{307a}'),
                'o' => Some('\u{307d}'),
                _ => None,
            },
            'y' => match v {
                'a' => Some('\u{3084}'),
                'u' => Some('\u{3086}'),
                'o' => Some('\u{3088}'),
                _ => None,
            },
            'w' => match v {
                'a' => Some('\u{308f}'),
                'o' => Some('\u{3092}'),
                _ => None,
            },
            _ => None,
        },
    }
}

/// Length of the logical unit starting at `i`, and what it normalizes to.
pub open spec fn spec_unit_at(s: Seq<char>, i: int) -> (int, Seq<char>)
    recommends
        0 <= i < s.len(),
{
    let c = s[i];
    if is_vowel(c) {
        (1, seq![spec_kana_of(None, c)->0])
    } else if c == 'n' && (i + 1 >= s.len() || (!is_vowel(s[i + 1]) && s[i + 1] != 'y')) {
        (1, seq!['\u{3093}'])
    } else if is_cons(c) && i + 1 < s.len() && is_vowel(s[i + 1]) && spec_kana_of(
        Some(c),
        s[i + 1],
    ) is Some {
        (2, seq![spec_kana_of(Some(c), s[i + 1])->0])
    } else {
        (1, seq![c])
    }
}

/// Start offset of the last logical unit of `s`, walking units from `i`.
pub open spec fn spec_last_unit_start(s: Seq<char>, i: int) -> int
    recommends
        0 <= i < s.len(),
    decreases s.len() - i,
{
    if i >= s.len() {
        i
    } else {
        let ulen = spec_unit_at(s, i).0;
        if i + ulen >= s.len() {
            i
        } else {
            spec_last_unit_start(s, i + ulen)
        }
    }
}

/// The last unit starts at or after `i` and before the end.
pub proof fn lemma_last_unit_start_range(s: Seq<char>, i: int)
    requires
        0 <= i < s.len(),
    ensures
        i <= spec_last_unit_start(s, i) < s.len(),
    decreases s.len() - i,
{
    let ulen = spec_unit_at(s, i).0;
    if i + ulen < s.len() {
        lemma_last_unit_start_range(s, i + ulen);
    }
}

/// What remove_last_char leaves: everything before the last logical unit.
pub open spec fn spec_remove_last(s: Seq<char>) -> Seq<char> {
    if s.len() == 0 {
        Seq::empty()
    } else {
        s.take(spec_last_unit_start(s, 0))
    }
}

/// The normalized (hiragana) form of the buffer from offset `i` on.
pub open spec fn spec_hiragana(s: Seq<char>, i: int) -> Seq<char>
    decreases s.len() - i,
{
    if i < 0 || i >= s.len() {
        Seq::empty()
    } else {
        let u = spec_unit_at(s, i);
        if u.0 < 1 {
            Seq::empty()
        } else {
            u.1 + spec_hiragana(s, i + u.0)
        }
    }
}

pub struct RomKanConverter {}

fn kana_of(c: Option<char>, v: char) -> (r: Option<char>)
    ensures
        r == spec_kana_of(c, v),
{
    match c {
        None => match v {
            'a' => Some('\u{3042}'),
            'i' => Some('\u{3044}'),
            'u' => Some('\u{3046}'),
            'e' => Some('\u{3048}'),
            'o' => Some('\u{304a}'),
            _ => None,
        },
        Some(cc) => match cc {
            'k' => match v {
                'a' => Some('\u{304b}'),
                'i' => Some('\u{304d}'),
                'u' => Some('\u{304f}'),
                'e' => Some('\u{3051}'),
                'o' => Some('\u{3053}'),
                _ => None,
            },
            's' => match v {
                'a' => Some('\u{3055}'),
                'i' => Some('\u{3057}'),
                'u' => Some('\u{3059}'),
                'e' => Some('\u{305b}'),
                'o' => Some('\u{305d}'),
                _ => None,
            },
            't' => match v {
                'a' => Some('\u{305f}'),
                'i' => Some('\u{3061}'),
                'u' => Some('\u{3064}'),
                'e' => Some('\u{3066}'),
                'o' => Some('\u{3068}'),
                _ => None,
            },
            'n' => match v {
                'a' => Some('\u{306a}'),
                'i' => Some('\u{306b}'),
                'u' => Some('\u{306c}'),
                'e' => Some('\u{306d}'),
                'o' => Some('\u{306e}'),
                _ => None,
            },
            'h' => match v {
                'a' => Some('\u{306f}'),
                'i' => Some('\u{3072}'),
                'u' => Some('\u{3075}'),
                'e' => Some('\u{3078}'),
                'o' => Some('\u{307b}'),
                _ => None,
            },
            'm' => match v {
                'a' => Some('\u{307e}'),
                'i' => Some('\u{307f}'),
                'u' => Some('\u{3080}'),
                'e' => Some('\u{3081}'),
                'o' => Some('\u{3082}'),
                _ => None,
            },
            'r' => match v {
                'a' => Some('\u{3089}'),
                'i' => Some('\u{308a}'),
                'u' => Some('\u{308b}'),
                'e' => Some('\u{308c}'),
                'o' => Some('\u{308d}'),
                _ => None,
            },
            'g' => match v {
                'a' => Some('\u{304c}'),
                'i' => Some('\u{304e}'),
                'u' => Some('\u{3050}'),
                'e' => Some('\u{3052}'),
                'o' => Some('\u{3054}'),
                _ => None,
            },
            'z' => match v {
                'a' => Some('\u{3056}'),
                'i' => Some('\u{3058}'),
                'u' => Some('\u{305a}'),
                'e' => Some('\u{305c}'),
                'o' => Some('\u{305e}'),
                _ => None,
            },
            'd' => match v {
                'a' => Some('\u{3060}'),
                'i' => Some('\u{3062}'),
                'u' => Some('\u{3065}'),
                'e' => Some('\u{3067}'),
                'o' => Some('\u{3069}'),
                _ => None,
            },
            'b' => match v {
                'a' => Some('\u{3070}'),
                'i' => Some('\u{3073}'),
                'u' => Some('\u{3076}'),
                'e' => Some('\u{3079}'),
                'o' => Some('\u{307c}'),
                _ => None,
            },
            'p' => match v {
                'a' => Some('\u{3071}'),
                'i' => Some('\u{3074}'),
                'u' => Some('\u{3077}'),
                'e' => Some('\u{307a}'),
                'o' => Some('\u{307d}'),
                _ => None,
            },
            'y' => match v {
                'a' => Some('\u{3084}'),
                'u' => Some('\u{3086}'),
                'o' => Some('\u{3088}'),
                _ => None,
            },
            'w' => match v {
                'a' => Some('\u{308f}'),
                'o' => Some('\u{3092}'),
                _ => None,
            },
            _ => None,
        },
    }
}

fn is_vowel_exec(c: char) -> (r: bool)
    ensures
        r == is_vowel(c),
{
    c == 'a' || c == 'i' || c == 'u' || c == 'e' || c == 'o'
}

/// Length of the unit starting at `i` and its normalized form.
fn unit_at(s: &Vec<char>, i: usize) -> (r: (usize, char))
    requires
        i < s@.len(),
    ensures
        r.0 as int == spec_unit_at(s@, i as int).0,
        seq![r.1] == spec_unit_at(s@, i as int).1,
        1 <= r.0 <= 2,
        i + r.0 <= s@.len(),
{
    let n = s.len();
    let c = s[i];
    if is_vowel_exec(c) {
        let k = kana_of(None, c).unwrap();
        (1, k)
    } else if c == 'n' && (i + 1 >= n || (!is_vowel_exec(s[i + 1]) && s[i + 1] != 'y')) {
        (1, '\u{3093}')
    } else {
        let two = ('a' <= c && c <= 'z') && i + 1 < n && is_vowel_exec(s[i + 1]);
        if two {
            match kana_of(Some(c), s[i + 1]) {
                Some(k) => (2, k),
                None => (1, c),
            }
        } else {
            (1, c)
        }
    }
}

impl RomKanConverter {
    pub fn new() -> (r: RomKanConverter) {
        RomKanConverter {  }
    }

    /// Remove the last logical unit: a whole syllable if one is complete,
    /// the bare pending consonant otherwise — never part of a syllable.
    pub fn remove_last_char(&self, s: &str) -> (r: String)
        ensures
            r@ == spec_remove_last(s@),
    {
        let cs = str_chars(s);
        if cs.len() == 0 {
            return String::new();
        }
        let n = cs.len();
        let mut i: usize = 0;
        let mut ulen = unit_at(&cs, i).0;
        while i + ulen < n
            invariant
                n == cs@.len(),
                cs@ == s@,
                n >= 1,
                i < n,
                i + ulen <= n,
                ulen as int == spec_unit_at(cs@, i as int).0,
                1 <= ulen <= 2,
                spec_last_unit_start(cs@, 0) == spec_last_unit_start(cs@, i as int),
            decreases n - i,
        {
            proof {
                assert(spec_last_unit_start(cs@, i as int) == spec_last_unit_start(
                    cs@,
                    i as int + spec_unit_at(cs@, i as int).0,
                ));
            }
            i = i + ulen;
            ulen = unit_at(&cs, i).0;
        }
        proof {
            assert(spec_last_unit_start(cs@, i as int) == i as int);
        }
        let mut out: Vec<char> = Vec::new();
        let mut t: usize = 0;
        while t < i
            invariant
                t <= i,
                i < cs@.len(),
                out@ == cs@.take(t as int),
            decreases i - t,
        {
            out.push(cs[t]);
            proof {
                assert(out@ =~= cs@.take(t + 1 as int));
            }
            t = t + 1;
        }
        chars_to_string(&out)
    }

    /// The canonical reading of the whole buffer: every known unit becomes
    /// its hiragana, anything else passes through unchanged.
    pub fn to_hiragana(&self, s: &str) -> (r: String)
        ensures
            r@ == spec_hiragana(s@, 0),
    {
        let cs = str_chars(s);
        let n = cs.len();
        let mut out: Vec<char> = Vec::new();
        let mut i: usize = 0;
        while i < n
            invariant
                n == cs@.len(),
                cs@ == s@,
                i <= n,
                spec_hiragana(cs@, 0) == out@ + spec_hiragana(cs@, i as int),
            decreases n - i,
        {
            let (ulen, k) = unit_at(&cs, i);
            out.push(k);
            proof {
                assert(spec_hiragana(cs@, i as int) == seq![k] + spec_hiragana(
                    cs@,
                    i as int + ulen,
                ));
                assert(out@ + spec_hiragana(cs@, i as int + ulen) =~= out@.drop_last() + (seq![k]
                    + spec_hiragana(cs@, i as int + ulen)));
            }
            i = i + ulen;
        }
        proof {
            assert(spec_hiragana(cs@, n as int) == Seq::<char>::empty());
            assert(out@ + Seq::<char>::empty() =~= out@);
        }
        chars_to_string(&out)
    }
}

} // verus!
