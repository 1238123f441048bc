use vstd::prelude::*;
use crate::cost::{spec_calc_cost, calc_cost};
use crate::model::{UnigramModel, spec_find, char_vec_eq, copy_chars};
use crate::overlay::{spec_bi_count, bi_wf};
use crate::text::{str_chars, chars_to_string};

verus! {

// The offline corpus pipeline's computational core: cleaning extracted
// text, counting word and adjacent-pair frequencies, and turning counts
// into model scores.  File walking and writing stay with the caller.

pub open spec fn is_yomi_char(c: char) -> bool {
    ('\u{3041}' <= c && c <= '\u{309f}') || c == '\u{3001}'
}

pub open spec fn is_open_paren(c: char) -> bool {
    c == '\u{ff08}' || c == '('
}

pub open spec fn is_close_paren(c: char) -> bool {
    c == '\u{ff09}' || c == ')'
}

/// Length of the run of yomigana characters starting at `i`.
pub open spec fn yomi_run_len(s: Seq<char>, i: int) -> int
    decreases s.len() - i,
{
    if 0 <= i < s.len() && is_yomi_char(s[i]) {
        1 + yomi_run_len(s, i + 1)
    } else {
        0
    }
}

proof fn lemma_yomi_run_len(s: Seq<char>, i: int)
    requires
        0 <= i <= s.len(),
    ensures
        0 <= yomi_run_len(s, i) <= s.len() - i,
    decreases s.len() - i,
{
    if i < s.len() && is_yomi_char(s[i]) {
        lemma_yomi_run_len(s, i + 1);
    }
}

/// The text with every parenthesized yomigana run removed: an opening
/// paren, one or more hiragana-range characters or the ideographic comma,
/// and a closing paren vanish together; everything else stays.
pub open spec fn spec_remove_yomigana(s: Seq<char>, i: int) -> Seq<char>
    decreases s.len() - i,
{
    if i < 0 || i >= s.len() {
        Seq::empty()
    } else {
        let k = yomi_run_len(s, i + 1);
        if is_open_paren(s[i]) && k >= 1 && i + 1 + k < s.len() && is_close_paren(s[i + 1 + k]) {
            spec_remove_yomigana(s, i + k + 2)
        } else {
            seq![s[i]] + spec_remove_yomigana(s, i + 1)
        }
    }
}

pub struct ExtractedWikipediaProcessor {}

fn is_yomi_char_exec(c: char) -> (r: bool)
    ensures
        r == is_yomi_char(c),
{
    ('\u{3041}' <= c && c <= '\u{309f}') || c == '\u{3001}'
}

impl ExtractedWikipediaProcessor {
    pub fn new() -> (r: ExtractedWikipediaProcessor) {
        ExtractedWikipediaProcessor {  }
    }

    /// Strip parenthesized yomigana annotations from one line.
    pub fn remove_yomigana(&self, src: &str) -> (r: String)
        ensures
            r@ == spec_remove_yomigana(src@, 0),
    {
        let cs = str_chars(src);
        let n = cs.len();
        let mut out: Vec<char> = Vec::new();
        let mut i: usize = 0;
        while i < n
            invariant
                n == cs@.len(),
                cs@ == src@,
                i <= n,
                spec_remove_yomigana(cs@, 0) == out@ + spec_remove_yomigana(cs@, i as int),
            decreases n - i,
        {
            let c = cs[i];
            let mut k: usize = 0;
            while i + 1 + k < n && is_yomi_char_exec(cs[i + 1 + k])
                invariant
                    n == cs@.len(),
                    i < n,
                    i + 1 + k <= n,
                    yomi_run_len(cs@, i + 1) == k + yomi_run_len(cs@, i + 1 + k),
                decreases n - (i + 1 + k),
            {
                k = k + 1;
            }
            proof {
                assert(yomi_run_len(cs@, i + 1 + k) == 0);
                assert(yomi_run_len(cs@, i + 1) == k);
                lemma_yomi_run_len(cs@, i + 1);
            }
            let is_open = c == '\u{ff08}' || c == '(';
            if is_open && k >= 1 && i + 1 + k < n && (cs[i + 1 + k] == '\u{ff09}' || cs[i + 1 + k]
                == ')') {
                proof {
                    assert(spec_remove_yomigana(cs@, i as int) == spec_remove_yomigana(
                        cs@,
                        i as int + k + 2,
                    ));
                }
                i = i + k + 2;
            } else {
                out.push(c);
                proof {
                    assert(spec_remove_yomigana(cs@, i as int) == seq![cs@[i as int]]
                        + spec_remove_yomigana(cs@, i + 1 as int));
                    assert(out@ + spec_remove_yomigana(cs@, i + 1 as int) =~= out@.drop_last() + (
                    seq![cs@[i as int]] + spec_remove_yomigana(cs@, i + 1 as int)));
                }
                i = i + 1;
            }
        }
        proof {
            assert(spec_remove_yomigana(cs@, n as int) == Seq::<char>::empty());
            assert(out@ + Seq::<char>::empty() =~= out@);
        }
        chars_to_string(&out)
    }

    /// The per-line cleaning step: markup lines, empty lines and lines of
    /// bare ASCII table noise are dropped; anything else is kept with its
    /// yomigana annotations removed.
    pub fn process_line(&self, line: &str) -> (r: Option<String>)
        ensures
            match r {
                Some(out) => spec_keep_line(line@) && out@ == spec_remove_yomigana(line@, 0),
                None => !spec_keep_line(line@),
            },
    {
        let cs = str_chars(line);
        if cs.len() == 0 {
            return None;
        }
        let c0 = cs[0];
        if c0 == '<' {
            return None;
        }
        if is_alnum_noise(c0) {
            return None;
        }
        Some(self.remove_yomigana(line))
    }
}

/// First characters that mark a line as ASCII table noise.
pub open spec fn spec_alnum_noise(c: char) -> bool {
    ('a' <= c && c <= 'z') || ('A' <= c && c <= 'Z') || ('0' <= c && c <= '9') || c == '|' || c
        == '=' || c == '-'
}

fn is_alnum_noise(c: char) -> (r: bool)
    ensures
        r == spec_alnum_noise(c),
{
    ('a' <= c && c <= 'z') || ('A' <= c && c <= 'Z') || ('0' <= c && c <= '9') || c == '|' || c
        == '=' || c == '-'
}

/// A line the corpus reader keeps: non-empty, no leading markup tag, not
/// ASCII table noise.
pub open spec fn spec_keep_line(s: Seq<char>) -> bool {
    s.len() > 0 && s[0] != '<' && !spec_alnum_noise(s[0])
}

/// The line's space-separated pieces, as `split(' ')` yields them:
/// adjacent separators give empty pieces.
pub open spec fn spec_split(s: Seq<char>) -> Seq<Seq<char>>
    decreases s.len(),
{
    if s.len() == 0 {
        seq![Seq::<char>::empty()]
    } else if s[0] == ' ' {
        seq![Seq::<char>::empty()] + spec_split(s.skip(1))
    } else {
        let rest = spec_split(s.skip(1));
        seq![seq![s[0]] + rest[0]] + rest.skip(1)
    }
}

proof fn lemma_split_len(s: Seq<char>)
    ensures
        spec_split(s).len() >= 1,
    decreases s.len(),
{
    if s.len() > 0 {
        lemma_split_len(s.skip(1));
    }
}

/// Split a line at single spaces.
pub fn split_words(s: &Vec<char>) -> (r: Vec<Vec<char>>)
    ensures
        r@.map_values(|v: Vec<char>| v@) == spec_split(s@),
{
    let n = s.len();
    let mut done: Vec<Vec<char>> = Vec::new();
    let mut cur: Vec<char> = Vec::new();
    let mut i: usize = 0;
    proof {
        lemma_split_len(s@);
        assert(s@.skip(0) =~= s@);
    }
    while i < n
        invariant
            n == s@.len(),
            i <= n,
            spec_split(s@.skip(i as int)).len() >= 1,
            spec_split(s@) == done@.map_values(|v: Vec<char>| v@) + seq![cur@ + spec_split(
                s@.skip(i as int),
            )[0]] + spec_split(s@.skip(i as int)).skip(1),
        decreases n - i,
    {
        let c = s[i];
        proof {
            assert(s@.skip(i as int)[0] == s@[i as int]);
            assert(s@.skip(i as int).skip(1) =~= s@.skip(i + 1));
            lemma_split_len(s@.skip(i + 1));
        }
        if c == ' ' {
            let ghost done_views0 = done@.map_values(|v: Vec<char>| v@);
            let ghost cur0 = cur@;
            let ghost rest = spec_split(s@.skip(i + 1));
            let mut finished: Vec<char> = Vec::new();
            copy_chars(&cur, &mut finished);
            proof {
                assert(finished@ =~= cur@);
                assert(spec_split(s@.skip(i as int)) == seq![Seq::<char>::empty()] + rest);
                assert((seq![Seq::<char>::empty()] + rest)[0] =~= Seq::<char>::empty());
                assert((seq![Seq::<char>::empty()] + rest).skip(1) =~= rest);
                assert(cur0 + spec_split(s@.skip(i as int))[0] =~= cur0);
                assert(rest =~= seq![rest[0]] + rest.skip(1));
            }
            done.push(finished);
            cur = Vec::new();
            proof {
                assert(done@.map_values(|v: Vec<char>| v@) =~= done_views0.push(cur0));
                assert(cur@ =~= Seq::<char>::empty());
                assert(cur@ + rest[0] =~= rest[0]);
                assert(spec_split(s@) =~= done_views0 + seq![cur0] + rest);
                assert(done_views0 + seq![cur0] + rest =~= done_views0.push(cur0) + seq![cur@
                    + rest[0]] + rest.skip(1));
            }
            i = i + 1;
        } else {
            let ghost done_views0 = done@.map_values(|v: Vec<char>| v@);
            let ghost cur0 = cur@;
            let ghost rest = spec_split(s@.skip(i + 1));
            proof {
                assert(spec_split(s@.skip(i as int)) == seq![seq![s@[i as int]] + rest[0]]
                    + rest.skip(1));
                assert((seq![seq![s@[i as int]] + rest[0]] + rest.skip(1))[0] =~= seq![
                    s@[i as int],
                ] + rest[0]);
                assert((seq![seq![s@[i as int]] + rest[0]] + rest.skip(1)).skip(1) =~= rest.skip(
                    1,
                ));
            }
            cur.push(c);
            proof {
                assert(cur@ =~= cur0.push(s@[i as int]));
                assert(cur@ + rest[0] =~= cur0 + (seq![s@[i as int]] + rest[0]));
                assert(spec_split(s@) =~= done_views0 + seq![cur0 + (seq![s@[i as int]]
                    + rest[0])] + rest.skip(1));
            }
            i = i + 1;
        }
    }
    proof {
        assert(s@.skip(n as int) =~= Seq::<char>::empty());
        assert(spec_split(s@.skip(n as int)) == seq![Seq::<char>::empty()]);
        assert(cur@ + spec_split(s@.skip(n as int))[0] =~= cur@);
        assert(spec_split(s@.skip(n as int)).skip(1) =~= Seq::<Seq<char>>::empty());
    }
    done.push(cur);
    proof {
        assert(done@.map_values(|v: Vec<char>| v@) =~= done@.drop_last().map_values(
            |v: Vec<char>| v@,
        ).push(done@.last()@));
        assert(done@.map_values(|v: Vec<char>| v@) =~= spec_split(s@));
    }
    done
}

/// A token the frequency counter accepts: non-empty, free of the
/// right-to-left mark, and not starting with a slash or a space.
pub open spec fn spec_valid_word(w: Seq<char>) -> bool {
    &&& w.len() > 0
    &&& !w.contains('\u{200f}')
    &&& w[0] != '/'
    &&& w[0] != ' '
}

/// Occurrences of `w` among the valid words of `ws`.
pub open spec fn spec_occ(ws: Seq<Seq<char>>, w: Seq<char>) -> int
    decreases ws.len(),
{
    if ws.len() == 0 {
        0
    } else {
        (if ws.last() == w && spec_valid_word(ws.last()) {
            1int
        } else {
            0
        }) + spec_occ(ws.drop_last(), w)
    }
}

/// Word-frequency table with saturating counts.
pub struct WordCounts {
    pub entries: Vec<(Vec<char>, u32)>,
}

pub open spec fn spec_word_count(s: Seq<(Vec<char>, u32)>, w: Seq<char>) -> int
    decreases s.len(),
{
    if s.len() == 0 {
        0
    } else if s.last().0@ == w {
        s.last().1 as int
    } else {
        spec_word_count(s.drop_last(), w)
    }
}

pub open spec fn word_counts_wf(s: Seq<(Vec<char>, u32)>) -> bool {
    forall|i: int, j: int| 0 <= i < j < s.len() ==> (#[trigger] s[i]).0@ != (#[trigger] s[j]).0@
}

pub open spec fn spec_sat_add(a: int, b: int) -> int {
    if a + b > u32::MAX {
        u32::MAX as int
    } else {
        a + b
    }
}

impl WordCounts {
    pub open spec fn wf(self) -> bool {
        word_counts_wf(self.entries@)
    }

    pub open spec fn spec_count(self, w: Seq<char>) -> int {
        spec_word_count(self.entries@, w)
    }

    pub fn new() -> (r: WordCounts)
        ensures
            r.wf(),
            r.entries@.len() == 0,
    {
        WordCounts { entries: Vec::new() }
    }

    /// Add `n` occurrences of a word, saturating at the counter's maximum.
    pub fn add_word(&mut self, w: &Vec<char>, n: u32)
        requires
            old(self).wf(),
        ensures
            final(self).wf(),
            forall|x: Seq<char>| final(self).spec_count(x) == (if x == w@ {
                spec_sat_add(old(self).spec_count(x), n as int)
            } else {
                old(self).spec_count(x)
            }),
    {
        let mut i: usize = 0;
        let ghost entries0 = self.entries@;
        while i < self.entries.len()
            invariant
                i <= self.entries@.len(),
                self.entries@ == entries0,
                entries0 == old(self).entries@,
                word_counts_wf(entries0),
                forall|j: int| 0 <= j < i ==> (#[trigger] entries0[j]).0@ != w@,
            decreases self.entries@.len() - i,
        {
            if char_vec_eq(&self.entries[i].0, w) {
                let c = self.entries[i].1;
                let c2 = if c <= u32::MAX - n {
                    c + n
                } else {
                    u32::MAX
                };
                let mut key: Vec<char> = Vec::new();
                copy_chars(w, &mut key);
                self.entries.set(i, (key, c2));
                proof {
                    assert(self.entries@[i as int].0@ =~= entries0[i as int].0@);
                    assert forall|x: Seq<char>|
                        spec_word_count(self.entries@, x) == (if x == w@ {
                            spec_sat_add(spec_word_count(entries0, x), n as int)
                        } else {
                            spec_word_count(entries0, x)
                        }) by {
                        lemma_word_count_at_absent(entries0, x, i as int);
                        lemma_word_count_update(entries0, self.entries@, i as int, c2, x);
                    }
                    assert forall|a: int, b: int|
                        0 <= a < b < self.entries@.len() implies (#[trigger] self.entries@[a]).0@
                        != (#[trigger] self.entries@[b]).0@ by {
                        assert(self.entries@[a].0@ == entries0[a].0@);
                        assert(self.entries@[b].0@ == entries0[b].0@);
                    }
                }
                return ;
            }
            i = i + 1;
        }
        proof {
            lemma_word_count_absent(entries0, w@);
        }
        let mut key: Vec<char> = Vec::new();
        copy_chars(w, &mut key);
        self.entries.push((key, n));
        proof {
            assert(self.entries@.drop_last() =~= entries0);
            assert(self.entries@.last().0@ =~= w@);
            assert forall|x: Seq<char>|
                x != w@ implies spec_word_count(self.entries@, x) == spec_word_count(
                entries0,
                x,
            ) by {}
            assert(spec_word_count(self.entries@, w@) == n as int);
            assert forall|a: int, b: int|
                0 <= a < b < self.entries@.len() implies (#[trigger] self.entries@[a]).0@ != (
            #[trigger] self.entries@[b]).0@ by {
                if b == self.entries@.len() - 1 {
                    assert(entries0[a].0@ != w@);
                }
            }
        }
    }

    /// Count every valid word of one line, as the frequency pass does for
    /// each corpus line.
    #[verifier::rlimit(100)]
    pub fn count_line(&mut self, line: &str)
        requires
            old(self).wf(),
        ensures
            final(self).wf(),
            forall|x: Seq<char>| final(self).spec_count(x) == spec_sat_add(
                old(self).spec_count(x),
                spec_occ(spec_split(line@), x),
            ),
    {
        let cs = str_chars(line);
        let words = split_words(&cs);
        let ghost wviews = words@.map_values(|v: Vec<char>| v@);
        proof {
            assert(wviews.take(0) =~= Seq::<Seq<char>>::empty());
            assert forall|x: Seq<char>| self.spec_count(x) == spec_sat_add(
                old(self).spec_count(x),
                spec_occ(wviews.take(0), x),
            ) by {
                lemma_word_count_range(self.entries@, x);
            }
        }
        let mut k: usize = 0;
        while k < words.len()
            invariant
                self.wf(),
                wviews == words@.map_values(|v: Vec<char>| v@),
                wviews == spec_split(line@),
                k <= words@.len(),
                forall|x: Seq<char>| self.spec_count(x) == spec_sat_add(
                    old(self).spec_count(x),
                    spec_occ(wviews.take(k as int), x),
                ),
            decreases words@.len() - k,
        {
            let w = &words[k];
            let ghost pre = *self;
            let valid = word_is_valid(w);
            if valid {
                self.add_word(w, 1);
            }
            proof {
                assert(wviews.take(k + 1 as int).drop_last() =~= wviews.take(k as int));
                assert(wviews.take(k + 1 as int).last() == wviews[k as int]);
                assert(wviews[k as int] == words@[k as int]@);
                assert forall|x: Seq<char>| self.spec_count(x) == spec_sat_add(
                    old(self).spec_count(x),
                    spec_occ(wviews.take(k + 1 as int), x),
                ) by {
                    lemma_word_count_range(pre.entries@, x);
                    assert(spec_occ(wviews.take(k + 1 as int), x) == (if wviews[k as int] == x
                        && spec_valid_word(wviews[k as int]) {
                        1int
                    } else {
                        0
                    }) + spec_occ(wviews.take(k as int), x));
                }
            }
            k = k + 1;
        }
        proof {
            assert(wviews.take(wviews.len() as int) =~= wviews);
        }
    }

    pub fn num_words(&self) -> (r: usize)
        ensures
            r == self.entries@.len(),
    {
        self.entries.len()
    }

    /// Fold another table's counts into this one, as the per-file counting
    /// passes are merged.
    pub fn merge_from(&mut self, other: &WordCounts)
        requires
            old(self).wf(),
            other.wf(),
        ensures
            final(self).wf(),
            forall|x: Seq<char>| final(self).spec_count(x) == spec_sat_add(
                old(self).spec_count(x),
                other.spec_count(x),
            ),
    {
        let mut i: usize = 0;
        proof {
            assert(other.entries@.take(0) =~= Seq::<(Vec<char>, u32)>::empty());
            assert forall|x: Seq<char>| self.spec_count(x) == spec_sat_add(
                old(self).spec_count(x),
                spec_word_count(other.entries@.take(0), x),
            ) by {
                lemma_word_count_range(self.entries@, x);
            }
        }
        while i < other.entries.len()
            invariant
                i <= other.entries@.len(),
                self.wf(),
                other.wf(),
                forall|x: Seq<char>| self.spec_count(x) == spec_sat_add(
                    old(self).spec_count(x),
                    spec_word_count(other.entries@.take(i as int), x),
                ),
            decreases other.entries@.len() - i,
        {
            let ghost pre = *self;
            let w = &other.entries[i].0;
            let c = other.entries[i].1;
            self.add_word(w, c);
            proof {
                let pfx = other.entries@.take(i + 1 as int);
                assert(pfx.drop_last() =~= other.entries@.take(i as int));
                assert(pfx.last() == other.entries@[i as int]);
                assert forall|x: Seq<char>| self.spec_count(x) == spec_sat_add(
                    old(self).spec_count(x),
                    spec_word_count(pfx, x),
                ) by {
                    lemma_word_count_range(pre.entries@, x);
                    if x == w@ {
                        assert forall|j: int|
                            0 <= j < i implies (#[trigger] other.entries@.take(i as int)[j]).0@
                            != x by {
                            assert(other.entries@.take(i as int)[j] == other.entries@[j]);
                            assert(other.entries@[j].0@ != other.entries@[i as int].0@);
                        }
                        lemma_word_count_absent(other.entries@.take(i as int), x);
                    }
                }
            }
            i = i + 1;
        }
        proof {
            assert(other.entries@.take(other.entries@.len() as int) =~= other.entries@);
        }
    }
}

fn word_is_valid(w: &Vec<char>) -> (r: bool)
    ensures
        r == spec_valid_word(w@),
{
    if w.len() == 0 {
        return false;
    }
    if w[0] == '/' || w[0] == ' ' {
        return false;
    }
    let mut i: usize = 0;
    while i < w.len()
        invariant
            i <= w@.len(),
            forall|j: int| 0 <= j < i ==> w@[j] != '\u{200f}',
        decreases w@.len() - i,
    {
        if w[i] == '\u{200f}' {
            proof {
                assert(w@.contains('\u{200f}'));
            }
            return false;
        }
        i = i + 1;
    }
    proof {
        assert(!w@.contains('\u{200f}'));
    }
    true
}

proof fn lemma_word_count_range(s: Seq<(Vec<char>, u32)>, w: Seq<char>)
    ensures
        0 <= spec_word_count(s, w) <= u32::MAX,
    decreases s.len(),
{
    if s.len() > 0 {
        lemma_word_count_range(s.drop_last(), w);
    }
}

proof fn lemma_word_count_absent(s: Seq<(Vec<char>, u32)>, w: Seq<char>)
    requires
        forall|j: int| 0 <= j < s.len() ==> (#[trigger] s[j]).0@ != w,
    ensures
        spec_word_count(s, w) == 0,
    decreases s.len(),
{
    if s.len() > 0 {
        lemma_word_count_absent(s.drop_last(), w);
    }
}

proof fn lemma_word_count_update(
    s: Seq<(Vec<char>, u32)>,
    t: Seq<(Vec<char>, u32)>,
    i: int,
    c: u32,
    x: Seq<char>,
)
    requires
        word_counts_wf(s),
        0 <= i < s.len(),
        t.len() == s.len(),
        forall|j: int| 0 <= j < s.len() && j != i ==> #[trigger] t[j] == s[j],
        t[i].0@ == s[i].0@,
        t[i].1 == c,
    ensures
        spec_word_count(t, x) == (if x == s[i].0@ {
            c as int
        } else {
            spec_word_count(s, x)
        }),
    decreases s.len(),
{
    if i == s.len() - 1 {
        assert(t.drop_last() =~= s.drop_last());
        if x == s[i].0@ {
        } else {
        }
        lemma_word_count_at_absent(s, x, i);
    } else {
        assert(t.last() == s.last());
        lemma_word_count_update(s.drop_last(), t.drop_last(), i, c, x);
    }
}

proof fn lemma_word_count_at_absent(s: Seq<(Vec<char>, u32)>, x: Seq<char>, i: int)
    requires
        word_counts_wf(s),
        0 <= i < s.len(),
    ensures
        x == s[i].0@ ==> spec_word_count(s, x) == s[i].1 as int,
    decreases s.len(),
{
    if i < s.len() - 1 {
        lemma_word_count_at_absent(s.drop_last(), x, i);
    }
}



/// The model-key id of a corpus token, if the token is a known key.
pub open spec fn spec_id_of(dict: Seq<crate::model::WordEntry>, w: Seq<char>) -> Option<u32> {
    match spec_find(dict, w) {
        Some(p) => Some(p.0),
        None => None,
    }
}

/// Ids of a line's tokens, in order.
pub open spec fn spec_line_ids(dict: Seq<crate::model::WordEntry>, ws: Seq<Seq<char>>) -> Seq<
    Option<u32>,
>
    decreases ws.len(),
{
    if ws.len() == 0 {
        Seq::empty()
    } else {
        spec_line_ids(dict, ws.drop_last()).push(spec_id_of(dict, ws.last()))
    }
}

/// Occurrences of the adjacent id pair (a, b) in an id sequence.
pub open spec fn spec_pair_occ(ids: Seq<Option<u32>>, a: u32, b: u32) -> int
    decreases ids.len(),
{
    if ids.len() < 2 {
        0
    } else {
        (if ids[ids.len() - 2] == Some(a) && ids.last() == Some(b) {
            1int
        } else {
            0
        }) + spec_pair_occ(ids.drop_last(), a, b)
    }
}

/// Adjacent-pair frequency table with saturating counts.
pub struct PairCounts {
    pub entries: Vec<(u32, u32, u32)>,
}

impl PairCounts {
    pub open spec fn wf(self) -> bool {
        bi_wf(self.entries@)
    }

    pub open spec fn spec_count(self, a: u32, b: u32) -> int {
        spec_bi_count(self.entries@, a, b)
    }

    pub fn new() -> (r: PairCounts)
        ensures
            r.wf(),
            r.entries@.len() == 0,
    {
        PairCounts { entries: Vec::new() }
    }

    pub fn num_pairs(&self) -> (r: usize)
        ensures
            r == self.entries@.len(),
    {
        self.entries.len()
    }

    /// Fold another table's counts into this one, as the per-file counting
    /// passes are merged.
    pub fn merge_from(&mut self, other: &PairCounts)
        requires
            old(self).wf(),
            other.wf(),
        ensures
            final(self).wf(),
            forall|a: u32, b: u32| final(self).spec_count(a, b) == spec_sat_add(
                old(self).spec_count(a, b),
                other.spec_count(a, b),
            ),
    {
        let mut i: usize = 0;
        proof {
            assert(other.entries@.take(0) =~= Seq::<(u32, u32, u32)>::empty());
            assert forall|a: u32, b: u32| self.spec_count(a, b) == spec_sat_add(
                old(self).spec_count(a, b),
                spec_bi_count(other.entries@.take(0), a, b),
            ) by {
                lemma_pair_count_range(self.entries@, a, b);
            }
        }
        while i < other.entries.len()
            invariant
                i <= other.entries@.len(),
                self.wf(),
                other.wf(),
                forall|a: u32, b: u32| self.spec_count(a, b) == spec_sat_add(
                    old(self).spec_count(a, b),
                    spec_bi_count(other.entries@.take(i as int), a, b),
                ),
            decreases other.entries@.len() - i,
        {
            let ghost pre = *self;
            let e = other.entries[i];
            self.add_pair(e.0, e.1, e.2);
            proof {
                let pfx = other.entries@.take(i + 1 as int);
                assert(pfx.drop_last() =~= other.entries@.take(i as int));
                assert(pfx.last() == other.entries@[i as int]);
                assert forall|a: u32, b: u32| self.spec_count(a, b) == spec_sat_add(
                    old(self).spec_count(a, b),
                    spec_bi_count(pfx, a, b),
                ) by {
                    lemma_pair_count_range(pre.entries@, a, b);
                    if a == e.0 && b == e.1 {
                        assert forall|j: int|
                            0 <= j < i implies ((#[trigger] other.entries@.take(i as int)[j]).0
                            != a || other.entries@.take(i as int)[j].1 != b) by {
                            assert(other.entries@.take(i as int)[j] == other.entries@[j]);
                            assert(other.entries@[j].0 != other.entries@[i as int].0
                                || other.entries@[j].1 != other.entries@[i as int].1);
                        }
                        lemma_pair_count_absent(other.entries@.take(i as int), a, b);
                    }
                }
            }
            i = i + 1;
        }
        proof {
            assert(other.entries@.take(other.entries@.len() as int) =~= other.entries@);
        }
    }

    /// Add `n` occurrences of a pair, saturating at the counter's maximum.
    pub fn add_pair(&mut self, a: u32, b: u32, n: u32)
        requires
            old(self).wf(),
            n >= 1,
        ensures
            final(self).wf(),
            forall|x: u32, y: u32| final(self).spec_count(x, y) == (if x == a && y == b {
                spec_sat_add(old(self).spec_count(x, y), n as int)
            } else {
                old(self).spec_count(x, y)
            }),
    {
        let mut i: usize = 0;
        let ghost entries0 = self.entries@;
        while i < self.entries.len()
            invariant
                i <= self.entries@.len(),
                self.entries@ == entries0,
                entries0 == old(self).entries@,
                bi_wf(entries0),
                n >= 1,
                forall|j: int| 0 <= j < i ==> ((#[trigger] entries0[j]).0 != a || entries0[j].1
                    != b),
            decreases self.entries@.len() - i,
        {
            if self.entries[i].0 == a && self.entries[i].1 == b {
                let c = self.entries[i].2;
                let c2 = if c <= u32::MAX - n {
                    c + n
                } else {
                    u32::MAX
                };
                self.entries.set(i, (a, b, c2));
                proof {
                    assert forall|x: u32, y: u32|
                        spec_bi_count(self.entries@, x, y) == (if x == a && y == b {
                            spec_sat_add(spec_bi_count(entries0, x, y), n as int)
                        } else {
                            spec_bi_count(entries0, x, y)
                        }) by {
                        lemma_pair_count_at(entries0, a, b, i as int);
                        lemma_pair_count_update(entries0, i as int, c2, x, y);
                    }
                    assert forall|a2: int, b2: int|
                        0 <= a2 < b2 < self.entries@.len() implies ((
                    #[trigger] self.entries@[a2]).0 != (#[trigger] self.entries@[b2]).0
                        || self.entries@[a2].1 != self.entries@[b2].1) by {
                        assert(self.entries@[a2].0 == entries0[a2].0 && self.entries@[a2].1
                            == entries0[a2].1);
                        assert(self.entries@[b2].0 == entries0[b2].0 && self.entries@[b2].1
                            == entries0[b2].1);
                    }
                    assert forall|j: int| 0 <= j < self.entries@.len() implies (
                    #[trigger] self.entries@[j]).2 >= 1 by {
                        if j != i as int {
                            assert(self.entries@[j] == entries0[j]);
                        }
                    }
                }
                return ;
            }
            i = i + 1;
        }
        proof {
            lemma_pair_count_absent(entries0, a, b);
        }
        self.entries.push((a, b, n));
        proof {
            assert(self.entries@.drop_last() =~= entries0);
            assert(self.entries@.last() == (a, b, n));
            assert(spec_bi_count(self.entries@, a, b) == n as int);
            assert forall|x: u32, y: u32|
                !(x == a && y == b) implies spec_bi_count(self.entries@, x, y) == spec_bi_count(
                entries0,
                x,
                y,
            ) by {}
            assert forall|a2: int, b2: int|
                0 <= a2 < b2 < self.entries@.len() implies ((#[trigger] self.entries@[a2]).0 != (
            #[trigger] self.entries@[b2]).0 || self.entries@[a2].1 != self.entries@[b2].1) by {
                if b2 == self.entries@.len() - 1 {
                    assert(entries0[a2].0 != a || entries0[a2].1 != b);
                }
            }
        }
    }

    /// Count every adjacent pair of known-word ids in one corpus line, the
    /// sliding window the bigram statistics pass uses.
    #[verifier::rlimit(100)]
    pub fn count_line(&mut self, line: &str, unigram: &UnigramModel)
        requires
            old(self).wf(),
        ensures
            final(self).wf(),
            forall|a: u32, b: u32| final(self).spec_count(a, b) == spec_sat_add(
                old(self).spec_count(a, b),
                spec_pair_occ(spec_line_ids(unigram.entries@, spec_split(line@)), a, b),
            ),
    {
        let cs = str_chars(line);
        let words = split_words(&cs);
        let ghost wviews = words@.map_values(|v: Vec<char>| v@);
        let ghost target = spec_line_ids(unigram.entries@, wviews);
        let mut ids: Vec<Option<u32>> = Vec::new();
        let mut j: usize = 0;
        proof {
            assert(ids@ =~= target.take(0));
            lemma_line_ids_len(unigram.entries@, wviews);
        }
        while j < words.len()
            invariant
                j <= words@.len(),
                wviews == words@.map_values(|v: Vec<char>| v@),
                target == spec_line_ids(unigram.entries@, wviews),
                target.len() == wviews.len(),
                wviews.len() == words@.len(),
                ids@ == target.take(j as int),
            decreases words@.len() - j,
        {
            let found = unigram.find(&words[j]);
            let id = match found {
                Some(p) => Some(p.0),
                None => None,
            };
            ids.push(id);
            proof {
                lemma_line_ids_index(unigram.entries@, wviews, j as int);
                assert(wviews[j as int] == words@[j as int]@);
                assert(target[j as int] == spec_id_of(unigram.entries@, words@[j as int]@));
                assert(ids@ =~= target.take(j + 1 as int));
            }
            j = j + 1;
        }
        proof {
            assert(ids@ =~= target);
        }
        let m = ids.len();
        if m < 2 {
            proof {
                assert forall|a: u32, b: u32| spec_pair_occ(target, a, b) == 0 by {}
                assert forall|a: u32, b: u32| final(self).spec_count(a, b) == spec_sat_add(
                    old(self).spec_count(a, b),
                    spec_pair_occ(target, a, b),
                ) by {
                    lemma_pair_count_range(self.entries@, a, b);
                }
            }
            return ;
        }
        let mut t: usize = 1;
        proof {
            assert(target.take(1).len() < 2);
            assert forall|a: u32, b: u32| self.spec_count(a, b) == spec_sat_add(
                old(self).spec_count(a, b),
                spec_pair_occ(target.take(1), a, b),
            ) by {
                lemma_pair_count_range(self.entries@, a, b);
            }
        }
        while t < m
            invariant
                1 <= t <= m,
                m == ids@.len(),
                ids@ == target,
                self.wf(),
                forall|a: u32, b: u32| self.spec_count(a, b) == spec_sat_add(
                    old(self).spec_count(a, b),
                    spec_pair_occ(target.take(t as int), a, b),
                ),
            decreases m - t,
        {
            let ghost pre = *self;
            if let (Some(a), Some(b)) = (ids[t - 1], ids[t]) {
                self.add_pair(a, b, 1);
            }
            proof {
                let pfx = target.take(t + 1 as int);
                assert(pfx.drop_last() =~= target.take(t as int));
                assert(pfx.last() == target[t as int]);
                assert(pfx[pfx.len() - 2] == target[t - 1]);
                assert forall|a: u32, b: u32| self.spec_count(a, b) == spec_sat_add(
                    old(self).spec_count(a, b),
                    spec_pair_occ(pfx, a, b),
                ) by {
                    lemma_pair_count_range(pre.entries@, a, b);
                    assert(spec_pair_occ(pfx, a, b) == (if target[t - 1] == Some(a)
                        && target[t as int] == Some(b) {
                        1int
                    } else {
                        0
                    }) + spec_pair_occ(target.take(t as int), a, b));
                }
            }
            t = t + 1;
        }
        proof {
            assert(target.take(m as int) =~= target);
        }
    }
}

proof fn lemma_line_ids_len(dict: Seq<crate::model::WordEntry>, ws: Seq<Seq<char>>)
    ensures
        spec_line_ids(dict, ws).len() == ws.len(),
    decreases ws.len(),
{
    if ws.len() > 0 {
        lemma_line_ids_len(dict, ws.drop_last());
    }
}

proof fn lemma_line_ids_index(dict: Seq<crate::model::WordEntry>, ws: Seq<Seq<char>>, i: int)
    requires
        0 <= i < ws.len(),
    ensures
        spec_line_ids(dict, ws).len() == ws.len(),
        spec_line_ids(dict, ws)[i] == spec_id_of(dict, ws[i]),
    decreases ws.len(),
{
    lemma_line_ids_len(dict, ws);
    if i < ws.len() - 1 {
        lemma_line_ids_index(dict, ws.drop_last(), i);
    }
}

proof fn lemma_pair_count_range(s: Seq<(u32, u32, u32)>, a: u32, b: u32)
    ensures
        0 <= spec_bi_count(s, a, b) <= u32::MAX,
    decreases s.len(),
{
    if s.len() > 0 {
        lemma_pair_count_range(s.drop_last(), a, b);
    }
}

proof fn lemma_pair_count_absent(s: Seq<(u32, u32, u32)>, a: u32, b: u32)
    requires
        forall|j: int| 0 <= j < s.len() ==> ((#[trigger] s[j]).0 != a || s[j].1 != b),
    ensures
        spec_bi_count(s, a, b) == 0,
    decreases s.len(),
{
    if s.len() > 0 {
        lemma_pair_count_absent(s.drop_last(), a, b);
    }
}

proof fn lemma_pair_count_at(s: Seq<(u32, u32, u32)>, a: u32, b: u32, i: int)
    requires
        bi_wf(s),
        0 <= i < s.len(),
        s[i].0 == a,
        s[i].1 == b,
    ensures
        spec_bi_count(s, a, b) == s[i].2 as int,
    decreases s.len(),
{
    if i < s.len() - 1 {
        lemma_pair_count_at(s.drop_last(), a, b, i);
    }
}

proof fn lemma_pair_count_update(s: Seq<(u32, u32, u32)>, i: int, c: u32, x: u32, y: u32)
    requires
        bi_wf(s),
        0 <= i < s.len(),
    ensures
        spec_bi_count(s.update(i, (s[i].0, s[i].1, c)), x, y) == (if x == s[i].0 && y == s[i].1 {
            c as int
        } else {
            spec_bi_count(s, x, y)
        }),
    decreases s.len(),
{
    let t = s.update(i, (s[i].0, s[i].1, c));
    if i == s.len() - 1 {
        assert(t.drop_last() =~= s.drop_last());
        if x == s[i].0 && y == s[i].1 {
            lemma_pair_count_at(s, x, y, i);
        }
    } else {
        assert(t.drop_last() =~= s.drop_last().update(i, (s[i].0, s[i].1, c)));
        lemma_pair_count_update(s.drop_last(), i, c, x, y);
    }
}

/// Saturated value of an unbounded sum, as a 32-bit counter reports it.
pub open spec fn spec_clamp_u32(x: int) -> int {
    if x > u32::MAX {
        u32::MAX as int
    } else {
        x
    }
}

/// Total number of occurrences a pair table has recorded.
pub open spec fn spec_pair_total(s: Seq<(u32, u32, u32)>) -> int
    decreases s.len(),
{
    if s.len() == 0 {
        0
    } else {
        s.last().2 + spec_pair_total(s.drop_last())
    }
}

/// The scores the model builder derives from counts: every pair above the
/// occurrence threshold, scored by the smoothed frequency formula over the
/// clamped total count `c` and vocabulary size `v`.
pub open spec fn spec_score_map(
    s: Seq<(u32, u32, u32)>,
    threshold: u32,
    c: u32,
    v: u32,
) -> Seq<(u32, u32, i64)>
    decreases s.len(),
{
    if s.len() == 0 {
        Seq::empty()
    } else {
        let rest = spec_score_map(s.drop_last(), threshold, c, v);
        if s.last().2 > threshold {
            rest.push(
                (s.last().0, s.last().1, spec_calc_cost(s.last().2 as int, c as int, v as int)
                    as i64),
            )
        } else {
            rest
        }
    }
}

/// Sum of all recorded pair occurrences, clamped to the counter range.
pub fn pair_total(counts: &PairCounts) -> (r: u32)
    ensures
        r as int == spec_clamp_u32(spec_pair_total(counts.entries@)),
{
    let mut acc: u64 = 0;
    let mut i: usize = 0;
    proof {
        assert(counts.entries@.take(0) =~= Seq::<(u32, u32, u32)>::empty());
    }
    while i < counts.entries.len()
        invariant
            i <= counts.entries@.len(),
            acc as int == (if spec_pair_total(counts.entries@.take(i as int)) > u64::MAX {
                u64::MAX as int
            } else {
                spec_pair_total(counts.entries@.take(i as int))
            }),
            spec_pair_total(counts.entries@.take(i as int)) >= 0,
        decreases counts.entries@.len() - i,
    {
        let e = counts.entries[i].2;
        proof {
            let pfx = counts.entries@.take(i + 1 as int);
            assert(pfx.drop_last() =~= counts.entries@.take(i as int));
            assert(pfx.last() == counts.entries@[i as int]);
            lemma_pair_total_nonneg(counts.entries@.take(i as int));
        }
        acc = if acc <= u64::MAX - (e as u64) {
            acc + (e as u64)
        } else {
            u64::MAX
        };
        i = i + 1;
    }
    proof {
        assert(counts.entries@.take(counts.entries@.len() as int) =~= counts.entries@);
    }
    if acc > u32::MAX as u64 {
        u32::MAX
    } else {
        acc as u32
    }
}

proof fn lemma_pair_total_nonneg(s: Seq<(u32, u32, u32)>)
    ensures
        spec_pair_total(s) >= 0,
    decreases s.len(),
{
    if s.len() > 0 {
        lemma_pair_total_nonneg(s.drop_last());
    }
}

/// Build the score table for the bigram model: keep the pairs seen more
/// often than the threshold and score each by the smoothing formula, with
/// `c` the clamped total count and `v` the clamped vocabulary size.
pub fn make_score_map(threshold: u32, counts: &PairCounts) -> (r: Vec<(u32, u32, i64)>)
    ensures
        ({
            let c = spec_clamp_u32(spec_pair_total(counts.entries@)) as u32;
            let v = spec_clamp_u32(counts.entries@.len() as int) as u32;
            r@ == spec_score_map(counts.entries@, threshold, c, v)
        }),
        forall|k: int| 0 <= k < r@.len() ==> 0 <= (#[trigger] r@[k]).2 <= crate::cost::MAX_COST,
{
    let c = pair_total(counts);
    let nk = counts.entries.len();
    let v: u32 = if nk > u32::MAX as usize {
        u32::MAX
    } else {
        nk as u32
    };
    let mut r: Vec<(u32, u32, i64)> = Vec::new();
    let mut i: usize = 0;
    proof {
        assert(r@ =~= spec_score_map(counts.entries@.take(0), threshold, c, v));
    }
    while i < counts.entries.len()
        invariant
            i <= counts.entries@.len(),
            r@ == spec_score_map(counts.entries@.take(i as int), threshold, c, v),
            forall|k: int| 0 <= k < r@.len() ==> 0 <= (#[trigger] r@[k]).2
                <= crate::cost::MAX_COST,
        decreases counts.entries@.len() - i,
    {
        let e = counts.entries[i];
        proof {
            let pfx = counts.entries@.take(i + 1 as int);
            assert(pfx.drop_last() =~= counts.entries@.take(i as int));
            assert(pfx.last() == counts.entries@[i as int]);
        }
        if e.2 > threshold {
            let score = calc_cost(e.2, c, v);
            r.push((e.0, e.1, score));
        }
        i = i + 1;
    }
    proof {
        assert(counts.entries@.take(counts.entries@.len() as int) =~= counts.entries@);
    }
    r
}

/// Compose the bigram model the statistics pass produces: the score map
/// over the threshold as its entries, and the n = 0 smoothing value over
/// the merged totals — computed once — as the default every unseen pair
/// reports.
pub fn build_bigram_model(threshold: u32, counts: &PairCounts) -> (r: crate::model::BigramModel)
    ensures
        r.wf(),
        ({
            let c = spec_clamp_u32(spec_pair_total(counts.entries@)) as u32;
            let v = spec_clamp_u32(counts.entries@.len() as int) as u32;
            &&& r.entries@ == spec_score_map(counts.entries@, threshold, c, v)
            &&& r.default_edge_cost == spec_calc_cost(0, c as int, v as int)
        }),
{
    let c = pair_total(counts);
    let nk = counts.entries.len();
    let v: u32 = if nk > u32::MAX as usize {
        u32::MAX
    } else {
        nk as u32
    };
    let entries = make_score_map(threshold, counts);
    let default_edge_cost = calc_cost(0, c, v);
    crate::model::BigramModel { entries, default_edge_cost }
}

} // verus!
