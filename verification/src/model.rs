use vstd::prelude::*;
use crate::cost::MAX_COST;

verus! {

// The static n-gram cost model: a unigram table mapping a dictionary key
// ("surface/reading") to a dense word id and a cost, and a bigram table
// mapping a pair of word ids to an edge cost, with a default for every
// unseen pair.  Both are immutable once built.

/// One dictionary word.  The key is always `surface / '/' / reading`; the
/// word id is dense and model-local, assigned from 1 upward in entry order.
pub struct WordEntry {
    pub key: Vec<char>,
    pub surface: Vec<char>,
    pub reading: Vec<char>,
    pub word_id: u32,
    pub cost: i64,
}

pub open spec fn spec_key_of(surface: Seq<char>, reading: Seq<char>) -> Seq<char> {
    surface + seq!['/'] + reading
}

pub open spec fn entry_wf(e: WordEntry) -> bool {
    &&& e.key@ == spec_key_of(e.surface@, e.reading@)
    &&& e.reading@.len() >= 1
    &&& 0 <= e.cost <= MAX_COST
    &&& e.word_id >= 1
}

pub struct UnigramModel {
    pub entries: Vec<WordEntry>,
}

/// First entry whose key equals `key`, as (word id, cost).
pub open spec fn spec_find(s: Seq<WordEntry>, key: Seq<char>) -> Option<(u32, i64)>
    decreases s.len(),
{
    if s.len() == 0 {
        None
    } else if s[0].key@ == key {
        Some((s[0].word_id, s[0].cost))
    } else {
        spec_find(s.skip(1), key)
    }
}

/// Every dictionary key occurs at most once.  Kept opaque: only the
/// builder and the loader reason about it, and its pairwise quantifier
/// would otherwise burden every client proof.
#[verifier::opaque]
pub open spec fn unigram_keys_distinct(s: Seq<WordEntry>) -> bool {
    forall|i: int, j: int| 0 <= i < j < s.len() ==> (#[trigger] s[i]).key@ != (
    #[trigger] s[j]).key@
}

pub open spec fn unigram_entries_wf(s: Seq<WordEntry>) -> bool {
    &&& forall|k: int| 0 <= k < s.len() ==> entry_wf(#[trigger] s[k])
    &&& forall|k: int| 0 <= k < s.len() ==> (#[trigger] s[k]).word_id == k + 1
    &&& unigram_keys_distinct(s)
    &&& s.len() + 1 <= u32::MAX
}

impl UnigramModel {
    pub open spec fn wf(self) -> bool {
        unigram_entries_wf(self.entries@)
    }

    /// Number of keys the model holds.
    pub fn num_keys(&self) -> (r: usize)
        ensures
            r == self.entries@.len(),
    {
        self.entries.len()
    }

    /// Look a dictionary key up; `Some` exactly when the key is present.
    pub fn find(&self, key: &Vec<char>) -> (r: Option<(u32, i64)>)
        ensures
            r == spec_find(self.entries@, key@),
    {
        entries_find(&self.entries, key)
    }
}

fn entries_find(entries: &Vec<WordEntry>, key: &Vec<char>) -> (r: Option<(u32, i64)>)
    ensures
        r == spec_find(entries@, key@),
{
    let mut i: usize = 0;
    proof {
        assert(entries@.skip(0) =~= entries@);
    }
    while i < entries.len()
        invariant
            i <= entries@.len(),
            spec_find(entries@, key@) == spec_find(entries@.skip(i as int), key@),
        decreases entries@.len() - i,
    {
        proof {
            assert(entries@.skip(i as int)[0] == entries@[i as int]);
            assert(entries@.skip(i as int).skip(1) =~= entries@.skip(i + 1));
        }
        if char_vec_eq(&entries[i].key, key) {
            return Some((entries[i].word_id, entries[i].cost));
        }
        i = i + 1;
    }
    proof {
        assert(entries@.skip(entries@.len() as int) =~= Seq::<WordEntry>::empty());
    }
    None
}

/// A key is present iff some entry carries it.
pub proof fn lemma_find_present(s: Seq<WordEntry>, key: Seq<char>)
    ensures
        spec_find(s, key) is Some <==> exists|k: int|
            0 <= k < s.len() && (#[trigger] s[k]).key@ == key,
    decreases s.len(),
{
    if s.len() > 0 {
        lemma_find_present(s.skip(1), key);
        if s[0].key@ == key {
        } else {
            assert forall|k: int|
                0 <= k < s.len() && (#[trigger] s[k]).key@ == key implies spec_find(s, key)
                is Some by {
                assert(s.skip(1)[k - 1] == s[k]);
            }
            if exists|k: int| 0 <= k < s.skip(1).len() && (#[trigger] s.skip(1)[k]).key@ == key {
                let k = choose|k: int|
                    0 <= k < s.skip(1).len() && (#[trigger] s.skip(1)[k]).key@ == key;
                assert(s[k + 1] == s.skip(1)[k]);
            }
        }
    }
}

pub struct UnigramBuilder {
    pub entries: Vec<WordEntry>,
}

impl UnigramBuilder {
    pub open spec fn wf(self) -> bool {
        unigram_entries_wf(self.entries@)
    }

    pub fn new() -> (r: UnigramBuilder)
        ensures
            r.wf(),
            r.entries@.len() == 0,
    {
        let r = UnigramBuilder { entries: Vec::new() };
        proof {
            reveal(unigram_keys_distinct);
            assert(unigram_keys_distinct(r.entries@));
        }
        r
    }

    /// Add one word.  Succeeds exactly when the cost is in range and the
    /// model is not full; the word id handed out is the entry's position
    /// plus one.  A key may occur once only: a duplicate is refused.
    pub fn add(&mut self, surface: &Vec<char>, reading: &Vec<char>, cost: i64) -> (r: bool)
        requires
            old(self).wf(),
        ensures
            final(self).wf(),
            r == (0 <= cost <= MAX_COST && reading@.len() >= 1 && old(self).entries@.len() + 1
                < u32::MAX && spec_find(old(self).entries@, spec_key_of(surface@, reading@))
                is None),
            r ==> final(self).entries@.len() == old(self).entries@.len() + 1
                && final(self).entries@.drop_last() == old(self).entries@ && {
                let e = final(self).entries@.last();
                e.surface@ == surface@ && e.reading@ == reading@ && e.cost == cost && e.word_id
                    == old(self).entries@.len() + 1
            },
            !r ==> final(self).entries@ == old(self).entries@,
    {
        if !(0 <= cost && cost <= MAX_COST) || reading.len() == 0 {
            return false;
        }
        if self.entries.len() + 1 >= u32::MAX as usize {
            return false;
        }
        let mut key: Vec<char> = Vec::new();
        let mut i: usize = 0;
        while i < surface.len()
            invariant
                i <= surface@.len(),
                key@ == surface@.take(i as int),
            decreases surface@.len() - i,
        {
            key.push(surface[i]);
            proof {
                assert(key@ =~= surface@.take(i + 1 as int));
            }
            i = i + 1;
        }
        key.push('/');
        let mut j: usize = 0;
        proof {
            assert(surface@.take(surface@.len() as int) =~= surface@);
            assert(key@ =~= surface@ + seq!['/'] + reading@.take(0));
        }
        while j < reading.len()
            invariant
                j <= reading@.len(),
                key@ == surface@ + seq!['/'] + reading@.take(j as int),
            decreases reading@.len() - j,
        {
            key.push(reading[j]);
            proof {
                assert(key@ =~= surface@ + seq!['/'] + reading@.take(j + 1 as int));
            }
            j = j + 1;
        }
        proof {
            assert(reading@.take(reading@.len() as int) =~= reading@);
            assert(key@ == spec_key_of(surface@, reading@));
        }
        if let Some(_dup) = entries_find(&self.entries, &key) {
            return false;
        }
        let id = (self.entries.len() + 1) as u32;
        let mut surface2: Vec<char> = Vec::new();
        copy_chars(surface, &mut surface2);
        let mut reading2: Vec<char> = Vec::new();
        copy_chars(reading, &mut reading2);
        let e = WordEntry { key, surface: surface2, reading: reading2, word_id: id, cost };
        let ghost before = self.entries@;
        self.entries.push(e);
        proof {
            assert(self.entries@.drop_last() =~= before);
            lemma_find_present(before, self.entries@.last().key@);
            reveal(unigram_keys_distinct);
            assert forall|i: int, j: int|
                0 <= i < j < self.entries@.len() implies (#[trigger] self.entries@[i]).key@ != (
            #[trigger] self.entries@[j]).key@ by {
                if j == self.entries@.len() - 1 {
                    assert(before[i].key@ != self.entries@.last().key@);
                }
            }
            assert(unigram_keys_distinct(self.entries@));
        }
        true
    }

    pub fn build(self) -> (r: UnigramModel)
        requires
            self.wf(),
        ensures
            r.wf(),
            r.entries@ == self.entries@,
    {
        UnigramModel { entries: self.entries }
    }
}

pub struct BigramModel {
    pub entries: Vec<(u32, u32, i64)>,
    pub default_edge_cost: i64,
}

/// Stored edge cost of a pair, if the pair was seen.
pub open spec fn spec_edge_lookup(s: Seq<(u32, u32, i64)>, l: u32, r: u32) -> Option<i64>
    decreases s.len(),
{
    if s.len() == 0 {
        None
    } else if s[0].0 == l && s[0].1 == r {
        Some(s[0].2)
    } else {
        spec_edge_lookup(s.skip(1), l, r)
    }
}

pub open spec fn bigram_entries_wf(s: Seq<(u32, u32, i64)>) -> bool {
    forall|k: int| 0 <= k < s.len() ==> 0 <= (#[trigger] s[k]).2 <= MAX_COST
}

impl BigramModel {
    pub open spec fn wf(self) -> bool {
        &&& bigram_entries_wf(self.entries@)
        &&& 0 <= self.default_edge_cost <= MAX_COST
    }

    /// Edge cost of a pair: the stored cost for a seen pair, the configured
    /// default — exactly — for every unseen one.
    pub open spec fn spec_edge_cost(self, l: u32, r: u32) -> int {
        match spec_edge_lookup(self.entries@, l, r) {
            Some(c) => c as int,
            None => self.default_edge_cost as int,
        }
    }

    pub fn num_keys(&self) -> (r: usize)
        ensures
            r == self.entries@.len(),
    {
        self.entries.len()
    }

    /// The stored cost of a seen pair; `None` exactly for unseen pairs.
    pub fn get_edge_cost(&self, id_left: u32, id_right: u32) -> (r: Option<i64>)
        ensures
            r == spec_edge_lookup(self.entries@, id_left, id_right),
    {
        let mut i: usize = 0;
        proof {
            assert(self.entries@.skip(0) =~= self.entries@);
        }
        while i < self.entries.len()
            invariant
                i <= self.entries@.len(),
                spec_edge_lookup(self.entries@, id_left, id_right) == spec_edge_lookup(
                    self.entries@.skip(i as int),
                    id_left,
                    id_right,
                ),
            decreases self.entries@.len() - i,
        {
            let e = self.entries[i];
            proof {
                assert(self.entries@.skip(i as int)[0] == self.entries@[i as int]);
                assert(self.entries@.skip(i as int).skip(1) =~= self.entries@.skip(i + 1));
            }
            if e.0 == id_left && e.1 == id_right {
                return Some(e.2);
            }
            i = i + 1;
        }
        proof {
            assert(self.entries@.skip(self.entries@.len() as int) =~= Seq::<
                (u32, u32, i64),
            >::empty());
        }
        None
    }

    /// Total edge cost, falling back to the default for unseen pairs.
    pub fn edge_cost(&self, id_left: u32, id_right: u32) -> (r: i64)
        requires
            self.wf(),
        ensures
            r == self.spec_edge_cost(id_left, id_right),
            0 <= r <= MAX_COST,
    {
        proof {
            lemma_edge_lookup_range(self.entries@, id_left, id_right, *self);
        }
        match self.get_edge_cost(id_left, id_right) {
            Some(c) => c,
            None => self.default_edge_cost,
        }
    }
}

/// A well-formed bigram model reports edge costs inside [0, MAX_COST].
pub proof fn lemma_edge_cost_range(m: BigramModel, l: u32, r: u32)
    requires
        m.wf(),
    ensures
        0 <= m.spec_edge_cost(l, r) <= MAX_COST,
{
    lemma_edge_lookup_range(m.entries@, l, r, m);
}

proof fn lemma_edge_lookup_range(s: Seq<(u32, u32, i64)>, l: u32, r: u32, m: BigramModel)
    requires
        forall|k: int| 0 <= k < s.len() ==> 0 <= (#[trigger] s[k]).2 <= MAX_COST,
    ensures
        match spec_edge_lookup(s, l, r) {
            Some(c) => 0 <= c <= MAX_COST,
            None => true,
        },
    decreases s.len(),
{
    if s.len() > 0 {
        assert(forall|k: int| 0 <= k < s.skip(1).len() ==> (#[trigger] s.skip(1)[k]) == s[k + 1]);
        lemma_edge_lookup_range(s.skip(1), l, r, m);
    }
}

pub struct BigramBuilder {
    pub entries: Vec<(u32, u32, i64)>,
    pub default_edge_cost: i64,
}

impl BigramBuilder {
    pub open spec fn wf(self) -> bool {
        &&& bigram_entries_wf(self.entries@)
        &&& 0 <= self.default_edge_cost <= MAX_COST
    }

    pub fn new() -> (r: BigramBuilder)
        ensures
            r.wf(),
            r.entries@.len() == 0,
            r.default_edge_cost == 0,
    {
        BigramBuilder { entries: Vec::new(), default_edge_cost: 0 }
    }

    /// Add one seen pair; succeeds exactly when the cost is in range.  The
    /// first record of a pair wins; later records of it change nothing.
    pub fn add(&mut self, id_left: u32, id_right: u32, cost: i64) -> (r: bool)
        requires
            old(self).wf(),
        ensures
            final(self).wf(),
            final(self).default_edge_cost == old(self).default_edge_cost,
            r == (0 <= cost <= MAX_COST),
            r ==> forall|a: u32, b: u32| final(self).spec_lookup_view(a, b) == (if a == id_left
                && b == id_right && old(self).spec_lookup_view(a, b) is None {
                Some(cost)
            } else {
                old(self).spec_lookup_view(a, b)
            }),
            !r ==> final(self).entries@ == old(self).entries@,
    {
        if !(0 <= cost && cost <= MAX_COST) {
            return false;
        }
        let ghost before = self.entries@;
        match self.lookup(id_left, id_right) {
            Some(_) => {
                proof {
                    assert forall|a: u32, b: u32| self.spec_lookup_view(a, b) == (if a == id_left
                        && b == id_right && spec_edge_lookup(before, a, b) is None {
                        Some(cost)
                    } else {
                        spec_edge_lookup(before, a, b)
                    }) by {}
                }
            },
            None => {
                let ghost entries0 = self.entries@;
                self.entries.push((id_left, id_right, cost));
                proof {
                    assert forall|k: int| 0 <= k < self.entries@.len() implies 0 <= (
                    #[trigger] self.entries@[k]).2 <= MAX_COST by {
                        if k < entries0.len() {
                            assert(self.entries@[k] == entries0[k]);
                        }
                    }
                    assert forall|a: u32, b: u32| self.spec_lookup_view(a, b) == (if a == id_left
                        && b == id_right && spec_edge_lookup(before, a, b) is None {
                        Some(cost)
                    } else {
                        spec_edge_lookup(before, a, b)
                    }) by {
                        lemma_edge_lookup_push(before, id_left, id_right, cost, a, b);
                    }
                }
            },
        }
        true
    }

    pub open spec fn spec_lookup_view(self, a: u32, b: u32) -> Option<i64> {
        spec_edge_lookup(self.entries@, a, b)
    }

    fn lookup(&self, id_left: u32, id_right: u32) -> (r: Option<i64>)
        ensures
            r == spec_edge_lookup(self.entries@, id_left, id_right),
    {
        let mut i: usize = 0;
        proof {
            assert(self.entries@.skip(0) =~= self.entries@);
        }
        while i < self.entries.len()
            invariant
                i <= self.entries@.len(),
                spec_edge_lookup(self.entries@, id_left, id_right) == spec_edge_lookup(
                    self.entries@.skip(i as int),
                    id_left,
                    id_right,
                ),
            decreases self.entries@.len() - i,
        {
            let e = self.entries[i];
            proof {
                assert(self.entries@.skip(i as int)[0] == self.entries@[i as int]);
                assert(self.entries@.skip(i as int).skip(1) =~= self.entries@.skip(i + 1));
            }
            if e.0 == id_left && e.1 == id_right {
                return Some(e.2);
            }
            i = i + 1;
        }
        proof {
            assert(self.entries@.skip(self.entries@.len() as int) =~= Seq::<
                (u32, u32, i64),
            >::empty());
        }
        None
    }

    /// Set the cost every unseen pair will report.
    pub fn set_default_edge_cost(&mut self, cost: i64)
        requires
            old(self).wf(),
            0 <= cost <= MAX_COST,
        ensures
            final(self).wf(),
            final(self).entries@ == old(self).entries@,
            final(self).default_edge_cost == cost,
    {
        self.default_edge_cost = cost;
    }

    pub fn build(self) -> (r: BigramModel)
        requires
            self.wf(),
        ensures
            r.wf(),
            r.entries@ == self.entries@,
            r.default_edge_cost == self.default_edge_cost,
    {
        BigramModel { entries: self.entries, default_edge_cost: self.default_edge_cost }
    }
}

proof fn lemma_edge_lookup_push(
    s: Seq<(u32, u32, i64)>,
    l: u32,
    r: u32,
    c: i64,
    a: u32,
    b: u32,
)
    requires
        spec_edge_lookup(s, l, r) is None,
    ensures
        spec_edge_lookup(s.push((l, r, c)), a, b) == (if a == l && b == r {
            Some(c)
        } else {
            spec_edge_lookup(s, a, b)
        }),
    decreases s.len(),
{
    let t = s.push((l, r, c));
    assert(t.len() == s.len() + 1);
    if s.len() == 0 {
        assert(t[0] == (l, r, c));
        assert(t.skip(1) =~= Seq::<(u32, u32, i64)>::empty());
        assert(spec_edge_lookup(t.skip(1), a, b) is None);
    } else {
        assert(t[0] == s[0]);
        assert(t.skip(1) =~= s.skip(1).push((l, r, c)));
        lemma_edge_lookup_push(s.skip(1), l, r, c, a, b);
        assert(spec_edge_lookup(t, a, b) == (if t[0].0 == a && t[0].1 == b {
            Some(t[0].2)
        } else {
            spec_edge_lookup(t.skip(1), a, b)
        }));
        assert(spec_edge_lookup(s, a, b) == (if s[0].0 == a && s[0].1 == b {
            Some(s[0].2)
        } else {
            spec_edge_lookup(s.skip(1), a, b)
        }));
    }
}

/// Character-for-character equality of two character vectors.
pub fn char_vec_eq(a: &Vec<char>, b: &Vec<char>) -> (r: bool)
    ensures
        r == (a@ == b@),
{
    if a.len() != b.len() {
        proof {
            assert(a@.len() != b@.len());
        }
        return false;
    }
    let mut i: usize = 0;
    while i < a.len()
        invariant
            i <= a@.len(),
            a@.len() == b@.len(),
            forall|j: int| 0 <= j < i ==> a@[j] == b@[j],
        decreases a@.len() - i,
    {
        if a[i] != b[i] {
            return false;
        }
        i = i + 1;
    }
    proof {
        assert(a@ =~= b@);
    }
    true
}

/// Append a copy of `src` onto `dst`.
pub fn copy_chars(src: &Vec<char>, dst: &mut Vec<char>)
    ensures
        final(dst)@ == old(dst)@ + src@,
{
    let mut i: usize = 0;
    proof {
        assert(dst@ =~= old(dst)@ + src@.take(0));
    }
    while i < src.len()
        invariant
            i <= src@.len(),
            dst@ == old(dst)@ + src@.take(i as int),
        decreases src@.len() - i,
    {
        dst.push(src[i]);
        proof {
            assert(dst@ =~= old(dst)@ + src@.take(i + 1 as int));
        }
        i = i + 1;
    }
    proof {
        assert(src@.take(src@.len() as int) =~= src@);
    }
}

} // verus!
