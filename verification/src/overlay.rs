use vstd::prelude::*;
use crate::cost::MAX_COST;
use crate::words::{spec_words_to_bytes, spec_bytes_to_words, words_to_bytes, bytes_to_words,
    lemma_words_bytes_round_trip};

verus! {

// The user-adaptation overlay: a small mutable record of which words and
// which adjacent word pairs the user has selected, layered over the static
// system model.  A learned entry biases the effective cost downward by a
// fixed amount, so a word the user picked dominates an otherwise tied rival.

/// Fixed recency bias subtracted from the system cost of a learned entry.
/// This subtractive policy is the documented default blend of system and
/// learned costs; a clamping policy (pinning a learned entry strictly
/// below its rivals' system costs) would be an alternative blend.
pub const LEARN_BONUS: i64 = 500_000;

pub const OVERLAY_MAGIC: u32 = 0x414B5A4F;

pub const OVERLAY_VERSION: u32 = 1;

pub struct UserOverlay {
    /// (word id, selection count), one entry per learned word.
    pub unigrams: Vec<(u32, u32)>,
    /// (left word id, right word id, selection count), one entry per learned pair.
    pub bigrams: Vec<(u32, u32, u32)>,
}

pub open spec fn spec_uni_count(s: Seq<(u32, u32)>, id: u32) -> int
    decreases s.len(),
{
    if s.len() == 0 {
        0
    } else if s.last().0 == id {
        s.last().1 as int
    } else {
        spec_uni_count(s.drop_last(), id)
    }
}

pub open spec fn spec_bi_count(s: Seq<(u32, u32, u32)>, l: u32, r: u32) -> int
    decreases s.len(),
{
    if s.len() == 0 {
        0
    } else if s.last().0 == l && s.last().1 == r {
        s.last().2 as int
    } else {
        spec_bi_count(s.drop_last(), l, r)
    }
}

pub open spec fn uni_wf(s: Seq<(u32, u32)>) -> bool {
    &&& forall|i: int, j: int| 0 <= i < j < s.len() ==> (#[trigger] s[i]).0 != (#[trigger] s[j]).0
    &&& forall|i: int| 0 <= i < s.len() ==> (#[trigger] s[i]).1 >= 1
}

pub open spec fn bi_wf(s: Seq<(u32, u32, u32)>) -> bool {
    &&& forall|i: int, j: int|
        0 <= i < j < s.len() ==> ((#[trigger] s[i]).0 != (#[trigger] s[j]).0 || s[i].1 != s[j].1)
    &&& forall|i: int| 0 <= i < s.len() ==> (#[trigger] s[i]).2 >= 1
}

impl UserOverlay {
    pub open spec fn wf(self) -> bool {
        &&& uni_wf(self.unigrams@)
        &&& bi_wf(self.bigrams@)
    }

    /// A word the user has selected at least once.
    pub open spec fn spec_learned(self, id: u32) -> bool {
        spec_uni_count(self.unigrams@, id) > 0
    }

    /// An adjacent pair the user has selected at least once.
    pub open spec fn spec_pair_learned(self, l: u32, r: u32) -> bool {
        spec_bi_count(self.bigrams@, l, r) > 0
    }

    /// System unigram cost combined with the learned adjustment.
    pub open spec fn spec_effective_cost(self, id: u32, system_cost: int) -> int {
        if self.spec_learned(id) {
            system_cost - LEARN_BONUS
        } else {
            system_cost
        }
    }

    /// System edge cost combined with the learned adjustment.
    pub open spec fn spec_effective_edge_cost(self, l: u32, r: u32, system_cost: int) -> int {
        if self.spec_pair_learned(l, r) {
            system_cost - LEARN_BONUS
        } else {
            system_cost
        }
    }

    pub fn new() -> (r: UserOverlay)
        ensures
            r.wf(),
            r.unigrams@ == Seq::<(u32, u32)>::empty(),
            r.bigrams@ == Seq::<(u32, u32, u32)>::empty(),
    {
        UserOverlay { unigrams: Vec::new(), bigrams: Vec::new() }
    }

    pub fn uni_count(&self, id: u32) -> (r: u32)
        requires
            self.wf(),
        ensures
            r as int == spec_uni_count(self.unigrams@, id),
    {
        match uni_find(&self.unigrams, id) {
            Some(i) => {
                proof {
                    lemma_uni_count_at(self.unigrams@, id, i as int);
                }
                self.unigrams[i].1
            },
            None => {
                proof {
                    lemma_uni_count_absent(self.unigrams@, id);
                }
                0
            },
        }
    }

    pub fn bi_count(&self, l: u32, r: u32) -> (res: u32)
        requires
            self.wf(),
        ensures
            res as int == spec_bi_count(self.bigrams@, l, r),
    {
        match bi_find(&self.bigrams, l, r) {
            Some(i) => {
                proof {
                    lemma_bi_count_at(self.bigrams@, l, r, i as int);
                }
                self.bigrams[i].2
            },
            None => {
                proof {
                    lemma_bi_count_absent(self.bigrams@, l, r);
                }
                0
            },
        }
    }

    /// Effective unigram cost of a word: learned entries are pushed below
    /// their system cost by the fixed bonus.
    pub fn effective_cost(&self, word_id: u32, system_cost: i64) -> (r: i64)
        requires
            self.wf(),
            -MAX_COST <= system_cost <= MAX_COST,
        ensures
            r == self.spec_effective_cost(word_id, system_cost as int),
            -MAX_COST - LEARN_BONUS <= r <= MAX_COST,
    {
        if self.uni_count(word_id) > 0 {
            system_cost - LEARN_BONUS
        } else {
            system_cost
        }
    }

    /// Effective bigram cost of an adjacent pair, learned pairs biased alike.
    pub fn effective_edge_cost(&self, id_left: u32, id_right: u32, system_cost: i64) -> (r: i64)
        requires
            self.wf(),
            -MAX_COST <= system_cost <= MAX_COST,
        ensures
            r == self.spec_effective_edge_cost(id_left, id_right, system_cost as int),
            -MAX_COST - LEARN_BONUS <= r <= MAX_COST,
    {
        if self.bi_count(id_left, id_right) > 0 {
            system_cost - LEARN_BONUS
        } else {
            system_cost
        }
    }

    /// Record one committed path: every word of it becomes (or stays)
    /// learned, and so does every adjacent pair.  Fallback nodes carry no
    /// word id and are passed as `None`; they leave the overlay untouched.
    pub fn record_selection(&mut self, path: &Vec<Option<u32>>)
        requires
            old(self).wf(),
        ensures
            final(self).wf(),
            record_post(*old(self), *final(self), path@),
    {
        let ghost orig = *self;
        let mut k: usize = 0;
        while k < path.len()
            invariant
                self.wf(),
                k <= path@.len(),
                self.bigrams@ == orig.bigrams@,
                forall|id: u32| #[trigger] self.spec_learned(id) <==> orig.spec_learned(id)
                    || exists|j: int| 0 <= j < k && path@[j] == Some(id),
            decreases path@.len() - k,
        {
            if let Some(id) = path[k] {
                self.bump_uni(id);
            }
            proof {
                assert forall|id: u32| #[trigger] self.spec_learned(id) implies orig.spec_learned(
                    id,
                ) || exists|j: int| 0 <= j < k + 1 && path@[j] == Some(id) by {
                    if !orig.spec_learned(id) {
                        if path@[k as int] != Some(id) {
                            let j = choose|j: int| 0 <= j < k && path@[j] == Some(id);
                            assert(0 <= j < k + 1 && path@[j] == Some(id));
                        }
                    }
                }
            }
            k = k + 1;
        }
        let ghost mid = *self;
        proof {
            assert(forall|id: u32| #[trigger] mid.spec_learned(id) <==> orig.spec_learned(id)
                || exists|j: int| 0 <= j < path@.len() && path@[j] == Some(id));
            assert(mid.bigrams@ == orig.bigrams@);
        }
        let n = path.len();
        if n > 0 {
            let mut k2: usize = 0;
            while k2 < n - 1
                invariant
                    self.wf(),
                    n == path@.len(),
                    k2 <= n - 1,
                    self.unigrams@ == mid.unigrams@,
                    forall|l: u32, r: u32| #[trigger] self.spec_pair_learned(l, r)
                        <==> mid.spec_pair_learned(l, r) || exists|j: int|
                        0 <= j < k2 && #[trigger] path@[j] == Some(l) && path@[j + 1] == Some(r),
                decreases path@.len() - k2,
            {
                if let (Some(l), Some(r)) = (path[k2], path[k2 + 1]) {
                    self.bump_bi(l, r);
                }
                proof {
                    assert forall|l: u32, r: u32| #[trigger] self.spec_pair_learned(l, r) implies
                        mid.spec_pair_learned(l, r) || exists|j: int|
                        0 <= j < k2 + 1 && #[trigger] path@[j] == Some(l) && path@[j + 1] == Some(
                        r,
                    ) by {
                        if !mid.spec_pair_learned(l, r) {
                            if !(path@[k2 as int] == Some(l) && path@[k2 + 1] == Some(r)) {
                                let j = choose|j: int|
                                    0 <= j < k2 && #[trigger] path@[j] == Some(l) && path@[j + 1]
                                        == Some(r);
                                assert(0 <= j < k2 + 1 && path@[j] == Some(l) && path@[j + 1]
                                    == Some(r));
                            }
                        }
                    }
                }
                k2 = k2 + 1;
            }
        }
        proof {
            assert forall|id: u32| #[trigger] self.spec_learned(id) <==> orig.spec_learned(id)
                || exists|j: int| 0 <= j < path@.len() && path@[j] == Some(id) by {
                assert(self.unigrams@ == mid.unigrams@);
                assert(self.spec_learned(id) == mid.spec_learned(id));
                assert(mid.spec_learned(id) <==> orig.spec_learned(id) || exists|j: int|
                    0 <= j < path@.len() && path@[j] == Some(id));
            }
            assert forall|l: u32, r: u32| #[trigger] self.spec_pair_learned(l, r)
                <==> orig.spec_pair_learned(l, r) || exists|j: int|
                0 <= j < path@.len() - 1 && #[trigger] path@[j] == Some(l) && path@[j + 1] == Some(
                r,
            ) by {
                if n == 0 {
                    assert(self.spec_pair_learned(l, r) == orig.spec_pair_learned(l, r));
                } else {
                    assert(mid.spec_pair_learned(l, r) == orig.spec_pair_learned(l, r));
                    assert(self.spec_pair_learned(l, r) <==> mid.spec_pair_learned(l, r)
                        || exists|j: int|
                        0 <= j < n - 1 && #[trigger] path@[j] == Some(l) && path@[j + 1] == Some(
                        r,
                    ));
                }
            }
        }
    }

    fn bump_uni(&mut self, id: u32)
        requires
            old(self).wf(),
        ensures
            final(self).wf(),
            final(self).bigrams@ == old(self).bigrams@,
            forall|x: u32| #[trigger] final(self).spec_learned(x) <==> old(self).spec_learned(x)
                || x == id,
    {
        match uni_find(&self.unigrams, id) {
            Some(i) => {
                proof {
                    lemma_uni_count_at(self.unigrams@, id, i as int);
                }
                let c = self.unigrams[i].1;
                let c2 = if c < u32::MAX {
                    c + 1
                } else {
                    c
                };
                let ghost before = self.unigrams@;
                self.unigrams.set(i, (id, c2));
                proof {
                    assert(c >= 1);
                    assert(c2 >= 1);
                    assert(self.unigrams@ =~= before.update(i as int, (id, c2)));
                    assert(self.unigrams@ =~= before.update(
                        i as int,
                        (before[i as int].0, c2),
                    ));
                    assert forall|x: u32|
                        spec_uni_count(self.unigrams@, x) == (if x == id {
                            c2 as int
                        } else {
                            spec_uni_count(before, x)
                        }) by {
                        lemma_uni_count_update(before, i as int, c2, x);
                    }
                    assert forall|a: int| 0 <= a < self.unigrams@.len() implies (
                    #[trigger] self.unigrams@[a]).0 == before[a].0 && self.unigrams@[a].1
                        >= 1 by {}
                    assert(uni_wf(self.unigrams@));
                }
            },
            None => {
                proof {
                    lemma_uni_count_absent(self.unigrams@, id);
                }
                let ghost before = self.unigrams@;
                self.unigrams.push((id, 1));
                proof {
                    assert(self.unigrams@.drop_last() =~= before);
                    assert(self.unigrams@.last() == (id, 1u32));
                    assert(spec_uni_count(self.unigrams@, id) == 1);
                    assert forall|x: u32| x != id implies spec_uni_count(self.unigrams@, x)
                        == spec_uni_count(before, x) by {}
                    assert forall|a: int, b: int|
                        0 <= a < b < self.unigrams@.len() implies (
                    #[trigger] self.unigrams@[a]).0 != (#[trigger] self.unigrams@[b]).0 by {
                        if b == self.unigrams@.len() - 1 {
                            assert(before[a].0 != id);
                        }
                    }
                    assert(uni_wf(self.unigrams@));
                }
            },
        }
    }

    fn bump_bi(&mut self, l: u32, r: u32)
        requires
            old(self).wf(),
        ensures
            final(self).wf(),
            final(self).unigrams@ == old(self).unigrams@,
            forall|a: u32, b: u32| #[trigger] final(self).spec_pair_learned(a, b) <==> old(
                self,
            ).spec_pair_learned(a, b) || (a == l && b == r),
    {
        match bi_find(&self.bigrams, l, r) {
            Some(i) => {
                proof {
                    lemma_bi_count_at(self.bigrams@, l, r, i as int);
                }
                let c = self.bigrams[i].2;
                let c2 = if c < u32::MAX {
                    c + 1
                } else {
                    c
                };
                let ghost before = self.bigrams@;
                self.bigrams.set(i, (l, r, c2));
                proof {
                    assert(c >= 1);
                    assert(c2 >= 1);
                    assert(self.bigrams@ =~= before.update(
                        i as int,
                        (before[i as int].0, before[i as int].1, c2),
                    ));
                    assert forall|a: u32, b: u32|
                        spec_bi_count(self.bigrams@, a, b) == (if a == l && b == r {
                            c2 as int
                        } else {
                            spec_bi_count(before, a, b)
                        }) by {
                        lemma_bi_count_update(before, i as int, c2, a, b);
                    }
                    assert forall|a: int| 0 <= a < self.bigrams@.len() implies (
                    #[trigger] self.bigrams@[a]).0 == before[a].0 && self.bigrams@[a].1
                        == before[a].1 && self.bigrams@[a].2 >= 1 by {}
                    assert(bi_wf(self.bigrams@));
                }
            },
            None => {
                proof {
                    lemma_bi_count_absent(self.bigrams@, l, r);
                }
                let ghost before = self.bigrams@;
                self.bigrams.push((l, r, 1));
                proof {
                    assert(self.bigrams@.drop_last() =~= before);
                    assert(self.bigrams@.last() == (l, r, 1u32));
                    assert(spec_bi_count(self.bigrams@, l, r) == 1);
                    assert forall|a: u32, b: u32| !(a == l && b == r) implies spec_bi_count(
                        self.bigrams@,
                        a,
                        b,
                    ) == spec_bi_count(before, a, b) by {}
                    assert forall|a: int, b: int|
                        0 <= a < b < self.bigrams@.len() implies ((#[trigger] self.bigrams@[a]).0
                        != (#[trigger] self.bigrams@[b]).0 || self.bigrams@[a].1
                        != self.bigrams@[b].1) by {
                        if b == self.bigrams@.len() - 1 {
                            assert(before[a].0 != l || before[a].1 != r);
                        }
                    }
                    assert(bi_wf(self.bigrams@));
                }
            },
        }
    }
}

/// What `record_selection` promises: learned state grows by exactly the
/// words and adjacent pairs of the recorded path.
pub open spec fn record_post(o: UserOverlay, n: UserOverlay, path: Seq<Option<u32>>) -> bool {
    &&& forall|id: u32| #[trigger] n.spec_learned(id) <==> o.spec_learned(id) || exists|j: int|
        0 <= j < path.len() && path[j] == Some(id)
    &&& forall|l: u32, r: u32| #[trigger] n.spec_pair_learned(l, r) <==> o.spec_pair_learned(l, r)
        || exists|j: int| 0 <= j < path.len() - 1 && #[trigger] path[j] == Some(l) && path[j + 1]
        == Some(r)
}

/// Reinforcement only helps: after a recording, every effective cost sits
/// at or below its old value, and each recorded word is learned.
pub proof fn lemma_record_lowers_costs(o0: UserOverlay, o1: UserOverlay, ids: Seq<Option<u32>>)
    requires
        record_post(o0, o1, ids),
    ensures
        forall|id: u32, sys: int| #[trigger] o1.spec_effective_cost(id, sys)
            <= o0.spec_effective_cost(id, sys),
        forall|l: u32, r: u32, sys: int| #[trigger] o1.spec_effective_edge_cost(l, r, sys)
            <= o0.spec_effective_edge_cost(l, r, sys),
        forall|j: int| 0 <= j < ids.len() && (#[trigger] ids[j]) is Some ==> o1.spec_learned(
            ids[j]->0,
        ),
{
    assert forall|id: u32, sys: int| #[trigger] o1.spec_effective_cost(id, sys)
        <= o0.spec_effective_cost(id, sys) by {
        assert(o1.spec_learned(id) <==> o0.spec_learned(id) || exists|j: int|
            0 <= j < ids.len() && ids[j] == Some(id));
    }
    assert forall|l: u32, r: u32, sys: int| #[trigger] o1.spec_effective_edge_cost(l, r, sys)
        <= o0.spec_effective_edge_cost(l, r, sys) by {
        assert(o1.spec_pair_learned(l, r) <==> o0.spec_pair_learned(l, r) || exists|j: int|
            0 <= j < ids.len() - 1 && #[trigger] ids[j] == Some(l) && ids[j + 1] == Some(r));
    }
    assert forall|j: int|
        0 <= j < ids.len() && (#[trigger] ids[j]) is Some implies o1.spec_learned(ids[j]->0) by {
        assert(ids[j] == Some(ids[j]->0));
    }
}

/// Reinforcement saturates: recording the same selection a second time
/// leaves every effective cost exactly where the first recording put it.
pub proof fn lemma_record_idempotent(
    o0: UserOverlay,
    o1: UserOverlay,
    o2: UserOverlay,
    path: Seq<Option<u32>>,
)
    requires
        record_post(o0, o1, path),
        record_post(o1, o2, path),
    ensures
        forall|id: u32, sys: int| #[trigger] o2.spec_effective_cost(id, sys)
            == o1.spec_effective_cost(id, sys),
        forall|l: u32, r: u32, sys: int| #[trigger] o2.spec_effective_edge_cost(l, r, sys)
            == o1.spec_effective_edge_cost(l, r, sys),
{
    assert forall|id: u32| o2.spec_learned(id) == o1.spec_learned(id) by {
        assert(o2.spec_learned(id) <==> o1.spec_learned(id) || exists|j: int|
            0 <= j < path.len() && path[j] == Some(id));
    }
    assert forall|l: u32, r: u32| o2.spec_pair_learned(l, r) == o1.spec_pair_learned(l, r) by {
        assert(o2.spec_pair_learned(l, r) <==> o1.spec_pair_learned(l, r) || exists|j: int|
            0 <= j < path.len() - 1 && #[trigger] path[j] == Some(l) && path[j + 1] == Some(r));
    }
}

fn uni_find(s: &Vec<(u32, u32)>, id: u32) -> (r: Option<usize>)
    ensures
        match r {
            Some(i) => i < s@.len() && s@[i as int].0 == id,
            None => forall|j: int| 0 <= j < s@.len() ==> (#[trigger] s@[j]).0 != id,
        },
{
    let mut i: usize = 0;
    while i < s.len()
        invariant
            i <= s@.len(),
            forall|j: int| 0 <= j < i ==> (#[trigger] s@[j]).0 != id,
        decreases s@.len() - i,
    {
        if s[i].0 == id {
            return Some(i);
        }
        i = i + 1;
    }
    None
}

fn bi_find(s: &Vec<(u32, u32, u32)>, l: u32, r: u32) -> (res: Option<usize>)
    ensures
        match res {
            Some(i) => i < s@.len() && s@[i as int].0 == l && s@[i as int].1 == r,
            None => forall|j: int|
                0 <= j < s@.len() ==> ((#[trigger] s@[j]).0 != l || s@[j].1 != r),
        },
{
    let mut i: usize = 0;
    while i < s.len()
        invariant
            i <= s@.len(),
            forall|j: int| 0 <= j < i ==> ((#[trigger] s@[j]).0 != l || s@[j].1 != r),
        decreases s@.len() - i,
    {
        if s[i].0 == l && s[i].1 == r {
            return Some(i);
        }
        i = i + 1;
    }
    None
}

proof fn lemma_uni_count_absent(s: Seq<(u32, u32)>, id: u32)
    requires
        forall|j: int| 0 <= j < s.len() ==> (#[trigger] s[j]).0 != id,
    ensures
        spec_uni_count(s, id) == 0,
    decreases s.len(),
{
    if s.len() > 0 {
        lemma_uni_count_absent(s.drop_last(), id);
    }
}

proof fn lemma_uni_count_at(s: Seq<(u32, u32)>, id: u32, i: int)
    requires
        uni_wf(s),
        0 <= i < s.len(),
        s[i].0 == id,
    ensures
        spec_uni_count(s, id) == s[i].1 as int,
    decreases s.len(),
{
    if i == s.len() - 1 {
    } else {
        lemma_uni_count_at(s.drop_last(), id, i);
    }
}

proof fn lemma_uni_count_update(s: Seq<(u32, u32)>, i: int, c: u32, x: u32)
    requires
        uni_wf(s),
        0 <= i < s.len(),
    ensures
        spec_uni_count(s.update(i, (s[i].0, c)), x) == if x == s[i].0 {
            c as int
        } else {
            spec_uni_count(s, x)
        },
    decreases s.len(),
{
    let t = s.update(i, (s[i].0, c));
    if i == s.len() - 1 {
        assert(t.drop_last() =~= s.drop_last());
        if x != s[i].0 {
        } else {
            lemma_uni_count_at(s, x, i);
        }
    } else {
        assert(t.drop_last() =~= s.drop_last().update(i, (s[i].0, c)));
        lemma_uni_count_update(s.drop_last(), i, c, x);
    }
}

proof fn lemma_bi_count_absent(s: Seq<(u32, u32, u32)>, l: u32, r: u32)
    requires
        forall|j: int| 0 <= j < s.len() ==> ((#[trigger] s[j]).0 != l || s[j].1 != r),
    ensures
        spec_bi_count(s, l, r) == 0,
    decreases s.len(),
{
    if s.len() > 0 {
        lemma_bi_count_absent(s.drop_last(), l, r);
    }
}

proof fn lemma_bi_count_at(s: Seq<(u32, u32, u32)>, l: u32, r: u32, i: int)
    requires
        bi_wf(s),
        0 <= i < s.len(),
        s[i].0 == l,
        s[i].1 == r,
    ensures
        spec_bi_count(s, l, r) == s[i].2 as int,
    decreases s.len(),
{
    if i == s.len() - 1 {
    } else {
        lemma_bi_count_at(s.drop_last(), l, r, i);
    }
}

proof fn lemma_bi_count_update(s: Seq<(u32, u32, u32)>, i: int, c: u32, a: u32, b: u32)
    requires
        bi_wf(s),
        0 <= i < s.len(),
    ensures
        spec_bi_count(s.update(i, (s[i].0, s[i].1, c)), a, b) == if a == s[i].0 && b == s[i].1 {
            c as int
        } else {
            spec_bi_count(s, a, b)
        },
    decreases s.len(),
{
    let t = s.update(i, (s[i].0, s[i].1, c));
    if i == s.len() - 1 {
        assert(t.drop_last() =~= s.drop_last());
        if a == s[i].0 && b == s[i].1 {
            lemma_bi_count_at(s, a, b, i);
        }
    } else {
        assert(t.drop_last() =~= s.drop_last().update(i, (s[i].0, s[i].1, c)));
        lemma_bi_count_update(s.drop_last(), i, c, a, b);
    }
}



// --- persistence -----------------------------------------------------------

pub open spec fn spec_uni_words(s: Seq<(u32, u32)>) -> Seq<u32>
    decreases s.len(),
{
    if s.len() == 0 {
        Seq::empty()
    } else {
        spec_uni_words(s.drop_last()) + seq![s.last().0, s.last().1]
    }
}

pub open spec fn spec_bi_words(s: Seq<(u32, u32, u32)>) -> Seq<u32>
    decreases s.len(),
{
    if s.len() == 0 {
        Seq::empty()
    } else {
        spec_bi_words(s.drop_last()) + seq![s.last().0, s.last().1, s.last().2]
    }
}

/// The overlay file: magic, version, the two entry counts, then the learned
/// unigram pairs and the learned bigram triples, all as 32-bit words.
pub open spec fn spec_overlay_words(o: UserOverlay) -> Seq<u32> {
    seq![
        OVERLAY_MAGIC,
        OVERLAY_VERSION,
        o.unigrams@.len() as u32,
        o.bigrams@.len() as u32,
    ] + spec_uni_words(o.unigrams@) + spec_bi_words(o.bigrams@)
}

pub open spec fn spec_overlay_bytes(o: UserOverlay) -> Seq<u8> {
    spec_words_to_bytes(spec_overlay_words(o))
}

/// The first `n` unigram records read back out of a word stream.
pub open spec fn spec_take_uni(ws: Seq<u32>, n: int) -> Seq<(u32, u32)>
    decreases n,
{
    if n <= 0 {
        Seq::empty()
    } else {
        spec_take_uni(ws, n - 1).push((ws[4 + 2 * (n - 1)], ws[5 + 2 * (n - 1)]))
    }
}

/// The first `n` bigram records read back, starting at word offset `off`.
pub open spec fn spec_take_bi(ws: Seq<u32>, off: int, n: int) -> Seq<(u32, u32, u32)>
    decreases n,
{
    if n <= 0 {
        Seq::empty()
    } else {
        spec_take_bi(ws, off, n - 1).push(
            (ws[off + 3 * (n - 1)], ws[off + 3 * (n - 1) + 1], ws[off + 3 * (n - 1) + 2]),
        )
    }
}

pub open spec fn spec_parse_overlay_words(ws: Seq<u32>) -> Option<
    (Seq<(u32, u32)>, Seq<(u32, u32, u32)>),
> {
    if ws.len() < 4 {
        None
    } else if ws[0] != OVERLAY_MAGIC || ws[1] != OVERLAY_VERSION {
        None
    } else {
        let nu = ws[2] as int;
        let nb = ws[3] as int;
        if ws.len() != 4 + 2 * nu + 3 * nb {
            None
        } else {
            let uni = spec_take_uni(ws, nu);
            let bi = spec_take_bi(ws, 4 + 2 * nu, nb);
            if uni_wf(uni) && bi_wf(bi) {
                Some((uni, bi))
            } else {
                None
            }
        }
    }
}

pub open spec fn spec_parse_overlay(bs: Seq<u8>) -> Option<
    (Seq<(u32, u32)>, Seq<(u32, u32, u32)>),
> {
    match spec_bytes_to_words(bs) {
        Some(ws) => spec_parse_overlay_words(ws),
        None => None,
    }
}

proof fn lemma_take_uni(ws: Seq<u32>, n: int, i: int)
    requires
        0 <= i < n,
    ensures
        spec_take_uni(ws, n).len() == n,
        spec_take_uni(ws, n)[i] == (ws[4 + 2 * i], ws[5 + 2 * i]),
    decreases n,
{
    lemma_take_uni_len(ws, n);
    lemma_take_uni_len(ws, n - 1);
    if i < n - 1 {
        lemma_take_uni(ws, n - 1, i);
    }
}

proof fn lemma_take_uni_len(ws: Seq<u32>, n: int)
    ensures
        spec_take_uni(ws, n).len() == if n <= 0 { 0 } else { n },
    decreases n,
{
    if n > 0 {
        lemma_take_uni_len(ws, n - 1);
    }
}

proof fn lemma_take_bi(ws: Seq<u32>, off: int, n: int, i: int)
    requires
        0 <= i < n,
    ensures
        spec_take_bi(ws, off, n).len() == n,
        spec_take_bi(ws, off, n)[i] == (ws[off + 3 * i], ws[off + 3 * i + 1], ws[off + 3 * i + 2]),
    decreases n,
{
    lemma_take_bi_len(ws, off, n);
    lemma_take_bi_len(ws, off, n - 1);
    if i < n - 1 {
        lemma_take_bi(ws, off, n - 1, i);
    }
}

proof fn lemma_take_bi_len(ws: Seq<u32>, off: int, n: int)
    ensures
        spec_take_bi(ws, off, n).len() == if n <= 0 { 0 } else { n },
    decreases n,
{
    if n > 0 {
        lemma_take_bi_len(ws, off, n - 1);
    }
}

proof fn lemma_uni_words_index(s: Seq<(u32, u32)>, i: int)
    requires
        0 <= i < s.len(),
    ensures
        spec_uni_words(s).len() == 2 * s.len(),
        spec_uni_words(s)[2 * i] == s[i].0,
        spec_uni_words(s)[2 * i + 1] == s[i].1,
    decreases s.len(),
{
    lemma_uni_words_len(s);
    lemma_uni_words_len(s.drop_last());
    if i < s.len() - 1 {
        lemma_uni_words_index(s.drop_last(), i);
    }
}

proof fn lemma_uni_words_len(s: Seq<(u32, u32)>)
    ensures
        spec_uni_words(s).len() == 2 * s.len(),
    decreases s.len(),
{
    if s.len() > 0 {
        lemma_uni_words_len(s.drop_last());
    }
}

proof fn lemma_bi_words_index(s: Seq<(u32, u32, u32)>, i: int)
    requires
        0 <= i < s.len(),
    ensures
        spec_bi_words(s).len() == 3 * s.len(),
        spec_bi_words(s)[3 * i] == s[i].0,
        spec_bi_words(s)[3 * i + 1] == s[i].1,
        spec_bi_words(s)[3 * i + 2] == s[i].2,
    decreases s.len(),
{
    lemma_bi_words_len(s);
    lemma_bi_words_len(s.drop_last());
    if i < s.len() - 1 {
        lemma_bi_words_index(s.drop_last(), i);
    }
}

proof fn lemma_bi_words_len(s: Seq<(u32, u32, u32)>)
    ensures
        spec_bi_words(s).len() == 3 * s.len(),
    decreases s.len(),
{
    if s.len() > 0 {
        lemma_bi_words_len(s.drop_last());
    }
}

/// Parsing a serialized overlay gives back exactly its learned entries.
pub proof fn lemma_overlay_round_trip(o: UserOverlay)
    requires
        o.wf(),
        o.unigrams@.len() <= u32::MAX,
        o.bigrams@.len() <= u32::MAX,
    ensures
        spec_parse_overlay(spec_overlay_bytes(o)) == Some((o.unigrams@, o.bigrams@)),
{
    let ws = spec_overlay_words(o);
    lemma_words_bytes_round_trip(ws);
    lemma_uni_words_len(o.unigrams@);
    lemma_bi_words_len(o.bigrams@);
    let nu = o.unigrams@.len() as int;
    let nb = o.bigrams@.len() as int;
    assert(ws.len() == 4 + 2 * nu + 3 * nb);
    assert(ws[2] == nu as u32 && ws[3] == nb as u32);
    let uni = spec_take_uni(ws, nu);
    let bi = spec_take_bi(ws, 4 + 2 * nu, nb);
    lemma_take_uni_len(ws, nu);
    lemma_take_bi_len(ws, 4 + 2 * nu, nb);
    assert forall|i: int| 0 <= i < nu implies uni[i] == o.unigrams@[i] by {
        lemma_take_uni(ws, nu, i);
        lemma_uni_words_index(o.unigrams@, i);
        assert(ws[4 + 2 * i] == spec_uni_words(o.unigrams@)[2 * i]);
        assert(ws[5 + 2 * i] == spec_uni_words(o.unigrams@)[2 * i + 1]);
        assert(o.unigrams@[i] == (o.unigrams@[i].0, o.unigrams@[i].1));
    }
    assert(uni =~= o.unigrams@);
    assert forall|i: int| 0 <= i < nb implies bi[i] == o.bigrams@[i] by {
        lemma_take_bi(ws, 4 + 2 * nu, nb, i);
        lemma_bi_words_index(o.bigrams@, i);
        assert(ws[4 + 2 * nu + 3 * i] == spec_bi_words(o.bigrams@)[3 * i]);
        assert(ws[4 + 2 * nu + 3 * i + 1] == spec_bi_words(o.bigrams@)[3 * i + 1]);
        assert(ws[4 + 2 * nu + 3 * i + 2] == spec_bi_words(o.bigrams@)[3 * i + 2]);
        assert(o.bigrams@[i] == (o.bigrams@[i].0, o.bigrams@[i].1, o.bigrams@[i].2));
    }
    assert(bi =~= o.bigrams@);
}

/// Persistence round trip: an overlay parsed back from its own serialized
/// form reproduces every effective cost of the original.
pub proof fn lemma_persist_round_trip(o: UserOverlay, o2: UserOverlay)
    requires
        o.wf(),
        o.unigrams@.len() <= u32::MAX,
        o.bigrams@.len() <= u32::MAX,
        spec_parse_overlay(spec_overlay_bytes(o)) == Some((o2.unigrams@, o2.bigrams@)),
    ensures
        forall|id: u32, sys: int| #[trigger] o2.spec_effective_cost(id, sys)
            == o.spec_effective_cost(id, sys),
        forall|l: u32, r: u32, sys: int| #[trigger] o2.spec_effective_edge_cost(l, r, sys)
            == o.spec_effective_edge_cost(l, r, sys),
{
    lemma_overlay_round_trip(o);
    assert(o2.unigrams@ == o.unigrams@);
    assert(o2.bigrams@ == o.bigrams@);
    assert forall|id: u32, sys: int| #[trigger] o2.spec_effective_cost(id, sys)
        == o.spec_effective_cost(id, sys) by {
        assert(spec_uni_count(o2.unigrams@, id) == spec_uni_count(o.unigrams@, id));
    }
    assert forall|l: u32, r: u32, sys: int| #[trigger] o2.spec_effective_edge_cost(l, r, sys)
        == o.spec_effective_edge_cost(l, r, sys) by {
        assert(spec_bi_count(o2.bigrams@, l, r) == spec_bi_count(o.bigrams@, l, r));
    }
}

impl UserOverlay {
    /// The overlay in its on-disk form; the caller writes it out with a
    /// write-to-temp-then-rename sequence.
    pub fn to_bytes(&self) -> (r: Vec<u8>)
        requires
            self.wf(),
            self.unigrams@.len() <= u32::MAX,
            self.bigrams@.len() <= u32::MAX,
        ensures
            r@ == spec_overlay_bytes(*self),
    {
        let mut ws: Vec<u32> = Vec::new();
        ws.push(OVERLAY_MAGIC);
        ws.push(OVERLAY_VERSION);
        ws.push(self.unigrams.len() as u32);
        ws.push(self.bigrams.len() as u32);
        let ghost header = ws@;
        proof {
            assert(header =~= seq![
                OVERLAY_MAGIC,
                OVERLAY_VERSION,
                self.unigrams@.len() as u32,
                self.bigrams@.len() as u32,
            ]);
            assert(ws@ =~= header + spec_uni_words(self.unigrams@.take(0)));
        }
        let mut i: usize = 0;
        while i < self.unigrams.len()
            invariant
                i <= self.unigrams@.len(),
                ws@ == header + spec_uni_words(self.unigrams@.take(i as int)),
            decreases self.unigrams@.len() - i,
        {
            let e = self.unigrams[i];
            ws.push(e.0);
            ws.push(e.1);
            proof {
                let t = self.unigrams@.take(i + 1 as int);
                assert(t.drop_last() =~= self.unigrams@.take(i as int));
                assert(t.last() == self.unigrams@[i as int]);
                assert(ws@ =~= header + spec_uni_words(t));
            }
            i = i + 1;
        }
        proof {
            assert(self.unigrams@.take(self.unigrams@.len() as int) =~= self.unigrams@);
        }
        let ghost header2 = ws@;
        proof {
            assert(header2 == header + spec_uni_words(self.unigrams@));
            assert(ws@ =~= header2 + spec_bi_words(self.bigrams@.take(0)));
        }
        let mut j: usize = 0;
        while j < self.bigrams.len()
            invariant
                j <= self.bigrams@.len(),
                ws@ == header2 + spec_bi_words(self.bigrams@.take(j as int)),
            decreases self.bigrams@.len() - j,
        {
            let e = self.bigrams[j];
            ws.push(e.0);
            ws.push(e.1);
            ws.push(e.2);
            proof {
                let t = self.bigrams@.take(j + 1 as int);
                assert(t.drop_last() =~= self.bigrams@.take(j as int));
                assert(t.last() == self.bigrams@[j as int]);
                assert(ws@ =~= header2 + spec_bi_words(t));
            }
            j = j + 1;
        }
        proof {
            assert(self.bigrams@.take(self.bigrams@.len() as int) =~= self.bigrams@);
            assert(ws@ =~= spec_overlay_words(*self));
        }
        words_to_bytes(&ws)
    }

    /// Startup entry point: a missing or unreadable file (`None`), or one
    /// that fails to parse, gives an empty overlay; the engine then runs on
    /// system costs alone.
    pub fn load_or_default(data: Option<Vec<u8>>) -> (r: UserOverlay)
        ensures
            r.wf(),
            match data {
                Some(b) => match spec_parse_overlay(b@) {
                    Some(v) => r.unigrams@ == v.0 && r.bigrams@ == v.1,
                    None => r.unigrams@.len() == 0 && r.bigrams@.len() == 0,
                },
                None => r.unigrams@.len() == 0 && r.bigrams@.len() == 0,
            },
    {
        match data {
            None => UserOverlay::new(),
            Some(b) => match UserOverlay::parse(&b) {
                Some(o) => o,
                None => UserOverlay::new(),
            },
        }
    }

    fn parse(b: &Vec<u8>) -> (r: Option<UserOverlay>)
        ensures
            match r {
                Some(o) => o.wf() && spec_parse_overlay(b@) == Some((o.unigrams@, o.bigrams@)),
                None => spec_parse_overlay(b@) is None,
            },
    {
        let ws = match bytes_to_words(b) {
            Some(w) => w,
            None => {
                return None;
            },
        };
        if ws.len() < 4 {
            return None;
        }
        if ws[0] != OVERLAY_MAGIC || ws[1] != OVERLAY_VERSION {
            return None;
        }
        let nu32 = ws[2];
        let nb32 = ws[3];
        let ghost gws = ws@;
        if (ws.len() as u64) != 4 + 2 * (nu32 as u64) + 3 * (nb32 as u64) {
            return None;
        }
        let nu = nu32 as usize;
        let nb = nb32 as usize;
        let wslen = ws.len();
        proof {
            assert(wslen == 4 + 2 * nu + 3 * nb);
            lemma_take_uni_len(gws, nu as int);
            lemma_take_bi_len(gws, 4 + 2 * (nu as int), nb as int);
        }
        let ghost tuni = spec_take_uni(gws, nu as int);
        let ghost tbi = spec_take_bi(gws, 4 + 2 * (nu as int), nb as int);
        let mut uni: Vec<(u32, u32)> = Vec::new();
        let mut i: usize = 0;
        proof {
            assert(uni@ =~= tuni.take(0));
        }
        while i < nu
            invariant
                i <= nu,
                gws == ws@,
                wslen == ws@.len(),
                gws.len() == 4 + 2 * nu + 3 * nb,
                spec_bytes_to_words(b@) == Some(gws),
                gws[0] == OVERLAY_MAGIC,
                gws[1] == OVERLAY_VERSION,
                nu as int == gws[2] as int,
                nb as int == gws[3] as int,
                tuni == spec_take_uni(gws, nu as int),
                tbi == spec_take_bi(gws, 4 + 2 * (nu as int), nb as int),
                tuni.len() == nu,
                uni@ == tuni.take(i as int),
                uni_wf(uni@),
            decreases nu - i,
        {
            let id = ws[4 + 2 * i];
            let c = ws[4 + 2 * i + 1];
            proof {
                lemma_take_uni(gws, nu as int, i as int);
            }
            if c == 0 {
                proof {
                    assert(tuni[i as int].1 == 0);
                    assert(!uni_wf(tuni));
                }
                return None;
            }
            if let Some(_d) = uni_find(&uni, id) {
                proof {
                    let d = choose|d: int| 0 <= d < uni@.len() && uni@[d].0 == id;
                    assert(uni@[d] == tuni[d]);
                    assert(tuni[d].0 == tuni[i as int].0);
                    assert(!uni_wf(tuni));
                }
                return None;
            }
            uni.push((id, c));
            proof {
                assert(uni@ =~= tuni.take(i + 1 as int));
                assert forall|a: int, bq: int| 0 <= a < bq < uni@.len() implies (
                #[trigger] uni@[a]).0 != (#[trigger] uni@[bq]).0 by {
                    if bq == uni@.len() - 1 {
                        assert(tuni.take(i as int)[a].0 != id);
                    }
                }
                assert(uni_wf(uni@));
            }
            i = i + 1;
        }
        proof {
            assert(uni@ =~= tuni);
        }
        let mut bi: Vec<(u32, u32, u32)> = Vec::new();
        let mut j: usize = 0;
        proof {
            assert(bi@ =~= tbi.take(0));
        }
        while j < nb
            invariant
                j <= nb,
                gws == ws@,
                wslen == ws@.len(),
                gws.len() == 4 + 2 * nu + 3 * nb,
                spec_bytes_to_words(b@) == Some(gws),
                gws[0] == OVERLAY_MAGIC,
                gws[1] == OVERLAY_VERSION,
                nu as int == gws[2] as int,
                nb as int == gws[3] as int,
                tuni == spec_take_uni(gws, nu as int),
                tbi == spec_take_bi(gws, 4 + 2 * (nu as int), nb as int),
                tuni.len() == nu,
                tbi.len() == nb,
                uni_wf(tuni),
                bi@ == tbi.take(j as int),
                bi_wf(bi@),
            decreases nb - j,
        {
            let l = ws[4 + 2 * nu + 3 * j];
            let rr = ws[4 + 2 * nu + 3 * j + 1];
            let c = ws[4 + 2 * nu + 3 * j + 2];
            proof {
                lemma_take_bi(gws, 4 + 2 * (nu as int), nb as int, j as int);
            }
            if c == 0 {
                proof {
                    assert(tbi[j as int].2 == 0);
                    assert(!bi_wf(tbi));
                }
                return None;
            }
            if let Some(_d) = bi_find(&bi, l, rr) {
                proof {
                    let d = choose|d: int| 0 <= d < bi@.len() && bi@[d].0 == l && bi@[d].1 == rr;
                    assert(bi@[d] == tbi[d]);
                    assert(tbi[d].0 == tbi[j as int].0 && tbi[d].1 == tbi[j as int].1);
                    assert(!bi_wf(tbi));
                }
                return None;
            }
            bi.push((l, rr, c));
            proof {
                assert(bi@ =~= tbi.take(j + 1 as int));
                assert forall|a: int, bq: int| 0 <= a < bq < bi@.len() implies ((
                #[trigger] bi@[a]).0 != (#[trigger] bi@[bq]).0 || bi@[a].1 != bi@[bq].1) by {
                    if bq == bi@.len() - 1 {
                        assert(tbi.take(j as int)[a].0 != l || tbi.take(j as int)[a].1 != rr);
                    }
                }
                assert(bi_wf(bi@));
            }
            j = j + 1;
        }
        proof {
            assert(bi@ =~= tbi);
            assert(spec_parse_overlay_words(gws) == Some((tuni, tbi)));
        }
        Some(UserOverlay { unigrams: uni, bigrams: bi })
    }
}

} // verus!
