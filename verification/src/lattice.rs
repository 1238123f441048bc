use vstd::prelude::*;
use crate::cost::MAX_COST;
use crate::model::{WordEntry, UnigramModel, copy_chars};
use crate::overlay::UserOverlay;

verus! {

// The lattice: every dictionary match at every start offset of the reading,
// plus a one-character fallback node wherever nothing matches, so that a
// path from offset 0 to the end always exists and conversion degrades to
// literal kana instead of failing.

/// Cost given to a synthesized single-character fallback node: high, so any
/// dictionary segmentation wins, but finite, so a path always exists.
pub const FALLBACK_COST: i64 = MAX_COST;

/// Every node cost and edge cost of a lattice stays within this bound.
pub const NODE_COST_BOUND: i64 = 2 * MAX_COST;

/// Cap on the reading length, so that summed path costs stay far from
/// `i64` overflow.
pub const MAX_READING_LEN: usize = 100_000;

pub struct LatticeNode {
    pub start: usize,
    pub end: usize,
    pub surface: Vec<char>,
    pub reading: Vec<char>,
    pub word_id: Option<u32>,
    pub cost: i64,
}

pub struct Lattice {
    pub reading: Vec<char>,
    pub nodes: Vec<LatticeNode>,
}

pub open spec fn node_wf(reading: Seq<char>, n: LatticeNode) -> bool {
    &&& n.start < n.end <= reading.len()
    &&& n.reading@ == reading.subrange(n.start as int, n.end as int)
    &&& -NODE_COST_BOUND <= n.cost <= NODE_COST_BOUND
}

impl Lattice {
    /// Some node starts at offset `o`.
    pub open spec fn covered_at(self, o: int) -> bool {
        exists|k: int| 0 <= k < self.nodes@.len() && (#[trigger] self.nodes@[k]).start == o
    }

    pub open spec fn wf(self) -> bool {
        &&& self.reading@.len() <= MAX_READING_LEN
        &&& self.nodes@.len() <= usize::MAX
        &&& forall|k: int| 0 <= k < self.nodes@.len() ==> node_wf(
            self.reading@,
            #[trigger] self.nodes@[k],
        )
        &&& forall|k1: int, k2: int| 0 <= k1 < k2 < self.nodes@.len() ==> (
        #[trigger] self.nodes@[k1]).start <= (#[trigger] self.nodes@[k2]).start
        &&& forall|o: int| 0 <= o < self.reading@.len() ==> #[trigger] self.covered_at(o)
    }
}

/// Dictionary entry `j` matches the reading at offset `i`, within the
/// configured maximum word length.
pub open spec fn matches_at(
    dict: Seq<WordEntry>,
    reading: Seq<char>,
    maxlen: int,
    i: int,
    j: int,
) -> bool {
    &&& 0 <= j < dict.len()
    &&& 1 <= dict[j].reading@.len() <= maxlen
    &&& 0 <= i
    &&& i + dict[j].reading@.len() <= reading.len()
    &&& dict[j].reading@ == reading.subrange(i, i + dict[j].reading@.len())
}

pub open spec fn any_match_at(dict: Seq<WordEntry>, reading: Seq<char>, maxlen: int, i: int) -> bool {
    exists|j: int| #[trigger] matches_at(dict, reading, maxlen, i, j)
}

/// Node `n` is the lattice image of dictionary entry `j`, carrying the
/// entry's word id and its overlay-adjusted unigram cost.
pub open spec fn node_is_entry(
    dict: Seq<WordEntry>,
    ov: UserOverlay,
    reading: Seq<char>,
    maxlen: int,
    n: LatticeNode,
    j: int,
) -> bool {
    &&& matches_at(dict, reading, maxlen, n.start as int, j)
    &&& n.end == n.start + dict[j].reading@.len()
    &&& n.word_id == Some(dict[j].word_id)
    &&& n.cost == ov.spec_effective_cost(dict[j].word_id, dict[j].cost as int)
    &&& n.reading@ == dict[j].reading@
    &&& n.surface@ == dict[j].surface@
}

/// Node `n` is a synthesized one-character fallback.
pub open spec fn is_fallback_node(reading: Seq<char>, n: LatticeNode) -> bool {
    &&& n.end == n.start + 1
    &&& n.start < reading.len()
    &&& n.word_id is None
    &&& n.cost == FALLBACK_COST
    &&& n.reading@ == reading.subrange(n.start as int, n.start + 1)
    &&& n.surface@ == n.reading@
}

/// `pat` equals the slice of `reading` starting at `i`.
pub fn chars_match(reading: &Vec<char>, i: usize, pat: &Vec<char>) -> (r: bool)
    requires
        i + pat@.len() <= reading@.len(),
    ensures
        r == (pat@ == reading@.subrange(i as int, i + pat@.len())),
{
    let rlen = reading.len();
    let mut t: usize = 0;
    while t < pat.len()
        invariant
            t <= pat@.len(),
            rlen == reading@.len(),
            i + pat@.len() <= reading@.len(),
            forall|u: int| 0 <= u < t ==> pat@[u] == reading@[i + u],
        decreases pat@.len() - t,
    {
        if pat[t] != reading[i + t] {
            proof {
                assert(reading@.subrange(i as int, i + pat@.len())[t as int] == reading@[i + t]);
            }
            return false;
        }
        t = t + 1;
    }
    proof {
        assert(pat@ =~= reading@.subrange(i as int, i + pat@.len()));
    }
    true
}

/// Build the lattice for a reading: one node per dictionary match at every
/// offset, and a fallback node at every offset no entry matches.
#[verifier::rlimit(100)]
pub fn build(
    reading: &Vec<char>,
    model: &UnigramModel,
    overlay: &UserOverlay,
    max_word_len: usize,
) -> (lat: Lattice)
    requires
        model.wf(),
        overlay.wf(),
        reading@.len() <= MAX_READING_LEN,
        max_word_len >= 1,
    ensures
        lat.wf(),
        lat.reading@ == reading@,
        forall|i: int, j: int| #[trigger] matches_at(
            model.entries@,
            reading@,
            max_word_len as int,
            i,
            j,
        ) ==> exists|k: int| 0 <= k < lat.nodes@.len() && (#[trigger] lat.nodes@[k]).start == i
            && node_is_entry(model.entries@, *overlay, reading@, max_word_len as int, lat.nodes@[k], j),
        forall|i: int| 0 <= i < reading@.len() && !any_match_at(
            model.entries@,
            reading@,
            max_word_len as int,
            i,
        ) ==> exists|k: int| 0 <= k < lat.nodes@.len() && (#[trigger] lat.nodes@[k]).start == i
            && is_fallback_node(reading@, lat.nodes@[k]),
        forall|k: int| 0 <= k < lat.nodes@.len() ==> (exists|j: int| node_is_entry(
            model.entries@,
            *overlay,
            reading@,
            max_word_len as int,
            #[trigger] lat.nodes@[k],
            j,
        )) || (is_fallback_node(reading@, lat.nodes@[k]) && !any_match_at(
            model.entries@,
            reading@,
            max_word_len as int,
            lat.nodes@[k].start as int,
        )),
{
    let n = reading.len();
    let ghost dict = model.entries@;
    let ghost ml = max_word_len as int;
    let mut nodes: Vec<LatticeNode> = Vec::new();
    let mut i: usize = 0;
    while i < n
        invariant
            i <= n,
            n == reading@.len(),
            n <= MAX_READING_LEN,
            max_word_len >= 1,
            dict == model.entries@,
            ml == max_word_len as int,
            model.wf(),
            overlay.wf(),
            forall|k: int| 0 <= k < nodes@.len() ==> node_wf(reading@, #[trigger] nodes@[k]),
            forall|k: int| 0 <= k < nodes@.len() ==> (#[trigger] nodes@[k]).start < i,
            forall|k1: int, k2: int| 0 <= k1 < k2 < nodes@.len() ==> (#[trigger] nodes@[k1]).start
                <= (#[trigger] nodes@[k2]).start,
            forall|i2: int, j: int| i2 < i && #[trigger] matches_at(dict, reading@, ml, i2, j)
                ==> exists|k: int| 0 <= k < nodes@.len() && (#[trigger] nodes@[k]).start == i2
                && node_is_entry(dict, *overlay, reading@, ml, nodes@[k], j),
            forall|i2: int| 0 <= i2 < i && !any_match_at(dict, reading@, ml, i2) ==> exists|k: int|
                0 <= k < nodes@.len() && (#[trigger] nodes@[k]).start == i2 && is_fallback_node(
                reading@,
                nodes@[k],
            ),
            forall|k: int| 0 <= k < nodes@.len() ==> (exists|j: int| node_is_entry(
                dict,
                *overlay,
                reading@,
                ml,
                #[trigger] nodes@[k],
                j,
            )) || (is_fallback_node(reading@, nodes@[k]) && !any_match_at(
                dict,
                reading@,
                ml,
                nodes@[k].start as int,
            )),
        decreases n - i,
    {
        let mut found = false;
        let mut j: usize = 0;
        let dlen = model.entries.len();
        while j < dlen
            invariant
                j <= dlen,
                dlen == dict.len(),
                i < n,
                n == reading@.len(),
                n <= MAX_READING_LEN,
                max_word_len >= 1,
                dict == model.entries@,
                ml == max_word_len as int,
                model.wf(),
                overlay.wf(),
                found == exists|j2: int| 0 <= j2 < j && #[trigger] matches_at(
                    dict,
                    reading@,
                    ml,
                    i as int,
                    j2,
                ),
                forall|k: int| 0 <= k < nodes@.len() ==> node_wf(reading@, #[trigger] nodes@[k]),
                forall|k: int| 0 <= k < nodes@.len() ==> (#[trigger] nodes@[k]).start <= i,
                forall|k1: int, k2: int| 0 <= k1 < k2 < nodes@.len() ==> (
                #[trigger] nodes@[k1]).start <= (#[trigger] nodes@[k2]).start,
                forall|i2: int, j2: int| i2 < i && #[trigger] matches_at(dict, reading@, ml, i2, j2)
                    ==> exists|k: int| 0 <= k < nodes@.len() && (#[trigger] nodes@[k]).start == i2
                    && node_is_entry(dict, *overlay, reading@, ml, nodes@[k], j2),
                forall|j2: int| 0 <= j2 < j && #[trigger] matches_at(dict, reading@, ml, i as int, j2)
                    ==> exists|k: int| 0 <= k < nodes@.len() && (#[trigger] nodes@[k]).start
                    == i as int && node_is_entry(dict, *overlay, reading@, ml, nodes@[k], j2),
                forall|i2: int| 0 <= i2 < i && !any_match_at(dict, reading@, ml, i2) ==> exists|
                    k: int,
                |
                    0 <= k < nodes@.len() && (#[trigger] nodes@[k]).start == i2 && is_fallback_node(
                    reading@,
                    nodes@[k],
                ),
                forall|k: int| 0 <= k < nodes@.len() ==> (exists|j2: int| node_is_entry(
                    dict,
                    *overlay,
                    reading@,
                    ml,
                    #[trigger] nodes@[k],
                    j2,
                )) || (is_fallback_node(reading@, nodes@[k]) && !any_match_at(
                    dict,
                    reading@,
                    ml,
                    nodes@[k].start as int,
                )),
            decreases dlen - j,
        {
            let elen = model.entries[j].reading.len();
            if elen >= 1 && elen <= max_word_len && elen <= n - i {
                if chars_match(reading, i, &model.entries[j].reading) {
                    proof {
                        assert(matches_at(dict, reading@, ml, i as int, j as int));
                    }
                    let wid = model.entries[j].word_id;
                    let syscost = model.entries[j].cost;
                    let c = overlay.effective_cost(wid, syscost);
                    let mut sf: Vec<char> = Vec::new();
                    copy_chars(&model.entries[j].surface, &mut sf);
                    let mut rd: Vec<char> = Vec::new();
                    copy_chars(&model.entries[j].reading, &mut rd);
                    let node = LatticeNode {
                        start: i,
                        end: i + elen,
                        surface: sf,
                        reading: rd,
                        word_id: Some(wid),
                        cost: c,
                    };
                    let ghost before = nodes@;
                    nodes.push(node);
                    found = true;
                    proof {
                        let last = nodes@.len() - 1;
                        assert(nodes@[last].reading@ =~= reading@.subrange(
                            i as int,
                            i + dict[j as int].reading@.len(),
                        ));
                        assert(node_wf(reading@, nodes@[last]));
                        assert(node_is_entry(dict, *overlay, reading@, ml, nodes@[last], j as int));
                        assert(forall|k: int| 0 <= k < before.len() ==> nodes@[k] == before[k]);
                    }
                }
            }
            proof {
                if !found {
                    assert(!matches_at(dict, reading@, ml, i as int, j as int));
                    assert forall|j2: int|
                        0 <= j2 < j + 1 && #[trigger] matches_at(dict, reading@, ml, i as int, j2)
                        implies false by {}
                }
            }
            j = j + 1;
        }
        if !found {
            proof {
                assert(!any_match_at(dict, reading@, ml, i as int));
            }
            let mut sf: Vec<char> = Vec::new();
            sf.push(reading[i]);
            let mut rd: Vec<char> = Vec::new();
            rd.push(reading[i]);
            let node = LatticeNode {
                start: i,
                end: i + 1,
                surface: sf,
                reading: rd,
                word_id: None,
                cost: FALLBACK_COST,
            };
            let ghost before = nodes@;
            nodes.push(node);
            proof {
                let last = nodes@.len() - 1;
                assert(nodes@[last].reading@ =~= reading@.subrange(i as int, i + 1));
                assert(node_wf(reading@, nodes@[last]));
                assert(is_fallback_node(reading@, nodes@[last]));
                assert(forall|k: int| 0 <= k < before.len() ==> nodes@[k] == before[k]);
            }
        } else {
            proof {
                assert(any_match_at(dict, reading@, ml, i as int));
            }
        }
        proof {
            assert forall|i2: int, j2: int|
                i2 < i + 1 && #[trigger] matches_at(dict, reading@, ml, i2, j2) implies exists|
                k: int,
            |
                0 <= k < nodes@.len() && (#[trigger] nodes@[k]).start == i2 && node_is_entry(
                dict,
                *overlay,
                reading@,
                ml,
                nodes@[k],
                j2,
            ) by {
                if i2 == i as int {
                    assert(matches_at(dict, reading@, ml, i as int, j2));
                }
            }
        }
        i = i + 1;
    }
    let mut rcopy: Vec<char> = Vec::new();
    copy_chars(reading, &mut rcopy);
    let nn = nodes.len();
    let lat = Lattice { reading: rcopy, nodes };
    proof {
        assert(lat.nodes@.len() == nn);
        assert forall|o: int| 0 <= o < lat.reading@.len() implies #[trigger] lat.covered_at(o) by {
            if any_match_at(dict, reading@, ml, o) {
                let j = choose|j: int| #[trigger] matches_at(dict, reading@, ml, o, j);
                assert(matches_at(dict, reading@, ml, o, j));
            }
        }
    }
    lat
}

} // verus!
