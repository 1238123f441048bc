use vstd::prelude::*;
use crate::lattice::{Lattice, NODE_COST_BOUND, MAX_READING_LEN, node_wf};
use crate::model::{BigramModel, lemma_edge_cost_range};
use crate::overlay::UserOverlay;

verus! {

// Viterbi search over the lattice: one forward pass in node order computes,
// for every node, the least cost of any valid path ending there, with a
// backpointer to the argmin predecessor (first seen wins on ties).  The
// best complete segmentation is the cheapest path into a terminal node.

/// One ranked conversion candidate: lattice node indices from offset 0 to
/// the end of the reading, and the path's total cost.
pub struct Candidate {
    pub nodes: Vec<usize>,
    pub total_cost: i64,
}

/// Cost of the edge between two lattice nodes, by their word ids.  A
/// fallback node has no id; an edge touching one costs the model default.
pub open spec fn spec_edge_between(
    bg: BigramModel,
    ov: UserOverlay,
    a: Option<u32>,
    b: Option<u32>,
) -> int {
    match (a, b) {
        (Some(x), Some(y)) => ov.spec_effective_edge_cost(x, y, bg.spec_edge_cost(x, y)),
        _ => bg.default_edge_cost as int,
    }
}

pub fn edge_between(bg: &BigramModel, ov: &UserOverlay, a: Option<u32>, b: Option<u32>) -> (r: i64)
    requires
        bg.wf(),
        ov.wf(),
    ensures
        r == spec_edge_between(*bg, *ov, a, b),
        -NODE_COST_BOUND <= r <= NODE_COST_BOUND,
{
    match (a, b) {
        (Some(x), Some(y)) => {
            let sys = bg.edge_cost(x, y);
            ov.effective_edge_cost(x, y, sys)
        },
        _ => bg.default_edge_cost,
    }
}

pub proof fn lemma_edge_between_range(bg: BigramModel, ov: UserOverlay, a: Option<u32>, b: Option<u32>)
    requires
        bg.wf(),
    ensures
        -NODE_COST_BOUND <= spec_edge_between(bg, ov, a, b) <= NODE_COST_BOUND,
{
    match (a, b) {
        (Some(x), Some(y)) => {
            lemma_edge_cost_range(bg, x, y);
        },
        _ => {},
    }
}

pub open spec fn path_in_range(lat: Lattice, p: Seq<usize>) -> bool {
    forall|t: int| 0 <= t < p.len() ==> (#[trigger] p[t]) < lat.nodes@.len()
}

pub open spec fn path_chained(lat: Lattice, p: Seq<usize>) -> bool {
    forall|t: int| 1 <= t < p.len() ==> lat.nodes@[(#[trigger] p[t]) as int].start == lat.nodes@[
        p[t - 1] as int
    ].end
}

/// A path that starts at offset 0 and walks the lattice edge by edge.
pub open spec fn path_valid(lat: Lattice, p: Seq<usize>) -> bool {
    &&& p.len() >= 1
    &&& path_in_range(lat, p)
    &&& lat.nodes@[p[0] as int].start == 0
    &&& path_chained(lat, p)
}

/// A valid path that reaches the end of the reading.
pub open spec fn path_complete(lat: Lattice, p: Seq<usize>) -> bool {
    &&& path_valid(lat, p)
    &&& lat.nodes@[p.last() as int].end == lat.reading@.len()
}

/// Total cost of a path: its node costs plus the edge cost of every
/// adjacent pair.
pub open spec fn path_cost(lat: Lattice, bg: BigramModel, ov: UserOverlay, p: Seq<usize>) -> int
    decreases p.len(),
{
    if p.len() == 0 {
        0
    } else if p.len() == 1 {
        lat.nodes@[p[0] as int].cost as int
    } else {
        path_cost(lat, bg, ov, p.drop_last()) + spec_edge_between(
            bg,
            ov,
            lat.nodes@[p[p.len() - 2] as int].word_id,
            lat.nodes@[p.last() as int].word_id,
        ) + lat.nodes@[p.last() as int].cost
    }
}

/// Readings of the path's nodes, concatenated in order.
pub open spec fn path_reading(lat: Lattice, p: Seq<usize>) -> Seq<char>
    decreases p.len(),
{
    if p.len() == 0 {
        Seq::empty()
    } else {
        path_reading(lat, p.drop_last()) + lat.nodes@[p.last() as int].reading@
    }
}

pub proof fn lemma_valid_prefix(lat: Lattice, p: Seq<usize>)
    requires
        path_valid(lat, p),
        p.len() >= 2,
    ensures
        path_valid(lat, p.drop_last()),
{
    let q = p.drop_last();
    assert forall|t: int| 0 <= t < q.len() implies (#[trigger] q[t]) < lat.nodes@.len() by {
        assert(q[t] == p[t]);
    }
    assert forall|t: int| 1 <= t < q.len() implies lat.nodes@[(#[trigger] q[t]) as int].start
        == lat.nodes@[q[t - 1] as int].end by {
        assert(q[t] == p[t] && q[t - 1] == p[t - 1]);
    }
}

/// Prepending a node adds its cost and one edge.
pub proof fn lemma_path_cost_prepend(
    lat: Lattice,
    bg: BigramModel,
    ov: UserOverlay,
    x: usize,
    q: Seq<usize>,
)
    requires
        q.len() >= 1,
    ensures
        path_cost(lat, bg, ov, seq![x] + q) == lat.nodes@[x as int].cost + spec_edge_between(
            bg,
            ov,
            lat.nodes@[x as int].word_id,
            lat.nodes@[q[0] as int].word_id,
        ) + path_cost(lat, bg, ov, q),
    decreases q.len(),
{
    let c = seq![x] + q;
    if q.len() == 1 {
        assert(c.drop_last() =~= seq![x]);
        assert(c.last() == q[0]);
        assert(c[c.len() - 2] == x);
        assert(path_cost(lat, bg, ov, seq![x]) == lat.nodes@[x as int].cost);
        assert(path_cost(lat, bg, ov, q) == lat.nodes@[q[0] as int].cost);
        assert(path_cost(lat, bg, ov, c) == path_cost(lat, bg, ov, c.drop_last())
            + spec_edge_between(
            bg,
            ov,
            lat.nodes@[c[c.len() - 2] as int].word_id,
            lat.nodes@[c.last() as int].word_id,
        ) + lat.nodes@[c.last() as int].cost);
    } else {
        assert(c.drop_last() =~= seq![x] + q.drop_last());
        lemma_path_cost_prepend(lat, bg, ov, x, q.drop_last());
        assert(q.drop_last()[0] == q[0]);
        assert(c[c.len() - 2] == q[q.len() - 2]);
        assert(c.last() == q.last());
        assert(path_cost(lat, bg, ov, q) == path_cost(lat, bg, ov, q.drop_last())
            + spec_edge_between(
            bg,
            ov,
            lat.nodes@[q[q.len() - 2] as int].word_id,
            lat.nodes@[q.last() as int].word_id,
        ) + lat.nodes@[q.last() as int].cost);
        assert(path_cost(lat, bg, ov, c) == path_cost(lat, bg, ov, c.drop_last())
            + spec_edge_between(
            bg,
            ov,
            lat.nodes@[c[c.len() - 2] as int].word_id,
            lat.nodes@[c.last() as int].word_id,
        ) + lat.nodes@[c.last() as int].cost);
    }
}

/// A complete path's concatenated node readings rebuild the whole reading:
/// the chosen segmentation covers the input with no gaps and no overlaps.
#[verifier::rlimit(50)]
pub proof fn lemma_path_reading(lat: Lattice, p: Seq<usize>)
    requires
        lat.wf(),
        path_valid(lat, p),
    ensures
        path_reading(lat, p) == lat.reading@.subrange(0, lat.nodes@[p.last() as int].end as int),
    decreases p.len(),
{
    let last = lat.nodes@[p.last() as int];
    assert(node_wf(lat.reading@, last));
    if p.len() == 1 {
        assert(p.drop_last().len() == 0);
        assert(path_reading(lat, p.drop_last()) == Seq::<char>::empty());
        assert(path_reading(lat, p) =~= Seq::<char>::empty() + last.reading@);
        assert(path_reading(lat, p) =~= lat.reading@.subrange(0, last.end as int));
    } else {
        lemma_valid_prefix(lat, p);
        lemma_path_reading(lat, p.drop_last());
        assert(p.drop_last().last() == p[p.len() - 2]);
        let prev = lat.nodes@[p[p.len() - 2] as int];
        assert(last.start == prev.end);
        assert(path_reading(lat, p) =~= lat.reading@.subrange(0, prev.end as int)
            + lat.reading@.subrange(last.start as int, last.end as int));
        assert(path_reading(lat, p) =~= lat.reading@.subrange(0, last.end as int));
    }
}

/// The segmentation of a complete path spells exactly the input reading.
pub proof fn lemma_complete_path_reading(lat: Lattice, p: Seq<usize>)
    requires
        lat.wf(),
        path_complete(lat, p),
    ensures
        path_reading(lat, p) == lat.reading@,
{
    lemma_path_reading(lat, p);
    assert(lat.reading@.subrange(0, lat.reading@.len() as int) =~= lat.reading@);
}

/// A valid path from offset `o` to the end of the reading.
pub open spec fn path_from(lat: Lattice, p: Seq<usize>, o: int) -> bool {
    &&& p.len() >= 1
    &&& path_in_range(lat, p)
    &&& lat.nodes@[p[0] as int].start == o
    &&& path_chained(lat, p)
    &&& lat.nodes@[p.last() as int].end == lat.reading@.len()
}

#[verifier::rlimit(80)]
proof fn lemma_path_from_exists(lat: Lattice, o: int)
    requires
        lat.wf(),
        0 <= o < lat.reading@.len(),
    ensures
        exists|p: Seq<usize>| #[trigger] path_from(lat, p, o),
    decreases lat.reading@.len() - o,
{
    assert(lat.covered_at(o));
    let k = choose|k: int| 0 <= k < lat.nodes@.len() && (#[trigger] lat.nodes@[k]).start == o;
    assert(node_wf(lat.reading@, lat.nodes@[k]));
    let e = lat.nodes@[k].end as int;
    if e == lat.reading@.len() {
        let p = seq![k as usize];
        assert(p[0] == k as usize);
        assert(path_from(lat, p, o));
    } else {
        lemma_path_from_exists(lat, e);
        let p2 = choose|p2: Seq<usize>| #[trigger] path_from(lat, p2, e);
        let p = seq![k as usize] + p2;
        assert(p[0] == k as usize);
        assert(p.last() == p2.last());
        assert forall|t: int| 1 <= t < p.len() implies lat.nodes@[(#[trigger] p[t]) as int].start
            == lat.nodes@[p[t - 1] as int].end by {
            if t == 1 {
                assert(p[1] == p2[0]);
            } else {
                assert(p[t] == p2[t - 1] && p[t - 1] == p2[t - 2]);
            }
        }
        assert(path_from(lat, p, o));
    }
}

/// The fallback mechanism guarantees a terminal: every non-empty reading
/// has at least one complete path, so search never comes back empty.
pub proof fn lemma_complete_path_exists(lat: Lattice)
    requires
        lat.wf(),
        lat.reading@.len() >= 1,
    ensures
        exists|p: Seq<usize>| #[trigger] path_complete(lat, p),
{
    lemma_path_from_exists(lat, 0);
    let p = choose|p: Seq<usize>| #[trigger] path_from(lat, p, 0);
    assert(path_complete(lat, p));
}

/// `c` is no greater than the cost of any valid path ending at node `k`.
pub open spec fn is_min_to(lat: Lattice, bg: BigramModel, ov: UserOverlay, k: int, c: int) -> bool {
    forall|p: Seq<usize>| path_valid(lat, p) && p.last() as int == k ==> c <= #[trigger] path_cost(
        lat,
        bg,
        ov,
        p,
    )
}

/// No valid path ends at node `k`.
pub open spec fn no_path_to(lat: Lattice, k: int) -> bool {
    forall|p: Seq<usize>| #[trigger] path_valid(lat, p) ==> p.last() as int != k
}

/// The invariant of the forward pass at node `k`: a reached node holds the
/// least cost of any path into it and a consistent backpointer; an
/// unreached one admits no path at all.
pub open spec fn dp_at(
    lat: Lattice,
    bg: BigramModel,
    ov: UserOverlay,
    cum: Seq<Option<i64>>,
    back: Seq<Option<usize>>,
    k: int,
) -> bool {
    match cum[k] {
        Some(c) => {
            &&& is_min_to(lat, bg, ov, k, c as int)
            &&& -(2 * lat.nodes@[k].end - 1) * NODE_COST_BOUND <= c as int <= (2 * lat.nodes@[k].end
                - 1) * NODE_COST_BOUND
            &&& match back[k] {
                None => lat.nodes@[k].start == 0 && c == lat.nodes@[k].cost,
                Some(jj) => {
                    &&& (jj as int) < k
                    &&& jj < cum.len()
                    &&& cum[jj as int] is Some
                    &&& lat.nodes@[jj as int].end == lat.nodes@[k].start
                    &&& c as int == cum[jj as int]->0 + spec_edge_between(
                        bg,
                        ov,
                        lat.nodes@[jj as int].word_id,
                        lat.nodes@[k].word_id,
                    ) + lat.nodes@[k].cost
                },
            }
        },
        None => no_path_to(lat, k),
    }
}

pub open spec fn dp_wf(
    lat: Lattice,
    bg: BigramModel,
    ov: UserOverlay,
    cum: Seq<Option<i64>>,
    back: Seq<Option<usize>>,
) -> bool {
    &&& cum.len() == back.len() <= lat.nodes@.len()
    &&& forall|k: int| 0 <= k < cum.len() ==> #[trigger] dp_at(lat, bg, ov, cum, back, k)
}

/// One forward pass over the nodes, in increasing start-offset order.
fn forward_pass(lat: &Lattice, bigram: &BigramModel, overlay: &UserOverlay) -> (r: (
    Vec<Option<i64>>,
    Vec<Option<usize>>,
))
    requires
        lat.wf(),
        bigram.wf(),
        overlay.wf(),
    ensures
        r.0@.len() == lat.nodes@.len(),
        dp_wf(*lat, *bigram, *overlay, r.0@, r.1@),
{
    let n = lat.nodes.len();
    let mut cum: Vec<Option<i64>> = Vec::new();
    let mut back: Vec<Option<usize>> = Vec::new();
    let mut i: usize = 0;
    while i < n
        invariant
            i <= n,
            n == lat.nodes@.len(),
            lat.wf(),
            bigram.wf(),
            overlay.wf(),
            cum@.len() == i,
            back@.len() == i,
            dp_wf(*lat, *bigram, *overlay, cum@, back@),
        decreases n - i,
    {
        let ghost lat_g = *lat;
        let nd_start = lat.nodes[i].start;
        let nd_cost = lat.nodes[i].cost;
        let ghost nd = lat.nodes@[i as int];
        proof {
            assert(node_wf(lat.reading@, nd));
        }
        if nd_start == 0 {
            let ghost cum0 = cum@;
            let ghost back0 = back@;
            cum.push(Some(nd_cost));
            back.push(None);
            proof {
                assert forall|p: Seq<usize>|
                    path_valid(lat_g, p) && p.last() as int == i as int implies nd.cost as int
                    <= #[trigger] path_cost(lat_g, *bigram, *overlay, p) by {
                    if p.len() >= 2 {
                        assert(p.drop_last().last() == p[p.len() - 2]);
                        assert(lat_g.nodes@[p[p.len() - 2] as int].end == nd.start);
                        assert(node_wf(lat_g.reading@, lat_g.nodes@[p[p.len() - 2] as int]));
                        assert(false);
                    }
                }
                assert(is_min_to(lat_g, *bigram, *overlay, i as int, nd.cost as int));
                assert forall|k: int| 0 <= k < cum@.len() implies #[trigger] dp_at(
                    lat_g,
                    *bigram,
                    *overlay,
                    cum@,
                    back@,
                    k,
                ) by {
                    if k < i as int {
                        assert(dp_at(lat_g, *bigram, *overlay, cum0, back0, k));
                        assert(cum@[k] == cum0[k] && back@[k] == back0[k]);
                        lemma_dp_at_frame(lat_g, *bigram, *overlay, cum0, back0, cum@, back@, k);
                    } else {
                        assert(cum@[k] == Some(nd_cost) && back@[k] is None);
                        assert(2 * nd.end - 1 >= 1);
                    }
                }
            }
        } else {
            let mut best: Option<(i64, usize)> = None;
            let mut j: usize = 0;
            while j < i
                invariant
                    j <= i,
                    i < n,
                    n == lat_g.nodes@.len(),
                    lat_g == *lat,
                    lat.wf(),
                    bigram.wf(),
                    overlay.wf(),
                    cum@.len() == i,
                    back@.len() == i,
                    dp_wf(*lat, *bigram, *overlay, cum@, back@),
                    nd == lat.nodes@[i as int],
                    nd_start == nd.start,
                    nd_cost == nd.cost,
                    nd_start != 0,
                    match best {
                        Some((b, bj)) => {
                            &&& (bj as int) < j
                            &&& cum@[bj as int] is Some
                            &&& lat.nodes@[bj as int].end == nd.start
                            &&& b as int == cum@[bj as int]->0 + spec_edge_between(
                                *bigram,
                                *overlay,
                                lat.nodes@[bj as int].word_id,
                                nd.word_id,
                            ) + nd.cost
                            &&& forall|j2: int|
                                0 <= j2 < j && cum@[j2] is Some && (#[trigger] lat.nodes@[j2]).end
                                    == nd.start ==> b as int <= cum@[j2]->0 + spec_edge_between(
                                    *bigram,
                                    *overlay,
                                    lat.nodes@[j2].word_id,
                                    nd.word_id,
                                ) + nd.cost
                            &&& -(2 * nd.end - 1) * NODE_COST_BOUND <= b as int <= (2 * nd.end - 1)
                                * NODE_COST_BOUND
                        },
                        None => forall|j2: int|
                            0 <= j2 < j ==> !(cum@[j2] is Some && (#[trigger] lat.nodes@[j2]).end
                                == nd.start),
                    },
                decreases i - j,
            {
                let pred_end = lat.nodes[j].end;
                let cj = cum[j];
                if pred_end == nd_start {
                    if let Some(cjv) = cj {
                        proof {
                            assert(dp_at(lat_g, *bigram, *overlay, cum@, back@, j as int));
                            assert(node_wf(lat.reading@, lat.nodes@[j as int]));
                            lemma_edge_between_range(
                                *bigram,
                                *overlay,
                                lat.nodes@[j as int].word_id,
                                nd.word_id,
                            );
                            assert(lat.nodes@[j as int].end <= lat.reading@.len()
                                <= MAX_READING_LEN);
                        }
                        let e = edge_between(
                            bigram,
                            overlay,
                            lat.nodes[j].word_id,
                            lat.nodes[i].word_id,
                        );
                        let cand = cjv + e + nd_cost;
                        proof {
                            assert(nd.end >= lat.nodes@[j as int].end + 1);
                        }
                        let take = match best {
                            None => true,
                            Some((b, _)) => cand < b,
                        };
                        if take {
                            best = Some((cand, j));
                        }
                    }
                }
                j = j + 1;
            }
            let ghost cum0 = cum@;
            let ghost back0 = back@;
            match best {
                None => {
                    cum.push(None);
                    back.push(None);
                    proof {
                        assert forall|p: Seq<usize>| #[trigger] path_valid(lat_g, p) implies p.last()
                            as int != i as int by {
                            if p.last() as int == i as int {
                                assert(p.len() >= 2) by {
                                    if p.len() == 1 {
                                        assert(lat_g.nodes@[p[0] as int].start == 0);
                                    }
                                }
                                lemma_valid_prefix(lat_g, p);
                                let q = p.drop_last();
                                let jp = q.last() as int;
                                assert(q.last() == p[p.len() - 2]);
                                assert(lat_g.nodes@[jp].end == nd.start);
                                assert(node_wf(lat_g.reading@, lat_g.nodes@[jp]));
                                assert(jp < i as int) by {
                                    if jp >= i as int {
                                        assert(lat_g.nodes@[i as int].start
                                            <= lat_g.nodes@[jp].start);
                                    }
                                }
                                assert(dp_at(lat_g, *bigram, *overlay, cum0, back0, jp));
                                if cum0[jp] is Some {
                                    assert(!(cum0[jp] is Some && lat_g.nodes@[jp].end
                                        == nd.start));
                                } else {
                                    assert(no_path_to(lat_g, jp));
                                    assert(path_valid(lat_g, q));
                                }
                                assert(false);
                            }
                        }
                        assert(no_path_to(lat_g, i as int));
                        assert forall|k: int| 0 <= k < cum@.len() implies #[trigger] dp_at(
                            lat_g,
                            *bigram,
                            *overlay,
                            cum@,
                            back@,
                            k,
                        ) by {
                            if k < i as int {
                                assert(dp_at(lat_g, *bigram, *overlay, cum0, back0, k));
                                lemma_dp_at_frame(
                                    lat_g,
                                    *bigram,
                                    *overlay,
                                    cum0,
                                    back0,
                                    cum@,
                                    back@,
                                    k,
                                );
                            }
                        }
                    }
                },
                Some((b, bj)) => {
                    cum.push(Some(b));
                    back.push(Some(bj));
                    proof {
                        assert forall|p: Seq<usize>|
                            path_valid(lat_g, p) && p.last() as int == i as int implies b as int
                            <= #[trigger] path_cost(lat_g, *bigram, *overlay, p) by {
                            assert(p.len() >= 2) by {
                                if p.len() == 1 {
                                    assert(lat_g.nodes@[p[0] as int].start == 0);
                                }
                            }
                            lemma_valid_prefix(lat_g, p);
                            let q = p.drop_last();
                            let jp = q.last() as int;
                            assert(q.last() == p[p.len() - 2]);
                            assert(lat_g.nodes@[jp].end == nd.start);
                            assert(jp < i as int) by {
                                if jp >= i as int {
                                    assert(lat_g.nodes@[i as int].start
                                        <= lat_g.nodes@[jp].start);
                                    assert(node_wf(lat_g.reading@, lat_g.nodes@[jp]));
                                }
                            }
                            assert(dp_at(lat_g, *bigram, *overlay, cum0, back0, jp));
                            if cum0[jp] is None {
                                assert(no_path_to(lat_g, jp));
                                assert(path_valid(lat_g, q));
                                assert(false);
                            }
                            let cjp = cum0[jp]->0;
                            assert(cjp as int <= path_cost(lat_g, *bigram, *overlay, q));
                            assert(b as int <= cjp as int + spec_edge_between(
                                *bigram,
                                *overlay,
                                lat_g.nodes@[jp].word_id,
                                nd.word_id,
                            ) + nd.cost);
                            assert(path_cost(lat_g, *bigram, *overlay, p) == path_cost(
                                lat_g,
                                *bigram,
                                *overlay,
                                q,
                            ) + spec_edge_between(
                                *bigram,
                                *overlay,
                                lat_g.nodes@[jp].word_id,
                                nd.word_id,
                            ) + nd.cost);
                        }
                        assert(is_min_to(lat_g, *bigram, *overlay, i as int, b as int));
                        assert forall|k: int| 0 <= k < cum@.len() implies #[trigger] dp_at(
                            lat_g,
                            *bigram,
                            *overlay,
                            cum@,
                            back@,
                            k,
                        ) by {
                            if k < i as int {
                                assert(dp_at(lat_g, *bigram, *overlay, cum0, back0, k));
                                lemma_dp_at_frame(
                                    lat_g,
                                    *bigram,
                                    *overlay,
                                    cum0,
                                    back0,
                                    cum@,
                                    back@,
                                    k,
                                );
                            } else {
                                assert(cum@[k] == Some(b) && back@[k] == Some(bj));
                            }
                        }
                    }
                },
            }
        }
        i = i + 1;
    }
    (cum, back)
}

/// `dp_at` only reads entries up to `k`, so appending entries preserves it.
proof fn lemma_dp_at_frame(
    lat: Lattice,
    bg: BigramModel,
    ov: UserOverlay,
    cum0: Seq<Option<i64>>,
    back0: Seq<Option<usize>>,
    cum1: Seq<Option<i64>>,
    back1: Seq<Option<usize>>,
    k: int,
)
    requires
        0 <= k < cum0.len(),
        cum0.len() == back0.len(),
        cum0.len() <= cum1.len(),
        back0.len() <= back1.len(),
        forall|t: int| 0 <= t < cum0.len() ==> cum1[t] == #[trigger] cum0[t],
        forall|t: int| 0 <= t < back0.len() ==> back1[t] == #[trigger] back0[t],
        dp_at(lat, bg, ov, cum0, back0, k),
    ensures
        dp_at(lat, bg, ov, cum1, back1, k),
{
    assert(cum1[k] == cum0[k]);
    assert(back1[k] == back0[k]);
    match cum0[k] {
        Some(c) => {
            match back0[k] {
                Some(jj) => {
                    assert(cum1[jj as int] == cum0[jj as int]);
                },
                None => {},
            }
        },
        None => {},
    }
}



/// Walk backpointers from node `t` to offset 0 and return the path forward.
fn reconstruct(
    lat: &Lattice,
    bigram: &BigramModel,
    overlay: &UserOverlay,
    cum: &Vec<Option<i64>>,
    back: &Vec<Option<usize>>,
    t: usize,
) -> (p: Vec<usize>)
    requires
        lat.wf(),
        bigram.wf(),
        overlay.wf(),
        dp_wf(*lat, *bigram, *overlay, cum@, back@),
        cum@.len() == lat.nodes@.len(),
        t < lat.nodes@.len(),
        cum@[t as int] is Some,
    ensures
        path_valid(*lat, p@),
        p@.len() >= 1,
        p@.last() == t,
        path_cost(*lat, *bigram, *overlay, p@) == cum@[t as int]->0,
{
    let mut rev: Vec<usize> = Vec::new();
    rev.push(t);
    let mut cur: usize = t;
    let ghost mut q: Seq<usize> = seq![t];
    while back[cur].is_some()
        invariant
            lat.wf(),
            bigram.wf(),
            overlay.wf(),
            dp_wf(*lat, *bigram, *overlay, cum@, back@),
            cum@.len() == lat.nodes@.len(),
            t < lat.nodes@.len(),
            cur < lat.nodes@.len(),
            cum@[t as int] is Some,
            cum@[cur as int] is Some,
            q.len() >= 1,
            q[0] == cur,
            q.last() == t,
            path_in_range(*lat, q),
            path_chained(*lat, q),
            cum@[t as int]->0 == cum@[cur as int]->0 - lat.nodes@[cur as int].cost + path_cost(
                *lat,
                *bigram,
                *overlay,
                q,
            ),
            rev@.len() == q.len(),
            forall|u: int| 0 <= u < rev@.len() ==> rev@[u] == q[q.len() - 1 - u],
        decreases cur,
    {
        proof {
            assert(dp_at(*lat, *bigram, *overlay, cum@, back@, cur as int));
        }
        let j = back[cur].unwrap();
        let ghost oldq = q;
        let ghost oldcur = cur;
        proof {
            lemma_path_cost_prepend(*lat, *bigram, *overlay, j, q);
        }
        rev.push(j);
        cur = j;
        proof {
            q = seq![j] + oldq;
            assert(q[0] == j);
            assert(q.last() == oldq.last());
            assert forall|u2: int| 0 <= u2 < q.len() implies (#[trigger] q[u2])
                < lat.nodes@.len() by {
                if u2 >= 1 {
                    assert(q[u2] == oldq[u2 - 1]);
                }
            }
            assert forall|u2: int| 1 <= u2 < q.len() implies lat.nodes@[(
            #[trigger] q[u2]) as int].start == lat.nodes@[q[u2 - 1] as int].end by {
                if u2 == 1 {
                    assert(q[1] == oldq[0]);
                    assert(lat.nodes@[oldq[0] as int].start == lat.nodes@[j as int].end);
                } else {
                    assert(q[u2] == oldq[u2 - 1] && q[u2 - 1] == oldq[u2 - 2]);
                }
            }
            assert forall|u2: int| 0 <= u2 < rev@.len() implies rev@[u2] == q[q.len() - 1
                - u2] by {
                if u2 < rev@.len() - 1 {
                    assert(rev@[u2] == oldq[oldq.len() - 1 - u2]);
                    assert(q[q.len() - 1 - u2] == oldq[q.len() - 2 - u2]);
                }
            }
        }
    }
    proof {
        assert(dp_at(*lat, *bigram, *overlay, cum@, back@, cur as int));
        assert(lat.nodes@[cur as int].start == 0);
        assert(cum@[cur as int]->0 == lat.nodes@[cur as int].cost);
        assert(path_valid(*lat, q));
        assert(path_cost(*lat, *bigram, *overlay, q) == cum@[t as int]->0);
    }
    let m = rev.len();
    let mut out: Vec<usize> = Vec::new();
    let mut idx: usize = 0;
    while idx < m
        invariant
            idx <= m,
            m == rev@.len(),
            rev@.len() == q.len(),
            forall|u: int| 0 <= u < rev@.len() ==> rev@[u] == q[q.len() - 1 - u],
            out@.len() == idx,
            forall|u: int| 0 <= u < idx ==> out@[u] == q[u],
        decreases m - idx,
    {
        out.push(rev[m - 1 - idx]);
        idx = idx + 1;
    }
    proof {
        assert(out@ =~= q);
    }
    out
}

/// Viterbi search with N-best extraction.  The result is never empty: an
/// empty reading yields the single empty path, and any other reading has a
/// terminal node thanks to the fallback mechanism.  Candidates are ranked
/// by total cost, cheapest first, and the first one is a provably optimal
/// segmentation; the alternatives are the best paths into the other
/// terminal nodes, first-seen order breaking ties.
#[verifier::rlimit(100)]
#[verifier::spinoff_prover]
pub fn search(lat: &Lattice, bigram: &BigramModel, overlay: &UserOverlay, nbest: usize) -> (r:
    Vec<Candidate>)
    requires
        lat.wf(),
        bigram.wf(),
        overlay.wf(),
        nbest >= 1,
    ensures
        r@.len() >= 1,
        lat.reading@.len() == 0 ==> r@.len() == 1 && r@[0].nodes@.len() == 0 && r@[0].total_cost
            == 0,
        lat.reading@.len() > 0 ==> r@.len() <= nbest && forall|c: int| 0 <= c < r@.len() ==> {
            &&& path_complete(*lat, (#[trigger] r@[c]).nodes@)
            &&& r@[c].total_cost == path_cost(*lat, *bigram, *overlay, r@[c].nodes@)
        },
        forall|c1: int, c2: int| 0 <= c1 < c2 < r@.len() ==> (#[trigger] r@[c1]).total_cost <= (
        #[trigger] r@[c2]).total_cost,
        lat.reading@.len() > 0 ==> forall|p: Seq<usize>| path_complete(*lat, p) ==> r@[0].total_cost
            <= #[trigger] path_cost(*lat, *bigram, *overlay, p),
        lat.reading@.len() > 0 ==> forall|c: int| 0 <= c < r@.len() ==> is_min_to(
            *lat,
            *bigram,
            *overlay,
            (#[trigger] r@[c]).nodes@.last() as int,
            r@[c].total_cost as int,
        ),
        lat.reading@.len() > 0 ==> forall|c1: int, c2: int| 0 <= c1 < c2 < r@.len() ==> (
        #[trigger] r@[c1]).nodes@.last() != (#[trigger] r@[c2]).nodes@.last(),
{
    let rlen = lat.reading.len();
    if rlen == 0 {
        let mut r: Vec<Candidate> = Vec::new();
        r.push(Candidate { nodes: Vec::new(), total_cost: 0 });
        return r;
    }
    let (cum, back) = forward_pass(lat, bigram, overlay);
    let n = lat.nodes.len();
    let mut terms: Vec<(i64, usize)> = Vec::new();
    let mut k: usize = 0;
    while k < n
        invariant
            k <= n,
            n == lat.nodes@.len(),
            rlen == lat.reading@.len(),
            cum@.len() == lat.nodes@.len(),
            forall|u: int| 0 <= u < terms@.len() ==> {
                let tk = (#[trigger] terms@[u]).1;
                &&& (tk as int) < n
                &&& lat.nodes@[tk as int].end == rlen
                &&& cum@[tk as int] == Some(terms@[u].0)
            },
            forall|k2: int| 0 <= k2 < k && (#[trigger] lat.nodes@[k2]).end == rlen
                && cum@[k2] is Some ==> exists|u: int| 0 <= u < terms@.len() && (
            #[trigger] terms@[u]) == (cum@[k2]->0, k2 as usize),
            forall|u: int| 0 <= u < terms@.len() ==> ((#[trigger] terms@[u]).1 as int) < k,
            forall|u1: int, u2: int| 0 <= u1 < u2 < terms@.len() ==> ((#[trigger] terms@[u1]).1
                as int) < ((#[trigger] terms@[u2]).1 as int),
        decreases n - k,
    {
        if lat.nodes[k].end == rlen {
            if let Some(c) = cum[k] {
                let ghost before = terms@;
                terms.push((c, k));
                proof {
                    assert(forall|u: int| 0 <= u < before.len() ==> terms@[u] == before[u]);
                    assert(terms@.last() == (c, k));
                }
            }
        }
        k = k + 1;
    }
    proof {
        lemma_complete_path_exists(*lat);
        let p0 = choose|p0: Seq<usize>| #[trigger] path_complete(*lat, p0);
        let tt = p0.last() as int;
        assert(dp_at(*lat, *bigram, *overlay, cum@, back@, tt));
        if cum@[tt] is None {
            assert(no_path_to(*lat, tt));
            assert(path_valid(*lat, p0));
            assert(false);
        }
        assert(terms@.len() >= 1);
    }
    let tlen = terms.len();
    let mut used: Vec<bool> = Vec::new();
    let mut w: usize = 0;
    while w < tlen
        invariant
            w <= tlen,
            used@.len() == w,
            forall|u: int| 0 <= u < w ==> !(#[trigger] used@[u]),
        decreases tlen - w,
    {
        used.push(false);
        w = w + 1;
    }
    let mut result: Vec<Candidate> = Vec::new();
    let mut round: usize = 0;
    while round < nbest
        invariant
            lat.wf(),
            bigram.wf(),
            overlay.wf(),
            nbest >= 1,
            round <= nbest,
            rlen == lat.reading@.len(),
            rlen >= 1,
            n == lat.nodes@.len(),
            cum@.len() == lat.nodes@.len(),
            dp_wf(*lat, *bigram, *overlay, cum@, back@),
            tlen == terms@.len(),
            tlen >= 1,
            used@.len() == tlen,
            result@.len() == round,
            round == 0 ==> forall|u: int| 0 <= u < tlen ==> !(#[trigger] used@[u]),
            forall|u: int| 0 <= u < terms@.len() ==> {
                let tk = (#[trigger] terms@[u]).1;
                &&& (tk as int) < n
                &&& lat.nodes@[tk as int].end == rlen
                &&& cum@[tk as int] == Some(terms@[u].0)
            },
            forall|k2: int| 0 <= k2 < n && (#[trigger] lat.nodes@[k2]).end == rlen
                && cum@[k2] is Some ==> exists|u: int| 0 <= u < terms@.len() && (
            #[trigger] terms@[u]) == (cum@[k2]->0, k2 as usize),
            forall|c: int| 0 <= c < result@.len() ==> {
                &&& path_complete(*lat, (#[trigger] result@[c]).nodes@)
                &&& result@[c].total_cost == path_cost(*lat, *bigram, *overlay, result@[c].nodes@)
            },
            forall|c1: int, c2: int| 0 <= c1 < c2 < result@.len() ==> (
            #[trigger] result@[c1]).total_cost <= (#[trigger] result@[c2]).total_cost,
            result@.len() >= 1 ==> forall|u: int| 0 <= u < terms@.len() ==> result@[0].total_cost
                <= (#[trigger] terms@[u]).0,
            result@.len() >= 1 ==> forall|u: int| 0 <= u < terms@.len() && !used@[u]
                ==> result@[result@.len() - 1].total_cost <= (#[trigger] terms@[u]).0,
            forall|u1: int, u2: int| 0 <= u1 < u2 < terms@.len() ==> ((#[trigger] terms@[u1]).1
                as int) < ((#[trigger] terms@[u2]).1 as int),
            forall|c: int| 0 <= c < result@.len() ==> exists|u: int|
                0 <= u < terms@.len() && used@[u] && (#[trigger] terms@[u]).0 == (
                #[trigger] result@[c]).total_cost && terms@[u].1 == result@[c].nodes@.last(),
            forall|c: int| 0 <= c < result@.len() ==> is_min_to(
                *lat,
                *bigram,
                *overlay,
                (#[trigger] result@[c]).nodes@.last() as int,
                result@[c].total_cost as int,
            ),
            forall|c1: int, c2: int| 0 <= c1 < c2 < result@.len() ==> (
            #[trigger] result@[c1]).nodes@.last() != (#[trigger] result@[c2]).nodes@.last(),
        decreases nbest - round,
    {
        let mut best: Option<(i64, usize)> = None;
        let mut u: usize = 0;
        while u < tlen
            invariant
                u <= tlen,
                tlen == terms@.len(),
                used@.len() == tlen,
                match best {
                    Some((bc, bu)) => {
                        &&& (bu as int) < u
                        &&& !used@[bu as int]
                        &&& terms@[bu as int].0 == bc
                        &&& forall|u2: int| 0 <= u2 < u && !used@[u2] ==> bc <= (
                        #[trigger] terms@[u2]).0
                    },
                    None => forall|u2: int| 0 <= u2 < u ==> #[trigger] used@[u2],
                },
            decreases tlen - u,
        {
            if !used[u] {
                let c = terms[u].0;
                let take = match best {
                    None => true,
                    Some((bc, _)) => c < bc,
                };
                if take {
                    best = Some((c, u));
                }
            }
            u = u + 1;
        }
        match best {
            None => {
                proof {
                    assert(round > 0) by {
                        if round == 0 {
                            assert(used@[0]);
                        }
                    }
                    assert forall|p: Seq<usize>| path_complete(*lat, p) implies result@[0].total_cost
                        <= #[trigger] path_cost(*lat, *bigram, *overlay, p) by {
                        let tt = p.last() as int;
                        assert(dp_at(*lat, *bigram, *overlay, cum@, back@, tt));
                        if cum@[tt] is None {
                            assert(no_path_to(*lat, p.last() as int));
                            assert(path_valid(*lat, p));
                            assert(false);
                        }
                        let u = choose|u: int|
                            0 <= u < terms@.len() && (#[trigger] terms@[u]) == (
                            cum@[tt]->0,
                            p.last(),
                        );
                        assert(result@[0].total_cost <= terms@[u].0);
                        assert(is_min_to(*lat, *bigram, *overlay, tt, cum@[tt]->0 as int));
                    }
                }
                return result;
            },
            Some((bc, bu)) => {
                let ghost used0 = used@;
                used.set(bu, true);
                let tnode = terms[bu].1;
                let path = reconstruct(lat, bigram, overlay, &cum, &back, tnode);
                let ghost before = result@;
                result.push(Candidate { nodes: path, total_cost: bc });
                proof {
                    assert(forall|c: int| 0 <= c < before.len() ==> result@[c] == before[c]);
                    assert(result@.last().total_cost == bc);
                    assert(result@.last().nodes@.last() == tnode);
                    assert(path_complete(*lat, result@.last().nodes@));
                    let last = result@.len() - 1;
                    assert forall|c: int| 0 <= c < result@.len() implies exists|u: int|
                        0 <= u < terms@.len() && used@[u] && (#[trigger] terms@[u]).0 == (
                    #[trigger] result@[c]).total_cost && terms@[u].1
                        == result@[c].nodes@.last() by {
                        if c < last {
                            let u = choose|u: int|
                                0 <= u < terms@.len() && used0[u] && (#[trigger] terms@[u]).0
                                    == before[c].total_cost && terms@[u].1
                                    == before[c].nodes@.last();
                            assert(used@[u]);
                        } else {
                            assert(0 <= bu < terms@.len() && used@[bu as int]
                                && terms@[bu as int].0 == bc && terms@[bu as int].1 == tnode);
                        }
                    }
                    assert(dp_at(*lat, *bigram, *overlay, cum@, back@, tnode as int));
                    assert(cum@[tnode as int] == Some(bc));
                    assert forall|c: int| 0 <= c < result@.len() implies is_min_to(
                        *lat,
                        *bigram,
                        *overlay,
                        (#[trigger] result@[c]).nodes@.last() as int,
                        result@[c].total_cost as int,
                    ) by {
                        if c < last {
                            assert(before[c] == result@[c]);
                        }
                    }
                    assert forall|c1: int, c2: int|
                        0 <= c1 < c2 < result@.len() implies (#[trigger] result@[c1]).nodes@.last()
                        != (#[trigger] result@[c2]).nodes@.last() by {
                        if c2 == last {
                            let u1 = choose|u: int|
                                0 <= u < terms@.len() && used0[u] && (#[trigger] terms@[u]).0
                                    == before[c1].total_cost && terms@[u].1
                                    == before[c1].nodes@.last();
                            assert(u1 != bu as int);
                            assert(terms@[u1].1 != terms@[bu as int].1);
                        }
                    }
                }
            },
        }
        round = round + 1;
    }
    proof {
        assert(result@.len() >= 1);
        assert forall|p: Seq<usize>| path_complete(*lat, p) implies result@[0].total_cost
            <= #[trigger] path_cost(*lat, *bigram, *overlay, p) by {
            let tt = p.last() as int;
            assert(dp_at(*lat, *bigram, *overlay, cum@, back@, tt));
            if cum@[tt] is None {
                assert(no_path_to(*lat, p.last() as int));
                assert(path_valid(*lat, p));
                assert(false);
            }
            let u = choose|u: int|
                0 <= u < terms@.len() && (#[trigger] terms@[u]) == (cum@[tt]->0, p.last());
            assert(result@[0].total_cost <= terms@[u].0);
            assert(is_min_to(*lat, *bigram, *overlay, tt, cum@[tt]->0 as int));
        }
    }
    result
}

} // verus!
