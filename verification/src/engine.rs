use vstd::prelude::*;
use crate::lattice::{Lattice, MAX_READING_LEN, build, matches_at, any_match_at, node_is_entry,
    is_fallback_node};
use crate::model::{UnigramModel, BigramModel};
use crate::overlay::{UserOverlay, record_post};
use crate::romaji::RomKanConverter;
use crate::search::{Candidate, search, path_complete, path_cost, path_valid, is_min_to};
use crate::text::{str_chars, chars_to_string};

verus! {

// The conversion engine: the two static models, the learned overlay, and
// the normalizer, tied together as one search interface.  A conversion is
// a pure function of (reading, models, overlay); committing a selection
// feeds the overlay through `record_selection`.

/// Surfaces of the path's nodes, concatenated in order.
pub open spec fn path_surface(lat: Lattice, p: Seq<usize>) -> Seq<char>
    decreases p.len(),
{
    if p.len() == 0 {
        Seq::empty()
    } else {
        path_surface(lat, p.drop_last()) + lat.nodes@[p.last() as int].surface@
    }
}

pub struct Engine {
    pub unigram: UnigramModel,
    pub bigram: BigramModel,
    pub overlay: UserOverlay,
    pub romkan: RomKanConverter,
    pub max_word_len: usize,
}

impl Engine {
    pub open spec fn wf(self) -> bool {
        &&& self.unigram.wf()
        &&& self.bigram.wf()
        &&& self.overlay.wf()
        &&& self.max_word_len >= 1
    }

    pub fn new(
        unigram: UnigramModel,
        bigram: BigramModel,
        overlay: UserOverlay,
        max_word_len: usize,
    ) -> (r: Engine)
        requires
            unigram.wf(),
            bigram.wf(),
            overlay.wf(),
            max_word_len >= 1,
        ensures
            r.wf(),
            r.unigram == unigram,
            r.bigram == bigram,
            r.overlay == overlay,
            r.max_word_len == max_word_len,
    {
        Engine { unigram, bigram, overlay, romkan: RomKanConverter::new(), max_word_len }
    }

    /// Convert a kana reading into the lattice over it and the ranked
    /// candidate paths: each candidate complete and exactly costed, the
    /// cheapest first and provably optimal.  The lattice is the one the
    /// builder promises over this engine's dictionary and overlay: every
    /// dictionary match is a node, a fallback stands where nothing
    /// matches, and nothing else is in it.
    pub fn convert(&self, reading: &str, nbest: usize) -> (r: (Lattice, Vec<Candidate>))
        requires
            self.wf(),
            reading@.len() <= MAX_READING_LEN,
            nbest >= 1,
        ensures
            r.0.wf(),
            r.0.reading@ == reading@,
            lattice_of_engine(*self, r.0),
            r.1@.len() >= 1,
            reading@.len() == 0 ==> r.1@.len() == 1 && r.1@[0].nodes@.len() == 0
                && r.1@[0].total_cost == 0,
            reading@.len() > 0 ==> r.1@.len() <= nbest && forall|c: int| 0 <= c < r.1@.len() ==> {
                &&& path_complete(r.0, (#[trigger] r.1@[c]).nodes@)
                &&& r.1@[c].total_cost == path_cost(r.0, self.bigram, self.overlay, r.1@[c].nodes@)
            },
            forall|c1: int, c2: int| 0 <= c1 < c2 < r.1@.len() ==> (#[trigger] r.1@[c1]).total_cost
                <= (#[trigger] r.1@[c2]).total_cost,
            reading@.len() > 0 ==> forall|p: Seq<usize>| path_complete(r.0, p)
                ==> r.1@[0].total_cost <= #[trigger] path_cost(r.0, self.bigram, self.overlay, p),
            reading@.len() > 0 ==> forall|c: int| 0 <= c < r.1@.len() ==> is_min_to(
                r.0,
                self.bigram,
                self.overlay,
                (#[trigger] r.1@[c]).nodes@.last() as int,
                r.1@[c].total_cost as int,
            ),
            reading@.len() > 0 ==> forall|c1: int, c2: int| 0 <= c1 < c2 < r.1@.len() ==> (
            #[trigger] r.1@[c1]).nodes@.last() != (#[trigger] r.1@[c2]).nodes@.last(),
    {
        let cs = str_chars(reading);
        let lat = build(&cs, &self.unigram, &self.overlay, self.max_word_len);
        let cands = search(&lat, &self.bigram, &self.overlay, nbest);
        (lat, cands)
    }

}

/// The lattice is exactly the builder's image of the engine's dictionary
/// and overlay over its own reading: completeness (every dictionary match
/// within the word-length cap has its node), the fallback guarantee, and
/// soundness (no other node exists).
pub open spec fn lattice_of_engine(e: Engine, lat: Lattice) -> bool {
    &&& forall|i: int, j: int| #[trigger] matches_at(
        e.unigram.entries@,
        lat.reading@,
        e.max_word_len as int,
        i,
        j,
    ) ==> exists|k: int| 0 <= k < lat.nodes@.len() && (#[trigger] lat.nodes@[k]).start == i
        && node_is_entry(e.unigram.entries@, e.overlay, lat.reading@, e.max_word_len as int,
        lat.nodes@[k], j)
    &&& forall|i: int| 0 <= i < lat.reading@.len() && !any_match_at(
        e.unigram.entries@,
        lat.reading@,
        e.max_word_len as int,
        i,
    ) ==> exists|k: int| 0 <= k < lat.nodes@.len() && (#[trigger] lat.nodes@[k]).start == i
        && is_fallback_node(lat.reading@, lat.nodes@[k])
    &&& forall|k: int| 0 <= k < lat.nodes@.len() ==> (exists|j: int| node_is_entry(
        e.unigram.entries@,
        e.overlay,
        lat.reading@,
        e.max_word_len as int,
        #[trigger] lat.nodes@[k],
        j,
    )) || (is_fallback_node(lat.reading@, lat.nodes@[k]) && !any_match_at(
        e.unigram.entries@,
        lat.reading@,
        e.max_word_len as int,
        lat.nodes@[k].start as int,
    ))
}

impl Engine {
    /// Feed one committed path back into the learning overlay; the only
    /// mutation the engine ever performs.
    pub fn record_selection(&mut self, path_ids: &Vec<Option<u32>>)
        requires
            old(self).wf(),
        ensures
            final(self).wf(),
            record_post(old(self).overlay, final(self).overlay, path_ids@),
            final(self).unigram == old(self).unigram,
            final(self).bigram == old(self).bigram,
            final(self).max_word_len == old(self).max_word_len,
    {
        self.overlay.record_selection(path_ids);
    }
}

/// The word ids along a candidate path; fallback nodes yield `None`.
pub fn candidate_word_ids(lat: &Lattice, cand: &Candidate) -> (r: Vec<Option<u32>>)
    requires
        path_valid(*lat, cand.nodes@),
    ensures
        r@.len() == cand.nodes@.len(),
        forall|t: int| 0 <= t < r@.len() ==> r@[t] == lat.nodes@[(
        #[trigger] cand.nodes@[t]) as int].word_id,
{
    let mut r: Vec<Option<u32>> = Vec::new();
    let mut t: usize = 0;
    while t < cand.nodes.len()
        invariant
            t <= cand.nodes@.len(),
            path_valid(*lat, cand.nodes@),
            r@.len() == t,
            forall|u: int| 0 <= u < t ==> r@[u] == lat.nodes@[(
            #[trigger] cand.nodes@[u]) as int].word_id,
        decreases cand.nodes@.len() - t,
    {
        proof {
            assert(cand.nodes@[t as int] < lat.nodes@.len());
        }
        r.push(lat.nodes[cand.nodes[t]].word_id);
        t = t + 1;
    }
    r
}

/// The display surface of a candidate path: its node surfaces, in order.
pub fn candidate_surface(lat: &Lattice, cand: &Candidate) -> (r: String)
    requires
        forall|t: int| 0 <= t < cand.nodes@.len() ==> (#[trigger] cand.nodes@[t])
            < lat.nodes@.len(),
    ensures
        r@ == path_surface(*lat, cand.nodes@),
{
    let mut out: Vec<char> = Vec::new();
    let mut t: usize = 0;
    proof {
        assert(cand.nodes@.take(0) =~= Seq::<usize>::empty());
    }
    while t < cand.nodes.len()
        invariant
            t <= cand.nodes@.len(),
            forall|u: int| 0 <= u < cand.nodes@.len() ==> (#[trigger] cand.nodes@[u])
                < lat.nodes@.len(),
            out@ == path_surface(*lat, cand.nodes@.take(t as int)),
        decreases cand.nodes@.len() - t,
    {
        let ghost before = out@;
        crate::model::copy_chars(&lat.nodes[cand.nodes[t]].surface, &mut out);
        proof {
            let pfx = cand.nodes@.take(t + 1 as int);
            assert(pfx.drop_last() =~= cand.nodes@.take(t as int));
            assert(pfx.last() == cand.nodes@[t as int]);
        }
        t = t + 1;
    }
    proof {
        assert(cand.nodes@.take(cand.nodes@.len() as int) =~= cand.nodes@);
    }
    chars_to_string(&out)
}

} // verus!
