use vstd::prelude::*;
use vstd::arithmetic::div_mod::lemma_fundamental_div_mod_converse;
use crate::cost::MAX_COST;
use crate::model::{WordEntry, UnigramModel, UnigramBuilder, BigramModel, spec_key_of, spec_find,
    lemma_find_present};
use crate::text::char_from_u32;
use crate::words::{spec_words_to_bytes, spec_bytes_to_words, words_to_bytes, bytes_to_words,
    lemma_bytes_words_inverse, lemma_words_bytes_round_trip};

verus! {

// On-disk form of the two system model files.  Both are 32-bit word
// streams: a magic word, a format version, then fixed-layout records;
// characters travel as their code points, costs as two words.  A model
// file that cannot be read back exactly is refused: a missing file is the
// caller's case, a wrong version and a malformed body are told apart here.

pub const UNIGRAM_MAGIC: u32 = 0x414B5A55;

pub const BIGRAM_MAGIC: u32 = 0x414B5A42;

pub const MODEL_VERSION: u32 = 1;

#[derive(PartialEq, Eq, Structural, Clone, Copy, Debug)]
pub enum LoadError {
    Corrupt,
    VersionMismatch,
}

pub open spec fn spec_chars_words(cs: Seq<char>) -> Seq<u32>
    decreases cs.len(),
{
    if cs.len() == 0 {
        Seq::empty()
    } else {
        spec_chars_words(cs.drop_last()).push(cs.last() as u32)
    }
}

pub open spec fn spec_cost_words(c: int) -> Seq<u32> {
    seq![(c % 0x100000000) as u32, (c / 0x100000000) as u32]
}

pub open spec fn spec_entry_words(e: WordEntry) -> Seq<u32> {
    seq![e.surface@.len() as u32] + spec_chars_words(e.surface@) + seq![e.reading@.len() as u32]
        + spec_chars_words(e.reading@) + spec_cost_words(e.cost as int)
}

pub open spec fn spec_unigram_words(s: Seq<WordEntry>) -> Seq<u32>
    decreases s.len(),
{
    if s.len() == 0 {
        Seq::empty()
    } else {
        spec_unigram_words(s.drop_last()) + spec_entry_words(s.last())
    }
}

/// The whole unigram model file.
pub open spec fn spec_unigram_bytes(m: UnigramModel) -> Seq<u8> {
    spec_words_to_bytes(
        seq![UNIGRAM_MAGIC, MODEL_VERSION, m.entries@.len() as u32] + spec_unigram_words(
            m.entries@,
        ),
    )
}

pub open spec fn spec_bigram_entry_words(e: (u32, u32, i64)) -> Seq<u32> {
    seq![e.0, e.1] + spec_cost_words(e.2 as int)
}

pub open spec fn spec_bigram_words(s: Seq<(u32, u32, i64)>) -> Seq<u32>
    decreases s.len(),
{
    if s.len() == 0 {
        Seq::empty()
    } else {
        spec_bigram_words(s.drop_last()) + spec_bigram_entry_words(s.last())
    }
}

/// The whole bigram model file.
pub open spec fn spec_bigram_bytes(m: BigramModel) -> Seq<u8> {
    spec_words_to_bytes(
        seq![BIGRAM_MAGIC, MODEL_VERSION] + spec_cost_words(m.default_edge_cost as int) + seq![
            m.entries@.len() as u32,
        ] + spec_bigram_words(m.entries@),
    )
}

/// Bounds under which a model fits the file layout.
pub open spec fn unigram_serializable(m: UnigramModel) -> bool {
    &&& m.entries@.len() <= u32::MAX
    &&& forall|k: int| 0 <= k < m.entries@.len() ==> (#[trigger] m.entries@[k]).surface@.len()
        <= u32::MAX && m.entries@[k].reading@.len() <= u32::MAX
}

/// Split a cost into its two file words.
fn cost_to_words(c: i64) -> (r: (u32, u32))
    requires
        0 <= c <= MAX_COST,
    ensures
        seq![r.0, r.1] == spec_cost_words(c as int),
{
    let lo = (c % 0x100000000) as u32;
    let hi = (c / 0x100000000) as u32;
    (lo, hi)
}

/// Read a cost back from its two file words; `None` exactly when the
/// encoded value is out of the cost range.
fn cost_from_words(lo: u32, hi: u32) -> (r: Option<i64>)
    ensures
        match r {
            Some(c) => 0 <= c <= MAX_COST && spec_cost_words(c as int) == seq![lo, hi],
            None => (lo as int) + (hi as int) * 0x100000000 > MAX_COST,
        },
{
    let v: u64 = (lo as u64) + (hi as u64) * 0x100000000;
    if v > MAX_COST as u64 {
        return None;
    }
    let c = v as i64;
    proof {
        lemma_fundamental_div_mod_converse(c as int, 0x100000000, hi as int, lo as int);
        assert(spec_cost_words(c as int) =~= seq![lo, hi]);
    }
    Some(c)
}

/// The two file words of a cost in range encode exactly that value.
proof fn lemma_cost_words_value(c: int)
    requires
        0 <= c <= MAX_COST,
    ensures
        (spec_cost_words(c)[0] as int) + (spec_cost_words(c)[1] as int) * 0x100000000 == c,
        spec_cost_words(c).len() == 2,
{
    vstd::arithmetic::div_mod::lemma_fundamental_div_mod(c, 0x100000000);
}

/// No well-formed bigram model serializes to bytes the loader refuses.
pub open spec fn bigram_matches(m: BigramModel, bytes: Seq<u8>) -> bool {
    &&& m.wf()
    &&& m.entries@.len() <= u32::MAX
    &&& spec_bigram_bytes(m) == bytes
}

proof fn lemma_bigram_words_len(s: Seq<(u32, u32, i64)>)
    ensures
        spec_bigram_words(s).len() == 4 * s.len(),
    decreases s.len(),
{
    if s.len() > 0 {
        lemma_bigram_words_len(s.drop_last());
    }
}

proof fn lemma_bigram_words_pos(s: Seq<(u32, u32, i64)>, i: int)
    requires
        0 <= i < s.len(),
    ensures
        spec_bigram_words(s).len() == 4 * s.len(),
        spec_bigram_words(s).subrange(4 * i, 4 * i + 4) == spec_bigram_entry_words(s[i]),
    decreases s.len(),
{
    lemma_bigram_words_len(s);
    lemma_bigram_words_len(s.drop_last());
    if i == s.len() - 1 {
        assert(spec_bigram_words(s).subrange(4 * i, 4 * i + 4) =~= spec_bigram_entry_words(
            s.last(),
        ));
    } else {
        lemma_bigram_words_pos(s.drop_last(), i);
        assert(spec_bigram_words(s).subrange(4 * i, 4 * i + 4) =~= spec_bigram_words(
            s.drop_last(),
        ).subrange(4 * i, 4 * i + 4));
    }
}

/// Everything the word stream of a matching bigram model determines.
proof fn lemma_bigram_match_words(m: BigramModel, bytes: Seq<u8>, gws: Seq<u32>)
    requires
        bigram_matches(m, bytes),
        spec_bytes_to_words(bytes) == Some(gws),
    ensures
        gws.len() == 5 + 4 * m.entries@.len(),
        gws[0] == BIGRAM_MAGIC,
        gws[1] == MODEL_VERSION,
        (gws[2] as int) + (gws[3] as int) * 0x100000000 == m.default_edge_cost as int,
        gws[4] as int == m.entries@.len() as int,
        forall|i: int| 0 <= i < m.entries@.len() ==> gws.subrange(5 + 4 * i, 9 + 4 * i)
            == spec_bigram_entry_words(#[trigger] m.entries@[i]),
        forall|i: int| 0 <= i < m.entries@.len() ==> gws[5 + 4 * i] == (
        #[trigger] m.entries@[i]).0 && gws[6 + 4 * i] == m.entries@[i].1 && (gws[7 + 4 * i] as int)
            + (gws[8 + 4 * i] as int) * 0x100000000 == m.entries@[i].2 as int,
{
    let hdr = seq![BIGRAM_MAGIC, MODEL_VERSION] + spec_cost_words(m.default_edge_cost as int)
        + seq![m.entries@.len() as u32];
    let body = spec_bigram_words(m.entries@);
    lemma_words_bytes_round_trip(hdr + body);
    assert(spec_bytes_to_words(bytes) == Some(hdr + body));
    assert(gws == hdr + body);
    lemma_bigram_words_len(m.entries@);
    lemma_cost_words_value(m.default_edge_cost as int);
    assert(gws[2] == spec_cost_words(m.default_edge_cost as int)[0]);
    assert(gws[3] == spec_cost_words(m.default_edge_cost as int)[1]);
    assert forall|i: int| 0 <= i < m.entries@.len() implies gws.subrange(5 + 4 * i, 9 + 4 * i)
        == spec_bigram_entry_words(#[trigger] m.entries@[i]) by {
        lemma_bigram_words_pos(m.entries@, i);
        assert(gws.subrange(5 + 4 * i, 9 + 4 * i) =~= body.subrange(4 * i, 4 * i + 4));
    }
    assert forall|i: int| 0 <= i < m.entries@.len() implies gws[5 + 4 * i] == (
    #[trigger] m.entries@[i]).0 && gws[6 + 4 * i] == m.entries@[i].1 && (gws[7 + 4 * i] as int) + (
    gws[8 + 4 * i] as int) * 0x100000000 == m.entries@[i].2 as int by {
        let ew = spec_bigram_entry_words(m.entries@[i]);
        assert(gws.subrange(5 + 4 * i, 9 + 4 * i) == ew);
        assert(gws[5 + 4 * i] == ew[0] && gws[6 + 4 * i] == ew[1] && gws[7 + 4 * i] == ew[2]
            && gws[8 + 4 * i] == ew[3]);
        assert(0 <= m.entries@[i].2 <= MAX_COST);
        lemma_cost_words_value(m.entries@[i].2 as int);
        assert(ew[2] == spec_cost_words(m.entries@[i].2 as int)[0]);
        assert(ew[3] == spec_cost_words(m.entries@[i].2 as int)[1]);
    }
}

/// A word that is a unicode scalar value, as a code-point word must be.
pub open spec fn word_is_scalar(w: u32) -> bool {
    (w as int) < 0xD800 || (0xE000 <= w as int && w as int <= 0x10FFFF)
}

/// No well-formed unigram model serializes to bytes the loader refuses.
pub open spec fn unigram_matches(m: UnigramModel, bytes: Seq<u8>) -> bool {
    &&& m.wf()
    &&& unigram_serializable(m)
    &&& spec_unigram_bytes(m) == bytes
}

proof fn lemma_chars_words_props(cs: Seq<char>)
    ensures
        spec_chars_words(cs).len() == cs.len(),
        forall|k: int| 0 <= k < cs.len() ==> spec_chars_words(cs)[k] == (#[trigger] cs[k]) as u32,
    decreases cs.len(),
{
    if cs.len() > 0 {
        lemma_chars_words_props(cs.drop_last());
        assert forall|k: int|
            0 <= k < cs.len() implies spec_chars_words(cs)[k] == (#[trigger] cs[k]) as u32 by {
            if k < cs.len() - 1 {
                assert(spec_chars_words(cs)[k] == spec_chars_words(cs.drop_last())[k]);
                assert(cs.drop_last()[k] == cs[k]);
            }
        }
    }
}

proof fn lemma_unigram_words_front(s: Seq<WordEntry>)
    requires
        s.len() >= 1,
    ensures
        spec_unigram_words(s) == spec_entry_words(s[0]) + spec_unigram_words(s.skip(1)),
    decreases s.len(),
{
    if s.len() == 1 {
        assert(s.skip(1) =~= Seq::<WordEntry>::empty());
        assert(s.drop_last().len() == 0);
        assert(spec_unigram_words(s.drop_last()) == Seq::<u32>::empty());
        assert(spec_unigram_words(s.skip(1)) == Seq::<u32>::empty());
        assert(s.last() == s[0]);
        assert(spec_unigram_words(s) == spec_unigram_words(s.drop_last()) + spec_entry_words(
            s.last(),
        ));
        assert(spec_unigram_words(s) =~= spec_entry_words(s[0]) + spec_unigram_words(s.skip(1)));
    } else {
        lemma_unigram_words_front(s.drop_last());
        assert(s.drop_last()[0] == s[0]);
        assert(s.drop_last().skip(1) =~= s.skip(1).drop_last());
        assert(s.skip(1).last() == s.last());
        assert(spec_unigram_words(s.skip(1)) == spec_unigram_words(s.skip(1).drop_last())
            + spec_entry_words(s.skip(1).last()));
        assert(spec_unigram_words(s) =~= spec_entry_words(s[0]) + spec_unigram_words(s.skip(1)));
    }
}

/// What the word stream of a matching unigram model starts with.
proof fn lemma_unigram_header(m: UnigramModel, bytes: Seq<u8>, gws: Seq<u32>)
    requires
        unigram_matches(m, bytes),
        spec_bytes_to_words(bytes) == Some(gws),
    ensures
        gws.len() >= 3,
        gws[0] == UNIGRAM_MAGIC,
        gws[1] == MODEL_VERSION,
        gws[2] as int == m.entries@.len() as int,
        gws.skip(3) == spec_unigram_words(m.entries@),
{
    let hdr = seq![UNIGRAM_MAGIC, MODEL_VERSION, m.entries@.len() as u32];
    let body = spec_unigram_words(m.entries@);
    lemma_words_bytes_round_trip(hdr + body);
    assert(spec_bytes_to_words(bytes) == Some(hdr + body));
    assert(gws == hdr + body);
    assert(gws.skip(3) =~= body);
}

/// The layout of one model entry inside the word stream: its lengths,
/// its characters as code points, its cost words, and what remains after.
#[verifier::rlimit(100)]
#[verifier::spinoff_prover]
proof fn lemma_unigram_entry_at(m: UnigramModel, gws: Seq<u32>, pos: int, e: int)
    requires
        m.wf(),
        unigram_serializable(m),
        0 <= e < m.entries@.len(),
        0 <= pos <= gws.len(),
        gws.skip(pos) == spec_unigram_words(m.entries@.skip(e)),
    ensures
        m.entries@[e].surface@.len() <= u32::MAX,
        m.entries@[e].reading@.len() <= u32::MAX,
        1 <= m.entries@[e].reading@.len(),
        0 <= m.entries@[e].cost <= MAX_COST,
        pos + m.entries@[e].surface@.len() + m.entries@[e].reading@.len() + 4 <= gws.len(),
        gws[pos] == m.entries@[e].surface@.len() as u32,
        forall|k: int| 0 <= k < m.entries@[e].surface@.len() ==> gws[pos + 1 + k] == (
        #[trigger] m.entries@[e].surface@[k]) as u32,
        gws[pos + 1 + m.entries@[e].surface@.len()] == m.entries@[e].reading@.len() as u32,
        forall|k: int| 0 <= k < m.entries@[e].reading@.len() ==> gws[pos + 2
            + m.entries@[e].surface@.len() + k] == (#[trigger] m.entries@[e].reading@[k]) as u32,
        (gws[pos + 2 + m.entries@[e].surface@.len() + m.entries@[e].reading@.len()] as int) + (
        gws[pos + 3 + m.entries@[e].surface@.len() + m.entries@[e].reading@.len()] as int)
            * 0x100000000 == m.entries@[e].cost as int,
        gws.skip(pos + m.entries@[e].surface@.len() + m.entries@[e].reading@.len() + 4)
            == spec_unigram_words(m.entries@.skip(e + 1)),
{
    let ent = m.entries@[e];
    let slen = ent.surface@.len() as int;
    let rlen = ent.reading@.len() as int;
    lemma_unigram_words_front(m.entries@.skip(e));
    assert(m.entries@.skip(e)[0] == ent);
    assert(m.entries@.skip(e).skip(1) =~= m.entries@.skip(e + 1));
    let ew = spec_entry_words(ent);
    lemma_chars_words_props(ent.surface@);
    lemma_chars_words_props(ent.reading@);
    assert(ew.len() == slen + rlen + 4);
    assert(gws.skip(pos) == ew + spec_unigram_words(m.entries@.skip(e + 1)));
    assert(gws.skip(pos).len() == gws.len() - pos);
    assert((ew + spec_unigram_words(m.entries@.skip(e + 1))).len() == ew.len()
        + spec_unigram_words(m.entries@.skip(e + 1)).len());
    assert(gws.len() - pos >= ew.len());
    assert forall|t: int| 0 <= t < ew.len() implies gws[pos + t] == ew[t] by {
        assert(gws.skip(pos)[t] == ew[t]);
        assert(gws.skip(pos)[t] == gws[pos + t]);
    }
    assert(ew[0] == slen as u32);
    assert forall|k: int| 0 <= k < slen implies gws[pos + 1 + k] == (
    #[trigger] ent.surface@[k]) as u32 by {
        let t = 1 + k;
        assert(0 <= t < ew.len());
        assert(gws.skip(pos)[t] == (ew + spec_unigram_words(m.entries@.skip(e + 1)))[t]);
        assert((ew + spec_unigram_words(m.entries@.skip(e + 1)))[t] == ew[t]);
        assert(gws.skip(pos)[t] == gws[pos + t]);
        assert(ew[t] == spec_chars_words(ent.surface@)[k]);
        lemma_chars_words_props(ent.surface@);
        assert(spec_chars_words(ent.surface@)[k] == ent.surface@[k] as u32);
        assert(gws[pos + 1 + k] == gws[pos + t]);
    }
    assert(ew[1 + slen] == rlen as u32);
    assert forall|k: int| 0 <= k < rlen implies gws[pos + 2 + slen + k] == (
    #[trigger] ent.reading@[k]) as u32 by {
        let t = 2 + slen + k;
        assert(0 <= t < ew.len());
        assert(gws.skip(pos)[t] == (ew + spec_unigram_words(m.entries@.skip(e + 1)))[t]);
        assert((ew + spec_unigram_words(m.entries@.skip(e + 1)))[t] == ew[t]);
        assert(gws.skip(pos)[t] == gws[pos + t]);
        assert(ew[t] == spec_chars_words(ent.reading@)[k]);
        lemma_chars_words_props(ent.reading@);
        assert(spec_chars_words(ent.reading@)[k] == ent.reading@[k] as u32);
        assert(gws[pos + 2 + slen + k] == gws[pos + t]);
    }
    assert(0 <= ent.cost <= MAX_COST);
    lemma_cost_words_value(ent.cost as int);
    assert(ew[2 + slen + rlen] == spec_cost_words(ent.cost as int)[0]);
    assert(ew[3 + slen + rlen] == spec_cost_words(ent.cost as int)[1]);
    assert(gws.skip(pos).skip(slen + rlen + 4) =~= gws.skip(pos + slen + rlen + 4));
    assert((ew + spec_unigram_words(m.entries@.skip(e + 1))).skip(ew.len() as int)
        =~= spec_unigram_words(m.entries@.skip(e + 1)));
    assert(gws.skip(pos).skip(ew.len() as int) == (ew + spec_unigram_words(
        m.entries@.skip(e + 1),
    )).skip(ew.len() as int));
    assert(gws.skip(pos + slen + rlen + 4) == spec_unigram_words(m.entries@.skip(e + 1)));
}

/// Serialize the unigram model; `parse_unigram_model` reads it back.
pub fn serialize_unigram_model(m: &UnigramModel) -> (r: Vec<u8>)
    requires
        m.wf(),
        unigram_serializable(*m),
    ensures
        r@ == spec_unigram_bytes(*m),
{
    let mut ws: Vec<u32> = Vec::new();
    ws.push(UNIGRAM_MAGIC);
    ws.push(MODEL_VERSION);
    ws.push(m.entries.len() as u32);
    let ghost header = ws@;
    proof {
        assert(header =~= seq![UNIGRAM_MAGIC, MODEL_VERSION, m.entries@.len() as u32]);
        assert(ws@ =~= header + spec_unigram_words(m.entries@.take(0)));
    }
    let mut i: usize = 0;
    while i < m.entries.len()
        invariant
            i <= m.entries@.len(),
            m.wf(),
            unigram_serializable(*m),
            header == seq![UNIGRAM_MAGIC, MODEL_VERSION, m.entries@.len() as u32],
            ws@ == header + spec_unigram_words(m.entries@.take(i as int)),
        decreases m.entries@.len() - i,
    {
        let ghost base = ws@;
        let e = &m.entries[i];
        ws.push(e.surface.len() as u32);
        push_chars_words(&mut ws, &e.surface);
        ws.push(e.reading.len() as u32);
        push_chars_words(&mut ws, &e.reading);
        let (lo, hi) = cost_to_words(e.cost);
        ws.push(lo);
        ws.push(hi);
        proof {
            assert(ws@ =~= base + spec_entry_words(m.entries@[i as int]));
            assert(m.entries@.take(i + 1 as int).drop_last() =~= m.entries@.take(i as int));
            assert(m.entries@.take(i + 1 as int).last() == m.entries@[i as int]);
            assert(ws@ =~= header + spec_unigram_words(m.entries@.take(i + 1 as int)));
        }
        i = i + 1;
    }
    proof {
        assert(m.entries@.take(m.entries@.len() as int) =~= m.entries@);
    }
    words_to_bytes(&ws)
}

/// Append a character sequence as code-point words.
fn push_chars_words(ws: &mut Vec<u32>, cs: &Vec<char>)
    ensures
        final(ws)@ == old(ws)@ + spec_chars_words(cs@),
{
    let mut j: usize = 0;
    proof {
        assert(ws@ =~= old(ws)@ + spec_chars_words(cs@.take(0)));
    }
    while j < cs.len()
        invariant
            j <= cs@.len(),
            ws@ == old(ws)@ + spec_chars_words(cs@.take(j as int)),
        decreases cs@.len() - j,
    {
        ws.push(cs[j] as u32);
        proof {
            assert(cs@.take(j + 1 as int).drop_last() =~= cs@.take(j as int));
            assert(cs@.take(j + 1 as int).last() == cs@[j as int]);
            assert(ws@ =~= old(ws)@ + spec_chars_words(cs@.take(j + 1 as int)));
        }
        j = j + 1;
    }
    proof {
        assert(cs@.take(cs@.len() as int) =~= cs@);
    }
}

/// Load the unigram model from its file bytes.  A model comes back only
/// if the bytes are exactly a serialized well-formed model — the result
/// re-serializes to the input.  A recognizable header with the wrong
/// version is a version mismatch; everything else unreadable is corrupt.
#[verifier::rlimit(100)]
#[verifier::spinoff_prover]
pub fn parse_unigram_model(bytes: &Vec<u8>) -> (r: Result<UnigramModel, LoadError>)
    ensures
        match r {
            Ok(m) => m.wf() && unigram_serializable(m) && spec_unigram_bytes(m) == bytes@,
            Err(e) => {
                &&& forall|m: UnigramModel| !(#[trigger] unigram_matches(m, bytes@))
                &&& (e is VersionMismatch ==> {
                    let ws = spec_bytes_to_words(bytes@)->0;
                    spec_bytes_to_words(bytes@) is Some && ws.len() >= 2 && ws[0] == UNIGRAM_MAGIC
                        && ws[1] != MODEL_VERSION
                })
            },
        },
{
    let ws = match bytes_to_words(bytes) {
        Some(w) => w,
        None => {
            proof {
                assert forall|m: UnigramModel| !(#[trigger] unigram_matches(m, bytes@)) by {
                    if unigram_matches(m, bytes@) {
                        lemma_words_bytes_round_trip(
                            seq![UNIGRAM_MAGIC, MODEL_VERSION, m.entries@.len() as u32]
                                + spec_unigram_words(m.entries@),
                        );
                    }
                }
            }
            return Err(LoadError::Corrupt);
        },
    };
    let wlen = ws.len();
    if wlen < 3 {
        proof {
            assert forall|m: UnigramModel| !(#[trigger] unigram_matches(m, bytes@)) by {
                if unigram_matches(m, bytes@) {
                    lemma_unigram_header(m, bytes@, ws@);
                }
            }
        }
        return Err(LoadError::Corrupt);
    }
    if ws[0] != UNIGRAM_MAGIC {
        proof {
            assert forall|m: UnigramModel| !(#[trigger] unigram_matches(m, bytes@)) by {
                if unigram_matches(m, bytes@) {
                    lemma_unigram_header(m, bytes@, ws@);
                }
            }
        }
        return Err(LoadError::Corrupt);
    }
    if ws[1] != MODEL_VERSION {
        proof {
            assert forall|m: UnigramModel| !(#[trigger] unigram_matches(m, bytes@)) by {
                if unigram_matches(m, bytes@) {
                    lemma_unigram_header(m, bytes@, ws@);
                }
            }
        }
        return Err(LoadError::VersionMismatch);
    }
    let n = ws[2];
    let ghost gws = ws@;
    let ghost header = seq![UNIGRAM_MAGIC, MODEL_VERSION, n];
    let mut builder = UnigramBuilder::new();
    let mut pos: usize = 3;
    let mut e: u32 = 0;
    proof {
        assert(gws.take(3) =~= header + spec_unigram_words(builder.entries@));
        assert forall|m: UnigramModel| #[trigger] unigram_matches(m, bytes@)
            implies m.entries@.len() == n as int && gws.skip(3) == spec_unigram_words(
            m.entries@.skip(0),
        ) && (forall|k: int| 0 <= k < 0 ==> (#[trigger] m.entries@[k]).key@
            == builder.entries@[k].key@) by {
            lemma_unigram_header(m, bytes@, gws);
            assert(m.entries@.skip(0) =~= m.entries@);
        }
    }
    while e < n
        invariant
            e <= n,
            gws == ws@,
            wlen == ws@.len(),
            3 <= pos <= wlen,
            n == gws[2],
            gws[0] == UNIGRAM_MAGIC,
            gws[1] == MODEL_VERSION,
            header == seq![UNIGRAM_MAGIC, MODEL_VERSION, n],
            builder.wf(),
            builder.entries@.len() == e,
            forall|k: int| 0 <= k < builder.entries@.len() ==> (
            #[trigger] builder.entries@[k]).surface@.len() <= u32::MAX
                && builder.entries@[k].reading@.len() <= u32::MAX,
            spec_bytes_to_words(bytes@) == Some(gws),
            gws.take(pos as int) == header + spec_unigram_words(builder.entries@),
            forall|m: UnigramModel| #[trigger] unigram_matches(m, bytes@) ==> m.entries@.len()
                == n as int && gws.skip(pos as int) == spec_unigram_words(
                m.entries@.skip(e as int),
            ) && (forall|k: int| 0 <= k < e ==> (#[trigger] m.entries@[k]).key@
                == builder.entries@[k].key@),
        decreases n - e,
    {
        let ghost base = gws.take(pos as int);
        let ghost pos0 = pos as int;
        if pos >= wlen {
            proof {
                assert forall|m: UnigramModel| !(#[trigger] unigram_matches(m, bytes@)) by {
                    if unigram_matches(m, bytes@) {
                        lemma_unigram_entry_at(m, gws, pos0, e as int);
                    }
                }
            }
            return Err(LoadError::Corrupt);
        }
        let slen = ws[pos];
        pos = pos + 1;
        let surface = match read_chars(&ws, &mut pos, slen) {
            Some(v) => v,
            None => {
                proof {
                    assert forall|m: UnigramModel| !(#[trigger] unigram_matches(m, bytes@)) by {
                        if unigram_matches(m, bytes@) {
                            lemma_unigram_entry_at(m, gws, pos0, e as int);
                            let ent = m.entries@[e as int];
                            assert(slen as int == ent.surface@.len() as int);
                            assert(pos0 + 1 + slen <= wlen as int);
                            if exists|k: int|
                                pos0 + 1 <= k < pos0 + 1 + slen && k < gws.len()
                                    && !word_is_scalar(#[trigger] gws[k]) {
                                let bad = choose|k: int|
                                    pos0 + 1 <= k < pos0 + 1 + slen && k < gws.len()
                                        && !word_is_scalar(#[trigger] gws[k]);
                                let k = bad - pos0 - 1;
                                assert(0 <= k < slen);
                                let c = ent.surface@[k];
                                vstd::utf8::char_is_scalar(c);
                                assert(gws[pos0 + 1 + k] == c as u32);
                                assert(gws[bad] == c as u32);
                                assert(word_is_scalar(gws[bad]));
                            }
                        }
                    }
                }
                return Err(LoadError::Corrupt);
            },
        };
        if pos >= wlen {
            proof {
                assert forall|m: UnigramModel| !(#[trigger] unigram_matches(m, bytes@)) by {
                    if unigram_matches(m, bytes@) {
                        lemma_unigram_entry_at(m, gws, pos0, e as int);
                        assert(slen as int == m.entries@[e as int].surface@.len() as int);
                    }
                }
            }
            return Err(LoadError::Corrupt);
        }
        let rlen = ws[pos];
        pos = pos + 1;
        let reading = match read_chars(&ws, &mut pos, rlen) {
            Some(v) => v,
            None => {
                proof {
                    assert forall|m: UnigramModel| !(#[trigger] unigram_matches(m, bytes@)) by {
                        if unigram_matches(m, bytes@) {
                            lemma_unigram_entry_at(m, gws, pos0, e as int);
                            let ent = m.entries@[e as int];
                            assert(slen as int == ent.surface@.len() as int);
                            assert(rlen as int == ent.reading@.len() as int);
                            assert(pos0 + 2 + slen + rlen <= wlen as int);
                            if exists|k: int|
                                pos0 + 2 + slen <= k < pos0 + 2 + slen + rlen && k < gws.len()
                                    && !word_is_scalar(#[trigger] gws[k]) {
                                let bad = choose|k: int|
                                    pos0 + 2 + slen <= k < pos0 + 2 + slen + rlen && k < gws.len()
                                        && !word_is_scalar(#[trigger] gws[k]);
                                let k = bad - pos0 - 2 - slen;
                                assert(0 <= k < rlen);
                                let c = ent.reading@[k];
                                vstd::utf8::char_is_scalar(c);
                                assert(gws[pos0 + 2 + slen + k] == c as u32);
                                assert(gws[bad] == c as u32);
                                assert(word_is_scalar(gws[bad]));
                            }
                        }
                    }
                }
                return Err(LoadError::Corrupt);
            },
        };
        if wlen - pos < 2 {
            proof {
                assert forall|m: UnigramModel| !(#[trigger] unigram_matches(m, bytes@)) by {
                    if unigram_matches(m, bytes@) {
                        lemma_unigram_entry_at(m, gws, pos0, e as int);
                        assert(slen as int == m.entries@[e as int].surface@.len() as int);
                        assert(rlen as int == m.entries@[e as int].reading@.len() as int);
                    }
                }
            }
            return Err(LoadError::Corrupt);
        }
        let lo = ws[pos];
        let hi = ws[pos + 1];
        pos = pos + 2;
        let cost = match cost_from_words(lo, hi) {
            Some(c) => c,
            None => {
                proof {
                    assert forall|m: UnigramModel| !(#[trigger] unigram_matches(m, bytes@)) by {
                        if unigram_matches(m, bytes@) {
                            lemma_unigram_entry_at(m, gws, pos0, e as int);
                            let ent = m.entries@[e as int];
                            assert(slen as int == ent.surface@.len() as int);
                            assert(rlen as int == ent.reading@.len() as int);
                            assert(lo == gws[pos0 + 2 + slen + rlen]);
                            assert(hi == gws[pos0 + 3 + slen + rlen]);
                            assert((lo as int) + (hi as int) * 0x100000000 == ent.cost as int);
                        }
                    }
                }
                return Err(LoadError::Corrupt);
            },
        };
        let ghost builder0 = builder.entries@;
        let ok = builder.add(&surface, &reading, cost);
        if !ok {
            proof {
                assert forall|m: UnigramModel| !(#[trigger] unigram_matches(m, bytes@)) by {
                    if unigram_matches(m, bytes@) {
                        lemma_unigram_entry_at(m, gws, pos0, e as int);
                        let ent = m.entries@[e as int];
                        lemma_chars_words_props(surface@);
                        lemma_chars_words_props(reading@);
                        assert(slen as int == ent.surface@.len() as int);
                        assert(rlen as int == ent.reading@.len() as int);
                        assert forall|k: int| 0 <= k < slen implies surface@[k]
                            == ent.surface@[k] by {
                            assert(spec_chars_words(surface@)[k] == gws.subrange(
                                pos0 + 1,
                                pos0 + 1 + slen,
                            )[k]);
                            assert(surface@[k] as u32 == gws[pos0 + 1 + k]);
                            assert(gws[pos0 + 1 + k] == ent.surface@[k] as u32);
                            vstd::utf8::char_u32_cast(surface@[k], surface@[k] as u32);
                            vstd::utf8::char_u32_cast(ent.surface@[k], ent.surface@[k] as u32);
                        }
                        assert(surface@ =~= ent.surface@);
                        assert forall|k: int| 0 <= k < rlen implies reading@[k]
                            == ent.reading@[k] by {
                            assert(spec_chars_words(reading@)[k] == gws.subrange(
                                pos0 + 2 + slen,
                                pos0 + 2 + slen + rlen,
                            )[k]);
                            assert(reading@[k] as u32 == gws[pos0 + 2 + slen + k]);
                            assert(gws[pos0 + 2 + slen + k] == ent.reading@[k] as u32);
                            vstd::utf8::char_u32_cast(reading@[k], reading@[k] as u32);
                            vstd::utf8::char_u32_cast(ent.reading@[k], ent.reading@[k] as u32);
                        }
                        assert(reading@ =~= ent.reading@);
                        assert(spec_key_of(surface@, reading@) == ent.key@);
                        reveal(crate::model::unigram_keys_distinct);
                        assert forall|k: int|
                            0 <= k < builder0.len() implies (#[trigger] builder0[k]).key@
                            != spec_key_of(surface@, reading@) by {
                            assert(builder0[k].key@ == m.entries@[k].key@);
                            assert(m.entries@[k].key@ != m.entries@[e as int].key@);
                        }
                        lemma_find_present(builder0, spec_key_of(surface@, reading@));
                        assert(spec_find(builder0, spec_key_of(surface@, reading@)) is None);
                        assert(e as int + 1 < u32::MAX);
                        assert(ok);
                    }
                }
            }
            return Err(LoadError::Corrupt);
        }
        proof {
            let ne = builder.entries@.last();
            assert(ne.surface@ == surface@ && ne.reading@ == reading@ && ne.cost == cost);
            assert(spec_cost_words(ne.cost as int) == seq![lo, hi]);
            assert(spec_entry_words(ne) =~= seq![slen] + spec_chars_words(surface@) + seq![rlen]
                + spec_chars_words(reading@) + seq![lo, hi]);
            assert(gws.take(pos as int) =~= base + (seq![slen] + spec_chars_words(surface@)
                + seq![rlen] + spec_chars_words(reading@) + seq![lo, hi]));
            assert(builder.entries@.drop_last() == builder0);
            assert(gws.take(pos as int) =~= header + spec_unigram_words(builder.entries@));
            assert forall|k: int|
                0 <= k < builder.entries@.len() implies (
            #[trigger] builder.entries@[k]).surface@.len() <= u32::MAX
                && builder.entries@[k].reading@.len() <= u32::MAX by {
                if k < builder.entries@.len() - 1 {
                    assert(builder.entries@[k] == builder0[k]);
                }
            }
            assert forall|m: UnigramModel| #[trigger] unigram_matches(m, bytes@)
                implies m.entries@.len() == n as int && gws.skip(pos as int)
                == spec_unigram_words(m.entries@.skip(e + 1)) && (forall|k: int|
                0 <= k < e + 1 ==> (#[trigger] m.entries@[k]).key@
                    == builder.entries@[k].key@) by {
                lemma_unigram_entry_at(m, gws, pos0, e as int);
                let ent = m.entries@[e as int];
                lemma_chars_words_props(surface@);
                lemma_chars_words_props(reading@);
                assert(slen as int == ent.surface@.len() as int);
                assert(rlen as int == ent.reading@.len() as int);
                assert forall|k: int| 0 <= k < slen implies surface@[k] == ent.surface@[k] by {
                    assert(spec_chars_words(surface@)[k] == gws.subrange(
                        pos0 + 1,
                        pos0 + 1 + slen,
                    )[k]);
                    assert(surface@[k] as u32 == gws[pos0 + 1 + k]);
                    assert(gws[pos0 + 1 + k] == ent.surface@[k] as u32);
                    vstd::utf8::char_u32_cast(surface@[k], surface@[k] as u32);
                    vstd::utf8::char_u32_cast(ent.surface@[k], ent.surface@[k] as u32);
                }
                assert(surface@ =~= ent.surface@);
                assert forall|k: int| 0 <= k < rlen implies reading@[k] == ent.reading@[k] by {
                    assert(spec_chars_words(reading@)[k] == gws.subrange(
                        pos0 + 2 + slen,
                        pos0 + 2 + slen + rlen,
                    )[k]);
                    assert(reading@[k] as u32 == gws[pos0 + 2 + slen + k]);
                    assert(gws[pos0 + 2 + slen + k] == ent.reading@[k] as u32);
                    vstd::utf8::char_u32_cast(reading@[k], reading@[k] as u32);
                    vstd::utf8::char_u32_cast(ent.reading@[k], ent.reading@[k] as u32);
                }
                assert(reading@ =~= ent.reading@);
                assert(pos as int == pos0 + slen + rlen + 4);
                assert(gws.skip(pos as int) == spec_unigram_words(m.entries@.skip(e + 1)));
                assert forall|k: int|
                    0 <= k < e + 1 implies (#[trigger] m.entries@[k]).key@
                    == builder.entries@[k].key@ by {
                    if k < e {
                        assert(builder.entries@[k] == builder0[k]);
                        assert(m.entries@[k].key@ == builder0[k].key@);
                    } else {
                        assert(builder.entries@[e as int] == ne);
                        assert(ne.key@ == spec_key_of(surface@, reading@));
                        assert(ent.key@ == spec_key_of(ent.surface@, ent.reading@));
                    }
                }
            }
        }
        e = e + 1;
    }
    if pos != wlen {
        proof {
            assert forall|m: UnigramModel| !(#[trigger] unigram_matches(m, bytes@)) by {
                if unigram_matches(m, bytes@) {
                    assert(m.entries@.skip(e as int).len() == 0);
                    assert(spec_unigram_words(m.entries@.skip(e as int)) == Seq::<u32>::empty());
                    assert(gws.skip(pos as int).len() == 0);
                }
            }
        }
        return Err(LoadError::Corrupt);
    }
    let ghost bentries = builder.entries@;
    let m = builder.build();
    proof {
        assert(m.entries@ == bentries);
        assert forall|k: int|
            0 <= k < m.entries@.len() implies (#[trigger] m.entries@[k]).surface@.len()
            <= u32::MAX && m.entries@[k].reading@.len() <= u32::MAX by {
            assert(m.entries@[k] == bentries[k]);
        }
        assert(unigram_serializable(m));
        assert(gws.take(pos as int) =~= gws);
        lemma_bytes_words_inverse(bytes@, gws);
        assert(spec_unigram_bytes(m) == bytes@);
    }
    Ok(m)
}

/// Read `count` code-point words as characters, advancing the cursor;
/// `None` exactly when the region runs out or holds a non-scalar word.
fn read_chars(ws: &Vec<u32>, pos: &mut usize, count: u32) -> (r: Option<Vec<char>>)
    requires
        *old(pos) <= ws@.len(),
    ensures
        match r {
            Some(v) => {
                &&& v@.len() == count
                &&& *final(pos) == *old(pos) + count
                &&& *final(pos) <= ws@.len()
                &&& spec_chars_words(v@) == ws@.subrange(*old(pos) as int, *final(pos) as int)
            },
            None => *old(pos) + count > ws@.len() || exists|k: int|
                *old(pos) <= k < *old(pos) + count && k < ws@.len() && !word_is_scalar(
                    #[trigger] ws@[k],
                ),
        },
{
    let mut v: Vec<char> = Vec::new();
    let mut j: u32 = 0;
    let wlen = ws.len();
    proof {
        assert(spec_chars_words(v@) =~= ws@.subrange(*old(pos) as int, *old(pos) as int));
    }
    while j < count
        invariant
            j <= count,
            wlen == ws@.len(),
            *pos == *old(pos) + j,
            *pos <= ws@.len(),
            v@.len() == j,
            spec_chars_words(v@) == ws@.subrange(*old(pos) as int, *pos as int),
        decreases count - j,
    {
        if *pos >= wlen {
            return None;
        }
        let w = ws[*pos];
        let c = match char_from_u32(w) {
            Some(c) => c,
            None => {
                return None;
            },
        };
        let ghost v0 = v@;
        let ghost p0 = *pos;
        v.push(c);
        *pos = *pos + 1;
        proof {
            assert(v@.drop_last() =~= v0);
            assert(v@.last() == c);
            assert(ws@.subrange(*old(pos) as int, *pos as int) =~= ws@.subrange(
                *old(pos) as int,
                p0 as int,
            ).push(ws@[p0 as int]));
            assert(spec_chars_words(v@) =~= ws@.subrange(*old(pos) as int, *pos as int));
        }
        j = j + 1;
    }
    Some(v)
}

/// Serialize the bigram model; `parse_bigram_model` reads it back.
pub fn serialize_bigram_model(m: &BigramModel) -> (r: Vec<u8>)
    requires
        m.wf(),
        m.entries@.len() <= u32::MAX,
        forall|k: int| 0 <= k < m.entries@.len() ==> 0 <= (#[trigger] m.entries@[k]).2 <= MAX_COST,
    ensures
        r@ == spec_bigram_bytes(*m),
{
    let mut ws: Vec<u32> = Vec::new();
    ws.push(BIGRAM_MAGIC);
    ws.push(MODEL_VERSION);
    let (dlo, dhi) = cost_to_words(m.default_edge_cost);
    ws.push(dlo);
    ws.push(dhi);
    ws.push(m.entries.len() as u32);
    let ghost header = ws@;
    proof {
        assert(header =~= seq![BIGRAM_MAGIC, MODEL_VERSION] + spec_cost_words(
            m.default_edge_cost as int,
        ) + seq![m.entries@.len() as u32]);
        assert(ws@ =~= header + spec_bigram_words(m.entries@.take(0)));
    }
    let mut i: usize = 0;
    while i < m.entries.len()
        invariant
            i <= m.entries@.len(),
            m.wf(),
            forall|k: int| 0 <= k < m.entries@.len() ==> 0 <= (#[trigger] m.entries@[k]).2
                <= MAX_COST,
            header == seq![BIGRAM_MAGIC, MODEL_VERSION] + spec_cost_words(
                m.default_edge_cost as int,
            ) + seq![m.entries@.len() as u32],
            ws@ == header + spec_bigram_words(m.entries@.take(i as int)),
        decreases m.entries@.len() - i,
    {
        let ghost base = ws@;
        let en = m.entries[i];
        ws.push(en.0);
        ws.push(en.1);
        let (lo, hi) = cost_to_words(en.2);
        ws.push(lo);
        ws.push(hi);
        proof {
            assert(ws@ =~= base + spec_bigram_entry_words(m.entries@[i as int]));
            assert(m.entries@.take(i + 1 as int).drop_last() =~= m.entries@.take(i as int));
            assert(m.entries@.take(i + 1 as int).last() == m.entries@[i as int]);
            assert(ws@ =~= header + spec_bigram_words(m.entries@.take(i + 1 as int)));
        }
        i = i + 1;
    }
    proof {
        assert(m.entries@.take(m.entries@.len() as int) =~= m.entries@);
    }
    words_to_bytes(&ws)
}

/// Load the bigram model from its file bytes, with the same guarantees as
/// the unigram loader: success is owed on exactly the serialized models.
pub fn parse_bigram_model(bytes: &Vec<u8>) -> (r: Result<BigramModel, LoadError>)
    ensures
        match r {
            Ok(m) => m.wf() && m.entries@.len() <= u32::MAX && spec_bigram_bytes(m) == bytes@,
            Err(e) => {
                &&& forall|m: BigramModel| !(#[trigger] bigram_matches(m, bytes@))
                &&& (e is VersionMismatch ==> {
                    let ws = spec_bytes_to_words(bytes@)->0;
                    spec_bytes_to_words(bytes@) is Some && ws.len() >= 2 && ws[0] == BIGRAM_MAGIC
                        && ws[1] != MODEL_VERSION
                })
            },
        },
{
    let ws = match bytes_to_words(bytes) {
        Some(w) => w,
        None => {
            proof {
                assert forall|m: BigramModel| !(#[trigger] bigram_matches(m, bytes@)) by {
                    if bigram_matches(m, bytes@) {
                        lemma_words_bytes_round_trip(
                            seq![BIGRAM_MAGIC, MODEL_VERSION] + spec_cost_words(
                                m.default_edge_cost as int,
                            ) + seq![m.entries@.len() as u32] + spec_bigram_words(m.entries@),
                        );
                    }
                }
            }
            return Err(LoadError::Corrupt);
        },
    };
    let wlen = ws.len();
    if wlen < 5 {
        proof {
            assert forall|m: BigramModel| !(#[trigger] bigram_matches(m, bytes@)) by {
                if bigram_matches(m, bytes@) {
                    lemma_bigram_match_words(m, bytes@, ws@);
                }
            }
        }
        return Err(LoadError::Corrupt);
    }
    if ws[0] != BIGRAM_MAGIC {
        proof {
            assert forall|m: BigramModel| !(#[trigger] bigram_matches(m, bytes@)) by {
                if bigram_matches(m, bytes@) {
                    lemma_bigram_match_words(m, bytes@, ws@);
                }
            }
        }
        return Err(LoadError::Corrupt);
    }
    if ws[1] != MODEL_VERSION {
        proof {
            assert forall|m: BigramModel| !(#[trigger] bigram_matches(m, bytes@)) by {
                if bigram_matches(m, bytes@) {
                    lemma_bigram_match_words(m, bytes@, ws@);
                }
            }
        }
        return Err(LoadError::VersionMismatch);
    }
    let default_edge_cost = match cost_from_words(ws[2], ws[3]) {
        Some(c) => c,
        None => {
            proof {
                assert forall|m: BigramModel| !(#[trigger] bigram_matches(m, bytes@)) by {
                    if bigram_matches(m, bytes@) {
                        lemma_bigram_match_words(m, bytes@, ws@);
                    }
                }
            }
            return Err(LoadError::Corrupt);
        },
    };
    let n = ws[4];
    let ghost gws = ws@;
    let ghost header = seq![BIGRAM_MAGIC, MODEL_VERSION, gws[2], gws[3], n];
    let mut entries: Vec<(u32, u32, i64)> = Vec::new();
    let mut pos: usize = 5;
    let mut e: u32 = 0;
    proof {
        assert(header =~= seq![BIGRAM_MAGIC, MODEL_VERSION] + spec_cost_words(
            default_edge_cost as int,
        ) + seq![n]);
        assert(gws.take(5) =~= header + spec_bigram_words(entries@));
    }
    while e < n
        invariant
            e <= n,
            gws == ws@,
            wlen == ws@.len(),
            5 <= pos <= wlen,
            pos == 5 + 4 * (e as int),
            n == gws[4],
            gws[0] == BIGRAM_MAGIC,
            gws[1] == MODEL_VERSION,
            header == seq![BIGRAM_MAGIC, MODEL_VERSION] + spec_cost_words(
                default_edge_cost as int,
            ) + seq![n],
            0 <= default_edge_cost <= MAX_COST,
            entries@.len() == e,
            forall|k: int| 0 <= k < entries@.len() ==> 0 <= (#[trigger] entries@[k]).2 <= MAX_COST,
            spec_bytes_to_words(bytes@) == Some(gws),
            gws.take(pos as int) == header + spec_bigram_words(entries@),
        decreases n - e,
    {
        let ghost base = gws.take(pos as int);
        if wlen - pos < 4 {
            proof {
                assert forall|m: BigramModel| !(#[trigger] bigram_matches(m, bytes@)) by {
                    if bigram_matches(m, bytes@) {
                        lemma_bigram_match_words(m, bytes@, gws);
                    }
                }
            }
            return Err(LoadError::Corrupt);
        }
        let a = ws[pos];
        let b = ws[pos + 1];
        let lo = ws[pos + 2];
        let hi = ws[pos + 3];
        pos = pos + 4;
        let cost = match cost_from_words(lo, hi) {
            Some(c) => c,
            None => {
                proof {
                    assert forall|m: BigramModel| !(#[trigger] bigram_matches(m, bytes@)) by {
                        if bigram_matches(m, bytes@) {
                            lemma_bigram_match_words(m, bytes@, gws);
                            assert(0 <= e < m.entries@.len());
                            let ent = m.entries@[e as int];
                            assert((gws[7 + 4 * (e as int)] as int) + (gws[8 + 4 * (e as int)]
                                as int) * 0x100000000 == ent.2 as int);
                            assert(0 <= ent.2 <= MAX_COST);
                            assert(gws[7 + 4 * (e as int)] == lo && gws[8 + 4 * (e as int)] == hi);
                        }
                    }
                }
                return Err(LoadError::Corrupt);
            },
        };
        let ghost entries0 = entries@;
        entries.push((a, b, cost));
        proof {
            assert(entries@.drop_last() =~= entries0);
            assert(spec_bigram_entry_words((a, b, cost)) =~= seq![a, b, lo, hi]);
            assert(gws.take(pos as int) =~= base + seq![a, b, lo, hi]);
            assert(gws.take(pos as int) =~= header + spec_bigram_words(entries@));
        }
        e = e + 1;
    }
    if pos != wlen {
        proof {
            assert forall|m: BigramModel| !(#[trigger] bigram_matches(m, bytes@)) by {
                if bigram_matches(m, bytes@) {
                    lemma_bigram_match_words(m, bytes@, gws);
                }
            }
        }
        return Err(LoadError::Corrupt);
    }
    let m = BigramModel { entries, default_edge_cost };
    proof {
        assert(gws.take(pos as int) =~= gws);
        lemma_bytes_words_inverse(bytes@, gws);
        assert(spec_bigram_bytes(m) == bytes@);
    }
    Ok(m)
}

} // verus!
