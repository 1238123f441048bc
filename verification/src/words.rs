use vstd::prelude::*;
use vstd::bytes::{spec_u32_from_le_bytes, spec_u32_to_le_bytes, u32_from_le_bytes, u32_to_le_bytes,
    lemma_auto_spec_u32_to_from_le_bytes};
use vstd::slice::slice_subrange;

verus! {

// The persistence files of this crate are streams of 32-bit words, laid out
// little-endian.  This module holds the word <-> byte layer that every file
// format shares.

pub open spec fn spec_words_to_bytes(ws: Seq<u32>) -> Seq<u8>
    decreases ws.len(),
{
    if ws.len() == 0 {
        Seq::empty()
    } else {
        spec_words_to_bytes(ws.drop_last()) + spec_u32_to_le_bytes(ws.last())
    }
}

pub proof fn lemma_words_to_bytes_len(ws: Seq<u32>)
    ensures
        spec_words_to_bytes(ws).len() == 4 * ws.len(),
    decreases ws.len(),
{
    lemma_auto_spec_u32_to_from_le_bytes();
    if ws.len() > 0 {
        lemma_words_to_bytes_len(ws.drop_last());
    }
}

pub open spec fn spec_bytes_to_words(bs: Seq<u8>) -> Option<Seq<u32>> {
    if bs.len() % 4 != 0 {
        None
    } else {
        Some(Seq::new(bs.len() / 4, |i: int| spec_u32_from_le_bytes(bs.subrange(4 * i, 4 * i + 4))))
    }
}

/// Each encoded word reads back out of the byte stream at its own offset.
proof fn lemma_words_to_bytes_index(ws: Seq<u32>, i: int)
    requires
        0 <= i < ws.len(),
    ensures
        spec_words_to_bytes(ws).subrange(4 * i, 4 * i + 4) == spec_u32_to_le_bytes(ws[i]),
    decreases ws.len(),
{
    lemma_auto_spec_u32_to_from_le_bytes();
    lemma_words_to_bytes_len(ws);
    lemma_words_to_bytes_len(ws.drop_last());
    if i == ws.len() - 1 {
        assert(spec_words_to_bytes(ws).subrange(4 * i, 4 * i + 4)
            =~= spec_u32_to_le_bytes(ws.last()));
    } else {
        lemma_words_to_bytes_index(ws.drop_last(), i);
        assert(spec_words_to_bytes(ws).subrange(4 * i, 4 * i + 4)
            =~= spec_words_to_bytes(ws.drop_last()).subrange(4 * i, 4 * i + 4));
    }
}

/// Encoding words to bytes and reading them back is the identity.
pub proof fn lemma_words_bytes_round_trip(ws: Seq<u32>)
    ensures
        spec_bytes_to_words(spec_words_to_bytes(ws)) == Some(ws),
{
    lemma_auto_spec_u32_to_from_le_bytes();
    lemma_words_to_bytes_len(ws);
    let bs = spec_words_to_bytes(ws);
    assert(bs.len() % 4 == 0);
    let rs = spec_bytes_to_words(bs).unwrap();
    assert(rs.len() == ws.len());
    assert forall|i: int| 0 <= i < ws.len() implies rs[i] == ws[i] by {
        lemma_words_to_bytes_index(ws, i);
        assert(spec_u32_to_le_bytes(ws[i]).len() == 4);
        assert(rs[i] == spec_u32_from_le_bytes(bs.subrange(4 * i, 4 * i + 4)));
        assert(rs[i] == spec_u32_from_le_bytes(spec_u32_to_le_bytes(ws[i])));
    }
    assert(rs =~= ws);
}

/// A byte stream that parses as words is exactly those words' encoding.
pub proof fn lemma_bytes_words_inverse(bs: Seq<u8>, ws: Seq<u32>)
    requires
        spec_bytes_to_words(bs) == Some(ws),
    ensures
        spec_words_to_bytes(ws) == bs,
{
    lemma_auto_spec_u32_to_from_le_bytes();
    lemma_words_to_bytes_len(ws);
    assert(ws.len() == bs.len() / 4);
    assert(bs.len() % 4 == 0);
    assert(bs.len() == 4 * ws.len());
    let target = spec_words_to_bytes(ws);
    assert forall|b: int| 0 <= b < bs.len() implies target[b] == bs[b] by {
        let i = b / 4;
        assert(0 <= i < ws.len());
        lemma_words_to_bytes_index(ws, i);
        assert(target.subrange(4 * i, 4 * i + 4) == spec_u32_to_le_bytes(ws[i]));
        assert(ws[i] == spec_u32_from_le_bytes(bs.subrange(4 * i, 4 * i + 4)));
        assert(spec_u32_to_le_bytes(ws[i]) == bs.subrange(4 * i, 4 * i + 4));
        assert(target[b] == target.subrange(4 * i, 4 * i + 4)[b - 4 * i]);
        assert(bs[b] == bs.subrange(4 * i, 4 * i + 4)[b - 4 * i]);
    }
    assert(target =~= bs);
}

pub fn words_to_bytes(ws: &Vec<u32>) -> (r: Vec<u8>)
    ensures
        r@ == spec_words_to_bytes(ws@),
        r@.len() == 4 * ws@.len(),
{
    proof {
        lemma_words_to_bytes_len(ws@);
    }
    let mut r: Vec<u8> = Vec::new();
    let mut i: usize = 0;
    proof {
        assert(ws@.take(0) =~= Seq::<u32>::empty());
    }
    while i < ws.len()
        invariant
            i <= ws@.len(),
            r@ == spec_words_to_bytes(ws@.take(i as int)),
            r@.len() == 4 * i,
        decreases ws@.len() - i,
    {
        let mut b = u32_to_le_bytes(ws[i]);
        r.append(&mut b);
        proof {
            assert(ws@.take(i + 1 as int).drop_last() =~= ws@.take(i as int));
            assert(ws@.take(i + 1 as int).last() == ws@[i as int]);
        }
        i = i + 1;
    }
    proof {
        assert(ws@.take(ws@.len() as int) =~= ws@);
    }
    r
}

pub fn bytes_to_words(bs: &Vec<u8>) -> (r: Option<Vec<u32>>)
    ensures
        match r {
            Some(ws) => spec_bytes_to_words(bs@) == Some(ws@),
            None => spec_bytes_to_words(bs@) is None,
        },
{
    let n = bs.len();
    if n % 4 != 0 {
        return None;
    }
    let count = n / 4;
    assert(n == 4 * count);
    let ghost target = spec_bytes_to_words(bs@).unwrap();
    let mut ws: Vec<u32> = Vec::new();
    let mut i: usize = 0;
    proof {
        assert(target.take(0) =~= Seq::<u32>::empty());
    }
    while i < count
        invariant
            i <= count,
            n == bs@.len(),
            count == bs@.len() / 4,
            bs@.len() % 4 == 0,
            bs@.len() == 4 * count,
            target == spec_bytes_to_words(bs@).unwrap(),
            target.len() == count,
            ws@ == target.take(i as int),
        decreases count - i,
    {
        let w = u32_from_le_bytes(slice_subrange(bs.as_slice(), 4 * i, 4 * i + 4));
        ws.push(w);
        proof {
            assert(target.take(i + 1 as int) =~= target.take(i as int).push(target[i as int]));
        }
        i = i + 1;
    }
    proof {
        assert(target.take(count as int) =~= target);
    }
    Some(ws)
}

} // verus!
