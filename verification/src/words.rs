//! Little-endian conversion between 32-bit words and byte streams. State
//! elements travel through this crate as raw 32-bit words, serialized four
//! little-endian bytes per element.

use vstd::prelude::*;

verus! {

/// The four little-endian bytes of a 32-bit word.
pub open spec fn u32_le_bytes(x: u32) -> Seq<u8> {
    seq![
        (x & 0xff) as u8,
        ((x >> 8) & 0xff) as u8,
        ((x >> 16) & 0xff) as u8,
        ((x >> 24) & 0xff) as u8,
    ]
}

/// The word read back from four little-endian bytes.
pub open spec fn u32_from_le_bytes(b0: u8, b1: u8, b2: u8, b3: u8) -> u32 {
    (b0 as u32) | ((b1 as u32) << 8) | ((b2 as u32) << 16) | ((b3 as u32) << 24)
}

/// The little-endian byte concatenation of a word sequence, in order.
pub open spec fn le_bytes_of_words(ws: Seq<u32>) -> Seq<u8>
    decreases ws.len(),
{
    if ws.len() == 0 {
        Seq::empty()
    } else {
        u32_le_bytes(ws[0]) + le_bytes_of_words(ws.drop_first())
    }
}

/// The word sequence read back from a byte stream whose length is a multiple
/// of four, four little-endian bytes per word.
pub open spec fn words_of_le_bytes(b: Seq<u8>) -> Seq<u32>
    decreases b.len(),
{
    if b.len() < 4 {
        Seq::empty()
    } else {
        seq![u32_from_le_bytes(b[0], b[1], b[2], b[3])] + words_of_le_bytes(b.skip(4))
    }
}

pub proof fn lemma_le_bytes_of_words_push(ws: Seq<u32>, x: u32)
    ensures
        le_bytes_of_words(ws.push(x)) == le_bytes_of_words(ws) + u32_le_bytes(x),
    decreases ws.len(),
{
    if ws.len() == 0 {
        let p = ws.push(x);
        assert(p.drop_first() =~= Seq::<u32>::empty());
        assert(le_bytes_of_words(p.drop_first()) =~= Seq::<u8>::empty());
        assert(p[0] == x);
        assert(le_bytes_of_words(p) =~= u32_le_bytes(x) + Seq::<u8>::empty());
        assert(le_bytes_of_words(ws.push(x)) =~= le_bytes_of_words(ws) + u32_le_bytes(x));
    } else {
        assert(ws.push(x).drop_first() =~= ws.drop_first().push(x));
        lemma_le_bytes_of_words_push(ws.drop_first(), x);
        assert(le_bytes_of_words(ws.push(x)) =~= le_bytes_of_words(ws) + u32_le_bytes(x));
    }
}

pub proof fn lemma_le_bytes_of_words_len(ws: Seq<u32>)
    ensures
        le_bytes_of_words(ws).len() == 4 * ws.len(),
    decreases ws.len(),
{
    if ws.len() > 0 {
        lemma_le_bytes_of_words_len(ws.drop_first());
    }
}

pub proof fn lemma_u32_le_roundtrip(x: u32)
    ensures
        u32_from_le_bytes(
            (x & 0xff) as u8,
            ((x >> 8) & 0xff) as u8,
            ((x >> 16) & 0xff) as u8,
            ((x >> 24) & 0xff) as u8,
        ) == x,
{
    assert(((x & 0xff) as u8 as u32) | ((((x >> 8) & 0xff) as u8 as u32) << 8) | ((((x >> 16)
        & 0xff) as u8 as u32) << 16) | ((((x >> 24) & 0xff) as u8 as u32) << 24) == x)
        by (bit_vector);
}

/// Reading words back from a serialized word sequence recovers the sequence.
pub proof fn lemma_words_le_roundtrip(ws: Seq<u32>)
    ensures
        words_of_le_bytes(le_bytes_of_words(ws)) == ws,
    decreases ws.len(),
{
    lemma_le_bytes_of_words_len(ws);
    if ws.len() == 0 {
        assert(words_of_le_bytes(le_bytes_of_words(ws)) =~= ws);
    } else {
        let b = le_bytes_of_words(ws);
        lemma_le_bytes_of_words_len(ws.drop_first());
        assert(b.skip(4) =~= le_bytes_of_words(ws.drop_first()));
        lemma_words_le_roundtrip(ws.drop_first());
        lemma_u32_le_roundtrip(ws[0]);
        assert(words_of_le_bytes(le_bytes_of_words(ws)) =~= ws);
    }
}

/// Serializes a word sequence as four little-endian bytes per element.
pub fn words_to_le_bytes(ws: &Vec<u32>) -> (r: Vec<u8>)
    ensures
        r@ == le_bytes_of_words(ws@),
{
    let mut out: Vec<u8> = Vec::new();
    let mut i: usize = 0;
    while i < ws.len()
        invariant
            i <= ws@.len(),
            out@ == le_bytes_of_words(ws@.take(i as int)),
        decreases ws@.len() - i,
    {
        let x = ws[i];
        out.push((x & 0xff) as u8);
        out.push(((x >> 8) & 0xff) as u8);
        out.push(((x >> 16) & 0xff) as u8);
        out.push(((x >> 24) & 0xff) as u8);
        proof {
            assert(ws@.take(i + 1 as int) =~= ws@.take(i as int).push(ws@[i as int]));
            lemma_le_bytes_of_words_push(ws@.take(i as int), ws@[i as int]);
            assert(out@ =~= le_bytes_of_words(ws@.take(i as int)) + u32_le_bytes(ws@[i as int]));
        }
        i += 1;
    }
    proof {
        assert(ws@.take(ws@.len() as int) =~= ws@);
    }
    out
}

/// Reads a word stream back from little-endian bytes; fails exactly when the
/// byte count is not a multiple of four.
pub fn words_from_le_bytes(b: &Vec<u8>) -> (r: Option<Vec<u32>>)
    ensures
        r is Some <==> b@.len() % 4 == 0,
        r is Some ==> r->0@ == words_of_le_bytes(b@),
{
    if b.len() % 4 != 0 {
        return None;
    }
    let mut out: Vec<u32> = Vec::new();
    let mut i: usize = 0;
    while i < b.len()
        invariant
            i <= b@.len(),
            i % 4 == 0,
            b@.len() % 4 == 0,
            out@ == words_of_le_bytes(b@.take(i as int)),
        decreases b@.len() - i,
    {
        let w = (b[i] as u32) | ((b[i + 1] as u32) << 8) | ((b[i + 2] as u32) << 16) | ((b[i
            + 3] as u32) << 24);
        out.push(w);
        proof {
            lemma_words_of_le_bytes_snoc(b@.take(i as int), b@[i as int], b@[i + 1 as int],
                b@[i + 2 as int], b@[i + 3 as int]);
            assert(b@.take(i + 4 as int) =~= b@.take(i as int) + seq![
                b@[i as int],
                b@[i + 1 as int],
                b@[i + 2 as int],
                b@[i + 3 as int],
            ]);
        }
        i += 4;
    }
    proof {
        assert(b@.take(b@.len() as int) =~= b@);
    }
    Some(out)
}

/// Appending four bytes to a stream of whole words appends one word.
pub proof fn lemma_words_of_le_bytes_snoc(b: Seq<u8>, b0: u8, b1: u8, b2: u8, b3: u8)
    requires
        b.len() % 4 == 0,
    ensures
        words_of_le_bytes(b + seq![b0, b1, b2, b3]) == words_of_le_bytes(b).push(
            u32_from_le_bytes(b0, b1, b2, b3),
        ),
    decreases b.len(),
{
    let ext = b + seq![b0, b1, b2, b3];
    if b.len() == 0 {
        assert(ext.skip(4) =~= Seq::<u8>::empty());
        assert(words_of_le_bytes(ext.skip(4)) =~= Seq::<u32>::empty());
        assert(ext[0] == b0 && ext[1] == b1 && ext[2] == b2 && ext[3] == b3);
        assert(words_of_le_bytes(ext) == seq![u32_from_le_bytes(b0, b1, b2, b3)]
            + words_of_le_bytes(ext.skip(4)));
        assert(words_of_le_bytes(b) =~= Seq::<u32>::empty());
        assert(words_of_le_bytes(ext) =~= words_of_le_bytes(b).push(
            u32_from_le_bytes(b0, b1, b2, b3),
        ));
    } else {
        lemma_words_of_le_bytes_snoc(b.skip(4), b0, b1, b2, b3);
        assert(ext.skip(4) =~= b.skip(4) + seq![b0, b1, b2, b3]);
        assert(ext[0] == b[0] && ext[1] == b[1] && ext[2] == b[2] && ext[3] == b[3]);
        let w0 = u32_from_le_bytes(b[0], b[1], b[2], b[3]);
        let w = u32_from_le_bytes(b0, b1, b2, b3);
        assert(words_of_le_bytes(ext) == seq![w0] + words_of_le_bytes(ext.skip(4)));
        assert(words_of_le_bytes(ext.skip(4)) == words_of_le_bytes(b.skip(4)).push(w));
        assert(words_of_le_bytes(b) == seq![w0] + words_of_le_bytes(b.skip(4)));
        assert(words_of_le_bytes(ext) =~= words_of_le_bytes(b).push(w));
    }
}

} // verus!
