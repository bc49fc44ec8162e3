//! Delta codecs over raw 32-bit elements: whole-buffer LZ4 block
//! compression, a zigzag/varint scheme over quantized values, and a
//! run-length scheme for zero runs.
//!
//! Elements are opaque 32-bit words. Under the LZ4 and run-length methods an
//! element is the IEEE-754 bit pattern of one original value, serialized as
//! four little-endian bytes; under the varint method an element is the
//! quantized (milli-unit) signed value, cast bit-for-bit to a word. Producing
//! those words from floating-point values is the hosting process's side of
//! the contract.

use vstd::prelude::*;
use vstd::arithmetic::power2::pow2;
use vstd::arithmetic::div_mod::lemma_fundamental_div_mod;
use crate::error::CantorError;
use crate::words::{
    le_bytes_of_words,
    lemma_words_le_roundtrip,
    u32_from_le_bytes,
    u32_le_bytes,
    words_from_le_bytes,
    words_of_le_bytes,
    words_to_le_bytes,
};

verus! {

/// Compression method selection.
#[derive(Clone, Copy, Debug)]
pub enum CompressionMethod {
    Lz4,
    Varint,
    RunLength,
}

impl Default for CompressionMethod {
    fn default() -> (r: CompressionMethod)
        ensures
            r is Lz4,
    {
        CompressionMethod::Lz4
    }
}

/// What lz4 block decompression (with a leading size prefix) returns on a
/// byte buffer: the recovered bytes, or nothing when the buffer is not a
/// well-formed size-prefixed block. The result depends on the bytes alone.
pub uninterp spec fn lz4_unblock_of(data: Seq<u8>) -> Option<Seq<u8>>;

/// Relies on lz4::block::compress with a prepended size: the output is a
/// size-prefixed block from which lz4::block::decompress recovers exactly the
/// input, and compression succeeds for every input below the lz4 block size
/// limit.
#[verifier::external_body]
fn lz4_compress(src: &Vec<u8>) -> (r: Result<Vec<u8>, CantorError>)
    ensures
        r is Ok ==> lz4_unblock_of(r->Ok_0@) == Some(src@),
        src@.len() <= 0x7E000000 ==> r is Ok,
        r is Err ==> r->Err_0 is CompressionFailed,
{
    match lz4::block::compress(src.as_slice(), None, true) {
        Ok(out) => Ok(out),
        Err(e) => Err(CantorError::CompressionFailed(e.to_string())),
    }
}

/// Relies on lz4::block::decompress with the size read from the prefix: it
/// recovers the bytes that were compressed, fails on malformed input, and is
/// a function of the input bytes alone.
#[verifier::external_body]
fn lz4_decompress(data: &Vec<u8>) -> (r: Result<Vec<u8>, CantorError>)
    ensures
        r is Ok <==> lz4_unblock_of(data@) is Some,
        r is Ok ==> Some(r->Ok_0@) == lz4_unblock_of(data@),
        r is Err ==> r->Err_0 is DecompressionFailed,
{
    match lz4::block::decompress(data.as_slice(), None) {
        Ok(out) => Ok(out),
        Err(e) => Err(CantorError::DecompressionFailed(e.to_string())),
    }
}

/// Zigzag mapping of a signed value onto an unsigned one: non-negative
/// values go to the even numbers, negative ones to the odd numbers.
pub open spec fn zigzag_spec(n: int) -> int {
    if n >= 0 {
        2 * n
    } else {
        -2 * n - 1
    }
}

/// The inverse zigzag mapping.
pub open spec fn unzigzag_spec(z: int) -> int {
    if z % 2 == 0 {
        z / 2
    } else {
        -(z / 2) - 1
    }
}

/// The zigzag mapping is inverted exactly by its decoder.
pub proof fn lemma_zigzag_roundtrip(n: int)
    ensures
        unzigzag_spec(zigzag_spec(n)) == n,
{
}

/// The little-endian base-128 encoding of a value, seven bits per byte, a
/// set high bit marking continuation.
pub open spec fn varint_bytes(n: nat) -> Seq<u8>
    decreases n,
{
    if n < 128 {
        seq![n as u8]
    } else {
        seq![(n % 128 + 128) as u8] + varint_bytes(n / 128)
    }
}

/// Reads one varint whose groups scale by `mult`, accumulating onto `acc`:
/// the decoded value and the count of bytes consumed, or nothing when the
/// input ends inside the varint or the value does not fit 32 bits.
pub open spec fn read_varint_from(data: Seq<u8>, mult: nat, acc: nat) -> Option<(u32, nat)>
    decreases data.len(),
{
    if data.len() == 0 {
        None
    } else {
        let g = (data[0] % 128) as nat;
        if acc + g * mult >= pow2(32) {
            None
        } else if data[0] < 128 {
            Some((((acc + g * mult) as u32), 1))
        } else if mult >= 0x10000000 {
            None
        } else {
            match read_varint_from(data.drop_first(), mult * 128, acc + g * mult) {
                Some((v, c)) => Some((v, c + 1)),
                None => None,
            }
        }
    }
}

/// Reads one varint from the start of a byte sequence.
pub open spec fn read_varint_spec(data: Seq<u8>) -> Option<(u32, nat)> {
    read_varint_from(data, 1, 0)
}

/// The signed value an element word stands for (its two's-complement
/// reading).
pub open spec fn as_signed(e: u32) -> int {
    if e < 0x80000000 {
        e as int
    } else {
        e as int - 0x100000000
    }
}

/// The element word standing for a signed value.
pub open spec fn from_signed(v: int) -> u32
    recommends
        -0x80000000 <= v < 0x80000000,
{
    if v >= 0 {
        v as u32
    } else {
        (v + 0x100000000) as u32
    }
}

/// The word an element contributes to the varint stream: its zigzag-encoded
/// signed interpretation.
pub open spec fn zigzag_of_elem(e: u32) -> nat {
    zigzag_spec(as_signed(e)) as nat
}

/// The element recovered from one zigzag-encoded word.
pub open spec fn elem_of_zigzag(z: u32) -> u32 {
    from_signed(unzigzag_spec(z as int))
}

/// The varint encoding of an element sequence, in order.
pub open spec fn varint_encoding(elems: Seq<u32>) -> Seq<u8>
    decreases elems.len(),
{
    if elems.len() == 0 {
        Seq::empty()
    } else {
        varint_bytes(zigzag_of_elem(elems[0])) + varint_encoding(elems.drop_first())
    }
}

/// The element sequence read back from a varint stream, or nothing on a
/// truncated or oversized varint.
pub open spec fn varint_decode_spec(data: Seq<u8>) -> Option<Seq<u32>>
    decreases data.len(),
{
    if data.len() == 0 {
        Some(Seq::empty())
    } else {
        match read_varint_spec(data) {
            None => None,
            Some((z, c)) => if 1 <= c <= data.len() {
                match varint_decode_spec(data.skip(c as int)) {
                    None => None,
                    Some(tail) => Some(seq![elem_of_zigzag(z)] + tail),
                }
            } else {
                None
            },
        }
    }
}

/// Reading a varint from an encoded value followed by anything consumes
/// exactly the encoding and recovers the value scaled onto the accumulator.
proof fn lemma_read_varint_encoding(m: nat, mult: nat, acc: nat, rest: Seq<u8>)
    requires
        1 <= mult,
        acc + m * mult < pow2(32),
        m >= 128 ==> mult < 0x10000000,
    ensures
        read_varint_from(varint_bytes(m) + rest, mult, acc) == Some((((acc + m * mult) as u32),
            varint_bytes(m).len())),
    decreases m,
{
    let data = varint_bytes(m) + rest;
    if m < 128 {
        assert(data[0] == m as u8);
        assert((data[0] % 128) as nat == m) by (nonlinear_arith)
            requires data[0] == m as u8, m < 128;
        assert(read_varint_from(data, mult, acc) == Some((((acc + m * mult) as u32), 1nat)));
    } else {
        let b = (m % 128 + 128) as u8;
        assert(data[0] == b);
        assert((b % 128) as nat == m % 128 && b >= 128) by (nonlinear_arith)
            requires b == (m % 128 + 128) as u8, m % 128 < 128;
        let g = m % 128;
        assert(g * mult <= m * mult) by (nonlinear_arith)
            requires 0 <= g <= m, mult >= 1;
        assert(acc + g * mult < pow2(32));
        assert(mult < 0x10000000);
        let acc2 = acc + g * mult;
        let mult2 = mult * 128;
        let m2 = m / 128;
        assert(pow2(32) == 0x100000000) by {
            vstd::arithmetic::power2::lemma2_to64();
        }
        lemma_fundamental_div_mod(m as int, 128);
        assert(acc2 + m2 * mult2 == acc + m * mult) by (nonlinear_arith)
            requires
                m == 128 * (m as int / 128) + m % 128,
                m2 == m as int / 128,
                g == m % 128,
                acc2 == acc + g * mult,
                mult2 == mult * 128,
        ;
        assert(m2 >= 128 ==> mult2 < 0x10000000) by (nonlinear_arith)
            requires
                m2 == m as int / 128,
                acc2 + m2 * mult2 == acc + m * mult,
                acc + m * mult < pow2(32),
                pow2(32) == 0x100000000,
                mult2 == mult * 128,
                0 <= acc2,
                1 <= mult,
        ;
        assert(pow2(32) == 0x100000000) by {
            vstd::arithmetic::power2::lemma2_to64();
        }
        assert(data.drop_first() =~= varint_bytes(m2) + rest);
        lemma_read_varint_encoding(m2, mult2, acc2, rest);
        assert(read_varint_from(data, mult, acc) == Some((((acc + m * mult) as u32),
            varint_bytes(m).len())));
    }
}

/// A varint stream decodes back to exactly the elements it was encoded from.
pub proof fn lemma_varint_roundtrip(elems: Seq<u32>)
    ensures
        varint_decode_spec(varint_encoding(elems)) == Some(elems),
    decreases elems.len(),
{
    if elems.len() == 0 {
        assert(varint_decode_spec(varint_encoding(elems)) =~= Some(elems));
    } else {
        let e = elems[0];
        let z = zigzag_of_elem(e);
        let rest = varint_encoding(elems.drop_first());
        let data = varint_encoding(elems);
        assert(data == varint_bytes(z) + rest);
        assert(pow2(32) == 0x100000000) by {
            vstd::arithmetic::power2::lemma2_to64();
        }
        assert(z < pow2(32));
        lemma_read_varint_encoding(z, 1, 0, rest);
        assert(z * 1 == z) by (nonlinear_arith);
        assert(read_varint_spec(data) == Some((z as u32, varint_bytes(z).len())));
        lemma_varint_bytes_nonempty(z);
        assert(data.skip(varint_bytes(z).len() as int) =~= rest);
        lemma_varint_roundtrip(elems.drop_first());
        assert(elem_of_zigzag(z as u32) == e) by {
            lemma_zigzag_roundtrip(as_signed(e));
        }
        assert(data.len() >= 1);
        assert(varint_bytes(z).len() <= data.len());
        assert(seq![elem_of_zigzag(z as u32)] + elems.drop_first() =~= elems);
    }
}

/// A varint encoding is never empty.
proof fn lemma_varint_bytes_nonempty(n: nat)
    ensures
        1 <= varint_bytes(n).len(),
    decreases n,
{
    if n >= 128 {
        lemma_varint_bytes_nonempty(n / 128);
    }
}

/// Whether the run-length scheme treats an element as zero: its magnitude
/// bits are below those of the zero threshold (the bit pattern of 1e-6, so
/// for non-NaN patterns this is exactly a magnitude test against 1e-6).
pub open spec fn is_rle_zero(e: u32) -> bool {
    (e & 0x7fffffff) < 0x358637bd
}

/// The number of leading zero-classified elements.
pub open spec fn leading_rle_zeros(elems: Seq<u32>) -> nat
    decreases elems.len(),
{
    if elems.len() == 0 || !is_rle_zero(elems[0]) {
        0
    } else {
        1 + leading_rle_zeros(elems.drop_first())
    }
}

/// The length of the run the encoder takes next: the leading zero run,
/// capped at 255.
pub open spec fn rle_run(elems: Seq<u32>) -> nat {
    if leading_rle_zeros(elems) < 255 {
        leading_rle_zeros(elems)
    } else {
        255
    }
}

/// The run-length encoding of an element sequence: each maximal zero run
/// (capped at 255) becomes a zero byte and a count byte; every other element
/// is its four little-endian bytes.
pub open spec fn rle_encoding(elems: Seq<u32>) -> Seq<u8>
    decreases elems.len(),
    via rle_encoding_decreases
{
    if elems.len() == 0 {
        Seq::empty()
    } else if is_rle_zero(elems[0]) {
        seq![0u8, rle_run(elems) as u8] + rle_encoding(elems.skip(rle_run(elems) as int))
    } else {
        u32_le_bytes(elems[0]) + rle_encoding(elems.drop_first())
    }
}

#[via_fn]
proof fn rle_encoding_decreases(elems: Seq<u32>) {
    if elems.len() > 0 && is_rle_zero(elems[0]) {
        lemma_leading_le(elems);
    }
}

/// The element sequence read back from a run-length stream: a zero byte with
/// a following count byte expands to that many zero elements, anything else
/// must start four bytes of one element; a dangling marker or a short tail is
/// malformed.
pub open spec fn rle_decode_spec(data: Seq<u8>) -> Option<Seq<u32>>
    decreases data.len(),
{
    if data.len() == 0 {
        Some(Seq::empty())
    } else if data[0] == 0 && data.len() >= 2 {
        match rle_decode_spec(data.skip(2)) {
            Some(tail) => Some(Seq::new(data[1] as nat, |i: int| 0u32) + tail),
            None => None,
        }
    } else if data.len() >= 4 {
        match rle_decode_spec(data.skip(4)) {
            Some(tail) => Some(seq![u32_from_le_bytes(data[0], data[1], data[2], data[3])]
                + tail),
            None => None,
        }
    } else {
        None
    }
}

/// The leading zero count is at least `c` when the first `c` elements are
/// zero-classified.
proof fn lemma_leading_at_least(elems: Seq<u32>, c: nat)
    requires
        c <= elems.len(),
        forall|j: int| 0 <= j < c ==> is_rle_zero(#[trigger] elems[j]),
    ensures
        leading_rle_zeros(elems) >= c,
    decreases c,
{
    if c > 0 {
        lemma_leading_at_least(elems.drop_first(), (c - 1) as nat);
    }
}

/// The leading zero count is exactly `c` when the first `c` elements are
/// zero-classified and the next one (if any) is not.
proof fn lemma_leading_exact(elems: Seq<u32>, c: nat)
    requires
        c <= elems.len(),
        forall|j: int| 0 <= j < c ==> is_rle_zero(#[trigger] elems[j]),
        c == elems.len() || !is_rle_zero(elems[c as int]),
    ensures
        leading_rle_zeros(elems) == c,
    decreases c,
{
    if c == 0 {
    } else {
        lemma_leading_exact(elems.drop_first(), (c - 1) as nat);
    }
}

/// An element sequence is run-length clean when every zero-classified element
/// is the exact zero pattern and no other element has a zero low byte (a low
/// byte of zero would be read back as a run marker).
pub open spec fn rle_clean(elems: Seq<u32>) -> bool {
    forall|j: int| 0 <= j < elems.len() ==> (if is_rle_zero(#[trigger] elems[j]) {
        elems[j] == 0u32
    } else {
        elems[j] % 256 != 0
    })
}

/// A run-length stream decodes back to exactly the clean element sequence it
/// was encoded from.
pub proof fn lemma_rle_roundtrip(elems: Seq<u32>)
    requires
        rle_clean(elems),
    ensures
        rle_decode_spec(rle_encoding(elems)) == Some(elems),
    decreases elems.len(),
{
    if elems.len() == 0 {
        assert(rle_decode_spec(rle_encoding(elems)) =~= Some(elems));
    } else if is_rle_zero(elems[0]) {
        let run = rle_run(elems);
        lemma_leading_le(elems);
        assert(1 <= run <= elems.len());
        let tail_elems = elems.skip(run as int);
        let data = rle_encoding(elems);
        assert(data == seq![0u8, run as u8] + rle_encoding(tail_elems));
        assert(rle_clean(tail_elems)) by {
            assert(forall|j: int| 0 <= j < tail_elems.len() ==> tail_elems[j]
                == elems[j + run]);
        }
        lemma_rle_roundtrip(tail_elems);
        assert(data.skip(2) =~= rle_encoding(tail_elems));
        assert(data[0] == 0 && data.len() >= 2);
        assert(data[1] == run as u8);
        assert(Seq::new(run, |i: int| 0u32) + tail_elems =~= elems) by {
            lemma_leading_zero_prefix(elems, run);
        }
    } else {
        let data = rle_encoding(elems);
        assert(data == u32_le_bytes(elems[0]) + rle_encoding(elems.drop_first()));
        let e0 = elems[0];
        assert(data[0] == (e0 & 0xff) as u8);
        assert(e0 % 256 != 0);
        assert((e0 & 0xff) as u8 != 0) by (bit_vector)
            requires e0 % 256 != 0;
        assert(rle_clean(elems.drop_first())) by {
            assert(forall|j: int| 0 <= j < elems.drop_first().len() ==> elems.drop_first()[j]
                == elems[j + 1]);
        }
        lemma_rle_roundtrip(elems.drop_first());
        assert(data.skip(4) =~= rle_encoding(elems.drop_first()));
        assert(data.len() >= 4);
        crate::words::lemma_u32_le_roundtrip(elems[0]);
        assert(u32_from_le_bytes(data[0], data[1], data[2], data[3]) == elems[0]);
        assert(seq![elems[0]] + elems.drop_first() =~= elems);
    }
}

/// The leading zero run never exceeds the sequence length.
proof fn lemma_leading_le(elems: Seq<u32>)
    ensures
        leading_rle_zeros(elems) <= elems.len(),
        elems.len() > 0 && is_rle_zero(elems[0]) ==> 1 <= rle_run(elems),
    decreases elems.len(),
{
    if elems.len() > 0 && is_rle_zero(elems[0]) {
        lemma_leading_le(elems.drop_first());
    }
}

/// In a clean sequence, the first `run` elements of a zero run are the exact
/// zero pattern.
proof fn lemma_leading_zero_prefix(elems: Seq<u32>, run: nat)
    requires
        rle_clean(elems),
        run <= leading_rle_zeros(elems),
        run <= elems.len(),
    ensures
        forall|j: int| 0 <= j < run ==> elems[j] == 0u32,
{
    lemma_leading_zeros_are_zero(elems);
}

/// Every element inside the leading zero run is zero-classified.
proof fn lemma_leading_zeros_are_zero(elems: Seq<u32>)
    ensures
        forall|j: int| 0 <= j < leading_rle_zeros(elems) && j < elems.len() ==> is_rle_zero(
            #[trigger] elems[j]),
    decreases elems.len(),
{
    if elems.len() > 0 && is_rle_zero(elems[0]) {
        lemma_leading_zeros_are_zero(elems.drop_first());
        assert(forall|j: int| 1 <= j < leading_rle_zeros(elems) && j < elems.len()
            ==> elems.drop_first()[j - 1] == elems[j]);
    }
}

/// Encoding one more element appends its varint bytes.
proof fn lemma_varint_encoding_push(elems: Seq<u32>, e: u32)
    ensures
        varint_encoding(elems.push(e)) == varint_encoding(elems) + varint_bytes(
            zigzag_of_elem(e)),
    decreases elems.len(),
{
    if elems.len() == 0 {
        assert(elems.push(e)[0] == e);
        assert(elems.push(e).drop_first() =~= Seq::<u32>::empty());
        assert(varint_encoding(elems.push(e).drop_first()) =~= Seq::<u8>::empty());
        assert(varint_encoding(elems.push(e)) =~= varint_encoding(elems) + varint_bytes(
            zigzag_of_elem(e)));
    } else {
        assert(elems.push(e).drop_first() =~= elems.drop_first().push(e));
        lemma_varint_encoding_push(elems.drop_first(), e);
        assert(varint_encoding(elems.push(e)) =~= varint_encoding(elems) + varint_bytes(
            zigzag_of_elem(e)));
    }
}

/// A successful varint read consumes between one byte and the whole input.
proof fn lemma_read_varint_consumed(data: Seq<u8>, mult: nat, acc: nat)
    ensures
        read_varint_from(data, mult, acc) matches Some(vc) ==> 1 <= vc.1 <= data.len(),
    decreases data.len(),
{
    if data.len() > 0 {
        lemma_read_varint_consumed(data.drop_first(), mult * 128, acc + ((data[0] % 128) as nat)
            * mult);
    }
}

/// A varint read result with its consumed count moved forward by an offset.
pub open spec fn add_consumed(o: Option<(u32, nat)>, d: nat) -> Option<(u32, nat)> {
    match o {
        Some(vc) => Some((vc.0, vc.1 + d)),
        None => None,
    }
}

/// Delta encoder with multiple compression strategies over raw 32-bit
/// elements.
pub struct DeltaEncoder {
    method: CompressionMethod,
}

/// What decoding a byte stream under a method yields: the element sequence,
/// or nothing on malformed input.
pub open spec fn decode_spec(method: CompressionMethod, data: Seq<u8>) -> Option<Seq<u32>> {
    match method {
        CompressionMethod::Lz4 => lz4_decode_spec(data),
        CompressionMethod::Varint => varint_decode_spec(data),
        CompressionMethod::RunLength => rle_decode_spec(data),
    }
}

/// What lz4 decoding yields: the size-prefixed block decompressed and split
/// into whole little-endian words.
pub open spec fn lz4_decode_spec(data: Seq<u8>) -> Option<Seq<u32>> {
    match lz4_unblock_of(data) {
        Some(b) => if b.len() % 4 == 0 {
            Some(words_of_le_bytes(b))
        } else {
            None
        },
        None => None,
    }
}

impl DeltaEncoder {
    /// The configured compression method.
    pub closed spec fn spec_method(&self) -> CompressionMethod {
        self.method
    }

    pub fn new(method: CompressionMethod) -> (r: DeltaEncoder)
        ensures
            r.spec_method() == method,
    {
        DeltaEncoder { method }
    }

    /// Zigzag-encodes a signed value onto an unsigned one.
    pub fn zigzag_encode(n: i32) -> (r: u32)
        ensures
            r as int == zigzag_spec(n as int),
    {
        if n >= 0 {
            (n as u32) * 2
        } else {
            let m = (-(n as i64)) as u32;
            (m - 1) * 2 + 1
        }
    }

    /// Inverts the zigzag encoding.
    pub fn zigzag_decode(n: u32) -> (r: i32)
        ensures
            r as int == unzigzag_spec(n as int),
    {
        if n % 2 == 0 {
            (n / 2) as i32
        } else {
            let h = (n / 2) as i64;
            (-(h + 1)) as i32
        }
    }

    /// Appends the little-endian base-128 bytes of a value.
    pub fn write_varint(buf: &mut Vec<u8>, n: u32)
        ensures
            final(buf)@ == old(buf)@ + varint_bytes(n as nat),
        decreases n,
    {
        if n >= 0x80 {
            let b = (n as u8) | 0x80;
            proof {
                assert(b == ((n % 128 + 128) as u8) && n >> 7 == n / 128 && n / 128 < n)
                    by (bit_vector)
                    requires b == ((n as u8) | 0x80), n >= 0x80;
            }
            buf.push(b);
            DeltaEncoder::write_varint(buf, n >> 7);
            proof {
                assert(buf@ =~= old(buf)@ + varint_bytes(n as nat));
            }
        } else {
            buf.push(n as u8);
            proof {
                assert(buf@ =~= old(buf)@ + varint_bytes(n as nat));
            }
        }
    }

    /// Reads one varint from the front of a byte slice: the value and the
    /// count of bytes consumed, or nothing when the input ends inside the
    /// varint or the value does not fit 32 bits.
    pub fn read_varint(data: &[u8]) -> (r: Option<(u32, usize)>)
        ensures
            r matches Some(vc) ==> read_varint_spec(data@) == Some((vc.0, vc.1 as nat)),
            r is None ==> read_varint_spec(data@) is None,
    {
        let mut acc: u32 = 0;
        let mut mult: u32 = 1;
        let mut i: usize = 0;
        proof {
            assert(data@.skip(0) =~= data@);
        }
        while i < data.len()
            invariant
                i <= data@.len(),
                mult == 1 || mult == 0x80 || mult == 0x4000 || mult == 0x200000 || mult
                    == 0x10000000,
                read_varint_spec(data@) == add_consumed(read_varint_from(data@.skip(i as int),
                    mult as nat, acc as nat), i as nat),
            decreases data@.len() - i,
        {
            let b = data[i];
            let g = (b % 128) as u32;
            proof {
                assert((g as int) * (mult as int) <= 127 * 0x10000000) by (nonlinear_arith)
                    requires
                        0 <= g as int <= 127,
                        0 <= mult as int <= 0x10000000,
                ;
            }
            let sum = acc as u64 + (g as u64) * (mult as u64);
            proof {
                assert(pow2(32) == 0x100000000) by {
                    vstd::arithmetic::power2::lemma2_to64();
                }
                assert(data@.skip(i as int)[0] == b);
                assert(data@.skip(i as int).drop_first() =~= data@.skip(i + 1 as int));
            }
            if sum >= 0x100000000u64 {
                return None;
            }
            let acc2 = acc + g * mult;
            if b < 128 {
                return Some((acc2, i + 1));
            }
            if mult >= 0x10000000 {
                return None;
            }
            mult = mult * 128;
            acc = acc2;
            i += 1;
        }
        proof {
            assert(data@.skip(i as int) =~= Seq::<u8>::empty());
        }
        None
    }

    /// Encodes each element as the varint of its zigzag-mapped signed value.
    fn encode_varint(delta: &Vec<u32>) -> (r: Vec<u8>)
        ensures
            r@ == varint_encoding(delta@),
    {
        let mut out: Vec<u8> = Vec::new();
        let mut i: usize = 0;
        proof {
            assert(delta@.take(0) =~= Seq::<u32>::empty());
            assert(out@ =~= varint_encoding(delta@.take(0)));
        }
        while i < delta.len()
            invariant
                i <= delta@.len(),
                out@ == varint_encoding(delta@.take(i as int)),
            decreases delta@.len() - i,
        {
            let e = delta[i];
            let zz: u32 = if e < 0x80000000 {
                e * 2
            } else {
                (0xffffffffu32 - e) * 2 + 1
            };
            proof {
                assert(zz as nat == zigzag_of_elem(e));
            }
            DeltaEncoder::write_varint(&mut out, zz);
            proof {
                assert(delta@.take(i + 1 as int) =~= delta@.take(i as int).push(e));
                lemma_varint_encoding_push(delta@.take(i as int), e);
            }
            i += 1;
        }
        proof {
            assert(delta@.take(delta@.len() as int) =~= delta@);
        }
        out
    }

    /// Decodes a varint stream back into elements; fails exactly on a
    /// truncated or oversized varint.
    fn decode_varint(data: &Vec<u8>) -> (r: Result<Vec<u32>, CantorError>)
        ensures
            r is Ok <==> varint_decode_spec(data@) is Some,
            r is Ok ==> Some(r->Ok_0@) == varint_decode_spec(data@),
            r is Err ==> r->Err_0 is InvalidDeltaEncoding,
    {
        let mut result: Vec<u32> = Vec::new();
        let mut pos: usize = 0;
        proof {
            assert(data@.skip(0) =~= data@);
        }
        while pos < data.len()
            invariant
                pos <= data@.len(),
                match varint_decode_spec(data@.skip(pos as int)) {
                    Some(tail) => varint_decode_spec(data@) == Some(result@ + tail),
                    None => varint_decode_spec(data@) is None,
                },
            decreases data@.len() - pos,
        {
            let rest = vstd::slice::slice_subrange(data.as_slice(), pos, data.len());
            proof {
                assert(rest@ =~= data@.skip(pos as int));
            }
            match DeltaEncoder::read_varint(rest) {
                None => {
                    return Err(CantorError::InvalidDeltaEncoding);
                },
                Some((z, c)) => {
                    proof {
                        lemma_read_varint_consumed(rest@, 1, 0);
                    }
                    let elem: u32 = if z % 2 == 0 {
                        z / 2
                    } else {
                        0xffffffffu32 - z / 2
                    };
                    let ghost old_result = result@;
                    let ghost old_pos = pos as int;
                    result.push(elem);
                    pos = pos + c;
                    proof {
                        assert(elem == elem_of_zigzag(z));
                        assert(data@.skip(old_pos).skip(c as int) =~= data@.skip(
                            pos as int));
                        match varint_decode_spec(data@.skip(pos as int)) {
                            Some(tail) => {
                                assert(varint_decode_spec(data@.skip(old_pos)) == Some(
                                    seq![elem_of_zigzag(z)] + tail));
                                assert(old_result + (seq![elem_of_zigzag(z)] + tail)
                                    =~= result@ + tail);
                            },
                            None => {},
                        }
                    }
                },
            }
        }
        proof {
            assert(data@.skip(pos as int) =~= Seq::<u8>::empty());
            assert(result@ + Seq::<u32>::empty() =~= result@);
        }
        Ok(result)
    }

    /// Whether the run-length scheme classifies an element as zero.
    fn rle_zero(e: u32) -> (r: bool)
        ensures
            r == is_rle_zero(e),
    {
        (e & 0x7fffffff) < 0x358637bd
    }

    /// Run-length encodes: zero runs (capped at 255) become a marker and a
    /// count, everything else its four little-endian bytes.
    fn encode_rle(delta: &Vec<u32>) -> (r: Vec<u8>)
        ensures
            r@ == rle_encoding(delta@),
    {
        let mut out: Vec<u8> = Vec::new();
        let mut i: usize = 0;
        proof {
            assert(delta@.skip(0) =~= delta@);
            assert(out@ + rle_encoding(delta@.skip(0)) =~= rle_encoding(delta@));
        }
        while i < delta.len()
            invariant
                i <= delta@.len(),
                rle_encoding(delta@) == out@ + rle_encoding(delta@.skip(i as int)),
            decreases delta@.len() - i,
        {
            let start = i;
            let ghost tail = delta@.skip(i as int);
            if DeltaEncoder::rle_zero(delta[i]) {
                let mut count: u8 = 0;
                while i < delta.len() && count < 255 && DeltaEncoder::rle_zero(delta[i])
                    invariant
                        start <= i <= delta@.len(),
                        count as int == i - start,
                        count <= 255,
                        forall|j: int| start <= j < i ==> is_rle_zero(#[trigger] delta@[j]),
                    decreases delta@.len() - i,
                {
                    count = count + 1;
                    i += 1;
                }
                out.push(0);
                out.push(count);
                proof {
                    assert(forall|j: int| 0 <= j < count ==> tail[j] == delta@[j + start]);
                    if count < 255 {
                        lemma_leading_exact(tail, count as nat);
                    } else {
                        lemma_leading_at_least(tail, 255);
                    }
                    assert(rle_run(tail) == count as nat);
                    assert(is_rle_zero(tail[0]));
                    assert(count >= 1);
                    assert(rle_encoding(tail) == seq![0u8, count] + rle_encoding(tail.skip(
                        count as int)));
                    assert(tail.skip(count as int) =~= delta@.skip(i as int));
                    assert(rle_encoding(delta@) =~= out@ + rle_encoding(delta@.skip(i as int)));
                }
            } else {
                let e = delta[i];
                out.push((e & 0xff) as u8);
                out.push(((e >> 8) & 0xff) as u8);
                out.push(((e >> 16) & 0xff) as u8);
                out.push(((e >> 24) & 0xff) as u8);
                i += 1;
                proof {
                    assert(!is_rle_zero(tail[0]));
                    assert(rle_encoding(tail) == u32_le_bytes(tail[0]) + rle_encoding(
                        tail.drop_first()));
                    assert(tail.drop_first() =~= delta@.skip(i as int));
                    assert(rle_encoding(delta@) =~= out@ + rle_encoding(delta@.skip(i as int)));
                }
            }
        }
        proof {
            assert(delta@.skip(delta@.len() as int) =~= Seq::<u32>::empty());
            assert(out@ =~= rle_encoding(delta@));
        }
        out
    }

    /// Decodes a run-length stream; fails exactly on a dangling marker or a
    /// short raw tail.
    fn decode_rle(data: &Vec<u8>) -> (r: Result<Vec<u32>, CantorError>)
        ensures
            r is Ok <==> rle_decode_spec(data@) is Some,
            r is Ok ==> Some(r->Ok_0@) == rle_decode_spec(data@),
            r is Err ==> r->Err_0 is InvalidDeltaEncoding,
    {
        let mut result: Vec<u32> = Vec::new();
        let mut i: usize = 0;
        proof {
            assert(data@.skip(0) =~= data@);
        }
        while i < data.len()
            invariant
                i <= data@.len(),
                match rle_decode_spec(data@.skip(i as int)) {
                    Some(tail) => rle_decode_spec(data@) == Some(result@ + tail),
                    None => rle_decode_spec(data@) is None,
                },
            decreases data@.len() - i,
        {
            let ghost old_i = i as int;
            let ghost old_result = result@;
            if data[i] == 0 && i + 1 < data.len() {
                let count = data[i + 1] as usize;
                let mut c: usize = 0;
                while c < count
                    invariant
                        c <= count,
                        result@ == old_result + Seq::new(c as nat, |j: int| 0u32),
                    decreases count - c,
                {
                    result.push(0);
                    proof {
                        assert(result@ =~= old_result + Seq::new((c + 1) as nat,
                            |j: int| 0u32));
                    }
                    c += 1;
                }
                i += 2;
                proof {
                    assert(data@.skip(old_i)[0] == 0 && data@.skip(old_i).len() >= 2);
                    assert(data@.skip(old_i)[1] == count as u8);
                    assert(data@.skip(old_i).skip(2) =~= data@.skip(i as int));
                    match rle_decode_spec(data@.skip(i as int)) {
                        Some(tail) => {
                            assert(rle_decode_spec(data@.skip(old_i)) == Some(Seq::new(
                                count as nat, |j: int| 0u32) + tail));
                            assert(old_result + (Seq::new(count as nat, |j: int| 0u32) + tail)
                                =~= result@ + tail);
                        },
                        None => {},
                    }
                }
            } else if data.len() - i >= 4 {
                let w = (data[i] as u32) | ((data[i + 1] as u32) << 8) | ((data[i
                    + 2] as u32) << 16) | ((data[i + 3] as u32) << 24);
                result.push(w);
                i += 4;
                proof {
                    let t = data@.skip(old_i);
                    assert(t[0] == data@[old_i] && t[1] == data@[old_i + 1] && t[2] == data@[
                        old_i + 2] && t[3] == data@[old_i + 3]);
                    assert(!(t[0] == 0 && t.len() >= 2));
                    assert(t.skip(4) =~= data@.skip(i as int));
                    assert(w == u32_from_le_bytes(t[0], t[1], t[2], t[3]));
                    match rle_decode_spec(data@.skip(i as int)) {
                        Some(tail) => {
                            assert(rle_decode_spec(t) == Some(seq![w] + tail));
                            assert(old_result + (seq![w] + tail) =~= result@ + tail);
                        },
                        None => {},
                    }
                }
            } else {
                proof {
                    let t = data@.skip(old_i);
                    assert(t.len() >= 1);
                    assert(rle_decode_spec(t) is None);
                }
                return Err(CantorError::InvalidDeltaEncoding);
            }
        }
        proof {
            assert(data@.skip(i as int) =~= Seq::<u8>::empty());
            assert(result@ + Seq::<u32>::empty() =~= result@);
        }
        Ok(result)
    }

    /// Whole-buffer compression: elements serialized little-endian and
    /// handed to lz4 block compression with a size prefix.
    fn encode_lz4(delta: &Vec<u32>) -> (r: Result<Vec<u8>, CantorError>)
        ensures
            r is Ok ==> lz4_unblock_of(r->Ok_0@) == Some(le_bytes_of_words(delta@)),
            4 * delta@.len() <= 0x7E000000 ==> r is Ok,
            r is Err ==> r->Err_0 is CompressionFailed,
    {
        let bytes = words_to_le_bytes(delta);
        proof {
            crate::words::lemma_le_bytes_of_words_len(delta@);
        }
        lz4_compress(&bytes)
    }

    /// Whole-buffer decompression: the lz4 block recovered and split into
    /// whole little-endian words.
    fn decode_lz4(data: &Vec<u8>) -> (r: Result<Vec<u32>, CantorError>)
        ensures
            r is Ok <==> lz4_decode_spec(data@) is Some,
            r is Ok ==> Some(r->Ok_0@) == lz4_decode_spec(data@),
            lz4_unblock_of(data@) is None ==> r is Err && r->Err_0 is DecompressionFailed,
            lz4_unblock_of(data@) matches Some(p) && p.len() % 4 != 0 ==> r is Err
                && r->Err_0 is InvalidDeltaEncoding,
    {
        match lz4_decompress(data) {
            Err(e) => Err(e),
            Ok(bytes) => match words_from_le_bytes(&bytes) {
                Some(words) => Ok(words),
                None => Err(CantorError::InvalidDeltaEncoding),
            },
        }
    }

    /// Encodes an element sequence under the configured method. Encoding
    /// always succeeds except under the whole-buffer method on inputs past
    /// the lz4 block size limit; whatever was encoded decodes back to
    /// exactly the input (for the run-length method, on run-length clean
    /// inputs).
    pub fn encode(&self, delta: &Vec<u32>) -> (r: Result<Vec<u8>, CantorError>)
        ensures
            self.spec_method() is Varint ==> r is Ok && r->Ok_0@ == varint_encoding(delta@),
            self.spec_method() is RunLength ==> r is Ok && r->Ok_0@ == rle_encoding(delta@),
            self.spec_method() is Lz4 && 4 * delta@.len() <= 0x7E000000 ==> r is Ok,
            self.spec_method() is Lz4 && r is Ok ==> lz4_unblock_of(r->Ok_0@) == Some(
                le_bytes_of_words(delta@)),
            r is Err ==> r->Err_0 is CompressionFailed,
            r is Ok && (self.spec_method() is RunLength ==> rle_clean(delta@))
                ==> decode_spec(self.spec_method(), r->Ok_0@) == Some(delta@),
    {
        let r = match self.method {
            CompressionMethod::Lz4 => DeltaEncoder::encode_lz4(delta),
            CompressionMethod::Varint => Ok(DeltaEncoder::encode_varint(delta)),
            CompressionMethod::RunLength => Ok(DeltaEncoder::encode_rle(delta)),
        };
        proof {
            if r is Ok {
                match self.method {
                    CompressionMethod::Lz4 => {
                        crate::words::lemma_words_le_roundtrip(delta@);
                        crate::words::lemma_le_bytes_of_words_len(delta@);
                    },
                    CompressionMethod::Varint => {
                        lemma_varint_roundtrip(delta@);
                    },
                    CompressionMethod::RunLength => {
                        if rle_clean(delta@) {
                            lemma_rle_roundtrip(delta@);
                        }
                    },
                }
            }
        }
        r
    }

    /// Decodes a byte stream under the configured method: exactly the
    /// elements the method's decoding relation yields, and an error exactly
    /// on malformed input (a failed decompression or a malformed stream).
    pub fn decode(&self, data: &Vec<u8>) -> (r: Result<Vec<u32>, CantorError>)
        ensures
            r is Ok <==> decode_spec(self.spec_method(), data@) is Some,
            r is Ok ==> Some(r->Ok_0@) == decode_spec(self.spec_method(), data@),
            self.spec_method() is Varint && r is Err ==> r->Err_0 is InvalidDeltaEncoding,
            self.spec_method() is RunLength && r is Err ==> r->Err_0 is InvalidDeltaEncoding,
            self.spec_method() is Lz4 && lz4_unblock_of(data@) is None ==> r is Err
                && r->Err_0 is DecompressionFailed,
            self.spec_method() is Lz4 && (lz4_unblock_of(data@) matches Some(p) && p.len() % 4
                != 0) ==> r is Err && r->Err_0 is InvalidDeltaEncoding,
    {
        match self.method {
            CompressionMethod::Lz4 => DeltaEncoder::decode_lz4(data),
            CompressionMethod::Varint => DeltaEncoder::decode_varint(data),
            CompressionMethod::RunLength => DeltaEncoder::decode_rle(data),
        }
    }
}

} // verus!
