//! The 32-byte digest type and the SHA-256 primitive behind it.

use vstd::prelude::*;
use sha2::Digest;

verus! {

/// The digest that SHA-256 assigns to a byte sequence. The digest is a pure
/// function of the bytes alone; nothing in this crate states which value it
/// takes, so every claim about concrete digests is checked at run time.
pub uninterp spec fn sha256_of(data: Seq<u8>) -> Seq<u8>;

/// A 32-byte hash value. Equality is byte-exact; the view is the byte
/// sequence of the digest.
#[derive(Clone, Copy, Debug, Hash)]
pub struct Hash32(pub [u8; 32]);

impl View for Hash32 {
    type V = Seq<u8>;

    open spec fn view(&self) -> Seq<u8> {
        self.0@
    }
}

impl PartialEq for Hash32 {
    fn eq(&self, other: &Hash32) -> (r: bool) {
        let mut i: usize = 0;
        while i < 32
            invariant
                i <= 32,
                forall|j: int| 0 <= j < i ==> self.0@[j] == other.0@[j],
            decreases 32 - i,
        {
            if self.0[i] != other.0[i] {
                return false;
            }
            i += 1;
        }
        proof {
            assert(self.0@ =~= other.0@);
        }
        true
    }
}

impl Eq for Hash32 {}

impl vstd::std_specs::cmp::PartialEqSpecImpl for Hash32 {
    open spec fn obeys_eq_spec() -> bool {
        true
    }

    open spec fn eq_spec(&self, other: &Hash32) -> bool {
        self.0@ == other.0@
    }
}

impl Hash32 {
    /// Constructs a digest from an exact 32-byte slice; any other length is
    /// rejected with an invalid-length condition carrying the observed
    /// length.
    pub fn from_slice(slice: &[u8]) -> (r: Result<Hash32, crate::error::CantorError>)
        ensures
            r is Ok <==> slice@.len() == 32,
            r is Ok ==> r->Ok_0@ == slice@,
            r is Err ==> r->Err_0 is InvalidHashLength && r->Err_0->InvalidHashLength_0
                == slice@.len(),
    {
        if slice.len() != 32 {
            return Err(crate::error::CantorError::InvalidHashLength(slice.len()));
        }
        let mut arr = [0u8; 32];
        let mut i: usize = 0;
        while i < 32
            invariant
                i <= 32,
                slice@.len() == 32,
                forall|j: int| 0 <= j < i ==> arr@[j] == slice@[j],
            decreases 32 - i,
        {
            arr[i] = slice[i];
            i += 1;
        }
        proof {
            assert(arr@ =~= slice@);
        }
        Ok(Hash32(arr))
    }

    /// The all-zero sentinel digest.
    pub fn zero() -> (r: Hash32)
        ensures
            r@ == Seq::new(32, |i: int| 0u8),
    {
        let arr = [0u8; 32];
        proof {
            assert(arr@ =~= Seq::new(32, |i: int| 0u8));
        }
        Hash32(arr)
    }

    /// Byte access to the digest.
    pub fn as_bytes(&self) -> (r: &[u8; 32])
        ensures
            r@ == self@,
    {
        &self.0
    }

    /// The digest's 64-character lowercase hex rendering, for human-facing
    /// display only: it never participates in wire compatibility.
    pub fn to_hex(&self) -> (r: String)
        ensures
            r@ == hex_of(self@),
    {
        hex_encode(self.0.as_slice())
    }
}

/// The lowercase hex digit for a value below sixteen.
pub open spec fn hex_digit(n: u8) -> char {
    if n == 0 {
        '0'
    } else if n == 1 {
        '1'
    } else if n == 2 {
        '2'
    } else if n == 3 {
        '3'
    } else if n == 4 {
        '4'
    } else if n == 5 {
        '5'
    } else if n == 6 {
        '6'
    } else if n == 7 {
        '7'
    } else if n == 8 {
        '8'
    } else if n == 9 {
        '9'
    } else if n == 10 {
        'a'
    } else if n == 11 {
        'b'
    } else if n == 12 {
        'c'
    } else if n == 13 {
        'd'
    } else if n == 14 {
        'e'
    } else {
        'f'
    }
}

/// The lowercase hex rendering of a byte sequence: two digits per byte,
/// high nibble first.
pub open spec fn hex_of(b: Seq<u8>) -> Seq<char>
    decreases b.len(),
{
    if b.len() == 0 {
        Seq::empty()
    } else {
        seq![hex_digit(b[0] / 16), hex_digit(b[0] % 16)] + hex_of(b.drop_first())
    }
}

/// Relies on hex::encode: lowercase hex, two digits per byte, high nibble
/// first.
#[verifier::external_body]
fn hex_encode(data: &[u8]) -> (r: String)
    ensures
        r@ == hex_of(data@),
{
    hex::encode(data)
}

/// Relies on sha2::Sha256::digest: the 32-byte SHA-256 digest of the input,
/// a function of the input bytes alone.
#[verifier::external_body]
pub(crate) fn sha256(data: &[u8]) -> (r: Hash32)
    ensures
        r@ == sha256_of(data@),
{
    Hash32(sha2::Sha256::digest(data).into())
}

/// The digest of the byte concatenation of two digests: how adjacent tree
/// nodes are combined into their parent.
pub open spec fn hash_pair_of(left: Seq<u8>, right: Seq<u8>) -> Seq<u8> {
    sha256_of(left + right)
}

/// Hashes the concatenation of two digests.
pub(crate) fn hash_pair(left: &Hash32, right: &Hash32) -> (r: Hash32)
    ensures
        r@ == hash_pair_of(left@, right@),
{
    let mut buf: Vec<u8> = Vec::new();
    push_digest_bytes(&mut buf, left);
    push_digest_bytes(&mut buf, right);
    proof {
        assert(buf@ =~= left@ + right@);
    }
    sha256(buf.as_slice())
}

/// Appends the 32 bytes of a digest to a buffer.
pub(crate) fn push_digest_bytes(buf: &mut Vec<u8>, h: &Hash32)
    ensures
        final(buf)@ == old(buf)@ + h@,
{
    let mut i: usize = 0;
    while i < 32
        invariant
            i <= 32,
            buf@ == old(buf)@ + h@.take(i as int),
        decreases 32 - i,
    {
        buf.push(h.0[i]);
        proof {
            assert(h@.take(i + 1 as int) =~= h@.take(i as int).push(h@[i as int]));
            assert(buf@ =~= old(buf)@ + h@.take(i + 1 as int));
        }
        i += 1;
    }
    proof {
        assert(h@.take(32) =~= h@);
        assert(buf@ =~= old(buf)@ + h@);
    }
}

} // verus!
