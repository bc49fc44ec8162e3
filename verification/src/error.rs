//! Error taxonomy: every fallible operation in this crate reports one of
//! these recoverable conditions; nothing is swallowed or retried internally.

use vstd::prelude::*;
use vstd::string::StringExecFns;

verus! {

/// Failure conditions reported by the commitment and verification core.
#[derive(Debug)]
pub enum CantorError {
    /// A digest was constructed from a buffer whose length is not 32; carries
    /// the observed length.
    InvalidHashLength(usize),
    /// A Merkle inclusion proof did not reconstruct the expected root.
    MerkleVerificationFailed,
    /// A decoded delta could not be applied to the claimed predicted state.
    StateReconstructionFailed(String),
    /// A proof was produced under a different model version than the
    /// verifier's configured one.
    ModelVersionMismatch { expected: String, actual: String },
    /// The underlying compressor failed; carries its error text.
    CompressionFailed(String),
    /// The underlying decompressor failed; carries its error text.
    DecompressionFailed(String),
    /// Encoded delta bytes were malformed or truncated.
    InvalidDeltaEncoding,
    /// No batch with the given block number is known.
    BlockNotFound(u64),
    /// A proof was requested for a leaf index outside the tree; carries the
    /// index in decimal.
    TransactionNotFound(String),
    /// An input/output failure surfaced by a hosting process.
    Io(String),
    /// A wire record could not be serialized or deserialized.
    Serialization(String),
}

/// The decimal digit character for a value below ten.
pub open spec fn digit_char(d: u8) -> char {
    if d == 0 {
        '0'
    } else if d == 1 {
        '1'
    } else if d == 2 {
        '2'
    } else if d == 3 {
        '3'
    } else if d == 4 {
        '4'
    } else if d == 5 {
        '5'
    } else if d == 6 {
        '6'
    } else if d == 7 {
        '7'
    } else if d == 8 {
        '8'
    } else {
        '9'
    }
}

/// The decimal representation of a number, most significant digit first,
/// without leading zeros (a single '0' for zero).
pub open spec fn decimal_digits(n: nat) -> Seq<char>
    decreases n,
{
    if n < 10 {
        seq![digit_char(n as u8)]
    } else {
        decimal_digits(n / 10) + seq![digit_char((n % 10) as u8)]
    }
}

/// The one-character string for a decimal digit.
fn digit_str(d: u8) -> (r: &'static str)
    requires
        d < 10,
    ensures
        r@ == seq![digit_char(d)],
{
    if d == 0 {
        proof {
            reveal_strlit("0");
        }
        "0"
    } else if d == 1 {
        proof {
            reveal_strlit("1");
        }
        "1"
    } else if d == 2 {
        proof {
            reveal_strlit("2");
        }
        "2"
    } else if d == 3 {
        proof {
            reveal_strlit("3");
        }
        "3"
    } else if d == 4 {
        proof {
            reveal_strlit("4");
        }
        "4"
    } else if d == 5 {
        proof {
            reveal_strlit("5");
        }
        "5"
    } else if d == 6 {
        proof {
            reveal_strlit("6");
        }
        "6"
    } else if d == 7 {
        proof {
            reveal_strlit("7");
        }
        "7"
    } else if d == 8 {
        proof {
            reveal_strlit("8");
        }
        "8"
    } else {
        proof {
            reveal_strlit("9");
        }
        "9"
    }
}

/// Appends the decimal representation of `n` to `out`.
fn push_decimal(n: usize, out: &mut String)
    ensures
        final(out)@ == old(out)@ + decimal_digits(n as nat),
    decreases n,
{
    if n >= 10 {
        push_decimal(n / 10, out);
    }
    out.append(digit_str((n % 10) as u8));
    proof {
        assert(out@ =~= old(out)@ + decimal_digits(n as nat));
    }
}

/// The decimal representation of a number as a string.
pub fn decimal_string(n: usize) -> (r: String)
    ensures
        r@ == decimal_digits(n as nat),
{
    let mut s = String::new();
    push_decimal(n, &mut s);
    proof {
        assert(s@ =~= decimal_digits(n as nat));
    }
    s
}

} // verus!
