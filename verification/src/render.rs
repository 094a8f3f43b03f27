//! Writing text and numbers to a string, byte by byte in the contract.
use crate::text::{decimal_digits, lemma_ascii_bytes, lemma_encode_concat};
use vstd::prelude::*;
use vstd::string::*;
use vstd::utf8::*;

verus! {

/// The bytes of a string.
pub open spec fn string_bytes(s: String) -> Seq<u8> {
    encode_utf8(s@)
}

/// Appends `piece` to `out`.
pub fn push_str(out: &mut String, piece: &str)
    ensures
        string_bytes(*final(out)) == string_bytes(*old(out)) + piece.spec_bytes(),
{
    proof {
        lemma_encode_concat(out@, piece@);
    }
    out.append(piece);
}

/// The decimal digit `d`, as text.
pub fn digit_str(d: u64) -> (r: &'static str)
    requires
        d < 10,
    ensures
        r.spec_bytes() == seq![(0x30 + d) as u8],
{
    let r = if d == 0 {
        "0"
    } else if d == 1 {
        "1"
    } else if d == 2 {
        "2"
    } else if d == 3 {
        "3"
    } else if d == 4 {
        "4"
    } else if d == 5 {
        "5"
    } else if d == 6 {
        "6"
    } else if d == 7 {
        "7"
    } else if d == 8 {
        "8"
    } else {
        "9"
    };
    proof {
        reveal_strlit("0");
        reveal_strlit("1");
        reveal_strlit("2");
        reveal_strlit("3");
        reveal_strlit("4");
        reveal_strlit("5");
        reveal_strlit("6");
        reveal_strlit("7");
        reveal_strlit("8");
        reveal_strlit("9");
        lemma_ascii_bytes(r);
        assert(r.spec_bytes() =~= seq![(0x30 + d) as u8]);
    }
    r
}

/// Appends the decimal digits of `n` to `out`.
pub fn push_decimal(out: &mut String, n: u64)
    ensures
        string_bytes(*final(out)) == string_bytes(*old(out)) + decimal_digits(n as nat),
    decreases n,
{
    if n >= 10 {
        push_decimal(out, n / 10);
    }
    push_str(out, digit_str(n % 10));
    proof {
        let before = string_bytes(*old(out));
        if n >= 10 {
            assert(before + decimal_digits((n / 10) as nat) + seq![(0x30 + n % 10) as u8]
                =~= before + decimal_digits(n as nat));
        } else {
            assert(before + seq![(0x30 + n % 10) as u8] =~= before + decimal_digits(n as nat));
        }
    }
}

} // verus!
