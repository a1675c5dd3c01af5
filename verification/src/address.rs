//! Parsing of textual patch addresses.
//!
//! A patch endpoint is written `"<id>M<index><kind>"` with `kind` one of
//! `I`, `O`, `K` (input, output, knob), or `"<id>M"` for a whole-module
//! placeholder. The text before the first `M` is the module id in decimal;
//! after it, everything but the final kind letter is the port index in
//! decimal. A malformed address is a load-time error, reported per part.

use vstd::prelude::*;
use vstd::string::StringSliceAdditionalSpecFns;

use crate::key::{ModuleIOK, ModuleKey};

verus! {

/// Why an address failed to parse.
#[derive(Clone, Copy, Debug, PartialEq, Eq, Structural)]
pub enum AddressError {
    /// The address contains no `M` separator.
    MissingSeparator,
    /// The id before the separator is not a plain decimal number in range.
    InvalidId,
    /// The port index after the separator is not a plain decimal number in
    /// range (it is also missing when only the kind letter follows).
    InvalidIndex,
    /// The trailing letter is none of `I`, `O`, `K`.
    InvalidKind,
}

/// Whether `b` is an ASCII decimal digit.
pub open spec fn is_digit(b: u8) -> bool {
    48 <= b && b <= 57
}

/// Whether every byte of `s` is an ASCII decimal digit.
pub open spec fn all_digits(s: Seq<u8>) -> bool {
    forall|i: int| 0 <= i < s.len() ==> is_digit(#[trigger] s[i])
}

/// The number denoted by the digit string `s` (most significant first).
pub open spec fn digits_val(s: Seq<u8>) -> nat
    decreases s.len(),
{
    if s.len() == 0 {
        0
    } else {
        digits_val(s.drop_last()) * 10 + ((s.last() - 48) as nat)
    }
}

/// Whether `s` is a decimal numeral whose value fits in `usize`.
pub open spec fn parses_to_usize(s: Seq<u8>) -> bool {
    s.len() > 0 && all_digits(s) && digits_val(s) <= usize::MAX
}

/// Index of the first `M` byte in `s`, or `-1` when there is none.
pub open spec fn first_separator(s: Seq<u8>) -> int
    decreases s.len(),
{
    if s.len() == 0 {
        -1
    } else if s[0] == 77 {
        0
    } else {
        let r = first_separator(s.drop_first());
        if r < 0 {
            -1
        } else {
            r + 1
        }
    }
}

/// The key denoted by the address bytes `s`, or the error its shape earns:
/// no separator, then a bad id, then a bad index, then a bad kind letter.
pub open spec fn spec_parse_key(s: Seq<u8>) -> Result<ModuleKey, AddressError> {
    let m = first_separator(s);
    if m < 0 {
        Err(AddressError::MissingSeparator)
    } else {
        let id_part = s.take(m);
        let rest = s.skip(m + 1);
        if !parses_to_usize(id_part) {
            Err(AddressError::InvalidId)
        } else if rest.len() == 0 {
            Ok(ModuleKey { id: digits_val(id_part) as usize, iok: ModuleIOK::Whole })
        } else {
            let index_part = rest.drop_last();
            if !parses_to_usize(index_part) {
                Err(AddressError::InvalidIndex)
            } else {
                let id = digits_val(id_part) as usize;
                let index = digits_val(index_part) as usize;
                if rest.last() == 73 {
                    Ok(ModuleKey { id, iok: ModuleIOK::Input(index) })
                } else if rest.last() == 79 {
                    Ok(ModuleKey { id, iok: ModuleIOK::Output(index) })
                } else if rest.last() == 75 {
                    Ok(ModuleKey { id, iok: ModuleIOK::Knob(index) })
                } else {
                    Err(AddressError::InvalidKind)
                }
            }
        }
    }
}

proof fn lemma_first_separator_at(s: Seq<u8>, i: int)
    requires
        0 <= i < s.len(),
        s[i] == 77,
        forall|j: int| 0 <= j < i ==> s[j] != 77,
    ensures
        first_separator(s) == i,
    decreases s.len(),
{
    if i > 0 {
        lemma_first_separator_at(s.drop_first(), i - 1);
    }
}

proof fn lemma_first_separator_absent(s: Seq<u8>)
    requires
        forall|j: int| 0 <= j < s.len() ==> s[j] != 77,
    ensures
        first_separator(s) == -1,
    decreases s.len(),
{
    if s.len() > 0 {
        lemma_first_separator_absent(s.drop_first());
    }
}

/// Dropping bytes from the end never increases the denoted value.
proof fn lemma_digits_val_take_monotone(s: Seq<u8>, i: int, j: int)
    requires
        0 <= i <= j <= s.len(),
    ensures
        digits_val(s.take(i)) <= digits_val(s.take(j)),
    decreases j - i,
{
    if i < j {
        lemma_digits_val_take_monotone(s, i, j - 1);
        assert(s.take(j).drop_last() =~= s.take(j - 1));
        assert(digits_val(s.take(j)) == digits_val(s.take(j - 1)) * 10 + (
        (s.take(j).last() - 48) as nat));
    }
}

/// Read a plain decimal `usize` from `s`: every byte a digit, at least one
/// byte, and the value in range, exactly when the result is `Some`.
pub fn parse_usize_digits(s: &[u8]) -> (r: Option<usize>)
    ensures
        r is Some <==> parses_to_usize(s@),
        r matches Some(v) ==> v == digits_val(s@),
{
    let n = s.len();
    if n == 0 {
        return None;
    }
    let mut acc: usize = 0;
    let mut i: usize = 0;
    while i < n
        invariant
            0 < n == s@.len(),
            0 <= i <= n,
            all_digits(s@.take(i as int)),
            acc == digits_val(s@.take(i as int)),
        decreases n - i,
    {
        let b = s[i];
        if b < 48 || b > 57 {
            assert(!all_digits(s@));
            return None;
        }
        let d = (b - 48) as usize;
        proof {
            assert(s@.take(i + 1).drop_last() =~= s@.take(i as int));
            assert(s@.take(i + 1).last() == s@[i as int]);
        }
        if acc > (usize::MAX - d) / 10 {
            proof {
                let q = (usize::MAX - d) as int / 10;
                assert(10 * q + 9 >= usize::MAX - d) by (nonlinear_arith)
                    requires
                        q == (usize::MAX - d) as int / 10,
                        0 <= d <= 9,
                ;
                assert(acc * 10 >= (q + 1) * 10) by (nonlinear_arith)
                    requires
                        acc >= q + 1,
                ;
                assert(digits_val(s@.take(i + 1)) > usize::MAX);
                lemma_digits_val_take_monotone(s@, i + 1, n as int);
                assert(s@.take(n as int) =~= s@);
            }
            return None;
        }
        proof {
            let q = (usize::MAX - d) as int / 10;
            assert(10 * q <= usize::MAX - d) by (nonlinear_arith)
                requires
                    q == (usize::MAX - d) as int / 10,
                    0 <= d <= 9,
            ;
            assert(acc * 10 <= q * 10) by (nonlinear_arith)
                requires
                    acc <= q,
            ;
        }
        acc = acc * 10 + d;
        i = i + 1;
    }
    proof {
        assert(s@.take(n as int) =~= s@);
    }
    Some(acc)
}

/// Parse one patch address, split at the first `M`.
pub fn parse_module_key(s: &str) -> (r: Result<ModuleKey, AddressError>)
    ensures
        r == spec_parse_key(s.spec_bytes()),
{
    let bs: &[u8] = s.as_bytes();
    let n = bs.len();
    let mut i: usize = 0;
    while i < n && bs[i] != 77
        invariant
            n == bs@.len(),
            0 <= i <= n,
            forall|j: int| 0 <= j < i ==> bs@[j] != 77,
        decreases n - i,
    {
        i = i + 1;
    }
    if i == n {
        proof {
            lemma_first_separator_absent(bs@);
        }
        return Err(AddressError::MissingSeparator);
    }
    proof {
        lemma_first_separator_at(bs@, i as int);
    }
    let id_part: &[u8] = &bs[0..i];
    proof {
        assert(id_part@ =~= bs@.take(i as int));
    }
    let id = match parse_usize_digits(id_part) {
        Some(v) => v,
        None => {
            return Err(AddressError::InvalidId);
        },
    };
    proof {
        assert(bs@.skip(i + 1).len() == n - i - 1);
    }
    if n - i - 1 == 0 {
        return Ok(ModuleKey { id, iok: ModuleIOK::Whole });
    }
    let index_part: &[u8] = &bs[i + 1..n - 1];
    proof {
        assert(index_part@ =~= bs@.skip(i + 1).drop_last());
    }
    let index = match parse_usize_digits(index_part) {
        Some(v) => v,
        None => {
            return Err(AddressError::InvalidIndex);
        },
    };
    let kind = bs[n - 1];
    proof {
        assert(bs@.skip(i + 1).last() == bs@[n - 1]);
    }
    if kind == 73 {
        Ok(ModuleKey { id, iok: ModuleIOK::Input(index) })
    } else if kind == 79 {
        Ok(ModuleKey { id, iok: ModuleIOK::Output(index) })
    } else if kind == 75 {
        Ok(ModuleKey { id, iok: ModuleIOK::Knob(index) })
    } else {
        Err(AddressError::InvalidKind)
    }
}

} // verus!
