//! Comparing attribute text and reading identifiers out of it.

use vstd::prelude::*;
use vstd::string::*;
use vstd::utf8::*;
use crate::error::Cause;

verus! {

/// Two character sequences with the same UTF-8 encoding are the same sequence.
pub proof fn lemma_encoding_injective(a: Seq<char>, b: Seq<char>)
    requires
        encode_utf8(a) == encode_utf8(b),
    ensures
        a == b,
{
    encode_utf8_decode_utf8(a);
    encode_utf8_decode_utf8(b);
}

/// Whether two string slices hold the same characters.
pub fn same_text(a: &str, b: &str) -> (same: bool)
    ensures
        same == (a@ == b@),
{
    let x = a.as_bytes();
    let y = b.as_bytes();
    if x.len() != y.len() {
        return false;
    }
    let mut i: usize = 0;
    while i < x.len()
        invariant
            i <= x.len(),
            x.len() == y.len(),
            x@ == a.spec_bytes(),
            y@ == b.spec_bytes(),
            forall|k: int| 0 <= k < i ==> x@[k] == y@[k],
        decreases x.len() - i,
    {
        if x[i] != y[i] {
            return false;
        }
        i += 1;
    }
    proof {
        assert(x@ =~= y@);
        lemma_encoding_injective(a@, b@);
    }
    true
}

/// Whether `c` is one of the ten decimal digits.
pub open spec fn is_digit(c: char) -> bool {
    '0' <= c <= '9'
}

/// The number that a sequence of decimal digits writes, the first digit weighing most.
pub open spec fn decimal_value(digits: Seq<char>) -> nat
    decreases digits.len(),
{
    if digits.len() == 0 {
        0
    } else {
        decimal_value(digits.drop_last()) * 10 + (digits.last() as nat - '0' as nat) as nat
    }
}

/// The digits of an integer literal: what follows its sign, or all of it where it has none.
pub open spec fn unsigned_part(raw: Seq<char>) -> Seq<char> {
    if raw.len() > 0 && (raw[0] == '-' || raw[0] == '+') {
        raw.skip(1)
    } else {
        raw
    }
}

/// The first fault that reading `digits` from the left meets, if it meets one: a character
/// that is no digit, or a digit with which the number read so far goes beyond `limit`.
pub open spec fn first_fault(digits: Seq<char>, limit: nat, beyond: Cause) -> Option<Cause>
    decreases digits.len(),
{
    if digits.len() == 0 {
        None
    } else if first_fault(digits.drop_last(), limit, beyond) is Some {
        first_fault(digits.drop_last(), limit, beyond)
    } else if !is_digit(digits.last()) {
        Some(Cause::InvalidDigit)
    } else if decimal_value(digits) > limit {
        Some(beyond)
    } else {
        None
    }
}

/// The identifier that `raw` stands for: an optional sign and then one or more decimal digits
/// that together name a 64-bit signed integer. Anything else stands for none, and the cause
/// is that of the first fault from the left: a character that is no digit, or a digit with
/// which the number leaves the range.
pub open spec fn integer_of(raw: Seq<char>) -> Result<i64, Cause> {
    let digits = unsigned_part(raw);
    if raw.len() == 0 {
        Err(Cause::Empty)
    } else if digits.len() == 0 {
        Err(Cause::InvalidDigit)
    } else if raw[0] == '-' {
        match first_fault(digits, 0x8000_0000_0000_0000, Cause::TooSmall) {
            Some(cause) => Err(cause),
            None => Ok((-(decimal_value(digits) as int)) as i64),
        }
    } else {
        match first_fault(digits, 0x7fff_ffff_ffff_ffff, Cause::TooLarge) {
            Some(cause) => Err(cause),
            None => Ok(decimal_value(digits) as i64),
        }
    }
}

/// What the number of a character tells of the character.
proof fn lemma_code(c: char, code: u32)
    requires
        code == c as u32,
    ensures
        (code == 45) == (c == '-'),
        (code == 43) == (c == '+'),
        (48 <= code <= 57) == is_digit(c),
        is_digit(c) ==> (c as nat - '0' as nat) as nat == code - 48,
{
}

/// The character at `i`, as a number. Text of seven-bit characters is read by its bytes.
fn code_at(raw: &str, plain: bool, i: usize) -> (code: u32)
    requires
        i < raw@.len(),
        plain == is_ascii_chars(raw@),
    ensures
        code == raw@[i as int] as u32,
{
    broadcast use is_ascii_spec_bytes;

    if plain {
        let bytes = raw.as_bytes();
        assert(is_ascii(raw));
        bytes[i] as u32
    } else {
        raw.get_char(i) as u32
    }
}

/// Reads an identifier out of attribute text.
pub fn parse_integer(raw: &str) -> (r: Result<i64, Cause>)
    ensures
        r == integer_of(raw@),
{
    broadcast use is_ascii_spec_bytes;

    let plain = raw.is_ascii();
    let len: usize = if plain {
        raw.as_bytes().len()
    } else {
        raw.unicode_len()
    };
    if len == 0 {
        return Err(Cause::Empty);
    }
    let sign: u32 = code_at(raw, plain, 0);
    let negative = sign == 45;
    let start: usize = if sign == 45 || sign == 43 {
        1
    } else {
        0
    };
    let ghost digits = unsigned_part(raw@);
    proof {
        lemma_code(raw@[0], sign);
    }
    if start == len {
        return Err(Cause::InvalidDigit);
    }
    let limit: u64 = if negative {
        0x8000_0000_0000_0000
    } else {
        0x7fff_ffff_ffff_ffff
    };
    let beyond = if negative {
        Cause::TooSmall
    } else {
        Cause::TooLarge
    };
    let mut value: u64 = 0;
    let mut i: usize = start;
    while i < len
        invariant
            start <= i <= len,
            len == raw@.len(),
            plain == is_ascii_chars(raw@),
            digits == unsigned_part(raw@),
            digits == raw@.skip(start as int),
            raw@.len() > 0,
            negative == (raw@[0] == '-'),
            limit == if negative {
                0x8000_0000_0000_0000u64
            } else {
                0x7fff_ffff_ffff_ffffu64
            },
            beyond == if negative {
                Cause::TooSmall
            } else {
                Cause::TooLarge
            },
            first_fault(digits.take(i - start), limit as nat, beyond) is None,
            value == decimal_value(digits.take(i - start)),
            value <= limit,
        decreases len - i,
    {
        let code: u32 = code_at(raw, plain, i);
        let ghost k = i - start;
        assert(digits.take(k + 1).drop_last() =~= digits.take(k));
        proof {
            lemma_code(raw@[i as int], code);
        }
        if code < 48 || code > 57 {
            proof {
                lemma_fault_stays(digits, limit as nat, beyond, k + 1);
            }
            return Err(Cause::InvalidDigit);
        }
        let wide: u128 = value as u128 * 10 + (code - 48) as u128;
        if wide > limit as u128 {
            proof {
                lemma_fault_stays(digits, limit as nat, beyond, k + 1);
            }
            return Err(beyond);
        }
        value = wide as u64;
        i += 1;
    }
    assert(digits.take(i - start) =~= digits);
    if negative {
        if value == 0x8000_0000_0000_0000 {
            Ok(i64::MIN)
        } else {
            Ok(-(value as i64))
        }
    } else {
        Ok(value as i64)
    }
}

/// A fault that the beginning of a text has is the first fault of the whole text.
pub proof fn lemma_fault_stays(digits: Seq<char>, limit: nat, beyond: Cause, n: int)
    requires
        0 <= n <= digits.len(),
        first_fault(digits.take(n), limit, beyond) is Some,
    ensures
        first_fault(digits, limit, beyond) == first_fault(digits.take(n), limit, beyond),
    decreases digits.len() - n,
{
    if n == digits.len() {
        assert(digits.take(n) =~= digits);
    } else {
        assert(digits.drop_last().take(n) =~= digits.take(n));
        lemma_fault_stays(digits.drop_last(), limit, beyond, n);
    }
}

} // verus!
