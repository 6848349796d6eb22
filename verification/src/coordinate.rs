//! Geographic coordinates, kept as the decimal literals that the source wrote.

use vstd::prelude::*;
use vstd::string::*;
use vstd::utf8::*;
use crate::error::Cause;
use crate::text::{is_digit, lemma_encoding_injective, unsigned_part};

verus! {

/// How many decimal digits `s` begins with.
pub open spec fn digit_run(s: Seq<char>) -> nat
    decreases s.len(),
{
    if s.len() > 0 && is_digit(s[0]) {
        1 + digit_run(s.skip(1))
    } else {
        0
    }
}

/// Whether `c` is the lower-case letter `letter` or its upper-case form.
pub open spec fn same_letter(c: char, letter: char) -> bool {
    c == letter || c as int + 32 == letter as int
}

/// Whether `s` spells `inf`, `infinity` or `nan`, in letters of either case.
pub open spec fn is_special(s: Seq<char>) -> bool {
    ||| {
        &&& s.len() == 3
        &&& same_letter(s[0], 'i')
        &&& same_letter(s[1], 'n')
        &&& same_letter(s[2], 'f')
    }
    ||| {
        &&& s.len() == 8
        &&& same_letter(s[0], 'i')
        &&& same_letter(s[1], 'n')
        &&& same_letter(s[2], 'f')
        &&& same_letter(s[3], 'i')
        &&& same_letter(s[4], 'n')
        &&& same_letter(s[5], 'i')
        &&& same_letter(s[6], 't')
        &&& same_letter(s[7], 'y')
    }
    ||| {
        &&& s.len() == 3
        &&& same_letter(s[0], 'n')
        &&& same_letter(s[1], 'a')
        &&& same_letter(s[2], 'n')
    }
}

/// Whether `s` is an exponent: `e` or `E`, an optional sign, and one or more digits.
pub open spec fn is_exponent(s: Seq<char>) -> bool {
    let digits = unsigned_part(s.skip(1));
    s.len() > 0 && (s[0] == 'e' || s[0] == 'E') && digits.len() > 0 && digit_run(digits)
        == digits.len()
}

/// Whether `s` is a number: digits with at most one point among them, before them or after
/// them, at least one digit in all, and then an exponent or nothing.
pub open spec fn is_number(s: Seq<char>) -> bool {
    let whole = digit_run(s);
    let tail = s.skip(whole as int);
    let point = tail.len() > 0 && tail[0] == '.';
    let fraction = if point {
        digit_run(tail.skip(1))
    } else {
        0
    };
    let rest = if point {
        tail.skip(1 + fraction as int)
    } else {
        tail
    };
    whole + fraction > 0 && (rest.len() == 0 || is_exponent(rest))
}

/// Whether `s` is a decimal literal: an optional sign, then a number or one of the words for
/// infinity and for what is not a number.
pub open spec fn is_decimal(s: Seq<char>) -> bool {
    is_special(unsigned_part(s)) || is_number(unsigned_part(s))
}

/// The coordinate that `raw` stands for: `raw` itself where it is a decimal literal.
pub open spec fn coordinate_of(raw: Seq<char>) -> Result<Seq<char>, Cause> {
    if raw.len() == 0 {
        Err(Cause::Empty)
    } else if is_decimal(raw) {
        Ok(raw)
    } else {
        Err(Cause::InvalidDecimal)
    }
}

/// Seven-bit text and its encoding, byte for character.
spec fn spelled(chars: Seq<char>, bytes: Seq<u8>) -> bool {
    &&& is_ascii_chars(chars)
    &&& bytes.len() == chars.len()
    &&& forall|k: int| 0 <= k < chars.len() ==> bytes[k] == #[trigger] chars[k] as u8
}

/// The index at which the digits that begin at `from` stop.
fn skip_digits(bytes: &[u8], from: usize, Ghost(chars): Ghost<Seq<char>>) -> (to: usize)
    requires
        spelled(chars, bytes@),
        from <= bytes.len(),
    ensures
        from <= to <= bytes.len(),
        to - from == digit_run(chars.skip(from as int)),
{
    let mut i: usize = from;
    while i < bytes.len() && 48u8 <= bytes[i] && bytes[i] <= 57u8
        invariant
            spelled(chars, bytes@),
            from <= i <= bytes.len(),
            digit_run(chars.skip(from as int)) == (i - from) + digit_run(chars.skip(i as int)),
        decreases bytes.len() - i,
    {
        assert(chars.skip(i as int).skip(1) =~= chars.skip(i + 1));
        i += 1;
    }
    i
}

fn letter(b: u8, lower: u8, Ghost(c): Ghost<char>, Ghost(l): Ghost<char>) -> (same: bool)
    requires
        b == c as u8,
        lower == l as u8,
        c <= '\u{7f}',
        l <= '\u{7f}',
    ensures
        same == same_letter(c, l),
{
    b == lower || (b < 128 && b + 32 == lower)
}

fn special(bytes: &[u8], from: usize, Ghost(chars): Ghost<Seq<char>>) -> (found: bool)
    requires
        spelled(chars, bytes@),
        from <= bytes.len(),
    ensures
        found == is_special(chars.skip(from as int)),
{
    let ghost s = chars.skip(from as int);
    let n: usize = bytes.len() - from;
    if n == 3 {
        (letter(bytes[from], 105, Ghost(s[0]), Ghost('i')) && letter(
            bytes[from + 1],
            110,
            Ghost(s[1]),
            Ghost('n'),
        ) && letter(bytes[from + 2], 102, Ghost(s[2]), Ghost('f'))) || (letter(
            bytes[from],
            110,
            Ghost(s[0]),
            Ghost('n'),
        ) && letter(bytes[from + 1], 97, Ghost(s[1]), Ghost('a')) && letter(
            bytes[from + 2],
            110,
            Ghost(s[2]),
            Ghost('n'),
        ))
    } else if n == 8 {
        letter(bytes[from], 105, Ghost(s[0]), Ghost('i')) && letter(
            bytes[from + 1],
            110,
            Ghost(s[1]),
            Ghost('n'),
        ) && letter(bytes[from + 2], 102, Ghost(s[2]), Ghost('f')) && letter(
            bytes[from + 3],
            105,
            Ghost(s[3]),
            Ghost('i'),
        ) && letter(bytes[from + 4], 110, Ghost(s[4]), Ghost('n')) && letter(
            bytes[from + 5],
            105,
            Ghost(s[5]),
            Ghost('i'),
        ) && letter(bytes[from + 6], 116, Ghost(s[6]), Ghost('t')) && letter(
            bytes[from + 7],
            121,
            Ghost(s[7]),
            Ghost('y'),
        )
    } else {
        false
    }
}

fn exponent(bytes: &[u8], from: usize, Ghost(chars): Ghost<Seq<char>>) -> (found: bool)
    requires
        spelled(chars, bytes@),
        from <= bytes.len(),
    ensures
        found == is_exponent(chars.skip(from as int)),
{
    let ghost s = chars.skip(from as int);
    if from == bytes.len() {
        return false;
    }
    if bytes[from] != 101u8 && bytes[from] != 69u8 {
        return false;
    }
    let mut start: usize = from + 1;
    if start < bytes.len() && (bytes[start] == 43u8 || bytes[start] == 45u8) {
        start += 1;
    }
    assert(unsigned_part(s.skip(1)) =~= chars.skip(start as int));
    let stop: usize = skip_digits(bytes, start, Ghost(chars));
    start < bytes.len() && stop == bytes.len()
}

fn number(bytes: &[u8], from: usize, Ghost(chars): Ghost<Seq<char>>) -> (found: bool)
    requires
        spelled(chars, bytes@),
        from <= bytes.len(),
    ensures
        found == is_number(chars.skip(from as int)),
{
    let ghost s = chars.skip(from as int);
    let whole_end: usize = skip_digits(bytes, from, Ghost(chars));
    let ghost whole = digit_run(s);
    assert(s.skip(whole as int) =~= chars.skip(whole_end as int));
    let mut rest: usize = whole_end;
    let mut digits: usize = whole_end - from;
    if whole_end < bytes.len() && bytes[whole_end] == 46u8 {
        assert(chars.skip(whole_end as int).skip(1) =~= chars.skip(whole_end + 1));
        rest = skip_digits(bytes, whole_end + 1, Ghost(chars));
        let ghost fraction = digit_run(chars.skip(whole_end + 1));
        assert(chars.skip(whole_end as int).skip(1 + fraction as int) =~= chars.skip(rest as int));
        digits = digits + (rest - (whole_end + 1));
    }
    if digits == 0 {
        return false;
    }
    if rest == bytes.len() {
        return true;
    }
    exponent(bytes, rest, Ghost(chars))
}

/// A latitude or a longitude: a decimal literal, as the source wrote it.
#[derive(Debug, PartialEq, Eq)]
pub struct Coordinate {
    text: String,
}

impl View for Coordinate {
    type V = Seq<char>;

    closed spec fn view(&self) -> Seq<char> {
        self.text@
    }
}

impl Coordinate {
    #[verifier::type_invariant]
    spec fn well_formed(self) -> bool {
        is_decimal(self.text@)
    }

    /// Reads a coordinate out of attribute text.
    pub fn parse(raw: &str) -> (r: Result<Coordinate, Cause>)
        ensures
            match r {
                Ok(coordinate) => coordinate_of(raw@) == Ok::<Seq<char>, Cause>(coordinate@),
                Err(cause) => coordinate_of(raw@) == Err::<Seq<char>, Cause>(cause),
            },
    {
        broadcast use is_ascii_spec_bytes;

        let bytes = raw.as_bytes();
        if bytes.len() == 0 {
            proof {
                if raw@.len() > 0 {
                    lemma_encoding_injective(raw@, Seq::<char>::empty());
                }
            }
            return Err(Cause::Empty);
        }
        if !raw.is_ascii() {
            proof {
                if is_decimal(raw@) {
                    lemma_decimal_is_plain(raw@);
                }
            }
            return Err(Cause::InvalidDecimal);
        }
        let from: usize = if bytes[0] == 43u8 || bytes[0] == 45u8 {
            1
        } else {
            0
        };
        assert(unsigned_part(raw@) =~= raw@.skip(from as int));
        if special(bytes, from, Ghost(raw@)) || number(bytes, from, Ghost(raw@)) {
            Ok(Coordinate { text: raw.to_owned() })
        } else {
            Err(Cause::InvalidDecimal)
        }
    }

    /// The literal, which is a decimal one.
    pub fn as_str(&self) -> (text: &str)
        ensures
            text@ == self@,
            is_decimal(text@),
    {
        proof {
            use_type_invariant(self);
        }
        self.text.as_str()
    }
}

impl Clone for Coordinate {
    fn clone(&self) -> (copy: Coordinate)
        ensures
            copy@ == self@,
    {
        proof {
            use_type_invariant(self);
        }
        Coordinate { text: self.text.clone() }
    }
}

/// A decimal literal holds seven-bit characters only.
pub proof fn lemma_decimal_is_plain(s: Seq<char>)
    requires
        is_decimal(s),
    ensures
        is_ascii_chars(s),
{
    let body = unsigned_part(s);
    if !is_special(body) {
        lemma_number_is_plain(body);
    }
    assert forall|i: int| 0 <= i < s.len() implies '\0' <= #[trigger] s[i] <= '\u{7f}' by {
        if s[0] == '-' || s[0] == '+' {
            if i > 0 {
                assert(s[i] == body[i - 1]);
            }
        }
    }
}

/// A text that is all digits holds seven-bit characters only.
proof fn lemma_digits_are_plain(s: Seq<char>, n: nat)
    requires
        n <= digit_run(s),
    ensures
        n <= s.len(),
        forall|i: int| 0 <= i < n ==> is_digit(#[trigger] s[i]),
    decreases n,
{
    if n > 0 {
        lemma_digits_are_plain(s.skip(1), (n - 1) as nat);
        assert forall|i: int| 0 <= i < n implies is_digit(#[trigger] s[i]) by {
            if i > 0 {
                assert(s[i] == s.skip(1)[i - 1]);
            }
        }
    }
}

proof fn lemma_number_is_plain(s: Seq<char>)
    requires
        is_number(s),
    ensures
        is_ascii_chars(s),
{
    let whole = digit_run(s);
    lemma_digits_are_plain(s, whole);
    let tail = s.skip(whole as int);
    let point = tail.len() > 0 && tail[0] == '.';
    let fraction = if point {
        digit_run(tail.skip(1))
    } else {
        0
    };
    if point {
        lemma_digits_are_plain(tail.skip(1), fraction);
    }
    let rest = if point {
        tail.skip(1 + fraction as int)
    } else {
        tail
    };
    let before = s.len() - rest.len();
    if rest.len() > 0 {
        let digits = unsigned_part(rest.skip(1));
        lemma_digits_are_plain(digits, digits.len());
    }
    assert forall|i: int| 0 <= i < s.len() implies '\0' <= #[trigger] s[i] <= '\u{7f}' by {
        let j = i - before;
        if whole < i < before {
            assert(tail[i - whole] == tail.skip(1)[i - whole - 1]);
        } else if i >= before {
            if j > 0 {
                let exp = rest.skip(1);
                let digits = unsigned_part(exp);
                if exp.len() > 0 && (exp[0] == '-' || exp[0] == '+') {
                    if j > 1 {
                        assert(exp[j - 1] == digits[j - 2]);
                    }
                } else {
                    assert(exp[j - 1] == digits[j - 1]);
                }
            }
        }
    }
}

} // verus!
