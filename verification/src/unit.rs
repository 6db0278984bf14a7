//! Parsing of byte-count strings with an optional unit suffix.
//!
//! A count is written as a non-negative decimal integer optionally followed by
//! one of the suffixes `kb` (×1000), `mb` (×1,000,000), `K` (×1024) or
//! `M` (×1,048,576). Suffixes are case-sensitive and tried in that fixed
//! order; the first match wins.

use vstd::prelude::*;

verus! {

/// Error returned when a byte-count string cannot be parsed.
#[derive(Clone, Copy, Debug, PartialEq, Eq, Structural)]
pub enum UnitParseError {
    /// After suffix removal the remaining text is not a non-negative decimal
    /// integer (optionally preceded by a single `+`).
    Invalid,
    /// The count is a valid integer but does not fit in `usize` after
    /// applying the suffix multiplier.
    Overflow,
}

/// A decimal digit `'0'..='9'`.
pub open spec fn is_dec_digit(c: char) -> bool {
    48 <= c as u32 <= 57
}

/// Numeric value of a decimal digit character.
pub open spec fn digit_val(c: char) -> nat {
    (c as u32 - 48) as nat
}

/// True when `s` is one or more decimal digits.
pub open spec fn dec_digits_ok(s: Seq<char>) -> bool {
    s.len() > 0 && forall|i: int| 0 <= i < s.len() ==> is_dec_digit(#[trigger] s[i])
}

/// Value of a digit string read in base 10.
pub open spec fn dec_value(s: Seq<char>) -> nat
    decreases s.len(),
{
    if s.len() == 0 {
        0
    } else {
        dec_value(s.drop_last()) * 10 + digit_val(s.last())
    }
}

/// The digit part of an integer string: a single leading `+` is dropped.
pub open spec fn unsigned_body(s: Seq<char>) -> Seq<char> {
    if s.len() > 0 && s[0] == '+' {
        s.drop_first()
    } else {
        s
    }
}

/// True when `s` is a valid non-negative integer string: an optional `+`
/// followed by one or more decimal digits.
pub open spec fn uint_str_ok(s: Seq<char>) -> bool {
    dec_digits_ok(unsigned_body(s))
}

/// Value of a valid non-negative integer string.
pub open spec fn uint_str_value(s: Seq<char>) -> nat {
    dec_value(unsigned_body(s))
}

/// True when `s` ends with the two characters `a`, `b`.
pub open spec fn ends_with_2(s: Seq<char>, a: char, b: char) -> bool {
    s.len() >= 2 && s[s.len() - 2] == a && s[s.len() - 1] == b
}

/// True when `s` ends with the character `a`.
pub open spec fn ends_with_1(s: Seq<char>, a: char) -> bool {
    s.len() >= 1 && s[s.len() - 1] == a
}

/// Splits off the recognized unit suffix, if any, returning the remaining
/// prefix and the suffix's multiplier. The suffixes are tried in the fixed
/// order `kb`, `mb`, `K`, `M`; no match leaves the string whole with
/// multiplier 1.
pub open spec fn split_suffix(s: Seq<char>) -> (Seq<char>, nat) {
    if ends_with_2(s, 'k', 'b') {
        (s.take(s.len() - 2), 1000nat)
    } else if ends_with_2(s, 'm', 'b') {
        (s.take(s.len() - 2), 1000000nat)
    } else if ends_with_1(s, 'K') {
        (s.take(s.len() - 1), 1024nat)
    } else if ends_with_1(s, 'M') {
        (s.take(s.len() - 1), 1048576nat)
    } else {
        (s, 1nat)
    }
}

/// What `parse_unit` returns: the prefix before the suffix must be a valid
/// non-negative integer, and the value times the suffix multiplier must fit
/// in `usize`.
pub open spec fn parse_unit_spec(s: Seq<char>) -> Result<usize, UnitParseError> {
    let (body, factor) = split_suffix(s);
    if !uint_str_ok(body) {
        Err(UnitParseError::Invalid)
    } else if uint_str_value(body) * factor > usize::MAX {
        Err(UnitParseError::Overflow)
    } else {
        Ok((uint_str_value(body) * factor) as usize)
    }
}

/// Parsing is a pure function of the text: any two results that meet the
/// parser's contract for the same characters are equal.
pub proof fn lemma_parse_unit_deterministic(
    s: Seq<char>,
    r1: Result<usize, UnitParseError>,
    r2: Result<usize, UnitParseError>,
)
    requires
        r1 == parse_unit_spec(s),
        r2 == parse_unit_spec(s),
    ensures
        r1 == r2,
{
}

/// Collects the characters of a string into a vector.
fn chars_of(input: &str) -> (v: Vec<char>)
    ensures
        v@ == input@,
{
    broadcast use vstd::string::axiom_spec_iter;

    let mut v: Vec<char> = Vec::new();
    for c in it: input.chars()
        invariant
            v@ == it.seq().take(it.index() as int),
    {
        v.push(c);
        proof {
            assert(v@ =~= it.seq().take(it.index() + 1));
        }
    }
    proof {
        assert(v@ =~= input@);
    }
    v
}

/// The value of a digit string never shrinks when digits are appended.
proof fn lemma_dec_value_prefix_le(s: Seq<char>, j: int)
    requires
        0 <= j <= s.len(),
    ensures
        dec_value(s.take(j)) <= dec_value(s),
    decreases s.len(),
{
    if j == s.len() {
        assert(s.take(j) =~= s);
    } else {
        lemma_dec_value_prefix_le(s.drop_last(), j);
        assert(s.drop_last().take(j) =~= s.take(j));
    }
}

/// For a divisor `f >= 1`, the test `a > m / f` decides whether `a * f`
/// exceeds `m`.
proof fn lemma_div_mul_check(a: nat, f: nat, m: nat)
    requires
        1 <= f,
    ensures
        a > m / f <==> a * f > m,
{
    let q: nat = m / f;
    let r: nat = m % f;
    vstd::arithmetic::div_mod::lemma_fundamental_div_mod(m as int, f as int);
    if a > q {
        assert(a * f > m) by (nonlinear_arith)
            requires
                a > q,
                m == f * q + r,
                r < f,
                1 <= f,
        ;
    } else {
        assert(a * f <= m) by (nonlinear_arith)
            requires
                a <= q,
                m == f * q + r,
                0 <= r,
                1 <= f,
        ;
    }
}

/// Parses the decimal digits `v[start..end]` (all of which must be digits)
/// into their base-10 value, reporting overflow past `usize::MAX`.
fn parse_digits(v: &Vec<char>, start: usize, end: usize) -> (r: Result<usize, UnitParseError>)
    requires
        start <= end <= v@.len(),
        dec_digits_ok(v@.subrange(start as int, end as int)),
    ensures
        ({
            let value = dec_value(v@.subrange(start as int, end as int));
            match r {
                Ok(n) => value <= usize::MAX && n == value,
                Err(e) => e == UnitParseError::Overflow && value > usize::MAX,
            }
        }),
{
    let ghost digits = v@.subrange(start as int, end as int);
    let mut acc: usize = 0;
    let mut i: usize = start;
    while i < end
        invariant
            start <= i <= end <= v@.len(),
            dec_digits_ok(digits),
            digits == v@.subrange(start as int, end as int),
            acc == dec_value(v@.subrange(start as int, i as int)),
        decreases end - i,
    {
        let cv: u32 = v[i] as u32;
        proof {
            assert(digits[i - start] == v@[i as int]);
        }
        let d: usize = (cv - 48) as usize;
        proof {
            let sub1 = v@.subrange(start as int, i + 1);
            assert(sub1.drop_last() =~= v@.subrange(start as int, i as int));
            assert(dec_value(sub1) == acc * 10 + d);
            lemma_div_mul_check(acc as nat, 10, (usize::MAX - d) as nat);
        }
        if acc > (usize::MAX - d) / 10 {
            proof {
                lemma_dec_value_prefix_le(digits, i + 1 - start);
                assert(digits.take(i + 1 - start) =~= v@.subrange(start as int, i + 1));
            }
            return Err(UnitParseError::Overflow);
        }
        acc = acc * 10 + d;
        i += 1;
    }
    proof {
        assert(v@.subrange(start as int, i as int) =~= digits);
    }
    Ok(acc)
}

/// Parses a non-negative byte count written as decimal digits with an
/// optional unit suffix: `kb` means 1000, `mb` means 1,000,000, `K` means
/// 1024 and `M` means 1,048,576; bare digits mean literal bytes. The
/// suffixes are case-sensitive and tried in that fixed order.
pub fn parse_unit(input: &str) -> (r: Result<usize, UnitParseError>)
    ensures
        r == parse_unit_spec(input@),
{
    let v = chars_of(input);
    let n: usize = v.len();
    let ghost s = input@;
    let (end, factor): (usize, usize) = if n >= 2 && v[n - 1] == 'b' && v[n - 2] == 'k' {
        (n - 2, 1000)
    } else if n >= 2 && v[n - 1] == 'b' && v[n - 2] == 'm' {
        (n - 2, 1000000)
    } else if n >= 1 && v[n - 1] == 'K' {
        (n - 1, 1024)
    } else if n >= 1 && v[n - 1] == 'M' {
        (n - 1, 1048576)
    } else {
        (n, 1)
    };
    let ghost body = split_suffix(s).0;
    proof {
        assert(body =~= s.take(end as int));
        assert(split_suffix(s).1 == factor as nat);
    }

    let start: usize = if end > 0 && v[0] == '+' {
        1
    } else {
        0
    };
    proof {
        assert(unsigned_body(body) =~= s.subrange(start as int, end as int));
    }
    if start >= end {
        return Err(UnitParseError::Invalid);
    }

    let mut i: usize = start;
    while i < end
        invariant
            start <= i <= end <= v@.len(),
            v@ == s,
            s == input@,
            unsigned_body(split_suffix(s).0) == s.subrange(start as int, end as int),
            forall|j: int| start <= j < i ==> is_dec_digit(#[trigger] s[j]),
        decreases end - i,
    {
        let cv: u32 = v[i] as u32;
        if cv < 48 || cv > 57 {
            proof {
                assert(s.subrange(start as int, end as int)[i - start] == s[i as int]);
            }
            return Err(UnitParseError::Invalid);
        }
        i += 1;
    }
    proof {
        assert(forall|j: int|
            0 <= j < end - start ==> is_dec_digit(
                #[trigger] s.subrange(start as int, end as int)[j],
            ));
    }

    let value = match parse_digits(&v, start, end) {
        Ok(value) => value,
        Err(e) => {
            proof {
                assert(uint_str_value(body) * factor >= uint_str_value(body) * 1)
                    by (nonlinear_arith)
                    requires
                        factor >= 1,
                ;
            }
            return Err(e);
        },
    };
    proof {
        lemma_div_mul_check(value as nat, factor as nat, usize::MAX as nat);
    }
    if value > usize::MAX / factor {
        Err(UnitParseError::Overflow)
    } else {
        Ok(value * factor)
    }
}

} // verus!
