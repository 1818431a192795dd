//! Small verified helpers over string contents.

use vstd::prelude::*;
use vstd::string::StrSliceExecFns;

verus! {

/// Whether two strings hold the same characters.
pub fn str_eq(a: &str, b: &str) -> (r: bool)
    ensures
        r == (a@ == b@),
{
    let n = a.unicode_len();
    if n != b.unicode_len() {
        return false;
    }
    let mut i: usize = 0;
    while i < n
        invariant
            n == a@.len(),
            n == b@.len(),
            i <= n,
            forall|j: int| 0 <= j < i ==> a@[j] == b@[j],
        decreases n - i,
    {
        if a.get_char(i) != b.get_char(i) {
            return false;
        }
        i = i + 1;
    }
    assert(a@ =~= b@);
    true
}

/// Whether `s` ends with `suffix`.
pub open spec fn spec_ends_with(s: Seq<char>, suffix: Seq<char>) -> bool {
    suffix.len() <= s.len() && s.subrange(s.len() - suffix.len(), s.len() as int) == suffix
}

/// Whether `s` ends with `suffix`.
pub fn ends_with(s: &str, suffix: &str) -> (r: bool)
    ensures
        r == spec_ends_with(s@, suffix@),
{
    let n = s.unicode_len();
    let m = suffix.unicode_len();
    if m > n {
        return false;
    }
    let off = n - m;
    let mut i: usize = 0;
    while i < m
        invariant
            n == s@.len(),
            m == suffix@.len(),
            off == n - m,
            i <= m,
            forall|j: int| 0 <= j < i ==> s@[off + j] == suffix@[j],
        decreases m - i,
    {
        if s.get_char(off + i) != suffix.get_char(i) {
            assert(s@.subrange(off as int, n as int)[i as int] != suffix@[i as int]);
            return false;
        }
        i = i + 1;
    }
    assert(s@.subrange(off as int, n as int) =~= suffix@);
    true
}

/// `i` is the position of the first `c` in `s`.
pub open spec fn is_first_char(s: Seq<char>, c: char, i: int) -> bool {
    0 <= i < s.len() && s[i] == c && forall|j: int| 0 <= j < i ==> s[j] != c
}

/// What follows the first `c` in `s`, if `s` holds a `c`.
pub open spec fn text_after(s: Seq<char>, c: char) -> Option<Seq<char>> {
    if exists|i: int| is_first_char(s, c, i) {
        let i = choose|i: int| is_first_char(s, c, i);
        Some(s.subrange(i + 1, s.len() as int))
    } else {
        None
    }
}

/// What follows the first `c` in `s`, if `s` holds a `c` (the second half of
/// `s.split_once(c)`).
pub fn split_after(s: &str, c: char) -> (r: Option<&str>)
    ensures
        match r {
            Some(t) => text_after(s@, c) == Some(t@),
            None => text_after(s@, c) is None,
        },
{
    let n = s.unicode_len();
    let mut i: usize = 0;
    while i < n
        invariant
            n == s@.len(),
            i <= n,
            forall|j: int| 0 <= j < i ==> s@[j] != c,
        decreases n - i,
    {
        if s.get_char(i) == c {
            proof {
                assert(is_first_char(s@, c, i as int));
                let k = choose|k: int| is_first_char(s@, c, k);
                assert(is_first_char(s@, c, k));
                if k < i {
                    assert(s@[k] != c);
                } else if i < k {
                    assert(s@[i as int] != c);
                }
            }
            return Some(s.substring_char(i + 1, n));
        }
        i = i + 1;
    }
    proof {
        assert forall|k: int| !is_first_char(s@, c, k) by {
            if 0 <= k < s@.len() {
                assert(s@[k] != c);
            }
        }
    }
    None
}

/// The value of digit `c` in base `radix` (at most ten), if it is one.
pub open spec fn digit_value(c: char, radix: int) -> Option<int> {
    if '0' <= c && c <= '9' && (c as int) - ('0' as int) < radix {
        Some((c as int) - ('0' as int))
    } else {
        None
    }
}

/// The value of a string of digits in base `radix`, if every character is a digit.
pub open spec fn digits_value(ds: Seq<char>, radix: int) -> Option<int>
    decreases ds.len(),
{
    if ds.len() == 0 {
        Some(0)
    } else {
        match (digits_value(ds.drop_last(), radix), digit_value(ds.last(), radix)) {
            (Some(h), Some(d)) => Some(h * radix + d),
            _ => None,
        }
    }
}

/// The integer written by `s` in base `radix`: an optional `+` sign (or `-` sign, when
/// `signed`) followed by at least one digit.
pub open spec fn int_literal(s: Seq<char>, radix: int, signed: bool) -> Option<int> {
    if s.len() == 0 {
        None
    } else if s[0] == '+' || (s[0] == '-' && signed) {
        let rest = s.subrange(1, s.len() as int);
        if rest.len() == 0 {
            None
        } else {
            match digits_value(rest, radix) {
                Some(v) => Some(if s[0] == '-' { -v } else { v }),
                None => None,
            }
        }
    } else {
        digits_value(s, radix)
    }
}

/// `o` holds a value in `[lo, hi]`.
pub open spec fn value_within(o: Option<int>, lo: int, hi: int) -> bool {
    match o {
        Some(v) => lo <= v <= hi,
        None => false,
    }
}

#[verifier::external_type_specification]
#[verifier::external_body]
pub struct ExParseIntError(std::num::ParseIntError);

/// `i64::from_str_radix(s, 2)`: by its documentation, the string must be an optional sign
/// followed by binary digits, and the value must fit in `i64`.
#[verifier::external_body]
pub(crate) fn parse_i64_binary(s: &str) -> (r: Result<i64, std::num::ParseIntError>)
    ensures
        r is Ok <==> value_within(int_literal(s@, 2, true), i64::MIN as int, i64::MAX as int),
        r matches Ok(v) ==> int_literal(s@, 2, true) == Some(v as int),
{
    i64::from_str_radix(s, 2)
}

/// `s.parse::<i64>()`: by its documentation, the string must be an optional sign followed by
/// decimal digits, and the value must fit in `i64`.
#[verifier::external_body]
pub(crate) fn parse_i64_decimal(s: &str) -> (r: Result<i64, std::num::ParseIntError>)
    ensures
        r is Ok <==> value_within(int_literal(s@, 10, true), i64::MIN as int, i64::MAX as int),
        r matches Ok(v) ==> int_literal(s@, 10, true) == Some(v as int),
{
    s.parse::<i64>()
}

/// `s.parse::<i8>()`: by its documentation, the string must be an optional sign followed by
/// decimal digits, and the value must fit in `i8`.
#[verifier::external_body]
pub(crate) fn parse_i8_decimal(s: &str) -> (r: Result<i8, std::num::ParseIntError>)
    ensures
        r is Ok <==> value_within(int_literal(s@, 10, true), i8::MIN as int, i8::MAX as int),
        r matches Ok(v) ==> int_literal(s@, 10, true) == Some(v as int),
{
    s.parse::<i8>()
}

/// `s.parse::<u32>()`: by its documentation, the string must be an optional `+` sign followed
/// by decimal digits, and the value must fit in `u32`.
#[verifier::external_body]
pub(crate) fn parse_u32_decimal(s: &str) -> (r: Result<u32, std::num::ParseIntError>)
    ensures
        r is Ok <==> value_within(int_literal(s@, 10, false), 0, u32::MAX as int),
        r matches Ok(v) ==> int_literal(s@, 10, false) == Some(v as int),
{
    s.parse::<u32>()
}

} // verus!
