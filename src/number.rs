use vstd::prelude::*;

verus! {

pub open spec fn is_digit(c: u8) -> bool {
    48 <= c <= 57
}

pub open spec fn all_digits(s: Seq<u8>) -> bool {
    forall|i: int| 0 <= i < s.len() ==> is_digit(#[trigger] s[i])
}

/// The value of a run of decimal digits.
pub open spec fn digits_value(s: Seq<u8>) -> nat
    decreases s.len(),
{
    if s.len() == 0 {
        0
    } else {
        digits_value(s.drop_last()) * 10 + (s.last() - 48) as nat
    }
}

pub open spec fn is_negative(s: Seq<u8>, signed: bool) -> bool {
    signed && s.len() > 0 && s[0] == 45
}

/// `s` without its sign.
pub open spec fn decimal_body(s: Seq<u8>, signed: bool) -> Seq<u8> {
    if s.len() > 0 && (s[0] == 43 || is_negative(s, signed)) {
        s.subrange(1, s.len() as int)
    } else {
        s
    }
}

/// The integer that `s` spells in decimal: digits after an optional `+`, or
/// after an optional `-` where `signed` holds.
pub open spec fn decimal_value(s: Seq<u8>, signed: bool) -> Option<int> {
    let neg = is_negative(s, signed);
    let body = decimal_body(s, signed);
    if body.len() > 0 && all_digits(body) {
        Some(
            if neg {
                -digits_value(body)
            } else {
                digits_value(body) as int
            },
        )
    } else {
        None
    }
}

/// The value that `s` spells, where it lies in `lo ..= hi`.
pub open spec fn number_in(s: Seq<u8>, signed: bool, lo: int, hi: int) -> Option<int> {
    match decimal_value(s, signed) {
        Some(v) => if lo <= v <= hi {
            Some(v)
        } else {
            None
        },
        None => None,
    }
}

/// Reads a decimal integer that must lie in `lo ..= hi`.
fn parse_decimal(s: &[u8], signed: bool, lo: i128, hi: i128) -> (r: Option<i128>)
    requires
        -0x1_0000_0000_0000_0000 <= lo <= 0 <= hi <= 0x1_0000_0000_0000_0000,
    ensures
        match number_in(s@, signed, lo as int, hi as int) {
            Some(v) => r == Some(v as i128),
            None => r is None,
        },
{
    let n = s.len();
    let neg = signed && n > 0 && s[0] == 45;
    let start: usize = if n > 0 && (s[0] == 43 || neg) {
        1
    } else {
        0
    };
    let ghost body = decimal_body(s@, signed);
    assert(body =~= s@.subrange(start as int, n as int));
    if start >= n {
        return None;
    }
    let bound: u128 = if neg {
        (0 - lo) as u128
    } else {
        hi as u128
    };
    let mut acc: u128 = 0;
    let mut i: usize = start;
    while i < n
        invariant
            start <= i <= n,
            n == s.len(),
            body == s@.subrange(start as int, n as int),
            body == decimal_body(s@, signed),
            neg == is_negative(s@, signed),
            bound <= 0x1_0000_0000_0000_0000,
            all_digits(body.take(i - start)),
            acc == if digits_value(body.take(i - start)) > bound {
                bound + 1
            } else {
                digits_value(body.take(i - start)) as int
            },
        decreases n - i,
    {
        let c = s[i];
        if c < 48 || c > 57 {
            assert(body[i - start] == c);
            assert(!is_digit(body[i - start]));
            assert(!all_digits(body));
            return None;
        }
        let ghost prev = body.take(i - start);
        let ghost next = body.take(i - start + 1);
        assert(next.drop_last() =~= prev);
        assert(next.last() == c);
        let d = (c - 48) as u128;
        if acc <= bound {
            acc = acc * 10 + d;
            if acc > bound {
                acc = bound + 1;
            }
        } else {
            assert(digits_value(next) > bound) by (nonlinear_arith)
                requires
                    digits_value(next) == digits_value(prev) * 10 + d,
                    digits_value(prev) > bound,
            ;
        }
        i = i + 1;
    }
    assert(body.take(n - start) =~= body);
    if acc > bound {
        None
    } else if neg {
        Some(0 - (acc as i128))
    } else {
        Some(acc as i128)
    }
}

/// Reads an `i32` in decimal, as `str::parse` does.
pub fn parse_i32(s: &[u8]) -> (r: Option<i32>)
    ensures
        match number_in(s@, true, i32::MIN as int, i32::MAX as int) {
            Some(v) => r == Some(v as i32),
            None => r is None,
        },
{
    match parse_decimal(s, true, i32::MIN as i128, i32::MAX as i128) {
        Some(v) => Some(v as i32),
        None => None,
    }
}

/// Reads a `usize` in decimal, as `str::parse` does.
pub fn parse_usize(s: &[u8]) -> (r: Option<usize>)
    ensures
        match number_in(s@, false, 0, usize::MAX as int) {
            Some(v) => r == Some(v as usize),
            None => r is None,
        },
{
    match parse_decimal(s, false, 0, usize::MAX as i128) {
        Some(v) => Some(v as usize),
        None => None,
    }
}

/// Reads an `isize` in decimal, as `str::parse` does.
pub fn parse_isize(s: &[u8]) -> (r: Option<isize>)
    ensures
        match number_in(s@, true, isize::MIN as int, isize::MAX as int) {
            Some(v) => r == Some(v as isize),
            None => r is None,
        },
{
    match parse_decimal(s, true, isize::MIN as i128, isize::MAX as i128) {
        Some(v) => Some(v as isize),
        None => None,
    }
}

} // verus!
