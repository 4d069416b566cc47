use vstd::prelude::*;

use crate::error::ParseError;

verus! {

pub open spec fn is_octal(c: u8) -> bool {
    48 <= c <= 55
}

/// The byte that the escape `\abc` stands for: the base-8 value of the three
/// digits, kept to its low eight bits.
pub open spec fn escape_byte(a: u8, b: u8, c: u8) -> u8 {
    (((a - 48) * 64 + (b - 48) * 8 + (c - 48)) % 256) as u8
}

/// `p` put in front of a decoded tail, or the tail's error.
pub open spec fn prepend(p: Seq<u8>, r: Result<Seq<u8>, ParseError>) -> Result<Seq<u8>, ParseError> {
    match r {
        Ok(t) => Ok(p + t),
        Err(e) => Err(e),
    }
}

/// A field with each backslash-octal escape replaced by the byte it encodes.
pub open spec fn decode(s: Seq<u8>) -> Result<Seq<u8>, ParseError>
    decreases s.len(),
{
    if s.len() == 0 {
        Ok(seq![])
    } else if s[0] == 92 {
        if s.len() < 2 {
            Err(ParseError::TruncatedEscape)
        } else if !is_octal(s[1]) {
            Err(ParseError::InvalidEscapeDigit)
        } else if s.len() < 3 {
            Err(ParseError::TruncatedEscape)
        } else if !is_octal(s[2]) {
            Err(ParseError::InvalidEscapeDigit)
        } else if s.len() < 4 {
            Err(ParseError::TruncatedEscape)
        } else if !is_octal(s[3]) {
            Err(ParseError::InvalidEscapeDigit)
        } else {
            prepend(seq![escape_byte(s[1], s[2], s[3])], decode(s.subrange(4, s.len() as int)))
        }
    } else {
        prepend(seq![s[0]], decode(s.subrange(1, s.len() as int)))
    }
}

/// Decoding fails only with an escape error.
pub proof fn lemma_decode_errors(s: Seq<u8>)
    ensures
        decode(s) is Err ==> decode(s)->Err_0 == ParseError::TruncatedEscape || decode(s)->Err_0
            == ParseError::InvalidEscapeDigit,
    decreases s.len(),
{
    if s.len() >= 4 {
        lemma_decode_errors(s.subrange(4, s.len() as int));
    }
    if s.len() >= 1 {
        lemma_decode_errors(s.subrange(1, s.len() as int));
    }
}

proof fn lemma_prepend_prepend(a: Seq<u8>, b: Seq<u8>, r: Result<Seq<u8>, ParseError>)
    ensures
        prepend(a, prepend(b, r)) == prepend(a + b, r),
{
    if let Ok(t) = r {
        assert(a + (b + t) =~= (a + b) + t);
    }
}

fn octal_digit(c: u8) -> (r: Option<u32>)
    ensures
        r is Some <==> is_octal(c),
        r is Some ==> r->0 == c - 48,
{
    if 48 <= c && c <= 55 {
        Some((c - 48) as u32)
    } else {
        None
    }
}

/// Decodes the backslash-octal escapes of one field.
pub fn decode_value(s: &[u8]) -> (r: Result<Vec<u8>, ParseError>)
    ensures
        match decode(s@) {
            Ok(t) => r is Ok && r->Ok_0@ == t,
            Err(e) => r == Err::<Vec<u8>, ParseError>(e),
        },
{
    let mut out: Vec<u8> = Vec::new();
    let mut i: usize = 0;
    let n = s.len();
    assert(s@.subrange(0, n as int) =~= s@);
    assert(out@ + Seq::<u8>::empty() =~= Seq::<u8>::empty());
    proof {
        lemma_prepend_prepend(seq![], seq![], decode(s@));
        if let Ok(t) = decode(s@) {
            assert(Seq::<u8>::empty() + t =~= t);
        }
    }
    while i < n
        invariant
            n == s.len(),
            i <= n,
            decode(s@) == prepend(out@, decode(s@.subrange(i as int, n as int))),
        decreases n - i,
    {
        let ghost rest = s@.subrange(i as int, n as int);
        let b = s[i];
        if b == 92 {
            if i + 1 >= n {
                return Err(ParseError::TruncatedEscape);
            }
            let d1 = match octal_digit(s[i + 1]) {
                Some(d) => d,
                None => return Err(ParseError::InvalidEscapeDigit),
            };
            if i + 2 >= n {
                return Err(ParseError::TruncatedEscape);
            }
            let d2 = match octal_digit(s[i + 2]) {
                Some(d) => d,
                None => return Err(ParseError::InvalidEscapeDigit),
            };
            if i + 3 >= n {
                return Err(ParseError::TruncatedEscape);
            }
            let d3 = match octal_digit(s[i + 3]) {
                Some(d) => d,
                None => return Err(ParseError::InvalidEscapeDigit),
            };
            let code: u32 = d1 * 64 + d2 * 8 + d3;
            let byte = (code % 256) as u8;
            proof {
                assert(rest[0] == b && rest[1] == s@[i + 1] && rest[2] == s@[i + 2] && rest[3] == s@[i + 3]);
                assert(rest.subrange(4, rest.len() as int) =~= s@.subrange(i + 4, n as int));
                assert(byte == escape_byte(rest[1], rest[2], rest[3]));
                lemma_prepend_prepend(out@, seq![byte], decode(s@.subrange(i + 4, n as int)));
            }
            let ghost prev = out@;
            out.push(byte);
            proof {
                assert(out@ =~= prev + seq![byte]);
            }
            i = i + 4;
        } else {
            proof {
                assert(rest[0] == b);
                assert(rest.subrange(1, rest.len() as int) =~= s@.subrange(i + 1, n as int));
                lemma_prepend_prepend(out@, seq![b], decode(s@.subrange(i + 1, n as int)));
            }
            let ghost prev = out@;
            out.push(b);
            proof {
                assert(out@ =~= prev + seq![b]);
            }
            i = i + 1;
        }
    }
    proof {
        assert(s@.subrange(n as int, n as int) =~= Seq::<u8>::empty());
        assert(out@ + Seq::<u8>::empty() =~= out@);
    }
    Ok(out)
}

/// A backslash and three octal digits decode to the one byte of the digits'
/// base-8 value, kept to its low eight bits.
pub proof fn lemma_octal_escape(a: u8, b: u8, c: u8)
    requires
        is_octal(a),
        is_octal(b),
        is_octal(c),
    ensures
        decode(seq![92u8, a, b, c]) == Ok::<Seq<u8>, ParseError>(seq![escape_byte(a, b, c)]),
        escape_byte(a, b, c) as int == ((a - 48) * 64 + (b - 48) * 8 + (c - 48)) % 256,
{
    let s = seq![92u8, a, b, c];
    assert(s[0] == 92 && s[1] == a && s[2] == b && s[3] == c);
    assert(s.subrange(4, 4) =~= Seq::<u8>::empty());
    assert(decode(s.subrange(4, 4)) == Ok::<Seq<u8>, ParseError>(seq![]));
    assert(seq![escape_byte(a, b, c)] + Seq::<u8>::empty() =~= seq![escape_byte(a, b, c)]);
}

/// The escape `\NNN` of one repeated octal digit `N` decodes to the byte
/// `N*64 + N*8 + N`, which for the digits 4 to 7 exceeds a byte and keeps its
/// low eight bits.
pub proof fn lemma_repeated_digit_escape(n: u8)
    requires
        n <= 7,
    ensures
        decode(seq![92u8, (48 + n) as u8, (48 + n) as u8, (48 + n) as u8]) == Ok::<
            Seq<u8>,
            ParseError,
        >(seq![((n * 64 + n * 8 + n) % 256) as u8]),
        n <= 3 ==> decode(seq![92u8, (48 + n) as u8, (48 + n) as u8, (48 + n) as u8]) == Ok::<
            Seq<u8>,
            ParseError,
        >(seq![(n * 64 + n * 8 + n) as u8]),
{
    let d = (48 + n) as u8;
    lemma_octal_escape(d, d, d);
}

/// A backslash whose first `k` following bytes are octal digits fails with
/// a truncated escape where nothing follows them, and with an invalid digit
/// where the next byte is no octal digit.
pub proof fn lemma_bad_escape(t: Seq<u8>, k: int)
    requires
        0 <= k < 3,
        k <= t.len(),
        forall|i: int| 0 <= i < k ==> is_octal(#[trigger] t[i]),
    ensures
        k == t.len() ==> decode(seq![92u8] + t) == Err::<Seq<u8>, ParseError>(
            ParseError::TruncatedEscape,
        ),
        k < t.len() && !is_octal(t[k]) ==> decode(seq![92u8] + t) == Err::<Seq<u8>, ParseError>(
            ParseError::InvalidEscapeDigit,
        ),
{
    let s = seq![92u8] + t;
    assert(s[0] == 92);
    assert forall|i: int| 0 <= i < t.len() implies s[i + 1] == t[i] by {}
    if k >= 1 {
        assert(s[1] == t[0]);
    }
    if k >= 2 {
        assert(s[2] == t[1]);
    }
    if k < t.len() {
        assert(s[k + 1] == t[k]);
    }
}

} // verus!
