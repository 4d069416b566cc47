use vstd::prelude::*;
use vstd::utf8::*;

verus! {

/// Every byte of `b` is ASCII.
pub open spec fn is_ascii_bytes(b: Seq<u8>) -> bool {
    forall|i: int| 0 <= i < b.len() ==> #[trigger] b[i] < 128
}

pub proof fn lemma_ascii_valid(b: Seq<u8>)
    requires
        is_ascii_bytes(b),
    ensures
        valid_utf8(b),
    decreases b.len(),
{
    if b.len() > 0 {
        let c = b[0];
        assert(c < 128);
        assert((c & 0x7f) <= 0x7f) by (bit_vector);
        let rest = b.subrange(1, b.len() as int);
        assert(is_ascii_bytes(rest)) by {
            assert forall|i: int| 0 <= i < rest.len() implies #[trigger] rest[i] < 128 by {
                assert(rest[i] == b[i + 1]);
            }
        }
        lemma_ascii_valid(rest);
        assert(pop_first_scalar(b) =~= rest);
    }
}

/// The decimal digits of `n`, most significant first.
pub open spec fn digits(n: nat) -> Seq<u8>
    decreases n,
{
    if n < 10 {
        seq![(48 + n) as u8]
    } else {
        digits(n / 10) + seq![(48 + n % 10) as u8]
    }
}

/// `v` written in decimal, with a `-` before a negative value.
pub open spec fn decimal(v: int) -> Seq<u8> {
    if v < 0 {
        seq![45u8] + digits((-v) as nat)
    } else {
        digits(v as nat)
    }
}

pub proof fn lemma_digits_ascii(n: nat)
    ensures
        is_ascii_bytes(digits(n)),
        digits(n).len() > 0,
    decreases n,
{
    if n >= 10 {
        lemma_digits_ascii(n / 10);
    }
}

pub proof fn lemma_decimal_valid(v: int)
    ensures
        valid_utf8(decimal(v)),
        is_ascii_bytes(decimal(v)),
        decimal(v).len() > 0,
{
    if v < 0 {
        lemma_digits_ascii((-v) as nat);
    } else {
        lemma_digits_ascii(v as nat);
    }
    lemma_ascii_valid(decimal(v));
}

/// Appends `s` to `out`.
pub fn append_bytes(out: &mut Vec<u8>, s: &[u8])
    ensures
        final(out)@ == old(out)@ + s@,
{
    let mut i: usize = 0;
    while i < s.len()
        invariant
            i <= s.len(),
            out@ == old(out)@ + s@.take(i as int),
        decreases s.len() - i,
    {
        out.push(s[i]);
        i += 1;
        assert(out@ =~= old(out)@ + s@.take(i as int));
    }
    assert(s@.take(s@.len() as int) =~= s@);
}

/// Appends `v` written in decimal to `out`.
pub fn append_decimal(out: &mut Vec<u8>, v: i128)
    requires
        v > i128::MIN,
    ensures
        final(out)@ == old(out)@ + decimal(v as int),
{
    let mut n: u128 = if v < 0 {
        (0 - v) as u128
    } else {
        v as u128
    };
    let ghost m = n as nat;
    let mut tail: Vec<u8> = Vec::new();
    assert(digits(m) =~= digits(n as nat) + tail@);
    while n >= 10
        invariant
            digits(m) == digits(n as nat) + tail@,
        decreases n,
    {
        let d = (48 + n % 10) as u8;
        let ghost before = tail@;
        tail.insert(0, d);
        assert(tail@ =~= seq![d] + before);
        assert(digits(n as nat) == digits((n / 10) as nat) + seq![d]);
        assert(digits(n as nat) + before =~= digits((n / 10) as nat) + tail@);
        n = n / 10;
    }
    let ghost before = tail@;
    tail.insert(0, (48 + n) as u8);
    assert(tail@ =~= digits(m));
    if v < 0 {
        out.push(45);
    }
    append_bytes(out, tail.as_slice());
    proof {
        assert(out@ =~= old(out)@ + decimal(v as int));
    }
}

} // verus!
