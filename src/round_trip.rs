use vstd::prelude::*;
use vstd::utf8::*;

use crate::escape::decode;
use crate::format::{decimal, digits, lemma_digits_ascii};
use crate::info::{column_number, joined, mount_line, mount_text, options_text, MountRecord};
use crate::number::{all_digits, decimal_body, digits_value, is_digit, number_in};
use crate::text::{
    fields, fields_from, lemma_fields_shape, lemma_pieces_nonempty, lemma_token_end, no_blank, pieces,
    token_end, ws_at,
};

verus! {

/// `s` holds neither a whitespace character nor a backslash, so that it is written
/// into a table line as it stands.
pub open spec fn plain_path(s: Seq<u8>) -> bool {
    no_blank(s) && forall|i: int| 0 <= i < s.len() ==> #[trigger] s[i] != 92
}

proof fn lemma_fields_shift(x: Seq<u8>, y: Seq<u8>, j: int)
    requires
        0 <= j <= y.len(),
    ensures
        fields_from(x + seq![32u8] + y, x.len() + 1 + j) == fields_from(y, j),
        token_end(x + seq![32u8] + y, x.len() + 1 + j) == x.len() + 1 + token_end(y, j),
    decreases y.len() - j,
{
    let w = x + seq![32u8] + y;
    let n = x.len() as int;
    assert forall|k: int| 0 <= k < y.len() implies w[n + 1 + k] == y[k] by {}
    assert(ws_at(w, n + 1 + j) == ws_at(y, j));
    if j < y.len() {
        if ws_at(y, j) > 0 {
            lemma_fields_shift(x, y, j + ws_at(y, j));
        } else {
            lemma_fields_shift(x, y, j + 1);
            lemma_token_end(y, j);
            lemma_token_end(w, n + 1 + j);
            let e = token_end(y, j);
            lemma_fields_shift(x, y, e);
            assert(w.subrange(n + 1 + j, n + 1 + e) =~= y.subrange(j, e));
        }
    }
}

proof fn lemma_fields_prefix(x: Seq<u8>, y: Seq<u8>, i: int)
    requires
        0 <= i <= x.len(),
    ensures
        fields_from(x + seq![32u8] + y, i) == fields_from(x, i) + fields(y),
        token_end(x + seq![32u8] + y, i) == token_end(x, i),
    decreases x.len() - i,
{
    let w = x + seq![32u8] + y;
    let n = x.len() as int;
    assert forall|k: int| 0 <= k < n implies w[k] == x[k] by {}
    assert(w[n] == 32);
    if i == n {
        lemma_fields_shift(x, y, 0);
        assert(fields_from(x, n) =~= Seq::<Seq<u8>>::empty());
        assert(fields_from(w, n) == fields_from(w, n + 1));
        assert(fields_from(x, i) + fields(y) =~= fields(y));
    } else {
        assert(ws_at(w, i) == ws_at(x, i));
        if ws_at(x, i) > 0 {
            lemma_fields_prefix(x, y, i + ws_at(x, i));
        } else {
            lemma_fields_prefix(x, y, i + 1);
            lemma_token_end(x, i);
            let e = token_end(x, i);
            lemma_fields_prefix(x, y, e);
            assert(w.subrange(i, e) =~= x.subrange(i, e));
            assert(fields_from(w, i) =~= fields_from(x, i) + fields(y));
        }
    }
}

proof fn lemma_fields_concat(x: Seq<u8>, y: Seq<u8>)
    ensures
        fields(x + seq![32u8] + y) == fields(x) + fields(y),
{
    lemma_fields_prefix(x, y, 0);
}

proof fn lemma_fields_single(t: Seq<u8>)
    requires
        t.len() > 0,
        no_blank(t),
    ensures
        fields(t) == seq![t],
{
    lemma_token_end(t, 0);
    assert(ws_at(t, 0) == 0);
    let e = token_end(t, 0);
    if e < t.len() {
        assert(ws_at(t, e) == 0);
    }
    assert(t.subrange(0, t.len() as int) =~= t);
    assert(fields_from(t, t.len() as int) =~= Seq::<Seq<u8>>::empty());
    assert(fields(t) =~= seq![t]);
}

proof fn lemma_decode_plain(t: Seq<u8>)
    requires
        forall|i: int| 0 <= i < t.len() ==> #[trigger] t[i] != 92,
    ensures
        decode(t) == Ok::<Seq<u8>, crate::error::ParseError>(t),
    decreases t.len(),
{
    if t.len() > 0 {
        let r = t.subrange(1, t.len() as int);
        assert forall|i: int| 0 <= i < r.len() implies #[trigger] r[i] != 92 by {
            assert(r[i] == t[i + 1]);
        }
        lemma_decode_plain(r);
        assert(seq![t[0]] + r =~= t);
    } else {
        assert(t =~= Seq::<u8>::empty());
    }
}

proof fn lemma_decode_nonempty(s: Seq<u8>)
    requires
        s.len() > 0,
        decode(s) is Ok,
    ensures
        decode(s)->Ok_0.len() > 0,
{
}

proof fn lemma_digits_value(n: nat)
    ensures
        all_digits(digits(n)),
        digits_value(digits(n)) == n,
    decreases n,
{
    if n >= 10 {
        lemma_digits_value(n / 10);
        let d = digits(n);
        assert(d.drop_last() =~= digits(n / 10));
        assert(d.last() == (48 + n % 10) as u8);
        assert(digits_value(d) == digits_value(digits(n / 10)) * 10 + n % 10);
        assert((n / 10) * 10 + n % 10 == n);
        assert forall|i: int| 0 <= i < d.len() implies is_digit(#[trigger] d[i]) by {
            if i < d.len() - 1 {
                assert(d[i] == digits(n / 10)[i]);
            }
        }
    } else {
        assert(digits(n).drop_last() =~= Seq::<u8>::empty());
        assert(digits(n).last() == (48 + n) as u8);
        assert(digits_value(Seq::<u8>::empty()) == 0);
    }
}

proof fn lemma_decimal_number(v: int)
    requires
        i32::MIN <= v <= i32::MAX,
    ensures
        number_in(decimal(v), true, i32::MIN as int, i32::MAX as int) == Some(v),
        decimal(v).len() > 0,
        no_blank(decimal(v)),
{
    let t = decimal(v);
    if v < 0 {
        lemma_digits_value((-v) as nat);
        lemma_digits_ascii((-v) as nat);
        assert(t.subrange(1, t.len() as int) =~= digits((-v) as nat));
        assert(decimal_body(t, true) =~= digits((-v) as nat));
        assert forall|i: int| 0 <= i < t.len() implies #[trigger] ws_at(t, i) == 0 by {
            if i > 0 {
                assert(t[i] == digits((-v) as nat)[i - 1]);
                assert(is_digit(t[i]));
            }
        }
    } else {
        lemma_digits_value(v as nat);
        lemma_digits_ascii(v as nat);
        assert(is_digit(t[0]));
        assert(decimal_body(t, true) == t);
        assert forall|i: int| 0 <= i < t.len() implies #[trigger] ws_at(t, i) == 0 by {
            assert(is_digit(t[i]));
        }
    }
}

proof fn lemma_joined_pieces(s: Seq<u8>)
    ensures
        joined(pieces(s, 44)) == s,
    decreases s.len(),
{
    if s.len() == 0 {
        assert(pieces(s, 44) =~= seq![Seq::<u8>::empty()]);
        assert(s =~= Seq::<u8>::empty());
    } else {
        let si = s.drop_last();
        lemma_joined_pieces(si);
        lemma_pieces_nonempty(si, 44);
        let p = pieces(si, 44);
        let c = s.last();
        if c == 44 {
            let q = p.push(seq![]);
            assert(q.drop_last() =~= p);
            assert(q.last() =~= Seq::<u8>::empty());
            assert(si.push(c) =~= s);
            assert(joined(q) == joined(p) + seq![44u8] + Seq::<u8>::empty());
            assert(joined(q) =~= s);
        } else {
            let q = p.update(p.len() - 1, p.last().push(c));
            assert(si.push(c) =~= s);
            assert(q.last() == p.last().push(c));
            if p.len() == 1 {
                assert(joined(p) == p[0]);
                assert(joined(q) == q[0]);
            } else {
                assert(q.drop_last() =~= p.drop_last());
                assert(joined(p) == joined(p.drop_last()) + seq![44u8] + p.last());
                assert(joined(q) == joined(p.drop_last()) + seq![44u8] + p.last().push(c));
                assert(joined(p.drop_last()) + seq![44u8] + p.last().push(c) =~= (joined(p.drop_last())
                    + seq![44u8] + p.last()).push(c));
            }
        }
    }
}

/// Writing out a record that a mount line parses to gives a line that parses
/// to the same record: the option order is kept and the absent numbers come
/// back as the zeros they were read as. This holds where the record's paths
/// hold no blank and no backslash, which the written form does not escape.
pub proof fn lemma_round_trip(line: Seq<u8>)
    requires
        mount_line(line) is Ok,
        plain_path(mount_line(line)->Ok_0.source),
        plain_path(mount_line(line)->Ok_0.dest),
    ensures
        mount_line(mount_text(mount_line(line)->Ok_0)) == mount_line(line),
{
    reveal(mount_line);
    let m = mount_line(line)->Ok_0;
    let f = fields(line);
    lemma_fields_shape(line);
    assert(f[0].len() > 0 && f[1].len() > 0 && f[2].len() > 0 && f[3].len() > 0);
    assert(no_blank(f[2]) && no_blank(f[3]));
    lemma_decode_nonempty(f[0]);
    lemma_decode_nonempty(f[1]);
    lemma_joined_pieces(f[3]);
    lemma_pieces_nonempty(f[3], 44);
    assert(options_text(m.options) == f[3]);
    lemma_decimal_number(m.dump as int);
    lemma_decimal_number(m.pass as int);
    let sp = seq![32u8];
    let o = options_text(m.options);
    let dd = decimal(m.dump as int);
    let pp = decimal(m.pass as int);
    let a1 = m.source;
    let a2 = a1 + sp + m.dest;
    let a3 = a2 + sp + m.fstype;
    let a4 = a3 + sp + o;
    let a5 = a4 + sp + dd;
    let a6 = a5 + sp + pp;
    assert(a6 == mount_text(m));
    lemma_fields_single(m.source);
    lemma_fields_single(m.dest);
    lemma_fields_single(m.fstype);
    lemma_fields_single(o);
    lemma_fields_single(dd);
    lemma_fields_single(pp);
    lemma_fields_concat(a1, m.dest);
    lemma_fields_concat(a2, m.fstype);
    lemma_fields_concat(a3, o);
    lemma_fields_concat(a4, dd);
    lemma_fields_concat(a5, pp);
    let g = fields(a6);
    assert(g =~= seq![m.source, m.dest, m.fstype, o, dd, pp]);
    assert(column_number(g, 4) == Some(m.dump as int));
    assert(column_number(g, 5) == Some(m.pass as int));
    lemma_decode_plain(m.source);
    lemma_decode_plain(m.dest);
    assert(mount_line(a6) == Ok::<MountRecord, crate::error::ParseError>(m));
}

} // verus!
