use vstd::prelude::*;
use vstd::utf8::*;

use crate::text::{
    fields, fields_from, lemma_pieces_nonempty, lemma_token_end, lines, pieces, skip_ws, strip_ends,
    token_end, ws_at,
};

verus! {

/// `t` is the part `a .. e` of `s`, and each end of it is the end of `s` or
/// meets an ASCII byte.
pub open spec fn ascii_cut(s: Seq<u8>, t: Seq<u8>, a: int, e: int) -> bool {
    &&& 0 <= a <= e <= s.len()
    &&& t == s.subrange(a, e)
    &&& (a == 0 || s[a - 1] < 128)
    &&& (e == s.len() || s[e] < 128)
}

/// `t` is cut out of `s` next to ASCII bytes and ends before the end of `s`.
pub open spec fn cut_inside(s: Seq<u8>, t: Seq<u8>) -> bool {
    exists|a: int, e: int| ascii_cut(s, t, a, e) && e < s.len()
}

proof fn lemma_ascii_boundaries(b: Seq<u8>, i: int)
    requires
        valid_utf8(b),
        0 <= i < b.len(),
        b[i] < 128,
    ensures
        is_char_boundary(b, i),
        is_char_boundary(b, i + 1),
{
    is_char_boundary_iff_not_is_continuation_byte(b, i);
    if i + 1 == b.len() {
        is_char_boundary_start_end_of_seq(b);
    } else {
        valid_utf8_split(b, i);
        let c = b.subrange(i, b.len() as int);
        assert(c[0] == b[i]);
        assert(valid_utf8(pop_first_scalar(c)));
        let d = pop_first_scalar(c);
        assert(d =~= b.subrange(i + 1, b.len() as int));
        is_char_boundary_iff_not_is_continuation_byte(d, 0);
        assert(d[0] == b[i + 1]);
        is_char_boundary_iff_not_is_continuation_byte(b, i + 1);
    }
}

pub proof fn lemma_valid_subrange(b: Seq<u8>, a: int, e: int)
    requires
        valid_utf8(b),
        0 <= a <= e <= b.len(),
        is_char_boundary(b, a),
        is_char_boundary(b, e),
    ensures
        valid_utf8(b.subrange(a, e)),
{
    valid_utf8_split(b, e);
    let p = b.subrange(0, e);
    if a == e {
        is_char_boundary_start_end_of_seq(p);
    } else {
        is_char_boundary_iff_not_is_continuation_byte(b, a);
        assert(p[a] == b[a]);
        is_char_boundary_iff_not_is_continuation_byte(p, a);
    }
    valid_utf8_split(p, a);
    assert(p.subrange(a, p.len() as int) =~= b.subrange(a, e));
}

/// A part of valid UTF-8 cut next to ASCII bytes is valid UTF-8.
pub proof fn lemma_cut_valid(s: Seq<u8>, t: Seq<u8>, a: int, e: int)
    requires
        valid_utf8(s),
        ascii_cut(s, t, a, e),
    ensures
        valid_utf8(t),
{
    if a > 0 {
        lemma_ascii_boundaries(s, a - 1);
    }
    if e < s.len() {
        lemma_ascii_boundaries(s, e);
    } else {
        is_char_boundary_start_end_of_seq(s);
    }
    lemma_valid_subrange(s, a, e);
}

proof fn lemma_pieces_cut(s: Seq<u8>, sep: u8)
    requires
        sep < 128,
    ensures
        forall|k: int| 0 <= k < pieces(s, sep).len() - 1 ==> cut_inside(s, #[trigger] pieces(s, sep)[k]),
        exists|a: int| ascii_cut(s, pieces(s, sep).last(), a, s.len() as int),
    decreases s.len(),
{
    lemma_pieces_nonempty(s, sep);
    if s.len() == 0 {
        assert(pieces(s, sep).last() =~= s.subrange(0, 0));
        assert(ascii_cut(s, pieces(s, sep).last(), 0, 0));
    } else {
        let si = s.drop_last();
        lemma_pieces_cut(si, sep);
        lemma_pieces_nonempty(si, sep);
        let p = pieces(si, sep);
        let q = pieces(s, sep);
        let c = s.last();
        assert forall|k: int| 0 <= k < p.len() - 1 implies cut_inside(s, #[trigger] p[k]) by {
            let (a, e) = choose|a: int, e: int| ascii_cut(si, p[k], a, e) && e < si.len();
            assert(s.subrange(a, e) =~= si.subrange(a, e));
            assert(ascii_cut(s, p[k], a, e));
        }
        let a0 = choose|a: int| ascii_cut(si, p.last(), a, si.len() as int);
        if c == sep {
            assert(s.subrange(a0, si.len() as int) =~= si.subrange(a0, si.len() as int));
            assert(ascii_cut(s, p.last(), a0, si.len() as int));
            assert(q.last() =~= s.subrange(s.len() as int, s.len() as int));
            assert(s[s.len() - 1] == c);
            assert(ascii_cut(s, q.last(), s.len() as int, s.len() as int));
            assert forall|k: int| 0 <= k < q.len() - 1 implies cut_inside(s, #[trigger] q[k]) by {
                assert(q[k] == p[k]);
                if k == p.len() - 1 {
                    assert(ascii_cut(s, q[k], a0, si.len() as int));
                } else {
                    let (a, e) = choose|a: int, e: int| ascii_cut(s, p[k], a, e) && e < s.len();
                    assert(ascii_cut(s, q[k], a, e));
                }
            }
        } else {
            assert(q.last() =~= s.subrange(a0, s.len() as int));
            assert(ascii_cut(s, q.last(), a0, s.len() as int));
            assert forall|k: int| 0 <= k < q.len() - 1 implies cut_inside(s, #[trigger] q[k]) by {
                assert(q[k] == p[k]);
                let (a, e) = choose|a: int, e: int| ascii_cut(s, p[k], a, e) && e < s.len();
                assert(ascii_cut(s, q[k], a, e));
            }
        }
    }
}

/// Every piece of valid UTF-8 split at an ASCII separator is valid UTF-8.
pub proof fn lemma_pieces_valid(s: Seq<u8>, sep: u8)
    requires
        valid_utf8(s),
        sep < 128,
    ensures
        forall|k: int| 0 <= k < pieces(s, sep).len() ==> valid_utf8(#[trigger] pieces(s, sep)[k]),
{
    lemma_pieces_cut(s, sep);
    lemma_pieces_nonempty(s, sep);
    let p = pieces(s, sep);
    assert forall|k: int| 0 <= k < p.len() implies valid_utf8(#[trigger] p[k]) by {
        if k < p.len() - 1 {
            let (a, e) = choose|a: int, e: int| ascii_cut(s, p[k], a, e) && e < s.len();
            lemma_cut_valid(s, p[k], a, e);
        } else {
            let a = choose|a: int| ascii_cut(s, p.last(), a, s.len() as int);
            lemma_cut_valid(s, p[k], a, s.len() as int);
        }
    }
}

/// Every line of valid UTF-8 text is valid UTF-8.
pub proof fn lemma_lines_valid(t: Seq<u8>)
    requires
        valid_utf8(t),
    ensures
        forall|k: int| 0 <= k < lines(t).len() ==> valid_utf8(#[trigger] lines(t)[k]),
{
    lemma_pieces_valid(t, 10);
    lemma_pieces_nonempty(t, 10);
    let p = pieces(t, 10);
    let q = strip_ends(p);
    assert forall|k: int| 0 <= k < q.len() implies valid_utf8(#[trigger] q[k]) by {
        let l = p[k];
        assert(valid_utf8(l));
        if k < p.len() - 1 && l.len() > 0 && l.last() == 13 {
            assert(l.subrange(0, l.len() - 1) =~= l.drop_last());
            assert(ascii_cut(l, l.drop_last(), 0, l.len() - 1));
            lemma_cut_valid(l, l.drop_last(), 0, l.len() - 1);
        }
    }
    assert forall|k: int| 0 <= k < lines(t).len() implies valid_utf8(#[trigger] lines(t)[k]) by {
        assert(lines(t)[k] == q[k]);
    }
}

/// Past a whitespace character that starts at a character boundary comes
/// another boundary.
pub proof fn lemma_ws_boundary(s: Seq<u8>, j: int)
    requires
        valid_utf8(s),
        0 <= j < s.len(),
        is_char_boundary(s, j),
        ws_at(s, j) > 0,
    ensures
        is_char_boundary(s, j + ws_at(s, j)),
{
    let k = ws_at(s, j);
    valid_utf8_split(s, j);
    let c = s.subrange(j, s.len() as int);
    assert(c[0] == s[j]);
    assert(valid_utf8(pop_first_scalar(c)));
    assert(length_of_first_scalar(c) == k);
    let d = pop_first_scalar(c);
    assert(d =~= s.subrange(j + k, s.len() as int));
    if j + k == s.len() {
        is_char_boundary_start_end_of_seq(s);
    } else {
        is_char_boundary_iff_not_is_continuation_byte(d, 0);
        assert(d[0] == s[j + k]);
        is_char_boundary_iff_not_is_continuation_byte(s, j + k);
    }
}

/// A position where whitespace starts is a character boundary.
proof fn lemma_ws_start_boundary(s: Seq<u8>, j: int)
    requires
        valid_utf8(s),
        0 <= j < s.len(),
        ws_at(s, j) > 0,
    ensures
        is_char_boundary(s, j),
{
    is_char_boundary_iff_not_is_continuation_byte(s, j);
}

/// Passing over whitespace from a boundary ends at a boundary.
pub proof fn lemma_skip_ws_boundary(s: Seq<u8>, i: int)
    requires
        valid_utf8(s),
        0 <= i <= s.len(),
        is_char_boundary(s, i),
    ensures
        is_char_boundary(s, skip_ws(s, i)),
    decreases s.len() - i,
{
    if i < s.len() && ws_at(s, i) > 0 {
        lemma_ws_boundary(s, i);
        lemma_skip_ws_boundary(s, i + ws_at(s, i));
    }
}

proof fn lemma_fields_from_valid(s: Seq<u8>, i: int)
    requires
        valid_utf8(s),
        0 <= i <= s.len(),
        is_char_boundary(s, i),
    ensures
        forall|k: int| 0 <= k < fields_from(s, i).len() ==> valid_utf8(#[trigger] fields_from(s, i)[k]),
    decreases s.len() - i,
{
    if i < s.len() {
        if ws_at(s, i) > 0 {
            lemma_ws_boundary(s, i);
            lemma_fields_from_valid(s, i + ws_at(s, i));
            assert(fields_from(s, i) == fields_from(s, i + ws_at(s, i)));
        } else {
            lemma_token_end(s, i);
            let e = token_end(s, i);
            if e == s.len() {
                is_char_boundary_start_end_of_seq(s);
            } else {
                lemma_ws_start_boundary(s, e);
            }
            lemma_valid_subrange(s, i, e);
            lemma_fields_from_valid(s, e);
            let f = fields_from(s, i);
            assert(f == seq![s.subrange(i, e)] + fields_from(s, e));
            assert forall|k: int| 0 <= k < f.len() implies valid_utf8(#[trigger] f[k]) by {
                if k == 0 {
                    assert(f[0] == s.subrange(i, e));
                } else {
                    assert(f[k] == fields_from(s, e)[k - 1]);
                }
            }
        }
    }
}

/// Every field of a valid UTF-8 line is valid UTF-8.
pub proof fn lemma_fields_valid(s: Seq<u8>)
    requires
        valid_utf8(s),
    ensures
        forall|k: int| 0 <= k < fields(s).len() ==> valid_utf8(#[trigger] fields(s)[k]),
{
    lemma_fields_from_valid(s, 0);
}

} // verus!
