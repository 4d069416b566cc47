use vstd::prelude::*;

verus! {

/// The ASCII whitespace of `char::is_whitespace`: tab, line feed, vertical
/// tab, form feed, carriage return and space.
pub open spec fn is_blank(c: u8) -> bool {
    c == 32 || c == 9 || c == 10 || c == 11 || c == 12 || c == 13
}

/// The length of the whitespace character whose UTF-8 encoding starts at `i`
/// in `s`, or 0 where none does. The whitespace characters are those of
/// `char::is_whitespace`: U+0009 to U+000D, U+0020, U+0085, U+00A0, U+1680,
/// U+2000 to U+200A, U+2028, U+2029, U+202F, U+205F and U+3000.
pub open spec fn ws_at(s: Seq<u8>, i: int) -> int {
    if i < 0 || i >= s.len() {
        0
    } else if is_blank(s[i]) {
        1
    } else if i + 1 < s.len() && s[i] == 0xc2 && (s[i + 1] == 0x85 || s[i + 1] == 0xa0) {
        2
    } else if i + 2 < s.len() && ((s[i] == 0xe1 && s[i + 1] == 0x9a && s[i + 2] == 0x80) || (s[i]
        == 0xe2 && s[i + 1] == 0x80 && ((0x80 <= s[i + 2] <= 0x8a) || s[i + 2] == 0xa8 || s[i + 2]
        == 0xa9 || s[i + 2] == 0xaf)) || (s[i] == 0xe2 && s[i + 1] == 0x81 && s[i + 2] == 0x9f) || (
    s[i] == 0xe3 && s[i + 1] == 0x80 && s[i + 2] == 0x80)) {
        3
    } else {
        0
    }
}

/// Where the run of non-whitespace that starts at `i` ends.
pub open spec fn token_end(s: Seq<u8>, i: int) -> int
    decreases s.len() - i,
{
    if i < 0 || i >= s.len() || ws_at(s, i) > 0 {
        i
    } else {
        token_end(s, i + 1)
    }
}

pub proof fn lemma_token_end(s: Seq<u8>, i: int)
    requires
        0 <= i <= s.len(),
    ensures
        i <= token_end(s, i) <= s.len(),
        token_end(s, i) == s.len() || ws_at(s, token_end(s, i)) > 0,
        forall|j: int| i <= j < token_end(s, i) ==> ws_at(s, j) == 0,
        i < s.len() && ws_at(s, i) == 0 ==> token_end(s, i) > i,
    decreases s.len() - i,
{
    if i < s.len() && ws_at(s, i) == 0 {
        lemma_token_end(s, i + 1);
    }
}

/// The runs of non-whitespace of `s` from `i` on, in order.
pub open spec fn fields_from(s: Seq<u8>, i: int) -> Seq<Seq<u8>>
    decreases s.len() - i,
{
    if i < 0 || i >= s.len() {
        seq![]
    } else if ws_at(s, i) > 0 {
        fields_from(s, i + ws_at(s, i))
    } else {
        let e = token_end(s, i);
        if e <= i || e > s.len() {
            seq![]
        } else {
            seq![s.subrange(i, e)] + fields_from(s, e)
        }
    }
}

/// The fields of a line: its maximal runs of non-whitespace, in order.
pub open spec fn fields(s: Seq<u8>) -> Seq<Seq<u8>> {
    fields_from(s, 0)
}

/// The pieces of `s` between occurrences of `sep`; there is always at least one.
pub open spec fn pieces(s: Seq<u8>, sep: u8) -> Seq<Seq<u8>>
    decreases s.len(),
{
    if s.len() == 0 {
        seq![seq![]]
    } else {
        let init = pieces(s.drop_last(), sep);
        if s.last() == sep {
            init.push(seq![])
        } else {
            init.update(init.len() - 1, init.last().push(s.last()))
        }
    }
}

pub proof fn lemma_pieces_nonempty(s: Seq<u8>, sep: u8)
    ensures
        pieces(s, sep).len() >= 1,
    decreases s.len(),
{
    if s.len() > 0 {
        lemma_pieces_nonempty(s.drop_last(), sep);
    }
}

/// The byte sequences held by a vector of byte vectors.
pub open spec fn views(v: Seq<Vec<u8>>) -> Seq<Seq<u8>> {
    v.map_values(|x: Vec<u8>| x@)
}

/// `p` is a prefix of `s`, byte for byte.
pub open spec fn has_prefix(s: Seq<u8>, p: Seq<u8>) -> bool {
    p.len() <= s.len() && s.take(p.len() as int) == p
}

/// The length of the whitespace character that starts at `i`, or 0.
pub fn ws_len(s: &[u8], i: usize) -> (r: usize)
    requires
        i <= s.len(),
    ensures
        r == ws_at(s@, i as int),
{
    let n = s.len();
    if i >= n {
        return 0;
    }
    let c = s[i];
    if c == 32 || c == 9 || c == 10 || c == 11 || c == 12 || c == 13 {
        return 1;
    }
    if i + 1 < n && c == 0xc2 && (s[i + 1] == 0x85 || s[i + 1] == 0xa0) {
        return 2;
    }
    if n - i > 2 {
        let b = s[i + 1];
        let d = s[i + 2];
        if (c == 0xe1 && b == 0x9a && d == 0x80) || (c == 0xe2 && b == 0x80 && ((0x80 <= d && d
            <= 0x8a) || d == 0xa8 || d == 0xa9 || d == 0xaf)) || (c == 0xe2 && b == 0x81 && d == 0x9f)
            || (c == 0xe3 && b == 0x80 && d == 0x80) {
            return 3;
        }
    }
    0
}

/// Splits a line into its whitespace-separated fields.
pub fn split_fields(s: &[u8]) -> (r: Vec<Vec<u8>>)
    ensures
        views(r@) == fields(s@),
{
    let n = s.len();
    let mut done: Vec<Vec<u8>> = Vec::new();
    let mut i: usize = 0;
    assert(views(done@) + fields_from(s@, 0) =~= fields(s@));
    while i < n
        invariant
            n == s.len(),
            i <= n,
            fields(s@) == views(done@) + fields_from(s@, i as int),
        decreases n - i,
    {
        let k = ws_len(s, i);
        if k > 0 {
            i = i + k;
        } else {
            let mut j: usize = i;
            proof {
                lemma_token_end(s@, i as int);
            }
            while j < n && ws_len(s, j) == 0
                invariant
                    n == s.len(),
                    i <= j <= n,
                    token_end(s@, i as int) == token_end(s@, j as int),
                decreases n - j,
            {
                j += 1;
            }
            let mut t: Vec<u8> = Vec::new();
            let mut x: usize = i;
            while x < j
                invariant
                    i <= x <= j <= n,
                    n == s.len(),
                    t@ == s@.subrange(i as int, x as int),
                decreases j - x,
            {
                t.push(s[x]);
                x += 1;
                assert(t@ =~= s@.subrange(i as int, x as int));
            }
            let ghost before = done@;
            done.push(t);
            proof {
                assert(views(done@) =~= views(before).push(s@.subrange(i as int, j as int)));
                assert(views(done@) + fields_from(s@, j as int) =~= views(before) + fields_from(
                    s@,
                    i as int,
                ));
            }
            i = j;
        }
    }
    assert(views(done@) + fields_from(s@, n as int) =~= views(done@));
    done
}

/// Splits `s` at every occurrence of `sep`.
pub fn split_pieces(s: &[u8], sep: u8) -> (r: Vec<Vec<u8>>)
    ensures
        views(r@) == pieces(s@, sep),
{
    let mut done: Vec<Vec<u8>> = Vec::new();
    let mut cur: Vec<u8> = Vec::new();
    let mut i: usize = 0;
    assert(s@.take(0) =~= Seq::<u8>::empty());
    assert(pieces(s@.take(0), sep) =~= views(done@).push(cur@));
    while i < s.len()
        invariant
            i <= s.len(),
            pieces(s@.take(i as int), sep) == views(done@).push(cur@),
        decreases s.len() - i,
    {
        let c = s[i];
        let ghost prev = s@.take(i as int);
        let ghost next = s@.take(i + 1);
        assert(next.drop_last() =~= prev);
        assert(next.last() == c);
        if c == sep {
            let ghost d = done@;
            done.push(cur);
            assert(views(done@) =~= views(d).push(cur@));
            cur = Vec::new();
            assert(pieces(next, sep) =~= views(done@).push(cur@));
        } else {
            cur.push(c);
            assert(pieces(next, sep) =~= views(done@).push(cur@));
        }
        i += 1;
    }
    assert(s@.take(s@.len() as int) =~= s@);
    let ghost d = done@;
    done.push(cur);
    assert(views(done@) =~= views(d).push(cur@));
    done
}

/// A copy of `s`.
pub fn copy_bytes(s: &[u8]) -> (r: Vec<u8>)
    ensures
        r@ == s@,
{
    let mut r: Vec<u8> = Vec::new();
    let mut i: usize = 0;
    while i < s.len()
        invariant
            i <= s.len(),
            r@ == s@.take(i as int),
        decreases s.len() - i,
    {
        r.push(s[i]);
        i += 1;
        assert(r@ =~= s@.take(i as int));
    }
    assert(s@.take(s@.len() as int) =~= s@);
    r
}

/// Whether `s` begins with `p`.
pub fn starts_with(s: &[u8], p: &[u8]) -> (r: bool)
    ensures
        r == has_prefix(s@, p@),
{
    if p.len() > s.len() {
        return false;
    }
    let mut i: usize = 0;
    while i < p.len()
        invariant
            p.len() <= s.len(),
            i <= p.len(),
            forall|j: int| 0 <= j < i ==> s@[j] == p@[j],
        decreases p.len() - i,
    {
        if s[i] != p[i] {
            assert(s@.take(p@.len() as int)[i as int] != p@[i as int]);
            return false;
        }
        i += 1;
    }
    assert(s@.take(p@.len() as int) =~= p@);
    true
}

/// Whether `a` and `b` hold the same bytes.
pub fn same_bytes(a: &[u8], b: &[u8]) -> (r: bool)
    ensures
        r == (a@ == b@),
{
    if a.len() != b.len() {
        return false;
    }
    let r = starts_with(a, b);
    assert(a@.take(b@.len() as int) =~= a@);
    r
}

/// `l` without a carriage return that ends it.
pub open spec fn strip_cr(l: Seq<u8>) -> Seq<u8> {
    if l.len() > 0 && l.last() == 13 {
        l.drop_last()
    } else {
        l
    }
}

/// Each piece but the last without a carriage return that ends it.
pub open spec fn strip_ends(p: Seq<Seq<u8>>) -> Seq<Seq<u8>> {
    Seq::new(
        p.len(),
        |i: int|
            if i < p.len() - 1 {
                strip_cr(p[i])
            } else {
                p[i]
            },
    )
}

/// The lines of a text as `str::lines` gives them: split at line feeds, a
/// carriage return just before a line feed dropped with it, and a final line
/// feed ending the last line without starting a new one.
pub open spec fn lines(t: Seq<u8>) -> Seq<Seq<u8>> {
    let p = pieces(t, 10);
    let q = strip_ends(p);
    if p.last().len() == 0 {
        q.drop_last()
    } else {
        q
    }
}

/// Splits a text into its lines.
#[verifier::loop_isolation(false)]
pub fn split_lines(t: &[u8]) -> (r: Vec<Vec<u8>>)
    ensures
        views(r@) == lines(t@),
{
    let p = split_pieces(t, 10);
    proof {
        lemma_pieces_nonempty(t@, 10);
    }
    let ghost pv = pieces(t@, 10);
    let n = p.len();
    let keep: usize = if p[n - 1].len() == 0 {
        n - 1
    } else {
        n
    };
    let mut out: Vec<Vec<u8>> = Vec::new();
    let mut i: usize = 0;
    assert(lines(t@).len() == keep);
    assert(views(out@) =~= lines(t@).take(0));
    while i < keep
        invariant
            views(p@) == pv,
            pv.len() == n,
            keep <= n,
            i <= keep,
            views(out@) == lines(t@).take(i as int),
            keep == lines(t@).len(),
        decreases keep - i,
    {
        let mut l = copy_bytes(p[i].as_slice());
        let ghost orig = l@;
        assert(orig == pv[i as int]);
        let strip = i + 1 < n && l.len() > 0 && l[l.len() - 1] == 13;
        if strip {
            l.pop();
        }
        proof {
            let expect = if i < n - 1 {
                strip_cr(pv[i as int])
            } else {
                pv[i as int]
            };
            assert(strip_ends(pv)[i as int] == expect);
            if pv.last().len() == 0 {
                assert(lines(t@) == strip_ends(pv).drop_last());
                assert(strip_ends(pv).drop_last()[i as int] == strip_ends(pv)[i as int]);
            }
            assert(lines(t@)[i as int] == strip_ends(pv)[i as int]);
            if strip {
                assert(l@ =~= orig.drop_last());
            }
            assert(l@ =~= expect);
        }
        let ghost before = out@;
        out.push(l);
        assert(views(out@) =~= views(before).push(l@));
        i += 1;
        assert(views(out@) =~= lines(t@).take(i as int));
    }
    assert(lines(t@).take(keep as int) =~= lines(t@));
    out
}

/// Text without the separator is a single piece.
pub proof fn lemma_pieces_single(s: Seq<u8>, sep: u8)
    requires
        !s.contains(sep),
    ensures
        pieces(s, sep) == seq![s],
    decreases s.len(),
{
    if s.len() == 0 {
        assert(s =~= Seq::<u8>::empty());
    } else {
        let init = s.drop_last();
        assert(!init.contains(sep)) by {
            if init.contains(sep) {
                let i = choose|i: int| 0 <= i < init.len() && init[i] == sep;
                assert(s[i] == sep);
            }
        }
        lemma_pieces_single(init, sep);
        assert(s[s.len() - 1] != sep);
        assert(init.push(s.last()) =~= s);
        assert(pieces(s, sep) =~= seq![s]);
    }
}

/// Splitting at a separator splits the pieces there.
pub proof fn lemma_pieces_concat(x: Seq<u8>, y: Seq<u8>, sep: u8)
    ensures
        pieces(x + seq![sep] + y, sep) == pieces(x, sep) + pieces(y, sep),
    decreases y.len(),
{
    let xs = x + seq![sep];
    if y.len() == 0 {
        assert(xs + y =~= xs);
        assert(xs.drop_last() =~= x);
        assert(pieces(x, sep).push(seq![]) =~= pieces(x, sep) + pieces(y, sep));
    } else {
        let yi = y.drop_last();
        lemma_pieces_concat(x, yi, sep);
        lemma_pieces_nonempty(yi, sep);
        lemma_pieces_nonempty(x, sep);
        assert((xs + y).drop_last() =~= xs + yi);
        assert((xs + y).last() == y.last());
        let a = pieces(x, sep);
        let b = pieces(yi, sep);
        if y.last() == sep {
            assert((a + b).push(seq![]) =~= a + b.push(seq![]));
        } else {
            assert((a + b).update((a + b).len() - 1, (a + b).last().push(y.last())) =~= a + b.update(
                b.len() - 1,
                b.last().push(y.last()),
            ));
        }
    }
}

/// `s` holds no whitespace character.
pub open spec fn no_blank(s: Seq<u8>) -> bool {
    forall|i: int| 0 <= i < s.len() ==> #[trigger] ws_at(s, i) == 0
}

/// A whitespace character inside a part of `s` is one of `s` too.
pub proof fn lemma_ws_at_sub(s: Seq<u8>, a: int, e: int, j: int)
    requires
        0 <= a <= e <= s.len(),
        0 <= j < e - a,
    ensures
        ws_at(s.subrange(a, e), j) > 0 ==> ws_at(s, a + j) == ws_at(s.subrange(a, e), j),
{
}

/// Every field from `i` on is non-empty and free of whitespace.
pub proof fn lemma_fields_from_shape(s: Seq<u8>, i: int)
    requires
        0 <= i,
    ensures
        forall|k: int|
            0 <= k < fields_from(s, i).len() ==> (#[trigger] fields_from(s, i)[k]).len() > 0 && no_blank(
                fields_from(s, i)[k],
            ),
    decreases s.len() - i,
{
    if i < s.len() {
        if ws_at(s, i) > 0 {
            lemma_fields_from_shape(s, i + ws_at(s, i));
            assert(fields_from(s, i) == fields_from(s, i + ws_at(s, i)));
        } else {
            lemma_token_end(s, i);
            let e = token_end(s, i);
            lemma_fields_from_shape(s, e);
            let t = s.subrange(i, e);
            assert forall|j: int| 0 <= j < t.len() implies #[trigger] ws_at(t, j) == 0 by {
                lemma_ws_at_sub(s, i, e, j);
            }
            let f = fields_from(s, i);
            assert(f == seq![t] + fields_from(s, e));
            assert forall|k: int| 0 <= k < f.len() implies (#[trigger] f[k]).len() > 0 && no_blank(f[k]) by {
                if k == 0 {
                    assert(f[0] == t);
                } else {
                    assert(f[k] == fields_from(s, e)[k - 1]);
                }
            }
        }
    }
}

/// Every field is non-empty and free of whitespace.
pub proof fn lemma_fields_shape(s: Seq<u8>)
    ensures
        forall|k: int| 0 <= k < fields(s).len() ==> (#[trigger] fields(s)[k]).len() > 0 && no_blank(fields(s)[k]),
{
    lemma_fields_from_shape(s, 0);
}

/// Where the run of whitespace that starts at `i` ends.
pub open spec fn skip_ws(s: Seq<u8>, i: int) -> int
    decreases s.len() - i,
{
    if 0 <= i < s.len() && ws_at(s, i) > 0 {
        skip_ws(s, i + ws_at(s, i))
    } else {
        i
    }
}

pub proof fn lemma_skip_ws(s: Seq<u8>, i: int)
    requires
        0 <= i <= s.len(),
    ensures
        i <= skip_ws(s, i) <= s.len(),
        skip_ws(s, i) == s.len() || ws_at(s, skip_ws(s, i)) == 0,
    decreases s.len() - i,
{
    if i < s.len() && ws_at(s, i) > 0 {
        lemma_skip_ws(s, i + ws_at(s, i));
    }
}

/// Passes over the whitespace that starts at `i`.
pub fn skip_whitespace(s: &[u8], i: usize) -> (r: usize)
    requires
        i <= s.len(),
    ensures
        r == skip_ws(s@, i as int),
        i <= r <= s.len(),
{
    let n = s.len();
    let mut j: usize = i;
    while j < n
        invariant
            n == s.len(),
            i <= j <= n,
            skip_ws(s@, i as int) == skip_ws(s@, j as int),
        decreases n - j,
    {
        let k = ws_len(s, j);
        if k == 0 {
            return j;
        }
        j = j + k;
    }
    j
}

} // verus!
