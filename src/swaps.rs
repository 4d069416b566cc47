use vstd::prelude::*;
use vstd::utf8::*;

use crate::error::{Field, ParseError};
use crate::escape::{decode, decode_value};
use crate::format::{append_bytes, append_decimal, decimal, lemma_ascii_valid, lemma_decimal_valid};
use crate::number::{number_in, parse_isize, parse_usize};
use crate::outside::utf8_string;
use crate::text::{
    copy_bytes, fields, lemma_pieces_concat, lemma_pieces_nonempty, lemma_pieces_single, lines,
    pieces, same_bytes, split_fields, split_lines, strip_cr, strip_ends, views,
};

verus! {

/// What a swap entry says, as bytes.
pub ghost struct SwapRecord {
    pub source: Seq<u8>,
    pub kind: Seq<u8>,
    pub size: usize,
    pub used: usize,
    pub priority: isize,
}

/// A swap entry, which defines an active swap.
#[derive(Debug, Clone, Hash, PartialEq, Eq)]
pub struct SwapInfo {
    /// The path where the swap originates from.
    pub source: String,
    /// The kind of swap, such as `partition` or `file`, as raw bytes.
    pub kind: Vec<u8>,
    /// The size of the swap partition.
    pub size: usize,
    /// How much of the swap is used.
    pub used: usize,
    /// The priority of a swap, which indicates the order of usage.
    pub priority: isize,
}

impl View for SwapInfo {
    type V = SwapRecord;

    open spec fn view(&self) -> SwapRecord {
        SwapRecord {
            source: encode_utf8(self.source@),
            kind: self.kind@,
            size: self.size,
            used: self.used,
            priority: self.priority,
        }
    }
}

/// The unsigned number in a decoded column, or the column's error.
pub open spec fn unsigned_column(f: Seq<Seq<u8>>, k: int, field: Field) -> Result<usize, ParseError> {
    if f.len() <= k {
        Err(ParseError::MissingField(field))
    } else {
        match decode(f[k]) {
            Err(e) => Err(e),
            Ok(t) => match number_in(t, false, 0, usize::MAX as int) {
                Some(v) => Ok(v as usize),
                None => Err(ParseError::InvalidNumber(field)),
            },
        }
    }
}

/// The signed number in a decoded column, or the column's error.
pub open spec fn signed_column(f: Seq<Seq<u8>>, k: int, field: Field) -> Result<isize, ParseError> {
    if f.len() <= k {
        Err(ParseError::MissingField(field))
    } else {
        match decode(f[k]) {
            Err(e) => Err(e),
            Ok(t) => match number_in(t, true, isize::MIN as int, isize::MAX as int) {
                Some(v) => Ok(v as isize),
                None => Err(ParseError::InvalidNumber(field)),
            },
        }
    }
}

#[verifier::opaque]
/// The record that a data line of the swap table holds: five blank-separated
/// columns `source kind size used priority`, each decoded from its escapes,
/// read in order, the first failure deciding the error.
pub open spec fn swap_line(line: Seq<u8>) -> Result<SwapRecord, ParseError> {
    let f = fields(line);
    if f.len() < 1 {
        Err(ParseError::MissingField(Field::Source))
    } else {
        match decode(f[0]) {
            Err(e) => Err(e),
            Ok(source) => if !valid_utf8(source) {
                Err(ParseError::NonUtf8Path)
            } else if f.len() < 2 {
                Err(ParseError::MissingField(Field::Kind))
            } else {
                match decode(f[1]) {
                    Err(e) => Err(e),
                    Ok(kind) => match unsigned_column(f, 2, Field::Size) {
                        Err(e) => Err(e),
                        Ok(size) => match unsigned_column(f, 3, Field::Used) {
                            Err(e) => Err(e),
                            Ok(used) => match signed_column(f, 4, Field::Priority) {
                                Err(e) => Err(e),
                                Ok(priority) => Ok(SwapRecord { source, kind, size, used, priority }),
                            },
                        },
                    },
                }
            },
        }
    }
}

/// The records of a sequence of data lines, or the error of the first line
/// that fails.
pub open spec fn swap_lines(d: Seq<Seq<u8>>) -> Result<Seq<SwapRecord>, ParseError>
    decreases d.len(),
{
    if d.len() == 0 {
        Ok(seq![])
    } else {
        match swap_line(d[0]) {
            Err(e) => Err(e),
            Ok(s) => match swap_lines(d.subrange(1, d.len() as int)) {
                Err(e) => Err(e),
                Ok(rest) => Ok(seq![s] + rest),
            },
        }
    }
}

/// The lines of a swap table after its header line.
pub open spec fn swap_data(t: Seq<u8>) -> Seq<Seq<u8>> {
    let ls = lines(t);
    if ls.len() == 0 {
        ls
    } else {
        ls.subrange(1, ls.len() as int)
    }
}

fn unsigned_at(f: &Vec<Vec<u8>>, k: usize, field: Field) -> (r: Result<usize, ParseError>)
    ensures
        r == unsigned_column(views(f@), k as int, field),
{
    if f.len() <= k {
        return Err(ParseError::MissingField(field));
    }
    let t = match decode_value(f[k].as_slice()) {
        Ok(t) => t,
        Err(e) => return Err(e),
    };
    match parse_usize(t.as_slice()) {
        Some(v) => Ok(v),
        None => Err(ParseError::InvalidNumber(field)),
    }
}

fn signed_at(f: &Vec<Vec<u8>>, k: usize, field: Field) -> (r: Result<isize, ParseError>)
    ensures
        r == signed_column(views(f@), k as int, field),
{
    if f.len() <= k {
        return Err(ParseError::MissingField(field));
    }
    let t = match decode_value(f[k].as_slice()) {
        Ok(t) => t,
        Err(e) => return Err(e),
    };
    match parse_isize(t.as_slice()) {
        Some(v) => Ok(v),
        None => Err(ParseError::InvalidNumber(field)),
    }
}

/// A record written as a swap table line: `source kind size used priority`.
pub open spec fn swap_text(s: SwapRecord) -> Seq<u8> {
    s.source + seq![32u8] + s.kind + seq![32u8] + decimal(s.size as int) + seq![32u8] + decimal(
        s.used as int,
    ) + seq![32u8] + decimal(s.priority as int)
}

impl SwapInfo {
    /// The entry written as a swap table line, where its kind is UTF-8.
    pub fn to_string(&self) -> (r: Option<String>)
        ensures
            r is Some <==> valid_utf8(swap_text(self@)),
            valid_utf8(self@.kind) ==> r is Some,
            r is Some ==> encode_utf8(r->0@) == swap_text(self@),
    {
        let mut out: Vec<u8> = Vec::new();
        append_bytes(&mut out, self.source.as_str().as_bytes());
        out.push(32);
        append_bytes(&mut out, self.kind.as_slice());
        out.push(32);
        append_decimal(&mut out, self.size as i128);
        out.push(32);
        append_decimal(&mut out, self.used as i128);
        out.push(32);
        append_decimal(&mut out, self.priority as i128);
        let ghost t = swap_text(self@);
        assert(out@ =~= t);
        proof {
            if valid_utf8(self@.kind) {
                let sp = seq![32u8];
                encode_utf8_valid_utf8(self.source@);
                lemma_ascii_valid(sp);
                lemma_decimal_valid(self.size as int);
                lemma_decimal_valid(self.used as int);
                lemma_decimal_valid(self.priority as int);
                let a1 = self@.source + sp;
                valid_utf8_concat(self@.source, sp);
                let a2 = a1 + self@.kind;
                valid_utf8_concat(a1, self@.kind);
                let a3 = a2 + sp;
                valid_utf8_concat(a2, sp);
                let a4 = a3 + decimal(self.size as int);
                valid_utf8_concat(a3, decimal(self.size as int));
                let a5 = a4 + sp;
                valid_utf8_concat(a4, sp);
                let a6 = a5 + decimal(self.used as int);
                valid_utf8_concat(a5, decimal(self.used as int));
                let a7 = a6 + sp;
                valid_utf8_concat(a6, sp);
                valid_utf8_concat(a7, decimal(self.priority as int));
            }
        }
        utf8_string(out)
    }

    /// Parses one data line of the swap table.
    pub fn parse_bytes(line: &[u8]) -> (r: Result<SwapInfo, ParseError>)
        ensures
            match swap_line(line@) {
                Ok(s) => r is Ok && r->Ok_0@ == s,
                Err(e) => r == Err::<SwapInfo, ParseError>(e),
            },
    {
        reveal(swap_line);
        let f = split_fields(line);
        if f.len() < 1 {
            return Err(ParseError::MissingField(Field::Source));
        }
        let src = match decode_value(f[0].as_slice()) {
            Ok(v) => v,
            Err(e) => return Err(e),
        };
        let source = match utf8_string(src) {
            Some(s) => s,
            None => return Err(ParseError::NonUtf8Path),
        };
        if f.len() < 2 {
            return Err(ParseError::MissingField(Field::Kind));
        }
        let kind = match decode_value(f[1].as_slice()) {
            Ok(v) => v,
            Err(e) => return Err(e),
        };
        let size = unsigned_at(&f, 2, Field::Size)?;
        let used = unsigned_at(&f, 3, Field::Used)?;
        let priority = signed_at(&f, 4, Field::Priority)?;
        Ok(SwapInfo { source, kind, size, used, priority })
    }

    /// Attempt to parse a `/proc/swaps`-like line.
    pub fn parse_line(line: &str) -> (r: Result<SwapInfo, ParseError>)
        ensures
            match swap_line(encode_utf8(line@)) {
                Ok(s) => r is Ok && r->Ok_0@ == s,
                Err(e) => r == Err::<SwapInfo, ParseError>(e),
            },
    {
        Self::parse_bytes(line.as_bytes())
    }
}

/// A list of parsed swap entries, in table order.
#[derive(Debug, Clone, Hash, PartialEq, Eq)]
pub struct SwapList(pub Vec<SwapInfo>);

impl View for SwapList {
    type V = Seq<SwapRecord>;

    open spec fn view(&self) -> Seq<SwapRecord> {
        swap_views(self.0@)
    }
}

/// Reads the data lines of the swap table one at a time.
pub struct SwapIter {
    lines: Vec<Vec<u8>>,
    pos: usize,
}

impl View for SwapIter {
    type V = Seq<Seq<u8>>;

    /// The data lines not yet read.
    closed spec fn view(&self) -> Seq<Seq<u8>> {
        views(self.lines@).subrange(self.pos as int, self.lines@.len() as int)
    }
}

impl SwapIter {
    pub closed spec fn wf(&self) -> bool {
        self.pos <= self.lines@.len()
    }

    /// Reads swaps from the text of a swap table; its first line is a header
    /// and is passed over whatever it holds.
    pub fn new_from_reader(text: &str) -> (r: SwapIter)
        ensures
            r.wf(),
            r@ == swap_data(encode_utf8(text@)),
    {
        let lines = split_lines(text.as_bytes());
        let pos: usize = if lines.len() == 0 {
            0
        } else {
            1
        };
        let r = SwapIter { lines, pos };
        assert(r@ =~= swap_data(encode_utf8(text@)));
        r
    }

    /// The next data line's record, or `None` once every line has been read.
    pub fn next(&mut self) -> (r: Option<Result<SwapInfo, ParseError>>)
        requires
            old(self).wf(),
        ensures
            final(self).wf(),
            old(self)@.len() == 0 ==> r is None && final(self)@ == old(self)@,
            old(self)@.len() > 0 ==> r is Some && final(self)@ == old(self)@.subrange(
                1,
                old(self)@.len() as int,
            ) && match swap_line(old(self)@[0]) {
                Ok(s) => r->0 is Ok && r->0->Ok_0@ == s,
                Err(e) => r->0 == Err::<SwapInfo, ParseError>(e),
            },
    {
        if self.pos >= self.lines.len() {
            return None;
        }
        let r = SwapInfo::parse_bytes(self.lines[self.pos].as_slice());
        self.pos = self.pos + 1;
        assert(self@ =~= old(self)@.subrange(1, old(self)@.len() as int));
        Some(r)
    }
}

/// `p` put in front of the records of a tail, or the tail's error.
pub open spec fn prepend_swaps(p: Seq<SwapRecord>, r: Result<Seq<SwapRecord>, ParseError>) -> Result<
    Seq<SwapRecord>,
    ParseError,
> {
    match r {
        Ok(rest) => Ok(p + rest),
        Err(e) => Err(e),
    }
}

/// The bytes of each of a sequence of strings.
pub open spec fn text_lines(v: Seq<&str>) -> Seq<Seq<u8>> {
    v.map_values(|l: &str| encode_utf8(l@))
}

pub open spec fn swap_views(v: Seq<SwapInfo>) -> Seq<SwapRecord> {
    v.map_values(|x: SwapInfo| x@)
}

/// Reads the remaining data lines of `it` into records, stopping at the first
/// failure.
fn collect_swaps(it: &mut SwapIter) -> (r: Result<Vec<SwapInfo>, ParseError>)
    requires
        old(it).wf(),
    ensures
        match swap_lines(old(it)@) {
            Ok(s) => r is Ok && swap_views(r->Ok_0@) == s,
            Err(e) => r == Err::<Vec<SwapInfo>, ParseError>(e),
        },
{
    let ghost d = it@;
    let mut out: Vec<SwapInfo> = Vec::new();
    assert(prepend_swaps(swap_views(out@), swap_lines(d)) == swap_lines(d)) by {
        if let Ok(rest) = swap_lines(d) {
            assert(swap_views(out@) + rest =~= rest);
        }
    }
    loop
        invariant
            it.wf(),
            d == old(it)@,
            swap_lines(d) == prepend_swaps(swap_views(out@), swap_lines(it@)),
        decreases it@.len(),
    {
        let ghost before = it@;
        let ghost got = swap_views(out@);
        match it.next() {
            None => {
                assert(got + seq![] =~= got);
                return Ok(out);
            },
            Some(Err(e)) => {
                assert(swap_lines(before) == Err::<Seq<SwapRecord>, ParseError>(e));
                return Err(e);
            },
            Some(Ok(s)) => {
                out.push(s);
                proof {
                    assert(swap_views(out@) =~= got + seq![s@]);
                    if let Ok(rest) = swap_lines(it@) {
                        assert(swap_lines(before) == Ok::<Seq<SwapRecord>, ParseError>(seq![s@] + rest));
                        assert(got + (seq![s@] + rest) =~= swap_views(out@) + rest);
                    } else {
                        assert(swap_lines(before) == swap_lines(it@));
                    }
                }
            },
        }
    }
}

impl SwapList {
    /// Parses every given line as a swap data line; the first failure is the
    /// result.
    pub fn parse_from(lines: &[&str]) -> (r: Result<SwapList, ParseError>)
        ensures
            match swap_lines(text_lines(lines@)) {
                Ok(s) => r is Ok && r->Ok_0@ == s,
                Err(e) => r == Err::<SwapList, ParseError>(e),
            },
    {
        let mut v: Vec<Vec<u8>> = Vec::new();
        let mut i: usize = 0;
        while i < lines.len()
            invariant
                i <= lines.len(),
                views(v@) == text_lines(lines@).take(i as int),
            decreases lines.len() - i,
        {
            let ghost prev = v@;
            let line: &str = lines[i];
            let b = copy_bytes(line.as_bytes());
            assert(b@ == encode_utf8(lines@[i as int]@));
            v.push(b);
            i += 1;
            assert(text_lines(lines@)[i - 1] == encode_utf8(lines@[i - 1]@));
            assert(views(v@) =~= views(prev).push(b@));
            assert(text_lines(lines@).take(i as int) =~= text_lines(lines@).take(i - 1).push(
                text_lines(lines@)[i - 1],
            ));
            assert(views(v@) =~= text_lines(lines@).take(i as int));
        }
        assert(text_lines(lines@).take(lines@.len() as int) =~= text_lines(lines@));
        let mut it = SwapIter { lines: v, pos: 0 };
        assert(it@ =~= views(v@));
        match collect_swaps(&mut it) {
            Ok(s) => Ok(SwapList(s)),
            Err(e) => Err(e),
        }
    }

    /// Parses the text of a swap table: a header line, then one swap per line.
    pub fn new_from_reader(text: &str) -> (r: Result<SwapList, ParseError>)
        ensures
            match swap_lines(swap_data(encode_utf8(text@))) {
                Ok(s) => r is Ok && r->Ok_0@ == s,
                Err(e) => r == Err::<SwapList, ParseError>(e),
            },
    {
        let mut it = SwapIter::new_from_reader(text);
        match collect_swaps(&mut it) {
            Ok(s) => Ok(SwapList(s)),
            Err(e) => Err(e),
        }
    }

    /// Returns true if the given path is a source in the swap list.
    pub fn get_swapped(&self, path: &str) -> (r: bool)
        ensures
            r == exists|i: int| 0 <= i < self@.len() && #[trigger] self@[i].source == encode_utf8(path@),
    {
        let mut i: usize = 0;
        while i < self.0.len()
            invariant
                i <= self.0@.len(),
                forall|j: int| 0 <= j < i ==> self@[j].source != encode_utf8(path@),
            decreases self.0.len() - i,
        {
            if same_bytes(self.0[i].source.as_str().as_bytes(), path.as_bytes()) {
                assert(self@[i as int].source == encode_utf8(path@));
                return true;
            }
            i += 1;
        }
        false
    }
}

/// The header line of a swap table is passed over whatever it holds: a table
/// of a header alone has no data lines, and after the header come the lines
/// of the rest of the text.
pub proof fn lemma_header_discarded(header: Seq<u8>, rest: Seq<u8>)
    requires
        !header.contains(10),
    ensures
        swap_data(header) == Seq::<Seq<u8>>::empty(),
        swap_data(header + seq![10u8]) == Seq::<Seq<u8>>::empty(),
        swap_data(header + seq![10u8] + rest) == lines(rest),
        swap_lines(swap_data(header)) == Ok::<Seq<SwapRecord>, ParseError>(seq![]),
        swap_lines(swap_data(header + seq![10u8])) == Ok::<Seq<SwapRecord>, ParseError>(seq![]),
{
    lemma_pieces_single(header, 10);
    lemma_pieces_concat(header, rest, 10);
    lemma_pieces_concat(header, seq![], 10);
    lemma_pieces_nonempty(rest, 10);
    assert(header + seq![10u8] + Seq::<u8>::empty() =~= header + seq![10u8]);
    let pr = pieces(rest, 10);
    let whole = seq![header] + pr;
    let h = strip_cr(header);
    assert(pieces(header + seq![10u8] + rest, 10) == whole);
    assert(strip_ends(whole) =~= seq![h] + strip_ends(pr));
    assert(whole.last() == pr.last());
    if pr.last().len() == 0 {
        assert(strip_ends(whole).drop_last() =~= seq![h] + strip_ends(pr).drop_last());
    }
    assert(lines(header + seq![10u8] + rest) =~= seq![h] + lines(rest));
    assert((seq![h] + lines(rest)).subrange(1, 1 + lines(rest).len() as int) =~= lines(rest));
    assert(pieces(Seq::<u8>::empty(), 10) == seq![Seq::<u8>::empty()]);
    let w2 = seq![header, Seq::<u8>::empty()];
    assert(pieces(header + seq![10u8], 10) =~= w2);
    assert(strip_ends(w2).drop_last() =~= seq![h]);
    assert(lines(header + seq![10u8]) =~= seq![h]);
    assert(seq![h].subrange(1, 1) =~= Seq::<Seq<u8>>::empty());
    assert(strip_ends(seq![header]) =~= seq![header]);
}

} // verus!
