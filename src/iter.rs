use vstd::prelude::*;
use vstd::utf8::*;

use crate::error::ParseError;
use crate::info::{
    is_alias, lemma_mount_line_source, mount_line, mount_outcome, source_stage, MountInfo,
};
use crate::utf8_cut::lemma_lines_valid;
use crate::text::{lines, same_bytes, skip_whitespace, skip_ws, split_lines, views};

verus! {

/// A line that the mount table reader passes over: whitespace only, or a
/// comment whose `#` comes after whitespace only.
pub open spec fn is_skipped(l: Seq<u8>) -> bool {
    skip_ws(l, 0) >= l.len() || l[skip_ws(l, 0)] == 35
}

/// The lines that hold mount entries, in order.
pub open spec fn data_lines(ls: Seq<Seq<u8>>) -> Seq<Seq<u8>>
    decreases ls.len(),
{
    if ls.len() == 0 {
        seq![]
    } else if is_skipped(ls[0]) {
        data_lines(ls.subrange(1, ls.len() as int))
    } else {
        seq![ls[0]] + data_lines(ls.subrange(1, ls.len() as int))
    }
}

/// Whether `source` is mounted at `dest` by the first entry of the lines `d`
/// whose source is `source`; the first line that fails to parse before it
/// gives the error. Device aliases are left unresolved.
pub open spec fn mounted_at_lines(d: Seq<Seq<u8>>, source: Seq<u8>, dest: Seq<u8>) -> Result<bool, ParseError>
    decreases d.len(),
{
    if d.len() == 0 {
        Ok(false)
    } else {
        match mount_line(d[0]) {
            Err(e) => Err(e),
            Ok(m) => if m.source == source {
                Ok(m.dest == dest)
            } else {
                mounted_at_lines(d.subrange(1, d.len() as int), source, dest)
            },
        }
    }
}

/// A line of `d` whose source is a device alias comes before the line that
/// decides `mounted_at_lines(d, source, _)`: the first line that fails or
/// whose source is `source`.
pub open spec fn alias_before_decision(d: Seq<Seq<u8>>, source: Seq<u8>) -> bool
    decreases d.len(),
{
    if d.len() == 0 {
        false
    } else {
        match source_stage(d[0]) {
            Err(_) => false,
            Ok(src) => if is_alias(src) {
                true
            } else {
                match mount_line(d[0]) {
                    Err(_) => false,
                    Ok(m) => if m.source == source {
                        false
                    } else {
                        alias_before_decision(d.subrange(1, d.len() as int), source)
                    },
                }
            },
        }
    }
}

/// What the entry `x` decides about whether `source` is mounted at `dest`:
/// an error decides with that error, an entry with that source decides by
/// its destination, and any other entry decides nothing.
pub open spec fn decides(x: Result<MountInfo, ParseError>, source: Seq<u8>, dest: Seq<u8>) -> Option<
    Result<bool, ParseError>,
> {
    match x {
        Err(e) => Some(Err(e)),
        Ok(m) => if m@.source == source {
            Some(Ok(m@.dest == dest))
        } else {
            None
        },
    }
}

/// The decision of the first entry of `o` that decides, if any.
pub open spec fn decision(o: Seq<Result<MountInfo, ParseError>>, source: Seq<u8>, dest: Seq<u8>) -> Option<
    Result<bool, ParseError>,
>
    decreases o.len(),
{
    if o.len() == 0 {
        None
    } else {
        match decision(o.drop_last(), source, dest) {
            Some(x) => Some(x),
            None => decides(o.last(), source, dest),
        }
    }
}

/// `o` is what reading the first `o.len()` lines of `d` may give, one result
/// for each line.
pub open spec fn read_outcomes(d: Seq<Seq<u8>>, o: Seq<Result<MountInfo, ParseError>>) -> bool {
    o.len() <= d.len() && forall|i: int| 0 <= i < o.len() ==> mount_outcome(d[i], #[trigger] o[i])
}

/// `r` is the answer of a first-match lookup over the entries `o` read from
/// the lines `d`: the first deciding entry decides, the lines after it are not
/// read, and where none decides every line was read and the answer is false.
pub open spec fn lookup_outcome(
    d: Seq<Seq<u8>>,
    source: Seq<u8>,
    dest: Seq<u8>,
    r: Result<bool, ParseError>,
) -> bool {
    exists|o: Seq<Result<MountInfo, ParseError>>|
        #[trigger] read_outcomes(d, o) && (o.len() == d.len() || decision(o, source, dest) is Some)
            && r == match decision(o, source, dest) {
            Some(x) => x,
            None => Ok(false),
        }
}

fn skipped(l: &[u8]) -> (r: bool)
    ensures
        r == is_skipped(l@),
{
    let k = skip_whitespace(l, 0);
    k == l.len() || l[k] == 35
}

/// Reads the entries of a mount table one at a time, passing over blank
/// lines and comments.
pub struct MountIter {
    lines: Vec<Vec<u8>>,
    pos: usize,
}

impl View for MountIter {
    type V = Seq<Seq<u8>>;

    /// The lines not yet read.
    closed spec fn view(&self) -> Seq<Seq<u8>> {
        views(self.lines@).subrange(self.pos as int, self.lines@.len() as int)
    }
}

impl MountIter {
    pub closed spec fn wf(&self) -> bool {
        &&& self.pos <= self.lines@.len()
        &&& forall|i: int| 0 <= i < self.lines@.len() ==> valid_utf8(#[trigger] self.lines@[i]@)
    }

    /// Reads mounts from the text of a mount table.
    pub fn new_from_reader(text: &str) -> (r: MountIter)
        ensures
            r.wf(),
            r@ == lines(encode_utf8(text@)),
    {
        let all = split_lines(text.as_bytes());
        proof {
            encode_utf8_valid_utf8(text@);
            lemma_lines_valid(encode_utf8(text@));
            assert forall|i: int| 0 <= i < all@.len() implies valid_utf8(#[trigger] all@[i]@) by {
                assert(views(all@)[i] == all@[i]@);
            }
        }
        let r = MountIter { lines: all, pos: 0 };
        assert(r@ =~= lines(encode_utf8(text@)));
        r
    }

    /// The next entry, or `None` once no entry is left.
    pub fn next(&mut self) -> (r: Option<Result<MountInfo, ParseError>>)
        requires
            old(self).wf(),
        ensures
            final(self).wf(),
            data_lines(old(self)@).len() == 0 <==> r is None,
            r is None ==> data_lines(final(self)@).len() == 0,
            r is Some ==> mount_outcome(data_lines(old(self)@)[0], r->0) && data_lines(final(self)@)
                == data_lines(old(self)@).subrange(1, data_lines(old(self)@).len() as int),
    {
        while self.pos < self.lines.len()
            invariant
                self.wf(),
                data_lines(self@) == data_lines(old(self)@),
                self.lines == old(self).lines,
            decreases self.lines.len() - self.pos,
        {
            let ghost before = self@;
            let line = &self.lines[self.pos];
            assert(before[0] == line@);
            assert(valid_utf8(self.lines@[self.pos as int]@));
            self.pos = self.pos + 1;
            assert(self@ =~= before.subrange(1, before.len() as int));
            if !skipped(line.as_slice()) {
                let r = MountInfo::parse_bytes(line.as_slice());
                return Some(r);
            }
        }
        None
    }

    /// Returns whether `source` is mounted at `path`, going by the first entry
    /// whose source is `source`; a line that fails before it is the error, and
    /// the lines after it are not read.
    #[verifier::loop_isolation(false)]
    pub fn source_mounted_at(mounts: MountIter, source: &str, path: &str) -> (r: Result<bool, ParseError>)
        requires
            mounts.wf(),
        ensures
            !alias_before_decision(data_lines(mounts@), encode_utf8(source@)) ==> r
                == mounted_at_lines(data_lines(mounts@), encode_utf8(source@), encode_utf8(path@)),
            lookup_outcome(data_lines(mounts@), encode_utf8(source@), encode_utf8(path@), r),
    {
        let mut it = mounts;
        let ghost d = data_lines(mounts@);
        let ghost s = encode_utf8(source@);
        let ghost p = encode_utf8(path@);
        let ghost mut k: int = 0;
        let ghost mut o: Seq<Result<MountInfo, ParseError>> = seq![];
        assert(d.subrange(0, d.len() as int) =~= d);
        loop
            invariant
                it.wf(),
                0 <= k <= d.len(),
                o.len() == k,
                read_outcomes(d, o),
                decision(o, s, p) is None,
                data_lines(it@) == d.subrange(k, d.len() as int),
                !alias_before_decision(d, s) ==> !alias_before_decision(d.subrange(k, d.len() as int), s)
                    && mounted_at_lines(d, s, p) == mounted_at_lines(d.subrange(k, d.len() as int), s, p),
            decreases d.len() - k,
        {
            let ghost rest = d.subrange(k, d.len() as int);
            match it.next() {
                None => {
                    assert(rest.len() == 0);
                    assert(read_outcomes(d, o));
                    return Ok(false);
                },
                Some(Err(e)) => {
                    proof {
                        let o2 = o.push(Err(e));
                        assert(o2.drop_last() =~= o);
                        assert(read_outcomes(d, o2));
                        assert(decision(o2, s, p) == Some(Err::<bool, ParseError>(e)));
                        assert(d[k] == rest[0]);
                        lemma_mount_line_source(d[k]);
                        if !alias_before_decision(d, s) {
                            assert(mounted_at_lines(rest, s, p) == Err::<bool, ParseError>(e));
                        }
                    }
                    return Err(e);
                },
                Some(Ok(m)) => {
                    let ghost mk = mount_line(d[k]);
                    proof {
                        assert(d[k] == rest[0]);
                        assert(rest.subrange(1, rest.len() as int) =~= d.subrange(k + 1, d.len() as int));
                        lemma_mount_line_source(d[k]);
                        if !alias_before_decision(d, s) {
                            assert(mk is Ok && mk->Ok_0 == m@);
                        }
                    }
                    let ghost o2 = o.push(Ok(m));
                    proof {
                        assert(o2.drop_last() =~= o);
                        assert(read_outcomes(d, o2));
                    }
                    if same_bytes(m.source.as_str().as_bytes(), source.as_bytes()) {
                        let r = same_bytes(m.dest.as_str().as_bytes(), path.as_bytes());
                        assert(decision(o2, s, p) == Some(Ok::<bool, ParseError>(r)));
                        return Ok(r);
                    }
                    proof {
                        k = k + 1;
                        o = o2;
                    }
                },
            }
        }
    }
}

} // verus!
