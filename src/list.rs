use vstd::prelude::*;
use vstd::utf8::*;

use crate::error::ParseError;
use crate::info::{mount_line, mount_outcome, MountInfo, MountRecord};
use crate::iter::{data_lines, MountIter};
use crate::swaps::text_lines;
use crate::text::{has_prefix, lines, same_bytes, starts_with};

verus! {

/// The records of a sequence of mount entries.
pub open spec fn mount_views(v: Seq<MountInfo>) -> Seq<MountRecord> {
    v.map_values(|m: MountInfo| m@)
}

/// `r` is a result that reading the mount lines `d` in order may give: one
/// entry for each line, or the error of a line such that every line before
/// it parsed.
pub open spec fn mounts_outcome(d: Seq<Seq<u8>>, r: Result<MountList, ParseError>) -> bool {
    match r {
        Ok(list) => list.0@.len() == d.len() && forall|i: int|
            0 <= i < d.len() ==> mount_outcome(d[i], Ok(#[trigger] list.0@[i])),
        Err(e) => exists|i: int|
            0 <= i < d.len() && mount_outcome(#[trigger] d[i], Err(e)) && forall|j: int|
                0 <= j < i ==> (#[trigger] mount_line(d[j])) is Ok,
    }
}

/// Whether an entry's source, or its destination where `by_dest` holds,
/// starts with `p`.
pub open spec fn prefix_pred(p: Seq<u8>, by_dest: bool) -> spec_fn(MountInfo) -> bool {
    |m: MountInfo|
        has_prefix(
            if by_dest {
                m@.dest
            } else {
                m@.source
            },
            p,
        )
}

/// The entries of `v` that a prefix search for `p` keeps, in order.
pub open spec fn prefix_search(v: Seq<MountInfo>, p: Seq<u8>, by_dest: bool) -> Seq<MountInfo> {
    v.filter(prefix_pred(p, by_dest))
}

/// The entries that a vector of references points at.
pub open spec fn derefs(v: Seq<&MountInfo>) -> Seq<MountInfo> {
    v.map_values(|m: &MountInfo| *m)
}

/// `i` is the first entry of `s` whose source is `p`.
pub open spec fn first_by_source(s: Seq<MountRecord>, p: Seq<u8>, i: int) -> bool {
    0 <= i < s.len() && s[i].source == p && forall|j: int| 0 <= j < i ==> s[j].source != p
}

/// `i` is the first entry of `s` whose destination is `p`.
pub open spec fn first_by_dest(s: Seq<MountRecord>, p: Seq<u8>, i: int) -> bool {
    0 <= i < s.len() && s[i].dest == p && forall|j: int| 0 <= j < i ==> s[j].dest != p
}

/// The first entry whose source is `source` is mounted at `dest`.
pub open spec fn mounted_at(s: Seq<MountRecord>, source: Seq<u8>, dest: Seq<u8>) -> bool {
    exists|i: int| first_by_source(s, source, i) && s[i].dest == dest
}

/// A list of parsed mount entries, in table order.
#[derive(Debug, Clone, Hash, PartialEq, Eq, Default)]
pub struct MountList(pub Vec<MountInfo>);

impl View for MountList {
    type V = Seq<MountRecord>;

    open spec fn view(&self) -> Seq<MountRecord> {
        mount_views(self.0@)
    }
}

impl MountList {
    /// Parses every given line as a mount entry; the first failure is the
    /// result.
    pub fn parse_from(lines: &[&str]) -> (r: Result<MountList, ParseError>)
        ensures
            mounts_outcome(text_lines(lines@), r),
    {
        let ghost d = text_lines(lines@);
        let mut out: Vec<MountInfo> = Vec::new();
        let mut i: usize = 0;
        while i < lines.len()
            invariant
                d == text_lines(lines@),
                i <= lines.len(),
                out@.len() == i,
                forall|j: int| 0 <= j < i ==> mount_outcome(d[j], Ok(#[trigger] out@[j])),
            decreases lines.len() - i,
        {
            let line: &str = lines[i];
            assert(d[i as int] == encode_utf8(line@));
            match MountInfo::parse_line(line) {
                Ok(m) => {
                    out.push(m);
                },
                Err(e) => {
                    proof {
                        assert forall|j: int| 0 <= j < i implies (#[trigger] mount_line(d[j])) is Ok by {
                            assert(mount_outcome(d[j], Ok(out@[j])));
                        }
                    }
                    let r = Err(e);
                    assert(mounts_outcome(d, r));
                    return r;
                },
            }
            i += 1;
        }
        Ok(MountList(out))
    }

    /// Reads the entries of a mount table's text, passing over blank lines and
    /// comments; the first entry that fails is the result.
    pub fn new_from_reader(text: &str) -> (r: Result<MountList, ParseError>)
        ensures
            mounts_outcome(data_lines(lines(encode_utf8(text@))), r),
    {
        let mut it = MountIter::new_from_reader(text);
        let ghost d = data_lines(it@);
        let mut out: Vec<MountInfo> = Vec::new();
        loop
            invariant
                it.wf(),
                d == data_lines(lines(encode_utf8(text@))),
                out@.len() <= d.len(),
                data_lines(it@) == d.subrange(out@.len() as int, d.len() as int),
                forall|j: int| 0 <= j < out@.len() ==> mount_outcome(d[j], Ok(#[trigger] out@[j])),
            decreases d.len() - out@.len(),
        {
            let ghost k = out@.len() as int;
            let ghost rest = d.subrange(k, d.len() as int);
            match it.next() {
                None => {
                    assert(rest.len() == 0);
                    return Ok(MountList(out));
                },
                Some(Err(e)) => {
                    proof {
                        assert(d[k] == rest[0]);
                        assert forall|j: int| 0 <= j < k implies (#[trigger] mount_line(d[j])) is Ok by {
                            assert(mount_outcome(d[j], Ok(out@[j])));
                        }
                    }
                    let r = Err(e);
                    assert(mounts_outcome(d, r));
                    return r;
                },
                Some(Ok(m)) => {
                    proof {
                        assert(d[k] == rest[0]);
                        assert(rest.subrange(1, rest.len() as int) =~= d.subrange(k + 1, d.len() as int));
                    }
                    out.push(m);
                },
            }
        }
    }

    /// Returns true if the first entry whose source is `source` is mounted at
    /// `path`.
    pub fn source_mounted_at(&self, source: &str, path: &str) -> (r: bool)
        ensures
            r == mounted_at(self@, encode_utf8(source@), encode_utf8(path@)),
    {
        match self.get_mount_by_source(source) {
            Some(m) => same_bytes(m.dest.as_str().as_bytes(), path.as_bytes()),
            None => false,
        }
    }

    /// Finds the first mount which has the `path` destination.
    pub fn get_mount_by_dest(&self, path: &str) -> (r: Option<&MountInfo>)
        ensures
            r is None <==> forall|i: int| 0 <= i < self@.len() ==> self@[i].dest != encode_utf8(path@),
            r is Some ==> exists|i: int|
                first_by_dest(self@, encode_utf8(path@), i) && *r->0 == self.0@[i],
    {
        let mut i: usize = 0;
        while i < self.0.len()
            invariant
                i <= self.0@.len(),
                forall|j: int| 0 <= j < i ==> self@[j].dest != encode_utf8(path@),
            decreases self.0.len() - i,
        {
            if same_bytes(self.0[i].dest.as_str().as_bytes(), path.as_bytes()) {
                assert(first_by_dest(self@, encode_utf8(path@), i as int));
                return Some(&self.0[i]);
            }
            i += 1;
        }
        None
    }

    /// Finds the first mount which has the source `path`.
    pub fn get_mount_by_source(&self, path: &str) -> (r: Option<&MountInfo>)
        ensures
            r is None <==> forall|i: int| 0 <= i < self@.len() ==> self@[i].source != encode_utf8(path@),
            r is Some ==> exists|i: int|
                first_by_source(self@, encode_utf8(path@), i) && *r->0 == self.0@[i],
    {
        let mut i: usize = 0;
        while i < self.0.len()
            invariant
                i <= self.0@.len(),
                forall|j: int| 0 <= j < i ==> self@[j].source != encode_utf8(path@),
            decreases self.0.len() - i,
        {
            if same_bytes(self.0[i].source.as_str().as_bytes(), path.as_bytes()) {
                assert(first_by_source(self@, encode_utf8(path@), i as int));
                return Some(&self.0[i]);
            }
            i += 1;
        }
        None
    }

    /// The entries whose source starts with the bytes of `path`, in order.
    pub fn source_starts_with(&self, path: &str) -> (r: Vec<&MountInfo>)
        ensures
            derefs(r@) == prefix_search(self.0@, encode_utf8(path@), false),
    {
        let r = self.starts_with(path.as_bytes(), false);
        r
    }

    /// The entries whose destination starts with the bytes of `path`, in order.
    pub fn destination_starts_with(&self, path: &str) -> (r: Vec<&MountInfo>)
        ensures
            derefs(r@) == prefix_search(self.0@, encode_utf8(path@), true),
    {
        let r = self.starts_with(path.as_bytes(), true);
        r
    }

    #[verifier::loop_isolation(false)]
    fn starts_with(&self, path: &[u8], by_dest: bool) -> (r: Vec<&MountInfo>)
        ensures
            derefs(r@) == prefix_search(self.0@, path@, by_dest),
    {
        let ghost pred = prefix_pred(path@, by_dest);
        let mut out: Vec<&MountInfo> = Vec::new();
        let mut i: usize = 0;
        while i < self.0.len()
            invariant
                i <= self.0@.len(),
                derefs(out@) == self.0@.take(i as int).filter(pred),
            decreases self.0.len() - i,
        {
            let m = &self.0[i];
            let hit = if by_dest {
                starts_with(m.dest.as_str().as_bytes(), path)
            } else {
                starts_with(m.source.as_str().as_bytes(), path)
            };
            let ghost before = out@;
            if hit {
                out.push(m);
            }
            proof {
                let next = self.0@.take(i + 1);
                assert(next.drop_last() =~= self.0@.take(i as int));
                assert(next.last() == *m);
                assert(hit == pred(*m));
                reveal(Seq::filter);
                if hit {
                    assert(derefs(out@) =~= derefs(before).push(*m));
                }
                assert(derefs(out@) == next.filter(pred));
            }
            i += 1;
        }
        assert(self.0@.take(self.0@.len() as int) =~= self.0@);
        out
    }
}

/// In a non-empty list whose destinations are all different, looking up an
/// entry's destination finds that entry, and wherever a source is mounted at
/// a destination, the entry found by that destination has that source.
pub proof fn lemma_unique_dest_lookup(s: Seq<MountRecord>)
    requires
        s.len() > 0,
        forall|i: int, j: int| 0 <= i < j < s.len() ==> s[i].dest != s[j].dest,
    ensures
        forall|i: int| 0 <= i < s.len() ==> first_by_dest(s, #[trigger] s[i].dest, i),
        forall|source: Seq<u8>, dest: Seq<u8>|
            #[trigger] mounted_at(s, source, dest) ==> exists|i: int|
                first_by_dest(s, dest, i) && s[i].source == source,
{
    assert forall|i: int| 0 <= i < s.len() implies first_by_dest(s, #[trigger] s[i].dest, i) by {
        assert forall|j: int| 0 <= j < i implies s[j].dest != s[i].dest by {}
    }
    assert forall|source: Seq<u8>, dest: Seq<u8>| #[trigger] mounted_at(s, source, dest) implies exists|i: int|
        first_by_dest(s, dest, i) && s[i].source == source by {
        let k = choose|k: int| first_by_source(s, source, k) && s[k].dest == dest;
        assert forall|j: int| 0 <= j < k implies s[j].dest != dest by {}
        assert(first_by_dest(s, dest, k));
    }
}

/// A prefix search keeps exactly the entries whose chosen path starts with
/// the query's bytes, a byte-wise test that does not respect path segments.
pub proof fn lemma_prefix_search(v: Seq<MountInfo>, p: Seq<u8>, by_dest: bool)
    ensures
        forall|m: MountInfo|
            #[trigger] prefix_search(v, p, by_dest).contains(m) <==> v.contains(m) && has_prefix(
                if by_dest {
                    m@.dest
                } else {
                    m@.source
                },
                p,
            ),
{
    let pred = prefix_pred(p, by_dest);
    assert forall|m: MountInfo| #[trigger] prefix_search(v, p, by_dest).contains(m) implies v.contains(m)
        && pred(m) by {
        v.lemma_filter_contains_rev(pred, m);
        let i = choose|i: int| 0 <= i < v.filter(pred).len() && v.filter(pred)[i] == m;
        v.lemma_filter_pred(pred, i);
    }
    assert forall|m: MountInfo| v.contains(m) && pred(m) implies #[trigger] prefix_search(v, p, by_dest).contains(m) by {
        let i = choose|i: int| 0 <= i < v.len() && v[i] == m;
        v.lemma_filter_contains(pred, i);
    }
}

} // verus!
