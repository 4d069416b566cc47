use vstd::prelude::*;
use vstd::utf8::*;

use crate::error::ParseError;
use crate::format::{append_bytes, lemma_ascii_valid};
use crate::info::{mount_outcome, mount_text, MountInfo};
use crate::list::derefs;
use crate::outside::utf8_string;
use crate::utf8_cut::{lemma_lines_valid, lemma_skip_ws_boundary, lemma_valid_subrange};
use crate::text::{lines, skip_whitespace, skip_ws, split_lines, views};

verus! {

/// An element in an abstract representation of the mount tab that was read
/// into memory.
#[derive(Clone, Debug, PartialEq, Eq)]
pub enum AbstractMountElement {
    /// An element which is a comment.
    Comment(String),
    /// An element which is an empty line.
    Empty,
    /// An element which defines a mount point.
    Mount(MountInfo),
}

impl From<String> for AbstractMountElement {
    fn from(comment: String) -> (r: Self) {
        AbstractMountElement::Comment(comment)
    }
}

impl vstd::std_specs::convert::FromSpecImpl<String> for AbstractMountElement {
    open spec fn obeys_from_spec() -> bool {
        true
    }

    open spec fn from_spec(v: String) -> Self {
        AbstractMountElement::Comment(v)
    }
}

impl From<()> for AbstractMountElement {
    fn from(empty: ()) -> (r: Self) {
        AbstractMountElement::Empty
    }
}

impl vstd::std_specs::convert::FromSpecImpl<()> for AbstractMountElement {
    open spec fn obeys_from_spec() -> bool {
        true
    }

    open spec fn from_spec(v: ()) -> Self {
        AbstractMountElement::Empty
    }
}

impl From<MountInfo> for AbstractMountElement {
    fn from(info: MountInfo) -> (r: Self) {
        AbstractMountElement::Mount(info)
    }
}

impl vstd::std_specs::convert::FromSpecImpl<MountInfo> for AbstractMountElement {
    open spec fn obeys_from_spec() -> bool {
        true
    }

    open spec fn from_spec(v: MountInfo) -> Self {
        AbstractMountElement::Mount(v)
    }
}

/// `l` without the whitespace that opens it.
pub open spec fn trim_start(l: Seq<u8>) -> Seq<u8> {
    l.subrange(skip_ws(l, 0), l.len() as int)
}

/// `e` is an element that reading the line `l` of a mount tab may give: an
/// empty line for one of blanks only, the trimmed text for a comment, and
/// otherwise the mount entry the line holds.
pub open spec fn element_outcome(l: Seq<u8>, r: Result<AbstractMountElement, ParseError>) -> bool {
    let t = trim_start(l);
    if t.len() == 0 {
        r == Ok::<AbstractMountElement, ParseError>(AbstractMountElement::Empty)
    } else if t[0] == 35 {
        r is Ok && r->Ok_0 is Comment && encode_utf8(r->Ok_0->Comment_0@) == t
    } else {
        match r {
            Ok(AbstractMountElement::Mount(m)) => mount_outcome(l, Ok(m)),
            Ok(_) => false,
            Err(e) => mount_outcome(l, Err(e)),
        }
    }
}

/// Some element can be read from the line `l`.
pub open spec fn element_reads(l: Seq<u8>) -> bool {
    exists|x: AbstractMountElement| element_outcome(l, Ok(x))
}

/// `r` is a result that reading the lines `ls` as a mount tab may give: one
/// element for each line, or the error of a line such that every line before
/// it was read.
pub open spec fn tab_outcome(ls: Seq<Seq<u8>>, r: Result<MountTab, ParseError>) -> bool {
    match r {
        Ok(tab) => tab.0@.len() == ls.len() && forall|i: int|
            0 <= i < ls.len() ==> element_outcome(ls[i], Ok(#[trigger] tab.0@[i])),
        Err(e) => exists|i: int|
            0 <= i < ls.len() && element_outcome(#[trigger] ls[i], Err(e)) && forall|j: int|
                0 <= j < i ==> #[trigger] element_reads(ls[j]),
    }
}

/// The mount entries among `v`, in order.
pub open spec fn mounts_of(v: Seq<AbstractMountElement>) -> Seq<MountInfo> {
    v.filter_map(
        |e: AbstractMountElement|
            match e {
                AbstractMountElement::Mount(m) => Some(m),
                _ => None,
            },
    )
}

proof fn lemma_mounts_of_len(v: Seq<AbstractMountElement>, i: int)
    requires
        0 <= i < v.len(),
        v[i] is Mount,
    ensures
        mounts_of(v).len() > mounts_of(v.take(i)).len(),
    decreases v.len(),
{
    let w = v.drop_last();
    if i == v.len() - 1 {
        assert(w =~= v.take(i));
    } else {
        assert(w.take(i) =~= v.take(i));
        lemma_mounts_of_len(w, i);
        assert(w[i] == v[i]);
    }
}

/// Provides an abstract representation of the contents of a mount tab.
///
/// Each element is an individual line of the text it was read from, so the tab can
/// be edited and written out again.
#[derive(Clone, Debug, PartialEq, Eq, Default)]
pub struct MountTab(pub Vec<AbstractMountElement>);

fn parse_element(l: &[u8]) -> (r: Result<AbstractMountElement, ParseError>)
    requires
        valid_utf8(l@),
    ensures
        element_outcome(l@, r),
{
    let k = skip_whitespace(l, 0);
    if k == l.len() {
        return Ok(AbstractMountElement::Empty);
    }
    if l[k] == 35 {
        let mut t: Vec<u8> = Vec::new();
        let mut i: usize = k;
        while i < l.len()
            invariant
                k <= i <= l.len(),
                t@ == l@.subrange(k as int, i as int),
            decreases l.len() - i,
        {
            t.push(l[i]);
            i += 1;
            assert(t@ =~= l@.subrange(k as int, i as int));
        }
        proof {
            lemma_skip_ws_boundary(l@, 0);
            is_char_boundary_start_end_of_seq(l@);
            lemma_valid_subrange(l@, k as int, l@.len() as int);
        }
        match utf8_string(t) {
            Some(s) => Ok(AbstractMountElement::Comment(s)),
            None => Err(ParseError::NonUtf8Path),
        }
    } else {
        match MountInfo::parse_bytes(l) {
            Ok(m) => Ok(AbstractMountElement::Mount(m)),
            Err(e) => Err(e),
        }
    }
}

/// An element written as a line of text, without its line feed.
pub open spec fn element_text(e: AbstractMountElement) -> Seq<u8> {
    match e {
        AbstractMountElement::Comment(c) => encode_utf8(c@),
        AbstractMountElement::Empty => seq![],
        AbstractMountElement::Mount(m) => mount_text(m@),
    }
}

/// The elements written one per line, each line ended by a line feed.
pub open spec fn tab_text(v: Seq<AbstractMountElement>) -> Seq<u8>
    decreases v.len(),
{
    if v.len() == 0 {
        seq![]
    } else {
        tab_text(v.drop_last()) + element_text(v.last()) + seq![10u8]
    }
}

impl MountTab {
    /// The tab written out: comments and blank lines as they were read, mount
    /// entries in their canonical form, each on its own line.
    pub fn to_string(&self) -> (r: String)
        ensures
            encode_utf8(r@) == tab_text(self.0@),
    {
        let mut out: Vec<u8> = Vec::new();
        let mut i: usize = 0;
        proof {
            lemma_ascii_valid(seq![]);
            lemma_ascii_valid(seq![10u8]);
        }
        while i < self.0.len()
            invariant
                i <= self.0@.len(),
                out@ == tab_text(self.0@.take(i as int)),
                valid_utf8(out@),
            decreases self.0.len() - i,
        {
            let ghost before = out@;
            let ghost next = self.0@.take(i + 1);
            assert(next.drop_last() =~= self.0@.take(i as int));
            match &self.0[i] {
                AbstractMountElement::Comment(c) => {
                    append_bytes(&mut out, c.as_str().as_bytes());
                    proof {
                        encode_utf8_valid_utf8(c@);
                        assert(valid_utf8(element_text(self.0@[i as int])));
                        assert(out@ =~= before + element_text(self.0@[i as int]));
                    }
                },
                AbstractMountElement::Empty => {
                    assert(out@ =~= before + element_text(self.0@[i as int]));
                },
                AbstractMountElement::Mount(m) => {
                    let line = m.to_string();
                    append_bytes(&mut out, line.as_str().as_bytes());
                    proof {
                        encode_utf8_valid_utf8(line@);
                        assert(valid_utf8(element_text(self.0@[i as int])));
                        assert(out@ =~= before + element_text(self.0@[i as int]));
                    }
                },
            }
            proof {
                lemma_ascii_valid(seq![]);
                lemma_ascii_valid(seq![10u8]);
                valid_utf8_concat(before, element_text(self.0@[i as int]));
                valid_utf8_concat(out@, seq![10u8]);
            }
            out.push(10);
            assert(out@ =~= tab_text(next));
            i += 1;
        }
        assert(self.0@.take(self.0@.len() as int) =~= self.0@);
        match utf8_string(out) {
            Some(s) => s,
            None => String::new(),
        }
    }

    /// Reads the text of a mount tab, one element for each line.
    pub fn from_str(text: &str) -> (r: Result<MountTab, ParseError>)
        ensures
            tab_outcome(lines(encode_utf8(text@)), r),
    {
        let ls = split_lines(text.as_bytes());
        let ghost lv = lines(encode_utf8(text@));
        proof {
            encode_utf8_valid_utf8(text@);
            lemma_lines_valid(encode_utf8(text@));
        }
        let mut out: Vec<AbstractMountElement> = Vec::new();
        let mut i: usize = 0;
        while i < ls.len()
            invariant
                views(ls@) == lv,
                lv == lines(encode_utf8(text@)),
                forall|k: int| 0 <= k < lv.len() ==> valid_utf8(#[trigger] lv[k]),
                i <= ls@.len(),
                out@.len() == i,
                forall|j: int| 0 <= j < i ==> element_outcome(lv[j], Ok(#[trigger] out@[j])),
            decreases ls.len() - i,
        {
            assert(lv[i as int] == ls@[i as int]@);
            assert(valid_utf8(lv[i as int]));
            match parse_element(ls[i].as_slice()) {
                Ok(e) => out.push(e),
                Err(e) => {
                    proof {
                        assert(element_outcome(lv[i as int], Err(e)));
                        assert forall|j: int| 0 <= j < i implies #[trigger] element_reads(lv[j]) by {
                            assert(element_outcome(lv[j], Ok(out@[j])));
                        }
                    }
                    let r = Err(e);
                    assert(tab_outcome(lv, r));
                    return r;
                },
            }
            i += 1;
        }
        Ok(MountTab(out))
    }

    /// The mount entries of the tab, in order.
    pub fn iter_mounts(&self) -> (r: Vec<&MountInfo>)
        ensures
            derefs(r@) == mounts_of(self.0@),
    {
        let mut out: Vec<&MountInfo> = Vec::new();
        let mut i: usize = 0;
        while i < self.0.len()
            invariant
                i <= self.0@.len(),
                derefs(out@) == mounts_of(self.0@.take(i as int)),
            decreases self.0.len() - i,
        {
            let ghost before = out@;
            let ghost next = self.0@.take(i + 1);
            assert(next.drop_last() =~= self.0@.take(i as int));
            match &self.0[i] {
                AbstractMountElement::Mount(m) => {
                    out.push(m);
                    assert(derefs(out@) =~= derefs(before) + seq![*m]);
                },
                _ => {},
            }
            i += 1;
        }
        assert(self.0@.take(self.0@.len() as int) =~= self.0@);
        out
    }

    /// Replaces the `n`-th mount entry of the tab (counting mount entries
    /// only) with `info`, leaving every other element as it was; a tab with
    /// fewer entries is left unchanged.
    pub fn replace_mount(&mut self, n: usize, info: MountInfo) -> (r: bool)
        ensures
            r == (n < mounts_of(old(self).0@).len()),
            r ==> exists|i: int|
                0 <= i < old(self).0@.len() && mounts_of(old(self).0@.take(i)).len() == n
                    && old(self).0@[i] is Mount && final(self).0@ == old(self).0@.update(
                    i,
                    AbstractMountElement::Mount(info),
                ),
            !r ==> final(self).0@ == old(self).0@,
    {
        let mut i: usize = 0;
        let mut seen: usize = 0;
        while i < self.0.len()
            invariant
                i <= self.0@.len(),
                self.0@ == old(self).0@,
                seen as int == mounts_of(self.0@.take(i as int)).len(),
                seen <= n,
            decreases self.0.len() - i,
        {
            let ghost next = self.0@.take(i + 1);
            assert(next.drop_last() =~= self.0@.take(i as int));
            let is_mount = match &self.0[i] {
                AbstractMountElement::Mount(_) => true,
                _ => false,
            };
            if is_mount {
                if seen == n {
                    let ghost before = self.0@;
                    self.0.set(i, AbstractMountElement::Mount(info));
                    proof {
                        lemma_mounts_of_len(before, i as int);
                    }
                    return true;
                }
                seen += 1;
            }
            i += 1;
        }
        assert(self.0@.take(self.0@.len() as int) =~= self.0@);
        false
    }

    /// Appends an element of any kind.
    pub fn push(&mut self, element: AbstractMountElement)
        ensures
            final(self).0@ == old(self).0@.push(element),
    {
        self.0.push(element);
    }
}

} // verus!
