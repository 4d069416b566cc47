use vstd::prelude::*;
use vstd::utf8::*;

use crate::error::{Field, ParseError};
use crate::escape::{decode, decode_value, lemma_decode_errors};
use crate::format::{append_bytes, append_decimal, decimal, lemma_ascii_valid, lemma_decimal_valid};
use crate::number::{number_in, parse_i32};
use crate::outside::{
    alias_prefix, device_path, is_known_alias, partition_id, path_text, utf8_string,
};
use crate::utf8_cut::{lemma_fields_valid, lemma_pieces_valid};
use crate::text::{
    copy_bytes, fields, has_prefix, pieces, split_fields, split_pieces, starts_with, views,
};

verus! {

/// What a mount entry says, as bytes.
pub ghost struct MountRecord {
    pub source: Seq<u8>,
    pub dest: Seq<u8>,
    pub fstype: Seq<u8>,
    pub options: Seq<Seq<u8>>,
    pub dump: i32,
    pub pass: i32,
}

/// A mount entry which contains information regarding how and where a source
/// is mounted.
#[derive(Debug, Clone, Hash, PartialEq, Eq, Default)]
pub struct MountInfo {
    /// The source which is mounted.
    pub source: String,
    /// Where the source is mounted.
    pub dest: String,
    /// The type of the mounted file system.
    pub fstype: String,
    /// Options specified for this file system.
    pub options: Vec<String>,
    /// Defines if the file system should be dumped.
    pub dump: i32,
    /// Defines if the file system should be checked, and in what order.
    pub pass: i32,
}

impl View for MountInfo {
    type V = MountRecord;

    open spec fn view(&self) -> MountRecord {
        MountRecord {
            source: encode_utf8(self.source@),
            dest: encode_utf8(self.dest@),
            fstype: encode_utf8(self.fstype@),
            options: self.options@.map_values(|o: String| encode_utf8(o@)),
            dump: self.dump,
            pass: self.pass,
        }
    }
}

/// The value of an optional numeric column: absent means zero.
pub open spec fn column_number(f: Seq<Seq<u8>>, k: int) -> Option<int> {
    if f.len() > k {
        number_in(f[k], true, i32::MIN as int, i32::MAX as int)
    } else {
        Some(0)
    }
}

/// Every piece of `s` is valid UTF-8.
pub open spec fn all_valid_utf8(s: Seq<Seq<u8>>) -> bool {
    forall|i: int| 0 <= i < s.len() ==> valid_utf8(#[trigger] s[i])
}

/// The decoded source of a mount table line, after the checks that come
/// before it: the four required fields `source dest fstype options`, split on
/// blanks, and the optional numbers `dump` and `pass`.
pub open spec fn source_stage(line: Seq<u8>) -> Result<Seq<u8>, ParseError> {
    let f = fields(line);
    if f.len() < 1 {
        Err(ParseError::MissingField(Field::Source))
    } else if f.len() < 2 {
        Err(ParseError::MissingField(Field::Dest))
    } else if f.len() < 3 {
        Err(ParseError::MissingField(Field::FsType))
    } else if f.len() < 4 {
        Err(ParseError::MissingField(Field::Options))
    } else if column_number(f, 4) is None {
        Err(ParseError::InvalidNumber(Field::Dump))
    } else if column_number(f, 5) is None {
        Err(ParseError::InvalidNumber(Field::Pass))
    } else {
        match decode(f[0]) {
            Err(e) => Err(e),
            Ok(source) => if !valid_utf8(source) {
                Err(ParseError::NonUtf8Path)
            } else {
                Ok(source)
            },
        }
    }
}

/// The record that a line of the mount table holds, before any device alias
/// in its source is resolved: the source as `source_stage` gives it, then the
/// destination decoded from its escapes.
#[verifier::opaque]
pub open spec fn mount_line(line: Seq<u8>) -> Result<MountRecord, ParseError> {
    let f = fields(line);
    match source_stage(line) {
        Err(e) => Err(e),
        Ok(source) => match decode(f[1]) {
            Err(e) => Err(e),
            Ok(dest) => if !valid_utf8(dest) {
                Err(ParseError::NonUtf8Path)
            } else {
                Ok(
                    MountRecord {
                        source,
                        dest,
                        fstype: f[2],
                        options: pieces(f[3], 44),
                        dump: column_number(f, 4)->0 as i32,
                        pass: column_number(f, 5)->0 as i32,
                    },
                )
            },
        },
    }
}

/// A line's record starts with the source that `source_stage` gives, and a
/// line whose source fails fails with that error.
pub proof fn lemma_mount_line_source(line: Seq<u8>)
    ensures
        mount_line(line) is Ok ==> source_stage(line) == Ok::<Seq<u8>, ParseError>(
            mount_line(line)->Ok_0.source,
        ),
        source_stage(line) is Err ==> mount_line(line) == Err::<MountRecord, ParseError>(
            source_stage(line)->Err_0,
        ),
{
    reveal(mount_line);
}

/// The source names a stable device alias, which is resolved on parsing.
pub open spec fn is_alias(source: Seq<u8>) -> bool {
    has_prefix(source, alias_prefix())
}

/// `r` is a result that parsing `line` may give. Where the source is no
/// device alias, that is the record itself or the line's error. Where it is
/// one, the alias is resolved before the destination is read: an unknown alias
/// kind, and only that, gives `AliasReadError`; a failed lookup gives one of
/// the alias errors; after a lookup that succeeded, the destination's error
/// or the record with the device in place of the alias.
pub open spec fn mount_outcome(line: Seq<u8>, r: Result<MountInfo, ParseError>) -> bool {
    match source_stage(line) {
        Err(e) => r == Err::<MountInfo, ParseError>(e),
        Ok(source) => if !is_alias(source) {
            match mount_line(line) {
                Ok(m) => r is Ok && r->Ok_0@ == m,
                Err(e) => r == Err::<MountInfo, ParseError>(e),
            }
        } else {
            &&& (is_known_alias(source) <==> r != Err::<MountInfo, ParseError>(
                ParseError::AliasReadError,
            ))
            &&& match r {
                Ok(info) => mount_line(line) is Ok && info@ == MountRecord {
                    source: info@.source,
                    ..mount_line(line)->Ok_0
                },
                Err(e) => e == ParseError::AliasReadError || e == ParseError::AliasNotFound || e
                    == ParseError::NonUtf8Path || mount_line(line) == Err::<MountRecord, ParseError>(e),
            }
        },
    }
}

fn text_of(v: Vec<u8>) -> (r: Result<String, ParseError>)
    ensures
        valid_utf8(v@) <==> r is Ok,
        r is Ok ==> encode_utf8(r->Ok_0@) == v@,
        r is Err ==> r == Err::<String, ParseError>(ParseError::NonUtf8Path),
{
    match utf8_string(v) {
        Some(s) => Ok(s),
        None => Err(ParseError::NonUtf8Path),
    }
}

/// Whether a decoded source names a stable device alias.
pub fn is_alias_source(source: &String) -> (r: bool)
    ensures
        r == is_alias(encode_utf8(source@)),
{
    let prefix: [u8; 13] = [47, 100, 101, 118, 47, 100, 105, 115, 107, 47, 98, 121, 45];
    assert(prefix@ =~= alias_prefix());
    starts_with(source.as_str().as_bytes(), prefix.as_slice())
}

/// The result of resolving an alias from what the lookups gave: `known`
/// tells whether the alias kind was understood, `found` what the device
/// lookup gave (`None`: no device; `Some(None)`: a device path that is not
/// UTF-8; `Some(Some(p))`: the device `p`).
pub fn alias_result(known: bool, found: Option<Option<String>>) -> (r: Result<String, ParseError>)
    ensures
        !known ==> r == Err::<String, ParseError>(ParseError::AliasReadError),
        known ==> match found {
            None => r == Err::<String, ParseError>(ParseError::AliasNotFound),
            Some(None) => r == Err::<String, ParseError>(ParseError::NonUtf8Path),
            Some(Some(p)) => r == Ok::<String, ParseError>(p),
        },
{
    if !known {
        return Err(ParseError::AliasReadError);
    }
    match found {
        None => Err(ParseError::AliasNotFound),
        Some(None) => Err(ParseError::NonUtf8Path),
        Some(Some(p)) => Ok(p),
    }
}

/// Finds the device that a stable alias such as `/dev/disk/by-uuid/...`
/// names. Which device that is, and whether there is one, depends on the
/// machine; an alias of an unknown kind, and only such an alias, fails with
/// `AliasReadError`.
pub fn resolve_alias(path: &String) -> (r: Result<String, ParseError>)
    ensures
        is_known_alias(encode_utf8(path@)) <==> r != Err::<String, ParseError>(
            ParseError::AliasReadError,
        ),
        r is Err ==> r->Err_0 == ParseError::AliasReadError || r->Err_0 == ParseError::AliasNotFound
            || r->Err_0 == ParseError::NonUtf8Path,
{
    match partition_id(path.as_str()) {
        Err(_) => alias_result(false, None),
        Ok(id) => {
            let found = match device_path(&id) {
                None => None,
                Some(p) => Some(path_text(&p)),
            };
            alias_result(true, found)
        },
    }
}

/// The options joined with commas.
pub open spec fn joined(o: Seq<Seq<u8>>) -> Seq<u8>
    decreases o.len(),
{
    if o.len() == 0 {
        seq![]
    } else if o.len() == 1 {
        o[0]
    } else {
        joined(o.drop_last()) + seq![44u8] + o.last()
    }
}

/// The bytes of "defaults", written for an empty option list.
pub open spec fn defaults_text() -> Seq<u8> {
    seq![100u8, 101, 102, 97, 117, 108, 116, 115]
}

/// The options column of a record.
pub open spec fn options_text(o: Seq<Seq<u8>>) -> Seq<u8> {
    if o.len() == 0 {
        defaults_text()
    } else {
        joined(o)
    }
}

/// A record written as a mount table line: `source dest fstype options dump pass`.
pub open spec fn mount_text(m: MountRecord) -> Seq<u8> {
    m.source + seq![32u8] + m.dest + seq![32u8] + m.fstype + seq![32u8] + options_text(m.options)
        + seq![32u8] + decimal(m.dump as int) + seq![32u8] + decimal(m.pass as int)
}

proof fn lemma_joined_valid(o: Seq<Seq<u8>>)
    requires
        all_valid_utf8(o),
    ensures
        valid_utf8(joined(o)),
    decreases o.len(),
{
    if o.len() > 1 {
        let init = o.drop_last();
        assert(all_valid_utf8(init)) by {
            assert forall|i: int| 0 <= i < init.len() implies valid_utf8(#[trigger] init[i]) by {
                assert(init[i] == o[i]);
            }
        }
        lemma_joined_valid(init);
        lemma_ascii_valid(seq![44u8]);
        assert(valid_utf8(o[o.len() - 1]));
        valid_utf8_concat(joined(init), seq![44u8]);
        valid_utf8_concat(joined(init) + seq![44u8], o.last());
    } else if o.len() == 1 {
        assert(valid_utf8(o[0]));
    } else {
        lemma_ascii_valid(seq![]);
    }
}

proof fn lemma_mount_text_valid(m: MountRecord)
    requires
        valid_utf8(m.source),
        valid_utf8(m.dest),
        valid_utf8(m.fstype),
        all_valid_utf8(m.options),
    ensures
        valid_utf8(mount_text(m)),
{
    let sp = seq![32u8];
    lemma_ascii_valid(sp);
    lemma_ascii_valid(defaults_text());
    lemma_joined_valid(m.options);
    lemma_decimal_valid(m.dump as int);
    lemma_decimal_valid(m.pass as int);
    let o = options_text(m.options);
    let a1 = m.source + sp;
    valid_utf8_concat(m.source, sp);
    let a2 = a1 + m.dest;
    valid_utf8_concat(a1, m.dest);
    let a3 = a2 + sp;
    valid_utf8_concat(a2, sp);
    let a4 = a3 + m.fstype;
    valid_utf8_concat(a3, m.fstype);
    let a5 = a4 + sp;
    valid_utf8_concat(a4, sp);
    let a6 = a5 + o;
    valid_utf8_concat(a5, o);
    let a7 = a6 + sp;
    valid_utf8_concat(a6, sp);
    let a8 = a7 + decimal(m.dump as int);
    valid_utf8_concat(a7, decimal(m.dump as int));
    let a9 = a8 + sp;
    valid_utf8_concat(a8, sp);
    valid_utf8_concat(a9, decimal(m.pass as int));
}

impl MountInfo {
    /// The decoded source of a mount table line, after the checks that come
    /// before it.
    pub fn decoded_source(line: &[u8]) -> (r: Result<String, ParseError>)
        requires
            valid_utf8(line@),
        ensures
            match source_stage(line@) {
                Ok(s) => r is Ok && encode_utf8(r->Ok_0@) == s,
                Err(e) => r == Err::<String, ParseError>(e),
            },
    {
        let f = split_fields(line);
        if f.len() < 1 {
            return Err(ParseError::MissingField(Field::Source));
        }
        if f.len() < 2 {
            return Err(ParseError::MissingField(Field::Dest));
        }
        if f.len() < 3 {
            return Err(ParseError::MissingField(Field::FsType));
        }
        if f.len() < 4 {
            return Err(ParseError::MissingField(Field::Options));
        }
        if f.len() > 4 && parse_i32(f[4].as_slice()).is_none() {
            return Err(ParseError::InvalidNumber(Field::Dump));
        }
        if f.len() > 5 && parse_i32(f[5].as_slice()).is_none() {
            return Err(ParseError::InvalidNumber(Field::Pass));
        }
        let src = match decode_value(f[0].as_slice()) {
            Ok(v) => v,
            Err(e) => return Err(e),
        };
        text_of(src)
    }

    /// Parses a mount table line, leaving a device alias in the source as it
    /// stands.
    #[verifier::loop_isolation(false)]
    pub fn parse_unresolved(line: &[u8]) -> (r: Result<MountInfo, ParseError>)
        requires
            valid_utf8(line@),
        ensures
            match mount_line(line@) {
                Ok(m) => r is Ok && r->Ok_0@ == m,
                Err(e) => r == Err::<MountInfo, ParseError>(e),
            },
    {
        reveal(mount_line);
        let f = split_fields(line);
        let ghost fv = fields(line@);
        proof {
            lemma_fields_valid(line@);
        }
        if f.len() < 1 {
            return Err(ParseError::MissingField(Field::Source));
        }
        if f.len() < 2 {
            return Err(ParseError::MissingField(Field::Dest));
        }
        if f.len() < 3 {
            return Err(ParseError::MissingField(Field::FsType));
        }
        if f.len() < 4 {
            return Err(ParseError::MissingField(Field::Options));
        }
        let dump: i32 = if f.len() > 4 {
            match parse_i32(f[4].as_slice()) {
                Some(v) => v,
                None => return Err(ParseError::InvalidNumber(Field::Dump)),
            }
        } else {
            0
        };
        let pass: i32 = if f.len() > 5 {
            match parse_i32(f[5].as_slice()) {
                Some(v) => v,
                None => return Err(ParseError::InvalidNumber(Field::Pass)),
            }
        } else {
            0
        };
        let src = match decode_value(f[0].as_slice()) {
            Ok(v) => v,
            Err(e) => return Err(e),
        };
        let source = text_of(src)?;
        let dst = match decode_value(f[1].as_slice()) {
            Ok(v) => v,
            Err(e) => return Err(e),
        };
        let dest = text_of(dst)?;
        let fstype = text_of(copy_bytes(f[2].as_slice()))?;
        let raw = split_pieces(f[3].as_slice(), 44);
        proof {
            lemma_pieces_valid(fv[3], 44);
        }
        let mut options: Vec<String> = Vec::new();
        let mut k: usize = 0;
        while k < raw.len()
            invariant
                k <= raw.len(),
                fv.len() >= 4,
                views(raw@) == pieces(fv[3], 44),
                options@.len() == k,
                forall|j: int| 0 <= j < k ==> encode_utf8(#[trigger] options@[j]@) == raw@[j]@,
                forall|j: int| 0 <= j < k ==> valid_utf8(#[trigger] raw@[j]@),
            decreases raw.len() - k,
        {
            assert(raw@[k as int]@ == pieces(fv[3], 44)[k as int]);
            let piece = match text_of(copy_bytes(raw[k].as_slice())) {
                Ok(s) => s,
                Err(e) => return Err(e),
            };
            options.push(piece);
            k += 1;
        }
        let info = MountInfo { source, dest, fstype, options, dump, pass };
        assert(info@.options =~= pieces(fv[3], 44));
        Ok(info)
    }

    /// Parses a `/proc/mounts`-like line, resolving a stable device alias in
    /// its source to the device it names.
    pub fn parse_line(line: &str) -> (r: Result<MountInfo, ParseError>)
        ensures
            mount_outcome(encode_utf8(line@), r),
    {
        proof {
            encode_utf8_valid_utf8(line@);
        }
        Self::parse_bytes(line.as_bytes())
    }

    /// Parses a mount table line given as bytes, resolving a stable device
    /// alias in its source.
    pub fn parse_bytes(line: &[u8]) -> (r: Result<MountInfo, ParseError>)
        requires
            valid_utf8(line@),
        ensures
            mount_outcome(line@, r),
    {
        let source = Self::decoded_source(line)?;
        if is_alias_source(&source) {
            let device = resolve_alias(&source)?;
            proof {
                reveal(mount_line);
                lemma_decode_errors(fields(line@)[1]);
            }
            let info = Self::parse_unresolved(line)?;
            info.with_resolved_source(Ok(device))
        } else {
            Self::parse_unresolved(line)
        }
    }

    /// The entry with the device that its alias source was resolved to, or
    /// the reason the alias could not be resolved.
    pub fn with_resolved_source(self, resolved: Result<String, ParseError>) -> (r: Result<
        MountInfo,
        ParseError,
    >)
        ensures
            match resolved {
                Ok(device) => r is Ok && r->Ok_0@ == MountRecord {
                    source: encode_utf8(device@),
                    ..self@
                },
                Err(e) => r == Err::<MountInfo, ParseError>(e),
            },
    {
        match resolved {
            Ok(device) => Ok(MountInfo { source: device, ..self }),
            Err(e) => Err(e),
        }
    }

    /// The entry written as a mount table line, options joined with commas
    /// and an empty option list written as `defaults`.
    pub fn to_string(&self) -> (r: String)
        ensures
            encode_utf8(r@) == mount_text(self@),
    {
        let ghost m = self@;
        let mut out: Vec<u8> = Vec::new();
        append_bytes(&mut out, self.source.as_str().as_bytes());
        out.push(32);
        append_bytes(&mut out, self.dest.as_str().as_bytes());
        out.push(32);
        append_bytes(&mut out, self.fstype.as_str().as_bytes());
        out.push(32);
        let ghost head = out@;
        if self.options.len() == 0 {
            let d: [u8; 8] = [100, 101, 102, 97, 117, 108, 116, 115];
            assert(d@ =~= defaults_text());
            append_bytes(&mut out, d.as_slice());
        } else {
            let mut k: usize = 0;
            while k < self.options.len()
                invariant
                    k <= self.options@.len(),
                    k == 0 ==> out@ == head,
                    k > 0 ==> out@ == head + joined(m.options.take(k as int)),
                    m == self@,
                decreases self.options.len() - k,
            {
                let ghost before = out@;
                if k > 0 {
                    out.push(44);
                }
                append_bytes(&mut out, self.options[k].as_str().as_bytes());
                proof {
                    let t = m.options.take(k + 1);
                    assert(t.drop_last() =~= m.options.take(k as int));
                    assert(t.last() == encode_utf8(self.options@[k as int]@));
                    assert(out@ =~= head + joined(t));
                }
                k += 1;
            }
            assert(m.options.take(m.options.len() as int) =~= m.options);
        }
        out.push(32);
        append_decimal(&mut out, self.dump as i128);
        out.push(32);
        append_decimal(&mut out, self.pass as i128);
        assert(out@ =~= mount_text(m));
        proof {
            broadcast use encode_utf8_valid_utf8;

            assert forall|i: int| 0 <= i < m.options.len() implies valid_utf8(#[trigger] m.options[i]) by {
                assert(m.options[i] == encode_utf8(self.options@[i]@));
            }
            lemma_mount_text_valid(m);
        }
        match utf8_string(out) {
            Some(s) => s,
            None => String::new(),
        }
    }
}

} // verus!
