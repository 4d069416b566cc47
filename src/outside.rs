use vstd::prelude::*;
use vstd::utf8::*;

use partition_identity::PartitionID;
use std::path::PathBuf;

verus! {

#[verifier::external_type_specification]
#[verifier::external_body]
pub struct ExPartitionID(partition_identity::PartitionID);

#[verifier::external_type_specification]
#[verifier::external_body]
pub struct ExPartitionError(partition_identity::Error);

#[verifier::external_type_specification]
#[verifier::external_body]
pub struct ExPathBuf(std::path::PathBuf);

/// The bytes of "/dev/disk/by-", the directory of stable device aliases.
pub open spec fn alias_prefix() -> Seq<u8> {
    seq![47u8, 100, 101, 118, 47, 100, 105, 115, 107, 47, 98, 121, 45]
}

/// The alias kinds that `PartitionID::from_disk_by_path` knows, each with its
/// slash: "id/", "label/", "partlabel/", "partuuid/", "path/", "uuid/".
pub open spec fn alias_kinds() -> Seq<Seq<u8>> {
    seq![
        seq![105u8, 100, 47],
        seq![108u8, 97, 98, 101, 108, 47],
        seq![112u8, 97, 114, 116, 108, 97, 98, 101, 108, 47],
        seq![112u8, 97, 114, 116, 117, 117, 105, 100, 47],
        seq![112u8, 97, 116, 104, 47],
        seq![117u8, 117, 105, 100, 47],
    ]
}

/// `p` begins with the alias directory followed by one of the known kinds.
pub open spec fn is_known_alias(p: Seq<u8>) -> bool {
    p.len() >= 13 && p.take(13) == alias_prefix() && exists|k: int|
        0 <= k < alias_kinds().len() && crate::text::has_prefix(
            p.skip(13),
            #[trigger] alias_kinds()[k],
        )
}

/// Relies on `String::from_utf8`: it succeeds exactly on valid UTF-8 and then
/// holds the same bytes.
#[verifier::external_body]
pub(crate) fn utf8_string(v: Vec<u8>) -> (r: Option<String>)
    ensures
        r is Some <==> valid_utf8(v@),
        r is Some ==> encode_utf8(r->0@) == v@,
{
    String::from_utf8(v).ok()
}

/// Relies on `PartitionID::from_disk_by_path`: it accepts a path made of the
/// alias directory and a known kind, and refuses any other.
#[verifier::external_body]
pub(crate) fn partition_id(path: &str) -> (r: Result<PartitionID, partition_identity::Error>)
    ensures
        r is Ok <==> is_known_alias(encode_utf8(path@)),
{
    PartitionID::from_disk_by_path(path)
}

/// Relies on `PartitionID::get_device_path`: the device that the identity
/// names, as found on this machine, if any.
#[verifier::external_body]
pub(crate) fn device_path(id: &PartitionID) -> (r: Option<PathBuf>) {
    id.get_device_path()
}

/// Relies on `Path::to_str`: the path as text, where it is UTF-8.
#[verifier::external_body]
pub(crate) fn path_text(p: &PathBuf) -> (r: Option<String>) {
    p.to_str().map(|s| s.to_owned())
}

} // verus!
