//! Structured views over the kernel's mount and swap tables.
//!
//! Every table line is read as bytes: fields are split on blank bytes, octal
//! escapes are decoded, and the decoded fields become typed records whose
//! contracts are stated over the byte sequences they came from. A stable
//! device alias in a mount source is resolved through `partition-identity`.

pub mod error;
pub mod escape;
pub mod format;
pub mod info;
pub mod iter;
pub mod list;
pub mod number;
pub mod outside;
pub mod round_trip;
pub mod swaps;
pub mod tab;
pub mod text;
pub mod utf8_cut;
pub mod watch;

pub use error::{Field, ParseError};
pub use escape::decode_value;
pub use info::{resolve_alias, MountInfo};
pub use iter::MountIter;
pub use list::MountList;
pub use number::{parse_i32, parse_isize, parse_usize};
pub use swaps::{SwapInfo, SwapIter, SwapList};
pub use tab::{AbstractMountElement, MountTab};
pub use text::{split_fields, split_lines, split_pieces};
pub use watch::Watcher;
