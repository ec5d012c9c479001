//! Decoding of POSIX `ustar` tar archives held in memory.
//!
//! Every header field and every content payload is a view into the input
//! buffer. Each function states its result over byte-level models of the
//! archive layout, so what a decode returns is pinned down by the bytes.

pub mod archive;
pub mod field;
pub mod header;
pub mod layout;
pub mod octal;
pub mod typeflag;

pub use archive::{filter_entries, parse_contents, parse_entry, parse_tar, TarEntry};
pub use field::{take_str_eat_garbage, DecodeError, TarError};
pub use header::{parse_header, PosixHeader, UStarHeader};
pub use octal::{octal_to_u64, OctalError};
pub use typeflag::{char_to_type_flag, TypeFlag};
