//! Decoders for the accession (`AC`) and identification (`ID`) lines of a
//! flat-file protein sequence database entry.

pub mod text;
pub mod ac;
pub mod id;

pub use text::SyntaxError;
pub use ac::{accession, ac_line};
pub use id::{entry_name, id_line, length, status, EntryStatus, IdLine, UnknownStatus};
