//! A small local credential store: an encoding engine that turns raw byte
//! sequences into printable password text, a record database persisted as
//! one structured line per record, and a fuzzy subsequence view over the
//! records keyed by service name.

pub mod codec;
pub mod database;
pub mod encoding;
pub mod subseq;
pub mod text;
