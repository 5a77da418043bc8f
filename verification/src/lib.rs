//! A decoder for a compact, self-describing binary serialization format.
//!
//! Each encoded unit starts with a marker byte that names the value's
//! type and, for the tiny forms, its payload length; the sized forms
//! carry an explicit big-endian length prefix. The decoder turns one
//! fully materialized byte buffer into a sequence of [`Value`] trees.
//!
//! The wire format itself is written down as specification functions
//! over byte sequences, and the executable decoder is proved to return
//! exactly what those functions say.

pub mod decoder;
pub mod laws;
pub mod value;
pub mod wire;

pub use decoder::Decoder;
pub use value::PackStreamResult;
pub use value::PackStreamStruct;
pub use value::SpecValue;
pub use value::UnpackError;
pub use value::Value;
pub use value::pair_views;
pub use value::views;
pub use wire::spec_unpack_all;
pub use wire::spec_unpack_next;
pub use wire::spec_unpack_run;
