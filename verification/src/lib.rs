//! Reading and writing of IFF-style chunk containers.

pub mod chunk;
pub mod error;
pub mod format;
pub mod laws;
pub mod lemmas;
pub mod type_id;

pub use chunk::Chunk;
pub use error::Error;
pub use type_id::TypeID;
pub use type_id::{CAT, FORM, LIST, PROP};
