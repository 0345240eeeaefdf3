//! Reader and writer for the binary tree format of `shortcuts.vdf` files.
//!
//! A file is a sequence of tagged nodes: a one-byte tag, a NUL-terminated
//! name and a body. Lists nest other nodes and are closed by the end-of-list
//! tag, which the decoder consumes and the encoder writes back.
pub mod codec;
pub mod kind;
pub mod laws;
pub mod node;
pub mod reader;
pub mod text;
pub mod wire;

pub use codec::{read_data, write_data};
pub use kind::{get_prefix_from_type, get_type_from_prefix, ValveDataType};
pub use node::ValveData;
pub use reader::{ByteReader, ReadError};
pub use text::{read_null_string, write_null_string};
