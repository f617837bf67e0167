//! A codec for a compact, tagged binary serialization format exchanging
//! tuples of dynamically typed values (nil, boolean, double-precision
//! number, UTF-8 string, associative table) with a Lua-like interpreter.
//!
//! Numbers travel as their IEEE-754 bit patterns (`u64`), strings as
//! UTF-8 byte vectors, and tables as ordered sequences of key/value
//! pairs whose wire layout records an array-part/hash-part split.

mod bytes;
mod decode;
mod encode;
mod error;
mod laws;
mod type_id;
mod value;

pub use decode::load;
pub use encode::{save, try_save};

pub use error::DecodeError;
pub use type_id::TypeIdentifier;
pub use value::{Key, KeyModel, NotNanBits, Value, ValueModel};
