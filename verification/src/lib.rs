//! A keyless, reversible transform on byte buffers.
//!
//! A buffer is cut into chunks of four bytes. The chunks are rotated by a fixed
//! number of places, each is wrapped in a record of eight bytes that starts with
//! the record's position, and the bytes that fill no chunk follow unchanged.
//! Undoing the transform reads the records' payloads and rotates them back.
//!
//! This hides the order of the data from a casual reader. It is no encryption:
//! there is no key, and nothing is protected against change.

pub mod chunker;
pub mod laws;
pub mod parts;
pub mod record;
pub mod rotation;
pub mod transform;

pub use record::{CodecError, Record, CHUNK_SIZE, RECORD_SIZE, TAG_SIZE};
pub use rotation::ROT;
pub use transform::{deobfuscate_iter, deobfuscate_strict, obfuscate_iter};
