//! Universal Binary JSON (UBJSON): a compact, self-describing binary encoding of
//! JSON-like values, with a writer, a streaming reader and a value codec whose
//! behaviour is stated and proved.

mod digits;
mod error;
mod input;
mod reader;
pub mod value;
pub mod shape;
pub mod decode;
pub mod text;
mod markers;
pub mod wire;
mod writer;

pub use input::ChunkedInput;
pub use error::{UbjError, UbjResult};
pub use markers::UbjMarker;
pub use reader::UbjReader;
pub use writer::UbjWriter;
pub use value::{to_vec, Payload, Value};
pub use shape::{PayloadShape, Shape};
pub use decode::{from_vec, read_value};
