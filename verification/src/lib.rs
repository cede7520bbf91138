//! A codec for a textual, length-prefixed wire format: a tagged value model,
//! its canonical binary encoding, a streaming decoder that handles buffers
//! holding several back-to-back values or a truncated one, and the
//! accumulation buffer a byte-stream transport drives.

pub mod value;
pub mod num;
pub mod codec;
pub mod render;
pub mod stream;

pub use value::RedisValue;
pub use value::ValueModel;
pub use value::Command;
pub use codec::Decoded;
