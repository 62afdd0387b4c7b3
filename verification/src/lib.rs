//! Streaming encoder for the HTTP/1.1 chunked transfer coding.
//!
//! An [`Encoder`] takes bytes as they come, buffers them, and hands them to a
//! [`Sink`] in frames of a fixed chunk size; ending the stream emits what is
//! left and the terminating empty chunk. The total length of the data need
//! not be known in advance.
//!
//! - [`sink`]: where the bytes go, and how contracts speak of it.
//! - [`hex`]: the length of a chunk as it is written on the wire.
//! - [`frame`]: one chunk on the wire.
//! - [`chunking`]: how buffered bytes are cut into chunks.
//! - [`encoder`]: the encoder itself.
//! - [`decode`]: a reader of chunked streams, as a specification.
//! - [`session`]: whole streams, and the proof that they read back as the
//!   bytes that were written.

pub mod chunking;
pub mod decode;
pub mod encoder;
pub mod frame;
pub mod hex;
pub mod session;
pub mod sink;

pub use encoder::Encoder;
pub use frame::send;
pub use sink::Sink;
