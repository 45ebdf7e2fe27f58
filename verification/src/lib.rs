//! A bit-packing output buffer.
//!
//! Values of one to sixty-four bits are packed least significant bit first,
//! with nothing between them, into a buffer of bytes that is drained into a
//! byte sink. A sink may take only part of what it is offered, be
//! interrupted, or fail: no bit is lost then, and the write or flush can be
//! made again.
//!
//! The library is verified with Verus. The contracts say which bits stand in
//! the buffer, what was offered to the sink and what it took.
//!
//! - `bits`: the model, a stream of bits laid over bytes.
//! - `sink`: the sink, its answers, and what a write does with them.
//! - `width`: the width classes, type-level numbers of `typenum`. The calls
//!   into `typenum` and `typenum_loops` are the only code here that is
//!   believed and not proved.
//! - `writer`: the writer itself.
//! - `laws`: what holds of whole runs of the writer.

pub mod bits;
pub mod laws;
pub mod sink;
pub mod width;
pub mod writer;

pub use crate::sink::{
    next_step, Exchange, Progress, Recorded, Sink, SinkError, Step, WriteError, RETRY_LIMIT,
};
pub use crate::width::{ByteSize, Max16, Max24, Max32, Max40, Max48, Max56, Max64, Max8};
pub use crate::writer::VariableSizeByteWriter;
