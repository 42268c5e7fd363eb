//! A circular log for memory that survives resets.
//!
//! The log lives in a byte region that the caller owns, such as a stretch of
//! RAM that a soft reset leaves alone. The region begins with a header of
//! twenty bytes, every field little-endian:
//!
//! | offset | size | field        |                                          |
//! |--------|------|--------------|------------------------------------------|
//! | 0      | 4    | `magic`      | `LOG_MAGIC_V1` once the region is formatted |
//! | 4      | 4    | `length`     | length of the region                     |
//! | 8      | 8    | `epoch`      | random high half; the low half counts wraps |
//! | 16     | 2    | `head`       | where the next entry will be written     |
//! | 18     | 2    | `head_check` | bitwise complement of `head`             |
//!
//! What follows is the data area, used as a ring of frames: a two-byte
//! prefix holding the payload length plus one, then the payload.
//!
//! [`Log::init`] opens a log on a region and formats the region where its
//! header cannot be trusted. [`Log::append`] writes an entry at `head`.
//! Readers hold a [`Cursor`], which names an epoch and an offset and borrows
//! nothing from the log; [`Log::read_at`] hands out the entry at a cursor and
//! the cursor behind it. When `head` reaches the end of the ring the epoch
//! moves on, and every cursor of an earlier epoch is refused as stale.
//!
//! The log writes in an order that keeps the region sound across a reset at
//! any moment, and calls a [`FlushBarrier`] wherever that order matters. It
//! takes no lock: the caller sees to it that one handle works on a region at
//! a time.
pub mod layout;
pub mod header;
pub mod ring;
pub mod cursor;
pub mod barrier;
pub mod format;
pub mod frame;
pub mod log;
pub mod laws;
pub mod reset;

pub use crate::barrier::{FlushBarrier, NoFlush};
pub use crate::cursor::{AppendError, Cursor, Entry, ReadError};
pub use crate::header::{HeaderStatus, LogHeader};
pub use crate::log::Log;
