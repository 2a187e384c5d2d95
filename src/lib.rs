//! A minimal chat protocol: a length-prefixed wire format, an incremental
//! frame reassembler for polled connections, and the decisions of a
//! single-room broadcast server.
pub mod frame;
pub mod room;
pub mod text;
pub mod wire;

pub use frame::{FrameBuffer, PollEvent, Polled, ReadOutcome};
pub use room::{
    activity_of, announce, find_string, handshake, joining, plan_pass, retain_kept, Activity,
    Delivery, Handshake, Joining, LogEntry, PassPlan,
};
pub use wire::{
    bytes_to_uint, decode, encode, padding_after, uint_to_bytes, Code, DecodeError, EncodeError,
    MAX_FRAME_LEN,
};
