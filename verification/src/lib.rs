//! Ratatoskr carries media streams to a renderer and owns none of them.
//!
//! It implements no transport: no sequence numbers, no acknowledgements, no
//! retransmit timers. It is handed what a transport delivered, and hands back
//! what a renderer can present and what a producer should be told.
//!
//! - [`video`] puts access units back together from chunks and parity;
//!   [`frame`], [`erasure`] and [`reassembly`] say what that means, and
//!   [`laws`] what it promises; [`conduct`] tells what one record does and what
//!   time brings, and [`recovery`] what comes through of what a producer sent.
//! - [`feedback`] decides what is said back to the producer, and how often.
//! - [`receiver`] turns what the transport reported into media events.
//! - [`catalog`] makes a picker of what advertises, and a request for a stream.
//! - [`ffi`] decides what the C interface returns.
//!
//! Nothing here reads a clock, a socket or a file. How records are spelled on
//! the wire and which ones are well-formed is the media contract's business:
//! where that decides, a function takes the contract's answer, or a closure
//! that asks for it.

mod assembly;
mod indexed;
mod pending;

pub mod catalog;
pub mod clock;
pub mod conduct;
pub mod erasure;
pub mod feedback;
pub mod ffi;
pub mod frame;
pub mod keys;
pub mod laws;
pub mod reassembly;
pub mod receiver;
pub mod records;
pub mod recovery;
pub mod text;
pub mod video;

pub use catalog::{
    publish_request, pull_catalog, start_request, stop_request, store_path_for, CatalogOptions,
    CatalogPull,
};
pub use clock::{Duration, Instant};
pub use feedback::{FeedbackComposer, FeedbackOptions, FeedbackStats};
pub use frame::VideoFrame;
pub use keys::{ChunkKey, FrameKey};
pub use receiver::{MediaEvent, RatatoskrReceiver, ReceiverOptions};
pub use video::{
    ExpiredFrame, ExpiryReason, RepairRequest, VideoAssembler, VideoAssemblerOptions, VideoStats,
};

use vstd::prelude::*;

verus! {

/// The channel media rides. Named here once so nothing downstream guesses it
/// from a string literal.
pub const MEDIA_CHANNEL: &'static str = "media";

} // verus!
