//! A reliable, ordered transport over datagrams: the control block of one
//! connection, verified with Verus.
//!
//! The block is a state machine without I/O. The application hands it
//! bytes with [`KCP::send`] and takes messages with [`KCP::recv`]; the
//! network side hands it datagrams with [`KCP::input`] and takes the
//! datagrams that [`KCP::update`] and [`KCP::flush`] return.
//!
//! Every operation has a contract over the mathematical state of the block,
//! [`state::KcpState`]: the state after the operation and what it returns
//! are functions of the state before and of the arguments, written out as
//! `spec` functions beside the operation.
//!
//! - [`wire`]: the 24-byte header and its codec.
//! - [`segment`]: the segment and the queues of segments.
//! - [`state`]: the block, its model, and what holds of every block.
//! - [`send`], [`recv`]: the application side.
//! - [`input`], [`ack`]: the network side, inbound.
//! - [`flush`], [`pack`], [`update`]: the network side, outbound, and the
//!   clock.
//! - [`config`], [`inspect`]: settings and what a block tells of itself.
//! - [`laws`]: what follows for every block: framing, order, back-off,
//!   duplicates.
//! - [`link`]: what follows for two blocks: agreement on the wire, and
//!   delivery of what was sent over a link that loses nothing.
//! - [`scratch`]: the buffer in which datagrams are assembled, whose
//!   operations are taken on trust.

pub mod ack;
pub mod clock;
pub mod config;
pub mod flush;
pub mod input;
pub mod inspect;
pub mod laws;
pub mod link;
pub mod pack;
pub mod recv;
pub mod scratch;
pub mod segment;
pub mod send;
pub mod state;
pub mod update;
pub mod wire;

pub use crate::state::{KCP, KcpError};
