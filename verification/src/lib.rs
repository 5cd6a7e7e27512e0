//! A user-space packet-processing pipeline: packets drawn from NUMA-local
//! pools flow through per-core graphs of processing modules and leave through
//! burst-mode NIC adapters. Every rule of the pipeline - pool accounting,
//! refcounted fan-out, header encoding, route selection, the worker loop -
//! is stated in contracts and verified.

use vstd::prelude::*;

pub mod codec;
pub mod config;
pub mod engine;
pub mod memory;
pub mod packet;
pub mod modules;
pub mod nio;
pub mod protocol;
pub mod registry;
pub mod service;

verus! {

/// Largest payload a frame may carry.
pub const MTU: u16 = 1500;

/// Fresh local packets leave this much headroom for headers to grow downward.
pub const DEFAULT_OFFSET: u16 = 64;

/// Size of the buffer embedded in each locally-backed packet:
/// `MTU` plus `DEFAULT_OFFSET` bytes of headroom.
pub const PACKET_BUF_SIZE: usize = 1564;

/// Adapters stage at most this many outgoing frames before flushing.
pub const BURST_SIZE: usize = 64;

/// A worker's task stack never holds more than this many tasks.
pub const TASK_QUEUE_SIZE: usize = 2048;

/// Per-thread free-list caches hold at most this many objects.
pub const CACHE_SIZE: usize = 256;

/// Upper bound on dense thread identifiers.
pub const MAX_THREAD_NUM: usize = 2048;

} // verus!
