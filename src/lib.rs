//! A capacity-bounded cache of decoded video frames.
//!
//! The library holds the decisions of the cache: which request gets a decode
//! task, which task the worker runs, what a finished decode stores, and which
//! entries leave when the byte budget is exceeded. Waiting, threads and the
//! codec itself live with the caller, who hands results back in.
//!
//! - `frame`: frame sizes, the empty and dummy frames, row packing.
//! - `future`: the one-shot value cell that waiters of a frame share.
//! - `cache`: one file's cache, its request path, worker steps and eviction.
//! - `decoder`: the registry of caches and the byte meter they share.
//! - `concat`, `segment`: what the renderer hands to ffmpeg.
pub mod cache;
pub mod concat;
pub mod decoder;
pub mod frame;
pub mod future;
pub mod segment;
