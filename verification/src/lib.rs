//! Frame ingest and event assembly for a time-projection-chamber data
//! acquisition: a decoder for GRAW frames, the pad map, events built from
//! frames that share an event id, and the cache that holds events in flight
//! and hands out the least recently modified one.
//!
//! Everything here computes on plain values. Sockets, channels and tasks are
//! left to the program around this library.
//!
//! Three choices are fixed here and a deployment has to agree with them:
//!
//! * Framing: an exporter sends each frame behind its length in bytes, eight
//!   bytes little-endian (see `receiver`).
//! * Time stamps: the first writer wins (see `event::append_spec`).
//! * Completeness: an event is handed on when newer frames crowd it out of
//!   the cache, not when it is complete; it may lack frames. The cache
//!   counts frames, not bytes.

pub mod constants;
pub mod error;
pub mod fx_map;
pub mod graw_frame;
pub mod frame_encoding;
pub mod pad_map;
pub mod event;
pub mod event_builder;
pub mod point_cloud;
pub mod receiver;
pub mod conduit;
