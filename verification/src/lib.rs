//! A local-first, multi-machine synchronization engine for a personal
//! reference-document library. Each machine keeps an append-only operation
//! log; logs are merged by a deterministic, causally-aware reconciler that
//! reports conflicts instead of resolving them silently.

pub mod clock;
pub mod env;
pub mod file;
pub mod ids;
pub mod merge;
pub mod op;
