//! The decisions of a log-backup stream: which regions are observed, how far
//! they are resolved, and how the observed events are framed.
//!
//! - [`observer`]: which task an event of the store calls for.
//! - [`subscription`]: the regions that are being observed.
//! - [`resolver`]: resolving a region while it is still being scanned.
//! - [`stream_event`]: the framing of events.
//! - [`segments`] and [`keys`]: key ranges and the order of keys.
pub mod keys;
pub mod observer;
pub mod resolver;
pub mod segments;
pub mod stream_event;
pub mod subscription;
