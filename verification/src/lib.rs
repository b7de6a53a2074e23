//! Server-side real-time collaboration core.
//!
//! One `CollabGroup` per shared document keeps the authoritative replica,
//! fans every accepted edit out to all subscribed devices except the one
//! that produced it, and answers reconnect handshakes with either the
//! missed updates or a full snapshot of the document.

pub mod broadcast;
pub mod doc;
pub mod group;
pub mod subscription;
pub mod sync;
