//! Core of a multi-touch musical instrument: decodes a stream of primitive
//! input events into per-frame touch snapshots, and maps touch positions to
//! note identities and display hues through a geometric region lookup.
//!
//! The library is pure: reading the input device, the equal-tempered
//! frequency synthesis (floating point) and the on-screen rendering are left
//! to the surrounding application.

pub mod areas;
pub mod evdev;
pub mod shape;
pub mod sound;
