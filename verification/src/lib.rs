//! Client-side core of the Rocket sync-tracker protocol.
//!
//! The crate holds the parts of a Rocket client that can be reasoned about
//! without a socket: the keyframe store and its bracketing rule, the wire
//! codec and its incremental frame decoder, and the reconnect-aware session
//! that sits on top of both. The functions are verified against their
//! contracts, but for three small wrappers whose contracts are taken on
//! trust: the two that call `byteorder` for big-endian fields, and the one
//! that asks a `std::io::Error` whether its kind is `WouldBlock`. Input and
//! output are left to the caller, which hands received bytes in and takes
//! encoded messages out.

pub mod client;
pub mod interpolation;
pub mod player;
pub mod rocket;
pub mod snapshot;
pub mod track;
pub mod tracks;
pub mod wire;

pub use client::RocketClient;
pub use interpolation::Interpolation;
pub use player::RocketPlayer;
pub use rocket::{Event, Rocket};
pub use track::{Key, Sample, Track};
pub use tracks::Tracks;
