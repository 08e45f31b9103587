//! Luby transform (LT) fountain codes: an encoder that turns a byte buffer
//! into an endless stream of droplets, each the XOR of a few source blocks,
//! and a peeling decoder that rebuilds the buffer from enough droplets.
use vstd::prelude::*;

pub mod be_bytes;
pub mod droptype;
pub mod blocks;
pub mod rng;
pub mod encoder;
pub mod occ;
pub mod decoder;
pub mod api;

