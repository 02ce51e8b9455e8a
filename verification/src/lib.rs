//! Maze Core: chain-agnostic dynamic maze routing.
//!
//! The crate generates maze topologies used for privacy-preserving
//! transaction routing. It is independent of any specific blockchain.

pub mod address_gen;
pub mod error;
pub mod headroom;
pub mod laws;
pub mod params;
pub mod plan;
pub mod solana;
mod rng;
pub mod text;
pub mod topology;
pub mod utils;

pub use address_gen::{AddressGenerator, DummyAddressGenerator};
pub use error::{MazeError, Result};
pub use params::{DelayPattern, DelayScope, MazeParameters, MergeStrategy};
pub use topology::{MazeGenerator, MazeGraph, MazeNode};
