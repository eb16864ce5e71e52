//! Pins for nix flakes kept in a TOML file: short-url expansion, NAR hashing,
//! command-line parsing, pin-file editing and status rendering.
use vstd::prelude::*;

pub mod text;
pub mod shorturl;
pub mod nar;
pub mod ui;
pub mod cli;
pub mod pins;
pub mod commands;

verus! {

} // verus!
