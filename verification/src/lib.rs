//! Codec for the save files of a certain action role-playing game.
//!
//! The heart of the crate is `save`: a verified decoder and encoder for the
//! game's little-endian, length-prefixed binary save format, together with
//! the spec-level description of that format that the contracts speak of.

use vstd::prelude::*;

pub mod save;

verus! {

/// Configuration kept by an editor built on this crate: where the game is
/// installed, if the user has told us.
pub struct Config {
    pub game_directory: Option<String>,
}

impl Default for Config {
    fn default() -> (c: Config)
        ensures
            c.game_directory is None,
    {
        Config { game_directory: None }
    }
}

} // verus!
