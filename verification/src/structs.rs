//! The game's data: the playing field, the words on it, the player and the
//! command line arguments.

use vstd::prelude::*;

verus! {

/// Column of the shield; a word whose position falls left of it hits the shield.
pub const SHIELD_POSITION: i32 = 15;

/// Base speed of the game, before the level is taken into account.
pub const INITIAL_SPEED: i32 = 15000;

/// The number of shields a player starts with.
pub const MAX_SHIELDS: i32 = 15;

/// Command line arguments for the application.
#[derive(Debug)]
pub struct Args {
    /// username
    pub username: String,
    /// path to highscore file
    pub path: String,
    /// show highscore
    pub show_highscore: bool,
}

/// The rectangle the words move across.
pub struct Field {
    pub width: i32,
    pub height: i32,
}

/// A word on the field.
#[derive(Clone)]
pub struct Word {
    /// What is left to type of the word.
    pub word: String,
    /// The word as it was drawn from the dictionary.
    pub original_word: String,
    pub x: i32,
    pub y: i32,
    /// The player has begun typing this word.
    pub started: bool,
    pub enabled: bool,
    /// The word has been typed to its end and is no longer drawn.
    pub completed: bool,
    /// At least one letter of the word has been typed.
    pub hit: bool,
}

/// The player and the running state of the game.
pub struct Player {
    pub name: String,
    pub shields: i32,
    pub level: i32,
    pub score: i32,
    pub is_alive: bool,
}

impl Player {
    /// A new player at level 1 with no score and all shields up.
    pub fn new(name: String) -> (p: Self)
        ensures
            p.name@ == name@,
            p.shields == MAX_SHIELDS,
            p.level == 1,
            p.score == 0,
            p.is_alive,
    {
        Self { name, shields: MAX_SHIELDS, level: 1, score: 0, is_alive: true }
    }
}

} // verus!
