//! A verified core for a terminal hangman game.
//!
//! The library holds the game's state machine (guessing letters, revealing
//! the placeholder, counting lives), the win scoreboard, the save-file
//! format, and the word list. Reading input and writing to the terminal or
//! to disk stay outside.

pub mod codec;
pub mod game;
pub mod scoreboard;
pub mod words;
