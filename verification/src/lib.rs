//! A hangman game whose computer opponent keeps as many words in play as it
//! can: instead of committing to a secret word, it narrows a list of
//! candidate words after each guess.

mod random;
pub mod removal;
pub mod words;
pub mod groups;
pub mod game;
pub mod laws;
pub mod meaning;
