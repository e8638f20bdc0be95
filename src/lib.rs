//! Solver for "letter box" word puzzles: a board of four sides of letters,
//! a dictionary filtered to the words the board allows, and a bounded search
//! for short chains of words that together use every letter of the board.

pub mod board;
pub mod board_input;
pub mod dictionary;
pub mod session;
pub mod solver;
pub mod text;
pub mod wordlist;
