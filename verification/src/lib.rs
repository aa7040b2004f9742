//! Solver for "Kombi" crossword puzzles: a grid of word boxes that cross each
//! other, and a word list that has to be distributed over the boxes.

pub mod layout;
pub mod output;
pub mod parsing;
pub mod solver;
pub mod text;
