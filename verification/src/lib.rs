//! A word-graph dictionary and a tile-placement move search built on it.

pub mod bag;
pub mod board;
pub mod builder;
pub mod crossword;
pub mod game;
pub mod graph;
pub mod language;
pub mod placement;
pub mod rules;
pub mod search;
pub mod text;
