//! An in-memory employee directory: a line-oriented command interpreter
//! that tracks which employees belong to which department and lists them
//! back out in sorted order, together with a few small verified utilities
//! (integer statistics, a pig-latin transformer, and assorted small types).

pub mod basics;
pub mod text;
pub mod directory;
pub mod parser;
pub mod executor;
pub mod laws;
pub mod statistics;
pub mod pig_latin;
pub mod guessing_game;
pub mod restaurant;
pub mod rectangle;
pub mod coins;
pub mod generics;
