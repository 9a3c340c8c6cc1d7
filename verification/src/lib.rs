//! A simulator and search helpers for the "lambda lifting" mine puzzle.
pub mod geom;
pub mod space;
pub mod mine;
pub mod state;
pub mod text;
pub mod random;
pub mod bots;
pub mod hist;
pub mod rules;
pub mod settle;
pub mod term;
