//! A Go playing engine: a board that keeps its chains, liberties and position
//! hash consistent move after move, a game layer that enforces positional
//! superko, and a Monte-Carlo move chooser built on random playouts.

pub mod board;
pub mod chain;
pub mod cli;
pub mod color;
pub mod coord;
pub mod engine;
pub mod game;
pub mod goban;
pub mod gomove;
pub mod group;
pub mod gtp;
pub mod hash;
pub mod playout;
pub mod rng;
pub mod rules;
pub mod ruleset;
pub mod score;
pub mod sgf;
pub mod step;
pub mod text;
pub mod territory;
