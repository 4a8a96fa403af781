//! Types and functions that implement mahjong rules.

pub mod mentsu;
pub mod tile;
