//! Deciding whether a multiset of mahjong tiles forms a legally complete hand.
//!
//! The library models tiles (suited and honor), recognizes the four meld
//! kinds (pair, triplet, quad, run), and decides hand completeness by a
//! verified search over a 34-slot tile-identity frequency table, together
//! with the two special shapes (seven pairs and thirteen orphans). A small
//! codec converts the compact tilestring notation into tiles.

pub mod rules;
pub mod serial;

pub use rules::tile::Jihai;
pub use rules::tile::Kazehai;
pub use rules::tile::Pai;
pub use rules::tile::Sangenpai;
pub use rules::tile::Shoku;
pub use rules::tile::Suupai;

pub use rules::mentsu::is_complete_hand;
pub use rules::mentsu::is_jantou;
pub use rules::mentsu::is_kantsu;
pub use rules::mentsu::is_koutsu;
pub use rules::mentsu::is_shuntsu;

pub use serial::is_tilestring;
pub use serial::tilestring_to_pais;
