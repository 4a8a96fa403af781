//! The tile model: suited and honor tiles, and identity equality.

use vstd::prelude::*;

verus! {

/// A suit.
#[derive(Clone, Copy, Debug, PartialEq, Eq, Structural)]
pub enum Shoku {
    Manzu,
    Pinzu,
    Souzu,
}

/// A wind.
#[derive(Clone, Copy, Debug, PartialEq, Eq, Structural)]
pub enum Kazehai {
    Ton,
    Nan,
    Shaa,
    Pei,
}

/// A dragon.
#[derive(Clone, Copy, Debug, PartialEq, Eq, Structural)]
pub enum Sangenpai {
    Chun,
    Haku,
    Hatsu,
}

/// A number tile. The rank runs from 1 through 9; `akadora` marks a red
/// five, a cosmetic attribute that never takes part in identity equality.
#[derive(Clone, Copy, Debug)]
pub struct Suupai {
    /// The suit.
    pub shoku: Shoku,
    /// The rank, a number from 1 through 9.
    pub rank: u8,
    /// Whether this tile is a red dora.
    pub akadora: bool,
}

/// An honor tile.
#[derive(Clone, Copy, Debug, PartialEq, Eq, Structural)]
pub enum Jihai {
    Kazehai(Kazehai),
    Sangenpai(Sangenpai),
}

/// A tile.
#[derive(Clone, Copy, Debug)]
pub enum Pai {
    Jihai(Jihai),
    Suupai(Suupai),
}

/// Identity equality of tiles: suit or honor kind and rank or value must
/// match; the red-five marker is scoring metadata and is ignored.
pub open spec fn pai_eq(a: Pai, b: Pai) -> bool {
    match (a, b) {
        (Pai::Jihai(x), Pai::Jihai(y)) => x == y,
        (Pai::Suupai(x), Pai::Suupai(y)) => x.shoku == y.shoku && x.rank == y.rank,
        _ => false,
    }
}

impl PartialEq for Suupai {
    fn eq(&self, other: &Suupai) -> (r: bool) {
        self.shoku == other.shoku && self.rank == other.rank
    }
}

impl vstd::std_specs::cmp::PartialEqSpecImpl for Suupai {
    open spec fn obeys_eq_spec() -> bool {
        true
    }

    open spec fn eq_spec(&self, other: &Suupai) -> bool {
        self.shoku == other.shoku && self.rank == other.rank
    }
}

impl PartialEq for Pai {
    fn eq(&self, other: &Pai) -> (r: bool) {
        match (self, other) {
            (Pai::Jihai(x), Pai::Jihai(y)) => x == y,
            (Pai::Suupai(x), Pai::Suupai(y)) => x == y,
            _ => false,
        }
    }
}

impl vstd::std_specs::cmp::PartialEqSpecImpl for Pai {
    open spec fn obeys_eq_spec() -> bool {
        true
    }

    open spec fn eq_spec(&self, other: &Pai) -> bool {
        pai_eq(*self, *other)
    }
}

/// A well-formed tile: a suited rank lies in 1 through 9. Honor tiles carry
/// no rank and are always well formed.
pub open spec fn wf_pai(p: Pai) -> bool {
    match p {
        Pai::Suupai(s) => 1 <= s.rank <= 9,
        Pai::Jihai(_) => true,
    }
}

/// The number of distinct tile identities: 3 suits of 9 ranks, 4 winds and
/// 3 dragons.
pub const NUM_IDS: usize = 34;

/// Where a suit's nine identity slots begin.
pub open spec fn suit_base(s: Shoku) -> int {
    match s {
        Shoku::Manzu => 0,
        Shoku::Pinzu => 9,
        Shoku::Souzu => 18,
    }
}

/// The identity slot of an honor tile.
pub open spec fn jihai_id(j: Jihai) -> int {
    match j {
        Jihai::Kazehai(Kazehai::Ton) => 27,
        Jihai::Kazehai(Kazehai::Nan) => 28,
        Jihai::Kazehai(Kazehai::Shaa) => 29,
        Jihai::Kazehai(Kazehai::Pei) => 30,
        Jihai::Sangenpai(Sangenpai::Chun) => 31,
        Jihai::Sangenpai(Sangenpai::Haku) => 32,
        Jihai::Sangenpai(Sangenpai::Hatsu) => 33,
    }
}

/// The identity slot of a tile: suited tiles fill 0 through 26, honors 27
/// through 33. The red-five marker does not enter the identity.
pub open spec fn pai_id(p: Pai) -> int {
    match p {
        Pai::Suupai(s) => suit_base(s.shoku) + s.rank - 1,
        Pai::Jihai(j) => jihai_id(j),
    }
}

/// Two well-formed tiles are identity-equal exactly when they share an
/// identity slot.
pub proof fn lemma_pai_eq_is_id_eq(a: Pai, b: Pai)
    requires
        wf_pai(a),
        wf_pai(b),
    ensures
        pai_eq(a, b) == (pai_id(a) == pai_id(b)),
{
}

/// A red-marked five is identity-equal to an unmarked five of the same
/// suit: the marker never separates two tiles.
pub proof fn lemma_red_five_identity(shoku: Shoku)
    ensures
        pai_eq(
            Pai::Suupai(Suupai { shoku, rank: 5, akadora: true }),
            Pai::Suupai(Suupai { shoku, rank: 5, akadora: false }),
        ),
{
}

/// The identity slot of a well-formed tile, as an index into a 34-slot
/// frequency table.
pub fn pai_id_index(p: &Pai) -> (i: usize)
    requires
        wf_pai(*p),
    ensures
        i == pai_id(*p),
        i < NUM_IDS,
{
    match p {
        Pai::Suupai(s) => {
            let base: usize = match s.shoku {
                Shoku::Manzu => 0,
                Shoku::Pinzu => 9,
                Shoku::Souzu => 18,
            };
            base + (s.rank as usize) - 1
        },
        Pai::Jihai(j) => match j {
            Jihai::Kazehai(Kazehai::Ton) => 27,
            Jihai::Kazehai(Kazehai::Nan) => 28,
            Jihai::Kazehai(Kazehai::Shaa) => 29,
            Jihai::Kazehai(Kazehai::Pei) => 30,
            Jihai::Sangenpai(Sangenpai::Chun) => 31,
            Jihai::Sangenpai(Sangenpai::Haku) => 32,
            Jihai::Sangenpai(Sangenpai::Hatsu) => 33,
        },
    }
}

} // verus!
