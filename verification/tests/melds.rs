use mahjong::{is_jantou, is_kantsu, is_koutsu, is_shuntsu, Jihai, Kazehai, Pai, Sangenpai, Shoku, Suupai};

#[test]
fn lib_two_red_dragons_are_a_pair() {
    let tile1 = Pai::Jihai(Jihai::Sangenpai(Sangenpai::Chun));
    let tile2 = Pai::Jihai(Jihai::Sangenpai(Sangenpai::Chun));
    assert_eq!(is_jantou(&[tile1, tile2]), true);
}

#[test]
fn lib_two_threes_of_bamboos_are_a_pair() {
    let tile1 = Pai::Suupai(Suupai { shoku: Shoku::Souzu, rank: 3, akadora: false });
    let tile2 = Pai::Suupai(Suupai { shoku: Shoku::Souzu, rank: 3, akadora: false });
    assert_eq!(is_jantou(&[tile1, tile2]), true);
}

#[test]
fn lib_three_north_winds_are_a_triplet() {
    let tile1 = Pai::Jihai(Jihai::Kazehai(Kazehai::Pei));
    let tile2 = Pai::Jihai(Jihai::Kazehai(Kazehai::Pei));
    let tile3 = Pai::Jihai(Jihai::Kazehai(Kazehai::Pei));
    assert_eq!(is_koutsu(&[tile1, tile2, tile3]), true);
}

#[test]
fn lib_three_different_winds_are_a_not_triplet() {
    let tile1 = Pai::Jihai(Jihai::Kazehai(Kazehai::Pei));
    let tile2 = Pai::Jihai(Jihai::Kazehai(Kazehai::Ton));
    let tile3 = Pai::Jihai(Jihai::Kazehai(Kazehai::Shaa));
    assert_eq!(is_koutsu(&[tile1, tile2, tile3]), false);
}

#[test]
fn lib_single_tile_is_not_triplet() {
    let tile1 = Pai::Jihai(Jihai::Kazehai(Kazehai::Pei));
    assert_eq!(is_koutsu(&[tile1]), false);
}

#[test]
fn lib_two_different_threes_are_not_a_pair() {
    let tile1 = Pai::Suupai(Suupai { shoku: Shoku::Souzu, rank: 3, akadora: false });
    let tile2 = Pai::Suupai(Suupai { shoku: Shoku::Manzu, rank: 3, akadora: false });
    assert_eq!(is_jantou(&[tile1, tile2]), false);
}

#[test]
fn mentsu_two_red_dragons_are_a_pair() {
    let tile1 = Pai::Jihai(Jihai::Sangenpai(Sangenpai::Chun));
    let tile2 = Pai::Jihai(Jihai::Sangenpai(Sangenpai::Chun));
    assert_eq!(is_jantou(&vec![tile1, tile2]), true);
}

#[test]
fn mentsu_two_threes_of_bamboos_are_a_pair() {
    let tile1 = Pai::Suupai(Suupai { shoku: Shoku::Souzu, rank: 3, akadora: false });
    let tile2 = Pai::Suupai(Suupai { shoku: Shoku::Souzu, rank: 3, akadora: false });
    assert_eq!(is_jantou(&vec![tile1, tile2]), true);
}

#[test]
fn mentsu_two_different_threes_are_not_a_pair() {
    let tile1 = Pai::Suupai(Suupai { shoku: Shoku::Souzu, rank: 3, akadora: false });
    let tile2 = Pai::Suupai(Suupai { shoku: Shoku::Manzu, rank: 3, akadora: false });
    assert_eq!(is_jantou(&vec![tile1, tile2]), false);
}

#[test]
fn mentsu_three_north_winds_are_a_triplet() {
    let tile1 = Pai::Jihai(Jihai::Kazehai(Kazehai::Pei));
    let tile2 = Pai::Jihai(Jihai::Kazehai(Kazehai::Pei));
    let tile3 = Pai::Jihai(Jihai::Kazehai(Kazehai::Pei));
    assert_eq!(is_koutsu(&vec![tile1, tile2, tile3]), true);
}

#[test]
fn mentsu_three_different_winds_are_a_not_triplet() {
    let tile1 = Pai::Jihai(Jihai::Kazehai(Kazehai::Pei));
    let tile2 = Pai::Jihai(Jihai::Kazehai(Kazehai::Ton));
    let tile3 = Pai::Jihai(Jihai::Kazehai(Kazehai::Shaa));
    assert_eq!(is_koutsu(&vec![tile1, tile2, tile3]), false);
}

#[test]
fn mentsu_single_tile_is_not_triplet() {
    let tile1 = Pai::Jihai(Jihai::Kazehai(Kazehai::Pei));
    assert_eq!(is_koutsu(&vec![tile1]), false);
}

#[test]
fn four_five_of_bamboos_are_a_quad() {
    let tile1 = Pai::Suupai(Suupai { shoku: Shoku::Pinzu, rank: 3, akadora: false });
    let tile2 = Pai::Suupai(Suupai { shoku: Shoku::Pinzu, rank: 1, akadora: false });
    let tile3 = Pai::Suupai(Suupai { shoku: Shoku::Pinzu, rank: 2, akadora: false });
    assert_eq!(is_shuntsu(&vec![tile1, tile2, tile3]), true);
}

#[test]
fn one_two_three_of_dots_is_a_run() {
    let tile1 = Pai::Suupai(Suupai { shoku: Shoku::Souzu, rank: 5, akadora: false });
    let tile2 = Pai::Suupai(Suupai { shoku: Shoku::Souzu, rank: 5, akadora: false });
    let tile3 = Pai::Suupai(Suupai { shoku: Shoku::Souzu, rank: 5, akadora: false });
    let tile4 = Pai::Suupai(Suupai { shoku: Shoku::Souzu, rank: 5, akadora: true });
    assert_eq!(is_kantsu(&vec![tile1, tile2, tile3, tile4]), true);
}

#[test]
fn mod_two_red_dragons_are_a_pair() {
    let tile1 = Pai::Jihai(Jihai::Sangenpai(Sangenpai::Chun));
    let tile2 = Pai::Jihai(Jihai::Sangenpai(Sangenpai::Chun));
    assert_eq!(is_jantou(&[tile1, tile2]), true);
}

#[test]
fn mod_two_threes_of_bamboos_are_a_pair() {
    let tile1 = Pai::Suupai(Suupai { shoku: Shoku::Souzu, rank: 3, akadora: false });
    let tile2 = Pai::Suupai(Suupai { shoku: Shoku::Souzu, rank: 3, akadora: false });
    assert_eq!(is_jantou(&[tile1, tile2]), true);
}

#[test]
fn mod_three_north_winds_are_a_triplet() {
    let tile1 = Pai::Jihai(Jihai::Kazehai(Kazehai::Pei));
    let tile2 = Pai::Jihai(Jihai::Kazehai(Kazehai::Pei));
    let tile3 = Pai::Jihai(Jihai::Kazehai(Kazehai::Pei));
    assert_eq!(is_koutsu(&[tile1, tile2, tile3]), true);
}

#[test]
fn mod_three_different_winds_are_a_not_triplet() {
    let tile1 = Pai::Jihai(Jihai::Kazehai(Kazehai::Pei));
    let tile2 = Pai::Jihai(Jihai::Kazehai(Kazehai::Ton));
    let tile3 = Pai::Jihai(Jihai::Kazehai(Kazehai::Shaa));
    assert_eq!(is_koutsu(&[tile1, tile2, tile3]), false);
}

#[test]
fn mod_single_tile_is_not_triplet() {
    let tile1 = Pai::Jihai(Jihai::Kazehai(Kazehai::Pei));
    assert_eq!(is_koutsu(&[tile1]), false);
}

#[test]
fn mod_two_different_threes_are_not_a_pair() {
    let tile1 = Pai::Suupai(Suupai { shoku: Shoku::Souzu, rank: 3, akadora: false });
    let tile2 = Pai::Suupai(Suupai { shoku: Shoku::Manzu, rank: 3, akadora: false });
    assert_eq!(is_jantou(&[tile1, tile2]), false);
}

#[test]
fn red_five_pairs_with_plain_five() {
    let plain = Pai::Suupai(Suupai { shoku: Shoku::Pinzu, rank: 5, akadora: false });
    let red = Pai::Suupai(Suupai { shoku: Shoku::Pinzu, rank: 5, akadora: true });
    assert_eq!(is_jantou(&[plain, red]), true);
}

#[test]
fn three_tiles_are_not_a_quad() {
    let tile = Pai::Suupai(Suupai { shoku: Shoku::Manzu, rank: 7, akadora: false });
    assert_eq!(is_kantsu(&[tile, tile, tile]), false);
}

#[test]
fn four_tiles_are_not_a_triplet() {
    let tile = Pai::Jihai(Jihai::Kazehai(Kazehai::Ton));
    assert_eq!(is_koutsu(&[tile, tile, tile, tile]), false);
}

#[test]
fn mixed_suits_are_not_a_run() {
    let tile1 = Pai::Suupai(Suupai { shoku: Shoku::Pinzu, rank: 1, akadora: false });
    let tile2 = Pai::Suupai(Suupai { shoku: Shoku::Souzu, rank: 2, akadora: false });
    let tile3 = Pai::Suupai(Suupai { shoku: Shoku::Pinzu, rank: 3, akadora: false });
    assert_eq!(is_shuntsu(&[tile1, tile2, tile3]), false);
}

#[test]
fn repeated_rank_is_not_a_run() {
    let tile1 = Pai::Suupai(Suupai { shoku: Shoku::Manzu, rank: 1, akadora: false });
    let tile2 = Pai::Suupai(Suupai { shoku: Shoku::Manzu, rank: 1, akadora: false });
    let tile3 = Pai::Suupai(Suupai { shoku: Shoku::Manzu, rank: 2, akadora: false });
    assert_eq!(is_shuntsu(&[tile1, tile2, tile3]), false);
}

#[test]
fn honor_tile_rules_out_a_run() {
    let tile1 = Pai::Suupai(Suupai { shoku: Shoku::Manzu, rank: 1, akadora: false });
    let tile2 = Pai::Suupai(Suupai { shoku: Shoku::Manzu, rank: 2, akadora: false });
    let tile3 = Pai::Jihai(Jihai::Kazehai(Kazehai::Ton));
    assert_eq!(is_shuntsu(&[tile1, tile2, tile3]), false);
}
