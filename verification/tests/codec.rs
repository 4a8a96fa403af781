use mahjong::{is_complete_hand, is_tilestring, tilestring_to_pais, Jihai, Kazehai, Pai, Sangenpai, Shoku, Suupai};

#[test]
fn lib_tilestrings_of_complete_hands_are_valid() {
    assert_eq!(is_tilestring("111406p33377z789s"), true);
}

#[test]
fn lib_tilestrings_of_a_few_tiles_are_valid() {
    assert_eq!(is_tilestring("111p37z"), true);
}

#[test]
fn lib_tilestrings_of_random_text_are_invalid() {
    assert_eq!(is_tilestring("helloworld"), false);
}

#[test]
fn mod_tilestrings_of_complete_hands_are_valid() {
    assert_eq!(is_tilestring("111406p33377z789s"), true);
}

#[test]
fn mod_tilestrings_of_a_few_tiles_are_valid() {
    assert_eq!(is_tilestring("111p37z"), true);
}

#[test]
fn mod_tilestrings_of_random_text_are_invalid() {
    assert_eq!(is_tilestring("helloworld"), false);
}

#[test]
fn converts_tilestrings_to_pais() {
    let pais = tilestring_to_pais("111406p33377z789s").unwrap();
    assert_eq!(pais.len(), 14);
    assert_eq!(pais[0], Pai::Suupai(Suupai { shoku: Shoku::Pinzu, rank: 1, akadora: false }));
    assert_eq!(pais[4], Pai::Suupai(Suupai { shoku: Shoku::Pinzu, rank: 5, akadora: true }));
    assert_eq!(pais[10], Pai::Jihai(Jihai::Sangenpai(Sangenpai::Hatsu)));
    assert_eq!(pais[13], Pai::Suupai(Suupai { shoku: Shoku::Souzu, rank: 9, akadora: false }));
}

#[test]
fn empty_tilestring_is_valid() {
    assert_eq!(is_tilestring(""), true);
    assert_eq!(tilestring_to_pais("").unwrap().len(), 0);
}

#[test]
fn letter_without_digits_is_invalid() {
    assert_eq!(is_tilestring("p"), false);
    assert_eq!(tilestring_to_pais("p"), None);
}

#[test]
fn trailing_digits_are_invalid() {
    assert_eq!(is_tilestring("123"), false);
    assert_eq!(is_tilestring("123p45"), false);
}

#[test]
fn honor_clump_rejects_out_of_range_digits() {
    assert_eq!(is_tilestring("8z"), false);
    assert_eq!(is_tilestring("0h"), false);
    assert_eq!(is_tilestring("19m17z"), true);
}

#[test]
fn alternate_suit_letters_decode() {
    let pais = tilestring_to_pais("1w2c3d4b").unwrap();
    assert_eq!(pais.len(), 4);
    assert_eq!(pais[0], Pai::Suupai(Suupai { shoku: Shoku::Manzu, rank: 1, akadora: false }));
    assert_eq!(pais[1], Pai::Suupai(Suupai { shoku: Shoku::Manzu, rank: 2, akadora: false }));
    assert_eq!(pais[2], Pai::Suupai(Suupai { shoku: Shoku::Pinzu, rank: 3, akadora: false }));
    assert_eq!(pais[3], Pai::Suupai(Suupai { shoku: Shoku::Souzu, rank: 4, akadora: false }));
}

#[test]
fn red_five_decodes_with_marker() {
    let pais = tilestring_to_pais("05s").unwrap();
    assert_eq!(pais.len(), 2);
    assert_eq!(pais[0], Pai::Suupai(Suupai { shoku: Shoku::Souzu, rank: 5, akadora: true }));
    assert_eq!(pais[1], Pai::Suupai(Suupai { shoku: Shoku::Souzu, rank: 5, akadora: false }));
    // Identity equality ignores the marker, so both decode to one identity.
    assert_eq!(pais[0], pais[1]);
}

#[test]
fn honor_values_decode_in_order() {
    let pais = tilestring_to_pais("1234567z").unwrap();
    assert_eq!(pais.len(), 7);
    assert_eq!(pais[0], Pai::Jihai(Jihai::Kazehai(Kazehai::Ton)));
    assert_eq!(pais[1], Pai::Jihai(Jihai::Kazehai(Kazehai::Nan)));
    assert_eq!(pais[2], Pai::Jihai(Jihai::Kazehai(Kazehai::Shaa)));
    assert_eq!(pais[3], Pai::Jihai(Jihai::Kazehai(Kazehai::Pei)));
    assert_eq!(pais[4], Pai::Jihai(Jihai::Sangenpai(Sangenpai::Chun)));
    assert_eq!(pais[5], Pai::Jihai(Jihai::Sangenpai(Sangenpai::Haku)));
    assert_eq!(pais[6], Pai::Jihai(Jihai::Sangenpai(Sangenpai::Hatsu)));
}

#[test]
fn decoded_hand_is_complete() {
    let pais = tilestring_to_pais("123m456p789s11122z").unwrap();
    assert_eq!(pais.len(), 14);
    assert_eq!(is_complete_hand(&pais), true);
}

#[test]
fn decoded_tile_count_matches_digit_count() {
    let pais = tilestring_to_pais("111406p33377z789s").unwrap();
    let digits = "111406p33377z789s".chars().filter(|c| c.is_ascii_digit()).count();
    assert_eq!(pais.len(), digits);
}
