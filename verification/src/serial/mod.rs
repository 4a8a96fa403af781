//! The tilestring codec: textual tile notation in, tiles out.
//!
//! A tilestring is a concatenation of clumps. Each clump is one or more
//! digits followed by a single letter: `m`, `w`, `c` name the characters
//! suit, `p`, `d` the circles suit, `s`, `b` the bamboo suit, and `z`, `h`
//! an honor clump, whose digits are restricted to 1 through 7. The digit 0
//! before a suit letter denotes a red-marked five.

use vstd::prelude::*;

use crate::rules::tile::{Jihai, Kazehai, Pai, Sangenpai, Shoku, Suupai};

verus! {

/// A letter that closes a suited clump.
pub open spec fn suit_letter(ch: char) -> bool {
    ch == 'm' || ch == 'w' || ch == 'c' || ch == 'p' || ch == 'd' || ch == 's' || ch == 'b'
}

/// A letter that closes an honor clump.
pub open spec fn honor_letter(ch: char) -> bool {
    ch == 'z' || ch == 'h'
}

/// A letter that closes a clump of either kind.
pub open spec fn clump_letter(ch: char) -> bool {
    suit_letter(ch) || honor_letter(ch)
}

/// A digit that may stand in a suited clump.
pub open spec fn suit_digit(ch: char) -> bool {
    '0' <= ch <= '9'
}

/// A digit that may stand in an honor clump.
pub open spec fn honor_digit(ch: char) -> bool {
    '1' <= ch <= '7'
}

/// Whether digit d may stand in a clump closed by letter l.
pub open spec fn digit_for(d: char, l: char) -> bool {
    if honor_letter(l) {
        honor_digit(d)
    } else {
        suit_digit(d)
    }
}

/// The index of the first clump letter in s, or s.len() when there is none.
pub open spec fn first_letter(s: Seq<char>) -> int
    decreases s.len(),
{
    if s.len() == 0 {
        0
    } else if clump_letter(s[0]) {
        0
    } else {
        1 + first_letter(s.drop_first())
    }
}

proof fn lemma_first_letter_is(s: Seq<char>, m: int)
    requires
        0 <= m <= s.len(),
        forall|k: int| 0 <= k < m ==> !clump_letter(s[k]),
        m < s.len() ==> clump_letter(s[m]),
    ensures
        first_letter(s) == m,
    decreases s.len(),
{
    if s.len() == 0 {
    } else if clump_letter(s[0]) {
        assert(m == 0);
    } else {
        lemma_first_letter_is(s.drop_first(), m - 1);
    }
}

/// A valid tilestring: empty, or a clump — one or more digits that fit the
/// closing letter, then that letter — followed by a valid tilestring.
pub open spec fn valid_tilestring(s: Seq<char>) -> bool
    decreases s.len(),
{
    if s.len() == 0 {
        true
    } else {
        let j = first_letter(s);
        &&& 1 <= j < s.len()
        &&& forall|k: int| 0 <= k < j ==> digit_for(s[k], s[j])
        &&& valid_tilestring(s.skip(j + 1))
    }
}

/// The rank a digit denotes: 0 stands for a red-marked five.
pub open spec fn digit_rank(d: char) -> u8 {
    if d == '0' {
        5
    } else if d == '1' {
        1
    } else if d == '2' {
        2
    } else if d == '3' {
        3
    } else if d == '4' {
        4
    } else if d == '5' {
        5
    } else if d == '6' {
        6
    } else if d == '7' {
        7
    } else if d == '8' {
        8
    } else {
        9
    }
}

/// The tile that digit d paired with clump letter l denotes.
pub open spec fn tile_of(d: char, l: char) -> Pai {
    if honor_letter(l) {
        if d == '1' {
            Pai::Jihai(Jihai::Kazehai(Kazehai::Ton))
        } else if d == '2' {
            Pai::Jihai(Jihai::Kazehai(Kazehai::Nan))
        } else if d == '3' {
            Pai::Jihai(Jihai::Kazehai(Kazehai::Shaa))
        } else if d == '4' {
            Pai::Jihai(Jihai::Kazehai(Kazehai::Pei))
        } else if d == '5' {
            Pai::Jihai(Jihai::Sangenpai(Sangenpai::Chun))
        } else if d == '6' {
            Pai::Jihai(Jihai::Sangenpai(Sangenpai::Haku))
        } else {
            Pai::Jihai(Jihai::Sangenpai(Sangenpai::Hatsu))
        }
    } else {
        let shoku = if l == 'm' || l == 'w' || l == 'c' {
            Shoku::Manzu
        } else if l == 'p' || l == 'd' {
            Shoku::Pinzu
        } else {
            Shoku::Souzu
        };
        Pai::Suupai(Suupai { shoku, rank: digit_rank(d), akadora: d == '0' })
    }
}

/// The tiles a tilestring denotes: each clump's digits expand to one tile
/// each, paired with the clump's closing letter, left to right.
pub open spec fn decode_tilestring(s: Seq<char>) -> Seq<Pai>
    decreases s.len(),
{
    if s.len() == 0 {
        Seq::empty()
    } else {
        let j = first_letter(s);
        if 1 <= j < s.len() {
            Seq::new(j as nat, |k: int| tile_of(s[k], s[j])) + decode_tilestring(s.skip(j + 1))
        } else {
            Seq::empty()
        }
    }
}

fn clump_letter_x(ch: char) -> (r: bool)
    ensures
        r == clump_letter(ch),
{
    ch == 'm' || ch == 'w' || ch == 'c' || ch == 'p' || ch == 'd' || ch == 's' || ch == 'b' || ch
        == 'z' || ch == 'h'
}

fn digit_for_x(d: char, l: char) -> (r: bool)
    ensures
        r == digit_for(d, l),
{
    if l == 'z' || l == 'h' {
        '1' <= d && d <= '7'
    } else {
        '0' <= d && d <= '9'
    }
}

/// Whether the given candidate is a valid tilestring, e.g.
/// `111406p33377z789s`.
pub fn is_tilestring(candidate: &str) -> (r: bool)
    ensures
        r == valid_tilestring(candidate@),
{
    let n = candidate.unicode_len();
    let mut pos: usize = 0;
    proof {
        assert(candidate@.skip(0) =~= candidate@);
    }
    loop
        invariant
            pos <= n,
            n == candidate@.len(),
            valid_tilestring(candidate@) == valid_tilestring(candidate@.skip(pos as int)),
        decreases n - pos,
    {
        let ghost t = candidate@.skip(pos as int);
        if pos == n {
            proof {
                assert(t =~= Seq::<char>::empty());
            }
            return true;
        }
        let mut j: usize = pos;
        while j < n && !clump_letter_x(candidate.get_char(j))
            invariant
                pos <= j <= n,
                n == candidate@.len(),
                forall|k: int| pos <= k < j ==> !clump_letter(candidate@[k]),
            decreases n - j,
        {
            j = j + 1;
        }
        proof {
            assert forall|k: int| 0 <= k < j - pos implies !clump_letter(t[k]) by {
                assert(t[k] == candidate@[pos + k]);
            }
            if (j as int) < n {
                assert(t[j - pos] == candidate@[j as int]);
            }
            lemma_first_letter_is(t, j - pos);
        }
        if j == n {
            proof {
                if valid_tilestring(t) {
                    assert(1 <= first_letter(t) < t.len());
                    assert(false);
                }
            }
            return false;
        }
        if j == pos {
            proof {
                if valid_tilestring(t) {
                    assert(1 <= first_letter(t) < t.len());
                    assert(false);
                }
            }
            return false;
        }
        let letter = candidate.get_char(j);
        let mut k: usize = pos;
        while k < j
            invariant
                pos <= k <= j < n,
                pos < j,
                n == candidate@.len(),
                letter == candidate@[j as int],
                t == candidate@.skip(pos as int),
                first_letter(t) == j - pos,
                valid_tilestring(candidate@) == valid_tilestring(t),
                forall|m: int| pos <= m < k ==> digit_for(candidate@[m], candidate@[j as int]),
            decreases j - k,
        {
            if !digit_for_x(candidate.get_char(k), letter) {
                proof {
                    assert(t[k - pos] == candidate@[k as int]);
                    assert(t[j - pos] == candidate@[j as int]);
                    if valid_tilestring(t) {
                        assert(digit_for(t[k - pos], t[first_letter(t)]));
                        assert(false);
                    }
                }
                return false;
            }
            k = k + 1;
        }
        proof {
            assert forall|m: int| 0 <= m < first_letter(t) implies digit_for(
                t[m],
                t[first_letter(t)],
            ) by {
                assert(t[m] == candidate@[pos + m]);
                assert(t[first_letter(t)] == candidate@[j as int]);
                assert(digit_for(candidate@[pos + m], candidate@[j as int]));
            }
            assert(t.skip(j - pos + 1) =~= candidate@.skip(j as int + 1));
            assert(valid_tilestring(t) == valid_tilestring(candidate@.skip(j as int + 1)));
        }
        pos = j + 1;
    }
}

fn tile_of_x(d: char, l: char) -> (p: Pai)
    requires
        digit_for(d, l),
    ensures
        p == tile_of(d, l),
{
    if l == 'z' || l == 'h' {
        if d == '1' {
            Pai::Jihai(Jihai::Kazehai(Kazehai::Ton))
        } else if d == '2' {
            Pai::Jihai(Jihai::Kazehai(Kazehai::Nan))
        } else if d == '3' {
            Pai::Jihai(Jihai::Kazehai(Kazehai::Shaa))
        } else if d == '4' {
            Pai::Jihai(Jihai::Kazehai(Kazehai::Pei))
        } else if d == '5' {
            Pai::Jihai(Jihai::Sangenpai(Sangenpai::Chun))
        } else if d == '6' {
            Pai::Jihai(Jihai::Sangenpai(Sangenpai::Haku))
        } else {
            Pai::Jihai(Jihai::Sangenpai(Sangenpai::Hatsu))
        }
    } else {
        let shoku = if l == 'm' || l == 'w' || l == 'c' {
            Shoku::Manzu
        } else if l == 'p' || l == 'd' {
            Shoku::Pinzu
        } else {
            Shoku::Souzu
        };
        let rank: u8 = if d == '0' {
            5
        } else if d == '1' {
            1
        } else if d == '2' {
            2
        } else if d == '3' {
            3
        } else if d == '4' {
            4
        } else if d == '5' {
            5
        } else if d == '6' {
            6
        } else if d == '7' {
            7
        } else if d == '8' {
            8
        } else {
            9
        };
        Pai::Suupai(Suupai { shoku, rank, akadora: d == '0' })
    }
}

/// Converts a tilestring to tiles: nothing for an invalid string, otherwise
/// one tile per digit, in order of appearance.
pub fn tilestring_to_pais(tilestring: &str) -> (r: Option<Vec<Pai>>)
    ensures
        (r is Some) == valid_tilestring(tilestring@),
        r matches Some(v) ==> v@ == decode_tilestring(tilestring@),
{
    if !is_tilestring(tilestring) {
        return None;
    }
    let n = tilestring.unicode_len();
    let mut out: Vec<Pai> = Vec::new();
    let mut pos: usize = 0;
    proof {
        assert(tilestring@.skip(0) =~= tilestring@);
        assert(out@ + decode_tilestring(tilestring@) =~= decode_tilestring(tilestring@));
    }
    loop
        invariant
            pos <= n,
            n == tilestring@.len(),
            valid_tilestring(tilestring@),
            valid_tilestring(tilestring@.skip(pos as int)),
            decode_tilestring(tilestring@) == out@ + decode_tilestring(
                tilestring@.skip(pos as int),
            ),
        decreases n - pos,
    {
        let ghost t = tilestring@.skip(pos as int);
        if pos == n {
            proof {
                assert(t =~= Seq::<char>::empty());
                assert(out@ + decode_tilestring(t) =~= out@);
            }
            return Some(out);
        }
        let mut j: usize = pos;
        while j < n && !clump_letter_x(tilestring.get_char(j))
            invariant
                pos <= j <= n,
                n == tilestring@.len(),
                forall|k: int| pos <= k < j ==> !clump_letter(tilestring@[k]),
            decreases n - j,
        {
            j = j + 1;
        }
        proof {
            assert forall|k: int| 0 <= k < j - pos implies !clump_letter(t[k]) by {
                assert(t[k] == tilestring@[pos + k]);
            }
            if (j as int) < n {
                assert(t[j - pos] == tilestring@[j as int]);
            }
            lemma_first_letter_is(t, j - pos);
            assert(1 <= first_letter(t) < t.len());
        }
        let letter = tilestring.get_char(j);
        let ghost out_before = out@;
        proof {
            assert forall|m: int| pos <= m < j implies digit_for(
                tilestring@[m],
                tilestring@[j as int],
            ) by {
                assert(digit_for(t[m - pos], t[first_letter(t)]));
                assert(t[m - pos] == tilestring@[m]);
                assert(t[first_letter(t)] == tilestring@[j as int]);
            }
        }
        let mut k: usize = pos;
        while k < j
            invariant
                pos <= k <= j < n,
                pos < j,
                n == tilestring@.len(),
                letter == tilestring@[j as int],
                forall|m: int| pos <= m < j ==> digit_for(tilestring@[m], tilestring@[j as int]),
                out@ =~= out_before + Seq::new(
                    (k - pos) as nat,
                    |m: int| tile_of(tilestring@[pos + m], tilestring@[j as int]),
                ),
            decreases j - k,
        {
            let tile = tile_of_x(tilestring.get_char(k), letter);
            out.push(tile);
            proof {
                assert(out@ =~= out_before + Seq::new(
                    (k + 1 - pos) as nat,
                    |m: int| tile_of(tilestring@[pos + m], tilestring@[j as int]),
                ));
            }
            k = k + 1;
        }
        proof {
            let fl = first_letter(t);
            assert(fl == j - pos);
            assert(Seq::new(fl as nat, |m: int| tile_of(t[m], t[fl])) =~= Seq::new(
                (j - pos) as nat,
                |m: int| tile_of(tilestring@[pos + m], tilestring@[j as int]),
            )) by {
                assert forall|m: int| 0 <= m < fl implies tile_of(t[m], t[fl]) == tile_of(
                    tilestring@[pos + m],
                    tilestring@[j as int],
                ) by {
                    assert(t[m] == tilestring@[pos + m]);
                    assert(t[fl] == tilestring@[j as int]);
                }
            }
            assert(t.skip(j - pos + 1) =~= tilestring@.skip(j as int + 1));
            assert(decode_tilestring(t) == Seq::new(fl as nat, |m: int| tile_of(t[m], t[fl]))
                + decode_tilestring(tilestring@.skip(j as int + 1)));
            assert(decode_tilestring(tilestring@) =~= out@ + decode_tilestring(
                tilestring@.skip(j as int + 1),
            ));
        }
        pos = j + 1;
    }
}

/// The number of digit characters in a string.
pub open spec fn digit_count(s: Seq<char>) -> nat
    decreases s.len(),
{
    if s.len() == 0 {
        0
    } else {
        (if suit_digit(s[0]) {
            1nat
        } else {
            0nat
        }) + digit_count(s.drop_first())
    }
}

proof fn lemma_digit_count_split(s: Seq<char>, m: int)
    requires
        0 <= m <= s.len(),
    ensures
        digit_count(s) == digit_count(s.take(m)) + digit_count(s.skip(m)),
    decreases m,
{
    if m == 0 {
        assert(s.take(0) =~= Seq::<char>::empty());
        assert(s.skip(0) =~= s);
    } else {
        lemma_digit_count_split(s.drop_first(), m - 1);
        assert(s.take(m).drop_first() =~= s.drop_first().take(m - 1));
        assert(s.skip(m) =~= s.drop_first().skip(m - 1));
        assert(s.take(m)[0] == s[0]);
        assert(digit_count(s.take(m)) == (if suit_digit(s[0]) {
            1nat
        } else {
            0nat
        }) + digit_count(s.drop_first().take(m - 1)));
    }
}

proof fn lemma_digit_count_all(s: Seq<char>)
    requires
        forall|k: int| 0 <= k < s.len() ==> suit_digit(#[trigger] s[k]),
    ensures
        digit_count(s) == s.len(),
    decreases s.len(),
{
    if s.len() > 0 {
        lemma_digit_count_all(s.drop_first());
    }
}

/// A tile the codec can write back: well formed, with the red marker only
/// on a five.
pub open spec fn encodable_pai(p: Pai) -> bool {
    match p {
        Pai::Suupai(s) => 1 <= s.rank <= 9 && (s.akadora ==> s.rank == 5),
        Pai::Jihai(_) => true,
    }
}

/// The digit that writes a tile: its rank, or 0 for a red five, or an
/// honor's value.
pub open spec fn pai_digit(p: Pai) -> char {
    match p {
        Pai::Suupai(s) => if s.akadora {
            '0'
        } else if s.rank == 1 {
            '1'
        } else if s.rank == 2 {
            '2'
        } else if s.rank == 3 {
            '3'
        } else if s.rank == 4 {
            '4'
        } else if s.rank == 5 {
            '5'
        } else if s.rank == 6 {
            '6'
        } else if s.rank == 7 {
            '7'
        } else if s.rank == 8 {
            '8'
        } else {
            '9'
        },
        Pai::Jihai(Jihai::Kazehai(Kazehai::Ton)) => '1',
        Pai::Jihai(Jihai::Kazehai(Kazehai::Nan)) => '2',
        Pai::Jihai(Jihai::Kazehai(Kazehai::Shaa)) => '3',
        Pai::Jihai(Jihai::Kazehai(Kazehai::Pei)) => '4',
        Pai::Jihai(Jihai::Sangenpai(Sangenpai::Chun)) => '5',
        Pai::Jihai(Jihai::Sangenpai(Sangenpai::Haku)) => '6',
        Pai::Jihai(Jihai::Sangenpai(Sangenpai::Hatsu)) => '7',
    }
}

/// The letter that closes a tile's one-tile clump.
pub open spec fn pai_letter(p: Pai) -> char {
    match p {
        Pai::Suupai(s) => match s.shoku {
            Shoku::Manzu => 'm',
            Shoku::Pinzu => 'p',
            Shoku::Souzu => 's',
        },
        Pai::Jihai(_) => 'z',
    }
}

/// A canonical encoding of a tile sequence: one two-character clump per
/// tile.
pub open spec fn encode_pais(ts: Seq<Pai>) -> Seq<char>
    decreases ts.len(),
{
    if ts.len() == 0 {
        Seq::empty()
    } else {
        seq![pai_digit(ts[0]), pai_letter(ts[0])] + encode_pais(ts.drop_first())
    }
}

/// Every tile a valid tilestring decodes to is well formed and can be
/// written back.
pub proof fn lemma_decode_encodable(s: Seq<char>)
    requires
        valid_tilestring(s),
    ensures
        forall|k: int|
            0 <= k < decode_tilestring(s).len() ==> encodable_pai(#[trigger] decode_tilestring(s)[k]),
    decreases s.len(),
{
    if s.len() > 0 {
        let j = first_letter(s);
        lemma_decode_encodable(s.skip(j + 1));
        let prefix = Seq::new(j as nat, |k: int| tile_of(s[k], s[j]));
        assert forall|k: int| 0 <= k < decode_tilestring(s).len() implies encodable_pai(
            #[trigger] decode_tilestring(s)[k],
        ) by {
            if k < j {
                assert(decode_tilestring(s)[k] == tile_of(s[k], s[j]));
                assert(digit_for(s[k], s[j]));
            } else {
                assert(decode_tilestring(s)[k] == decode_tilestring(s.skip(j + 1))[k - j]);
            }
        }
    }
}

/// A valid tilestring decodes into exactly one tile per digit.
pub proof fn lemma_decode_len(s: Seq<char>)
    requires
        valid_tilestring(s),
    ensures
        decode_tilestring(s).len() == digit_count(s),
    decreases s.len(),
{
    if s.len() > 0 {
        let j = first_letter(s);
        lemma_decode_len(s.skip(j + 1));
        lemma_digit_count_split(s, j + 1);
        lemma_digit_count_split(s.take(j + 1), j);
        assert(s.take(j + 1).take(j) =~= s.take(j));
        assert forall|k: int| 0 <= k < s.take(j).len() implies suit_digit(
            #[trigger] s.take(j)[k],
        ) by {
            assert(digit_for(s[k], s[j]));
        }
        lemma_digit_count_all(s.take(j));
        let letter_part = s.take(j + 1).skip(j);
        assert(letter_part.len() == 1);
        assert(letter_part[0] == s[j]);
        assert(clump_letter(s[j])) by {
            lemma_first_letter_in_range(s);
        }
        assert(digit_count(letter_part) == 0) by {
            assert(!suit_digit(letter_part[0]));
            assert(letter_part.drop_first() =~= Seq::<char>::empty());
            assert(digit_count(letter_part.drop_first()) == 0);
            assert(digit_count(letter_part) == (if suit_digit(letter_part[0]) {
                1nat
            } else {
                0nat
            }) + digit_count(letter_part.drop_first()));
        }
    }
}

proof fn lemma_first_letter_in_range(s: Seq<char>)
    requires
        first_letter(s) < s.len(),
    ensures
        clump_letter(s[first_letter(s)]),
        0 <= first_letter(s),
    decreases s.len(),
{
    if s.len() > 0 && !clump_letter(s[0]) {
        lemma_first_letter_in_range(s.drop_first());
    }
}

/// Encoding a sequence of encodable tiles yields a valid tilestring that
/// decodes back to exactly those tiles.
pub proof fn lemma_encode_decode(ts: Seq<Pai>)
    requires
        forall|k: int| 0 <= k < ts.len() ==> encodable_pai(#[trigger] ts[k]),
    ensures
        valid_tilestring(encode_pais(ts)),
        decode_tilestring(encode_pais(ts)) == ts,
    decreases ts.len(),
{
    if ts.len() == 0 {
        assert(decode_tilestring(encode_pais(ts)) =~= ts);
    } else {
        let e = encode_pais(ts);
        let p = ts[0];
        lemma_encode_decode(ts.drop_first());
        assert(e[0] == pai_digit(p));
        assert(e[1] == pai_letter(p));
        assert(!clump_letter(pai_digit(p)));
        assert(clump_letter(pai_letter(p)));
        lemma_first_letter_is(e, 1);
        assert(digit_for(e[0], e[1]));
        assert(e.skip(2) =~= encode_pais(ts.drop_first()));
        assert(valid_tilestring(e));
        assert(tile_of(pai_digit(p), pai_letter(p)) == p);
        assert(Seq::new(1, |k: int| tile_of(e[k], e[1])) =~= seq![p]);
        assert(decode_tilestring(e) =~= ts);
    }
}

/// Round trip: a valid tilestring decodes into one tile per digit, and
/// re-encoding the decoded tiles gives an equivalent — though not
/// necessarily identical — tilestring, one that decodes to the same tiles.
pub proof fn lemma_tilestring_round_trip(s: Seq<char>)
    requires
        valid_tilestring(s),
    ensures
        decode_tilestring(s).len() == digit_count(s),
        valid_tilestring(encode_pais(decode_tilestring(s))),
        decode_tilestring(encode_pais(decode_tilestring(s))) == decode_tilestring(s),
{
    lemma_decode_len(s);
    lemma_decode_encodable(s);
    lemma_encode_decode(decode_tilestring(s));
}

} // verus!
