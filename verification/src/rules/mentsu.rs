//! Meld recognition and the hand-completeness decision.

use vstd::prelude::*;

use crate::rules::tile::{pai_eq, pai_id, pai_id_index, wf_pai, Pai, NUM_IDS};

verus! {

/// The number of tiles in s whose identity slot is id.
pub open spec fn count_id(s: Seq<Pai>, id: int) -> nat
    decreases s.len(),
{
    if s.len() == 0 {
        0
    } else {
        count_id(s.drop_last(), id) + (if pai_id(s.last()) == id {
            1nat
        } else {
            0nat
        })
    }
}

/// The 34-slot frequency table of a hand: one count per tile identity.
pub open spec fn id_counts(s: Seq<Pai>) -> Seq<nat> {
    Seq::new(34, |id: int| count_id(s, id))
}

/// An identity slot where a run can begin: a suited identity whose rank is
/// at most 7, so that two higher ranks of the same suit exist.
pub open spec fn run_start(id: int) -> bool {
    0 <= id < 27 && id % 9 <= 6
}

/// One way of laying melds over the 34 tile identities: how many pairs,
/// triplets and quads sit at each identity, and how many runs begin there.
pub struct MeldPlan {
    pub pairs: Seq<nat>,
    pub trips: Seq<nat>,
    pub quads: Seq<nat>,
    pub runs: Seq<nat>,
}

/// A well-formed plan: one slot per identity, and runs begin only where a
/// run can begin.
pub open spec fn plan_wf(pl: MeldPlan) -> bool {
    &&& pl.pairs.len() == 34
    &&& pl.trips.len() == 34
    &&& pl.quads.len() == 34
    &&& pl.runs.len() == 34
    &&& forall|j: int| 0 <= j < 34 && pl.runs[j] > 0 ==> run_start(j)
}

/// The tiles of identity j that a plan consumes: two per pair, three per
/// triplet, four per quad, and one for each run beginning at j, j-1 or j-2.
pub open spec fn tiles_used(pl: MeldPlan, j: int) -> nat {
    (2 * pl.pairs[j] + 3 * pl.trips[j] + 4 * pl.quads[j] + pl.runs[j] + (if j >= 1 {
        pl.runs[j - 1]
    } else {
        0nat
    }) + (if j >= 2 {
        pl.runs[j - 2]
    } else {
        0nat
    })) as nat
}

/// The plan consumes exactly the tiles that the table holds.
pub open spec fn plan_covers(pl: MeldPlan, c: Seq<nat>) -> bool {
    forall|j: int| 0 <= j < 34 ==> c[j] == tiles_used(pl, j)
}

/// The sum of a sequence of counts.
pub open spec fn seq_sum(s: Seq<nat>) -> nat
    decreases s.len(),
{
    if s.len() == 0 {
        0
    } else {
        s[0] + seq_sum(s.drop_first())
    }
}

/// How many pairs a plan lays out in all.
pub open spec fn plan_pairs(pl: MeldPlan) -> nat {
    seq_sum(pl.pairs)
}

/// How many melds — triplets, quads and runs together — a plan lays out.
pub open spec fn plan_melds(pl: MeldPlan) -> nat {
    seq_sum(pl.trips) + seq_sum(pl.quads) + seq_sum(pl.runs)
}

/// A 34-slot frequency table can be partitioned into exactly `pairs` pairs
/// and `melds` melds (triplets, quads and runs in any combination).
pub open spec fn partitionable(c: Seq<nat>, pairs: nat, melds: nat) -> bool {
    exists|pl: MeldPlan|
        plan_wf(pl) && plan_covers(pl, c) && plan_pairs(pl) == pairs && plan_melds(pl) == melds
}

proof fn lemma_seq_sum_update(s: Seq<nat>, k: int, v: nat)
    requires
        0 <= k < s.len(),
    ensures
        seq_sum(s.update(k, v)) + s[k] == seq_sum(s) + v,
    decreases s.len(),
{
    if k == 0 {
        assert(s.update(0, v).drop_first() =~= s.drop_first());
    } else {
        assert(s.update(k, v).drop_first() =~= s.drop_first().update(k - 1, v));
        lemma_seq_sum_update(s.drop_first(), k - 1, v);
    }
}

proof fn lemma_seq_sum_entry(s: Seq<nat>, k: int)
    requires
        0 <= k < s.len(),
    ensures
        s[k] <= seq_sum(s),
    decreases s.len(),
{
    if k > 0 {
        lemma_seq_sum_entry(s.drop_first(), k - 1);
    }
}

proof fn lemma_seq_sum_zero(s: Seq<nat>)
    requires
        forall|j: int| 0 <= j < s.len() ==> s[j] == 0,
    ensures
        seq_sum(s) == 0,
    decreases s.len(),
{
    if s.len() > 0 {
        lemma_seq_sum_zero(s.drop_first());
    }
}

/// Where the table is empty below i, a covering plan lays nothing out there.
proof fn lemma_plan_prefix_zero(pl: MeldPlan, c: Seq<nat>, i: int)
    requires
        plan_wf(pl),
        plan_covers(pl, c),
        forall|j: int| 0 <= j < i ==> c[j] == 0,
        i <= 34,
    ensures
        forall|j: int|
            0 <= j < i ==> pl.pairs[j] == 0 && pl.trips[j] == 0 && pl.quads[j] == 0 && pl.runs[j]
                == 0,
{
    assert forall|j: int| 0 <= j < i implies pl.pairs[j] == 0 && pl.trips[j] == 0 && pl.quads[j]
        == 0 && pl.runs[j] == 0 by {
        assert(c[j] == tiles_used(pl, j));
    }
}

/// An all-zero table splits into no pairs and no melds, and into nothing
/// else.
proof fn lemma_partitionable_empty(c: Seq<nat>, pairs: nat, melds: nat)
    requires
        c.len() == 34,
        forall|j: int| 0 <= j < 34 ==> c[j] == 0,
    ensures
        partitionable(c, pairs, melds) == (pairs == 0 && melds == 0),
{
    if partitionable(c, pairs, melds) {
        let pl = choose|pl: MeldPlan|
            plan_wf(pl) && plan_covers(pl, c) && plan_pairs(pl) == pairs && plan_melds(pl)
                == melds;
        lemma_plan_prefix_zero(pl, c, 34);
        lemma_seq_sum_zero(pl.pairs);
        lemma_seq_sum_zero(pl.trips);
        lemma_seq_sum_zero(pl.quads);
        lemma_seq_sum_zero(pl.runs);
    }
    if pairs == 0 && melds == 0 {
        let zeros = Seq::new(34, |j: int| 0nat);
        let pl = MeldPlan { pairs: zeros, trips: zeros, quads: zeros, runs: zeros };
        lemma_seq_sum_zero(zeros);
        assert(plan_covers(pl, c));
        assert(plan_wf(pl) && plan_covers(pl, c) && plan_pairs(pl) == 0nat && plan_melds(pl)
            == 0nat);
        assert(partitionable(c, pairs, melds));
    }
}

/// The table after settling identity i: slot i is emptied, and each of the
/// r runs begun at i takes one tile from slots i+1 and i+2.
pub open spec fn after_split(c: Seq<nat>, i: int, r: nat) -> Seq<nat> {
    Seq::new(
        c.len(),
        |j: int|
            if j == i {
                0nat
            } else if (j == i + 1 || j == i + 2) && r <= c[j] {
                (c[j] - r) as nat
            } else {
                c[j]
            },
    )
}

/// At the first occupied slot i, settling pr pairs, t triplets, q quads and
/// the forced remainder of runs uses up slot i exactly and leaves a table
/// that still splits into what is still owed.
pub open spec fn split_ok(c: Seq<nat>, i: int, pairs: nat, melds: nat, pr: nat, t: nat, q: nat) -> bool {
    let used = 2 * pr + 3 * t + 4 * q;
    &&& pr <= pairs
    &&& used <= c[i]
    &&& {
        let r = (c[i] - used) as nat;
        &&& t + q + r <= melds
        &&& (r == 0 || (run_start(i) && c[i + 1] >= r && c[i + 2] >= r))
        &&& partitionable(after_split(c, i, r), (pairs - pr) as nat, (melds - (t + q + r)) as nat)
    }
}

/// Soundness of one settling step: a successful split at slot i yields a
/// partition of the whole table.
proof fn lemma_step_sound(c: Seq<nat>, i: int, pairs: nat, melds: nat, pr: nat, t: nat, q: nat)
    requires
        c.len() == 34,
        0 <= i < 34,
        forall|j: int| 0 <= j < i ==> c[j] == 0,
        split_ok(c, i, pairs, melds, pr, t, q),
    ensures
        partitionable(c, pairs, melds),
{
    let used = 2 * pr + 3 * t + 4 * q;
    let r = (c[i] - used) as nat;
    let c2 = after_split(c, i, r);
    let pl2 = choose|pl: MeldPlan|
        plan_wf(pl) && plan_covers(pl, c2) && plan_pairs(pl) == (pairs - pr) as nat && plan_melds(
            pl,
        ) == (melds - (t + q + r)) as nat;
    assert(forall|j: int| 0 <= j < i + 1 ==> c2[j] == 0);
    lemma_plan_prefix_zero(pl2, c2, i + 1);
    let pl = MeldPlan {
        pairs: pl2.pairs.update(i, pr),
        trips: pl2.trips.update(i, t),
        quads: pl2.quads.update(i, q),
        runs: pl2.runs.update(i, r),
    };
    lemma_seq_sum_update(pl2.pairs, i, pr);
    lemma_seq_sum_update(pl2.trips, i, t);
    lemma_seq_sum_update(pl2.quads, i, q);
    lemma_seq_sum_update(pl2.runs, i, r);
    assert(plan_wf(pl));
    assert forall|j: int| 0 <= j < 34 implies c[j] == tiles_used(pl, j) by {
        assert(c2[j] == tiles_used(pl2, j));
        if j < i {
        } else if j == i {
            assert(tiles_used(pl, i) == 2 * pr + 3 * t + 4 * q + r);
        } else if j == i + 1 || j == i + 2 {
            assert(tiles_used(pl, j) == tiles_used(pl2, j) + r);
        } else {
            assert(tiles_used(pl, j) == tiles_used(pl2, j));
        }
    }
    assert(plan_covers(pl, c));
    assert(plan_pairs(pl) == pairs);
    assert(plan_melds(pl) == melds);
    assert(partitionable(c, pairs, melds));
}

/// Completeness of one settling step: every partition of the table settles
/// slot i by some split that the search enumerates.
proof fn lemma_step_complete(c: Seq<nat>, i: int, pairs: nat, melds: nat)
    requires
        c.len() == 34,
        0 <= i < 34,
        forall|j: int| 0 <= j < i ==> c[j] == 0,
        partitionable(c, pairs, melds),
    ensures
        exists|pr: nat, t: nat, q: nat|
            pr <= pairs && t <= melds && q <= melds && #[trigger] split_ok(
                c,
                i,
                pairs,
                melds,
                pr,
                t,
                q,
            ),
{
    let pl = choose|pl: MeldPlan|
        plan_wf(pl) && plan_covers(pl, c) && plan_pairs(pl) == pairs && plan_melds(pl) == melds;
    lemma_plan_prefix_zero(pl, c, i);
    let pr = pl.pairs[i];
    let t = pl.trips[i];
    let q = pl.quads[i];
    let r = pl.runs[i];
    lemma_seq_sum_entry(pl.pairs, i);
    lemma_seq_sum_entry(pl.trips, i);
    lemma_seq_sum_entry(pl.quads, i);
    lemma_seq_sum_entry(pl.runs, i);
    assert(c[i] == tiles_used(pl, i));
    assert(c[i] == 2 * pr + 3 * t + 4 * q + r);
    if r > 0 {
        assert(run_start(i));
        assert(c[i + 1] == tiles_used(pl, i + 1));
        assert(c[i + 2] == tiles_used(pl, i + 2));
        assert(c[i + 1] >= r);
        assert(c[i + 2] >= r);
    }
    let c2 = after_split(c, i, r);
    let pl2 = MeldPlan {
        pairs: pl.pairs.update(i, 0nat),
        trips: pl.trips.update(i, 0nat),
        quads: pl.quads.update(i, 0nat),
        runs: pl.runs.update(i, 0nat),
    };
    lemma_seq_sum_update(pl.pairs, i, 0nat);
    lemma_seq_sum_update(pl.trips, i, 0nat);
    lemma_seq_sum_update(pl.quads, i, 0nat);
    lemma_seq_sum_update(pl.runs, i, 0nat);
    assert(plan_wf(pl2));
    assert forall|j: int| 0 <= j < 34 implies c2[j] == tiles_used(pl2, j) by {
        assert(c[j] == tiles_used(pl, j));
        if j < i {
        } else if j == i {
            assert(tiles_used(pl2, i) == 0);
        } else if j == i + 1 || j == i + 2 {
            assert(tiles_used(pl, j) == tiles_used(pl2, j) + r);
        } else {
            assert(tiles_used(pl, j) == tiles_used(pl2, j));
        }
    }
    assert(plan_covers(pl2, c2));
    assert(plan_pairs(pl2) == (pairs - pr) as nat);
    assert(plan_melds(pl2) == (melds - (t + q + r)) as nat);
    assert(partitionable(c2, (pairs - pr) as nat, (melds - (t + q + r)) as nat));
    assert(split_ok(c, i, pairs, melds, pr, t, q));
}

/// A table of machine counts, read as the mathematical table it stands for.
pub open spec fn counts_view(s: Seq<usize>) -> Seq<nat> {
    Seq::new(s.len(), |j: int| s[j] as nat)
}

/// The 34-slot frequency table of a hand of well-formed tiles.
fn count_table(tiles: &[Pai]) -> (c: Vec<usize>)
    requires
        forall|k: int| 0 <= k < tiles@.len() ==> wf_pai(#[trigger] tiles@[k]),
    ensures
        c@.len() == 34,
        forall|id: int| 0 <= id < 34 ==> c@[id] == count_id(tiles@, id),
{
    let mut c: Vec<usize> = Vec::new();
    let mut j: usize = 0;
    while j < NUM_IDS
        invariant
            j <= 34,
            c@.len() == j,
            forall|id: int| 0 <= id < j ==> c@[id] == 0,
        decreases 34 - j,
    {
        c.push(0);
        j = j + 1;
    }
    let n = tiles.len();
    let mut k: usize = 0;
    while k < n
        invariant
            k <= n,
            n == tiles@.len(),
            c@.len() == 34,
            forall|m: int| 0 <= m < tiles@.len() ==> wf_pai(#[trigger] tiles@[m]),
            forall|id: int| 0 <= id < 34 ==> c@[id] == count_id(tiles@.take(k as int), id),
            forall|id: int| 0 <= id < 34 ==> c@[id] <= k,
        decreases n - k,
    {
        let idx = pai_id_index(&tiles[k]);
        let prev = c[idx];
        c[idx] = prev + 1;
        proof {
            assert forall|id: int| 0 <= id < 34 implies c@[id] == count_id(
                tiles@.take(k as int + 1),
                id,
            ) by {
                assert(tiles@.take(k as int + 1).drop_last() =~= tiles@.take(k as int));
                assert(tiles@.take(k as int + 1).last() == tiles@[k as int]);
            }
        }
        k = k + 1;
    }
    proof {
        assert(tiles@.take(n as int) =~= tiles@);
    }
    c
}

/// A fresh copy of a frequency table.
fn copy_counts(c: &Vec<usize>) -> (r: Vec<usize>)
    ensures
        r@ == c@,
{
    let mut r: Vec<usize> = Vec::new();
    let n = c.len();
    let mut k: usize = 0;
    while k < n
        invariant
            k <= n,
            n == c@.len(),
            r@ =~= c@.take(k as int),
        decreases n - k,
    {
        r.push(c[k]);
        k = k + 1;
    }
    proof {
        assert(c@.take(n as int) =~= c@);
    }
    r
}

/// The exhaustive settling search. Slots below i are already empty; the
/// result says exactly whether the remaining table splits into the pairs
/// and melds still owed. At slot i every way of spending the slot's tiles
/// on pairs, triplets and quads is tried; whatever remains must leave as
/// runs begun at i.
fn search_melds(c: &Vec<usize>, i: usize, pairs_left: u8, melds_left: u8) -> (r: bool)
    requires
        c@.len() == 34,
        i <= 34,
        pairs_left <= 1,
        melds_left <= 4,
        forall|j: int| 0 <= j < i ==> c@[j] == 0,
    ensures
        r == partitionable(counts_view(c@), pairs_left as nat, melds_left as nat),
    decreases 34 - i,
{
    let ghost cv = counts_view(c@);
    let ghost pairs_g = pairs_left as nat;
    let ghost melds_g = melds_left as nat;
    if i == NUM_IDS {
        proof {
            lemma_partitionable_empty(cv, pairs_g, melds_g);
        }
        return pairs_left == 0 && melds_left == 0;
    }
    let ci = c[i];
    let mut pr: u8 = 0;
    while pr <= pairs_left
        invariant
            c@.len() == 34,
            i < 34,
            pairs_left <= 1,
            melds_left <= 4,
            forall|j: int| 0 <= j < i ==> c@[j] == 0,
            cv == counts_view(c@),
            pairs_g == pairs_left as nat,
            melds_g == melds_left as nat,
            ci == c@[i as int],
            pr <= pairs_left + 1,
            forall|pr2: nat, t2: nat, q2: nat|
                pr2 < pr && t2 <= melds_g && q2 <= melds_g ==> !split_ok(
                    cv,
                    i as int,
                    pairs_g,
                    melds_g,
                    pr2,
                    t2,
                    q2,
                ),
        decreases pairs_left + 1 - pr,
    {
        let mut t: u8 = 0;
        while t <= melds_left
            invariant
                c@.len() == 34,
                i < 34,
                pairs_left <= 1,
                melds_left <= 4,
                forall|j: int| 0 <= j < i ==> c@[j] == 0,
                cv == counts_view(c@),
                pairs_g == pairs_left as nat,
                melds_g == melds_left as nat,
                ci == c@[i as int],
                pr <= pairs_left,
                t <= melds_left + 1,
                forall|pr2: nat, t2: nat, q2: nat|
                    pr2 < pr && t2 <= melds_g && q2 <= melds_g ==> !split_ok(
                        cv,
                        i as int,
                        pairs_g,
                        melds_g,
                        pr2,
                        t2,
                        q2,
                    ),
                forall|t2: nat, q2: nat|
                    t2 < t && q2 <= melds_g ==> !split_ok(
                        cv,
                        i as int,
                        pairs_g,
                        melds_g,
                        pr as nat,
                        t2,
                        q2,
                    ),
            decreases melds_left + 1 - t,
        {
            let mut q: u8 = 0;
            while q <= melds_left
                invariant
                    c@.len() == 34,
                    i < 34,
                    pairs_left <= 1,
                    melds_left <= 4,
                    forall|j: int| 0 <= j < i ==> c@[j] == 0,
                    cv == counts_view(c@),
                    pairs_g == pairs_left as nat,
                    melds_g == melds_left as nat,
                    ci == c@[i as int],
                    pr <= pairs_left,
                    t <= melds_left,
                    q <= melds_left + 1,
                    forall|q2: nat|
                        q2 < q ==> !split_ok(
                            cv,
                            i as int,
                            pairs_g,
                            melds_g,
                            pr as nat,
                            t as nat,
                            q2,
                        ),
                decreases melds_left + 1 - q,
            {
                let used: usize = 2 * (pr as usize) + 3 * (t as usize) + 4 * (q as usize);
                let ghost pr_g = pr as nat;
                let ghost t_g = t as nat;
                let ghost q_g = q as nat;
                if used <= ci {
                    let rest: usize = ci - used;
                    if (t as usize) + (q as usize) + rest <= melds_left as usize {
                        let run_ok = rest == 0 || (i < 27 && i % 9 <= 6 && c[i + 1] >= rest && c[i
                            + 2] >= rest);
                        if run_ok {
                            let mut c2 = copy_counts(c);
                            c2[i] = 0;
                            if rest > 0 {
                                let hi1 = c2[i + 1];
                                c2[i + 1] = hi1 - rest;
                                let hi2 = c2[i + 2];
                                c2[i + 2] = hi2 - rest;
                            }
                            proof {
                                assert(counts_view(c2@) =~= after_split(
                                    cv,
                                    i as int,
                                    rest as nat,
                                ));
                            }
                            let sub = search_melds(
                                &c2,
                                i + 1,
                                pairs_left - pr,
                                melds_left - t - q - (rest as u8),
                            );
                            if sub {
                                proof {
                                    assert(split_ok(cv, i as int, pairs_g, melds_g, pr_g, t_g, q_g));
                                    lemma_step_sound(cv, i as int, pairs_g, melds_g, pr_g, t_g, q_g);
                                }
                                return true;
                            }
                            proof {
                                assert(!split_ok(cv, i as int, pairs_g, melds_g, pr_g, t_g, q_g));
                            }
                        } else {
                            proof {
                                assert(!split_ok(cv, i as int, pairs_g, melds_g, pr_g, t_g, q_g));
                            }
                        }
                    } else {
                        proof {
                            assert(!split_ok(cv, i as int, pairs_g, melds_g, pr_g, t_g, q_g));
                        }
                    }
                } else {
                    proof {
                        assert(!split_ok(cv, i as int, pairs_g, melds_g, pr_g, t_g, q_g));
                    }
                }
                q = q + 1;
            }
            t = t + 1;
        }
        pr = pr + 1;
    }
    proof {
        if partitionable(cv, pairs_g, melds_g) {
            lemma_step_complete(cv, i as int, pairs_g, melds_g);
            assert(false);
        }
    }
    false
}

/// A pair: exactly two identity-equal tiles.
pub open spec fn jantou(s: Seq<Pai>) -> bool {
    s.len() == 2 && pai_eq(s[0], s[1])
}

/// A triplet: exactly three identity-equal tiles.
pub open spec fn koutsu(s: Seq<Pai>) -> bool {
    s.len() == 3 && pai_eq(s[0], s[1]) && pai_eq(s[0], s[2])
}

/// A quad: exactly four identity-equal tiles.
pub open spec fn kantsu(s: Seq<Pai>) -> bool {
    s.len() == 4 && pai_eq(s[0], s[1]) && pai_eq(s[0], s[2]) && pai_eq(s[0], s[3])
}

/// Ranks x, y, z, in some order, are n, n+1, n+2.
pub open spec fn consecutive_ranks(x: int, y: int, z: int) -> bool {
    ||| (y == x + 1 && z == x + 2)
    ||| (z == x + 1 && y == x + 2)
    ||| (x == y + 1 && z == y + 2)
    ||| (z == y + 1 && x == y + 2)
    ||| (x == z + 1 && y == z + 2)
    ||| (y == z + 1 && x == z + 2)
}

/// A run: exactly three suited tiles of one suit whose ranks, sorted
/// ascending, are strictly consecutive. Any honor tile rules the group out.
pub open spec fn shuntsu(s: Seq<Pai>) -> bool {
    &&& s.len() == 3
    &&& s[0] is Suupai
    &&& s[1] is Suupai
    &&& s[2] is Suupai
    &&& s[0]->Suupai_0.shoku == s[1]->Suupai_0.shoku
    &&& s[0]->Suupai_0.shoku == s[2]->Suupai_0.shoku
    &&& consecutive_ranks(
        s[0]->Suupai_0.rank as int,
        s[1]->Suupai_0.rank as int,
        s[2]->Suupai_0.rank as int,
    )
}

/// Whether a group of tiles is a pair.
pub fn is_jantou(tiles: &[Pai]) -> (r: bool)
    ensures
        r == jantou(tiles@),
{
    if tiles.len() != 2 {
        return false;
    }
    tiles[0] == tiles[1]
}

/// Whether a group of tiles is a three-of-a-kind.
pub fn is_koutsu(tiles: &[Pai]) -> (r: bool)
    ensures
        r == koutsu(tiles@),
{
    if tiles.len() != 3 {
        return false;
    }
    tiles[0] == tiles[1] && tiles[0] == tiles[2]
}

/// Whether a group of tiles is a four-of-a-kind.
pub fn is_kantsu(tiles: &[Pai]) -> (r: bool)
    ensures
        r == kantsu(tiles@),
{
    if tiles.len() != 4 {
        return false;
    }
    tiles[0] == tiles[1] && tiles[0] == tiles[2] && tiles[0] == tiles[3]
}

/// Whether a group of tiles is a run of three.
pub fn is_shuntsu(tiles: &[Pai]) -> (r: bool)
    ensures
        r == shuntsu(tiles@),
{
    if tiles.len() != 3 {
        return false;
    }
    let s0: crate::rules::tile::Suupai = match tiles[0] {
        Pai::Suupai(s) => s,
        Pai::Jihai(_) => {
            return false;
        },
    };
    let s1: crate::rules::tile::Suupai = match tiles[1] {
        Pai::Suupai(s) => s,
        Pai::Jihai(_) => {
            return false;
        },
    };
    let s2: crate::rules::tile::Suupai = match tiles[2] {
        Pai::Suupai(s) => s,
        Pai::Jihai(_) => {
            return false;
        },
    };
    if s0.shoku != s1.shoku || s0.shoku != s2.shoku {
        return false;
    }
    let mut a: u8 = s0.rank;
    let mut b: u8 = s1.rank;
    let mut c: u8 = s2.rank;
    if a > b {
        let tmp: u8 = a;
        a = b;
        b = tmp;
    }
    if b > c {
        let tmp: u8 = b;
        b = c;
        c = tmp;
    }
    if a > b {
        let tmp: u8 = a;
        a = b;
        b = tmp;
    }
    b - a == 1 && c - b == 1
}

/// Identity slots a, b, c, in some order, are i, i+1, i+2.
pub open spec fn run_ids(a: int, b: int, c: int, i: int) -> bool {
    ||| (a == i && b == i + 1 && c == i + 2)
    ||| (a == i && c == i + 1 && b == i + 2)
    ||| (b == i && a == i + 1 && c == i + 2)
    ||| (b == i && c == i + 1 && a == i + 2)
    ||| (c == i && a == i + 1 && b == i + 2)
    ||| (c == i && b == i + 1 && a == i + 2)
}

/// A pair of well-formed tiles is exactly two tiles of one identity slot:
/// what a plan's pair at a slot consumes.
pub proof fn lemma_jantou_ids(s: Seq<Pai>)
    requires
        forall|k: int| 0 <= k < s.len() ==> wf_pai(#[trigger] s[k]),
    ensures
        jantou(s) == (s.len() == 2 && pai_id(s[0]) == pai_id(s[1])),
{
}

/// A triplet of well-formed tiles is exactly three tiles of one identity
/// slot: what a plan's triplet at a slot consumes.
pub proof fn lemma_koutsu_ids(s: Seq<Pai>)
    requires
        forall|k: int| 0 <= k < s.len() ==> wf_pai(#[trigger] s[k]),
    ensures
        koutsu(s) == (s.len() == 3 && pai_id(s[0]) == pai_id(s[1]) && pai_id(s[0]) == pai_id(
            s[2],
        )),
{
}

/// A quad of well-formed tiles is exactly four tiles of one identity slot:
/// what a plan's quad at a slot consumes.
pub proof fn lemma_kantsu_ids(s: Seq<Pai>)
    requires
        forall|k: int| 0 <= k < s.len() ==> wf_pai(#[trigger] s[k]),
    ensures
        kantsu(s) == (s.len() == 4 && pai_id(s[0]) == pai_id(s[1]) && pai_id(s[0]) == pai_id(s[2])
            && pai_id(s[0]) == pai_id(s[3])),
{
}

/// A run of well-formed tiles occupies exactly the slots i, i+1, i+2 of
/// some slot where a run can begin, and conversely: what a plan's run
/// begun at a slot consumes.
pub proof fn lemma_shuntsu_ids(s: Seq<Pai>)
    requires
        forall|k: int| 0 <= k < s.len() ==> wf_pai(#[trigger] s[k]),
    ensures
        shuntsu(s) == (s.len() == 3 && exists|i: int|
            #[trigger] run_start(i) && run_ids(pai_id(s[0]), pai_id(s[1]), pai_id(s[2]), i)),
{
    if shuntsu(s) {
        let sh = s[0]->Suupai_0.shoku;
        let r0 = s[0]->Suupai_0.rank as int;
        let r1 = s[1]->Suupai_0.rank as int;
        let r2 = s[2]->Suupai_0.rank as int;
        let n = if r0 <= r1 && r0 <= r2 {
            r0
        } else if r1 <= r2 {
            r1
        } else {
            r2
        };
        let i = crate::rules::tile::suit_base(sh) + n - 1;
        assert(run_start(i));
        assert(run_ids(pai_id(s[0]), pai_id(s[1]), pai_id(s[2]), i));
    }
    if s.len() == 3 && exists|i: int|
        #[trigger] run_start(i) && run_ids(pai_id(s[0]), pai_id(s[1]), pai_id(s[2]), i) {
        let i = choose|i: int|
            #[trigger] run_start(i) && run_ids(pai_id(s[0]), pai_id(s[1]), pai_id(s[2]), i);
        assert(s[0] is Suupai && s[1] is Suupai && s[2] is Suupai);
        assert(shuntsu(s));
    }
}

/// A meld: a triplet, a quad or a run.
pub open spec fn mentsu_group(g: Seq<Pai>) -> bool {
    koutsu(g) || kantsu(g) || shuntsu(g)
}

proof fn lemma_count_id_concat(s1: Seq<Pai>, s2: Seq<Pai>, id: int)
    ensures
        count_id(s1 + s2, id) == count_id(s1, id) + count_id(s2, id),
    decreases s2.len(),
{
    if s2.len() == 0 {
        assert(s1 + s2 =~= s1);
    } else {
        lemma_count_id_concat(s1, s2.drop_last(), id);
        assert((s1 + s2).drop_last() =~= s1 + s2.drop_last());
        assert((s1 + s2).last() == s2.last());
    }
}

proof fn lemma_count_id_same_slot(g: Seq<Pai>, t: int, id: int)
    requires
        forall|k: int| 0 <= k < g.len() ==> pai_id(#[trigger] g[k]) == t,
    ensures
        count_id(g, id) == (if id == t {
            g.len()
        } else {
            0nat
        }),
    decreases g.len(),
{
    if g.len() > 0 {
        lemma_count_id_same_slot(g.drop_last(), t, id);
    }
}

proof fn lemma_count_id_run(g: Seq<Pai>, i: int, id: int)
    requires
        g.len() == 3,
        run_ids(pai_id(g[0]), pai_id(g[1]), pai_id(g[2]), i),
    ensures
        count_id(g, id) == (if id == i || id == i + 1 || id == i + 2 {
            1nat
        } else {
            0nat
        }),
{
    assert(g.drop_last() =~= seq![g[0], g[1]]);
    assert(seq![g[0], g[1]].drop_last() =~= seq![g[0]]);
    assert(seq![g[0]].drop_last() =~= Seq::<Pai>::empty());
    assert(count_id(Seq::<Pai>::empty(), id) == 0);
    assert(count_id(seq![g[0]], id) == count_id(Seq::<Pai>::empty(), id) + (if pai_id(g[0]) == id {
        1nat
    } else {
        0nat
    }));
    assert(count_id(seq![g[0], g[1]], id) == count_id(seq![g[0]], id) + (if pai_id(g[1]) == id {
        1nat
    } else {
        0nat
    }));
    assert(count_id(g, id) == count_id(seq![g[0], g[1]], id) + (if pai_id(g[2]) == id {
        1nat
    } else {
        0nat
    }));
}

/// Extends a plan by one meld group, consuming exactly the group's tiles.
proof fn lemma_plan_add_group(pl: MeldPlan, g: Seq<Pai>) -> (pl2: MeldPlan)
    requires
        plan_wf(pl),
        mentsu_group(g),
        forall|k: int| 0 <= k < g.len() ==> wf_pai(#[trigger] g[k]),
    ensures
        plan_wf(pl2),
        plan_pairs(pl2) == plan_pairs(pl),
        plan_melds(pl2) == plan_melds(pl) + 1,
        forall|j: int|
            0 <= j < 34 ==> tiles_used(pl2, j) == tiles_used(pl, j) + count_id(g, j),
{
    if koutsu(g) {
        let t = pai_id(g[0]);
        lemma_koutsu_ids(g);
        let pl2 = MeldPlan { trips: pl.trips.update(t, (pl.trips[t] + 1) as nat), ..pl };
        lemma_seq_sum_update(pl.trips, t, (pl.trips[t] + 1) as nat);
        assert forall|j: int| 0 <= j < 34 implies tiles_used(pl2, j) == tiles_used(pl, j)
            + count_id(g, j) by {
            lemma_count_id_same_slot(g, t, j);
        }
        pl2
    } else if kantsu(g) {
        let t = pai_id(g[0]);
        lemma_kantsu_ids(g);
        let pl2 = MeldPlan { quads: pl.quads.update(t, (pl.quads[t] + 1) as nat), ..pl };
        lemma_seq_sum_update(pl.quads, t, (pl.quads[t] + 1) as nat);
        assert forall|j: int| 0 <= j < 34 implies tiles_used(pl2, j) == tiles_used(pl, j)
            + count_id(g, j) by {
            lemma_count_id_same_slot(g, t, j);
        }
        pl2
    } else {
        lemma_shuntsu_ids(g);
        let i = choose|i: int|
            #[trigger] run_start(i) && run_ids(pai_id(g[0]), pai_id(g[1]), pai_id(g[2]), i);
        let pl2 = MeldPlan { runs: pl.runs.update(i, (pl.runs[i] + 1) as nat), ..pl };
        lemma_seq_sum_update(pl.runs, i, (pl.runs[i] + 1) as nat);
        assert forall|j: int| 0 <= j < 34 implies tiles_used(pl2, j) == tiles_used(pl, j)
            + count_id(g, j) by {
            lemma_count_id_run(g, i, j);
        }
        pl2
    }
}

/// Any four melds — triplets, quads and runs in any combination — together
/// with any pair form a complete hand.
pub proof fn lemma_melds_and_pair_complete(
    g1: Seq<Pai>,
    g2: Seq<Pai>,
    g3: Seq<Pai>,
    g4: Seq<Pai>,
    p: Seq<Pai>,
)
    requires
        mentsu_group(g1),
        mentsu_group(g2),
        mentsu_group(g3),
        mentsu_group(g4),
        jantou(p),
        forall|k: int| 0 <= k < g1.len() ==> wf_pai(#[trigger] g1[k]),
        forall|k: int| 0 <= k < g2.len() ==> wf_pai(#[trigger] g2[k]),
        forall|k: int| 0 <= k < g3.len() ==> wf_pai(#[trigger] g3[k]),
        forall|k: int| 0 <= k < g4.len() ==> wf_pai(#[trigger] g4[k]),
        forall|k: int| 0 <= k < p.len() ==> wf_pai(#[trigger] p[k]),
    ensures
        complete_hand(g1 + g2 + g3 + g4 + p),
{
    let zeros = Seq::new(34, |j: int| 0nat);
    let t = pai_id(p[0]);
    lemma_jantou_ids(p);
    let pl0 = MeldPlan { pairs: zeros.update(t, 1nat), trips: zeros, quads: zeros, runs: zeros };
    lemma_seq_sum_zero(zeros);
    lemma_seq_sum_update(zeros, t, 1nat);
    assert(plan_pairs(pl0) == 1);
    assert(plan_melds(pl0) == 0);
    assert forall|j: int| 0 <= j < 34 implies tiles_used(pl0, j) == count_id(p, j) by {
        lemma_count_id_same_slot(p, t, j);
    }
    let pl1 = lemma_plan_add_group(pl0, g1);
    let pl2 = lemma_plan_add_group(pl1, g2);
    let pl3 = lemma_plan_add_group(pl2, g3);
    let pl4 = lemma_plan_add_group(pl3, g4);
    let hand = g1 + g2 + g3 + g4 + p;
    assert forall|j: int| 0 <= j < 34 implies id_counts(hand)[j] == tiles_used(pl4, j) by {
        lemma_count_id_concat(g1 + g2 + g3 + g4, p, j);
        lemma_count_id_concat(g1 + g2 + g3, g4, j);
        lemma_count_id_concat(g1 + g2, g3, j);
        lemma_count_id_concat(g1, g2, j);
    }
    assert(plan_covers(pl4, id_counts(hand)));
    assert(partitionable(id_counts(hand), 1, 4));
}

/// The number of identity slots in [lo, 34) whose count in c is exactly v.
pub open spec fn ids_with_count(c: Seq<nat>, v: nat, lo: int) -> nat
    decreases 34 - lo,
{
    if lo < 0 || lo >= 34 {
        0
    } else {
        (if c[lo] == v {
            1nat
        } else {
            0nat
        }) + ids_with_count(c, v, lo + 1)
    }
}

/// Seven pairs: fourteen tiles, and exactly seven distinct identities each
/// held exactly twice. An identity held four times does not count as two
/// pairs.
pub open spec fn chiitoitsu(s: Seq<Pai>) -> bool {
    s.len() == 14 && ids_with_count(id_counts(s), 2, 0) == 7
}

/// A terminal or honor identity: rank 1 or 9 of each suit, or any honor.
pub open spec fn orphan_id(id: int) -> bool {
    id == 0 || id == 8 || id == 9 || id == 17 || id == 18 || id == 26 || (27 <= id < 34)
}

/// Thirteen orphans: fourteen tiles, exactly one identity held exactly
/// twice, and every one of the thirteen terminal and honor identities
/// present.
pub open spec fn kokushi_musou(s: Seq<Pai>) -> bool {
    &&& s.len() == 14
    &&& ids_with_count(id_counts(s), 2, 0) == 1
    &&& forall|id: int| orphan_id(id) ==> #[trigger] count_id(s, id) >= 1
}

/// The count of slots holding exactly v tiles, over a whole table.
fn count_slots_with(c: &Vec<usize>, v: usize) -> (n: usize)
    requires
        c@.len() == 34,
    ensures
        n == ids_with_count(counts_view(c@), v as nat, 0),
{
    let ghost cv = counts_view(c@);
    let mut n: usize = 0;
    let mut k: usize = 34;
    while k > 0
        invariant
            k <= 34,
            c@.len() == 34,
            cv == counts_view(c@),
            n <= 34 - k,
            n == ids_with_count(cv, v as nat, k as int),
        decreases k,
    {
        k = k - 1;
        if c[k] == v {
            n = n + 1;
        }
    }
    n
}

/// Whether a hand is seven pairs.
pub fn is_chiitoitsu(tiles: &[Pai]) -> (r: bool)
    requires
        forall|k: int| 0 <= k < tiles@.len() ==> wf_pai(#[trigger] tiles@[k]),
    ensures
        r == chiitoitsu(tiles@),
{
    if tiles.len() != 14 {
        return false;
    }
    let c = count_table(tiles);
    proof {
        assert(counts_view(c@) =~= id_counts(tiles@));
    }
    count_slots_with(&c, 2) == 7
}

/// Whether a hand is thirteen orphans.
pub fn is_kokushi_musou(tiles: &[Pai]) -> (r: bool)
    requires
        forall|k: int| 0 <= k < tiles@.len() ==> wf_pai(#[trigger] tiles@[k]),
    ensures
        r == kokushi_musou(tiles@),
{
    if tiles.len() != 14 {
        return false;
    }
    let c = count_table(tiles);
    proof {
        assert(counts_view(c@) =~= id_counts(tiles@));
    }
    if count_slots_with(&c, 2) != 1 {
        return false;
    }
    let present = c[0] >= 1 && c[8] >= 1 && c[9] >= 1 && c[17] >= 1 && c[18] >= 1 && c[26] >= 1
        && c[27] >= 1 && c[28] >= 1 && c[29] >= 1 && c[30] >= 1 && c[31] >= 1 && c[32] >= 1
        && c[33] >= 1;
    proof {
        if present {
            assert forall|id: int| orphan_id(id) implies #[trigger] count_id(tiles@, id)
                >= 1 by {
                assert(c@[id] == count_id(tiles@, id));
            }
        } else {
            if forall|id: int| orphan_id(id) ==> #[trigger] count_id(tiles@, id) >= 1 {
                assert(count_id(tiles@, 0) >= 1);
                assert(count_id(tiles@, 8) >= 1);
                assert(count_id(tiles@, 9) >= 1);
                assert(count_id(tiles@, 17) >= 1);
                assert(count_id(tiles@, 18) >= 1);
                assert(count_id(tiles@, 26) >= 1);
                assert(count_id(tiles@, 27) >= 1);
                assert(count_id(tiles@, 28) >= 1);
                assert(count_id(tiles@, 29) >= 1);
                assert(count_id(tiles@, 30) >= 1);
                assert(count_id(tiles@, 31) >= 1);
                assert(count_id(tiles@, 32) >= 1);
                assert(count_id(tiles@, 33) >= 1);
                assert(present);
            }
        }
    }
    present
}

/// A complete hand: seven pairs, thirteen orphans, or a partition of the
/// identity counts into four melds and one pair.
pub open spec fn complete_hand(s: Seq<Pai>) -> bool {
    chiitoitsu(s) || kokushi_musou(s) || partitionable(id_counts(s), 1, 4)
}

/// Hand completeness has multiset semantics: two hands of one size that
/// hold every tile identity equally often are judged alike, whatever order
/// their tiles come in.
pub proof fn lemma_complete_hand_multiset(s1: Seq<Pai>, s2: Seq<Pai>)
    requires
        s1.len() == s2.len(),
        forall|id: int| 0 <= id < 34 ==> count_id(s1, id) == count_id(s2, id),
    ensures
        complete_hand(s1) == complete_hand(s2),
{
    assert(id_counts(s1) =~= id_counts(s2));
    assert forall|id: int| orphan_id(id) implies count_id(s1, id) == count_id(s2, id) by {}
}

/// Whether a collection of tiles is a complete hand.
pub fn is_complete_hand(tiles: &[Pai]) -> (r: bool)
    requires
        forall|k: int| 0 <= k < tiles@.len() ==> wf_pai(#[trigger] tiles@[k]),
    ensures
        r == complete_hand(tiles@),
{
    if is_chiitoitsu(tiles) {
        return true;
    }
    if is_kokushi_musou(tiles) {
        return true;
    }
    let c = count_table(tiles);
    proof {
        assert(counts_view(c@) =~= id_counts(tiles@));
    }
    search_melds(&c, 0, 1, 4)
}

} // verus!
