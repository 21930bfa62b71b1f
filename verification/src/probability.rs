//! The conquest-probability engine.
//!
//! `p_scaled(a, d)` is the probability that an attack continued until one
//! side is exhausted ends with the defender at zero armies, starting from `a`
//! attacker and `d` defender armies. Because the engine works without
//! floating point, probabilities are fixed-point integers scaled by
//! [`spec_scale`], and every division rounds down. Public results are reported in
//! basis points of a percentage (`4167` means `41.67%`), the rounding the
//! game reports to its players.
//!
//! The per-round odds are derived combinatorially: each side's dice are
//! summarised by the multiset of non-decreasing roll tuples (each tuple
//! counted once), reduced to the pair (second-best, best); a round is paired
//! best-against-best and second-against-second, and ties favour the defender.

use vstd::arithmetic::div_mod::{
    lemma_div_is_ordered, lemma_div_multiples_vanish, lemma_fundamental_div_mod_converse,
};
use vstd::prelude::*;

verus! {

/// Fixed-point scale of the probability recursion.
pub open spec fn spec_scale() -> int {
    1000000000
}

/// How many dice the attacker rolls from `a` armies: all but one army, at
/// most three.
pub open spec fn att_dice(a: int) -> int {
    if a - 1 < 3 {
        a - 1
    } else {
        3
    }
}

/// How many dice the defender rolls from `d` armies: every army, at most two.
pub open spec fn def_dice(d: int) -> int {
    if d < 2 {
        d
    } else {
        2
    }
}

/// The one-die outcomes `(1, v)` for `v` in `i..=6`: a dummy second-best of 1
/// and the rolled value.
pub open spec fn dist1_from(i: int) -> Seq<(int, int)>
    decreases 7 - i
{
    if i > 6 {
        Seq::empty()
    } else {
        seq![(1, i)] + dist1_from(i + 1)
    }
}

/// The two-dice outcomes `(i, v)` for `v` in `j..=6`: one row of the
/// non-decreasing pairs.
pub open spec fn dist2_row(i: int, j: int) -> Seq<(int, int)>
    decreases 7 - j
{
    if j > 6 {
        Seq::empty()
    } else {
        seq![(i, j)] + dist2_row(i, j + 1)
    }
}

/// The non-decreasing two-dice outcomes `(i, j)`, `i <= j`, from row `i` on.
pub open spec fn dist2_from(i: int) -> Seq<(int, int)>
    decreases 7 - i
{
    if i > 6 {
        Seq::empty()
    } else {
        dist2_row(i, i) + dist2_from(i + 1)
    }
}

/// The three-dice outcomes reduced to (second-best, best): for each
/// non-decreasing triple `i <= j <= k`, the pair `(j, k)`. The tuples with
/// lowest die `i` contribute exactly the two-dice rows from `i` on.
pub open spec fn dist3_from(i: int) -> Seq<(int, int)>
    decreases 7 - i
{
    if i > 6 {
        Seq::empty()
    } else {
        dist2_from(i) + dist3_from(i + 1)
    }
}

/// The effective (second-best, best) outcome list for `n` dice; empty for
/// any other count.
pub open spec fn spec_dice_distribution(n: int) -> Seq<(int, int)> {
    if n == 1 {
        dist1_from(1)
    } else if n == 2 {
        dist2_from(1)
    } else if n == 3 {
        dist3_from(1)
    } else {
        Seq::empty()
    }
}

/// The three outcomes a round can be scored for: a single defender loss
/// (best die beats best die), two defender losses (both comparisons won), or
/// two attacker losses (both comparisons lost; ties favour the defender).
#[derive(Debug, Clone, Copy, PartialEq, Eq, Structural)]
pub enum RoundComparison {
    SingleWin,
    DoubleWin,
    DoubleLoss,
}

/// Whether the attacker outcome `a` scores against the defender outcome `d`
/// under the given comparison; outcomes are (second-best, best) pairs.
pub open spec fn pair_scores(m: RoundComparison, a: (int, int), d: (int, int)) -> bool {
    match m {
        RoundComparison::SingleWin => a.1 > d.1,
        RoundComparison::DoubleWin => a.0 > d.0 && a.1 > d.1,
        RoundComparison::DoubleLoss => a.0 <= d.0 && a.1 <= d.1,
    }
}

/// How many defender outcomes the attacker outcome `a` scores against.
pub open spec fn count_score_one(m: RoundComparison, a: (int, int), def: Seq<(int, int)>) -> int
    decreases def.len(),
{
    if def.len() == 0 {
        0
    } else {
        (if pair_scores(m, a, def[0]) {
            1int
        } else {
            0int
        }) + count_score_one(m, a, def.drop_first())
    }
}

/// Over the full cross product of outcome lists, how many pairs score under
/// the given comparison.
pub open spec fn count_score(m: RoundComparison, att: Seq<(int, int)>, def: Seq<(int, int)>) -> int
    decreases att.len(),
{
    if att.len() == 0 {
        0
    } else {
        count_score_one(m, att[0], def) + count_score(m, att.drop_first(), def)
    }
}

/// The attacker's outcome list for `a` armies.
pub open spec fn att_dist(a: int) -> Seq<(int, int)> {
    spec_dice_distribution(att_dice(a))
}

/// Favourable outcomes for two defender losses in a double-dice round
/// (`a >= 3`): of the 56x21 (or 21x21 for two attacker dice) outcome pairs,
/// those winning both comparisons. The exec enumeration [`p_win2`] counts the
/// same outcomes at run time.
pub open spec fn win2_num(a: int) -> int {
    if att_dice(a) == 2 {
        105
    } else {
        420
    }
}

/// Outcomes costing two attacker losses in a double-dice round, ties
/// included; counted by the exec enumeration [`p_lose2`].
pub open spec fn lose2_num(a: int) -> int {
    if att_dice(a) == 2 {
        196
    } else {
        378
    }
}

/// All outcomes of a double-dice round: 21 (or 56) attacker outcomes against
/// the defender's 21.
pub open spec fn pair_den(a: int) -> int {
    if att_dice(a) == 2 {
        441
    } else {
        1176
    }
}

/// Favourable outcomes for the single defender loss in a one-comparison
/// round, by dice counts; counted by the exec enumeration [`p_win1`]. The
/// recursion uses this only for `a == 2` or `d == 1`.
pub open spec fn win1_num(a: int, d: int) -> int {
    if a == 2 {
        if def_dice(d) == 1 {
            15
        } else {
            35
        }
    } else if att_dice(a) == 2 {
        70
    } else {
        210
    }
}

/// All outcomes of a one-comparison round, by dice counts.
pub open spec fn single_den(a: int, d: int) -> int {
    if a == 2 {
        if def_dice(d) == 1 {
            36
        } else {
            126
        }
    } else if att_dice(a) == 2 {
        126
    } else {
        336
    }
}

/// The probability, scaled by [`spec_scale`] and rounded down at each
/// recursive step, that the attacker eventually conquers: 0 with at most one
/// army, 1 with no defenders left, and otherwise the round odds applied to
/// the three (or two) possible follow-up states.
pub open spec fn p_scaled(a: int, d: int) -> int
    decreases a + d
{
    if a <= 1 {
        0
    } else if d <= 0 {
        spec_scale()
    } else if a >= 3 && d >= 2 {
        (win2_num(a) * p_scaled(a, d - 2) + (pair_den(a) - win2_num(a) - lose2_num(a)) * p_scaled(
            a - 1,
            d - 1,
        ) + lose2_num(a) * p_scaled(a - 2, d)) / pair_den(a)
    } else {
        (win1_num(a, d) * p_scaled(a, d - 1) + (single_den(a, d) - win1_num(a, d)) * p_scaled(
            a - 1,
            d,
        )) / single_den(a, d)
    }
}

/// The probability as basis points of a percentage (`0..=10000`), rounded to
/// the nearest: `P * 100`, to two decimals.
pub open spec fn p_bp(a: int, d: int) -> int {
    (p_scaled(a, d) * 10000 + spec_scale() / 2) / spec_scale()
}

/// The round odds by case: the weights of the double-dice recursion for
/// `a >= 3`, and of the one-comparison recursion for `a == 2` or `d == 1`.
pub proof fn lemma_round_weights(a: int, d: int)
    requires
        a >= 2,
        d >= 1,
    ensures
        a == 3 ==> win2_num(a) == 105 && lose2_num(a) == 196 && pair_den(a) == 441,
        a >= 4 ==> win2_num(a) == 420 && lose2_num(a) == 378 && pair_den(a) == 1176,
        a == 2 && d == 1 ==> win1_num(a, d) == 15 && single_den(a, d) == 36,
        a == 2 && d >= 2 ==> win1_num(a, d) == 35 && single_den(a, d) == 126,
        a == 3 && d == 1 ==> win1_num(a, d) == 70 && single_den(a, d) == 126,
        a >= 4 && d == 1 ==> win1_num(a, d) == 210 && single_den(a, d) == 336,
{
}

/// The scaled probability always lies between 0 (sure loss) and the scale
/// (sure win).
pub proof fn lemma_p_scaled_bounds(a: int, d: int)
    ensures
        0 <= p_scaled(a, d) <= spec_scale(),
    decreases (if a + d >= 0 {
        a + d
    } else {
        0
    }),
{
    let sc = spec_scale();
    if a <= 1 {
    } else if d <= 0 {
    } else if a >= 3 && d >= 2 {
        lemma_p_scaled_bounds(a, d - 2);
        lemma_p_scaled_bounds(a - 1, d - 1);
        lemma_p_scaled_bounds(a - 2, d);
        lemma_round_weights(a, d);
        let p1 = p_scaled(a, d - 2);
        let p2 = p_scaled(a - 1, d - 1);
        let p3 = p_scaled(a - 2, d);
        let w2 = win2_num(a);
        let l2 = lose2_num(a);
        let den = pair_den(a);
        let sp = den - w2 - l2;
        let num = w2 * p1 + sp * p2 + l2 * p3;
        if a == 3 {
            assert(num == 105 * p1 + 140 * p2 + 196 * p3);
            assert(num >= 0);
            assert(num <= 441 * sc);
            assert(den * sc == 441 * sc);
        } else {
            assert(num == 420 * p1 + 378 * p2 + 378 * p3);
            assert(num >= 0);
            assert(num <= 1176 * sc);
            assert(den * sc == 1176 * sc);
        }
        lemma_div_is_ordered(0, num, den);
        lemma_div_is_ordered(num, den * sc, den);
        lemma_div_multiples_vanish(sc, den);
    } else {
        lemma_p_scaled_bounds(a, d - 1);
        lemma_p_scaled_bounds(a - 1, d);
        lemma_round_weights(a, d);
        let p1 = p_scaled(a, d - 1);
        let p2 = p_scaled(a - 1, d);
        let w1 = win1_num(a, d);
        let den = single_den(a, d);
        let num = w1 * p1 + (den - w1) * p2;
        if a == 2 && d == 1 {
            assert(num == 15 * p1 + 21 * p2);
            assert(num <= 36 * sc && den * sc == 36 * sc);
        } else if a == 2 {
            assert(num == 35 * p1 + 91 * p2);
            assert(num <= 126 * sc && den * sc == 126 * sc);
        } else if a == 3 {
            assert(num == 70 * p1 + 56 * p2);
            assert(num <= 126 * sc && den * sc == 126 * sc);
        } else {
            assert(num == 210 * p1 + 126 * p2);
            assert(num <= 336 * sc && den * sc == 336 * sc);
        }
        assert(num >= 0);
        lemma_div_is_ordered(0, num, den);
        lemma_div_is_ordered(num, den * sc, den);
        lemma_div_multiples_vanish(sc, den);
    }
}

/// Basis points always lie in `0..=10000`.
pub proof fn lemma_p_bp_bounds(a: int, d: int)
    ensures
        0 <= p_bp(a, d) <= 10000,
{
    lemma_p_scaled_bounds(a, d);
    let sc = spec_scale();
    let num = p_scaled(a, d) * 10000 + sc / 2;
    assert(num >= 0);
    assert(num <= 10000 * sc + sc / 2);
    lemma_div_is_ordered(0, num, sc);
    lemma_div_is_ordered(num, 10000 * sc + sc / 2, sc);
    lemma_fundamental_div_mod_converse(10000 * sc + sc / 2, sc, 10000, sc / 2);
}

/// An attacker reduced to one army can no longer win, whatever the defence.
pub proof fn lemma_single_attacker_never_wins(d: int)
    requires
        d >= 0,
    ensures
        p_bp(1, d) == 0,
{
    assert(p_scaled(1, d) == 0);
    lemma_fundamental_div_mod_converse(spec_scale() / 2, spec_scale(), 0, spec_scale() / 2);
}

/// With no defender left and at least two attacker armies the conquest is
/// certain. (With exactly one attacker army the engine reports 0 even for an
/// empty defence: the attacker cannot roll a die.)
pub proof fn lemma_no_defender_sure_win(a: int)
    requires
        a >= 2,
    ensures
        p_bp(a, 0) == 10000,
{
    assert(p_scaled(a, 0) == spec_scale());
    lemma_fundamental_div_mod_converse(
        spec_scale() * 10000 + spec_scale() / 2,
        spec_scale(),
        10000,
        spec_scale() / 2,
    );
}

/// The single-die duel: 15 of the 36 equally likely outcomes favour the
/// attacker, so two armies against one win 41.67% of the time.
pub proof fn lemma_two_versus_one()
    ensures
        p_bp(2, 1) == 4167,
{
    assert(p_scaled(2, 0) == spec_scale());
    assert(p_scaled(1, 1) == 0);
    assert(p_scaled(2, 1) == (15 * spec_scale() + 21 * 0) / 36);
    lemma_fundamental_div_mod_converse(15 * spec_scale(), 36, 416666666, 24);
    assert(p_scaled(2, 1) == 416666666);
    lemma_fundamental_div_mod_converse(
        416666666 * 10000 + spec_scale() / 2,
        spec_scale(),
        4167,
        166660000,
    );
}


/// The memo table of the estimator: `rows[a][d]`, when filled, holds the
/// scaled probability for `a` attacker and `d` defender armies.
#[derive(Debug, Clone)]
pub struct ProbabilityCache {
    rows: Vec<Vec<Option<u32>>>,
}

impl ProbabilityCache {
    /// Every filled cell holds exactly the scaled probability of its
    /// coordinates.
    pub closed spec fn wf(self) -> bool {
        forall|a: int, d: int|
            0 <= a < self.rows@.len() && 0 <= d < self.rows@[a]@.len() ==> ((
            #[trigger] self.rows@[a]@[d]) matches Some(v) ==> v == p_scaled(a, d))
    }

    /// The cell for `a` attacker and `d` defender armies is filled.
    pub closed spec fn spec_contains(self, a: int, d: int) -> bool {
        0 <= a < self.rows@.len() && 0 <= d < self.rows@[a]@.len() && self.rows@[a]@[d] is Some
    }

    pub fn new() -> (r: Self)
        ensures
            r.wf(),
    {
        Self { rows: Vec::new() }
    }

    /// The cached scaled probability, if this cell was ever filled.
    fn get(&self, a: u16, d: u16) -> (r: Option<u32>)
        requires
            self.wf(),
        ensures
            r matches Some(v) ==> v == p_scaled(a as int, d as int),
            r is Some <==> self.spec_contains(a as int, d as int),
    {
        if (a as usize) < self.rows.len() {
            let row = &self.rows[a as usize];
            if (d as usize) < row.len() {
                row[d as usize]
            } else {
                None
            }
        } else {
            None
        }
    }

    /// Fills one cell, growing the table as needed; already-filled cells
    /// stay filled.
    fn put(&mut self, a: u16, d: u16, v: u32)
        requires
            old(self).wf(),
            v == p_scaled(a as int, d as int),
        ensures
            final(self).wf(),
            final(self).spec_contains(a as int, d as int),
            forall|x: int, y: int|
                old(self).spec_contains(x, y) ==> final(self).spec_contains(x, y),
    {
        let ai: usize = a as usize;
        let di: usize = d as usize;
        while self.rows.len() <= ai
            invariant
                self.wf(),
                self.rows@.len() >= old(self).rows@.len(),
                forall|x: int|
                    0 <= x < old(self).rows@.len() ==> #[trigger] self.rows@[x] == old(
                        self,
                    ).rows@[x],
                forall|x: int|
                    old(self).rows@.len() <= x < self.rows@.len() ==> (
                    #[trigger] self.rows@[x])@.len() == 0,
            decreases ai + 1 - self.rows@.len(),
        {
            self.rows.push(Vec::new());
        }
        let ghost rows0 = self.rows@;
        let mut row = self.rows.remove(ai);
        let ghost row0 = row@;
        while row.len() <= di
            invariant
                row0.len() <= row@.len(),
                forall|y: int|
                    0 <= y < row@.len() ==> #[trigger] row@[y] == (if y < row0.len() {
                        row0[y]
                    } else {
                        None::<u32>
                    }),
            decreases di + 1 - row@.len(),
        {
            row.push(None);
        }
        let ghost row1 = row@;
        row.remove(di);
        row.insert(di, Some(v));
        proof {
            crate::player::lemma_remove_insert(row1, di as int, Some(v));
        }
        let ghost row2 = row@;
        self.rows.insert(ai, row);
        proof {
            crate::player::lemma_remove_insert(rows0, ai as int, row);
            assert(self.rows@ == rows0.update(ai as int, row));
            assert forall|x: int, y: int|
                0 <= x < self.rows@.len() && 0 <= y < self.rows@[x]@.len() implies ((
            #[trigger] self.rows@[x]@[y]) matches Some(w) ==> w == p_scaled(x, y)) by {
                if x == ai {
                    assert(self.rows@[x]@ == row2);
                    if y == di {
                    } else if y < row0.len() {
                        assert(row2[y] == row0[y]);
                        assert(rows0[x]@[y] == row0[y]);
                    } else {
                        assert(row2[y] is None);
                    }
                } else {
                    assert(self.rows@[x] == rows0[x]);
                }
            }
            assert(self.spec_contains(a as int, d as int));
            assert forall|x: int, y: int| old(self).spec_contains(x, y) implies self.spec_contains(
                x,
                y,
            ) by {
                if x == ai as int {
                    assert(rows0[x] == old(self).rows@[x]);
                    assert(self.rows@[x]@ == row2);
                    assert(y < row0.len());
                    if y != di as int {
                        assert(row2[y] == row0[y]);
                    }
                } else {
                    assert(self.rows@[x] == rows0[x]);
                    assert(rows0[x] == old(self).rows@[x]);
                }
            }
        }
    }
}

/// The scaled conquest probability, computed by the memoized recursion.
pub fn conquer_probability_scaled(cache: &mut ProbabilityCache, a: u16, d: u16) -> (r: u32)
    requires
        old(cache).wf(),
    ensures
        final(cache).wf(),
        r == p_scaled(a as int, d as int),
        forall|x: int, y: int|
            old(cache).spec_contains(x, y) ==> final(cache).spec_contains(x, y),
        a >= 2 && d >= 1 ==> final(cache).spec_contains(a as int, d as int),
    decreases a + d,
{
    if a <= 1 {
        return 0;
    }
    if d == 0 {
        return 1000000000;
    }
    if let Some(v) = cache.get(a, d) {
        return v;
    }
    proof {
        lemma_round_weights(a as int, d as int);
        lemma_p_scaled_bounds(a as int, d as int - 2);
        lemma_p_scaled_bounds(a as int - 1, d as int - 1);
        lemma_p_scaled_bounds(a as int - 2, d as int);
        lemma_p_scaled_bounds(a as int, d as int - 1);
        lemma_p_scaled_bounds(a as int - 1, d as int);
    }
    proof {
        lemma_p_scaled_bounds(a as int, d as int);
    }
    let r: u32 = if a >= 3 && d >= 2 {
        let p1 = conquer_probability_scaled(cache, a, d - 2);
        let p2 = conquer_probability_scaled(cache, a - 1, d - 1);
        let p3 = conquer_probability_scaled(cache, a - 2, d);
        if a == 3 {
            ((105 * (p1 as u64) + 140 * (p2 as u64) + 196 * (p3 as u64)) / 441) as u32
        } else {
            ((420 * (p1 as u64) + 378 * (p2 as u64) + 378 * (p3 as u64)) / 1176) as u32
        }
    } else {
        let p1 = conquer_probability_scaled(cache, a, d - 1);
        let p2 = conquer_probability_scaled(cache, a - 1, d);
        if a == 2 {
            if d == 1 {
                ((15 * (p1 as u64) + 21 * (p2 as u64)) / 36) as u32
            } else {
                ((35 * (p1 as u64) + 91 * (p2 as u64)) / 126) as u32
            }
        } else if a == 3 {
            ((70 * (p1 as u64) + 56 * (p2 as u64)) / 126) as u32
        } else {
            ((210 * (p1 as u64) + 126 * (p2 as u64)) / 336) as u32
        }
    };
    cache.put(a, d, r);
    r
}

/// The conquest probability in basis points of a percentage, rounded to the
/// nearest (`4167` means `41.67%`).
pub fn conquer_probability(cache: &mut ProbabilityCache, attacker_armies: u16, defender_armies: u16) -> (r:
    u16)
    requires
        old(cache).wf(),
    ensures
        final(cache).wf(),
        r == p_bp(attacker_armies as int, defender_armies as int),
{
    let s = conquer_probability_scaled(cache, attacker_armies, defender_armies);
    proof {
        lemma_p_scaled_bounds(attacker_armies as int, defender_armies as int);
        lemma_p_bp_bounds(attacker_armies as int, defender_armies as int);
        assert(spec_scale() / 2 == 500000000);
    }
    (((s as u64) * 10000 + 500000000) / 1000000000) as u16
}

/// Fills the memo for every pair up to the given army counts; the shared
/// precomputation step of the offline cache builder. Afterwards every cell
/// of the requested rectangle (attackers from two, defenders from one) is
/// filled, and nothing already cached is lost.
pub fn precompute(cache: &mut ProbabilityCache, max_attack: u16, max_defend: u16)
    requires
        old(cache).wf(),
    ensures
        final(cache).wf(),
        forall|x: int, y: int|
            old(cache).spec_contains(x, y) ==> final(cache).spec_contains(x, y),
        forall|x: int, y: int|
            2 <= x <= max_attack && 1 <= y <= max_defend ==> final(cache).spec_contains(x, y),
{
    let mut a: u32 = 2;
    while a <= max_attack as u32
        invariant
            cache.wf(),
            2 <= a <= 0x10000,
            forall|x: int, y: int|
                old(cache).spec_contains(x, y) ==> cache.spec_contains(x, y),
            forall|x: int, y: int|
                2 <= x < a && 1 <= y <= max_defend ==> cache.spec_contains(x, y),
        decreases max_attack as int + 1 - a,
    {
        let mut d: u32 = 1;
        while d <= max_defend as u32
            invariant
                cache.wf(),
                2 <= a <= 0xffff,
                1 <= d <= 0x10000,
                forall|x: int, y: int|
                    old(cache).spec_contains(x, y) ==> cache.spec_contains(x, y),
                forall|x: int, y: int|
                    2 <= x < a && 1 <= y <= max_defend ==> cache.spec_contains(x, y),
                forall|y: int| 1 <= y < d ==> cache.spec_contains(a as int, y),
            decreases max_defend as int + 1 - d,
        {
            conquer_probability_scaled(cache, a as u16, d as u16);
            d = d + 1;
        }
        a = a + 1;
    }
}

/// Every filled cell as `(attacker, defender, basis points)`, the form the
/// offline tool persists.
pub fn export_entries(cache: &ProbabilityCache) -> (r: Vec<(u16, u16, u16)>)
    requires
        cache.wf(),
    ensures
        forall|k: int|
            0 <= k < r@.len() ==> (#[trigger] r@[k]).2 == p_bp(r@[k].0 as int, r@[k].1 as int),
        forall|x: int, y: int|
            #[trigger] cache.spec_contains(x, y) && x <= 0xffff && y <= 0xffff ==> exists|k: int|
                0 <= k < r@.len() && (#[trigger] r@[k]).0 == x && r@[k].1 == y && r@[k].2 == p_bp(
                    x,
                    y,
                ),
{
    let mut r: Vec<(u16, u16, u16)> = Vec::new();
    let mut a: usize = 0;
    while a < cache.rows.len()
        invariant
            cache.wf(),
            forall|k: int|
                0 <= k < r@.len() ==> (#[trigger] r@[k]).2 == p_bp(r@[k].0 as int, r@[k].1 as int),
            forall|x: int, y: int|
                #[trigger] cache.spec_contains(x, y) && x < a && y <= 0xffff ==> exists|k: int|
                    0 <= k < r@.len() && (#[trigger] r@[k]).0 == x && r@[k].1 == y && r@[k].2
                        == p_bp(x, y),
        ensures
            a >= cache.rows@.len() || a > 0xffff,
            cache.wf(),
            forall|k: int|
                0 <= k < r@.len() ==> (#[trigger] r@[k]).2 == p_bp(r@[k].0 as int, r@[k].1 as int),
            forall|x: int, y: int|
                #[trigger] cache.spec_contains(x, y) && x < a && y <= 0xffff ==> exists|k: int|
                    0 <= k < r@.len() && (#[trigger] r@[k]).0 == x && r@[k].1 == y && r@[k].2
                        == p_bp(x, y),
        decreases cache.rows@.len() - a,
    {
        if a > 0xffff {
            break;
        }
        let mut d: usize = 0;
        while d < cache.rows[a].len()
            invariant
                cache.wf(),
                a < cache.rows@.len(),
                a <= 0xffff,
                forall|k: int|
                    0 <= k < r@.len() ==> (#[trigger] r@[k]).2 == p_bp(
                        r@[k].0 as int,
                        r@[k].1 as int,
                    ),
                forall|x: int, y: int|
                    #[trigger] cache.spec_contains(x, y) && x < a && y <= 0xffff ==> exists|k: int|
                        0 <= k < r@.len() && (#[trigger] r@[k]).0 == x && r@[k].1 == y && r@[k].2
                            == p_bp(x, y),
                forall|y: int|
                    #[trigger] cache.spec_contains(a as int, y) && y < d ==> exists|k: int|
                        0 <= k < r@.len() && (#[trigger] r@[k]).0 == a && r@[k].1 == y && r@[k].2
                            == p_bp(a as int, y),
            ensures
                d >= cache.rows@[a as int]@.len() || d > 0xffff,
                a < cache.rows@.len(),
                a <= 0xffff,
                cache.wf(),
                forall|k: int|
                    0 <= k < r@.len() ==> (#[trigger] r@[k]).2 == p_bp(
                        r@[k].0 as int,
                        r@[k].1 as int,
                    ),
                forall|x: int, y: int|
                    #[trigger] cache.spec_contains(x, y) && x < a && y <= 0xffff ==> exists|k: int|
                        0 <= k < r@.len() && (#[trigger] r@[k]).0 == x && r@[k].1 == y && r@[k].2
                            == p_bp(x, y),
                forall|y: int|
                    #[trigger] cache.spec_contains(a as int, y) && y < d ==> exists|k: int|
                        0 <= k < r@.len() && (#[trigger] r@[k]).0 == a && r@[k].1 == y && r@[k].2
                            == p_bp(a as int, y),
            decreases cache.rows@[a as int]@.len() - d,
        {
            if d > 0xffff {
                break;
            }
            let ghost r0 = r@;
            if let Some(v) = cache.rows[a][d] {
                proof {
                    lemma_p_scaled_bounds(a as int, d as int);
                    lemma_p_bp_bounds(a as int, d as int);
                    assert(spec_scale() / 2 == 500000000);
                }
                let bp: u16 = (((v as u64) * 10000 + 500000000) / 1000000000) as u16;
                r.push((a as u16, d as u16, bp));
            }
            proof {
                assert forall|x: int, y: int|
                    #[trigger] cache.spec_contains(x, y) && x < a && y <= 0xffff implies exists|
                    k: int,
                |
                    0 <= k < r@.len() && (#[trigger] r@[k]).0 == x && r@[k].1 == y && r@[k].2
                        == p_bp(x, y) by {
                    let k = choose|k: int|
                        0 <= k < r0.len() && (#[trigger] r0[k]).0 == x && r0[k].1 == y && r0[k].2
                            == p_bp(x, y);
                    assert(r@[k] == r0[k]);
                }
                assert forall|y: int|
                    #[trigger] cache.spec_contains(a as int, y) && y < d + 1 implies exists|k: int|
                    0 <= k < r@.len() && (#[trigger] r@[k]).0 == a && r@[k].1 == y && r@[k].2
                        == p_bp(a as int, y) by {
                    if y < d {
                        let k = choose|k: int|
                            0 <= k < r0.len() && (#[trigger] r0[k]).0 == a && r0[k].1 == y
                                && r0[k].2 == p_bp(a as int, y);
                        assert(r@[k] == r0[k]);
                    } else {
                        assert(r@[r@.len() - 1].0 == a);
                    }
                }
            }
            d = d + 1;
        }
        proof {
            assert forall|x: int, y: int|
                #[trigger] cache.spec_contains(x, y) && x < a + 1 && y <= 0xffff implies exists|
                k: int,
            |
                0 <= k < r@.len() && (#[trigger] r@[k]).0 == x && r@[k].1 == y && r@[k].2 == p_bp(
                    x,
                    y,
                ) by {
                if x == a as int {
                    assert(y < cache.rows@[x]@.len());
                    assert(y < d);
                }
            }
        }
        a = a + 1;
    }
    proof {
        assert forall|x: int, y: int|
            #[trigger] cache.spec_contains(x, y) && x <= 0xffff && y <= 0xffff implies exists|
            k: int,
        |
            0 <= k < r@.len() && (#[trigger] r@[k]).0 == x && r@[k].1 == y && r@[k].2 == p_bp(
                x,
                y,
            ) by {
            assert(x < cache.rows@.len());
            assert(x < a);
        }
    }
    r
}

/// Loads persisted entries into the memo, recomputing each cell and refusing
/// the whole batch on the first entry that disagrees with the engine's own
/// estimate: a corrupt cache fails closed instead of poisoning the engine.
pub fn seed_probability_cache(cache: &mut ProbabilityCache, entries: &Vec<(u16, u16, u16)>) -> (r:
    Result<(), String>)
    requires
        old(cache).wf(),
    ensures
        final(cache).wf(),
        r is Ok <==> forall|k: int|
            0 <= k < entries@.len() ==> (#[trigger] entries@[k]).2 == p_bp(
                entries@[k].0 as int,
                entries@[k].1 as int,
            ),
{
    let mut k: usize = 0;
    while k < entries.len()
        invariant
            cache.wf(),
            k <= entries@.len(),
            forall|j: int|
                0 <= j < k ==> (#[trigger] entries@[j]).2 == p_bp(
                    entries@[j].0 as int,
                    entries@[j].1 as int,
                ),
        decreases entries@.len() - k,
    {
        let e = entries[k];
        let bp = conquer_probability(cache, e.0, e.1);
        if bp != e.2 {
            return Err("Corrupt probability cache entry.".to_owned());
        }
        k = k + 1;
    }
    Ok(())
}


/// The integer view of an outcome list built at run time.
pub open spec fn dist_view(s: Seq<(u16, u16)>) -> Seq<(int, int)> {
    s.map_values(|p: (u16, u16)| (p.0 as int, p.1 as int))
}

/// The sizes of the three outcome lists, read off their definitions.
pub proof fn lemma_dist_lens()
    ensures
        dist1_from(1).len() == 6,
        dist2_from(1).len() == 21,
        dist3_from(1).len() == 56,
{
    assert forall|i: int| #[trigger] dist1_from(i).len() == (if 1 <= i <= 7 {
        7 - i
    } else {
        dist1_from(i).len() as int
    }) by {
        lemma_dist1_len(i);
    }
    assert forall|i: int, j: int| 1 <= j <= 7 implies #[trigger] dist2_row(i, j).len() == 7 - j by {
        lemma_dist2_row_len(i, j);
    }
    assert(dist2_from(7).len() == 0);
    assert(dist2_from(6).len() == 1);
    assert(dist2_from(5).len() == 3);
    assert(dist2_from(4).len() == 6);
    assert(dist2_from(3).len() == 10);
    assert(dist2_from(2).len() == 15);
    assert(dist2_from(1).len() == 21);
    assert(dist3_from(7).len() == 0);
    assert(dist3_from(6).len() == 1);
    assert(dist3_from(5).len() == 4);
    assert(dist3_from(4).len() == 10);
    assert(dist3_from(3).len() == 20);
    assert(dist3_from(2).len() == 35);
    assert(dist3_from(1).len() == 56);
}

proof fn lemma_dist1_len(i: int)
    ensures
        1 <= i <= 7 ==> dist1_from(i).len() == 7 - i,
    decreases (if i >= 1 {
        7 - i
    } else {
        0
    }),
{
    if 1 <= i <= 6 {
        lemma_dist1_len(i + 1);
    }
}

proof fn lemma_dist2_row_len(i: int, j: int)
    ensures
        1 <= j <= 7 ==> dist2_row(i, j).len() == 7 - j,
    decreases (if j >= 1 {
        7 - j
    } else {
        0
    }),
{
    if 1 <= j <= 6 {
        lemma_dist2_row_len(i, j + 1);
    }
}

/// Each attacker outcome scores against at most every defender outcome.
proof fn lemma_count_score_one_bounds(m: RoundComparison, a: (int, int), def: Seq<(int, int)>)
    ensures
        0 <= count_score_one(m, a, def) <= def.len(),
    decreases def.len(),
{
    if def.len() > 0 {
        lemma_count_score_one_bounds(m, a, def.drop_first());
    }
}

/// The scored pairs are at most the whole cross product.
proof fn lemma_count_score_bounds(m: RoundComparison, att: Seq<(int, int)>, def: Seq<(int, int)>)
    ensures
        0 <= count_score(m, att, def) <= att.len() * def.len(),
    decreases att.len(),
{
    if att.len() > 0 {
        lemma_count_score_one_bounds(m, att[0], def);
        lemma_count_score_bounds(m, att.drop_first(), def);
        assert((att.len() - 1) * def.len() + def.len() == att.len() * def.len())
            by (nonlinear_arith);
    }
}

/// Appends the two-dice rows from `i0` on, that is `dist2_from(i0)`.
fn push_pair_rows(v: &mut Vec<(u16, u16)>, i0: u16)
    requires
        1 <= i0 <= 7,
    ensures
        dist_view(final(v)@) == dist_view(old(v)@) + dist2_from(i0 as int),
{
    let mut i: u16 = i0;
    while i <= 6
        invariant
            1 <= i0 <= i <= 7,
            dist_view(v@) + dist2_from(i as int) == dist_view(old(v)@) + dist2_from(i0 as int),
        decreases 7 - i,
    {
        let ghost v_row = v@;
        let mut j: u16 = i;
        while j <= 6
            invariant
                i <= j <= 7,
                1 <= i <= 6,
                dist_view(v@) + dist2_row(i as int, j as int) == dist_view(v_row) + dist2_row(
                    i as int,
                    i as int,
                ),
            decreases 7 - j,
        {
            proof {
                assert(dist_view(v@.push((i, j))) =~= dist_view(v@).push((i as int, j as int)));
                assert(dist2_row(i as int, j as int) == seq![(i as int, j as int)] + dist2_row(
                    i as int,
                    j as int + 1,
                ));
                assert(dist_view(v@).push((i as int, j as int)) + dist2_row(i as int, j as int + 1)
                    =~= dist_view(v@) + dist2_row(i as int, j as int));
            }
            v.push((i, j));
            j = j + 1;
        }
        proof {
            assert(dist2_row(i as int, 7) =~= Seq::<(int, int)>::empty());
            assert(dist_view(v@) + dist2_row(i as int, 7) =~= dist_view(v@));
            assert(dist2_from(i as int) == dist2_row(i as int, i as int) + dist2_from(i as int + 1));
            assert(dist_view(v@) + dist2_from(i as int + 1) =~= dist_view(v_row) + dist2_from(
                i as int,
            ));
        }
        i = i + 1;
    }
    proof {
        assert(dist2_from(7) =~= Seq::<(int, int)>::empty());
        assert(dist_view(v@) + dist2_from(7) =~= dist_view(v@));
    }
}

/// The effective best-dice outcome list for `n` dice (1, 2 or 3); any other
/// count is rejected.
pub fn dice_distribution(n: u16) -> (r: Result<Vec<(u16, u16)>, String>)
    ensures
        1 <= n <= 3 ==> r is Ok && dist_view(r->Ok_0@) == spec_dice_distribution(n as int),
        !(1 <= n <= 3) ==> r is Err,
{
    if n == 1 {
        let mut v: Vec<(u16, u16)> = Vec::new();
        let mut i: u16 = 1;
        while i <= 6
            invariant
                1 <= i <= 7,
                dist_view(v@) + dist1_from(i as int) == dist1_from(1),
            decreases 7 - i,
        {
            proof {
                assert(dist_view(v@.push((1u16, i))) =~= dist_view(v@).push((1int, i as int)));
                assert(dist1_from(i as int) == seq![(1int, i as int)] + dist1_from(i as int + 1));
                assert(dist_view(v@).push((1int, i as int)) + dist1_from(i as int + 1)
                    =~= dist_view(v@) + dist1_from(i as int));
            }
            v.push((1, i));
            i = i + 1;
        }
        proof {
            assert(dist1_from(7) =~= Seq::<(int, int)>::empty());
            assert(dist_view(v@) + dist1_from(7) =~= dist_view(v@));
        }
        Ok(v)
    } else if n == 2 {
        let mut v: Vec<(u16, u16)> = Vec::new();
        push_pair_rows(&mut v, 1);
        proof {
            assert(Seq::<(int, int)>::empty() + dist2_from(1) =~= dist2_from(1));
        }
        Ok(v)
    } else if n == 3 {
        let mut v: Vec<(u16, u16)> = Vec::new();
        let mut i: u16 = 1;
        while i <= 6
            invariant
                1 <= i <= 7,
                dist_view(v@) + dist3_from(i as int) == dist3_from(1),
            decreases 7 - i,
        {
            let ghost v0 = v@;
            push_pair_rows(&mut v, i);
            proof {
                assert(dist3_from(i as int) == dist2_from(i as int) + dist3_from(i as int + 1));
                assert((dist_view(v0) + dist2_from(i as int)) + dist3_from(i as int + 1)
                    =~= dist_view(v0) + dist3_from(i as int));
            }
            i = i + 1;
        }
        proof {
            assert(dist3_from(7) =~= Seq::<(int, int)>::empty());
            assert(dist_view(v@) + dist3_from(7) =~= dist_view(v@));
        }
        Ok(v)
    } else {
        Err("Invalid number of dice".to_owned())
    }
}

/// Whether the attacker outcome scores against the defender outcome under
/// the given comparison.
fn outcome_scores(m: RoundComparison, a: (u16, u16), d: (u16, u16)) -> (r: bool)
    ensures
        r == pair_scores(m, (a.0 as int, a.1 as int), (d.0 as int, d.1 as int)),
{
    match m {
        RoundComparison::SingleWin => a.1 > d.1,
        RoundComparison::DoubleWin => a.0 > d.0 && a.1 > d.1,
        RoundComparison::DoubleLoss => a.0 <= d.0 && a.1 <= d.1,
    }
}

/// Counts the scoring pairs over the full cross product of the two outcome
/// lists.
fn count_outcomes(m: RoundComparison, att: &Vec<(u16, u16)>, def: &Vec<(u16, u16)>) -> (r: u64)
    requires
        att@.len() <= 0xffff,
        def@.len() <= 0xffff,
    ensures
        r == count_score(m, dist_view(att@), dist_view(def@)),
{
    let ghost va = dist_view(att@);
    let ghost vd = dist_view(def@);
    proof {
        assert(va.skip(0) =~= va);
        assert(vd.skip(0) =~= vd);
    }
    let mut acc: u64 = 0;
    let mut i: usize = 0;
    while i < att.len()
        invariant
            0 <= i <= att@.len(),
            att@.len() <= 0xffff,
            def@.len() <= 0xffff,
            va == dist_view(att@),
            vd == dist_view(def@),
            count_score(m, va, vd) == acc + count_score(m, va.skip(i as int), vd),
            acc <= 0xffff * 0xffff,
        decreases att@.len() - i,
    {
        let ghost acc0 = acc as int;
        let ae = att[i];
        proof {
            assert(vd.skip(0) =~= vd);
        }
        let mut j: usize = 0;
        while j < def.len()
            invariant
                0 <= j <= def@.len(),
                def@.len() <= 0xffff,
                vd == dist_view(def@),
                ae == att@[i as int],
                0 <= i < att@.len(),
                va == dist_view(att@),
                count_score_one(m, (ae.0 as int, ae.1 as int), vd) == acc - acc0
                    + count_score_one(m, (ae.0 as int, ae.1 as int), vd.skip(j as int)),
                acc0 <= acc,
                acc - acc0 <= j,
                acc0 <= 0xffff * 0xffff,
            decreases def@.len() - j,
        {
            proof {
                assert(vd.skip(j as int).drop_first() =~= vd.skip(j as int + 1));
                assert(vd.skip(j as int)[0] == vd[j as int]);
            }
            if outcome_scores(m, ae, def[j]) {
                acc = acc + 1;
            }
            j = j + 1;
        }
        proof {
            assert(vd.skip(vd.len() as int) =~= Seq::<(int, int)>::empty());
            assert(va.skip(i as int).drop_first() =~= va.skip(i as int + 1));
            assert(va.skip(i as int)[0] == va[i as int]);
            lemma_count_score_bounds(m, va, vd);
            lemma_count_score_bounds(m, va.skip(i as int + 1), vd);
            assert(va.len() * vd.len() <= 0xffff * 0xffff) by (nonlinear_arith)
                requires
                    va.len() <= 0xffff,
                    vd.len() <= 0xffff,
            ;
        }
        i = i + 1;
    }
    proof {
        assert(va.skip(va.len() as int) =~= Seq::<(int, int)>::empty());
    }
    acc
}

/// Counts, over the enumerated outcomes of a round in which only the best
/// dice are compared, how often the attacker scores: the favourable count
/// and the total count.
pub fn p_win1(a: u16, d: u16) -> (r: (u64, u64))
    requires
        a >= 2,
        d >= 1,
    ensures
        r.0 == count_score(
            RoundComparison::SingleWin,
            att_dist(a as int),
            spec_dice_distribution(def_dice(d as int)),
        ),
        r.1 == att_dist(a as int).len() * spec_dice_distribution(def_dice(d as int)).len(),
{
    let na: u16 = if a - 1 < 3 {
        a - 1
    } else {
        3
    };
    let nd: u16 = if d < 2 {
        d
    } else {
        2
    };
    proof {
        lemma_dist_lens();
    }
    let att = match dice_distribution(na) {
        Ok(v) => v,
        Err(_) => unreached(),
    };
    let def = match dice_distribution(nd) {
        Ok(v) => v,
        Err(_) => unreached(),
    };
    proof {
        assert(att@.len() == dist_view(att@).len());
        assert(def@.len() == dist_view(def@).len());
        assert(att@.len() <= 56);
        assert(def@.len() <= 56);
        assert((att@.len() as int) * (def@.len() as int) <= 3136) by (nonlinear_arith)
            requires
                att@.len() <= 56,
                def@.len() <= 56,
        ;
    }
    let wins = count_outcomes(RoundComparison::SingleWin, &att, &def);
    let total: u64 = (att.len() as u64) * (def.len() as u64);
    (wins, total)
}

/// Counts, over the enumerated outcomes of a double-dice round, how often
/// the attacker wins both comparisons.
pub fn p_win2(a: u16) -> (r: (u64, u64))
    requires
        a >= 2,
    ensures
        r.0 == count_score(
            RoundComparison::DoubleWin,
            att_dist(a as int),
            spec_dice_distribution(2),
        ),
        r.1 == att_dist(a as int).len() * spec_dice_distribution(2).len(),
{
    let na: u16 = if a - 1 < 3 {
        a - 1
    } else {
        3
    };
    proof {
        lemma_dist_lens();
    }
    let att = match dice_distribution(na) {
        Ok(v) => v,
        Err(_) => unreached(),
    };
    let def = match dice_distribution(2) {
        Ok(v) => v,
        Err(_) => unreached(),
    };
    proof {
        assert(att@.len() == dist_view(att@).len());
        assert(def@.len() == dist_view(def@).len());
        assert(att@.len() <= 56);
        assert(def@.len() <= 56);
        assert((att@.len() as int) * (def@.len() as int) <= 3136) by (nonlinear_arith)
            requires
                att@.len() <= 56,
                def@.len() <= 56,
        ;
    }
    let wins = count_outcomes(RoundComparison::DoubleWin, &att, &def);
    let total: u64 = (att.len() as u64) * (def.len() as u64);
    (wins, total)
}

/// Counts, over the enumerated outcomes of a double-dice round, how often
/// the attacker loses both comparisons (ties included).
pub fn p_lose2(a: u16) -> (r: (u64, u64))
    requires
        a >= 2,
    ensures
        r.0 == count_score(
            RoundComparison::DoubleLoss,
            att_dist(a as int),
            spec_dice_distribution(2),
        ),
        r.1 == att_dist(a as int).len() * spec_dice_distribution(2).len(),
{
    let na: u16 = if a - 1 < 3 {
        a - 1
    } else {
        3
    };
    proof {
        lemma_dist_lens();
    }
    let att = match dice_distribution(na) {
        Ok(v) => v,
        Err(_) => unreached(),
    };
    let def = match dice_distribution(2) {
        Ok(v) => v,
        Err(_) => unreached(),
    };
    proof {
        assert(att@.len() == dist_view(att@).len());
        assert(def@.len() == dist_view(def@).len());
        assert(att@.len() <= 56);
        assert(def@.len() <= 56);
        assert((att@.len() as int) * (def@.len() as int) <= 3136) by (nonlinear_arith)
            requires
                att@.len() <= 56,
                def@.len() <= 56,
        ;
    }
    let wins = count_outcomes(RoundComparison::DoubleLoss, &att, &def);
    let total: u64 = (att.len() as u64) * (def.len() as u64);
    (wins, total)
}


/// Cross-multiplied fraction comparison carried through floor division.
proof fn lemma_frac_le(x: int, y: int, dx: int, dy: int)
    requires
        0 < dx,
        0 < dy,
        0 <= x,
        x * dy <= y * dx,
    ensures
        x / dx <= y / dy,
{
    lemma_fundamental_div_mod_support(x, dx);
    let q = x / dx;
    assert(x == dx * q + x % dx && 0 <= x % dx < dx);
    assert(q * dy <= y) by (nonlinear_arith)
        requires
            x == dx * q + x % dx,
            0 <= x % dx,
            x * dy <= y * dx,
            0 < dx,
            0 < dy,
            0 <= q,
    ;
    lemma_div_is_ordered(q * dy, y, dy);
    lemma_div_multiples_vanish(q, dy);
    assert((dy * q) / dy == q);
    assert(q * dy == dy * q) by (nonlinear_arith);
}

proof fn lemma_fundamental_div_mod_support(x: int, d: int)
    requires
        0 < d,
        0 <= x,
    ensures
        x == d * (x / d) + x % d,
        0 <= x % d < d,
        0 <= x / d,
{
    vstd::arithmetic::div_mod::lemma_fundamental_div_mod(x, d);
    vstd::arithmetic::div_mod::lemma_mod_pos_bound(x, d);
    lemma_div_is_ordered(0, x, d);
}

/// Reinforcing the attacker never hurts: the win chance with one more
/// attacking army is at least the win chance without it.
pub proof fn lemma_p_scaled_mono_attacker(a: int, d: int)
    requires
        a >= 1,
        d >= 0,
    ensures
        p_scaled(a + 1, d) >= p_scaled(a, d),
    decreases a + d + 1, 0int,
{
    let sc = spec_scale();
    lemma_p_scaled_bounds(a, d);
    lemma_p_scaled_bounds(a + 1, d);
    if d == 0 {
        assert(p_scaled(a + 1, 0) == sc);
    } else if a == 1 {
        assert(p_scaled(1, d) == 0);
    } else if d == 1 {
        // both sides resolve a one-comparison round against the last defender
        lemma_p_scaled_mono_attacker(a - 1, 1);
        lemma_round_weights(a, 1);
        lemma_round_weights(a + 1, 1);
        let b1 = p_scaled(a, 1);
        let b0 = p_scaled(a - 1, 1);
        lemma_p_scaled_bounds(a - 1, 1);
        assert(p_scaled(a + 1, 0) == sc && p_scaled(a, 0) == sc);
        if a == 2 {
            assert(p_scaled(3, 1) == (70 * sc + 56 * b1) / 126);
            assert(p_scaled(2, 1) == (15 * sc + 21 * b0) / 36);
            assert((15 * sc + 21 * b0) * 126 <= (70 * sc + 56 * b1) * 36) by (nonlinear_arith)
                requires
                    0 <= b0 <= sc,
                    b0 <= b1,
                    0 <= sc,
            ;
            lemma_frac_le(15 * sc + 21 * b0, 70 * sc + 56 * b1, 36, 126);
        } else if a == 3 {
            assert(p_scaled(4, 1) == (210 * sc + 126 * b1) / 336);
            assert(p_scaled(3, 1) == (70 * sc + 56 * b0) / 126);
            assert((70 * sc + 56 * b0) * 336 <= (210 * sc + 126 * b1) * 126) by (nonlinear_arith)
                requires
                    0 <= b0 <= sc,
                    b0 <= b1,
                    0 <= sc,
            ;
            lemma_frac_le(70 * sc + 56 * b0, 210 * sc + 126 * b1, 126, 336);
        } else {
            assert(p_scaled(a + 1, 1) == (210 * sc + 126 * b1) / 336);
            assert(p_scaled(a, 1) == (210 * sc + 126 * b0) / 336);
            assert(210 * sc + 126 * b0 <= 210 * sc + 126 * b1) by (nonlinear_arith)
                requires
                    b0 <= b1,
            ;
            lemma_div_is_ordered(210 * sc + 126 * b0, 210 * sc + 126 * b1, 336);
        }
    } else if a == 2 {
        // two armies fight one comparison at a time; three armies open with
        // double dice
        lemma_round_weights(2, d);
        lemma_round_weights(3, d);
        let b = p_scaled(2, d - 1);
        lemma_p_scaled_bounds(2, d - 1);
        lemma_p_scaled_bounds(3, d - 2);
        assert(p_scaled(1, d) == 0);
        assert(p_scaled(2, d) == (35 * b + 91 * 0) / 126);
        assert(p_scaled(3, d) == (105 * p_scaled(3, d - 2) + 140 * b + 196 * 0) / 441);
        assert((35 * b + 91 * 0) * 441 <= (105 * p_scaled(3, d - 2) + 140 * b + 196 * 0) * 126)
            by (nonlinear_arith)
            requires
                0 <= b,
                0 <= p_scaled(3, d - 2),
        ;
        lemma_frac_le(35 * b + 91 * 0, 105 * p_scaled(3, d - 2) + 140 * b + 196 * 0, 126, 441);
    } else {
        // both sides resolve a double-dice round
        lemma_round_weights(a, d);
        lemma_round_weights(a + 1, d);
        lemma_p_scaled_mono_attacker(a, d - 2);
        lemma_p_scaled_mono_attacker(a - 1, d - 1);
        lemma_p_scaled_mono_attacker(a - 2, d);
        let a1 = p_scaled(a + 1, d - 2);
        let a0 = p_scaled(a, d - 2);
        let b1 = p_scaled(a, d - 1);
        let b0 = p_scaled(a - 1, d - 1);
        let c1 = p_scaled(a - 1, d);
        let c0 = p_scaled(a - 2, d);
        lemma_p_scaled_bounds(a, d - 2);
        lemma_p_scaled_bounds(a + 1, d - 2);
        lemma_p_scaled_bounds(a - 1, d - 1);
        lemma_p_scaled_bounds(a - 1, d);
        lemma_p_scaled_bounds(a - 2, d);
        if a == 3 {
            assert(c0 == 0);
            assert(p_scaled(4, d) == (420 * a1 + 378 * b1 + 378 * c1) / 1176);
            assert(p_scaled(3, d) == (105 * a0 + 140 * b0 + 196 * c0) / 441);
            assert((105 * a0 + 140 * b0 + 196 * c0) * 1176 <= (420 * a1 + 378 * b1 + 378 * c1)
                * 441) by (nonlinear_arith)
                requires
                    c0 == 0,
                    0 <= a0 <= a1,
                    0 <= b0 <= b1,
                    0 <= c1,
            ;
            lemma_frac_le(
                105 * a0 + 140 * b0 + 196 * c0,
                420 * a1 + 378 * b1 + 378 * c1,
                441,
                1176,
            );
        } else {
            assert(p_scaled(a + 1, d) == (420 * a1 + 378 * b1 + 378 * c1) / 1176);
            assert(p_scaled(a, d) == (420 * a0 + 378 * b0 + 378 * c0) / 1176);
            assert(420 * a0 + 378 * b0 + 378 * c0 <= 420 * a1 + 378 * b1 + 378 * c1)
                by (nonlinear_arith)
                requires
                    a0 <= a1,
                    b0 <= b1,
                    c0 <= c1,
            ;
            lemma_div_is_ordered(
                420 * a0 + 378 * b0 + 378 * c0,
                420 * a1 + 378 * b1 + 378 * c1,
                1176,
            );
        }
    }
}

/// An extra defender never helps the attacker: the win chance against one
/// more defending army is at most the win chance without it.
pub proof fn lemma_p_scaled_mono_defender(a: int, d: int)
    requires
        a >= 1,
        d >= 0,
    ensures
        p_scaled(a, d + 1) <= p_scaled(a, d),
    decreases a + d + 1, 1int,
{
    let sc = spec_scale();
    lemma_p_scaled_bounds(a, d);
    lemma_p_scaled_bounds(a, d + 1);
    if a == 1 {
        assert(p_scaled(1, d) == 0 && p_scaled(1, d + 1) == 0);
    } else if d == 0 {
        assert(p_scaled(a, 0) == sc);
    } else if a == 2 {
        // both sides are one-comparison rounds into a dwindling chain
        lemma_round_weights(2, d);
        lemma_round_weights(2, d + 1);
        let b = p_scaled(2, d);
        lemma_p_scaled_bounds(2, d);
        assert(p_scaled(1, d + 1) == 0 && p_scaled(1, d) == 0);
        assert(p_scaled(2, d + 1) == (35 * b + 91 * 0) / 126);
        lemma_frac_le(35 * b + 91 * 0, b, 126, 1);
        assert(b / 1 == b) by {
            lemma_div_multiples_vanish(b, 1);
        }
    } else if d == 1 {
        // double-dice round against two defenders versus the last-defender
        // round
        lemma_round_weights(a, 1);
        lemma_round_weights(a, 2);
        let b = p_scaled(a - 1, 1);
        let c = p_scaled(a - 2, 2);
        lemma_p_scaled_bounds(a - 1, 1);
        lemma_p_scaled_bounds(a - 2, 2);
        assert(p_scaled(a, 0) == sc);
        if a == 3 {
            assert(c == p_scaled(1, 2) && c == 0);
            assert(p_scaled(3, 2) == (105 * sc + 140 * b + 196 * c) / 441);
            assert(p_scaled(3, 1) == (70 * sc + 56 * b) / 126);
            assert((105 * sc + 140 * b + 196 * c) * 126 <= (70 * sc + 56 * b) * 441)
                by (nonlinear_arith)
                requires
                    c == 0,
                    0 <= b,
                    0 <= sc,
            ;
            lemma_frac_le(105 * sc + 140 * b + 196 * c, 70 * sc + 56 * b, 441, 126);
        } else {
            lemma_p_scaled_mono_attacker(a - 2, 1);
            lemma_p_scaled_mono_defender(a - 2, 1);
            lemma_p_scaled_bounds(a - 2, 1);
            assert(c <= p_scaled(a - 2, 1));
            assert(p_scaled(a - 2, 1) <= b);
            assert(p_scaled(a, 2) == (420 * sc + 378 * b + 378 * c) / 1176);
            assert(p_scaled(a, 1) == (210 * sc + 126 * b) / 336);
            assert((420 * sc + 378 * b + 378 * c) * 336 <= (210 * sc + 126 * b) * 1176)
                by (nonlinear_arith)
                requires
                    0 <= c,
                    c <= sc,
                    c <= b,
                    0 <= b,
                    0 <= sc,
            ;
            lemma_frac_le(420 * sc + 378 * b + 378 * c, 210 * sc + 126 * b, 1176, 336);
        }
    } else {
        // both sides resolve a double-dice round with the same odds
        lemma_round_weights(a, d);
        lemma_round_weights(a, d + 1);
        lemma_p_scaled_mono_defender(a, d - 2);
        lemma_p_scaled_mono_defender(a - 1, d - 1);
        lemma_p_scaled_mono_defender(a - 2, d);
        let a1 = p_scaled(a, d - 1);
        let a0 = p_scaled(a, d - 2);
        let b1 = p_scaled(a - 1, d);
        let b0 = p_scaled(a - 1, d - 1);
        let c1 = p_scaled(a - 2, d + 1);
        let c0 = p_scaled(a - 2, d);
        lemma_p_scaled_bounds(a, d - 1);
        lemma_p_scaled_bounds(a, d - 2);
        lemma_p_scaled_bounds(a - 1, d);
        lemma_p_scaled_bounds(a - 1, d - 1);
        lemma_p_scaled_bounds(a - 2, d + 1);
        lemma_p_scaled_bounds(a - 2, d);
        if a == 3 {
            assert(p_scaled(3, d + 1) == (105 * a1 + 140 * b1 + 196 * c1) / 441);
            assert(p_scaled(3, d) == (105 * a0 + 140 * b0 + 196 * c0) / 441);
            assert(105 * a1 + 140 * b1 + 196 * c1 <= 105 * a0 + 140 * b0 + 196 * c0)
                by (nonlinear_arith)
                requires
                    a1 <= a0,
                    b1 <= b0,
                    c1 <= c0,
            ;
            lemma_div_is_ordered(
                105 * a1 + 140 * b1 + 196 * c1,
                105 * a0 + 140 * b0 + 196 * c0,
                441,
            );
        } else {
            assert(p_scaled(a, d + 1) == (420 * a1 + 378 * b1 + 378 * c1) / 1176);
            assert(p_scaled(a, d) == (420 * a0 + 378 * b0 + 378 * c0) / 1176);
            assert(420 * a1 + 378 * b1 + 378 * c1 <= 420 * a0 + 378 * b0 + 378 * c0)
                by (nonlinear_arith)
                requires
                    a1 <= a0,
                    b1 <= b0,
                    c1 <= c0,
            ;
            lemma_div_is_ordered(
                420 * a1 + 378 * b1 + 378 * c1,
                420 * a0 + 378 * b0 + 378 * c0,
                1176,
            );
        }
    }
}

/// The reported probability is non-decreasing in the attacker's armies with
/// the defence fixed.
pub proof fn lemma_p_bp_mono_attacker(a1: int, a2: int, d: int)
    requires
        1 <= a1 <= a2,
        0 <= d,
    ensures
        p_bp(a1, d) <= p_bp(a2, d),
    decreases a2 - a1,
{
    if a1 < a2 {
        lemma_p_bp_mono_attacker(a1, a2 - 1, d);
        lemma_p_scaled_mono_attacker(a2 - 1, d);
        lemma_p_scaled_bounds(a2 - 1, d);
        lemma_div_is_ordered(
            p_scaled(a2 - 1, d) * 10000 + spec_scale() / 2,
            p_scaled(a2, d) * 10000 + spec_scale() / 2,
            spec_scale(),
        );
    }
}

/// The reported probability is non-increasing in the defender's armies with
/// the attack fixed.
pub proof fn lemma_p_bp_mono_defender(a: int, d1: int, d2: int)
    requires
        1 <= a,
        0 <= d1 <= d2,
    ensures
        p_bp(a, d2) <= p_bp(a, d1),
    decreases d2 - d1,
{
    if d1 < d2 {
        lemma_p_bp_mono_defender(a, d1, d2 - 1);
        lemma_p_scaled_mono_defender(a, d2 - 1);
        lemma_p_scaled_bounds(a, d2 - 1);
        lemma_div_is_ordered(
            p_scaled(a, d2) * 10000 + spec_scale() / 2,
            p_scaled(a, d2 - 1) * 10000 + spec_scale() / 2,
            spec_scale(),
        );
    }
}


/// The single-die duel's odds, read off the enumeration: of the 36 outcome
/// pairs, 15 favour the attacker — exactly the table entry the recursion
/// uses for two armies against one. (The larger outcome lists resist this
/// style of evaluation; the exec enumerators and the test suite check their
/// table entries at run time.)
#[verifier::rlimit(100)]
pub proof fn lemma_single_duel_count()
    ensures
        count_score(
            RoundComparison::SingleWin,
            spec_dice_distribution(1),
            spec_dice_distribution(1),
        ) == win1_num(2, 1),
{
    reveal_with_fuel(dist1_from, 9);
    reveal_with_fuel(count_score, 9);
    reveal_with_fuel(count_score_one, 9);
}

} // verus!
