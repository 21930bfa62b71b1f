//! The game engine: the authoritative match state and the actions that
//! mutate it.

use vstd::prelude::*;

use crate::board::Board;
use crate::card::{spec_trade_bonus, spec_trade_valid, Card, CardKind};
use crate::connect::node_ok;
use crate::continent::Continent;
use crate::game_config::GameConfig;
use crate::names::has_name;
use crate::player::{sat_add16, sat_sub16, Player};
use crate::probability::ProbabilityCache;
use crate::turn_phase::TurnPhase;

verus! {

/// One match: the players, the board, the turn bookkeeping, the card decks,
/// the record of the attack awaiting its army move, and the probability
/// memo.
#[derive(Debug)]
pub struct Game {
    pub players: Vec<Player>,
    pub board: Board,
    pub current_turn: usize,
    pub round: usize,
    pub turn_phase: TurnPhase,
    pub reinforcement_armies: u16,
    pub initial_reinforcement_armies: u16,
    pub deck: Vec<Card>,
    pub discard_pile: Vec<Card>,
    pub conquered_territory: bool,
    pub defeated_players: Vec<usize>,
    pub last_attack_from: Option<String>,
    pub last_attack_to: Option<String>,
    pub last_attack_dice: Option<u16>,
    pub active_players: Vec<usize>,
    pub prob_cache: ProbabilityCache,
}

/// `s` holds the value `v`.
pub open spec fn has_index(s: Seq<usize>, v: usize) -> bool {
    exists|k: int| 0 <= k < s.len() && s[k] == v
}

/// The position of `v` in `s` (unique when `s` has no duplicates).
pub open spec fn index_of_val(s: Seq<usize>, v: usize) -> int {
    choose|k: int| 0 <= k < s.len() && s[k] == v
}

/// The player owns every member territory of the continent.
pub open spec fn continent_fully_owned(c: Continent, pl: Player) -> bool {
    forall|k: int| 0 <= k < c.territories@.len() ==> pl.spec_owns(#[trigger] c.territories@[k]@)
}

/// The summed bonus of every continent the player fully controls.
pub open spec fn spec_continent_bonus(conts: Seq<Continent>, pl: Player) -> int
    decreases conts.len(),
{
    if conts.len() == 0 {
        0
    } else {
        spec_continent_bonus(conts.drop_last(), pl) + if continent_fully_owned(conts.last(), pl) {
            conts.last().bonus_armies as int
        } else {
            0
        }
    }
}

/// The turn's reinforcement allotment: a third of the owned territories (at
/// least 3), plus the bonus of each fully-controlled continent; saturating
/// at the `u16` maximum.
pub open spec fn spec_reinforcements(board: Board, pl: Player) -> u16 {
    let t = if pl.territories@.len() > 0xffff {
        0xffff
    } else {
        pl.territories@.len() as int
    };
    let base = if t / 3 > 3 {
        t / 3
    } else {
        3
    };
    let total = base + spec_continent_bonus(board.continents@, pl);
    if total > 0xffff {
        0xffffu16
    } else {
        total as u16
    }
}

/// `a` and `b` agree on everything but the turn phase.
pub open spec fn same_but_phase(a: Game, b: Game) -> bool {
    &&& b.players == a.players
    &&& b.board == a.board
    &&& b.current_turn == a.current_turn
    &&& b.round == a.round
    &&& b.reinforcement_armies == a.reinforcement_armies
    &&& b.initial_reinforcement_armies == a.initial_reinforcement_armies
    &&& b.deck == a.deck
    &&& b.discard_pile == a.discard_pile
    &&& b.conquered_territory == a.conquered_territory
    &&& b.defeated_players == a.defeated_players
    &&& b.last_attack_from == a.last_attack_from
    &&& b.last_attack_to == a.last_attack_to
    &&& b.last_attack_dice == a.last_attack_dice
    &&& b.active_players == a.active_players
    &&& b.prob_cache == a.prob_cache
}

/// Opening a turn: the allotment is recomputed for the current player, the
/// conquest flag cleared, and the phase set to Reinforce; nothing else moves.
pub open spec fn spec_start_turn(a: Game, b: Game) -> bool {
    &&& b.players == a.players
    &&& b.board == a.board
    &&& b.current_turn == a.current_turn
    &&& b.round == a.round
    &&& b.turn_phase == TurnPhase::Reinforce
    &&& a.current_turn < a.players@.len() ==> b.reinforcement_armies == spec_reinforcements(
        a.board,
        a.players@[a.current_turn as int],
    )
    &&& b.initial_reinforcement_armies == b.reinforcement_armies
    &&& b.deck == a.deck
    &&& b.discard_pile == a.discard_pile
    &&& b.conquered_territory == false
    &&& b.defeated_players == a.defeated_players
    &&& b.last_attack_from == a.last_attack_from
    &&& b.last_attack_to == a.last_attack_to
    &&& b.last_attack_dice == a.last_attack_dice
    &&& b.active_players == a.active_players
    &&& b.prob_cache == a.prob_cache
}

/// Closing a turn. If a territory was conquered and the deck is not empty,
/// the current player draws the top card. The turn passes to the next
/// active player, wrapping to the first and then counting one more round.
/// The new current player's turn is opened as in [`spec_start_turn`]; the
/// rotation order itself never changes.
pub open spec fn spec_end_turn(a: Game, b: Game) -> bool {
    let ct = a.current_turn as int;
    let draws = a.conquered_territory && a.deck@.len() > 0;
    let act = a.active_players@;
    &&& b.players@.len() == a.players@.len()
    &&& (draws ==> {
        &&& b.deck@ == a.deck@.drop_last()
        &&& ct < a.players@.len()
        &&& b.players@[ct].cards@ == a.players@[ct].cards@.push(a.deck@.last())
        &&& player_same_but_cards(a.players@[ct], b.players@[ct])
        &&& forall|j: int| 0 <= j < a.players@.len() && j != ct ==> b.players@[j] == a.players@[j]
    })
    &&& (!draws ==> b.deck == a.deck && b.players == a.players)
    &&& (has_index(act, a.current_turn) ==> {
        let pos = index_of_val(act, a.current_turn);
        let next = if pos + 1 == act.len() {
            0int
        } else {
            pos + 1
        };
        &&& b.current_turn == act[next]
        &&& (next == 0 ==> b.round == (if a.round < usize::MAX {
            a.round + 1
        } else {
            usize::MAX as int
        }))
        &&& (next != 0 ==> b.round == a.round)
    })
    &&& (!has_index(act, a.current_turn) ==> b.current_turn == a.current_turn && b.round
        == a.round)
    &&& b.board == a.board
    &&& b.discard_pile == a.discard_pile
    &&& b.defeated_players == a.defeated_players
    &&& b.active_players == a.active_players
    &&& b.last_attack_from == a.last_attack_from
    &&& b.last_attack_to == a.last_attack_to
    &&& b.last_attack_dice == a.last_attack_dice
    &&& b.turn_phase == TurnPhase::Reinforce
    &&& b.conquered_territory == false
    &&& b.current_turn < b.players@.len()
    &&& b.reinforcement_armies == spec_reinforcements(b.board, b.players@[b.current_turn as int])
    &&& b.initial_reinforcement_armies == b.reinforcement_armies
    &&& b.prob_cache == a.prob_cache
}

/// `b` is `a` with at most the card hand changed.
pub open spec fn player_same_but_cards(a: Player, b: Player) -> bool {
    &&& b.id == a.id
    &&& b.name == a.name
    &&& b.territories == a.territories
    &&& b.armies == a.armies
    &&& b.army_supply == a.army_supply
    &&& b.total_armies == a.total_armies
}

/// `b` is `a` with at most the army ledger changed.
pub open spec fn player_same_but_armies(a: Player, b: Player) -> bool {
    &&& b.id == a.id
    &&& b.name == a.name
    &&& b.territories == a.territories
    &&& b.cards == a.cards
    &&& b.army_supply == a.army_supply
    &&& b.total_armies == a.total_armies
}

/// The position of `v` in the vector, if present (first occurrence).
pub fn find_index(s: &Vec<usize>, v: usize) -> (r: Option<usize>)
    ensures
        r is Some ==> 0 <= r->0 < s@.len() && s@[r->0 as int] == v && forall|k: int|
            0 <= k < r->0 ==> s@[k] != v,
        r is None ==> forall|k: int| 0 <= k < s@.len() ==> s@[k] != v,
{
    let mut idx: usize = 0;
    while idx < s.len()
        invariant
            0 <= idx <= s@.len(),
            forall|k: int| 0 <= k < idx ==> s@[k] != v,
        decreases s@.len() - idx,
    {
        if s[idx] == v {
            return Some(idx);
        }
        idx = idx + 1;
    }
    None
}

impl Game {
    /// The structural invariant of a match: a well-formed board; at least
    /// one player; the current-turn index in range; players well formed and
    /// numbered by their position; no territory owned by two players; and
    /// the active-player rotation free of duplicates and in range.
    pub open spec fn wf(self) -> bool {
        &&& self.board.wf()
        &&& self.players@.len() > 0
        &&& self.current_turn < self.players@.len()
        &&& forall|i: int| 0 <= i < self.players@.len() ==> (#[trigger] self.players@[i]).wf()
        &&& forall|i: int| 0 <= i < self.players@.len() ==> (#[trigger] self.players@[i]).id == i
        &&& forall|i: int, j: int, t: Seq<char>|
            0 <= i < j < self.players@.len() ==> !(#[trigger] self.players@[i].spec_owns(t)
                && #[trigger] self.players@[j].spec_owns(t))
        &&& forall|k: int|
            0 <= k < self.active_players@.len() ==> (#[trigger] self.active_players@[k])
                < self.players@.len()
        &&& forall|k1: int, k2: int|
            0 <= k1 < k2 < self.active_players@.len() ==> self.active_players@[k1]
                != self.active_players@[k2]
        &&& self.prob_cache.wf()
    }

    /// The index of the player owning territory `t`, if any; unique under
    /// [`Game::wf`].
    pub open spec fn spec_owner_of(self, t: Seq<char>) -> Option<int> {
        if exists|i: int| 0 <= i < self.players@.len() && self.players@[i].spec_owns(t) {
            Some(choose|i: int| 0 <= i < self.players@.len() && self.players@[i].spec_owns(t))
        } else {
            None
        }
    }

    /// Some player owns every territory of the board (by count).
    pub open spec fn spec_won(self) -> bool {
        exists|i: int|
            0 <= i < self.players@.len() && (#[trigger] self.players@[i]).territories@.len()
                == self.board.territories@.len()
    }

    /// The index of the first player owning `territory`, if any.
    pub fn find_owner(&self, territory: &str) -> (r: Option<usize>)
        requires
            self.wf(),
        ensures
            r is Some ==> 0 <= r->0 < self.players@.len() && self.players@[r->0 as int].spec_owns(
                territory@,
            ),
            r is None ==> forall|i: int|
                0 <= i < self.players@.len() ==> !(#[trigger] self.players@[i]).spec_owns(
                    territory@,
                ),
    {
        let mut idx: usize = 0;
        while idx < self.players.len()
            invariant
                self.wf(),
                0 <= idx <= self.players@.len(),
                forall|i: int|
                    0 <= i < idx ==> !(#[trigger] self.players@[i]).spec_owns(territory@),
            decreases self.players@.len() - idx,
        {
            if crate::names::contains_name(&self.players[idx].territories, territory) {
                return Some(idx);
            }
            idx = idx + 1;
        }
        None
    }

    /// The reinforcement allotment owed to the given player: territory
    /// count over three (at least 3) plus all fully-held continent bonuses.
    pub fn calculate_reinforcements(&self, player_id: usize) -> (r: u16)
        requires
            self.wf(),
            player_id < self.players@.len(),
        ensures
            r == spec_reinforcements(self.board, self.players@[player_id as int]),
    {
        let player = &self.players[player_id];
        let count = player.territories.len();
        let capped: u16 = if count > 0xffff {
            0xffff
        } else {
            count as u16
        };
        let base: u16 = if capped / 3 > 3 {
            capped / 3
        } else {
            3
        };
        let mut bonus_total: u16 = base;
        let ghost conts = self.board.continents@;
        let mut idx: usize = 0;
        while idx < self.board.continents.len()
            invariant
                self.wf(),
                player_id < self.players@.len(),
                player == self.players@[player_id as int],
                conts == self.board.continents@,
                0 <= idx <= conts.len(),
                base + spec_continent_bonus(conts.subrange(0, idx as int), *player) <= 0xffff
                    ==> bonus_total == base + spec_continent_bonus(
                    conts.subrange(0, idx as int),
                    *player,
                ),
                base + spec_continent_bonus(conts.subrange(0, idx as int), *player) > 0xffff
                    ==> bonus_total == 0xffff,
                base <= bonus_total,
            decreases conts.len() - idx,
        {
            proof {
                assert(conts.subrange(0, idx + 1).drop_last() =~= conts.subrange(0, idx as int));
                assert(conts.subrange(0, idx + 1).last() == conts[idx as int]);
                lemma_continent_bonus_nonneg(conts.subrange(0, idx as int), *player);
            }
            let c = &self.board.continents[idx];
            if continent_held(c, player) {
                let b = c.bonus_armies;
                bonus_total = if bonus_total >= 0xffff - b {
                    0xffff
                } else {
                    bonus_total + b
                };
            }
            idx = idx + 1;
        }
        proof {
            assert(conts.subrange(0, conts.len() as int) =~= conts);
            lemma_continent_bonus_nonneg(conts, *player);
        }
        bonus_total
    }

    /// Whether some player owns as many territories as the board has: the
    /// win condition.
    pub fn check_win_conditions(&self) -> (r: bool)
        ensures
            r == self.spec_won(),
    {
        let total = self.board.territories.len();
        let mut idx: usize = 0;
        while idx < self.players.len()
            invariant
                0 <= idx <= self.players@.len(),
                total == self.board.territories@.len(),
                forall|i: int|
                    0 <= i < idx ==> (#[trigger] self.players@[i]).territories@.len()
                        != self.board.territories@.len(),
            decreases self.players@.len() - idx,
        {
            if self.players[idx].territories.len() == total {
                return true;
            }
            idx = idx + 1;
        }
        false
    }

    /// Whether `to` can be reached from `from` through territories the
    /// given player owns (the start itself is always reachable).
    pub fn are_territories_connected(&self, player_id: usize, from: &str, to: &str) -> (r: bool)
        requires
            self.wf(),
            player_id < self.players@.len(),
        ensures
            r == node_ok(self.board, self.players@[player_id as int], from@, to@),
    {
        crate::connect::reachable_within(&self.board, &self.players[player_id], from, to)
    }

    /// As [`Game::are_territories_connected`], but demanding that the
    /// player own both endpoints.
    pub(crate) fn are_territories_connected_via_player(
        &self,
        player_id: usize,
        from_territory: &str,
        to_territory: &str,
    ) -> (r: bool)
        requires
            self.wf(),
            player_id < self.players@.len(),
        ensures
            r == (self.players@[player_id as int].spec_owns(from_territory@)
                && self.players@[player_id as int].spec_owns(to_territory@) && node_ok(
                self.board,
                self.players@[player_id as int],
                from_territory@,
                to_territory@,
            )),
    {
        let player = &self.players[player_id];
        if !crate::names::contains_name(&player.territories, from_territory)
            || !crate::names::contains_name(&player.territories, to_territory) {
            return false;
        }
        crate::connect::reachable_within(&self.board, player, from_territory, to_territory)
    }

    /// Places reinforcement armies on an owned territory during the
    /// Reinforce phase, spending the turn's allotment; once the allotment is
    /// spent and the hand holds fewer than five cards, the phase advances to
    /// Attack by itself.
    pub fn reinforce(&mut self, player_id: usize, territory: &str, num_armies: u16) -> (r: Result<
        (),
        String,
    >)
        requires
            old(self).wf(),
        ensures
            final(self).wf(),
            r is Err ==> *final(self) == *old(self),
            r is Err <==> (old(self).turn_phase != TurnPhase::Reinforce || player_id >= old(
                self,
            ).players@.len() || !old(self).players@[player_id as int].spec_owns(territory@)
                || num_armies > old(self).reinforcement_armies),
            r is Ok ==> {
                let p0 = old(self).players@[player_id as int];
                let p1 = final(self).players@[player_id as int];
                &&& final(self).players@.len() == old(self).players@.len()
                &&& forall|j: int|
                    0 <= j < old(self).players@.len() && j != player_id
                        ==> final(self).players@[j] == old(self).players@[j]
                &&& player_same_but_armies(p0, p1)
                &&& p1.spec_armies(territory@) == sat_add16(p0.spec_armies(territory@), num_armies)
                &&& forall|x: Seq<char>|
                    x != territory@ ==> #[trigger] p1.spec_armies(x) == p0.spec_armies(x)
                &&& final(self).reinforcement_armies == old(self).reinforcement_armies - num_armies
                &&& final(self).turn_phase == (if old(self).reinforcement_armies - num_armies == 0
                    && p0.cards@.len() < 5 {
                    TurnPhase::Attack
                } else {
                    TurnPhase::Reinforce
                })
                &&& final(self).board == old(self).board
                &&& final(self).current_turn == old(self).current_turn
                &&& final(self).round == old(self).round
                &&& final(self).initial_reinforcement_armies == old(
                    self,
                ).initial_reinforcement_armies
                &&& final(self).deck == old(self).deck
                &&& final(self).discard_pile == old(self).discard_pile
                &&& final(self).conquered_territory == old(self).conquered_territory
                &&& final(self).defeated_players == old(self).defeated_players
                &&& final(self).last_attack_from == old(self).last_attack_from
                &&& final(self).last_attack_to == old(self).last_attack_to
                &&& final(self).last_attack_dice == old(self).last_attack_dice
                &&& final(self).active_players == old(self).active_players
                &&& final(self).prob_cache == old(self).prob_cache
            },
    {
        if self.turn_phase != TurnPhase::Reinforce {
            return Err("It's not the reinforcement phase.".to_owned());
        }
        if player_id >= self.players.len() {
            return Err("Invalid player ID".to_owned());
        }
        if !crate::names::contains_name(&self.players[player_id].territories, territory) {
            return Err("Territory does not belong to this player.".to_owned());
        }
        if num_armies > self.reinforcement_armies {
            return Err("Not enough reinforcement armies available.".to_owned());
        }
        let mut p = self.players.remove(player_id);
        p.reinforce(territory, num_armies);
        let hand = p.cards.len();
        proof {
            crate::player::lemma_remove_insert(old(self).players@, player_id as int, p);
        }
        self.players.insert(player_id, p);
        self.reinforcement_armies = self.reinforcement_armies - num_armies;
        if self.reinforcement_armies == 0 && hand < 5 {
            self.turn_phase = TurnPhase::Attack;
        }
        proof {
            lemma_players_update_wf(*old(self), *self, player_id as int);
        }
        Ok(())
    }
}

/// Whether the player owns every member territory of the continent.
fn continent_held(c: &Continent, player: &Player) -> (r: bool)
    ensures
        r == continent_fully_owned(*c, *player),
{
    let mut idx: usize = 0;
    while idx < c.territories.len()
        invariant
            0 <= idx <= c.territories@.len(),
            forall|k: int| 0 <= k < idx ==> player.spec_owns(#[trigger] c.territories@[k]@),
        decreases c.territories@.len() - idx,
    {
        if !crate::names::contains_name(&player.territories, c.territories[idx].as_str()) {
            return false;
        }
        idx = idx + 1;
    }
    true
}

/// The continent bonus is a sum of non-negative values.
proof fn lemma_continent_bonus_nonneg(conts: Seq<Continent>, pl: Player)
    ensures
        0 <= spec_continent_bonus(conts, pl),
    decreases conts.len(),
{
    if conts.len() > 0 {
        lemma_continent_bonus_nonneg(conts.drop_last(), pl);
    }
}

/// Replacing one player with a well-formed one that owns no new territory
/// keeps the game's invariant.
pub proof fn lemma_players_update_wf(a: Game, b: Game, i: int)
    requires
        a.wf(),
        0 <= i < a.players@.len(),
        b.players@.len() == a.players@.len(),
        forall|j: int| 0 <= j < a.players@.len() && j != i ==> b.players@[j] == a.players@[j],
        b.players@[i].wf(),
        b.players@[i].id == a.players@[i].id,
        b.players@[i].territories == a.players@[i].territories,
        b.board == a.board,
        b.current_turn == a.current_turn,
        b.active_players == a.active_players,
        b.prob_cache == a.prob_cache,
    ensures
        b.wf(),
{
    assert forall|p: int, q: int, t: Seq<char>|
        0 <= p < q < b.players@.len() implies !(#[trigger] b.players@[p].spec_owns(t)
        && #[trigger] b.players@[q].spec_owns(t)) by {
        assert(b.players@[p].spec_owns(t) ==> a.players@[p].spec_owns(t));
        assert(b.players@[q].spec_owns(t) ==> a.players@[q].spec_owns(t));
        assert(!(a.players@[p].spec_owns(t) && a.players@[q].spec_owns(t)));
    }
}


/// `b` is `a` with `n` armies moved from `from` to `to` in player `pid`'s
/// ledger (a no-op when the two names coincide); nothing else differs.
pub open spec fn spec_fortify_applied(
    a: Game,
    b: Game,
    pid: int,
    from: Seq<char>,
    to: Seq<char>,
    n: u16,
) -> bool {
    &&& b.players@.len() == a.players@.len()
    &&& forall|j: int|
        0 <= j < a.players@.len() && j != pid ==> b.players@[j] == a.players@[j]
    &&& 0 <= pid < a.players@.len()
    &&& player_same_but_armies(a.players@[pid], b.players@[pid])
    &&& (from == to ==> forall|x: Seq<char>|
        #[trigger] b.players@[pid].spec_armies(x) == a.players@[pid].spec_armies(x))
    &&& (from != to ==> {
        &&& b.players@[pid].spec_armies(from) == a.players@[pid].spec_armies(from) - n
        &&& b.players@[pid].spec_armies(to) == sat_add16(a.players@[pid].spec_armies(to), n)
        &&& forall|x: Seq<char>|
            x != from && x != to ==> #[trigger] b.players@[pid].spec_armies(x)
                == a.players@[pid].spec_armies(x)
    })
    &&& b.board == a.board
    &&& b.current_turn == a.current_turn
    &&& b.round == a.round
    &&& b.turn_phase == a.turn_phase
    &&& b.reinforcement_armies == a.reinforcement_armies
    &&& b.initial_reinforcement_armies == a.initial_reinforcement_armies
    &&& b.deck == a.deck
    &&& b.discard_pile == a.discard_pile
    &&& b.conquered_territory == a.conquered_territory
    &&& b.defeated_players == a.defeated_players
    &&& b.last_attack_from == a.last_attack_from
    &&& b.last_attack_to == a.last_attack_to
    &&& b.last_attack_dice == a.last_attack_dice
    &&& b.active_players == a.active_players
    &&& b.prob_cache == a.prob_cache
}

impl Game {
    /// Moves armies between two connected owned territories in the Fortify
    /// phase; a successful fortification ends the turn at once. Both names
    /// must exist on the board; the move is legal only when `from` and `to`
    /// are linked by a path of territories all owned by the player, and at
    /// least one army must stay behind.
    pub fn fortify(
        &mut self,
        player_id: usize,
        from_territory: &str,
        to_territory: &str,
        num_armies: u16,
    ) -> (r: Result<(), String>)
        requires
            old(self).wf(),
        ensures
            final(self).wf(),
            r is Err ==> *final(self) == *old(self),
            r is Err <==> (old(self).turn_phase != TurnPhase::Fortify || player_id >= old(
                self,
            ).players@.len() || !old(self).board.spec_has_territory(from_territory@) || !old(
                self,
            ).board.spec_has_territory(to_territory@) || !(old(
                self,
            ).players@[player_id as int].spec_owns(from_territory@) && old(
                self,
            ).players@[player_id as int].spec_owns(to_territory@) && node_ok(
                old(self).board,
                old(self).players@[player_id as int],
                from_territory@,
                to_territory@,
            )) || num_armies >= old(self).players@[player_id as int].spec_armies(from_territory@)),
            r is Ok ==> exists|mid: Game|
                #[trigger] spec_fortify_applied(
                    *old(self),
                    mid,
                    player_id as int,
                    from_territory@,
                    to_territory@,
                    num_armies,
                ) && spec_end_turn(mid, *final(self)),
    {
        if self.turn_phase != TurnPhase::Fortify {
            return Err("It's not the fortification phase.".to_owned());
        }
        if player_id >= self.players.len() {
            return Err("Invalid player ID".to_owned());
        }
        if self.board.get_territory(from_territory).is_none() || self.board.get_territory(
            to_territory,
        ).is_none() {
            return Err("Unknown territory name.".to_owned());
        }
        if !self.are_territories_connected_via_player(player_id, from_territory, to_territory) {
            return Err("Territories are not connected.".to_owned());
        }
        let armies = self.players[player_id].get_armies(from_territory);
        if num_armies >= armies {
            return Err("Cannot move all armies or more than available.".to_owned());
        }
        let mut p = self.players.remove(player_id);
        p.fortify(from_territory, to_territory, num_armies);
        proof {
            crate::player::lemma_remove_insert(old(self).players@, player_id as int, p);
        }
        self.players.insert(player_id, p);
        proof {
            lemma_players_update_wf(*old(self), *self, player_id as int);
        }
        let ghost mid = *self;
        proof {
            assert(spec_fortify_applied(
                *old(self),
                mid,
                player_id as int,
                from_territory@,
                to_territory@,
                num_armies,
            ));
        }
        self.end_turn();
        proof {
            assert(spec_fortify_applied(
                *old(self),
                mid,
                player_id as int,
                from_territory@,
                to_territory@,
                num_armies,
            ) && spec_end_turn(mid, *self));
        }
        Ok(())
    }

    /// Completes a conquest by moving armies from the attacking territory
    /// into the taken one, then hands play back to the Attack phase — or
    /// forces Reinforce when the hand has grown to five or more cards. The
    /// move is accepted only in the MoveArmies phase, must bring in at least
    /// as many armies as the dice of the resolving round, and at least one
    /// army must stay behind.
    pub fn move_armies_after_attack(
        &mut self,
        player_id: usize,
        from_territory: &str,
        to_territory: &str,
        num_armies: u16,
    ) -> (r: Result<(), String>)
        requires
            old(self).wf(),
        ensures
            final(self).wf(),
            r is Err ==> *final(self) == *old(self),
            r is Err <==> (old(self).turn_phase != TurnPhase::MoveArmies || old(
                self,
            ).last_attack_dice is None || player_id >= old(self).players@.len() || !(old(
                self,
            ).players@[player_id as int].spec_owns(from_territory@) && old(
                self,
            ).players@[player_id as int].spec_owns(to_territory@)) || num_armies < old(
                self,
            ).last_attack_dice->0 || num_armies >= old(self).players@[player_id as int].spec_armies(
                from_territory@,
            )),
            r is Ok ==> {
                let a = *old(self);
                let b = *final(self);
                let pid = player_id as int;
                &&& b.players@.len() == a.players@.len()
                &&& forall|j: int|
                    0 <= j < a.players@.len() && j != pid ==> b.players@[j] == a.players@[j]
                &&& player_same_but_armies(a.players@[pid], b.players@[pid])
                &&& (from_territory@ == to_territory@ ==> forall|x: Seq<char>|
                    #[trigger] b.players@[pid].spec_armies(x) == a.players@[pid].spec_armies(x))
                &&& (from_territory@ != to_territory@ ==> {
                    &&& b.players@[pid].spec_armies(from_territory@) == a.players@[pid].spec_armies(
                        from_territory@,
                    ) - num_armies
                    &&& b.players@[pid].spec_armies(to_territory@) == sat_add16(
                        a.players@[pid].spec_armies(to_territory@),
                        num_armies,
                    )
                    &&& forall|x: Seq<char>|
                        x != from_territory@ && x != to_territory@
                            ==> #[trigger] b.players@[pid].spec_armies(x)
                            == a.players@[pid].spec_armies(x)
                })
                &&& b.turn_phase == (if a.players@[pid].cards@.len() >= 5 {
                    TurnPhase::Reinforce
                } else {
                    TurnPhase::Attack
                })
                &&& b.last_attack_from is None
                &&& b.last_attack_to is None
                &&& b.last_attack_dice is None
                &&& b.board == a.board
                &&& b.current_turn == a.current_turn
                &&& b.round == a.round
                &&& b.reinforcement_armies == a.reinforcement_armies
                &&& b.initial_reinforcement_armies == a.initial_reinforcement_armies
                &&& b.deck == a.deck
                &&& b.discard_pile == a.discard_pile
                &&& b.conquered_territory == a.conquered_territory
                &&& b.defeated_players == a.defeated_players
                &&& b.active_players == a.active_players
                &&& b.prob_cache == a.prob_cache
            },
    {
        if self.turn_phase != TurnPhase::MoveArmies {
            return Err("There is no post-attack move to make.".to_owned());
        }
        let min_armies = match &self.last_attack_dice {
            Some(d) => *d,
            None => {
                return Err("No attack is awaiting its army move.".to_owned());
            },
        };
        if player_id >= self.players.len() {
            return Err("Invalid player ID".to_owned());
        }
        if !crate::names::contains_name(&self.players[player_id].territories, from_territory)
            || !crate::names::contains_name(&self.players[player_id].territories, to_territory) {
            return Err("One or both territories do not belong to the player".to_owned());
        }
        if num_armies < min_armies {
            return Err("At least as many armies as the dice used must move in.".to_owned());
        }
        let armies = self.players[player_id].get_armies(from_territory);
        if num_armies >= armies {
            return Err("Cannot move all armies or more than available.".to_owned());
        }
        let mut p = self.players.remove(player_id);
        p.fortify(from_territory, to_territory, num_armies);
        let hand = p.cards.len();
        proof {
            crate::player::lemma_remove_insert(old(self).players@, player_id as int, p);
        }
        self.players.insert(player_id, p);
        proof {
            lemma_players_update_wf(*old(self), *self, player_id as int);
        }
        self.turn_phase = if hand >= 5 {
            TurnPhase::Reinforce
        } else {
            TurnPhase::Attack
        };
        self.last_attack_from = None;
        self.last_attack_to = None;
        self.last_attack_dice = None;
        Ok(())
    }
}


/// The best and second-best values of a list of dice rolls (0 where fewer
/// than one or two rolls exist).
pub open spec fn best2(s: Seq<u16>) -> (int, int)
    decreases s.len(),
{
    if s.len() == 0 {
        (0, 0)
    } else {
        let rest = best2(s.drop_last());
        let v = s.last() as int;
        if v >= rest.0 {
            (v, rest.0)
        } else if v > rest.1 {
            (rest.0, v)
        } else {
            rest
        }
    }
}

/// How many armies the defender loses in one round: the sorted rolls are
/// paired position by position up to the shorter list (never more than the
/// defender's two dice), and a strictly greater attacker roll costs the
/// defender one army — ties favour the defender. With at most two pairs,
/// only each side's best and second-best rolls ever meet.
pub open spec fn spec_defender_losses(att: Seq<u16>, def: Seq<u16>) -> int {
    let m = if att.len() < def.len() {
        att.len() as int
    } else {
        def.len() as int
    };
    (if m >= 1 && best2(att).0 > best2(def).0 {
        1int
    } else {
        0int
    }) + (if m >= 2 && best2(att).1 > best2(def).1 {
        1int
    } else {
        0int
    })
}

/// The attacker loses the remaining compared pairs.
pub open spec fn spec_attacker_losses(att: Seq<u16>, def: Seq<u16>) -> int {
    let m = if att.len() < def.len() {
        att.len() as int
    } else {
        def.len() as int
    };
    m - spec_defender_losses(att, def)
}

/// How many dice the attacker rolls in one round: the request, capped by
/// the spare armies at the source and by three.
pub open spec fn spec_attack_dice(att_armies: u16, num_dice: u16) -> int {
    let avail = sat_sub16(att_armies, 1);
    let capped = if num_dice < avail {
        num_dice
    } else {
        avail
    };
    if capped > 3 {
        3
    } else {
        capped as int
    }
}

/// How many dice the defender rolls in one round: every army, at most two.
pub open spec fn spec_defence_dice(def_armies: u16) -> int {
    if def_armies < 2 {
        def_armies as int
    } else {
        2
    }
}

/// One combat round from `a` to `b` under the rolls `ar` (attacker) and
/// `dr` (defender): each side rolled its due number of dice, every die shows
/// 1 to 6, the two loss counts come from pairing the sorted rolls and sum to
/// the number of compared dice, and the losses land on `from` and `to`. A
/// defence reduced to zero ends in a conquest (the phase leaves Attack);
/// otherwise the phase and the remaining defence stand.
pub open spec fn spec_attack_round(
    a: Game,
    b: Game,
    ai: int,
    di: int,
    from: Seq<char>,
    to: Seq<char>,
    num_dice: u16,
    ar: Seq<u16>,
    dr: Seq<u16>,
) -> bool {
    let att0 = a.players@[ai].spec_armies(from);
    let def0 = a.players@[di].spec_armies(to);
    let al = spec_attacker_losses(ar, dr);
    let dl = spec_defender_losses(ar, dr);
    &&& ar.len() == spec_attack_dice(att0, num_dice)
    &&& dr.len() == spec_defence_dice(def0)
    &&& forall|k: int| 0 <= k < ar.len() ==> 1 <= #[trigger] ar[k] <= 6
    &&& forall|k: int| 0 <= k < dr.len() ==> 1 <= #[trigger] dr[k] <= 6
    &&& al + dl == (if ar.len() < dr.len() {
        ar.len() as int
    } else {
        dr.len() as int
    })
    &&& b.players@[ai].spec_armies(from) == att0 - al
    &&& (def0 - dl > 0 ==> b.turn_phase == TurnPhase::Attack && b.players@[di].spec_armies(to)
        == def0 - dl)
    &&& (def0 - dl == 0 ==> b.turn_phase != TurnPhase::Attack && b.last_attack_dice == Some(
        ar.len() as u16,
    ))
}

/// `s` with every occurrence of `v` removed and the remaining order kept.
pub open spec fn seq_remove_val(s: Seq<usize>, v: usize) -> Seq<usize>
    decreases s.len(),
{
    if s.len() == 0 {
        Seq::empty()
    } else if s.last() == v {
        seq_remove_val(s.drop_last(), v)
    } else {
        seq_remove_val(s.drop_last(), v).push(s.last())
    }
}

/// Removing a value keeps the rest: membership, order and distinctness.
pub proof fn lemma_seq_remove_val(s: Seq<usize>, v: usize)
    ensures
        forall|k: int| 0 <= k < seq_remove_val(s, v).len() ==> #[trigger] seq_remove_val(s, v)[k]
            != v,
        forall|w: usize|
            #[trigger] has_index(seq_remove_val(s, v), w) <==> (has_index(s, w) && w != v),
        (forall|k1: int, k2: int| 0 <= k1 < k2 < s.len() ==> s[k1] != s[k2]) ==> (forall|
            k1: int,
            k2: int,
        |
            0 <= k1 < k2 < seq_remove_val(s, v).len() ==> seq_remove_val(s, v)[k1]
                != seq_remove_val(s, v)[k2]),
        seq_remove_val(s, v).len() <= s.len(),
        forall|k: int| 0 <= k < seq_remove_val(s, v).len() ==> has_index(
            s,
            #[trigger] seq_remove_val(s, v)[k],
        ),
    decreases s.len(),
{
    if s.len() > 0 {
        let rest = s.drop_last();
        lemma_seq_remove_val(rest, v);
        let r = seq_remove_val(s, v);
        assert forall|w: usize| #[trigger] has_index(r, w) implies (has_index(s, w) && w != v) by {
            let k = choose|k: int| 0 <= k < r.len() && r[k] == w;
            if s.last() != v && k == r.len() - 1 {
                assert(s[s.len() - 1] == w);
            } else {
                assert(has_index(seq_remove_val(rest, v), w));
                let j = choose|j: int| 0 <= j < rest.len() && rest[j] == w;
                assert(s[j] == w);
            }
        }
        assert forall|w: usize| has_index(s, w) && w != v implies #[trigger] has_index(r, w) by {
            let k = choose|k: int| 0 <= k < s.len() && s[k] == w;
            if k == s.len() - 1 {
                assert(r[r.len() - 1] == w);
            } else {
                assert(rest[k] == w);
                assert(has_index(seq_remove_val(rest, v), w));
                let j = choose|j: int|
                    0 <= j < seq_remove_val(rest, v).len() && seq_remove_val(rest, v)[j] == w;
                assert(r[j] == w);
            }
        }
        if forall|k1: int, k2: int| 0 <= k1 < k2 < s.len() ==> s[k1] != s[k2] {
            assert(forall|k1: int, k2: int| 0 <= k1 < k2 < rest.len() ==> rest[k1] != rest[k2]);
            if s.last() != v {
                assert forall|k1: int, k2: int| 0 <= k1 < k2 < r.len() implies r[k1] != r[k2] by {
                    if k2 == r.len() - 1 {
                        assert(r[k2] == s.last());
                        assert(has_index(seq_remove_val(rest, v), r[k1]));
                        let j = choose|j: int|
                            0 <= j < rest.len() && rest[j] == r[k1];
                        assert(s[j] == r[k1]);
                    }
                }
            }
        }
    }
}

/// A number of uniform dice rolls, each face 1 to 6.
fn roll_dice(n: u16) -> (r: Vec<u16>)
    ensures
        r@.len() == n,
        forall|k: int| 0 <= k < r@.len() ==> 1 <= #[trigger] r@[k] <= 6,
{
    let mut r: Vec<u16> = Vec::new();
    let mut i: u16 = 0;
    while i < n
        invariant
            0 <= i <= n,
            r@.len() == i,
            forall|k: int| 0 <= k < r@.len() ==> 1 <= #[trigger] r@[k] <= 6,
        decreases n - i,
    {
        r.push(crate::rng::rand_in_range(1, 6));
        i = i + 1;
    }
    r
}

/// The best and second-best of the rolled dice.
fn best_two(rolls: &Vec<u16>) -> (r: (u16, u16))
    requires
        forall|k: int| 0 <= k < rolls@.len() ==> 1 <= #[trigger] rolls@[k] <= 6,
    ensures
        r.0 == best2(rolls@).0,
        r.1 == best2(rolls@).1,
{
    let mut best: u16 = 0;
    let mut second: u16 = 0;
    let mut i: usize = 0;
    while i < rolls.len()
        invariant
            0 <= i <= rolls@.len(),
            forall|k: int| 0 <= k < rolls@.len() ==> 1 <= #[trigger] rolls@[k] <= 6,
            best == best2(rolls@.subrange(0, i as int)).0,
            second == best2(rolls@.subrange(0, i as int)).1,
        decreases rolls@.len() - i,
    {
        proof {
            assert(rolls@.subrange(0, i + 1).drop_last() =~= rolls@.subrange(0, i as int));
            assert(rolls@.subrange(0, i + 1).last() == rolls@[i as int]);
        }
        let v = rolls[i];
        if v >= best {
            second = best;
            best = v;
        } else if v > second {
            second = v;
        }
        i = i + 1;
    }
    proof {
        assert(rolls@.subrange(0, rolls@.len() as int) =~= rolls@);
    }
    (best, second)
}

/// `s` with every occurrence of `v` dropped, order kept.
fn remove_value(s: &Vec<usize>, v: usize) -> (r: Vec<usize>)
    ensures
        r@ == seq_remove_val(s@, v),
{
    let mut r: Vec<usize> = Vec::new();
    let mut i: usize = 0;
    while i < s.len()
        invariant
            0 <= i <= s@.len(),
            r@ == seq_remove_val(s@.subrange(0, i as int), v),
        decreases s@.len() - i,
    {
        proof {
            assert(s@.subrange(0, i + 1).drop_last() =~= s@.subrange(0, i as int));
            assert(s@.subrange(0, i + 1).last() == s@[i as int]);
        }
        if s[i] != v {
            r.push(s[i]);
        }
        i = i + 1;
    }
    proof {
        assert(s@.subrange(0, s@.len() as int) =~= s@);
    }
    r
}

/// What every attack outcome leaves untouched.
pub open spec fn spec_attack_frame(a: Game, b: Game, ai: int, di: int) -> bool {
    &&& b.players@.len() == a.players@.len()
    &&& forall|j: int|
        0 <= j < a.players@.len() && j != ai && j != di ==> b.players@[j] == a.players@[j]
    &&& player_same_but_armies(a.players@[ai], b.players@[ai]) || (b.players@[ai].id
        == a.players@[ai].id && b.players@[ai].name == a.players@[ai].name
        && b.players@[ai].army_supply == a.players@[ai].army_supply && b.players@[ai].total_armies
        == a.players@[ai].total_armies)
    &&& b.players@[di].id == a.players@[di].id
    &&& b.players@[di].name == a.players@[di].name
    &&& b.board == a.board
    &&& b.deck == a.deck
    &&& b.discard_pile == a.discard_pile
    &&& b.current_turn == a.current_turn
    &&& b.round == a.round
    &&& b.reinforcement_armies == a.reinforcement_armies
    &&& b.initial_reinforcement_armies == a.initial_reinforcement_armies
    &&& b.prob_cache == a.prob_cache
}

/// An attack call that ends without a conquest: ownership, hands, the
/// rotation and the pending-move record are untouched; only armies on the
/// two battling territories went down, and both keep at least one.
pub open spec fn spec_attack_no_conquest(
    a: Game,
    b: Game,
    ai: int,
    di: int,
    from: Seq<char>,
    to: Seq<char>,
) -> bool {
    &&& b.players@[ai].territories == a.players@[ai].territories
    &&& b.players@[di].territories == a.players@[di].territories
    &&& b.players@[ai].cards == a.players@[ai].cards
    &&& b.players@[di].cards == a.players@[di].cards
    &&& b.players@[ai].spec_armies(from) <= a.players@[ai].spec_armies(from)
    &&& b.players@[di].spec_armies(to) <= a.players@[di].spec_armies(to)
    &&& b.players@[di].spec_armies(to) >= 1
    &&& a.players@[ai].spec_armies(from) >= 1 ==> b.players@[ai].spec_armies(from) >= 1
    &&& forall|x: Seq<char>|
        x != from ==> #[trigger] b.players@[ai].spec_armies(x) == a.players@[ai].spec_armies(x)
    &&& forall|x: Seq<char>|
        x != to ==> #[trigger] b.players@[di].spec_armies(x) == a.players@[di].spec_armies(x)
    &&& b.turn_phase == a.turn_phase
    &&& b.conquered_territory == a.conquered_territory
    &&& b.defeated_players == a.defeated_players
    &&& b.active_players == a.active_players
    &&& b.last_attack_from == a.last_attack_from
    &&& b.last_attack_to == a.last_attack_to
    &&& b.last_attack_dice == a.last_attack_dice
}

/// An attack call that conquers `to`: the defender is stripped of the
/// territory the moment it reaches zero armies and the attacker takes it
/// (still empty until the follow-up move); a defender left without
/// territories is defeated, leaves the rotation (order otherwise kept) and
/// hands its cards to the attacker; the pending-move record is set and play
/// continues in MoveArmies — or the game ends when the winner now owns the
/// whole board.
pub open spec fn spec_attack_conquest(
    a: Game,
    b: Game,
    ai: int,
    di: int,
    from: Seq<char>,
    to: Seq<char>,
    num_dice: u16,
) -> bool {
    &&& b.players@[ai].spec_owns(to)
    &&& !b.players@[di].spec_owns(to)
    &&& b.players@[di].spec_armies(to) == 0
    &&& b.players@[ai].spec_armies(to) == 0
    &&& forall|x: Seq<char>|
        x != to ==> (#[trigger] b.players@[ai].spec_owns(x) <==> a.players@[ai].spec_owns(x))
    &&& forall|x: Seq<char>|
        x != to ==> (#[trigger] b.players@[di].spec_owns(x) <==> a.players@[di].spec_owns(x))
    &&& b.players@[di].territories@.len() == a.players@[di].territories@.len() - 1
    &&& b.players@[ai].spec_armies(from) <= a.players@[ai].spec_armies(from)
    &&& a.players@[ai].spec_armies(from) >= 1 ==> b.players@[ai].spec_armies(from) >= 1
    &&& b.conquered_territory == true
    &&& (b.last_attack_from matches Some(s) && s@ == from)
    &&& (b.last_attack_to matches Some(s) && s@ == to)
    // the recorded dice are the attacker dice of the resolving round:
    // computed by the usual cap from the armies the attacker brought into
    // that round (at least one die whenever the defence still stood)
    &&& (b.last_attack_dice matches Some(d) && d <= num_dice && d <= 3 && exists|att_r: u16|
        d == spec_attack_dice(att_r, num_dice) && b.players@[ai].spec_armies(from) <= att_r
            <= a.players@[ai].spec_armies(from))
    &&& (a.players@[di].spec_armies(to) >= 1 ==> (b.last_attack_dice matches Some(d) && d >= 1))
    &&& (b.players@[di].territories@.len() == 0 ==> {
        &&& b.defeated_players@ == a.defeated_players@.push(di as usize)
        &&& b.active_players@ == seq_remove_val(a.active_players@, di as usize)
        &&& b.players@[ai].cards@ == a.players@[ai].cards@ + a.players@[di].cards@
        &&& b.players@[di].cards@.len() == 0
    })
    &&& (b.players@[di].territories@.len() > 0 ==> {
        &&& b.defeated_players == a.defeated_players
        &&& b.active_players == a.active_players
        &&& b.players@[ai].cards == a.players@[ai].cards
        &&& b.players@[di].cards == a.players@[di].cards
    })
    &&& b.turn_phase == (if b.spec_won() {
        TurnPhase::GameOver
    } else {
        TurnPhase::MoveArmies
    })
}


impl Game {
    /// Resolves an attack from `from_territory` against the adjacent enemy
    /// `to_territory`, one combat round per call — or, with `repeat`, round
    /// after round until the defence falls or the attacker is down to one
    /// army. Each round both sides roll (attacker up to `num_dice`, capped
    /// by armies and three; defender up to two), the sorted rolls are
    /// compared pairwise, and ties favour the defender. A defender reduced
    /// to zero armies loses the territory on the spot.
    #[verifier::rlimit(100)]
    pub fn attack(
        &mut self,
        attacker_id: usize,
        from_territory: &str,
        to_territory: &str,
        num_dice: u16,
        repeat: bool,
    ) -> (r: Result<(), String>)
        requires
            old(self).wf(),
        ensures
            final(self).wf(),
            r is Err ==> *final(self) == *old(self),
            r is Err <==> (old(self).turn_phase != TurnPhase::Attack || old(self).spec_owner_of(
                to_territory@,
            ) is None || attacker_id >= old(self).players@.len() || !old(
                self,
            ).players@[attacker_id as int].spec_owns(from_territory@) || !old(
                self,
            ).board.spec_has_territory(from_territory@) || !old(self).board.spec_territory(
                from_territory@,
            ).spec_is_adjacent(to_territory@) || old(self).spec_owner_of(to_territory@) == Some(
                attacker_id as int,
            ) || num_dice == 0),
            r is Ok ==> spec_attack_frame(
                *old(self),
                *final(self),
                attacker_id as int,
                old(self).spec_owner_of(to_territory@)->0,
            ),
            r is Ok && final(self).turn_phase == TurnPhase::Attack ==> spec_attack_no_conquest(
                *old(self),
                *final(self),
                attacker_id as int,
                old(self).spec_owner_of(to_territory@)->0,
                from_territory@,
                to_territory@,
            ),
            r is Ok && final(self).turn_phase != TurnPhase::Attack ==> spec_attack_conquest(
                *old(self),
                *final(self),
                attacker_id as int,
                old(self).spec_owner_of(to_territory@)->0,
                from_territory@,
                to_territory@,
                num_dice,
            ),
            r is Ok && !repeat ==> exists|ar: Seq<u16>, dr: Seq<u16>|
                #[trigger] spec_attack_round(
                    *old(self),
                    *final(self),
                    attacker_id as int,
                    old(self).spec_owner_of(to_territory@)->0,
                    from_territory@,
                    to_territory@,
                    num_dice,
                    ar,
                    dr,
                ),
            r is Ok && repeat && final(self).turn_phase == TurnPhase::Attack ==> final(self).players@[attacker_id as int].spec_armies(from_territory@) <= 1,
    {
        if self.turn_phase != TurnPhase::Attack {
            return Err("It's not the attack phase.".to_owned());
        }
        let defender_index = match self.find_owner(to_territory) {
            Some(i) => i,
            None => {
                return Err("No player owns the to territory".to_owned());
            },
        };
        proof {
            assert(self.spec_owner_of(to_territory@) is Some);
            let w = self.spec_owner_of(to_territory@)->0;
            assert(self.players@[w].spec_owns(to_territory@));
            assert(w == defender_index as int);
        }
        if attacker_id >= self.players.len() {
            return Err("Invalid attacker ID".to_owned());
        }
        if !crate::names::contains_name(&self.players[attacker_id].territories, from_territory) {
            return Err("From territory does not belong to the attacker".to_owned());
        }
        let adjacent = match self.board.get_territory(from_territory) {
            Some(t) => t.is_adjacent(to_territory),
            None => {
                return Err("Invalid from territory".to_owned());
            },
        };
        if !adjacent {
            return Err("To territory is not adjacent to from territory".to_owned());
        }
        if attacker_id == defender_index {
            return Err("A player cannot attack themselves".to_owned());
        }
        if num_dice == 0 {
            return Err("At least one die is required to attack".to_owned());
        }
        let ai = attacker_id;
        let di = defender_index;
        proof {
            assert(old(self).players@[ai as int].spec_owns(from_territory@));
            assert(old(self).players@[di as int].spec_owns(to_territory@));
            if from_territory@ == to_territory@ {
                if ai < di {
                    assert(!(old(self).players@[ai as int].spec_owns(to_territory@)
                        && old(self).players@[di as int].spec_owns(to_territory@)));
                } else {
                    assert(!(old(self).players@[di as int].spec_owns(to_territory@)
                        && old(self).players@[ai as int].spec_owns(to_territory@)));
                }
            }
            assert(from_territory@ != to_territory@);
        }
        loop
            invariant_except_break
                !repeat ==> self.players == old(self).players,
            invariant
                self.wf(),
                ai < self.players@.len(),
                di < self.players@.len(),
                ai != di,
                ai == attacker_id,
                from_territory@ != to_territory@,
                num_dice >= 1,
                old(self).wf(),
                old(self).turn_phase == TurnPhase::Attack,
                attacker_id < old(self).players@.len(),
                old(self).players@[ai as int].spec_owns(from_territory@),
                old(self).players@[di as int].spec_owns(to_territory@),
                old(self).spec_owner_of(to_territory@) == Some(di as int),
                old(self).board.spec_has_territory(from_territory@),
                old(self).board.spec_territory(from_territory@).spec_is_adjacent(to_territory@),
                self.players@.len() == old(self).players@.len(),
                forall|j: int|
                    0 <= j < old(self).players@.len() && j != ai && j != di
                        ==> self.players@[j] == old(self).players@[j],
                player_same_but_armies(old(self).players@[ai as int], self.players@[ai as int]),
                player_same_but_armies(old(self).players@[di as int], self.players@[di as int]),
                self.players@[ai as int].spec_armies(from_territory@) <= old(
                    self,
                ).players@[ai as int].spec_armies(from_territory@),
                self.players@[di as int].spec_armies(to_territory@) <= old(
                    self,
                ).players@[di as int].spec_armies(to_territory@),
                old(self).players@[di as int].spec_armies(to_territory@) >= 1
                    ==> self.players@[di as int].spec_armies(to_territory@) >= 1,
                old(self).players@[ai as int].spec_armies(from_territory@) >= 1
                    ==> self.players@[ai as int].spec_armies(from_territory@) >= 1,
                forall|x: Seq<char>|
                    x != from_territory@ ==> #[trigger] self.players@[ai as int].spec_armies(x)
                        == old(self).players@[ai as int].spec_armies(x),
                forall|x: Seq<char>|
                    x != to_territory@ ==> #[trigger] self.players@[di as int].spec_armies(x)
                        == old(self).players@[di as int].spec_armies(x),
                self.board == old(self).board,
                self.current_turn == old(self).current_turn,
                self.round == old(self).round,
                self.turn_phase == old(self).turn_phase,
                self.reinforcement_armies == old(self).reinforcement_armies,
                self.initial_reinforcement_armies == old(self).initial_reinforcement_armies,
                self.deck == old(self).deck,
                self.discard_pile == old(self).discard_pile,
                self.conquered_territory == old(self).conquered_territory,
                self.defeated_players == old(self).defeated_players,
                self.last_attack_from == old(self).last_attack_from,
                self.last_attack_to == old(self).last_attack_to,
                self.last_attack_dice == old(self).last_attack_dice,
                self.active_players == old(self).active_players,
                self.prob_cache == old(self).prob_cache,
            ensures
                self.players@[di as int].spec_armies(to_territory@) >= 1,
                !repeat ==> exists|ar: Seq<u16>, dr: Seq<u16>|
                    #[trigger] spec_attack_round(
                        *old(self),
                        *self,
                        ai as int,
                        di as int,
                        from_territory@,
                        to_territory@,
                        num_dice,
                        ar,
                        dr,
                    ),
                repeat ==> self.players@[ai as int].spec_armies(from_territory@) <= 1,
            decreases self.players@[ai as int].spec_armies(from_territory@)
                + self.players@[di as int].spec_armies(to_territory@),
        {
            let att_armies = self.players[ai].get_armies(from_territory);
            let avail: u16 = if att_armies >= 1 {
                att_armies - 1
            } else {
                0
            };
            let mut eff: u16 = if num_dice < avail {
                num_dice
            } else {
                avail
            };
            if eff > 3 {
                eff = 3;
            }
            let def_armies = self.players[di].get_armies(to_territory);
            let def_dice: u16 = if def_armies < 2 {
                def_armies
            } else {
                2
            };
            let att_rolls = roll_dice(eff);
            let def_rolls = roll_dice(def_dice);
            let (att_best, att_second) = best_two(&att_rolls);
            let (def_best, def_second) = best_two(&def_rolls);
            let m: u16 = if eff < def_dice {
                eff
            } else {
                def_dice
            };
            let mut attacker_losses: u16 = 0;
            let mut defender_losses: u16 = 0;
            if m >= 1 {
                if att_best > def_best {
                    defender_losses = defender_losses + 1;
                } else {
                    attacker_losses = attacker_losses + 1;
                }
            }
            if m >= 2 {
                if att_second > def_second {
                    defender_losses = defender_losses + 1;
                } else {
                    attacker_losses = attacker_losses + 1;
                }
            }
            proof {
                assert(defender_losses == spec_defender_losses(att_rolls@, def_rolls@));
                assert(attacker_losses == spec_attacker_losses(att_rolls@, def_rolls@));
                assert(attacker_losses + defender_losses == m);
                assert(attacker_losses <= avail);
            }
            let ghost round_pre = *self;
            let mut pa = self.players.remove(ai);
            pa.remove_armies(from_territory, attacker_losses);
            proof {
                crate::player::lemma_remove_insert(round_pre.players@, ai as int, pa);
            }
            self.players.insert(ai, pa);
            proof {
                lemma_players_update_wf(round_pre, *self, ai as int);
            }
            let ghost round_mid = *self;
            let mut pd = self.players.remove(di);
            pd.remove_armies(to_territory, defender_losses);
            proof {
                crate::player::lemma_remove_insert(round_mid.players@, di as int, pd);
            }
            self.players.insert(di, pd);
            proof {
                lemma_players_update_wf(round_mid, *self, di as int);
            }
            let def_now = self.players[di].get_armies(to_territory);
            if def_now == 0 {
                let ghost conq_pre = *self;
                let mut pd2 = self.players.remove(di);
                pd2.remove_territory(to_territory);
                let ghost pd2_after_remove = pd2;
                let eliminated = pd2.territories.len() == 0;
                let mut taken: Vec<Card> = Vec::new();
                if eliminated {
                    taken.append(&mut pd2.cards);
                }
                proof {
                    assert(pd2.territories == pd2_after_remove.territories);
                    assert(pd2.armies == pd2_after_remove.armies);
                    assert forall|t: Seq<char>| #[trigger] pd2.spec_owns(t)
                        == pd2_after_remove.spec_owns(t) by {}
                    assert forall|t: Seq<char>| #[trigger] pd2.spec_armies(t)
                        == pd2_after_remove.spec_armies(t) by {}
                    crate::player::lemma_remove_insert(conq_pre.players@, di as int, pd2);
                }
                self.players.insert(di, pd2);
                proof {
                    lemma_owner_shrink_wf(conq_pre, *self, di as int);
                }
                let ghost take_pre = *self;
                proof {
                    assert(conq_pre.players@[di as int].spec_owns(to_territory@));
                    assert forall|j: int|
                        0 <= j < take_pre.players@.len() implies !(
                    #[trigger] take_pre.players@[j]).spec_owns(to_territory@) by {
                        if j == di as int {
                        } else {
                            assert(take_pre.players@[j] == conq_pre.players@[j]);
                            if j < di as int {
                                assert(!(conq_pre.players@[j].spec_owns(to_territory@)
                                    && conq_pre.players@[di as int].spec_owns(to_territory@)));
                            } else {
                                assert(!(conq_pre.players@[di as int].spec_owns(to_territory@)
                                    && conq_pre.players@[j].spec_owns(to_territory@)));
                            }
                        }
                    }
                }
                let mut pa2 = self.players.remove(ai);
                pa2.add_territory(to_territory);
                let ghost pa2_after_add = pa2;
                if eliminated {
                    pa2.cards.append(&mut taken);
                }
                proof {
                    assert(pa2.territories == pa2_after_add.territories);
                    assert(pa2.armies == pa2_after_add.armies);
                    assert forall|t: Seq<char>| t != to_territory@ implies (
                    #[trigger] pa2.spec_owns(t) <==> take_pre.players@[ai as int].spec_owns(t)) by {
                        assert(pa2.spec_owns(t) == pa2_after_add.spec_owns(t));
                    }
                    assert forall|t: Seq<char>| #[trigger] pa2.spec_armies(t)
                        == pa2_after_add.spec_armies(t) by {}
                    crate::player::lemma_remove_insert(take_pre.players@, ai as int, pa2);
                }
                self.players.insert(ai, pa2);
                proof {
                    lemma_take_territory_wf(
                        take_pre,
                        *self,
                        ai as int,
                        di as int,
                        to_territory@,
                    );
                }
                self.conquered_territory = true;
                if eliminated {
                    self.defeated_players.push(di);
                    proof {
                        lemma_seq_remove_val(self.active_players@, di);
                    }
                    let filtered = remove_value(&self.active_players, di);
                    self.active_players = filtered;
                }
                self.last_attack_from = Some(from_territory.to_owned());
                self.last_attack_to = Some(to_territory.to_owned());
                self.last_attack_dice = Some(eff);
                self.turn_phase = TurnPhase::MoveArmies;
                if self.check_win_conditions() {
                    self.turn_phase = TurnPhase::GameOver;
                }
                proof {
                    assert(eff as int == spec_attack_dice(att_armies, num_dice));
                    assert(self.players@[ai as int].spec_armies(from_territory@) <= att_armies
                        <= old(self).players@[ai as int].spec_armies(from_territory@));
                    if old(self).players@[di as int].spec_armies(to_territory@) >= 1 {
                        assert(def_armies >= 1);
                        assert(eff >= 1);
                    }
                    assert(spec_attack_frame(
                        *old(self),
                        *self,
                        ai as int,
                        di as int,
                    ));
                    assert(spec_attack_conquest(
                        *old(self),
                        *self,
                        ai as int,
                        di as int,
                        from_territory@,
                        to_territory@,
                        num_dice,
                    ));
                    if !repeat {
                        assert(spec_attack_round(
                            *old(self),
                            *self,
                            attacker_id as int,
                            old(self).spec_owner_of(to_territory@)->0,
                            from_territory@,
                            to_territory@,
                            num_dice,
                            att_rolls@,
                            def_rolls@,
                        ));
                        assert(exists|ar: Seq<u16>, dr: Seq<u16>|
                            #[trigger] spec_attack_round(
                                *old(self),
                                *self,
                                attacker_id as int,
                                old(self).spec_owner_of(to_territory@)->0,
                                from_territory@,
                                to_territory@,
                                num_dice,
                                ar,
                                dr,
                            ));
                    }
                }
                return Ok(());
            }
            if !repeat {
                proof {
                    assert(spec_attack_round(
                        *old(self),
                        *self,
                        ai as int,
                        di as int,
                        from_territory@,
                        to_territory@,
                        num_dice,
                        att_rolls@,
                        def_rolls@,
                    ));
                }
                break;
            }
            let att_now = self.players[ai].get_armies(from_territory);
            if att_now <= 1 {
                break;
            }
            proof {
                assert(m >= 1);
            }
        }
        Ok(())
    }
}

/// Removing a territory from one player keeps the game's invariant.
proof fn lemma_owner_shrink_wf(a: Game, b: Game, i: int)
    requires
        a.wf(),
        0 <= i < a.players@.len(),
        b.players@.len() == a.players@.len(),
        forall|j: int| 0 <= j < a.players@.len() && j != i ==> b.players@[j] == a.players@[j],
        b.players@[i].wf(),
        b.players@[i].id == a.players@[i].id,
        forall|t: Seq<char>|
            #[trigger] b.players@[i].spec_owns(t) ==> a.players@[i].spec_owns(t),
        b.board == a.board,
        b.current_turn == a.current_turn,
        b.active_players == a.active_players,
        b.prob_cache == a.prob_cache,
    ensures
        b.wf(),
{
    assert forall|p: int, q: int, t: Seq<char>|
        0 <= p < q < b.players@.len() implies !(#[trigger] b.players@[p].spec_owns(t)
        && #[trigger] b.players@[q].spec_owns(t)) by {
        assert(b.players@[p].spec_owns(t) ==> a.players@[p].spec_owns(t));
        assert(b.players@[q].spec_owns(t) ==> a.players@[q].spec_owns(t));
        assert(!(a.players@[p].spec_owns(t) && a.players@[q].spec_owns(t)));
    }
}

/// Granting player `ai` a territory nobody owns keeps the game's invariant.
proof fn lemma_take_territory_wf(a: Game, b: Game, ai: int, di: int, to: Seq<char>)
    requires
        a.wf(),
        0 <= ai < a.players@.len(),
        0 <= di < a.players@.len(),
        ai != di,
        b.players@.len() == a.players@.len(),
        forall|j: int| 0 <= j < a.players@.len() && j != ai ==> b.players@[j] == a.players@[j],
        b.players@[ai].wf(),
        b.players@[ai].id == a.players@[ai].id,
        forall|t: Seq<char>|
            t != to ==> (#[trigger] b.players@[ai].spec_owns(t) <==> a.players@[ai].spec_owns(t)),
        forall|j: int|
            0 <= j < a.players@.len() ==> !(#[trigger] a.players@[j]).spec_owns(to),
        b.board == a.board,
        b.current_turn == a.current_turn,
        b.active_players == a.active_players,
        b.prob_cache == a.prob_cache,
    ensures
        b.wf(),
{
    assert forall|p: int, q: int, t: Seq<char>|
        0 <= p < q < b.players@.len() implies !(#[trigger] b.players@[p].spec_owns(t)
        && #[trigger] b.players@[q].spec_owns(t)) by {
        if t == to {
            if p != ai {
                assert(b.players@[p] == a.players@[p]);
                assert(!a.players@[p].spec_owns(to));
            }
            if q != ai {
                assert(b.players@[q] == a.players@[q]);
                assert(!a.players@[q].spec_owns(to));
            }
        } else {
            assert(b.players@[p].spec_owns(t) ==> a.players@[p].spec_owns(t));
            assert(b.players@[q].spec_owns(t) ==> a.players@[q].spec_owns(t));
            assert(!(a.players@[p].spec_owns(t) && a.players@[q].spec_owns(t)));
        }
    }
}


/// The first card, in the order given, whose bound territory appears in the
/// owned-territory list; the trade-in grants that territory two extra
/// armies.
pub open spec fn first_bound_owned(cs: Seq<Card>, terrs: Seq<String>) -> Option<Seq<char>>
    decreases cs.len(),
{
    if cs.len() == 0 {
        None
    } else {
        match cs[0].territory {
            Some(t) => {
                if has_name(terrs, t@) {
                    Some(t@)
                } else {
                    first_bound_owned(cs.drop_first(), terrs)
                }
            },
            None => first_bound_owned(cs.drop_first(), terrs),
        }
    }
}

/// The territory of the first of the three cards (in the order given) that
/// is bound to an owned territory, if any.
fn first_owned_territory(ca: &Card, cb: &Card, cc: &Card, terrs: &Vec<String>) -> (r: Option<
    String,
>)
    ensures
        r matches Some(s) ==> first_bound_owned(seq![*ca, *cb, *cc], terrs@) == Some(s@),
        r is None ==> first_bound_owned(seq![*ca, *cb, *cc], terrs@) is None,
{
    let ghost s3 = seq![*ca, *cb, *cc];
    let ghost s2 = seq![*cb, *cc];
    let ghost s1 = seq![*cc];
    proof {
        assert(s3.drop_first() =~= s2);
        assert(s2.drop_first() =~= s1);
        assert(s1.drop_first() =~= Seq::<Card>::empty());
    }
    match &ca.territory {
        Some(t) => {
            if crate::names::contains_name(terrs, t.as_str()) {
                return Some(t.clone());
            }
        },
        None => {},
    }
    proof {
        assert(first_bound_owned(s3, terrs@) == first_bound_owned(s2, terrs@));
    }
    match &cb.territory {
        Some(t) => {
            if crate::names::contains_name(terrs, t.as_str()) {
                return Some(t.clone());
            }
        },
        None => {},
    }
    proof {
        assert(first_bound_owned(s2, terrs@) == first_bound_owned(s1, terrs@));
    }
    match &cc.territory {
        Some(t) => {
            if crate::names::contains_name(terrs, t.as_str()) {
                return Some(t.clone());
            }
            proof {
                assert(s1[0] == *cc);
                assert(first_bound_owned(Seq::<Card>::empty(), terrs@) is None);
                assert(first_bound_owned(s1, terrs@) is None);
            }
        },
        None => {
            proof {
                assert(s1[0] == *cc);
                assert(first_bound_owned(Seq::<Card>::empty(), terrs@) is None);
                assert(first_bound_owned(s1, terrs@) is None);
            }
        },
    }
    None
}

/// A freshly built deck before shuffling: one card per board territory, in
/// board order, each of a non-Joker kind, followed by two Jokers.
pub open spec fn spec_fresh_deck(board: Board, pre: Seq<Card>) -> bool {
    let n = board.territories@.len() as int;
    &&& pre.len() == n + 2
    &&& forall|i: int|
        0 <= i < n ==> ((#[trigger] pre[i]).territory matches Some(s)
            && s@ == board.territories@[i].name@ && pre[i].kind != CardKind::Joker)
    &&& pre[n].territory is None && pre[n].kind == CardKind::Joker
    &&& pre[n + 1].territory is None && pre[n + 1].kind == CardKind::Joker
}

impl Game {
    /// Builds the draw deck for a board: one card per territory with a
    /// random non-Joker kind, two Jokers, shuffled.
    pub fn create_deck(board: &Board) -> (deck: Vec<Card>)
        requires
            board.wf(),
        ensures
            deck@.len() == board.territories@.len() + 2,
            exists|pre: Seq<Card>|
                #[trigger] pre.to_multiset() == deck@.to_multiset() && spec_fresh_deck(
                    *board,
                    pre,
                ),
    {
        let mut deck: Vec<Card> = Vec::new();
        let mut i: usize = 0;
        while i < board.territories.len()
            invariant
                board.wf(),
                0 <= i <= board.territories@.len(),
                deck@.len() == i,
                forall|k: int|
                    0 <= k < i ==> ((#[trigger] deck@[k]).territory matches Some(s)
                        && s@ == board.territories@[k].name@ && deck@[k].kind != CardKind::Joker),
            decreases board.territories@.len() - i,
        {
            let pick = crate::rng::rand_in_range(0, 2);
            let kind = if pick == 0 {
                CardKind::Infantry
            } else if pick == 1 {
                CardKind::Cavalry
            } else {
                CardKind::Artillery
            };
            deck.push(Card::new(Some(board.territories[i].name.clone()), kind));
            i = i + 1;
        }
        deck.push(Card::new(None, CardKind::Joker));
        deck.push(Card::new(None, CardKind::Joker));
        let ghost pre = deck@;
        proof {
            assert(spec_fresh_deck(*board, pre));
        }
        crate::rng::shuffle_vec(&mut deck);
        proof {
            assert(pre.to_multiset() == deck@.to_multiset());
        }
        deck
    }

    /// Whether the selected card kinds form a tradeable set: three of a
    /// non-Joker kind, one of each non-Joker kind, or a three-card set
    /// completed by at least one Joker.
    pub fn is_valid_trade(&self, card_kinds: &Vec<CardKind>) -> (r: bool)
        ensures
            r == spec_trade_valid(card_kinds@),
    {
        // the `len` call bounds the selection's length by `usize::MAX`, which
        // the count sums below rely on
        let _hand_size: usize = card_kinds.len();
        let infantry_count = crate::card::count_cards_of_kind(card_kinds, CardKind::Infantry);
        let cavalry_count = crate::card::count_cards_of_kind(card_kinds, CardKind::Cavalry);
        let artillery_count = crate::card::count_cards_of_kind(card_kinds, CardKind::Artillery);
        let joker_count = crate::card::count_cards_of_kind(card_kinds, CardKind::Joker);
        proof {
            crate::card::lemma_count_kind_partition(card_kinds@);
        }
        if infantry_count == 3 || cavalry_count == 3 || artillery_count == 3 {
            return true;
        }
        if infantry_count == 1 && cavalry_count == 1 && artillery_count == 1 {
            return true;
        }
        joker_count > 0 && infantry_count + cavalry_count + artillery_count + joker_count == 3
    }

    /// Trades three cards from the player's hand for bonus armies per the
    /// schedule, during the Reinforce phase only, moving them to the discard
    /// pile (highest index first). If
    /// one of the removed cards is bound to a territory the player owns,
    /// that territory — the first such card in removal order — immediately
    /// receives two armies. The indices must be given in increasing order.
    pub fn trade_cards(&mut self, player_id: usize, card_indices: Vec<usize>) -> (r: Result<
        u16,
        String,
    >)
        requires
            old(self).wf(),
        ensures
            final(self).wf(),
            r is Err ==> *final(self) == *old(self),
            r is Err <==> (old(self).turn_phase != TurnPhase::Reinforce || player_id >= old(
                self,
            ).players@.len() || card_indices@.len() != 3 || !(
            card_indices@[0] < card_indices@[1] && card_indices@[1] < card_indices@[2]
                && card_indices@[2] < old(self).players@[player_id as int].cards@.len())
                || !spec_trade_valid(
                seq![
                    old(self).players@[player_id as int].cards@[card_indices@[0] as int].kind,
                    old(self).players@[player_id as int].cards@[card_indices@[1] as int].kind,
                    old(self).players@[player_id as int].cards@[card_indices@[2] as int].kind,
                ],
            )),
            r is Ok ==> {
                let a = *old(self);
                let b = *final(self);
                let pid = player_id as int;
                let p0 = a.players@[pid];
                let p1 = b.players@[pid];
                let i0 = card_indices@[0] as int;
                let i1 = card_indices@[1] as int;
                let i2 = card_indices@[2] as int;
                let removed = seq![p0.cards@[i2], p0.cards@[i1], p0.cards@[i0]];
                &&& r->Ok_0 == spec_trade_bonus(
                    seq![p0.cards@[i0].kind, p0.cards@[i1].kind, p0.cards@[i2].kind],
                )->0
                &&& b.players@.len() == a.players@.len()
                &&& forall|j: int|
                    0 <= j < a.players@.len() && j != pid ==> b.players@[j] == a.players@[j]
                &&& p1.cards@ == p0.cards@.remove(i2).remove(i1).remove(i0)
                &&& p1.territories == p0.territories
                &&& p1.id == p0.id && p1.name == p0.name && p1.army_supply == p0.army_supply
                    && p1.total_armies == p0.total_armies
                &&& b.discard_pile@ == a.discard_pile@ + removed
                &&& (first_bound_owned(removed, p0.territories@) matches Some(t)
                    ==> p1.spec_armies(t) == sat_add16(p0.spec_armies(t), 2) && forall|x: Seq<char>|
                    x != t ==> #[trigger] p1.spec_armies(x) == p0.spec_armies(x))
                &&& (first_bound_owned(removed, p0.territories@) is None ==> p1.armies
                    == p0.armies)
                &&& b.reinforcement_armies == sat_add16(a.reinforcement_armies, r->Ok_0)
                &&& b.board == a.board
                &&& b.current_turn == a.current_turn
                &&& b.round == a.round
                &&& b.turn_phase == a.turn_phase
                &&& b.initial_reinforcement_armies == a.initial_reinforcement_armies
                &&& b.deck == a.deck
                &&& b.conquered_territory == a.conquered_territory
                &&& b.defeated_players == a.defeated_players
                &&& b.last_attack_from == a.last_attack_from
                &&& b.last_attack_to == a.last_attack_to
                &&& b.last_attack_dice == a.last_attack_dice
                &&& b.active_players == a.active_players
                &&& b.prob_cache == a.prob_cache
            },
    {
        if self.turn_phase != TurnPhase::Reinforce {
            return Err("Cards can only be traded in the reinforcement phase.".to_owned());
        }
        if player_id >= self.players.len() {
            return Err("Invalid player ID".to_owned());
        }
        if card_indices.len() != 3 {
            return Err("You must trade exactly 3 cards.".to_owned());
        }
        let i0 = card_indices[0];
        let i1 = card_indices[1];
        let i2 = card_indices[2];
        let hand_size = self.players[player_id].cards.len();
        if !(i0 < i1 && i1 < i2 && i2 < hand_size) {
            return Err("Card indices must be distinct, increasing and in range.".to_owned());
        }
        let k0 = self.players[player_id].cards[i0].kind;
        let k1 = self.players[player_id].cards[i1].kind;
        let k2 = self.players[player_id].cards[i2].kind;
        let mut kinds: Vec<CardKind> = Vec::new();
        kinds.push(k0);
        kinds.push(k1);
        kinds.push(k2);
        proof {
            assert(kinds@ =~= seq![k0, k1, k2]);
        }
        if !self.is_valid_trade(&kinds) {
            return Err("Invalid card combination.".to_owned());
        }
        let bonus = match crate::card::calculate_trade_in_bonus(&kinds) {
            Ok(b) => b,
            Err(_) => {
                proof {
                    crate::card::lemma_trade_valid_iff_bonus(kinds@);
                }
                vstd::pervasive::unreached()
            },
        };
        let mut p = self.players.remove(player_id);
        let ghost p0 = p;
        let c2 = p.cards.remove(i2);
        let c1 = p.cards.remove(i1);
        let c0 = p.cards.remove(i0);
        let ghost removed = seq![p0.cards@[i2 as int], p0.cards@[i1 as int], p0.cards@[i0 as int]];
        proof {
            assert(c2 == p0.cards@[i2 as int]);
            assert(c1 == p0.cards@[i1 as int]);
            assert(c0 == p0.cards@[i0 as int]);
        }
        let territory_to_reinforce = first_owned_territory(&c2, &c1, &c0, &p.territories);
        proof {
            assert(seq![c2, c1, c0] =~= removed);
            assert(p.territories == p0.territories);
        }
        self.discard_pile.push(c2);
        self.discard_pile.push(c1);
        self.discard_pile.push(c0);
        proof {
            assert(self.discard_pile@ =~= old(self).discard_pile@ + removed);
        }
        match &territory_to_reinforce {
            Some(t) => {
                p.reinforce(t.as_str(), 2);
            },
            None => {},
        }
        proof {
            crate::player::lemma_remove_insert(old(self).players@, player_id as int, p);
        }
        self.players.insert(player_id, p);
        proof {
            lemma_players_update_wf(*old(self), *self, player_id as int);
        }
        self.reinforcement_armies = if self.reinforcement_armies >= 0xffff - bonus {
            0xffff
        } else {
            self.reinforcement_armies + bonus
        };
        Ok(bonus)
    }
}


/// The character of one decimal digit.
pub open spec fn spec_digit(d: int) -> char {
    if d == 0 {
        '0'
    } else if d == 1 {
        '1'
    } else if d == 2 {
        '2'
    } else if d == 3 {
        '3'
    } else if d == 4 {
        '4'
    } else if d == 5 {
        '5'
    } else if d == 6 {
        '6'
    } else if d == 7 {
        '7'
    } else if d == 8 {
        '8'
    } else {
        '9'
    }
}

/// The decimal rendering of a positive number (empty at zero).
pub open spec fn spec_decimal(n: int) -> Seq<char>
    decreases n,
{
    if n <= 0 {
        Seq::empty()
    } else {
        spec_decimal(n / 10).push(spec_digit(n % 10))
    }
}

/// The decimal rendering of any number.
pub open spec fn spec_label(n: int) -> Seq<char> {
    if n == 0 {
        seq!['0']
    } else {
        spec_decimal(n)
    }
}

/// The names given to randomly set-up players, numbered from one.
pub open spec fn spec_player_name(n: int) -> Seq<char> {
    seq!['P', 'l', 'a', 'y', 'e', 'r', ' '] + spec_label(n)
}

/// The starting army total for a randomized match, by player count.
pub open spec fn spec_initial_armies(num_players: int) -> int {
    if num_players == 3 {
        35
    } else if num_players == 4 {
        30
    } else if num_players == 5 {
        25
    } else {
        20
    }
}

/// The digits of `s`, rendered most-significant (last element) first.
pub open spec fn spec_digits_reversed(s: Seq<u8>) -> Seq<char>
    decreases s.len(),
{
    if s.len() == 0 {
        Seq::empty()
    } else {
        seq![spec_digit(s.last() as int)] + spec_digits_reversed(s.drop_last())
    }
}

/// The decimal digits of `n`.
fn usize_to_string(n: usize) -> (r: String)
    ensures
        r@ == spec_label(n as int),
{
    if n == 0 {
        proof {
            reveal_strlit("0");
            assert("0"@ =~= spec_label(0));
        }
        return "0".to_owned();
    }
    let mut digits: Vec<u8> = Vec::new();
    let mut v: usize = n;
    proof {
        assert(spec_decimal(n as int) =~= spec_decimal(v as int) + spec_digits_reversed(digits@));
    }
    while v > 0
        invariant
            v <= n,
            spec_decimal(n as int) == spec_decimal(v as int) + spec_digits_reversed(digits@),
            forall|k: int| 0 <= k < digits@.len() ==> #[trigger] digits@[k] < 10,
        decreases v,
    {
        let d: u8 = (v % 10) as u8;
        let ghost digits0 = digits@;
        digits.push(d);
        proof {
            assert(digits@.drop_last() =~= digits0);
            assert(spec_digits_reversed(digits@) == seq![spec_digit(d as int)]
                + spec_digits_reversed(digits0));
            assert(spec_decimal(v as int) == spec_decimal(v as int / 10).push(
                spec_digit(v as int % 10),
            ));
            assert(spec_decimal(v as int / 10) + (seq![spec_digit(d as int)]
                + spec_digits_reversed(digits0)) =~= spec_decimal(v as int)
                + spec_digits_reversed(digits0));
        }
        v = v / 10;
    }
    let mut out = String::new();
    let mut i: usize = digits.len();
    proof {
        assert(digits@.subrange(0, digits@.len() as int) =~= digits@);
        assert(out@ + spec_digits_reversed(digits@) =~= spec_digits_reversed(digits@));
    }
    while i > 0
        invariant
            i <= digits@.len(),
            forall|k: int| 0 <= k < digits@.len() ==> #[trigger] digits@[k] < 10,
            out@ + spec_digits_reversed(digits@.subrange(0, i as int)) == spec_digits_reversed(
                digits@,
            ),
        decreases i,
    {
        i = i - 1;
        let piece: &str = digit_str(digits[i]);
        let ghost out0 = out@;
        out = out.concat(piece);
        proof {
            assert(digits@.subrange(0, i + 1).drop_last() =~= digits@.subrange(0, i as int));
            assert(digits@.subrange(0, i + 1).last() == digits@[i as int]);
            assert(spec_digits_reversed(digits@.subrange(0, i + 1)) == seq![
                spec_digit(digits@[i as int] as int)
            ] + spec_digits_reversed(digits@.subrange(0, i as int)));
            assert((out0 + piece@) + spec_digits_reversed(digits@.subrange(0, i as int)) =~= out0
                + spec_digits_reversed(digits@.subrange(0, i + 1)));
        }
    }
    proof {
        assert(digits@.subrange(0, 0) =~= Seq::<u8>::empty());
        assert(out@ + spec_digits_reversed(digits@.subrange(0, 0)) =~= out@);
        assert(out@ == spec_decimal(n as int));
    }
    out
}

/// The decimal digit as text.
fn digit_str(d: u8) -> (r: &'static str)
    requires
        d <= 9,
    ensures
        r@ == seq![spec_digit(d as int)],
{
    proof {
        reveal_strlit("0");
        reveal_strlit("1");
        reveal_strlit("2");
        reveal_strlit("3");
        reveal_strlit("4");
        reveal_strlit("5");
        reveal_strlit("6");
        reveal_strlit("7");
        reveal_strlit("8");
        reveal_strlit("9");
        assert("0"@ =~= seq!['0']);
        assert("1"@ =~= seq!['1']);
        assert("2"@ =~= seq!['2']);
        assert("3"@ =~= seq!['3']);
        assert("4"@ =~= seq!['4']);
        assert("5"@ =~= seq!['5']);
        assert("6"@ =~= seq!['6']);
        assert("7"@ =~= seq!['7']);
        assert("8"@ =~= seq!['8']);
        assert("9"@ =~= seq!['9']);
    }
    if d == 0 {
        "0"
    } else if d == 1 {
        "1"
    } else if d == 2 {
        "2"
    } else if d == 3 {
        "3"
    } else if d == 4 {
        "4"
    } else if d == 5 {
        "5"
    } else if d == 6 {
        "6"
    } else if d == 7 {
        "7"
    } else if d == 8 {
        "8"
    } else {
        "9"
    }
}

impl Game {
    /// A match built from a declarative configuration: the configured board
    /// and players, a fresh shuffled deck, every player active, and the
    /// first player's turn opened. Player ids must equal their positions.
    pub fn new(config: &GameConfig) -> (r: Result<Game, String>)
        ensures
            r is Err <==> (crate::game_config::config_has_duplicate(*config)
                || !crate::game_config::config_all_assigned(*config) || config.players@.len() == 0
                || exists|i: int|
                0 <= i < config.players@.len() && (#[trigger] config.players@[i]).id != i),
            r is Ok ==> {
                let g = r->Ok_0;
                &&& g.wf()
                &&& crate::game_config::config_matches(*config, g.board, g.players@)
                &&& g.current_turn == 0
                &&& g.round == 0
                &&& g.turn_phase == TurnPhase::Reinforce
                &&& g.conquered_territory == false
                &&& g.defeated_players@.len() == 0
                &&& g.discard_pile@.len() == 0
                &&& g.active_players@.len() == g.players@.len()
                &&& forall|k: int| 0 <= k < g.active_players@.len() ==> #[trigger] g.active_players@[k] == k
                &&& g.deck@.len() == g.board.territories@.len() + 2
                &&& g.last_attack_from is None
                &&& g.last_attack_to is None
                &&& g.last_attack_dice is None
                &&& g.reinforcement_armies == spec_reinforcements(g.board, g.players@[0])
                &&& g.initial_reinforcement_armies == g.reinforcement_armies
            },
    {
        let (board, players) = match config.to_board_and_players() {
            Ok(x) => x,
            Err(e) => {
                return Err(e);
            },
        };
        if players.len() == 0 {
            return Err("Configuration must declare at least one player.".to_owned());
        }
        let mut i: usize = 0;
        while i < players.len()
            invariant
                crate::game_config::config_matches(*config, board, players@),
                0 <= i <= players@.len(),
                forall|k: int| 0 <= k < i ==> #[trigger] players@[k].id == k,
            decreases players@.len() - i,
        {
            if players[i].id != i {
                proof {
                    assert(config.players@[i as int].id != i);
                }
                return Err("Player ids must match their positions.".to_owned());
            }
            i = i + 1;
        }
        proof {
            assert forall|k: int|
                0 <= k < config.players@.len() implies (#[trigger] config.players@[k]).id == k by {
                assert(players@[k].id == k);
            }
        }
        let deck = Game::create_deck(&board);
        let mut active_players: Vec<usize> = Vec::new();
        let mut a: usize = 0;
        while a < players.len()
            invariant
                0 <= a <= players@.len(),
                active_players@.len() == a,
                forall|k: int| 0 <= k < a ==> #[trigger] active_players@[k] == k,
            decreases players@.len() - a,
        {
            active_players.push(a);
            a = a + 1;
        }
        let mut game = Game {
            players,
            board,
            current_turn: 0,
            round: 0,
            turn_phase: TurnPhase::Reinforce,
            reinforcement_armies: 0,
            initial_reinforcement_armies: 0,
            deck,
            discard_pile: Vec::new(),
            conquered_territory: false,
            defeated_players: Vec::new(),
            last_attack_from: None,
            last_attack_to: None,
            last_attack_dice: None,
            active_players,
            prob_cache: ProbabilityCache::new(),
        };
        game.start_turn();
        Ok(game)
    }

    /// Fresh players for a randomized match: each named after its position,
    /// dealt a share of the board's territories, then topped up with armies
    /// to the per-player-count starting total (35, 30, 25 or 20).
    pub fn create_random_players(num_players: usize, board: &mut Board) -> (r: Vec<Player>)
        requires
            old(board).wf(),
            0 < num_players <= 1000,
            old(board).territories@.len() + 5 * num_players <= 0xffff,
        ensures
            *final(board) == *old(board),
            r@.len() == num_players,
            forall|i: int| 0 <= i < r@.len() ==> (#[trigger] r@[i]).wf(),
            forall|i: int| 0 <= i < r@.len() ==> (#[trigger] r@[i]).id == i,
            forall|i: int, x: Seq<char>|
                0 <= i < r@.len() && (#[trigger] r@[i].spec_owns(x)) ==> old(
                    board,
                ).spec_has_territory(x),
            forall|x: Seq<char>|
                old(board).spec_has_territory(x) ==> exists|i: int|
                    0 <= i < r@.len() && (#[trigger] r@[i].spec_owns(x)),
            forall|i: int, j: int, x: Seq<char>|
                0 <= i < j < r@.len() ==> !((#[trigger] r@[i].spec_owns(x)) && (
                #[trigger] r@[j].spec_owns(x))),
            forall|i: int, x: Seq<char>|
                0 <= i < r@.len() && (#[trigger] r@[i].spec_owns(x)) ==> r@[i].spec_armies(x) >= 1,
            forall|i: int|
                0 <= i < r@.len() ==> (#[trigger] r@[i]).name@ == spec_player_name(i + 1),
            forall|i: int|
                0 <= i < r@.len() && r@[i].territories@.len() > 0
                    ==> (#[trigger] r@[i]).spec_total_armies() >= spec_initial_armies(
                    num_players as int,
                ),
            // no full starting continent: with two or more players, a player
            // holding one member of a continent that has another member does
            // not hold them all
            num_players >= 2 ==> forall|i: int, t1: Seq<char>, t2: Seq<char>|
                #![trigger r@[i].spec_owns(t1), crate::board::group_key(*old(board), t2)]
                0 <= i < r@.len() && old(board).spec_has_territory(t1) && old(
                    board,
                ).spec_has_territory(t2) && t1 != t2 && crate::board::group_key(*old(board), t1)
                    == crate::board::group_key(*old(board), t2) && r@[i].spec_owns(t1) ==> exists|
                    t3: Seq<char>,
                |
                    old(board).spec_has_territory(t3) && crate::board::group_key(*old(board), t3)
                        == crate::board::group_key(*old(board), t1) && !r@[i].spec_owns(t3),
            // the exact top-up: relative to the dealt state (ownership as
            // returned, one army per dealt territory and the five-per-player
            // pool, conserving the global total), every player holding
            // territories ends with the larger of its dealt total and the
            // starting total
            old(board).territories@.len() > 0 ==> exists|mid: Seq<Player>|
                {
                    &&& #[trigger] crate::board::total_all(mid) == old(board).territories@.len()
                        + 5 * num_players
                    &&& mid.len() == num_players
                    &&& forall|i: int|
                        0 <= i < mid.len() ==> (#[trigger] r@[i]).territories == mid[i].territories
                    &&& forall|i: int, x: Seq<char>|
                        0 <= i < mid.len() ==> (#[trigger] mid[i].spec_armies(x))
                            <= r@[i].spec_armies(x)
                    &&& forall|i: int, x: Seq<char>|
                        0 <= i < mid.len() && (#[trigger] mid[i].spec_owns(x))
                            ==> mid[i].spec_armies(x) >= 1
                    &&& forall|i: int|
                        0 <= i < mid.len() && mid[i].territories@.len() > 0
                            ==> (#[trigger] r@[i]).spec_total_armies() == (if mid[
                            i
                        ].spec_total_armies() >= spec_initial_armies(num_players as int) {
                            mid[i].spec_total_armies()
                        } else {
                            spec_initial_armies(num_players as int)
                        })
                },
    {
        let initial_armies: u16 = if num_players == 3 {
            35
        } else if num_players == 4 {
            30
        } else if num_players == 5 {
            25
        } else {
            20
        };
        let mut players: Vec<Player> = Vec::new();
        let mut i: usize = 0;
        while i < num_players
            invariant
                0 <= i <= num_players,
                players@.len() == i,
                forall|k: int|
                    0 <= k < i ==> {
                        &&& (#[trigger] players@[k]).wf()
                        &&& players@[k].id == k
                        &&& players@[k].territories@.len() == 0
                        &&& players@[k].armies@.len() == 0
                        &&& players@[k].name@ == spec_player_name(k + 1)
                    },
            decreases num_players - i,
        {
            let label = usize_to_string(i + 1);
            let name = "Player ".to_owned().concat(label.as_str());
            proof {
                reveal_strlit("Player ");
                assert("Player "@ =~= seq!['P', 'l', 'a', 'y', 'e', 'r', ' ']);
                assert(name@ == spec_player_name(i + 1 as int));
            }
            players.push(Player::new(i, name.as_str()));
            i = i + 1;
        }
        board.shuffle_and_distribute_territories(&mut players);
        let ghost mid = players@;
        // top up each player to the starting army total
        let mut pi: usize = 0;
        while pi < num_players
            invariant
                board.wf(),
                *board == *old(board),
                0 < num_players <= 1000,
                players@.len() == num_players,
                forall|k: int|
                    0 <= k < num_players ==> (#[trigger] players@[k]).wf() && players@[k].id == k,
                forall|k: int, x: Seq<char>|
                    0 <= k < num_players && (#[trigger] players@[k].spec_owns(x)) ==> old(
                        board,
                    ).spec_has_territory(x),
                forall|x: Seq<char>|
                    old(board).spec_has_territory(x) ==> exists|k: int|
                        0 <= k < num_players && (#[trigger] players@[k].spec_owns(x)),
                forall|k1: int, k2: int, x: Seq<char>|
                    0 <= k1 < k2 < num_players ==> !((#[trigger] players@[k1].spec_owns(x)) && (
                    #[trigger] players@[k2].spec_owns(x))),
                forall|k: int, x: Seq<char>|
                    0 <= k < num_players && (#[trigger] players@[k].spec_owns(x))
                        ==> players@[k].spec_armies(x) >= 1,
                forall|k: int|
                    0 <= k < num_players ==> (#[trigger] players@[k]).name@ == spec_player_name(
                        k + 1,
                    ),
                forall|k: int|
                    0 <= k < pi && players@[k].territories@.len() > 0
                        ==> (#[trigger] players@[k]).spec_total_armies() >= spec_initial_armies(
                        num_players as int,
                    ),
                initial_armies == spec_initial_armies(num_players as int),
                initial_armies <= 35,
                mid.len() == num_players,
                old(board).territories@.len() + 5 * num_players <= 0xffff,
                old(board).territories@.len() > 0 ==> crate::board::total_all(mid) == old(
                    board,
                ).territories@.len() + 5 * num_players,
                old(board).territories@.len() == 0 ==> forall|k: int|
                    0 <= k < num_players ==> (#[trigger] mid[k]).territories@.len() == 0 && mid[
                        k
                    ].armies@.len() == 0,
                forall|k: int| pi <= k < num_players ==> #[trigger] players@[k] == mid[k],
                forall|k: int|
                    0 <= k < pi ==> (#[trigger] players@[k]).territories == mid[k].territories,
                forall|k: int, x: Seq<char>|
                    0 <= k < pi ==> (#[trigger] mid[k].spec_armies(x)) <= players@[k].spec_armies(
                        x,
                    ),
                forall|k: int, x: Seq<char>|
                    0 <= k < num_players && (#[trigger] mid[k].spec_owns(x)) ==> mid[
                        k
                    ].spec_armies(x) >= 1,
                forall|k: int|
                    0 <= k < pi && mid[k].territories@.len() > 0
                        ==> (#[trigger] players@[k]).spec_total_armies() == (if mid[
                        k
                    ].spec_total_armies() >= spec_initial_armies(num_players as int) {
                        mid[k].spec_total_armies()
                    } else {
                        spec_initial_armies(num_players as int)
                    }),
                0 <= pi,
            decreases num_players - pi,
        {
            let ghost players2 = players@;
            let mut p = players.remove(pi);
            let ghost p_in = p;
            p.calculate_total_armies();
            proof {
                assert(p.armies == p_in.armies);
                assert(p.territories == p_in.territories);
                assert forall|x: Seq<char>| #[trigger] p.spec_owns(x) == p_in.spec_owns(x) by {}
                assert forall|x: Seq<char>| #[trigger] p.spec_armies(x)
                    == p_in.spec_armies(x) by {}
            }
            let have = p.total_armies;
            let mut need: u16 = if initial_armies > have {
                initial_armies - have
            } else {
                0
            };
            let ghost mid_total = mid[pi as int].spec_total_armies();
            proof {
                crate::player::lemma_sum_nonneg(p.armies@);
                assert(p.spec_total_armies() == mid_total);
                if old(board).territories@.len() > 0 {
                    crate::board::lemma_total_all_entry_bound(mid, pi as int);
                } else {
                    assert(mid[pi as int].territories@.len() == 0);
                    assert(mid[pi as int].armies@.len() == 0);
                    assert(mid_total == 0);
                }
                assert(mid_total <= 0xffff);
                assert(p.spec_total_armies() + need >= initial_armies);
                assert(p.spec_total_armies() + need == (if mid_total >= initial_armies {
                    mid_total
                } else {
                    initial_armies as int
                }));
            }
            while need > 0 && p.territories.len() > 0
                invariant
                    initial_armies <= 35,
                    need <= 35,
                    p.spec_total_armies() + need >= initial_armies,
                    mid_total <= 0xffff,
                    p.spec_total_armies() + need == (if mid_total >= initial_armies {
                        mid_total
                    } else {
                        initial_armies as int
                    }),
                    p.wf(),
                    p.territories == p_in.territories,
                    p.id == p_in.id,
                    p.name == p_in.name,
                    p.cards == p_in.cards,
                    forall|x: Seq<char>| #[trigger] p.spec_owns(x) == p_in.spec_owns(x),
                    forall|x: Seq<char>| #[trigger] p.spec_owns(x) ==> p.spec_armies(x) >= 1,
                    forall|x: Seq<char>| #[trigger] p_in.spec_armies(x) <= p.spec_armies(x),
                decreases need,
            {
                let need0: u16 = need;
                let mut j: usize = 0;
                while j < p.territories.len() && need > 0
                    invariant
                        0 <= j <= p.territories@.len(),
                        need <= need0,
                        j > 0 ==> need < need0,
                        initial_armies <= 35,
                        p.spec_total_armies() + need >= initial_armies,
                        mid_total <= 0xffff,
                        p.spec_total_armies() + need == (if mid_total >= initial_armies {
                            mid_total
                        } else {
                            initial_armies as int
                        }),
                        p.wf(),
                        p.territories == p_in.territories,
                        p.id == p_in.id,
                        p.name == p_in.name,
                        p.cards == p_in.cards,
                        forall|x: Seq<char>| #[trigger] p.spec_owns(x) == p_in.spec_owns(x),
                        forall|x: Seq<char>| #[trigger] p.spec_owns(x) ==> p.spec_armies(x) >= 1,
                        forall|x: Seq<char>| #[trigger] p_in.spec_armies(x) <= p.spec_armies(x),
                    decreases p.territories@.len() - j,
                {
                    let t = p.territories[j].clone();
                    let ghost pj = p;
                    proof {
                        // below the exact target the running total sits under
                        // the ceiling, so the addition cannot saturate
                        crate::board::lemma_armies_le_total(pj, t@);
                        assert(pj.spec_armies(t@) < 0xffff);
                    }
                    p.reinforce(t.as_str(), 1);
                    proof {
                        assert(p.territories == pj.territories);
                        assert forall|x: Seq<char>| #[trigger] p.spec_owns(x)
                            == pj.spec_owns(x) by {}
                        assert forall|x: Seq<char>| #[trigger] p.spec_owns(x) implies p.spec_armies(
                            x,
                        ) >= 1 by {
                            if x != t@ {
                                assert(p.spec_armies(x) == pj.spec_armies(x));
                            }
                        }
                        assert forall|x: Seq<char>| #[trigger] p_in.spec_armies(x)
                            <= p.spec_armies(x) by {
                            if x != t@ {
                                assert(p.spec_armies(x) == pj.spec_armies(x));
                            } else {
                                assert(p.spec_armies(x) == pj.spec_armies(x) + 1);
                            }
                        }
                        assert(p.spec_total_armies() == pj.spec_total_armies() + 1);
                    }
                    need = need - 1;
                    j = j + 1;
                }
                proof {
                    assert(need < need0);
                }
            }
            proof {
                if p_in.territories@.len() > 0 {
                    assert(need == 0);
                    assert(p.spec_total_armies() >= initial_armies);
                    assert(p.spec_total_armies() == (if mid_total >= initial_armies {
                        mid_total
                    } else {
                        initial_armies as int
                    }));
                }
                crate::player::lemma_remove_insert(players2, pi as int, p);
            }
            players.insert(pi, p);
            proof {
                assert forall|k: int, x: Seq<char>|
                    0 <= k < num_players implies ((#[trigger] players@[k].spec_owns(x))
                    == players2[k].spec_owns(x)) by {
                    if k == pi as int {
                        assert(players@[k].spec_owns(x) == p_in.spec_owns(x));
                    } else {
                        assert(players@[k] == players2[k]);
                    }
                }
                assert forall|x: Seq<char>| old(board).spec_has_territory(x) implies exists|
                    k: int,
                |
                    0 <= k < num_players && (#[trigger] players@[k].spec_owns(x)) by {
                    let k = choose|k: int|
                        0 <= k < num_players && (#[trigger] players2[k].spec_owns(x));
                    assert(players@[k].spec_owns(x));
                }
                assert forall|k: int|
                    0 <= k < pi + 1 && players@[k].territories@.len() > 0 implies (
                #[trigger] players@[k]).spec_total_armies() >= spec_initial_armies(
                    num_players as int,
                ) by {
                    if k < pi as int {
                        assert(players@[k] == players2[k]);
                    }
                }
            }
            pi = pi + 1;
        }
        proof {
            if num_players >= 2 {
                assert forall|i: int, t1: Seq<char>, t2: Seq<char>|
                    #![trigger players@[i].spec_owns(t1), crate::board::group_key(*old(board), t2)]
                    0 <= i < players@.len() && old(board).spec_has_territory(t1) && old(
                        board,
                    ).spec_has_territory(t2) && t1 != t2 && crate::board::group_key(
                        *old(board),
                        t1,
                    ) == crate::board::group_key(*old(board), t2) && players@[i].spec_owns(t1)
                    implies exists|t3: Seq<char>|
                    old(board).spec_has_territory(t3) && crate::board::group_key(*old(board), t3)
                        == crate::board::group_key(*old(board), t1) && !players@[i].spec_owns(
                        t3,
                    ) by {
                    // the top-up never moves a territory, so ownership is the
                    // dealt ownership
                    assert(players@[i].territories == mid[i].territories);
                    assert(mid[i].spec_owns(t1));
                    let t3 = choose|t3: Seq<char>|
                        old(board).spec_has_territory(t3) && crate::board::group_key(
                            *old(board),
                            t3,
                        ) == crate::board::group_key(*old(board), t1) && !mid[i].spec_owns(t3);
                    assert(!players@[i].spec_owns(t3));
                }
            }
        }
        players
    }

    /// A randomized match on the configured board: the configuration's
    /// territories and continents are used, its player list is ignored, and
    /// `num_players` freshly-dealt players take the field.
    pub fn new_random(config: &GameConfig, num_players: usize) -> (r: Result<Game, String>)
        ensures
            r is Err <==> (num_players == 0 || num_players > 1000 || 5 * num_players
                + config.territories@.len() > 0xffff || crate::game_config::config_has_duplicate(
                *config,
            ) || !crate::game_config::config_all_assigned(*config)),
            r is Ok ==> {
                let g = r->Ok_0;
                &&& g.wf()
                &&& g.players@.len() == num_players
                &&& g.current_turn == 0
                &&& g.round == 0
                &&& g.turn_phase == TurnPhase::Reinforce
                &&& g.conquered_territory == false
                &&& g.active_players@.len() == num_players
                &&& forall|x: Seq<char>|
                    g.board.spec_has_territory(x) ==> exists|i: int|
                        0 <= i < g.players@.len() && (#[trigger] g.players@[i].spec_owns(x))
            },
    {
        if num_players == 0 || num_players > 1000 {
            return Err("Unsupported number of players.".to_owned());
        }
        if config.territories.len() > 0xffff - 5 * num_players {
            return Err("Too many territories for a randomized setup.".to_owned());
        }
        let (mut board, _configured) = match config.to_board_and_players() {
            Ok(x) => x,
            Err(e) => {
                return Err(e);
            },
        };
        let players = Game::create_random_players(num_players, &mut board);
        let deck = Game::create_deck(&board);
        let mut active_players: Vec<usize> = Vec::new();
        let mut a: usize = 0;
        while a < players.len()
            invariant
                0 <= a <= players@.len(),
                active_players@.len() == a,
                forall|k: int| 0 <= k < a ==> #[trigger] active_players@[k] == k,
            decreases players@.len() - a,
        {
            active_players.push(a);
            a = a + 1;
        }
        let mut game = Game {
            players,
            board,
            current_turn: 0,
            round: 0,
            turn_phase: TurnPhase::Reinforce,
            reinforcement_armies: 0,
            initial_reinforcement_armies: 0,
            deck,
            discard_pile: Vec::new(),
            conquered_territory: false,
            defeated_players: Vec::new(),
            last_attack_from: None,
            last_attack_to: None,
            last_attack_dice: None,
            active_players,
            prob_cache: ProbabilityCache::new(),
        };
        game.start_turn();
        Ok(game)
    }
}

} // verus!
