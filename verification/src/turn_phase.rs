//! The turn-phase state machine: Reinforce, Attack, Fortify, the
//! post-conquest MoveArmies interlude, and the terminal GameOver.

use vstd::prelude::*;

use crate::game::Game;

verus! {

/// The phase the current turn is in.
#[derive(Debug, Clone, Copy, PartialEq, Eq, Structural)]
pub enum TurnPhase {
    Reinforce,
    Attack,
    Fortify,
    MoveArmies,
    GameOver,
}

impl Game {
    /// Opens the current player's turn: computes the reinforcement
    /// allotment, clears the conquest flag, and enters Reinforce.
    pub fn start_turn(&mut self)
        requires
            old(self).wf(),
        ensures
            final(self).wf(),
            crate::game::spec_start_turn(*old(self), *final(self)),
    {
        let armies = self.calculate_reinforcements(self.current_turn);
        self.reinforcement_armies = armies;
        self.initial_reinforcement_armies = armies;
        self.conquered_territory = false;
        self.turn_phase = TurnPhase::Reinforce;
    }

    /// Moves to the next phase where the rules allow it: Reinforce advances
    /// to Attack only once the allotment is spent and the hand holds fewer
    /// than five cards (a fuller hand forces a trade first), Attack yields
    /// to Fortify unconditionally, and advancing from Fortify ends the turn.
    pub fn advance_phase(&mut self)
        requires
            old(self).wf(),
        ensures
            final(self).wf(),
            old(self).turn_phase == TurnPhase::Reinforce && old(self).reinforcement_armies == 0
                && old(self).players@[old(self).current_turn as int].cards@.len() < 5
                ==> crate::game::same_but_phase(*old(self), *final(self)) && final(self).turn_phase
                == TurnPhase::Attack,
            old(self).turn_phase == TurnPhase::Reinforce && !(old(self).reinforcement_armies == 0
                && old(self).players@[old(self).current_turn as int].cards@.len() < 5)
                ==> *final(self) == *old(self),
            old(self).turn_phase == TurnPhase::Attack ==> crate::game::same_but_phase(
                *old(self),
                *final(self),
            ) && final(self).turn_phase == TurnPhase::Fortify,
            old(self).turn_phase == TurnPhase::Fortify ==> crate::game::spec_end_turn(
                *old(self),
                *final(self),
            ),
            old(self).turn_phase == TurnPhase::MoveArmies || old(self).turn_phase
                == TurnPhase::GameOver ==> *final(self) == *old(self),
    {
        match self.turn_phase {
            TurnPhase::Reinforce => {
                if self.reinforcement_armies == 0 && self.players[self.current_turn].cards.len()
                    < 5 {
                    self.turn_phase = TurnPhase::Attack;
                }
            },
            TurnPhase::Attack => {
                self.turn_phase = TurnPhase::Fortify;
            },
            TurnPhase::Fortify => {
                self.end_turn();
            },
            _ => {},
        }
    }

    /// Closes the turn: draws a card if a territory was conquered, hands the
    /// turn to the next active player (counting a new round on wrap-around),
    /// and opens that player's turn.
    pub fn end_turn(&mut self)
        requires
            old(self).wf(),
        ensures
            final(self).wf(),
            crate::game::spec_end_turn(*old(self), *final(self)),
    {
        if self.conquered_territory && self.deck.len() > 0 {
            match self.deck.pop() {
                Some(card) => {
                    let cur = self.current_turn;
                    let mut p = self.players.remove(cur);
                    p.cards.push(card);
                    proof {
                        crate::player::lemma_remove_insert(
                            old(self).players@,
                            cur as int,
                            p,
                        );
                        assert(old(self).deck@.subrange(0, old(self).deck@.len() - 1)
                            =~= old(self).deck@.drop_last());
                    }
                    self.players.insert(cur, p);
                    proof {
                        crate::game::lemma_players_update_wf(*old(self), *self, cur as int);
                    }
                },
                None => {},
            }
        }
        let ghost mid = *self;
        proof {
            assert(mid.wf());
        }
        match crate::game::find_index(&self.active_players, self.current_turn) {
            Some(pos) => {
                proof {
                    assert(crate::game::has_index(self.active_players@, self.current_turn));
                    let k = crate::game::index_of_val(self.active_players@, self.current_turn);
                    assert(self.active_players@[k] == self.current_turn);
                    assert(k == pos as int);
                }
                let n = self.active_players.len();
                let next_index = if pos == n - 1 {
                    0
                } else {
                    pos + 1
                };
                self.current_turn = self.active_players[next_index];
                if next_index == 0 {
                    self.round = if self.round < usize::MAX {
                        self.round + 1
                    } else {
                        usize::MAX
                    };
                }
            },
            None => {},
        }
        self.start_turn();
    }
}


/// Round accounting: closing a turn never reorders the active rotation
/// (see [`crate::game::spec_end_turn`]), and over one full pass of `len`
/// turn handovers the wrap back to the first active player — the one step
/// that increments the round counter — happens exactly once: there is one
/// and only one step count `s` in `1..=len` at which the rotation position
/// returns to the front.
pub proof fn lemma_one_wrap_per_pass(len: int, start: int)
    requires
        0 < len,
        0 <= start < len,
    ensures
        exists|s: int| 1 <= s <= len && #[trigger] ((start + s) % len) == 0,
        forall|s1: int, s2: int|
            #![trigger (start + s1) % len, (start + s2) % len]
            1 <= s1 <= len && 1 <= s2 <= len && (start + s1) % len == 0 && (start + s2) % len == 0
                ==> s1 == s2,
{
    let w = len - start;
    assert((start + w) % len == 0) by {
        vstd::arithmetic::div_mod::lemma_mod_self_0(len);
    }
    assert(1 <= w <= len);
    assert forall|s1: int, s2: int|
        #![trigger (start + s1) % len, (start + s2) % len]
        1 <= s1 <= len && 1 <= s2 <= len && (start + s1) % len == 0 && (start + s2) % len == 0
            implies s1 == s2 by {
        lemma_wrap_unique(len, start, s1);
        lemma_wrap_unique(len, start, s2);
    }
}

/// The only step count in `1..=len` that lands back on the front is
/// `len - start`.
proof fn lemma_wrap_unique(len: int, start: int, s: int)
    requires
        0 < len,
        0 <= start < len,
        1 <= s <= len,
        (start + s) % len == 0,
    ensures
        s == len - start,
{
    vstd::arithmetic::div_mod::lemma_fundamental_div_mod(start + s, len);
    let q = (start + s) / len;
    assert(start + s == len * q);
    assert(1 <= start + s <= 2 * len - 1);
    assert(q == 1) by (nonlinear_arith)
        requires
            start + s == len * q,
            1 <= start + s <= 2 * len - 1,
            0 < len,
    ;
}

} // verus!
