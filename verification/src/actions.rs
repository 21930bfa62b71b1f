//! Legal-action enumeration and the public game snapshot.

use vstd::prelude::*;

use itertools::Itertools;

use crate::board::Board;
use crate::card::{spec_trade_valid, Card, CardKind};
use crate::connect::node_ok;
use crate::continent::Continent;
use crate::game::{spec_reinforcements, Game};
use crate::names::has_name;
use crate::player::{sat_sub16, sum_armies, Player};
use crate::probability::p_bp;
use crate::territory::Territory;
use crate::turn_phase::TurnPhase;

verus! {

/// One action a player may take, as offered by the enumerator.
#[derive(Debug, Clone, PartialEq)]
pub enum Action {
    Reinforce { territory: String, max_armies: u16 },
    Attack { from: String, to: String, max_dice: u16 },
    Fortify { from: String, to: String, max_armies: u16 },
    TradeCards { card_indices: Vec<usize> },
    MoveArmies { from: String, to: String, max_armies: u16, min_armies: u16 },
    EndPhase,
}

/// The mathematical shadow of an [`Action`]: names as character sequences,
/// index lists as sequences.
pub enum ActionModel {
    Reinforce { territory: Seq<char>, max_armies: u16 },
    Attack { from: Seq<char>, to: Seq<char>, max_dice: u16 },
    Fortify { from: Seq<char>, to: Seq<char>, max_armies: u16 },
    TradeCards { card_indices: Seq<usize> },
    MoveArmies { from: Seq<char>, to: Seq<char>, max_armies: u16, min_armies: u16 },
    EndPhase,
}

/// The model of an action value.
pub open spec fn action_model(a: Action) -> ActionModel {
    match a {
        Action::Reinforce { territory, max_armies } => ActionModel::Reinforce {
            territory: territory@,
            max_armies,
        },
        Action::Attack { from, to, max_dice } => ActionModel::Attack {
            from: from@,
            to: to@,
            max_dice,
        },
        Action::Fortify { from, to, max_armies } => ActionModel::Fortify {
            from: from@,
            to: to@,
            max_armies,
        },
        Action::TradeCards { card_indices } => ActionModel::TradeCards {
            card_indices: card_indices@,
        },
        Action::MoveArmies { from, to, max_armies, min_armies } => ActionModel::MoveArmies {
            from: from@,
            to: to@,
            max_armies,
            min_armies,
        },
        Action::EndPhase => ActionModel::EndPhase,
    }
}

/// The source territory an attack or fortify offer names (empty for other
/// actions).
pub open spec fn model_from(m: ActionModel) -> Seq<char> {
    match m {
        ActionModel::Attack { from, .. } => from,
        ActionModel::Fortify { from, .. } => from,
        _ => Seq::empty(),
    }
}

/// The target territory an attack or fortify offer names (empty for other
/// actions).
pub open spec fn model_to(m: ActionModel) -> Seq<char> {
    match m {
        ActionModel::Attack { to, .. } => to,
        ActionModel::Fortify { to, .. } => to,
        _ => Seq::empty(),
    }
}

/// The action list `r` offers the model `m`.
pub open spec fn offers(r: Seq<Action>, m: ActionModel) -> bool {
    exists|k: int| 0 <= k < r.len() && action_model(#[trigger] r[k]) == m
}

/// A legal reinforcement while armies remain: any owned territory, capped by
/// the remaining allotment.
pub open spec fn reinforce_action_ok(g: Game, t: Seq<char>, max: u16) -> bool {
    &&& g.reinforcement_armies != 0
    &&& g.players@[g.current_turn as int].spec_owns(t)
    &&& max == g.reinforcement_armies
}

/// A legal trade offer: three distinct hand indices, in increasing order,
/// whose kinds form a valid set.
pub open spec fn trade_action_ok(g: Game, ix: Seq<usize>) -> bool {
    let cards = g.players@[g.current_turn as int].cards@;
    &&& ix.len() == 3
    &&& ix[0] < ix[1] && ix[1] < ix[2] && ix[2] < cards.len()
    &&& spec_trade_valid(seq![cards[ix[0] as int].kind, cards[ix[1] as int].kind, cards[ix[2] as int].kind])
}

/// A legal attack option: an owned territory with more than one army,
/// adjacent (per the board) to a territory the player does not own; the dice
/// offer is capped by the spare armies and three.
pub open spec fn attack_action_ok(g: Game, from: Seq<char>, to: Seq<char>, max_dice: u16) -> bool {
    let cur = g.players@[g.current_turn as int];
    &&& cur.spec_owns(from)
    &&& g.board.spec_has_territory(from)
    &&& g.board.spec_territory(from).spec_is_adjacent(to)
    &&& !cur.spec_owns(to)
    &&& max_dice == (if sat_sub16(cur.spec_armies(from), 1) < 3 {
        sat_sub16(cur.spec_armies(from), 1)
    } else {
        3u16
    })
    &&& max_dice > 0
}

/// A legal fortify option: an owned source with spare armies and a distinct
/// owned destination connected through owned territories.
pub open spec fn fortify_action_ok(g: Game, from: Seq<char>, to: Seq<char>, max: u16) -> bool {
    let cur = g.players@[g.current_turn as int];
    &&& cur.spec_owns(from)
    &&& to != from
    &&& node_ok(g.board, cur, from, to)
    &&& max == sat_sub16(cur.spec_armies(from), 1)
    &&& max > 0
}

/// The single pending post-conquest move, when one is recorded.
pub open spec fn move_action_ok(g: Game, from: Seq<char>, to: Seq<char>, max: u16, min: u16) -> bool {
    &&& g.last_attack_from matches Some(f) && f@ == from
    &&& g.last_attack_to matches Some(t) && t@ == to
    &&& g.last_attack_dice == Some(min)
    &&& max == sat_sub16(g.players@[g.current_turn as int].spec_armies(from), 1)
}

/// The complete legality judgement of the enumerator: which action models
/// the current phase offers.
pub open spec fn spec_action_legal(g: Game, m: ActionModel) -> bool {
    match m {
        ActionModel::Reinforce { territory, max_armies } => g.turn_phase == TurnPhase::Reinforce
            && reinforce_action_ok(g, territory, max_armies),
        ActionModel::TradeCards { card_indices } => g.turn_phase == TurnPhase::Reinforce
            && trade_action_ok(g, card_indices),
        ActionModel::Attack { from, to, max_dice } => g.turn_phase == TurnPhase::Attack
            && attack_action_ok(g, from, to, max_dice),
        ActionModel::Fortify { from, to, max_armies } => g.turn_phase == TurnPhase::Fortify
            && fortify_action_ok(g, from, to, max_armies),
        ActionModel::MoveArmies { from, to, max_armies, min_armies } => g.turn_phase
            == TurnPhase::MoveArmies && move_action_ok(g, from, to, max_armies, min_armies),
        ActionModel::EndPhase => (g.turn_phase == TurnPhase::Reinforce && g.reinforcement_armies
            == 0 && g.players@[g.current_turn as int].cards@.len() < 5) || g.turn_phase
            == TurnPhase::Attack || g.turn_phase == TurnPhase::Fortify,
    }
}

/// The three indices as a sequence.
pub open spec fn index_triple(a: usize, b: usize, c: usize) -> Seq<usize> {
    seq![a, b, c]
}

/// Relies on itertools' `combinations` over `0..n`: it yields every strictly
/// increasing index triple below `n`, each exactly once.
#[verifier::external_body]
fn index_combinations3(n: usize) -> (r: Vec<Vec<usize>>)
    ensures
        forall|k: int|
            0 <= k < r@.len() ==> {
                let c = (#[trigger] r@[k])@;
                c.len() == 3 && c[0] < c[1] && c[1] < c[2] && c[2] < n
            },
        forall|a: usize, b: usize, c: usize|
            a < b && b < c && c < n ==> exists|k: int|
                0 <= k < r@.len() && (#[trigger] r@[k])@ == #[trigger] index_triple(a, b, c),
        forall|k1: int, k2: int| 0 <= k1 < k2 < r@.len() ==> r@[k1]@ != r@[k2]@,
{
    (0..n).combinations(3).collect()
}

impl Game {
    /// One reinforcement offer per owned territory, while armies remain.
    fn get_possible_reinforcements(&self) -> (r: Vec<Action>)
        requires
            self.wf(),
        ensures
            forall|k: int|
                0 <= k < r@.len() ==> (action_model(#[trigger] r@[k]) matches ActionModel::Reinforce {
                    territory,
                    max_armies,
                } && reinforce_action_ok(*self, territory, max_armies)),
            forall|t: Seq<char>, max: u16|
                reinforce_action_ok(*self, t, max) ==> offers(
                    r@,
                    ActionModel::Reinforce { territory: t, max_armies: max },
                ),
            forall|k1: int, k2: int|
                0 <= k1 < k2 < r@.len() ==> action_model(r@[k1]) != action_model(r@[k2]),
    {
        let mut r: Vec<Action> = Vec::new();
        if self.reinforcement_armies != 0 {
            let player = &self.players[self.current_turn];
            let mut i: usize = 0;
            while i < player.territories.len()
                invariant
                    self.wf(),
                    self.reinforcement_armies != 0,
                    player == self.players@[self.current_turn as int],
                    0 <= i <= player.territories@.len(),
                    forall|k: int|
                        0 <= k < r@.len() ==> (action_model(#[trigger] r@[k])
                            matches ActionModel::Reinforce { territory, max_armies }
                            && reinforce_action_ok(*self, territory, max_armies)),
                    forall|ti: int|
                        0 <= ti < i ==> offers(
                            r@,
                            ActionModel::Reinforce {
                                territory: player.territories@[ti]@,
                                max_armies: self.reinforcement_armies,
                            },
                        ),
                    r@.len() == i,
                    forall|k: int|
                        0 <= k < i ==> action_model(#[trigger] r@[k]) == (ActionModel::Reinforce {
                            territory: player.territories@[k]@,
                            max_armies: self.reinforcement_armies,
                        }),
                decreases player.territories@.len() - i,
            {
                let ghost r0 = r@;
                r.push(Action::Reinforce {
                    territory: player.territories[i].clone(),
                    max_armies: self.reinforcement_armies,
                });
                proof {
                    assert(action_model(r@[r@.len() - 1]) == ActionModel::Reinforce {
                        territory: player.territories@[i as int]@,
                        max_armies: self.reinforcement_armies,
                    });
                    assert forall|k: int| 0 <= k < r@.len() implies (action_model(
                        #[trigger] r@[k],
                    ) matches ActionModel::Reinforce { territory, max_armies }
                        && reinforce_action_ok(*self, territory, max_armies)) by {
                        if k < r@.len() - 1 {
                            assert(r@[k] == r0[k]);
                        }
                    }
                    assert forall|ti: int| 0 <= ti < i + 1 implies offers(
                        r@,
                        ActionModel::Reinforce {
                            territory: player.territories@[ti]@,
                            max_armies: self.reinforcement_armies,
                        },
                    ) by {
                        if ti < i {
                            let k = choose|k: int|
                                0 <= k < r0.len() && action_model(r0[k])
                                    == ActionModel::Reinforce {
                                    territory: player.territories@[ti]@,
                                    max_armies: self.reinforcement_armies,
                                };
                            assert(r@[k] == r0[k]);
                        } else {
                            assert(action_model(r@[r@.len() - 1]) == ActionModel::Reinforce {
                                territory: player.territories@[ti]@,
                                max_armies: self.reinforcement_armies,
                            });
                        }
                    }
                }
                i = i + 1;
            }
            proof {
                assert forall|t: Seq<char>, max: u16| reinforce_action_ok(*self, t, max) implies
                offers(r@, ActionModel::Reinforce { territory: t, max_armies: max }) by {
                    let ti = choose|ti: int|
                        0 <= ti < player.territories@.len() && player.territories@[ti]@ == t;
                    assert(offers(
                        r@,
                        ActionModel::Reinforce {
                            territory: player.territories@[ti]@,
                            max_armies: self.reinforcement_armies,
                        },
                    ));
                }
                assert forall|k1: int, k2: int| 0 <= k1 < k2 < r@.len() implies action_model(
                    r@[k1],
                ) != action_model(r@[k2]) by {
                    assert(player.territories@[k1]@ != player.territories@[k2]@);
                }
            }
        }
        r
    }

    /// Every distinct, order-independent, valid three-card trade offer.
    fn get_possible_trades(&self) -> (r: Vec<Action>)
        requires
            self.wf(),
        ensures
            forall|k: int|
                0 <= k < r@.len() ==> (action_model(#[trigger] r@[k])
                    matches ActionModel::TradeCards { card_indices } && trade_action_ok(
                    *self,
                    card_indices,
                )),
            forall|ix: Seq<usize>|
                trade_action_ok(*self, ix) ==> offers(r@, ActionModel::TradeCards { card_indices: ix }),
            forall|k1: int, k2: int|
                0 <= k1 < k2 < r@.len() ==> action_model(r@[k1]) != action_model(r@[k2]),
    {
        let mut r: Vec<Action> = Vec::new();
        let player = &self.players[self.current_turn];
        let n = player.cards.len();
        if n < 3 {
            proof {
                assert forall|ix: Seq<usize>| trade_action_ok(*self, ix) implies offers(
                    r@,
                    ActionModel::TradeCards { card_indices: ix },
                ) by {
                    assert(ix[2] < n);
                }
            }
            return r;
        }
        let combos = index_combinations3(n);
        let mut c: usize = 0;
        while c < combos.len()
            invariant
                self.wf(),
                player == self.players@[self.current_turn as int],
                n == player.cards@.len(),
                0 <= c <= combos@.len(),
                forall|k: int|
                    0 <= k < combos@.len() ==> {
                        let cc = (#[trigger] combos@[k])@;
                        cc.len() == 3 && cc[0] < cc[1] && cc[1] < cc[2] && cc[2] < n
                    },
                forall|k1: int, k2: int| 0 <= k1 < k2 < combos@.len() ==> combos@[k1]@ != combos@[k2]@,
                forall|k: int|
                    0 <= k < r@.len() ==> (action_model(#[trigger] r@[k])
                        matches ActionModel::TradeCards { card_indices } && trade_action_ok(
                        *self,
                        card_indices,
                    )),
                forall|k: int|
                    0 <= k < c && trade_action_ok(*self, (#[trigger] combos@[k])@) ==> offers(
                        r@,
                        ActionModel::TradeCards { card_indices: combos@[k]@ },
                    ),
                forall|k: int|
                    0 <= k < r@.len() ==> exists|cc: int|
                        0 <= cc < c && action_model(#[trigger] r@[k]) == (ActionModel::TradeCards {
                            card_indices: combos@[cc]@,
                        }),
                forall|k1: int, k2: int|
                    0 <= k1 < k2 < r@.len() ==> action_model(r@[k1]) != action_model(r@[k2]),
            decreases combos@.len() - c,
        {
            let ghost r0 = r@;
            let combo = &combos[c];
            let i0 = combo[0];
            let i1 = combo[1];
            let i2 = combo[2];
            let mut kinds: Vec<CardKind> = Vec::new();
            kinds.push(player.cards[i0].kind);
            kinds.push(player.cards[i1].kind);
            kinds.push(player.cards[i2].kind);
            proof {
                assert(kinds@ =~= seq![
                    player.cards@[i0 as int].kind,
                    player.cards@[i1 as int].kind,
                    player.cards@[i2 as int].kind,
                ]);
            }
            let pushed = if self.is_valid_trade(&kinds) {
                let mut ix: Vec<usize> = Vec::new();
                ix.push(i0);
                ix.push(i1);
                ix.push(i2);
                proof {
                    assert(ix@ =~= combo@);
                }
                r.push(Action::TradeCards { card_indices: ix });
                true
            } else {
                false
            };
            proof {
                if pushed {
                    assert(action_model(r@[r@.len() - 1]) == ActionModel::TradeCards {
                        card_indices: combo@,
                    });
                    assert(trade_action_ok(*self, combo@));
                }
                assert forall|k: int| 0 <= k < r@.len() implies (action_model(#[trigger] r@[k])
                    matches ActionModel::TradeCards { card_indices } && trade_action_ok(
                    *self,
                    card_indices,
                )) by {
                    if k < r0.len() {
                        assert(r@[k] == r0[k]);
                    }
                }
                assert forall|k: int| 0 <= k < r@.len() implies exists|cc: int|
                    0 <= cc < c + 1 && action_model(#[trigger] r@[k]) == (ActionModel::TradeCards {
                        card_indices: combos@[cc]@,
                    }) by {
                    if k < r0.len() {
                        assert(r@[k] == r0[k]);
                        let cc = choose|cc: int|
                            0 <= cc < c && action_model(r0[k]) == (ActionModel::TradeCards {
                                card_indices: combos@[cc]@,
                            });
                        assert(0 <= cc < c + 1 && action_model(r@[k]) == (ActionModel::TradeCards {
                            card_indices: combos@[cc]@,
                        }));
                    } else {
                        assert(pushed);
                        assert(action_model(r@[k]) == (ActionModel::TradeCards {
                            card_indices: combos@[c as int]@,
                        }));
                    }
                }
                assert forall|k1: int, k2: int| 0 <= k1 < k2 < r@.len() implies action_model(
                    r@[k1],
                ) != action_model(r@[k2]) by {
                    if k2 < r0.len() {
                        assert(r@[k1] == r0[k1] && r@[k2] == r0[k2]);
                    } else {
                        assert(pushed);
                        assert(r@[k1] == r0[k1]);
                        let cc = choose|cc: int|
                            0 <= cc < c && action_model(r0[k1]) == (ActionModel::TradeCards {
                                card_indices: combos@[cc]@,
                            });
                        assert(combos@[cc]@ != combos@[c as int]@);
                        assert(action_model(r@[k2]) == (ActionModel::TradeCards {
                            card_indices: combos@[c as int]@,
                        }));
                    }
                }
                assert forall|k: int|
                    0 <= k < c + 1 && trade_action_ok(*self, (#[trigger] combos@[k])@) implies
                offers(r@, ActionModel::TradeCards { card_indices: combos@[k]@ }) by {
                    if k < c {
                        let j = choose|j: int|
                            0 <= j < r0.len() && action_model(r0[j]) == ActionModel::TradeCards {
                                card_indices: combos@[k]@,
                            };
                        assert(r@[j] == r0[j]);
                    } else {
                        assert(combos@[k]@ == combo@);
                        assert(trade_action_ok(*self, combo@));
                        assert(pushed);
                        assert(action_model(r@[r@.len() - 1]) == ActionModel::TradeCards {
                            card_indices: combos@[k]@,
                        });
                    }
                }
            }
            c = c + 1;
        }
        proof {
            assert forall|ix: Seq<usize>| trade_action_ok(*self, ix) implies offers(
                r@,
                ActionModel::TradeCards { card_indices: ix },
            ) by {
                assert(ix =~= index_triple(ix[0], ix[1], ix[2]));
                let k = choose|k: int|
                    0 <= k < combos@.len() && (#[trigger] combos@[k])@ == index_triple(
                        ix[0],
                        ix[1],
                        ix[2],
                    );
                assert(trade_action_ok(*self, combos@[k]@));
            }
        }
        r
    }

    /// Every attack option: owned territory with spare armies against each
    /// adjacent territory not owned by the player — and the explicit end of
    /// the phase.
    fn get_possible_attacks(&self) -> (r: Vec<Action>)
        requires
            self.wf(),
        ensures
            forall|k: int|
                0 <= k < r@.len() ==> (action_model(#[trigger] r@[k]) == ActionModel::EndPhase || (
                action_model(r@[k]) matches ActionModel::Attack { from, to, max_dice }
                    && attack_action_ok(*self, from, to, max_dice))),
            forall|from: Seq<char>, to: Seq<char>, max: u16|
                attack_action_ok(*self, from, to, max) ==> offers(
                    r@,
                    ActionModel::Attack { from, to, max_dice: max },
                ),
            offers(r@, ActionModel::EndPhase),
            forall|k1: int, k2: int|
                0 <= k1 < k2 < r@.len() ==> action_model(r@[k1]) != action_model(r@[k2]),
    {
        let mut r: Vec<Action> = Vec::new();
        let player = &self.players[self.current_turn];
        let mut i: usize = 0;
        while i < player.territories.len()
            invariant
                self.wf(),
                player == self.players@[self.current_turn as int],
                0 <= i <= player.territories@.len(),
                forall|k: int|
                    0 <= k < r@.len() ==> (action_model(#[trigger] r@[k])
                        matches ActionModel::Attack { from, to, max_dice } && attack_action_ok(
                        *self,
                        from,
                        to,
                        max_dice,
                    )),
                forall|ti: int, to: Seq<char>, max: u16|
                    #![trigger attack_action_ok(*self, player.territories@[ti]@, to, max)]
                    0 <= ti < i && attack_action_ok(
                        *self,
                        player.territories@[ti]@,
                        to,
                        max,
                    ) ==> offers(
                        r@,
                        ActionModel::Attack { from: player.territories@[ti]@, to, max_dice: max },
                    ),
                forall|k: int|
                    0 <= k < r@.len() ==> exists|tip: int|
                        0 <= tip < i && model_from(action_model(#[trigger] r@[k]))
                            == player.territories@[tip]@,
                forall|k1: int, k2: int|
                    0 <= k1 < k2 < r@.len() ==> action_model(r@[k1]) != action_model(r@[k2]),
            decreases player.territories@.len() - i,
        {
            let ghost r_base = r@;
            let from_name = &player.territories[i];
            let armies = player.get_armies(from_name.as_str());
            let spare: u16 = if armies >= 1 {
                armies - 1
            } else {
                0
            };
            let max_dice: u16 = if spare < 3 {
                spare
            } else {
                3
            };
            match self.board.get_territory(from_name.as_str()) {
                Some(t) => {
                    let ghost terr = *t;
                    let adj = &t.adjacent_territories;
                    let mut j: usize = 0;
                    while j < adj.len()
                        invariant
                            self.wf(),
                            player == self.players@[self.current_turn as int],
                            0 <= i < player.territories@.len(),
                            from_name == player.territories@[i as int],
                            terr == self.board.spec_territory(from_name@),
                            self.board.spec_has_territory(from_name@),
                            adj@ == terr.adjacent_territories@,
                            0 <= j <= adj@.len(),
                            max_dice == (if sat_sub16(player.spec_armies(from_name@), 1) < 3 {
                                sat_sub16(player.spec_armies(from_name@), 1)
                            } else {
                                3u16
                            }),
                            forall|k: int|
                                0 <= k < r@.len() ==> (action_model(#[trigger] r@[k])
                                    matches ActionModel::Attack { from, to, max_dice }
                                    && attack_action_ok(*self, from, to, max_dice)),
                            forall|ti: int, to: Seq<char>, max: u16|
                                #![trigger attack_action_ok(*self, player.territories@[ti]@, to, max)]
                                0 <= ti < i && attack_action_ok(
                                    *self,
                                    player.territories@[ti]@,
                                    to,
                                    max,
                                ) ==> offers(
                                    r@,
                                    ActionModel::Attack {
                                        from: player.territories@[ti]@,
                                        to,
                                        max_dice: max,
                                    },
                                ),
                            forall|aj: int|
                                0 <= aj < j && attack_action_ok(
                                    *self,
                                    from_name@,
                                    (#[trigger] adj@[aj])@,
                                    max_dice,
                                ) ==> offers(
                                    r@,
                                    ActionModel::Attack {
                                        from: from_name@,
                                        to: adj@[aj]@,
                                        max_dice,
                                    },
                                ),
                            r_base.len() <= r@.len(),
                            forall|k: int| 0 <= k < r_base.len() ==> #[trigger] r@[k] == r_base[k],
                            forall|k: int|
                                0 <= k < r_base.len() ==> exists|tip: int|
                                    0 <= tip < i && model_from(action_model(#[trigger] r@[k]))
                                        == player.territories@[tip]@,
                            forall|k: int|
                                r_base.len() <= k < r@.len() ==> model_from(action_model(
                                    #[trigger] r@[k],
                                )) == from_name@ && exists|ajp: int|
                                    0 <= ajp < j && model_to(action_model(r@[k])) == adj@[ajp]@,
                            forall|k1: int, k2: int|
                                0 <= k1 < k2 < r@.len() ==> action_model(r@[k1]) != action_model(
                                    r@[k2],
                                ),
                        decreases adj@.len() - j,
                    {
                        let ghost r0 = r@;
                        let to_name = &adj[j];
                        let pushed = if !crate::names::contains_name(
                            &player.territories,
                            to_name.as_str(),
                        ) && max_dice > 0 {
                            r.push(Action::Attack {
                                from: from_name.clone(),
                                to: to_name.clone(),
                                max_dice,
                            });
                            true
                        } else {
                            false
                        };
                        proof {
                            if pushed {
                                assert(action_model(r@[r@.len() - 1]) == ActionModel::Attack {
                                    from: from_name@,
                                    to: to_name@,
                                    max_dice,
                                });
                                assert(terr.wf());
                                assert forall|k1: int, k2: int|
                                    0 <= k1 < k2 < r@.len() implies action_model(r@[k1])
                                    != action_model(r@[k2]) by {
                                    if k2 == r@.len() - 1 {
                                        if k1 < r_base.len() {
                                            let tip = choose|tip: int|
                                                0 <= tip < i && model_from(action_model(r0[k1]))
                                                    == player.territories@[tip]@;
                                            assert(player.territories@[tip]@ != from_name@);
                                        } else {
                                            let ajp = choose|ajp: int|
                                                0 <= ajp < j && model_to(action_model(r0[k1]))
                                                    == adj@[ajp]@;
                                            assert(adj@[ajp]@ != adj@[j as int]@);
                                        }
                                    } else {
                                        assert(r@[k1] == r0[k1] && r@[k2] == r0[k2]);
                                    }
                                }
                            }
                            assert forall|k: int|
                                r_base.len() <= k < r@.len() implies model_from(action_model(
                                #[trigger] r@[k],
                            )) == from_name@ && exists|ajp: int|
                                0 <= ajp < j + 1 && model_to(action_model(r@[k]))
                                    == adj@[ajp]@ by {
                                if k < r0.len() {
                                    assert(r@[k] == r0[k]);
                                    let ajp = choose|ajp: int|
                                        0 <= ajp < j && model_to(action_model(r0[k]))
                                            == adj@[ajp]@;
                                    assert(0 <= ajp < j + 1 && model_to(action_model(r@[k]))
                                        == adj@[ajp]@);
                                } else {
                                    assert(model_to(action_model(r@[k])) == adj@[j as int]@);
                                }
                            }
                            assert forall|ti: int, to: Seq<char>, max: u16|
                                #![trigger attack_action_ok(*self, player.territories@[ti]@, to, max)]
                                0 <= ti < i && attack_action_ok(
                                    *self,
                                    player.territories@[ti]@,
                                    to,
                                    max,
                                ) implies offers(
                                r@,
                                ActionModel::Attack {
                                    from: player.territories@[ti]@,
                                    to,
                                    max_dice: max,
                                },
                            ) by {
                                let m = ActionModel::Attack {
                                    from: player.territories@[ti]@,
                                    to,
                                    max_dice: max,
                                };
                                let k = choose|k: int|
                                    0 <= k < r0.len() && action_model(r0[k]) == m;
                                assert(r@[k] == r0[k]);
                            }
                            assert forall|aj: int|
                                0 <= aj < j + 1 && attack_action_ok(
                                    *self,
                                    from_name@,
                                    (#[trigger] adj@[aj])@,
                                    max_dice,
                                ) implies offers(
                                r@,
                                ActionModel::Attack { from: from_name@, to: adj@[aj]@, max_dice },
                            ) by {
                                let m = ActionModel::Attack {
                                    from: from_name@,
                                    to: adj@[aj]@,
                                    max_dice,
                                };
                                if aj < j {
                                    let k = choose|k: int|
                                        0 <= k < r0.len() && action_model(r0[k]) == m;
                                    assert(r@[k] == r0[k]);
                                } else {
                                    assert(adj@[aj] == *to_name);
                                    assert(pushed);
                                    assert(action_model(r@[r@.len() - 1]) == m);
                                }
                            }
                        }
                        j = j + 1;
                    }
                },
                None => {},
            }
            proof {
                assert forall|ti: int, to: Seq<char>, max: u16|
                    #![trigger attack_action_ok(*self, player.territories@[ti]@, to, max)]
                    0 <= ti < i + 1 && attack_action_ok(
                        *self,
                        player.territories@[ti]@,
                        to,
                        max,
                    ) implies offers(
                    r@,
                    ActionModel::Attack { from: player.territories@[ti]@, to, max_dice: max },
                ) by {
                    if ti == i {
                        assert(player.territories@[ti]@ == from_name@);
                        let adjs = self.board.spec_territory(from_name@).adjacent_territories@;
                        let aj = choose|aj: int| 0 <= aj < adjs.len() && adjs[aj]@ == to;
                        assert(attack_action_ok(*self, from_name@, adjs[aj]@, max));
                    }
                }
                assert forall|k: int| 0 <= k < r@.len() implies exists|tip: int|
                    0 <= tip < i + 1 && model_from(action_model(#[trigger] r@[k]))
                        == player.territories@[tip]@ by {
                    if k < r_base.len() {
                        let tip = choose|tip: int|
                            0 <= tip < i && model_from(action_model(r@[k]))
                                == player.territories@[tip]@;
                        assert(0 <= tip < i + 1 && model_from(action_model(r@[k]))
                            == player.territories@[tip]@);
                    } else {
                        assert(model_from(action_model(r@[k])) == player.territories@[i as int]@);
                    }
                }
            }
            i = i + 1;
        }
        let ghost r1 = r@;
        r.push(Action::EndPhase);
        proof {
            assert(action_model(r@[r@.len() - 1]) == ActionModel::EndPhase);
            assert forall|k1: int, k2: int| 0 <= k1 < k2 < r@.len() implies action_model(r@[k1])
                != action_model(r@[k2]) by {
                if k2 == r@.len() - 1 {
                    assert(r@[k1] == r1[k1]);
                } else {
                    assert(r@[k1] == r1[k1] && r@[k2] == r1[k2]);
                }
            }
            assert forall|from: Seq<char>, to: Seq<char>, max: u16|
                attack_action_ok(*self, from, to, max) implies offers(
                r@,
                ActionModel::Attack { from, to, max_dice: max },
            ) by {
                let ti = choose|ti: int|
                    0 <= ti < self.players@[self.current_turn as int].territories@.len()
                        && self.players@[self.current_turn as int].territories@[ti]@ == from;
                assert(offers(
                    r1,
                    ActionModel::Attack {
                        from: self.players@[self.current_turn as int].territories@[ti]@,
                        to,
                        max_dice: max,
                    },
                ));
                let k = choose|k: int|
                    0 <= k < r1.len() && action_model(r1[k]) == ActionModel::Attack {
                        from,
                        to,
                        max_dice: max,
                    };
                assert(r@[k] == r1[k]);
            }
        }
        r
    }

    /// Every fortify option: for each owned source with spare armies, each
    /// distinct owned territory reachable through owned land — and the
    /// explicit end of the phase.
    fn get_possible_fortifications(&self) -> (r: Vec<Action>)
        requires
            self.wf(),
        ensures
            forall|k: int|
                0 <= k < r@.len() ==> (action_model(#[trigger] r@[k]) == ActionModel::EndPhase || (
                action_model(r@[k]) matches ActionModel::Fortify { from, to, max_armies }
                    && fortify_action_ok(*self, from, to, max_armies))),
            forall|from: Seq<char>, to: Seq<char>, max: u16|
                fortify_action_ok(*self, from, to, max) ==> offers(
                    r@,
                    ActionModel::Fortify { from, to, max_armies: max },
                ),
            offers(r@, ActionModel::EndPhase),
            forall|k1: int, k2: int|
                0 <= k1 < k2 < r@.len() ==> action_model(r@[k1]) != action_model(r@[k2]),
    {
        let mut r: Vec<Action> = Vec::new();
        let player = &self.players[self.current_turn];
        let mut i: usize = 0;
        while i < player.territories.len()
            invariant
                self.wf(),
                player == self.players@[self.current_turn as int],
                0 <= i <= player.territories@.len(),
                forall|k: int|
                    0 <= k < r@.len() ==> (action_model(#[trigger] r@[k])
                        matches ActionModel::Fortify { from, to, max_armies } && fortify_action_ok(
                        *self,
                        from,
                        to,
                        max_armies,
                    )),
                forall|ti: int, to: Seq<char>, max: u16|
                    #![trigger fortify_action_ok(*self, player.territories@[ti]@, to, max)]
                    0 <= ti < i && fortify_action_ok(
                        *self,
                        player.territories@[ti]@,
                        to,
                        max,
                    ) ==> offers(
                        r@,
                        ActionModel::Fortify { from: player.territories@[ti]@, to, max_armies: max },
                    ),
                forall|k: int|
                    0 <= k < r@.len() ==> exists|tip: int|
                        0 <= tip < i && model_from(action_model(#[trigger] r@[k]))
                            == player.territories@[tip]@,
                forall|k1: int, k2: int|
                    0 <= k1 < k2 < r@.len() ==> action_model(r@[k1]) != action_model(r@[k2]),
            decreases player.territories@.len() - i,
        {
            let ghost r_base = r@;
            let from_name = &player.territories[i];
            let armies = player.get_armies(from_name.as_str());
            let spare: u16 = if armies >= 1 {
                armies - 1
            } else {
                0
            };
            if spare > 0 {
                let reach = crate::connect::reachable_set(&self.board, player, from_name.as_str());
                let mut j: usize = 0;
                while j < reach.len()
                    invariant
                        self.wf(),
                        player == self.players@[self.current_turn as int],
                        0 <= i < player.territories@.len(),
                        from_name == player.territories@[i as int],
                        spare == sat_sub16(player.spec_armies(from_name@), 1),
                        spare > 0,
                        0 <= j <= reach@.len(),
                        crate::names::distinct_names(reach@),
                        forall|x: Seq<char>|
                            #[trigger] has_name(reach@, x) <==> node_ok(
                                self.board,
                                *player,
                                from_name@,
                                x,
                            ),
                        forall|k: int|
                            0 <= k < r@.len() ==> (action_model(#[trigger] r@[k])
                                matches ActionModel::Fortify { from, to, max_armies }
                                && fortify_action_ok(*self, from, to, max_armies)),
                        forall|ti: int, to: Seq<char>, max: u16|
                            #![trigger fortify_action_ok(*self, player.territories@[ti]@, to, max)]
                            0 <= ti < i && fortify_action_ok(
                                *self,
                                player.territories@[ti]@,
                                to,
                                max,
                            ) ==> offers(
                                r@,
                                ActionModel::Fortify {
                                    from: player.territories@[ti]@,
                                    to,
                                    max_armies: max,
                                },
                            ),
                        forall|rj: int|
                            0 <= rj < j && (#[trigger] reach@[rj])@ != from_name@ ==> offers(
                                r@,
                                ActionModel::Fortify {
                                    from: from_name@,
                                    to: reach@[rj]@,
                                    max_armies: spare,
                                },
                            ),
                        r_base.len() <= r@.len(),
                        forall|k: int| 0 <= k < r_base.len() ==> #[trigger] r@[k] == r_base[k],
                        forall|k: int|
                            0 <= k < r_base.len() ==> exists|tip: int|
                                0 <= tip < i && model_from(action_model(#[trigger] r@[k]))
                                    == player.territories@[tip]@,
                        forall|k: int|
                            r_base.len() <= k < r@.len() ==> model_from(action_model(
                                #[trigger] r@[k],
                            )) == from_name@ && exists|rjp: int|
                                0 <= rjp < j && model_to(action_model(r@[k])) == reach@[rjp]@,
                        forall|k1: int, k2: int|
                            0 <= k1 < k2 < r@.len() ==> action_model(r@[k1]) != action_model(
                                r@[k2],
                            ),
                    decreases reach@.len() - j,
                {
                    let ghost r0 = r@;
                    let to_name = &reach[j];
                    let pushed = if !crate::names::str_eq(to_name.as_str(), from_name.as_str()) {
                        proof {
                            assert(has_name(reach@, to_name@));
                        }
                        r.push(Action::Fortify {
                            from: from_name.clone(),
                            to: to_name.clone(),
                            max_armies: spare,
                        });
                        true
                    } else {
                        false
                    };
                    proof {
                        if pushed {
                            assert(action_model(r@[r@.len() - 1]) == ActionModel::Fortify {
                                from: from_name@,
                                to: to_name@,
                                max_armies: spare,
                            });
                            assert forall|k1: int, k2: int|
                                0 <= k1 < k2 < r@.len() implies action_model(r@[k1])
                                != action_model(r@[k2]) by {
                                if k2 == r@.len() - 1 {
                                    if k1 < r_base.len() {
                                        let tip = choose|tip: int|
                                            0 <= tip < i && model_from(action_model(r0[k1]))
                                                == player.territories@[tip]@;
                                        assert(player.territories@[tip]@ != from_name@);
                                    } else {
                                        let rjp = choose|rjp: int|
                                            0 <= rjp < j && model_to(action_model(r0[k1]))
                                                == reach@[rjp]@;
                                        assert(reach@[rjp]@ != reach@[j as int]@);
                                    }
                                } else {
                                    assert(r@[k1] == r0[k1] && r@[k2] == r0[k2]);
                                }
                            }
                        }
                        assert forall|k: int|
                            r_base.len() <= k < r@.len() implies model_from(action_model(
                            #[trigger] r@[k],
                        )) == from_name@ && exists|rjp: int|
                            0 <= rjp < j + 1 && model_to(action_model(r@[k]))
                                == reach@[rjp]@ by {
                            if k < r0.len() {
                                assert(r@[k] == r0[k]);
                                let rjp = choose|rjp: int|
                                    0 <= rjp < j && model_to(action_model(r0[k])) == reach@[rjp]@;
                                assert(0 <= rjp < j + 1 && model_to(action_model(r@[k]))
                                    == reach@[rjp]@);
                            } else {
                                assert(model_to(action_model(r@[k])) == reach@[j as int]@);
                            }
                        }
                        assert forall|ti: int, to: Seq<char>, max: u16|
                            #![trigger fortify_action_ok(*self, player.territories@[ti]@, to, max)]
                            0 <= ti < i && fortify_action_ok(
                                *self,
                                player.territories@[ti]@,
                                to,
                                max,
                            ) implies offers(
                            r@,
                            ActionModel::Fortify {
                                from: player.territories@[ti]@,
                                to,
                                max_armies: max,
                            },
                        ) by {
                            let m = ActionModel::Fortify {
                                from: player.territories@[ti]@,
                                to,
                                max_armies: max,
                            };
                            let k = choose|k: int| 0 <= k < r0.len() && action_model(r0[k]) == m;
                            assert(r@[k] == r0[k]);
                        }
                        assert forall|rj: int|
                            0 <= rj < j + 1 && (#[trigger] reach@[rj])@ != from_name@ implies
                        offers(
                            r@,
                            ActionModel::Fortify {
                                from: from_name@,
                                to: reach@[rj]@,
                                max_armies: spare,
                            },
                        ) by {
                            let m = ActionModel::Fortify {
                                from: from_name@,
                                to: reach@[rj]@,
                                max_armies: spare,
                            };
                            if rj < j {
                                let k = choose|k: int|
                                    0 <= k < r0.len() && action_model(r0[k]) == m;
                                assert(r@[k] == r0[k]);
                            } else {
                                assert(reach@[rj] == *to_name);
                                assert(pushed);
                                assert(action_model(r@[r@.len() - 1]) == m);
                            }
                        }
                    }
                    j = j + 1;
                }
                proof {
                    assert forall|to: Seq<char>, max: u16|
                        fortify_action_ok(*self, from_name@, to, max) implies offers(
                        r@,
                        ActionModel::Fortify { from: from_name@, to, max_armies: max },
                    ) by {
                        assert(node_ok(self.board, *player, from_name@, to));
                        assert(has_name(reach@, to));
                        let rj = choose|rj: int| 0 <= rj < reach@.len() && reach@[rj]@ == to;
                        assert(offers(
                            r@,
                            ActionModel::Fortify {
                                from: from_name@,
                                to: reach@[rj]@,
                                max_armies: spare,
                            },
                        ));
                    }
                }
            }
            proof {
                assert forall|ti: int, to: Seq<char>, max: u16|
                    #![trigger fortify_action_ok(*self, player.territories@[ti]@, to, max)]
                    0 <= ti < i + 1 && fortify_action_ok(
                        *self,
                        player.territories@[ti]@,
                        to,
                        max,
                    ) implies offers(
                    r@,
                    ActionModel::Fortify { from: player.territories@[ti]@, to, max_armies: max },
                ) by {
                    if ti == i {
                        assert(player.territories@[ti]@ == from_name@);
                        assert(fortify_action_ok(*self, from_name@, to, max));
                        assert(max == sat_sub16(player.spec_armies(from_name@), 1) && max > 0);
                        assert(spare == sat_sub16(player.spec_armies(from_name@), 1));
                    }
                }
                assert forall|k: int| 0 <= k < r@.len() implies exists|tip: int|
                    0 <= tip < i + 1 && model_from(action_model(#[trigger] r@[k]))
                        == player.territories@[tip]@ by {
                    if k < r_base.len() {
                        let tip = choose|tip: int|
                            0 <= tip < i && model_from(action_model(r@[k]))
                                == player.territories@[tip]@;
                        assert(0 <= tip < i + 1 && model_from(action_model(r@[k]))
                            == player.territories@[tip]@);
                    } else {
                        assert(model_from(action_model(r@[k])) == player.territories@[i as int]@);
                    }
                }
            }
            i = i + 1;
        }
        let ghost r1 = r@;
        r.push(Action::EndPhase);
        proof {
            assert(action_model(r@[r@.len() - 1]) == ActionModel::EndPhase);
            assert forall|k1: int, k2: int| 0 <= k1 < k2 < r@.len() implies action_model(r@[k1])
                != action_model(r@[k2]) by {
                if k2 == r@.len() - 1 {
                    assert(r@[k1] == r1[k1]);
                } else {
                    assert(r@[k1] == r1[k1] && r@[k2] == r1[k2]);
                }
            }
            assert forall|from: Seq<char>, to: Seq<char>, max: u16|
                fortify_action_ok(*self, from, to, max) implies offers(
                r@,
                ActionModel::Fortify { from, to, max_armies: max },
            ) by {
                let ti = choose|ti: int|
                    0 <= ti < self.players@[self.current_turn as int].territories@.len()
                        && self.players@[self.current_turn as int].territories@[ti]@ == from;
                assert(offers(
                    r1,
                    ActionModel::Fortify {
                        from: self.players@[self.current_turn as int].territories@[ti]@,
                        to,
                        max_armies: max,
                    },
                ));
                let k = choose|k: int|
                    0 <= k < r1.len() && action_model(r1[k]) == ActionModel::Fortify {
                        from,
                        to,
                        max_armies: max,
                    };
                assert(r@[k] == r1[k]);
            }
        }
        r
    }

    /// The single pending post-conquest move, when one is recorded.
    fn get_possible_army_moves(&self) -> (r: Vec<Action>)
        requires
            self.wf(),
        ensures
            (self.last_attack_from is Some && self.last_attack_to is Some && self.last_attack_dice
                is Some) ==> (r@.len() == 1 && (action_model(r@[0])
                matches ActionModel::MoveArmies { from, to, max_armies, min_armies }
                && move_action_ok(*self, from, to, max_armies, min_armies))),
            !(self.last_attack_from is Some && self.last_attack_to is Some
                && self.last_attack_dice is Some) ==> r@.len() == 0,
            r@.len() <= 1,
    {
        let mut r: Vec<Action> = Vec::new();
        match (&self.last_attack_from, &self.last_attack_to, &self.last_attack_dice) {
            (Some(from), Some(to), Some(dice)) => {
                let armies = self.players[self.current_turn].get_armies(from.as_str());
                let max_armies: u16 = if armies >= 1 {
                    armies - 1
                } else {
                    0
                };
                r.push(Action::MoveArmies {
                    from: from.clone(),
                    to: to.clone(),
                    max_armies,
                    min_armies: *dice,
                });
            },
            _ => {},
        }
        r
    }

    /// The complete list of legal actions for the current phase, with an
    /// explicit end-of-phase entry wherever progression is not automatic.
    pub fn get_possible_actions(&self) -> (r: Vec<Action>)
        requires
            self.wf(),
        ensures
            forall|m: ActionModel| #[trigger] offers(r@, m) <==> spec_action_legal(*self, m),
            forall|k1: int, k2: int|
                0 <= k1 < k2 < r@.len() ==> action_model(r@[k1]) != action_model(r@[k2]),
    {
        match self.turn_phase {
            TurnPhase::Reinforce => {
                let mut actions = self.get_possible_reinforcements();
                let ghost ra = actions@;
                let mut trades = self.get_possible_trades();
                let ghost rt = trades@;
                actions.append(&mut trades);
                let ghost rb = actions@;
                proof {
                    assert(rb == ra + rt);
                }
                let hand = self.players[self.current_turn].cards.len();
                let pushed_end = if self.reinforcement_armies == 0 && hand < 5 {
                    actions.push(Action::EndPhase);
                    true
                } else {
                    false
                };
                proof {
                    assert forall|m: ActionModel| #[trigger] offers(actions@, m) implies
                    spec_action_legal(*self, m) by {
                        let k = choose|k: int|
                            0 <= k < actions@.len() && action_model(actions@[k]) == m;
                        if k < ra.len() {
                            assert(actions@[k] == ra[k]);
                        } else if k < rb.len() {
                            assert(actions@[k] == rt[k - ra.len()]);
                        } else {
                            assert(actions@[k] == Action::EndPhase);
                            assert(pushed_end);
                        }
                    }
                    assert forall|m: ActionModel| spec_action_legal(*self, m) implies
                    #[trigger] offers(actions@, m) by {
                        match m {
                            ActionModel::Reinforce { territory, max_armies } => {
                                let k = choose|k: int|
                                    0 <= k < ra.len() && action_model(ra[k]) == m;
                                assert(actions@[k] == ra[k]);
                            },
                            ActionModel::TradeCards { card_indices } => {
                                let k = choose|k: int|
                                    0 <= k < rt.len() && action_model(rt[k]) == m;
                                assert(actions@[ra.len() + k] == rt[k]);
                            },
                            ActionModel::EndPhase => {
                                assert(pushed_end);
                                assert(action_model(actions@[actions@.len() - 1]) == m);
                            },
                            _ => {},
                        }
                    }
                    assert forall|k1: int, k2: int|
                        0 <= k1 < k2 < actions@.len() implies action_model(actions@[k1])
                        != action_model(actions@[k2]) by {
                        if k2 < ra.len() {
                            assert(actions@[k1] == ra[k1] && actions@[k2] == ra[k2]);
                        } else if k2 < rb.len() {
                            assert(actions@[k2] == rt[k2 - ra.len()]);
                            if k1 < ra.len() {
                                assert(actions@[k1] == ra[k1]);
                            } else {
                                assert(actions@[k1] == rt[k1 - ra.len()]);
                            }
                        } else {
                            assert(pushed_end);
                            assert(action_model(actions@[k2]) == ActionModel::EndPhase);
                            if k1 < ra.len() {
                                assert(actions@[k1] == ra[k1]);
                            } else {
                                assert(actions@[k1] == rt[k1 - ra.len()]);
                            }
                        }
                    }
                }
                actions
            },
            TurnPhase::Attack => {
                let r = self.get_possible_attacks();
                proof {
                    assert forall|m: ActionModel| #[trigger] offers(r@, m) implies
                    spec_action_legal(*self, m) by {
                        let k = choose|k: int| 0 <= k < r@.len() && action_model(r@[k]) == m;
                    }
                }
                r
            },
            TurnPhase::Fortify => {
                let r = self.get_possible_fortifications();
                proof {
                    assert forall|m: ActionModel| #[trigger] offers(r@, m) implies
                    spec_action_legal(*self, m) by {
                        let k = choose|k: int| 0 <= k < r@.len() && action_model(r@[k]) == m;
                    }
                }
                r
            },
            TurnPhase::MoveArmies => {
                let r = self.get_possible_army_moves();
                proof {
                    assert forall|m: ActionModel| #[trigger] offers(r@, m) implies
                    spec_action_legal(*self, m) by {
                        let k = choose|k: int| 0 <= k < r@.len() && action_model(r@[k]) == m;
                        assert(k == 0);
                    }
                    assert forall|m: ActionModel| spec_action_legal(*self, m) implies
                    #[trigger] offers(r@, m) by {
                        assert(action_model(r@[0]) == m);
                    }
                }
                r
            },
            TurnPhase::GameOver => {
                let r: Vec<Action> = Vec::new();
                r
            },
        }
    }
}


/// A currently-possible attack with its win probability: player `i` owns
/// `from` with spare armies, the board lists `to` adjacent to it, another
/// player `j` defends `to`, and `bp` is the attacker's win probability in
/// basis points.
pub open spec fn pair_entry_ok(g: Game, i: int, from: Seq<char>, to: Seq<char>, att: u16, def: u16) -> bool {
    &&& 0 <= i < g.players@.len()
    &&& g.players@[i].spec_owns(from)
    &&& att == g.players@[i].spec_armies(from)
    &&& att > 1
    &&& g.board.spec_has_territory(from)
    &&& g.board.spec_territory(from).spec_is_adjacent(to)
    &&& exists|j: int|
        0 <= j < g.players@.len() && j != i && (#[trigger] g.players@[j]).spec_owns(to) && def
            == g.players@[j].spec_armies(to)
}

/// The conquest-probability triple for an attackable pair.
pub open spec fn conquer_entry_ok(g: Game, i: int, from: Seq<char>, to: Seq<char>, bp: u16) -> bool {
    exists|att: u16, def: u16|
        #[trigger] pair_entry_ok(g, i, from, to, att, def) && bp == p_bp(att as int, def as int)
}

/// Attackability reads only the players and the board, so it transfers
/// between states that agree on them.
pub proof fn lemma_pair_entry_same(
    a: Game,
    b: Game,
    i: int,
    from: Seq<char>,
    to: Seq<char>,
    att: u16,
    def: u16,
)
    requires
        b.players == a.players,
        b.board == a.board,
        pair_entry_ok(a, i, from, to, att, def),
    ensures
        pair_entry_ok(b, i, from, to, att, def),
{
    let j = choose|j: int|
        0 <= j < a.players@.len() && j != i && (#[trigger] a.players@[j]).spec_owns(to) && def
            == a.players@[j].spec_armies(to);
    assert((#[trigger] b.players@[j]).spec_owns(to));
}

pub proof fn lemma_conquer_entry_same(a: Game, b: Game, i: int, from: Seq<char>, to: Seq<char>, bp: u16)
    requires
        b.players == a.players,
        b.board == a.board,
        conquer_entry_ok(a, i, from, to, bp),
    ensures
        conquer_entry_ok(b, i, from, to, bp),
{
    let (att, def): (u16, u16) = choose|att: u16, def: u16|
        #[trigger] pair_entry_ok(a, i, from, to, att, def) && bp == p_bp(att as int, def as int);
    lemma_pair_entry_same(a, b, i, from, to, att, def);
    assert(pair_entry_ok(b, i, from, to, att, def) && bp == p_bp(att as int, def as int));
}

/// The collected tuple describes some attackable pair.
pub open spec fn attack_pair_sound(g: Game, e: (String, String, u16, u16)) -> bool {
    exists|i: int| pair_entry_ok(g, i, e.0@, e.1@, e.2, e.3)
}

/// The reported triple describes some attackable pair with its probability.
pub open spec fn conquer_triple_sound(g: Game, e: (String, String, u16)) -> bool {
    exists|i: int| conquer_entry_ok(g, i, e.0@, e.1@, e.2)
}

impl Game {
    /// The army counts of every currently-possible attack, per attackable
    /// pair of adjacent territories with different owners.
    fn collect_attack_pairs(&self) -> (r: Vec<(String, String, u16, u16)>)
        requires
            self.wf(),
        ensures
            forall|k: int| 0 <= k < r@.len() ==> attack_pair_sound(*self, #[trigger] r@[k]),
            forall|i: int, from: Seq<char>, to: Seq<char>, att: u16, def: u16|
                #![trigger pair_entry_ok(*self, i, from, to, att, def)]
                pair_entry_ok(*self, i, from, to, att, def) ==> exists|k: int|
                    0 <= k < r@.len() && (#[trigger] r@[k]).0@ == from && r@[k].1@ == to && r@[k].2
                        == att && r@[k].3 == def,
    {
        let mut r: Vec<(String, String, u16, u16)> = Vec::new();
        let mut i: usize = 0;
        while i < self.players.len()
            invariant
                self.wf(),
                0 <= i <= self.players@.len(),
                forall|k: int| 0 <= k < r@.len() ==> attack_pair_sound(*self, #[trigger] r@[k]),
                forall|ii: int, from: Seq<char>, to: Seq<char>, att: u16, def: u16|
                    #![trigger pair_entry_ok(*self, ii, from, to, att, def)]
                    0 <= ii < i && pair_entry_ok(*self, ii, from, to, att, def) ==> exists|k: int|
                        0 <= k < r@.len() && (#[trigger] r@[k]).0@ == from && r@[k].1@ == to
                            && r@[k].2 == att && r@[k].3 == def,
            decreases self.players@.len() - i,
        {
            let player = &self.players[i];
            let mut ti: usize = 0;
            while ti < player.territories.len()
                invariant
                    self.wf(),
                    0 <= i < self.players@.len(),
                    player == self.players@[i as int],
                    0 <= ti <= player.territories@.len(),
                    forall|k: int| 0 <= k < r@.len() ==> attack_pair_sound(*self, #[trigger] r@[k]),
                    forall|ii: int, from: Seq<char>, to: Seq<char>, att: u16, def: u16|
                        #![trigger pair_entry_ok(*self, ii, from, to, att, def)]
                        0 <= ii < i && pair_entry_ok(*self, ii, from, to, att, def) ==> exists|
                            k: int,
                        |
                            0 <= k < r@.len() && (#[trigger] r@[k]).0@ == from && r@[k].1@ == to
                                && r@[k].2 == att && r@[k].3 == def,
                    forall|tii: int, to: Seq<char>, att: u16, def: u16|
                        #![trigger pair_entry_ok(*self, i as int, player.territories@[tii]@, to, att, def)]
                        0 <= tii < ti && pair_entry_ok(
                            *self,
                            i as int,
                            player.territories@[tii]@,
                            to,
                            att,
                            def,
                        ) ==> exists|k: int|
                            0 <= k < r@.len() && (#[trigger] r@[k]).0@
                                == player.territories@[tii]@ && r@[k].1@ == to && r@[k].2 == att
                                && r@[k].3 == def,
                decreases player.territories@.len() - ti,
            {
                let from_name = &player.territories[ti];
                let att_armies = player.get_armies(from_name.as_str());
                match self.board.get_territory(from_name.as_str()) {
                    Some(t) => {
                        let ghost terr = *t;
                        let adj = &t.adjacent_territories;
                        let mut aj: usize = 0;
                        while aj < adj.len()
                            invariant
                                self.wf(),
                                0 <= i < self.players@.len(),
                                player == self.players@[i as int],
                                0 <= ti < player.territories@.len(),
                                from_name == player.territories@[ti as int],
                                att_armies == player.spec_armies(from_name@),
                                terr == self.board.spec_territory(from_name@),
                                self.board.spec_has_territory(from_name@),
                                adj@ == terr.adjacent_territories@,
                                0 <= aj <= adj@.len(),
                                forall|k: int| 0 <= k < r@.len() ==> attack_pair_sound(*self, #[trigger] r@[k]),
                                forall|ii: int, from: Seq<char>, to: Seq<char>, att: u16, def: u16|
                                    #![trigger pair_entry_ok(*self, ii, from, to, att, def)]
                                    0 <= ii < i && pair_entry_ok(*self, ii, from, to, att, def)
                                        ==> exists|k: int|
                                        0 <= k < r@.len() && (#[trigger] r@[k]).0@ == from
                                            && r@[k].1@ == to && r@[k].2 == att && r@[k].3 == def,
                                forall|tii: int, to: Seq<char>, att: u16, def: u16|
                                    #![trigger pair_entry_ok(*self, i as int, player.territories@[tii]@, to, att, def)]
                                    0 <= tii < ti && pair_entry_ok(
                                        *self,
                                        i as int,
                                        player.territories@[tii]@,
                                        to,
                                        att,
                                        def,
                                    ) ==> exists|k: int|
                                        0 <= k < r@.len() && (#[trigger] r@[k]).0@
                                            == player.territories@[tii]@ && r@[k].1@ == to
                                            && r@[k].2 == att && r@[k].3 == def,
                                forall|ajj: int, att: u16, def: u16|
                                    #![trigger pair_entry_ok(*self, i as int, from_name@, adj@[ajj]@, att, def)]
                                    0 <= ajj < aj && pair_entry_ok(
                                        *self,
                                        i as int,
                                        from_name@,
                                        adj@[ajj]@,
                                        att,
                                        def,
                                    ) ==> exists|k: int|
                                        0 <= k < r@.len() && (#[trigger] r@[k]).0@ == from_name@
                                            && r@[k].1@ == adj@[ajj]@ && r@[k].2 == att && r@[k].3
                                            == def,
                            decreases adj@.len() - aj,
                        {
                            let ghost r0 = r@;
                            let to_name = &adj[aj];
                            let mut pushed = false;
                            if att_armies > 1 {
                                match self.find_owner(to_name.as_str()) {
                                    Some(j) => {
                                        if j != i {
                                            let def_armies = self.players[j].get_armies(
                                                to_name.as_str(),
                                            );
                                            r.push(
                                                (
                                                    from_name.clone(),
                                                    to_name.clone(),
                                                    att_armies,
                                                    def_armies,
                                                ),
                                            );
                                            pushed = true;
                                            proof {
                                                assert(pair_entry_ok(
                                                    *self,
                                                    i as int,
                                                    from_name@,
                                                    to_name@,
                                                    att_armies,
                                                    def_armies,
                                                ));
                                            }
                                        }
                                    },
                                    None => {},
                                }
                            }
                            proof {
                                assert forall|k: int| 0 <= k < r@.len() implies attack_pair_sound(
                                    *self,
                                    #[trigger] r@[k],
                                ) by {
                                    if k < r0.len() {
                                        assert(r@[k] == r0[k]);
                                        assert(attack_pair_sound(*self, r0[k]));
                                    } else {
                                        assert(pushed);
                                        assert(pair_entry_ok(
                                            *self,
                                            i as int,
                                            r@[k].0@,
                                            r@[k].1@,
                                            r@[k].2,
                                            r@[k].3,
                                        ));
                                    }
                                }
                                assert forall|ajj: int, att: u16, def: u16|
                                    #![trigger pair_entry_ok(*self, i as int, from_name@, adj@[ajj]@, att, def)]
                                    0 <= ajj < aj + 1 && pair_entry_ok(
                                        *self,
                                        i as int,
                                        from_name@,
                                        adj@[ajj]@,
                                        att,
                                        def,
                                    ) implies exists|k: int|
                                    0 <= k < r@.len() && (#[trigger] r@[k]).0@ == from_name@
                                        && r@[k].1@ == adj@[ajj]@ && r@[k].2 == att && r@[k].3
                                        == def by {
                                    if ajj < aj {
                                        let k = choose|k: int|
                                            0 <= k < r0.len() && (#[trigger] r0[k]).0@
                                                == from_name@ && r0[k].1@ == adj@[ajj]@ && r0[k].2
                                                == att && r0[k].3 == def;
                                        assert(r@[k] == r0[k]);
                                    } else {
                                        let j = choose|j: int|
                                            0 <= j < self.players@.len() && j != i
                                                && (#[trigger] self.players@[j]).spec_owns(
                                                adj@[ajj]@,
                                            ) && def == self.players@[j].spec_armies(adj@[ajj]@);
                                        assert(self.spec_owner_of(to_name@) is Some);
                                        let w = self.spec_owner_of(to_name@)->0;
                                        assert(self.players@[w].spec_owns(to_name@));
                                        if w < j {
                                            assert(!(self.players@[w].spec_owns(to_name@)
                                                && self.players@[j].spec_owns(to_name@)));
                                        } else if j < w {
                                            assert(!(self.players@[j].spec_owns(to_name@)
                                                && self.players@[w].spec_owns(to_name@)));
                                        }
                                        assert(w == j);
                                        assert(att == att_armies);
                                        assert(pushed);
                                        assert((r@[r@.len() - 1]).0@ == from_name@);
                                    }
                                }
                                assert forall|ii: int, from: Seq<char>, to: Seq<char>, att: u16, def: u16|
                                    #![trigger pair_entry_ok(*self, ii, from, to, att, def)]
                                    0 <= ii < i && pair_entry_ok(*self, ii, from, to, att, def)
                                        implies exists|k: int|
                                    0 <= k < r@.len() && (#[trigger] r@[k]).0@ == from && r@[k].1@
                                        == to && r@[k].2 == att && r@[k].3 == def by {
                                    let k = choose|k: int|
                                        0 <= k < r0.len() && (#[trigger] r0[k]).0@ == from
                                            && r0[k].1@ == to && r0[k].2 == att && r0[k].3 == def;
                                    assert(r@[k] == r0[k]);
                                }
                                assert forall|tii: int, to: Seq<char>, att: u16, def: u16|
                                    #![trigger pair_entry_ok(*self, i as int, player.territories@[tii]@, to, att, def)]
                                    0 <= tii < ti && pair_entry_ok(
                                        *self,
                                        i as int,
                                        player.territories@[tii]@,
                                        to,
                                        att,
                                        def,
                                    ) implies exists|k: int|
                                    0 <= k < r@.len() && (#[trigger] r@[k]).0@
                                        == player.territories@[tii]@ && r@[k].1@ == to && r@[k].2
                                        == att && r@[k].3 == def by {
                                    let k = choose|k: int|
                                        0 <= k < r0.len() && (#[trigger] r0[k]).0@
                                            == player.territories@[tii]@ && r0[k].1@ == to
                                            && r0[k].2 == att && r0[k].3 == def;
                                    assert(r@[k] == r0[k]);
                                }
                            }
                            aj = aj + 1;
                        }
                    },
                    None => {},
                }
                proof {
                    assert forall|tii: int, to: Seq<char>, att: u16, def: u16|
                        #![trigger pair_entry_ok(*self, i as int, player.territories@[tii]@, to, att, def)]
                        0 <= tii < ti + 1 && pair_entry_ok(
                            *self,
                            i as int,
                            player.territories@[tii]@,
                            to,
                            att,
                            def,
                        ) implies exists|k: int|
                        0 <= k < r@.len() && (#[trigger] r@[k]).0@ == player.territories@[tii]@
                            && r@[k].1@ == to && r@[k].2 == att && r@[k].3 == def by {
                        if tii == ti {
                            assert(player.territories@[tii]@ == from_name@);
                            let adjs = self.board.spec_territory(from_name@).adjacent_territories@;
                            let ajj = choose|ajj: int| 0 <= ajj < adjs.len() && adjs[ajj]@ == to;
                            assert(pair_entry_ok(
                                *self,
                                i as int,
                                from_name@,
                                adjs[ajj]@,
                                att,
                                def,
                            ));
                        }
                    }
                }
                ti = ti + 1;
            }
            proof {
                assert forall|ii: int, from: Seq<char>, to: Seq<char>, att: u16, def: u16|
                    #![trigger pair_entry_ok(*self, ii, from, to, att, def)]
                    0 <= ii < i + 1 && pair_entry_ok(*self, ii, from, to, att, def) implies exists|
                    k: int,
                |
                    0 <= k < r@.len() && (#[trigger] r@[k]).0@ == from && r@[k].1@ == to && r@[k].2
                        == att && r@[k].3 == def by {
                    if ii == i {
                        let tii = choose|tii: int|
                            0 <= tii < self.players@[i as int].territories@.len()
                                && self.players@[i as int].territories@[tii]@ == from;
                        assert(pair_entry_ok(
                            *self,
                            i as int,
                            self.players@[i as int].territories@[tii]@,
                            to,
                            att,
                            def,
                        ));
                    }
                }
            }
            i = i + 1;
        }
        r
    }

    /// The win probability, in basis points, for every currently-possible
    /// attack: one `(attacker territory, defender territory, probability)`
    /// triple per attackable pair.
    pub fn calculate_conquer_probabilities(&mut self) -> (r: Vec<(String, String, u16)>)
        requires
            old(self).wf(),
        ensures
            final(self).wf(),
            final(self).players == old(self).players,
            final(self).board == old(self).board,
            final(self).current_turn == old(self).current_turn,
            final(self).round == old(self).round,
            final(self).turn_phase == old(self).turn_phase,
            final(self).reinforcement_armies == old(self).reinforcement_armies,
            final(self).initial_reinforcement_armies == old(self).initial_reinforcement_armies,
            final(self).deck == old(self).deck,
            final(self).discard_pile == old(self).discard_pile,
            final(self).conquered_territory == old(self).conquered_territory,
            final(self).defeated_players == old(self).defeated_players,
            final(self).last_attack_from == old(self).last_attack_from,
            final(self).last_attack_to == old(self).last_attack_to,
            final(self).last_attack_dice == old(self).last_attack_dice,
            final(self).active_players == old(self).active_players,
            forall|k: int|
                0 <= k < r@.len() ==> conquer_triple_sound(*old(self), #[trigger] r@[k]),
            forall|i: int, from: Seq<char>, to: Seq<char>, bp: u16|
                #![trigger conquer_entry_ok(*old(self), i, from, to, bp)]
                conquer_entry_ok(*old(self), i, from, to, bp) ==> exists|k: int|
                    0 <= k < r@.len() && (#[trigger] r@[k]).0@ == from && r@[k].1@ == to && r@[k].2
                        == bp,
    {
        let pairs = self.collect_attack_pairs();
        let mut r: Vec<(String, String, u16)> = Vec::new();
        let mut k: usize = 0;
        while k < pairs.len()
            invariant
                self.prob_cache.wf(),
                0 <= k <= pairs@.len(),
                r@.len() == k,
                self.players == old(self).players,
                self.board == old(self).board,
                self.current_turn == old(self).current_turn,
                self.round == old(self).round,
                self.turn_phase == old(self).turn_phase,
                self.reinforcement_armies == old(self).reinforcement_armies,
                self.initial_reinforcement_armies == old(self).initial_reinforcement_armies,
                self.deck == old(self).deck,
                self.discard_pile == old(self).discard_pile,
                self.conquered_territory == old(self).conquered_territory,
                self.defeated_players == old(self).defeated_players,
                self.last_attack_from == old(self).last_attack_from,
                self.last_attack_to == old(self).last_attack_to,
                self.last_attack_dice == old(self).last_attack_dice,
                self.active_players == old(self).active_players,
                forall|m: int|
                    0 <= m < pairs@.len() ==> attack_pair_sound(*old(self), #[trigger] pairs@[m]),
                forall|i: int, from: Seq<char>, to: Seq<char>, att: u16, def: u16|
                    #![trigger pair_entry_ok(*old(self), i, from, to, att, def)]
                    pair_entry_ok(*old(self), i, from, to, att, def) ==> exists|m: int|
                        0 <= m < pairs@.len() && (#[trigger] pairs@[m]).0@ == from && pairs@[m].1@
                            == to && pairs@[m].2 == att && pairs@[m].3 == def,
                forall|m: int|
                    0 <= m < k ==> ((#[trigger] r@[m]).0 == pairs@[m].0 && r@[m].1 == pairs@[m].1
                        && r@[m].2 == p_bp(pairs@[m].2 as int, pairs@[m].3 as int)),
            decreases pairs@.len() - k,
        {
            let e = &pairs[k];
            let bp = crate::probability::conquer_probability(&mut self.prob_cache, e.2, e.3);
            r.push((e.0.clone(), e.1.clone(), bp));
            k = k + 1;
        }
        proof {
            assert forall|i: int, from: Seq<char>, to: Seq<char>, bp: u16|
                #![trigger conquer_entry_ok(*old(self), i, from, to, bp)]
                conquer_entry_ok(*old(self), i, from, to, bp) implies exists|k: int|
                0 <= k < r@.len() && (#[trigger] r@[k]).0@ == from && r@[k].1@ == to && r@[k].2
                    == bp by {
                let (att, def): (u16, u16) = choose|att: u16, def: u16|
                    #[trigger] pair_entry_ok(*old(self), i, from, to, att, def) && bp == p_bp(
                        att as int,
                        def as int,
                    );
                let m = choose|m: int|
                    0 <= m < pairs@.len() && (#[trigger] pairs@[m]).0@ == from && pairs@[m].1@ == to
                        && pairs@[m].2 == att && pairs@[m].3 == def;
                assert(r@[m].0@ == from && r@[m].1@ == to && r@[m].2 == bp);
            }
            assert forall|k: int| 0 <= k < r@.len() implies conquer_triple_sound(
                *old(self),
                #[trigger] r@[k],
            ) by {
                assert(attack_pair_sound(*old(self), pairs@[k]));
                let i = choose|i: int|
                    pair_entry_ok(
                        *old(self),
                        i,
                        pairs@[k].0@,
                        pairs@[k].1@,
                        pairs@[k].2,
                        pairs@[k].3,
                    );
                assert(conquer_entry_ok(*old(self), i, r@[k].0@, r@[k].1@, r@[k].2));
            }
        }
        r
    }
}


/// `b` carries the same data as player `a` (collections compared by
/// contents).
pub open spec fn same_player_content(a: Player, b: Player) -> bool {
    &&& b.id == a.id
    &&& b.name == a.name
    &&& b.territories@ == a.territories@
    &&& b.armies@ == a.armies@
    &&& b.cards@ == a.cards@
    &&& b.army_supply == a.army_supply
    &&& b.total_armies == a.total_armies
}

/// `b` carries the same data as territory `a`.
pub open spec fn same_territory_content(a: Territory, b: Territory) -> bool {
    &&& b.name == a.name
    &&& b.continent == a.continent
    &&& b.adjacent_territories@ == a.adjacent_territories@
}

/// `b` carries the same data as board `a`.
pub open spec fn same_board_content(a: Board, b: Board) -> bool {
    &&& b.territories@.len() == a.territories@.len()
    &&& forall|i: int|
        0 <= i < a.territories@.len() ==> same_territory_content(
            a.territories@[i],
            #[trigger] b.territories@[i],
        )
    &&& b.continents@.len() == a.continents@.len()
    &&& forall|i: int|
        0 <= i < a.continents@.len() ==> {
            &&& (#[trigger] b.continents@[i]).name == a.continents@[i].name
            &&& b.continents@[i].bonus_armies == a.continents@[i].bonus_armies
            &&& b.continents@[i].territories@ == a.continents@[i].territories@
        }
}

/// A faithful copy of a string list.
fn copy_names(v: &Vec<String>) -> (r: Vec<String>)
    ensures
        r@ == v@,
{
    let mut r: Vec<String> = Vec::new();
    let mut i: usize = 0;
    while i < v.len()
        invariant
            0 <= i <= v@.len(),
            r@ == v@.subrange(0, i as int),
        decreases v@.len() - i,
    {
        r.push(v[i].clone());
        proof {
            assert(r@ =~= v@.subrange(0, i + 1));
        }
        i = i + 1;
    }
    proof {
        assert(v@.subrange(0, v@.len() as int) =~= v@);
    }
    r
}

/// A faithful copy of an army ledger.
fn copy_armies(v: &Vec<(String, u16)>) -> (r: Vec<(String, u16)>)
    ensures
        r@ == v@,
{
    let mut r: Vec<(String, u16)> = Vec::new();
    let mut i: usize = 0;
    while i < v.len()
        invariant
            0 <= i <= v@.len(),
            r@ == v@.subrange(0, i as int),
        decreases v@.len() - i,
    {
        let e = &v[i];
        r.push((e.0.clone(), e.1));
        proof {
            assert(r@ =~= v@.subrange(0, i + 1));
        }
        i = i + 1;
    }
    proof {
        assert(v@.subrange(0, v@.len() as int) =~= v@);
    }
    r
}

/// A faithful copy of a card.
fn copy_card(c: &Card) -> (r: Card)
    ensures
        r == *c,
{
    let territory = match &c.territory {
        Some(t) => Some(t.clone()),
        None => None,
    };
    Card { territory, kind: c.kind }
}

/// A faithful copy of a card list.
fn copy_cards(v: &Vec<Card>) -> (r: Vec<Card>)
    ensures
        r@ == v@,
{
    let mut r: Vec<Card> = Vec::new();
    let mut i: usize = 0;
    while i < v.len()
        invariant
            0 <= i <= v@.len(),
            r@ == v@.subrange(0, i as int),
        decreases v@.len() - i,
    {
        r.push(copy_card(&v[i]));
        proof {
            assert(r@ =~= v@.subrange(0, i + 1));
        }
        i = i + 1;
    }
    proof {
        assert(v@.subrange(0, v@.len() as int) =~= v@);
    }
    r
}

/// A faithful copy of a player.
fn copy_player(p: &Player) -> (r: Player)
    ensures
        same_player_content(*p, r),
{
    Player {
        id: p.id,
        name: p.name.clone(),
        territories: copy_names(&p.territories),
        armies: copy_armies(&p.armies),
        cards: copy_cards(&p.cards),
        army_supply: p.army_supply,
        total_armies: p.total_armies,
    }
}

/// A faithful copy of the whole board.
fn copy_board(b: &Board) -> (r: Board)
    ensures
        same_board_content(*b, r),
{
    let mut territories: Vec<Territory> = Vec::new();
    let mut i: usize = 0;
    while i < b.territories.len()
        invariant
            0 <= i <= b.territories@.len(),
            territories@.len() == i,
            forall|k: int|
                0 <= k < i ==> same_territory_content(
                    b.territories@[k],
                    #[trigger] territories@[k],
                ),
        decreases b.territories@.len() - i,
    {
        let t = &b.territories[i];
        territories.push(Territory {
            name: t.name.clone(),
            continent: t.continent.clone(),
            adjacent_territories: copy_names(&t.adjacent_territories),
        });
        i = i + 1;
    }
    let mut continents: Vec<Continent> = Vec::new();
    let mut j: usize = 0;
    while j < b.continents.len()
        invariant
            0 <= j <= b.continents@.len(),
            continents@.len() == j,
            forall|k: int|
                0 <= k < j ==> {
                    &&& (#[trigger] continents@[k]).name == b.continents@[k].name
                    &&& continents@[k].bonus_armies == b.continents@[k].bonus_armies
                    &&& continents@[k].territories@ == b.continents@[k].territories@
                },
        decreases b.continents@.len() - j,
    {
        let c = &b.continents[j];
        continents.push(Continent {
            name: c.name.clone(),
            bonus_armies: c.bonus_armies,
            territories: copy_names(&c.territories),
        });
        j = j + 1;
    }
    Board { territories, continents }
}

/// The public snapshot of a match, as handed to the network layer.
#[derive(Debug, Clone)]
pub struct GameState {
    pub current_player: String,
    pub current_turn: usize,
    pub round: usize,
    pub turn_phase: TurnPhase,
    pub conquered_territory: bool,
    pub reinforcement_armies: u16,
    pub initial_reinforcement_armies: u16,
    pub defeated_players: Vec<usize>,
    pub possible_actions: Vec<Action>,
    pub players: Vec<Player>,
    pub board: Board,
    pub conquer_probs: Vec<(String, String, u16)>,
}

impl Game {
    /// The full public snapshot: refreshes each player's cached allotment
    /// and army total, then reports the game's fields, the complete legal
    /// action list, and the win probability of every currently-possible
    /// attack.
    #[verifier::rlimit(60)]
    pub fn get_game_state(&mut self) -> (r: GameState)
        requires
            old(self).wf(),
        ensures
            final(self).wf(),
            final(self).players@.len() == old(self).players@.len(),
            forall|i: int|
                0 <= i < old(self).players@.len() ==> {
                    let p0 = old(self).players@[i];
                    let p1 = #[trigger] final(self).players@[i];
                    &&& p1.id == p0.id
                    &&& p1.name == p0.name
                    &&& p1.territories == p0.territories
                    &&& p1.armies == p0.armies
                    &&& p1.cards == p0.cards
                    &&& p1.army_supply == spec_reinforcements(old(self).board, p0)
                    &&& p1.total_armies == (if sum_armies(p0.armies@) > 0xffff {
                        0xffffu16
                    } else {
                        sum_armies(p0.armies@) as u16
                    })
                },
            final(self).board == old(self).board,
            final(self).current_turn == old(self).current_turn,
            final(self).round == old(self).round,
            final(self).turn_phase == old(self).turn_phase,
            final(self).reinforcement_armies == old(self).reinforcement_armies,
            final(self).initial_reinforcement_armies == old(self).initial_reinforcement_armies,
            final(self).deck == old(self).deck,
            final(self).discard_pile == old(self).discard_pile,
            final(self).conquered_territory == old(self).conquered_territory,
            final(self).defeated_players == old(self).defeated_players,
            final(self).last_attack_from == old(self).last_attack_from,
            final(self).last_attack_to == old(self).last_attack_to,
            final(self).last_attack_dice == old(self).last_attack_dice,
            final(self).active_players == old(self).active_players,
            r.current_player@ == final(self).players@[final(self).current_turn as int].name@,
            r.current_turn == final(self).current_turn,
            r.round == final(self).round,
            r.turn_phase == final(self).turn_phase,
            r.conquered_territory == final(self).conquered_territory,
            r.reinforcement_armies == final(self).reinforcement_armies,
            r.initial_reinforcement_armies == final(self).initial_reinforcement_armies,
            r.defeated_players@ == final(self).defeated_players@,
            forall|m: ActionModel| #[trigger] offers(r.possible_actions@, m) <==> spec_action_legal(
                *final(self),
                m,
            ),
            forall|k1: int, k2: int|
                0 <= k1 < k2 < r.possible_actions@.len() ==> action_model(r.possible_actions@[k1])
                    != action_model(r.possible_actions@[k2]),
            r.players@.len() == final(self).players@.len(),
            forall|i: int|
                0 <= i < final(self).players@.len() ==> same_player_content(
                    final(self).players@[i],
                    #[trigger] r.players@[i],
                ),
            same_board_content(final(self).board, r.board),
            forall|k: int|
                0 <= k < r.conquer_probs@.len() ==> conquer_triple_sound(
                    *final(self),
                    #[trigger] r.conquer_probs@[k],
                ),
            forall|i: int, from: Seq<char>, to: Seq<char>, bp: u16|
                #![trigger conquer_entry_ok(*final(self), i, from, to, bp)]
                conquer_entry_ok(*final(self), i, from, to, bp) ==> exists|k: int|
                    0 <= k < r.conquer_probs@.len() && (#[trigger] r.conquer_probs@[k]).0@ == from
                        && r.conquer_probs@[k].1@ == to && r.conquer_probs@[k].2 == bp,
    {
        let n = self.players.len();
        let mut supplies: Vec<u16> = Vec::new();
        let mut i: usize = 0;
        while i < n
            invariant
                self.wf(),
                n == self.players@.len(),
                0 <= i <= n,
                supplies@.len() == i,
                forall|k: int|
                    0 <= k < i ==> #[trigger] supplies@[k] == spec_reinforcements(
                        self.board,
                        self.players@[k],
                    ),
            decreases n - i,
        {
            let s = self.calculate_reinforcements(i);
            supplies.push(s);
            i = i + 1;
        }
        let ghost pre = *self;
        let mut j: usize = 0;
        while j < n
            invariant
                self.wf(),
                n == self.players@.len(),
                n == pre.players@.len(),
                0 <= j <= n,
                supplies@.len() == n,
                forall|k: int|
                    0 <= k < n ==> #[trigger] supplies@[k] == spec_reinforcements(
                        pre.board,
                        pre.players@[k],
                    ),
                forall|k: int|
                    j <= k < n ==> #[trigger] self.players@[k] == pre.players@[k],
                forall|k: int|
                    0 <= k < j ==> {
                        let p0 = pre.players@[k];
                        let p1 = #[trigger] self.players@[k];
                        &&& p1.id == p0.id
                        &&& p1.name == p0.name
                        &&& p1.territories == p0.territories
                        &&& p1.armies == p0.armies
                        &&& p1.cards == p0.cards
                        &&& p1.army_supply == spec_reinforcements(pre.board, p0)
                        &&& p1.total_armies == (if sum_armies(p0.armies@) > 0xffff {
                            0xffffu16
                        } else {
                            sum_armies(p0.armies@) as u16
                        })
                    },
                self.board == pre.board,
                self.current_turn == pre.current_turn,
                self.round == pre.round,
                self.turn_phase == pre.turn_phase,
                self.reinforcement_armies == pre.reinforcement_armies,
                self.initial_reinforcement_armies == pre.initial_reinforcement_armies,
                self.deck == pre.deck,
                self.discard_pile == pre.discard_pile,
                self.conquered_territory == pre.conquered_territory,
                self.defeated_players == pre.defeated_players,
                self.last_attack_from == pre.last_attack_from,
                self.last_attack_to == pre.last_attack_to,
                self.last_attack_dice == pre.last_attack_dice,
                self.active_players == pre.active_players,
                self.prob_cache == pre.prob_cache,
            decreases n - j,
        {
            let ghost before = *self;
            let mut p = self.players.remove(j);
            p.army_supply = supplies[j];
            p.calculate_total_armies();
            proof {
                crate::player::lemma_remove_insert(before.players@, j as int, p);
            }
            self.players.insert(j, p);
            proof {
                crate::game::lemma_players_update_wf(before, *self, j as int);
            }
            j = j + 1;
        }
        let ghost mid2 = *self;
        let conquer_probs = self.calculate_conquer_probabilities();
        proof {
            assert forall|k: int| 0 <= k < conquer_probs@.len() implies conquer_triple_sound(
                *self,
                #[trigger] conquer_probs@[k],
            ) by {
                assert(conquer_triple_sound(mid2, conquer_probs@[k]));
                let i = choose|i: int|
                    conquer_entry_ok(
                        mid2,
                        i,
                        conquer_probs@[k].0@,
                        conquer_probs@[k].1@,
                        conquer_probs@[k].2,
                    );
                lemma_conquer_entry_same(
                    mid2,
                    *self,
                    i,
                    conquer_probs@[k].0@,
                    conquer_probs@[k].1@,
                    conquer_probs@[k].2,
                );
            }
            assert forall|i: int, from: Seq<char>, to: Seq<char>, bp: u16|
                #![trigger conquer_entry_ok(*self, i, from, to, bp)]
                conquer_entry_ok(*self, i, from, to, bp) implies exists|k: int|
                0 <= k < conquer_probs@.len() && (#[trigger] conquer_probs@[k]).0@ == from
                    && conquer_probs@[k].1@ == to && conquer_probs@[k].2 == bp by {
                lemma_conquer_entry_same(*self, mid2, i, from, to, bp);
            }
        }
        let possible_actions = self.get_possible_actions();
        let mut players_copy: Vec<Player> = Vec::new();
        let mut k: usize = 0;
        while k < self.players.len()
            invariant
                self.wf(),
                0 <= k <= self.players@.len(),
                players_copy@.len() == k,
                forall|m: int|
                    0 <= m < k ==> same_player_content(
                        self.players@[m],
                        #[trigger] players_copy@[m],
                    ),
            decreases self.players@.len() - k,
        {
            players_copy.push(copy_player(&self.players[k]));
            k = k + 1;
        }
        let board_copy = copy_board(&self.board);
        let mut defeated: Vec<usize> = Vec::new();
        let mut d: usize = 0;
        while d < self.defeated_players.len()
            invariant
                0 <= d <= self.defeated_players@.len(),
                defeated@ == self.defeated_players@.subrange(0, d as int),
            decreases self.defeated_players@.len() - d,
        {
            defeated.push(self.defeated_players[d]);
            proof {
                assert(defeated@ =~= self.defeated_players@.subrange(0, d + 1));
            }
            d = d + 1;
        }
        proof {
            assert(self.defeated_players@.subrange(0, self.defeated_players@.len() as int)
                =~= self.defeated_players@);
            assert forall|i: int, from: Seq<char>, to: Seq<char>, bp: u16|
                #![trigger conquer_entry_ok(*self, i, from, to, bp)]
                conquer_entry_ok(*self, i, from, to, bp) implies exists|k: int|
                0 <= k < conquer_probs@.len() && (#[trigger] conquer_probs@[k]).0@ == from
                    && conquer_probs@[k].1@ == to && conquer_probs@[k].2 == bp by {
                lemma_conquer_entry_same(*self, mid2, i, from, to, bp);
            }
            assert forall|k: int| 0 <= k < conquer_probs@.len() implies conquer_triple_sound(
                *self,
                #[trigger] conquer_probs@[k],
            ) by {
                assert(conquer_triple_sound(mid2, conquer_probs@[k]));
                let i = choose|i: int|
                    conquer_entry_ok(
                        mid2,
                        i,
                        conquer_probs@[k].0@,
                        conquer_probs@[k].1@,
                        conquer_probs@[k].2,
                    );
                lemma_conquer_entry_same(
                    mid2,
                    *self,
                    i,
                    conquer_probs@[k].0@,
                    conquer_probs@[k].1@,
                    conquer_probs@[k].2,
                );
            }
        }
        let state = GameState {
            current_player: self.players[self.current_turn].name.clone(),
            current_turn: self.current_turn,
            round: self.round,
            turn_phase: self.turn_phase,
            conquered_territory: self.conquered_territory,
            reinforcement_armies: self.reinforcement_armies,
            initial_reinforcement_armies: self.initial_reinforcement_armies,
            defeated_players: defeated,
            possible_actions,
            players: players_copy,
            board: board_copy,
            conquer_probs,
        };
        proof {
            assert forall|i: int, from: Seq<char>, to: Seq<char>, bp: u16|
                #![trigger conquer_entry_ok(*self, i, from, to, bp)]
                conquer_entry_ok(*self, i, from, to, bp) implies exists|k: int|
                0 <= k < state.conquer_probs@.len() && (#[trigger] state.conquer_probs@[k]).0@
                    == from && state.conquer_probs@[k].1@ == to && state.conquer_probs@[k].2
                    == bp by {
                lemma_conquer_entry_same(*self, mid2, i, from, to, bp);
                let k = choose|k: int|
                    0 <= k < conquer_probs@.len() && (#[trigger] conquer_probs@[k]).0@ == from
                        && conquer_probs@[k].1@ == to && conquer_probs@[k].2 == bp;
                assert(state.conquer_probs@[k].0@ == from);
            }
        }
        state
    }
}

} // verus!
