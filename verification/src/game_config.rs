//! Declarative match configuration: players with their starting territories,
//! armies and cards; territories with continent and adjacency; continents
//! with bonus values.

use vstd::prelude::*;

use crate::board::Board;
use crate::card::{Card, CardKind};
use crate::continent::Continent;
use crate::names::{contains_name, has_name, lemma_names_push};
use crate::player::Player;
use crate::territory::Territory;

verus! {

#[derive(Debug, Clone)]
pub struct GameConfig {
    pub players: Vec<PlayerConfig>,
    pub territories: Vec<TerritoryConfig>,
    pub continents: Vec<ContinentConfig>,
}

#[derive(Debug, Clone)]
pub struct PlayerConfig {
    pub id: usize,
    pub name: String,
    pub territories: Vec<PlayerTerritoryConfig>,
    pub cards: Vec<CardConfig>,
}

#[derive(Debug, Clone)]
pub struct PlayerTerritoryConfig {
    pub name: String,
    pub armies: u16,
}

#[derive(Debug, Clone)]
pub struct CardConfig {
    pub territory: Option<String>,
    pub kind: CardKind,
}

#[derive(Debug, Clone)]
pub struct TerritoryConfig {
    pub name: String,
    pub continent: String,
    pub adjacent_territories: Vec<String>,
}

#[derive(Debug, Clone)]
pub struct ContinentConfig {
    pub name: String,
    pub bonus_armies: u16,
    pub territories: Vec<String>,
}

/// Some territory name is assigned to two different player entries.
pub open spec fn config_has_duplicate(c: GameConfig) -> bool {
    exists|p1: int, t1: int, p2: int, t2: int|
        {
            &&& 0 <= p1 < c.players@.len()
            &&& 0 <= t1 < c.players@[p1].territories@.len()
            &&& 0 <= p2 < c.players@.len()
            &&& 0 <= t2 < c.players@[p2].territories@.len()
            &&& (p1 != p2 || t1 != t2)
            &&& (#[trigger] c.players@[p1].territories@[t1]).name@ == (
            #[trigger] c.players@[p2].territories@[t2]).name@
        }
}

/// Some player's assignment list carries the name `x`.
pub open spec fn name_assigned(c: GameConfig, x: Seq<char>) -> bool {
    exists|p: int, t: int|
        0 <= p < c.players@.len() && 0 <= t < c.players@[p].territories@.len() && (
        #[trigger] c.players@[p].territories@[t]).name@ == x
}

/// Every territory listed in a continent is assigned to some player.
pub open spec fn config_all_assigned(c: GameConfig) -> bool {
    forall|ci: int, mi: int|
        #![trigger c.continents@[ci].territories@[mi]]
        0 <= ci < c.continents@.len() && 0 <= mi < c.continents@[ci].territories@.len()
            ==> name_assigned(c, c.continents@[ci].territories@[mi]@)
}

/// Entry `(i1, t1)` comes before position `(pi, tt)` in assignment order.
pub open spec fn entry_before(i1: int, t1: int, pi: int, tt: int) -> bool {
    i1 < pi || (i1 == pi && t1 < tt)
}

/// No two assignment entries before position `(pi, tt)` share a name.
pub open spec fn entries_distinct_upto(c: GameConfig, pi: int, tt: int) -> bool {
    forall|i1: int, t1: int, i2: int, t2: int|
        {
            &&& 0 <= i1 < c.players@.len()
            &&& 0 <= t1 < c.players@[i1].territories@.len()
            &&& 0 <= i2 < c.players@.len()
            &&& 0 <= t2 < c.players@[i2].territories@.len()
            &&& entry_before(i1, t1, pi, tt)
            &&& entry_before(i2, t2, pi, tt)
            &&& (i1 != i2 || t1 != t2)
        } ==> (#[trigger] c.players@[i1].territories@[t1]).name@ != (
        #[trigger] c.players@[i2].territories@[t2]).name@
}

/// No later configuration entry redefines the territory at `k` (entries are
/// applied in order, so the last entry for a name wins).
pub open spec fn last_territory_upto(c: GameConfig, k: int, hi: int) -> bool {
    forall|j: int| k < j < hi ==> (#[trigger] c.territories@[j]).name@ != c.territories@[k].name@
}

/// No later configuration entry redefines the continent at `k`.
pub open spec fn last_continent_upto(c: GameConfig, k: int, hi: int) -> bool {
    forall|j: int| k < j < hi ==> (#[trigger] c.continents@[j]).name@ != c.continents@[k].name@
}

/// The board's territory named after entry `k` carries exactly that entry's
/// continent and adjacency list.
pub open spec fn territory_entry_built(c: GameConfig, board: Board, k: int) -> bool {
    &&& board.spec_has_territory(c.territories@[k].name@)
    &&& board.spec_territory(c.territories@[k].name@).continent@ == c.territories@[k].continent@
    &&& forall|x: Seq<char>|
        #[trigger] board.spec_territory(c.territories@[k].name@).spec_is_adjacent(x) <==> has_name(
            c.territories@[k].adjacent_territories@,
            x,
        )
}

/// The board's continent named after entry `k` carries exactly that entry's
/// bonus and member set.
pub open spec fn continent_entry_built(c: GameConfig, board: Board, k: int) -> bool {
    &&& board.spec_has_continent(c.continents@[k].name@)
    &&& board.spec_continent(c.continents@[k].name@).bonus_armies == c.continents@[k].bonus_armies
    &&& forall|x: Seq<char>|
        #[trigger] board.spec_continent(c.continents@[k].name@).spec_has(x) <==> has_name(
            c.continents@[k].territories@,
            x,
        )
}

/// The built card mirrors the configured one: same kind, same bound
/// territory (or none).
pub open spec fn card_matches(cc: CardConfig, card: Card) -> bool {
    &&& card.kind == cc.kind
    &&& match cc.territory {
        Some(s) => card.territory matches Some(t) && t@ == s@,
        None => card.territory is None,
    }
}

/// The built state reflects the configuration: players carry their declared
/// id, name, exact territory set, per-territory armies and hand; the board
/// carries each configured territory (continent and adjacency) and continent
/// (bonus and members), the last entry winning a repeated name; no territory
/// has two owners.
pub open spec fn config_matches(c: GameConfig, board: Board, players: Seq<Player>) -> bool {
    &&& board.wf()
    &&& board.territories@.len() <= c.territories@.len()
    &&& players.len() == c.players@.len()
    &&& forall|i: int| 0 <= i < players.len() ==> (#[trigger] players[i]).wf()
    &&& forall|i: int| 0 <= i < players.len() ==> (#[trigger] players[i]).id == c.players@[i].id
    &&& forall|i: int|
        0 <= i < players.len() ==> (#[trigger] players[i]).name@ == c.players@[i].name@
    &&& forall|i: int, x: Seq<char>|
        0 <= i < players.len() ==> ((#[trigger] players[i].spec_owns(x)) <==> exists|t: int|
            0 <= t < c.players@[i].territories@.len() && (
            #[trigger] c.players@[i].territories@[t]).name@ == x)
    &&& forall|i: int, j: int, x: Seq<char>|
        0 <= i < j < players.len() ==> !((#[trigger] players[i].spec_owns(x))
            && (#[trigger] players[j].spec_owns(x)))
    &&& forall|i: int, t: int|
        0 <= i < players.len() && 0 <= t < c.players@[i].territories@.len() ==> players[i].spec_armies(
            (#[trigger] c.players@[i].territories@[t]).name@,
        ) == c.players@[i].territories@[t].armies
    &&& forall|i: int|
        0 <= i < players.len() ==> (#[trigger] players[i]).cards@.len()
            == c.players@[i].cards@.len()
    &&& forall|i: int, ci: int|
        0 <= i < players.len() && 0 <= ci < c.players@[i].cards@.len() ==> card_matches(
            #[trigger] c.players@[i].cards@[ci],
            players[i].cards@[ci],
        )
    &&& forall|ti: int|
        0 <= ti < c.territories@.len() ==> board.spec_has_territory(
            (#[trigger] c.territories@[ti]).name@,
        )
    &&& forall|ti: int|
        0 <= ti < c.territories@.len() && last_territory_upto(c, ti, c.territories@.len() as int)
            ==> #[trigger] territory_entry_built(c, board, ti)
    &&& forall|ci: int|
        0 <= ci < c.continents@.len() ==> board.spec_has_continent(
            (#[trigger] c.continents@[ci]).name@,
        )
    &&& forall|ci: int|
        0 <= ci < c.continents@.len() && last_continent_upto(c, ci, c.continents@.len() as int)
            ==> #[trigger] continent_entry_built(c, board, ci)
}

impl GameConfig {
    /// Builds the board and player list the configuration describes. The
    /// setup is rejected when a territory is assigned to two players, or
    /// when a continent lists a territory no player received.
    pub fn to_board_and_players(&self) -> (r: Result<(Board, Vec<Player>), String>)
        ensures
            r is Ok ==> config_matches(*self, r->Ok_0.0, r->Ok_0.1@),
            r is Err <==> (config_has_duplicate(*self) || !config_all_assigned(*self)),
    {
        let mut board = Board::new();
        let mut ci: usize = 0;
        while ci < self.continents.len()
            invariant
                board.wf(),
                0 <= ci <= self.continents@.len(),
                forall|k: int|
                    0 <= k < ci ==> board.spec_has_continent(
                        (#[trigger] self.continents@[k]).name@,
                    ),
                forall|k: int|
                    0 <= k < ci && last_continent_upto(*self, k, ci as int)
                        ==> #[trigger] continent_entry_built(*self, board, k),
                board.territories@.len() == 0,
            decreases self.continents@.len() - ci,
        {
            let cc = &self.continents[ci];
            let mut continent = Continent::new(cc.name.as_str(), cc.bonus_armies);
            let mut mi: usize = 0;
            while mi < cc.territories.len()
                invariant
                    continent.wf(),
                    continent.name@ == cc.name@,
                    continent.bonus_armies == cc.bonus_armies,
                    0 <= mi <= cc.territories@.len(),
                    forall|x: Seq<char>|
                        #[trigger] continent.spec_has(x) <==> exists|kk: int|
                            0 <= kk < mi && (#[trigger] cc.territories@[kk])@ == x,
                decreases cc.territories@.len() - mi,
            {
                let ghost c0 = continent;
                continent.add_territory(cc.territories[mi].as_str());
                proof {
                    assert forall|x: Seq<char>| #[trigger] continent.spec_has(x) implies exists|
                        kk: int,
                    |
                        0 <= kk < mi + 1 && (#[trigger] cc.territories@[kk])@ == x by {
                        if x == cc.territories@[mi as int]@ {
                            assert((#[trigger] cc.territories@[mi as int])@ == x);
                        } else {
                            assert(c0.spec_has(x));
                        }
                    }
                    assert forall|x: Seq<char>|
                        (exists|kk: int|
                            0 <= kk < mi + 1 && (#[trigger] cc.territories@[kk])@ == x) implies
                    #[trigger] continent.spec_has(x) by {
                        let kk = choose|kk: int|
                            0 <= kk < mi + 1 && (#[trigger] cc.territories@[kk])@ == x;
                        if kk < mi {
                            assert(c0.spec_has(x));
                        }
                    }
                }
                mi = mi + 1;
            }
            proof {
                assert forall|x: Seq<char>| #[trigger] continent.spec_has(x) <==> has_name(
                    cc.territories@,
                    x,
                ) by {}
            }
            let ghost board0 = board;
            board.add_continent(continent);
            proof {
                assert forall|k: int| 0 <= k < ci + 1 implies board.spec_has_continent(
                    (#[trigger] self.continents@[k]).name@,
                ) by {}
                assert forall|k: int|
                    0 <= k < ci + 1 && last_continent_upto(*self, k, ci as int + 1) implies
                #[trigger] continent_entry_built(*self, board, k) by {
                    if k == ci as int {
                        assert(board.spec_continent(cc.name@) == continent);
                    } else {
                        assert(self.continents@[k].name@ != cc.name@);
                        assert(last_continent_upto(*self, k, ci as int));
                        assert(continent_entry_built(*self, board0, k));
                        assert(board.spec_continent(self.continents@[k].name@)
                            == board0.spec_continent(self.continents@[k].name@));
                    }
                }
            }
            ci = ci + 1;
        }
        let mut ti: usize = 0;
        while ti < self.territories.len()
            invariant
                board.wf(),
                0 <= ti <= self.territories@.len(),
                board.territories@.len() <= ti,
                forall|k: int|
                    0 <= k < self.continents@.len() ==> board.spec_has_continent(
                        (#[trigger] self.continents@[k]).name@,
                    ),
                forall|k: int|
                    0 <= k < self.continents@.len() && last_continent_upto(
                        *self,
                        k,
                        self.continents@.len() as int,
                    ) ==> #[trigger] continent_entry_built(*self, board, k),
                forall|k: int|
                    0 <= k < ti ==> board.spec_has_territory(
                        (#[trigger] self.territories@[k]).name@,
                    ),
                forall|k: int|
                    0 <= k < ti && last_territory_upto(*self, k, ti as int)
                        ==> #[trigger] territory_entry_built(*self, board, k),
            decreases self.territories@.len() - ti,
        {
            let tc = &self.territories[ti];
            let mut territory = Territory::new(tc.name.as_str(), tc.continent.as_str());
            let mut ai: usize = 0;
            while ai < tc.adjacent_territories.len()
                invariant
                    territory.wf(),
                    territory.name@ == tc.name@,
                    territory.continent@ == tc.continent@,
                    0 <= ai <= tc.adjacent_territories@.len(),
                    forall|x: Seq<char>|
                        #[trigger] territory.spec_is_adjacent(x) <==> exists|kk: int|
                            0 <= kk < ai && (#[trigger] tc.adjacent_territories@[kk])@ == x,
                decreases tc.adjacent_territories@.len() - ai,
            {
                let ghost t0 = territory;
                territory.add_adjacent(tc.adjacent_territories[ai].as_str());
                proof {
                    assert forall|x: Seq<char>| #[trigger] territory.spec_is_adjacent(x) implies
                    exists|kk: int|
                        0 <= kk < ai + 1 && (#[trigger] tc.adjacent_territories@[kk])@ == x by {
                        if x == tc.adjacent_territories@[ai as int]@ {
                            assert((#[trigger] tc.adjacent_territories@[ai as int])@ == x);
                        } else {
                            assert(t0.spec_is_adjacent(x));
                        }
                    }
                    assert forall|x: Seq<char>|
                        (exists|kk: int|
                            0 <= kk < ai + 1 && (#[trigger] tc.adjacent_territories@[kk])@ == x)
                        implies #[trigger] territory.spec_is_adjacent(x) by {
                        let kk = choose|kk: int|
                            0 <= kk < ai + 1 && (#[trigger] tc.adjacent_territories@[kk])@ == x;
                        if kk < ai {
                            assert(t0.spec_is_adjacent(x));
                        }
                    }
                }
                ai = ai + 1;
            }
            proof {
                assert forall|x: Seq<char>| #[trigger] territory.spec_is_adjacent(x) <==> has_name(
                    tc.adjacent_territories@,
                    x,
                ) by {}
            }
            let ghost board0 = board;
            board.add_territory(territory);
            proof {
                assert(board.continents == board0.continents);
                assert forall|k: int|
                    0 <= k < self.continents@.len() && last_continent_upto(
                        *self,
                        k,
                        self.continents@.len() as int,
                    ) implies #[trigger] continent_entry_built(*self, board, k) by {
                    assert(continent_entry_built(*self, board0, k));
                }
                assert forall|k: int|
                    0 <= k < ti + 1 && last_territory_upto(*self, k, ti as int + 1) implies
                #[trigger] territory_entry_built(*self, board, k) by {
                    if k == ti as int {
                        assert(board.spec_territory(tc.name@) == territory);
                    } else {
                        assert(self.territories@[k].name@ != tc.name@);
                        assert(last_territory_upto(*self, k, ti as int));
                        assert(territory_entry_built(*self, board0, k));
                        assert(board.spec_territory(self.territories@[k].name@)
                            == board0.spec_territory(self.territories@[k].name@));
                    }
                }
            }
            ti = ti + 1;
        }
        let mut players: Vec<Player> = Vec::new();
        let mut assigned: Vec<String> = Vec::new();
        let mut pi: usize = 0;
        while pi < self.players.len()
            invariant
                0 <= pi <= self.players@.len(),
                players@.len() == pi,
                forall|i: int| 0 <= i < pi ==> (#[trigger] players@[i]).wf(),
                forall|i: int|
                    0 <= i < pi ==> (#[trigger] players@[i]).id == self.players@[i].id,
                forall|i: int|
                    0 <= i < pi ==> (#[trigger] players@[i]).name@ == self.players@[i].name@,
                forall|i: int, x: Seq<char>|
                    0 <= i < pi ==> ((#[trigger] players@[i].spec_owns(x)) <==> exists|t: int|
                        0 <= t < self.players@[i].territories@.len() && (
                        #[trigger] self.players@[i].territories@[t]).name@ == x),
                forall|i: int|
                    0 <= i < pi ==> (#[trigger] players@[i]).cards@.len()
                        == self.players@[i].cards@.len(),
                forall|i: int, k: int|
                    0 <= i < pi && 0 <= k < self.players@[i].cards@.len() ==> card_matches(
                        (#[trigger] self.players@[i].cards@[k]),
                        players@[i].cards@[k],
                    ),
                forall|i: int, t: int|
                    0 <= i < pi && 0 <= t < self.players@[i].territories@.len()
                        ==> players@[i].spec_armies(
                        (#[trigger] self.players@[i].territories@[t]).name@,
                    ) == self.players@[i].territories@[t].armies,
                // `assigned` holds exactly the names handed out so far
                forall|x: Seq<char>|
                    #[trigger] has_name(assigned@, x) <==> exists|i: int, t: int|
                        0 <= i < pi && 0 <= t < self.players@[i].territories@.len() && (
                        #[trigger] self.players@[i].territories@[t]).name@ == x,
                entries_distinct_upto(*self, pi as int, 0),
            decreases self.players@.len() - pi,
        {
            let pc = &self.players[pi];
            let mut player = Player::new(pc.id, pc.name.as_str());
            let ghost assigned_at_entry = assigned@;
            let mut t: usize = 0;
            while t < pc.territories.len()
                invariant
                    player.wf(),
                    player.id == pc.id,
                    player.name@ == pc.name@,
                    player.cards@.len() == 0,
                    0 <= pi < self.players@.len(),
                    pc == self.players@[pi as int],
                    0 <= t <= pc.territories@.len(),
                    forall|x: Seq<char>|
                        #[trigger] player.spec_owns(x) <==> exists|k: int|
                            0 <= k < t && (#[trigger] pc.territories@[k]).name@ == x,
                    forall|k: int|
                        0 <= k < t ==> player.spec_armies((#[trigger] pc.territories@[k]).name@)
                            == pc.territories@[k].armies,
                    forall|x: Seq<char>|
                        #[trigger] has_name(assigned_at_entry, x) <==> exists|i: int, tt: int|
                            0 <= i < pi && 0 <= tt < self.players@[i].territories@.len() && (
                            #[trigger] self.players@[i].territories@[tt]).name@ == x,
                    forall|x: Seq<char>|
                        #[trigger] has_name(assigned@, x) <==> (has_name(assigned_at_entry, x)
                            || player.spec_owns(x)),
                    entries_distinct_upto(*self, pi as int, t as int),
                decreases pc.territories@.len() - t,
            {
                let entry = &pc.territories[t];
                if contains_name(&assigned, entry.name.as_str()) {
                    proof {
                        if has_name(assigned_at_entry, entry.name@) {
                            let (i, tt): (int, int) = choose|i: int, tt: int|
                                0 <= i < pi && 0 <= tt < self.players@[i].territories@.len() && (
                                #[trigger] self.players@[i].territories@[tt]).name@ == entry.name@;
                            assert(config_has_duplicate(*self));
                        } else {
                            assert(player.spec_owns(entry.name@));
                            let k = choose|k: int|
                                0 <= k < t && (#[trigger] pc.territories@[k]).name@ == entry.name@;
                            assert(config_has_duplicate(*self));
                        }
                    }
                    return Err("Duplicate territory assignment in configuration.".to_owned());
                }
                proof {
                    lemma_names_push(assigned@, entry.name);
                    assert(entries_distinct_upto(*self, pi as int, t + 1)) by {
                        assert forall|i1: int, t1: int, i2: int, t2: int|
                            {
                                &&& 0 <= i1 < self.players@.len()
                                &&& 0 <= t1 < self.players@[i1].territories@.len()
                                &&& 0 <= i2 < self.players@.len()
                                &&& 0 <= t2 < self.players@[i2].territories@.len()
                                &&& entry_before(i1, t1, pi as int, t + 1)
                                &&& entry_before(i2, t2, pi as int, t + 1)
                                &&& (i1 != i2 || t1 != t2)
                            } implies (#[trigger] self.players@[i1].territories@[t1]).name@ != (
                        #[trigger] self.players@[i2].territories@[t2]).name@ by {
                            if i1 == pi as int && t1 == t as int {
                                assert(!has_name(assigned@, entry.name@));
                                if i2 < pi as int {
                                    assert(has_name(assigned_at_entry,
                                        self.players@[i2].territories@[t2].name@));
                                } else {
                                    assert(player.spec_owns(
                                        self.players@[i2].territories@[t2].name@,
                                    ));
                                }
                            } else if i2 == pi as int && t2 == t as int {
                                assert(!has_name(assigned@, entry.name@));
                                if i1 < pi as int {
                                    assert(has_name(assigned_at_entry,
                                        self.players@[i1].territories@[t1].name@));
                                } else {
                                    assert(player.spec_owns(
                                        self.players@[i1].territories@[t1].name@,
                                    ));
                                }
                            }
                        }
                    }
                }
                assigned.push(entry.name.clone());
                let ghost p0 = player;
                player.add_territory(entry.name.as_str());
                let ghost p1 = player;
                player.set_armies(entry.name.as_str(), entry.armies);
                proof {
                    assert(player.territories == p1.territories);
                    assert forall|x: Seq<char>| #[trigger] player.spec_owns(x)
                        == p1.spec_owns(x) by {}
                    assert(p1.spec_owns(entry.name@));
                    assert forall|x: Seq<char>|
                        x != entry.name@ implies (#[trigger] p1.spec_owns(x) <==> p0.spec_owns(
                        x,
                    )) by {}
                    assert forall|x: Seq<char>| #[trigger] player.spec_owns(x) implies exists|
                        k: int,
                    |
                        0 <= k < t + 1 && (#[trigger] pc.territories@[k]).name@ == x by {
                        if x == entry.name@ {
                            assert((#[trigger] pc.territories@[t as int]).name@ == x);
                        }
                    }
                    assert forall|x: Seq<char>|
                        (exists|k: int|
                            0 <= k < t + 1 && (#[trigger] pc.territories@[k]).name@ == x) implies
                    #[trigger] player.spec_owns(x) by {
                        let k = choose|k: int|
                            0 <= k < t + 1 && (#[trigger] pc.territories@[k]).name@ == x;
                        if k == t as int {
                            assert(x == entry.name@);
                        }
                    }
                }
                t = t + 1;
            }
            let mut cix: usize = 0;
            while cix < pc.cards.len()
                invariant
                    player.wf(),
                    player.id == pc.id,
                    player.name@ == pc.name@,
                    0 <= pi < self.players@.len(),
                    pc == self.players@[pi as int],
                    0 <= cix <= pc.cards@.len(),
                    player.cards@.len() == cix,
                    forall|k: int|
                        0 <= k < cix ==> card_matches(
                            (#[trigger] pc.cards@[k]),
                            player.cards@[k],
                        ),
                    forall|x: Seq<char>|
                        #[trigger] player.spec_owns(x) <==> exists|k: int|
                            0 <= k < pc.territories@.len() && (
                            #[trigger] pc.territories@[k]).name@ == x,
                    forall|k: int|
                        0 <= k < pc.territories@.len() ==> player.spec_armies(
                            (#[trigger] pc.territories@[k]).name@,
                        ) == pc.territories@[k].armies,
                    forall|x: Seq<char>|
                        #[trigger] has_name(assigned@, x) <==> (has_name(assigned_at_entry, x)
                            || player.spec_owns(x)),
                decreases pc.cards@.len() - cix,
            {
                let ghost pbefore = player;
                let card_cfg = &pc.cards[cix];
                let territory = match &card_cfg.territory {
                    Some(s) => Some(s.clone()),
                    None => None,
                };
                player.cards.push(Card::new(territory, card_cfg.kind));
                proof {
                    assert forall|k: int| 0 <= k < cix + 1 implies card_matches(
                        (#[trigger] pc.cards@[k]),
                        player.cards@[k],
                    ) by {
                        if k < cix {
                            assert(player.cards@[k] == pbefore.cards@[k]);
                        } else {
                            assert(card_matches(pc.cards@[k], player.cards@[player.cards@.len() - 1]));
                        }
                    }
                    assert(player.territories == pbefore.territories);
                    assert(player.armies == pbefore.armies);
                    assert forall|x: Seq<char>| #[trigger] player.spec_owns(x)
                        == pbefore.spec_owns(x) by {}
                    assert forall|x: Seq<char>| #[trigger] player.spec_armies(x)
                        == pbefore.spec_armies(x) by {}
                    assert forall|k: int|
                        0 <= k < pc.territories@.len() implies player.spec_armies(
                        (#[trigger] pc.territories@[k]).name@,
                    ) == pc.territories@[k].armies by {
                        assert(player.spec_armies(pc.territories@[k].name@)
                            == pbefore.spec_armies(pc.territories@[k].name@));
                    }
                }
                cix = cix + 1;
            }
            players.push(player);
            pi = pi + 1;
        }
        // every continent member must have been assigned
        let mut ci2: usize = 0;
        while ci2 < self.continents.len()
            invariant
                0 <= ci2 <= self.continents@.len(),
                forall|x: Seq<char>|
                    #[trigger] has_name(assigned@, x) <==> exists|i: int, t: int|
                        0 <= i < self.players@.len() && 0 <= t
                            < self.players@[i].territories@.len() && (
                        #[trigger] self.players@[i].territories@[t]).name@ == x,
                forall|k: int, mi: int|
                    #![trigger self.continents@[k].territories@[mi]]
                    0 <= k < ci2 && 0 <= mi < self.continents@[k].territories@.len()
                        ==> has_name(assigned@, self.continents@[k].territories@[mi]@),
            decreases self.continents@.len() - ci2,
        {
            let cc = &self.continents[ci2];
            let mut mi: usize = 0;
            while mi < cc.territories.len()
                invariant
                    0 <= ci2 < self.continents@.len(),
                    cc == self.continents@[ci2 as int],
                    0 <= mi <= cc.territories@.len(),
                    forall|x: Seq<char>|
                        #[trigger] has_name(assigned@, x) <==> exists|i: int, t: int|
                            0 <= i < self.players@.len() && 0 <= t
                                < self.players@[i].territories@.len() && (
                            #[trigger] self.players@[i].territories@[t]).name@ == x,
                    forall|k: int|
                        0 <= k < mi ==> has_name(assigned@, (#[trigger] cc.territories@[k])@),
                decreases cc.territories@.len() - mi,
            {
                if !contains_name(&assigned, cc.territories[mi].as_str()) {
                    proof {
                        assert(!name_assigned(*self, cc.territories@[mi as int]@)) by {
                            if name_assigned(*self, cc.territories@[mi as int]@) {
                                let (p, t): (int, int) = choose|p: int, t: int|
                                    0 <= p < self.players@.len() && 0 <= t
                                        < self.players@[p].territories@.len() && (
                                    #[trigger] self.players@[p].territories@[t]).name@
                                        == cc.territories@[mi as int]@;
                                assert(has_name(assigned@, cc.territories@[mi as int]@));
                            }
                        }
                        assert(!config_all_assigned(*self)) by {
                            if config_all_assigned(*self) {
                                assert(self.continents@[ci2 as int].territories@[mi as int]
                                    == cc.territories@[mi as int]);
                                assert(name_assigned(
                                    *self,
                                    self.continents@[ci2 as int].territories@[mi as int]@,
                                ));
                            }
                        }
                    }
                    return Err("Territory not assigned to any player.".to_owned());
                }
                mi = mi + 1;
            }
            ci2 = ci2 + 1;
        }
        proof {
            assert forall|ci3: int, mi: int|
                #![trigger self.continents@[ci3].territories@[mi]]
                0 <= ci3 < self.continents@.len() && 0 <= mi
                    < self.continents@[ci3].territories@.len() implies name_assigned(
                *self,
                self.continents@[ci3].territories@[mi]@,
            ) by {
                assert(has_name(assigned@, self.continents@[ci3].territories@[mi]@));
                let (p, t): (int, int) = choose|p: int, t: int|
                    0 <= p < self.players@.len() && 0 <= t < self.players@[p].territories@.len()
                        && (#[trigger] self.players@[p].territories@[t]).name@
                        == self.continents@[ci3].territories@[mi]@;
                assert(name_assigned(*self, self.continents@[ci3].territories@[mi]@));
            }
            assert(config_all_assigned(*self));
            assert forall|i: int, j: int, x: Seq<char>|
                0 <= i < j < players@.len() implies !((#[trigger] players@[i].spec_owns(x)) && (
            #[trigger] players@[j].spec_owns(x))) by {
                if players@[i].spec_owns(x) && players@[j].spec_owns(x) {
                    let t1 = choose|t: int|
                        0 <= t < self.players@[i].territories@.len() && (
                        #[trigger] self.players@[i].territories@[t]).name@ == x;
                    let t2 = choose|t: int|
                        0 <= t < self.players@[j].territories@.len() && (
                        #[trigger] self.players@[j].territories@[t]).name@ == x;
                    assert(config_has_duplicate(*self));
                }
            }
            assert(entries_distinct_upto(*self, self.players@.len() as int, 0));
            assert(!config_has_duplicate(*self)) by {
                if config_has_duplicate(*self) {
                    let (p1, t1, p2, t2): (int, int, int, int) = choose|
                        p1: int,
                        t1: int,
                        p2: int,
                        t2: int,
                    |
                        {
                            &&& 0 <= p1 < self.players@.len()
                            &&& 0 <= t1 < self.players@[p1].territories@.len()
                            &&& 0 <= p2 < self.players@.len()
                            &&& 0 <= t2 < self.players@[p2].territories@.len()
                            &&& (p1 != p2 || t1 != t2)
                            &&& (#[trigger] self.players@[p1].territories@[t1]).name@ == (
                            #[trigger] self.players@[p2].territories@[t2]).name@
                        };
                    assert(entry_before(p1, t1, self.players@.len() as int, 0));
                    assert(false);
                }
            }
        }
        Ok((board, players))
    }
}

} // verus!
