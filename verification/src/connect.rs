//! Reachability over a player's owned territories: depth-first search over
//! the board's adjacency lists, restricted to territories the player owns.
//!
//! A step follows a listed adjacency of a territory present on the board.
//! Every territory entered after the start must be owned by the player; the
//! start itself need not be.

use vstd::prelude::*;
use vstd::seq_lib::group_seq_properties;
use vstd::set_lib::lemma_len_subset;

use crate::board::Board;
use crate::names::{contains_name, distinct_names, has_name};
use crate::player::Player;

verus! {

/// The board has territory `a`, and `a` lists `b` as adjacent.
pub open spec fn spec_step(board: Board, a: Seq<char>, b: Seq<char>) -> bool {
    board.spec_has_territory(a) && board.spec_territory(a).spec_is_adjacent(b)
}

/// A walk along listed adjacencies whose every territory after the first is
/// owned by the player.
pub open spec fn valid_path(board: Board, pl: Player, p: Seq<Seq<char>>) -> bool {
    &&& p.len() >= 1
    &&& forall|k: int| 0 <= k < p.len() - 1 ==> spec_step(board, #[trigger] p[k], p[k + 1])
    &&& forall|k: int| 1 <= k < p.len() ==> pl.spec_owns(#[trigger] p[k])
}

/// Some walk leads from `from` to `to` through owned territories.
pub open spec fn spec_connected(board: Board, pl: Player, from: Seq<char>, to: Seq<char>) -> bool {
    exists|p: Seq<Seq<char>>|
        valid_path(board, pl, p) && p[0] == from && p[p.len() - 1] == to
}

/// What the search can reach from `from`: the start itself, and every owned
/// territory connected to it.
pub open spec fn node_ok(board: Board, pl: Player, from: Seq<char>, x: Seq<char>) -> bool {
    x == from || (pl.spec_owns(x) && spec_connected(board, pl, from, x))
}

/// Every owned neighbour of a visited territory is itself visited or still
/// waiting on the stack.
pub open spec fn frontier_closed(
    board: Board,
    pl: Player,
    visited: Seq<String>,
    stack: Seq<String>,
) -> bool {
    forall|v: Seq<char>, w: Seq<char>|
        has_name(visited, v) && #[trigger] spec_step(board, v, w) && pl.spec_owns(w) ==> has_name(
            visited,
            w,
        ) || has_name(stack, w)
}

/// A reachable target extends to an owned, listed neighbour.
proof fn lemma_connected_extend(board: Board, pl: Player, from: Seq<char>, x: Seq<char>, w: Seq<char>)
    requires
        node_ok(board, pl, from, x),
        spec_step(board, x, w),
        pl.spec_owns(w),
    ensures
        spec_connected(board, pl, from, w),
{
    if x == from {
        let p = seq![from, w];
        assert(p[0] == from && p[p.len() - 1] == w);
        assert(valid_path(board, pl, p)) by {
            assert(forall|k: int| 0 <= k < p.len() - 1 ==> spec_step(board, #[trigger] p[k], p[k + 1]))
                by {
                assert(p[0] == x && p[1] == w);
            }
            assert(forall|k: int| 1 <= k < p.len() ==> pl.spec_owns(#[trigger] p[k])) by {
                assert(p[1] == w);
            }
        }
    } else {
        let p = choose|p: Seq<Seq<char>>|
            valid_path(board, pl, p) && p[0] == from && p[p.len() - 1] == x;
        let q = p.push(w);
        assert(q[0] == from && q[q.len() - 1] == w);
        assert(valid_path(board, pl, q)) by {
            assert forall|k: int| 0 <= k < q.len() - 1 implies spec_step(
                board,
                #[trigger] q[k],
                q[k + 1],
            ) by {
                if k < p.len() - 1 {
                    assert(q[k] == p[k] && q[k + 1] == p[k + 1]);
                } else {
                    assert(q[k] == p[p.len() - 1] && q[k + 1] == w);
                }
            }
            assert forall|k: int| 1 <= k < q.len() implies pl.spec_owns(#[trigger] q[k]) by {
                if k < p.len() {
                    assert(q[k] == p[k]);
                } else {
                    assert(q[k] == w);
                }
            }
        }
    }
}

/// Walking a valid path cannot leave an adjacency-closed visited set that
/// holds the path's start.
proof fn lemma_path_stays_in_closed(
    board: Board,
    pl: Player,
    visited: Seq<String>,
    p: Seq<Seq<char>>,
    k: int,
)
    requires
        valid_path(board, pl, p),
        has_name(visited, p[0]),
        frontier_closed(board, pl, visited, Seq::<String>::empty()),
        0 <= k < p.len(),
    ensures
        has_name(visited, p[k]),
    decreases k,
{
    if k > 0 {
        lemma_path_stays_in_closed(board, pl, visited, p, k - 1);
        assert(spec_step(board, p[k - 1], p[k]));
        assert(pl.spec_owns(p[k]));
        assert(forall|x: Seq<char>| !has_name(Seq::<String>::empty(), x));
    }
}

/// Distinct names drawn from a list plus one extra name cannot outnumber
/// them.
proof fn lemma_distinct_names_card(s: Seq<String>, t: Seq<String>, e: Seq<char>)
    requires
        distinct_names(s),
        forall|k: int| 0 <= k < s.len() ==> s[k]@ == e || has_name(t, #[trigger] s[k]@),
    ensures
        s.len() <= t.len() + 1,
{
    broadcast use group_seq_properties;
    broadcast use vstd::set::group_set_axioms;
    broadcast use vstd::seq_lib::seq_to_set_is_finite;

    let sv = s.map_values(|x: String| x@);
    let tv = t.map_values(|x: String| x@);
    assert(sv.no_duplicates()) by {
        assert forall|i: int, j: int| 0 <= i < j < sv.len() implies sv[i] != sv[j] by {
            assert(sv[i] == s[i]@ && sv[j] == s[j]@);
        }
    }
    sv.unique_seq_to_set();
    tv.lemma_cardinality_of_set();
    let target = tv.to_set().insert(e);
    assert(sv.to_set().subset_of(target)) by {
        assert forall|x: Seq<char>| sv.to_set().contains(x) implies target.contains(x) by {
            let k = choose|k: int| 0 <= k < sv.len() && sv[k] == x;
            assert(s[k]@ == x);
            if x != e {
                let j = choose|j: int| 0 <= j < t.len() && t[j]@ == x;
                assert(tv[j] == x);
                assert(tv.to_set().contains(x));
            }
        }
    }
    lemma_len_subset(sv.to_set(), target);
    assert(target.len() <= tv.to_set().len() + 1);
}

/// Every territory the player can reach from `from` through its own
/// territories: the start, plus each owned territory connected to it. The
/// result is duplicate-free.
pub fn reachable_set(board: &Board, player: &Player, from: &str) -> (r: Vec<String>)
    requires
        board.wf(),
        player.wf(),
    ensures
        distinct_names(r@),
        forall|x: Seq<char>| #[trigger] has_name(r@, x) <==> node_ok(*board, *player, from@, x),
{
    let mut visited: Vec<String> = Vec::new();
    let mut stack: Vec<String> = Vec::new();
    stack.push(from.to_owned());
    proof {
        assert(stack@[0]@ == from@);
    }
    while stack.len() > 0
        invariant
            board.wf(),
            player.wf(),
            distinct_names(visited@),
            visited@.len() <= player.territories@.len() + 1,
            forall|k: int|
                0 <= k < visited@.len() ==> node_ok(*board, *player, from@, #[trigger] visited@[k]@),
            forall|k: int|
                0 <= k < stack@.len() ==> node_ok(*board, *player, from@, #[trigger] stack@[k]@),
            has_name(visited@, from@) || has_name(stack@, from@),
            frontier_closed(*board, *player, visited@, stack@),
        decreases player.territories@.len() + 1 - visited@.len(), stack@.len(),
    {
        let ghost visited0 = visited@;
        let ghost stack0 = stack@;
        let current = match stack.pop() {
            Some(c) => c,
            None => vstd::pervasive::unreached(),
        };
        proof {
            assert(stack@ == stack0.drop_last());
            assert(stack0[stack0.len() - 1] == current);
        }
        if contains_name(&visited, current.as_str()) {
            proof {
                assert(frontier_closed(*board, *player, visited@, stack@)) by {
                    assert forall|v: Seq<char>, w: Seq<char>|
                        has_name(visited@, v) && #[trigger] spec_step(*board, v, w)
                            && player.spec_owns(w) implies has_name(visited@, w) || has_name(
                        stack@,
                        w,
                    ) by {
                        if has_name(stack0, w) && !has_name(visited@, w) {
                            let k = choose|k: int| 0 <= k < stack0.len() && stack0[k]@ == w;
                            if k == stack0.len() - 1 {
                                assert(current@ == w);
                            } else {
                                assert(stack@[k]@ == w);
                            }
                        }
                    }
                }
                if !has_name(visited@, from@) {
                    let k = choose|k: int| 0 <= k < stack0.len() && stack0[k]@ == from@;
                    if k == stack0.len() - 1 {
                        assert(current@ == from@);
                        assert(has_name(visited@, from@));
                    } else {
                        assert(stack@[k]@ == from@);
                        assert(has_name(stack@, from@));
                    }
                }
            }
        } else {
            proof {
                crate::names::lemma_names_push(visited@, current);
                assert(node_ok(*board, *player, from@, current@));
                if current@ != from@ {
                    assert(player.spec_owns(current@));
                }
                lemma_distinct_names_card(
                    visited@.push(current),
                    player.territories@,
                    from@,
                );
            }
            visited.push(current.clone());
            let ghost visited1 = visited@;
            let ghost stack_base = stack@;
            match board.get_territory(current.as_str()) {
                Some(t) => {
                    let ghost terr = *t;
                    let adj = &t.adjacent_territories;
                    let mut j: usize = 0;
                    while j < adj.len()
                        invariant
                            board.wf(),
                            player.wf(),
                            visited@ == visited1,
                            terr == board.spec_territory(current@),
                            board.spec_has_territory(current@),
                            adj@ == terr.adjacent_territories@,
                            0 <= j <= adj@.len(),
                            forall|x: Seq<char>|
                                #[trigger] has_name(stack_base, x) ==> has_name(stack@, x),
                            forall|k: int|
                                0 <= k < stack@.len() ==> node_ok(
                                    *board,
                                    *player,
                                    from@,
                                    #[trigger] stack@[k]@,
                                ),
                            node_ok(*board, *player, from@, current@),
                            has_name(visited@, current@),
                            forall|idx: int|
                                0 <= idx < j && player.spec_owns(#[trigger] adj@[idx]@)
                                    ==> has_name(visited@, adj@[idx]@) || has_name(
                                    stack@,
                                    adj@[idx]@,
                                ),
                        decreases adj@.len() - j,
                    {
                        let a = &adj[j];
                        if contains_name(&player.territories, a.as_str()) && !contains_name(
                            &visited,
                            a.as_str(),
                        ) {
                            proof {
                                lemma_connected_extend(
                                    *board,
                                    *player,
                                    from@,
                                    current@,
                                    a@,
                                );
                                crate::names::lemma_names_push(stack@, *a);
                            }
                            stack.push(a.clone());
                        }
                        j = j + 1;
                    }
                },
                None => {},
            }
            proof {
                assert(frontier_closed(*board, *player, visited@, stack@)) by {
                    assert forall|v: Seq<char>, w: Seq<char>|
                        has_name(visited@, v) && #[trigger] spec_step(*board, v, w)
                            && player.spec_owns(w) implies has_name(visited@, w) || has_name(
                        stack@,
                        w,
                    ) by {
                        let kv = choose|k: int| 0 <= k < visited@.len() && visited@[k]@ == v;
                        if kv < visited0.len() {
                            assert(has_name(visited0, v));
                            assert(has_name(visited0, w) || has_name(stack0, w));
                            if has_name(visited0, w) {
                                let k = choose|k: int|
                                    0 <= k < visited0.len() && visited0[k]@ == w;
                                assert(visited@[k]@ == w);
                            } else {
                                let k = choose|k: int| 0 <= k < stack0.len() && stack0[k]@ == w;
                                if k == stack0.len() - 1 {
                                    assert(current@ == w);
                                    assert(has_name(visited@, w));
                                } else {
                                    assert(stack_base[k]@ == w);
                                    assert(has_name(stack_base, w));
                                }
                            }
                        } else {
                            assert(v == current@);
                            let ta = board.spec_territory(current@).adjacent_territories@;
                            let idx = choose|idx: int| 0 <= idx < ta.len() && ta[idx]@ == w;
                            assert(has_name(visited@, w) || has_name(stack@, w));
                        }
                    }
                }
                if !has_name(visited@, from@) {
                    if has_name(stack0, from@) {
                        let k = choose|k: int| 0 <= k < stack0.len() && stack0[k]@ == from@;
                        if k == stack0.len() - 1 {
                            assert(current@ == from@);
                            assert(has_name(visited@, from@));
                        } else {
                            assert(stack_base[k]@ == from@);
                            assert(has_name(stack_base, from@));
                        }
                    }
                }
            }
        }
    }
    proof {
        assert forall|x: Seq<char>| #[trigger] has_name(visited@, x) implies node_ok(
            *board,
            *player,
            from@,
            x,
        ) by {
            let k = choose|k: int| 0 <= k < visited@.len() && visited@[k]@ == x;
        }
        assert forall|x: Seq<char>| node_ok(*board, *player, from@, x) implies #[trigger] has_name(
            visited@,
            x,
        ) by {
            assert(frontier_closed(*board, *player, visited@, Seq::<String>::empty())) by {
                assert(forall|w: Seq<char>| !has_name(stack@, w));
            }
            if x == from@ {
                assert(has_name(visited@, from@));
            } else {
                let p = choose|p: Seq<Seq<char>>|
                    valid_path(*board, *player, p) && p[0] == from@ && p[p.len() - 1] == x;
                assert(has_name(visited@, from@));
                lemma_path_stays_in_closed(*board, *player, visited@, p, p.len() - 1);
            }
        }
    }
    visited
}

/// Whether `to` can be reached from `from` through territories the player
/// owns: true exactly when `to` is the start itself or an owned, connected
/// territory.
pub fn reachable_within(board: &Board, player: &Player, from: &str, to: &str) -> (r: bool)
    requires
        board.wf(),
        player.wf(),
    ensures
        r == node_ok(*board, *player, from@, to@),
{
    let r = reachable_set(board, player, from);
    contains_name(&r, to)
}

} // verus!
