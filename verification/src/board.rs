//! The board: the territory catalog with its adjacency graph, and the
//! continent catalog.

use vstd::prelude::*;

use crate::continent::Continent;
use crate::names::{distinct_names, has_name};
use crate::player::{sum_armies, Player};
use crate::territory::Territory;

verus! {

/// `s` holds a territory named `n`.
pub open spec fn has_territory_named(s: Seq<Territory>, n: Seq<char>) -> bool {
    exists|i: int| 0 <= i < s.len() && s[i].name@ == n
}

/// The territory of `s` named `n` (unique when names are distinct).
pub open spec fn territory_named(s: Seq<Territory>, n: Seq<char>) -> Territory {
    let i = choose|i: int| 0 <= i < s.len() && s[i].name@ == n;
    s[i]
}

/// No two territories of `s` share a name.
pub open spec fn distinct_territory_names(s: Seq<Territory>) -> bool {
    forall|i: int, j: int| 0 <= i < j < s.len() ==> s[i].name@ != s[j].name@
}

/// `s` holds a continent named `n`.
pub open spec fn has_continent_named(s: Seq<Continent>, n: Seq<char>) -> bool {
    exists|i: int| 0 <= i < s.len() && s[i].name@ == n
}

/// The continent of `s` named `n` (unique when names are distinct).
pub open spec fn continent_named(s: Seq<Continent>, n: Seq<char>) -> Continent {
    let i = choose|i: int| 0 <= i < s.len() && s[i].name@ == n;
    s[i]
}

/// No two continents of `s` share a name.
pub open spec fn distinct_continent_names(s: Seq<Continent>) -> bool {
    forall|i: int, j: int| 0 <= i < j < s.len() ==> s[i].name@ != s[j].name@
}

/// The board: all territories and all continents, each addressed by name.
#[derive(Debug, Clone, PartialEq)]
pub struct Board {
    pub territories: Vec<Territory>,
    pub continents: Vec<Continent>,
}

impl Board {
    /// Names are unique within each catalog, and every entry is internally
    /// well formed.
    pub open spec fn wf(self) -> bool {
        &&& distinct_territory_names(self.territories@)
        &&& distinct_continent_names(self.continents@)
        &&& forall|i: int|
            0 <= i < self.territories@.len() ==> (#[trigger] self.territories@[i]).wf()
        &&& forall|i: int| 0 <= i < self.continents@.len() ==> (#[trigger] self.continents@[i]).wf()
    }

    /// The board has a territory named `n`.
    pub open spec fn spec_has_territory(self, n: Seq<char>) -> bool {
        has_territory_named(self.territories@, n)
    }

    /// The territory named `n`.
    pub open spec fn spec_territory(self, n: Seq<char>) -> Territory {
        territory_named(self.territories@, n)
    }

    /// The board has a continent named `n`.
    pub open spec fn spec_has_continent(self, n: Seq<char>) -> bool {
        has_continent_named(self.continents@, n)
    }

    /// The continent named `n`.
    pub open spec fn spec_continent(self, n: Seq<char>) -> Continent {
        continent_named(self.continents@, n)
    }

    pub fn new() -> (r: Self)
        ensures
            r.wf(),
            r.territories@.len() == 0,
            r.continents@.len() == 0,
    {
        Self { territories: Vec::new(), continents: Vec::new() }
    }

    /// Adds the territory, replacing any existing territory of the same name.
    pub fn add_territory(&mut self, territory: Territory)
        requires
            old(self).wf(),
            territory.wf(),
        ensures
            final(self).wf(),
            final(self).spec_has_territory(territory.name@),
            final(self).spec_territory(territory.name@) == territory,
            final(self).territories@.len() <= old(self).territories@.len() + 1,
            forall|n: Seq<char>|
                n != territory.name@ ==> (#[trigger] final(self).spec_has_territory(n) <==> old(
                    self,
                ).spec_has_territory(n)),
            forall|n: Seq<char>|
                n != territory.name@ && old(self).spec_has_territory(n)
                    ==> #[trigger] final(self).spec_territory(n) == old(self).spec_territory(n),
            final(self).continents == old(self).continents,
    {
        match find_territory_index(&self.territories, &territory.name) {
            Some(i) => {
                let ghost s = self.territories@;
                proof {
                    crate::player::lemma_remove_insert(s, i as int, territory);
                    lemma_territory_update(s, i as int, territory);
                }
                self.territories.remove(i);
                self.territories.insert(i, territory);
            },
            None => {
                proof {
                    lemma_territory_push(self.territories@, territory);
                }
                self.territories.push(territory);
            },
        }
    }

    /// Adds the continent, replacing any existing continent of the same name.
    pub fn add_continent(&mut self, continent: Continent)
        requires
            old(self).wf(),
            continent.wf(),
        ensures
            final(self).wf(),
            final(self).spec_has_continent(continent.name@),
            final(self).spec_continent(continent.name@) == continent,
            forall|n: Seq<char>|
                n != continent.name@ ==> (#[trigger] final(self).spec_has_continent(n) <==> old(
                    self,
                ).spec_has_continent(n)),
            forall|n: Seq<char>|
                n != continent.name@ && old(self).spec_has_continent(n)
                    ==> #[trigger] final(self).spec_continent(n) == old(self).spec_continent(n),
            final(self).territories == old(self).territories,
    {
        match find_continent_index(&self.continents, &continent.name) {
            Some(i) => {
                let ghost s = self.continents@;
                proof {
                    crate::player::lemma_remove_insert(s, i as int, continent);
                    lemma_continent_update(s, i as int, continent);
                }
                self.continents.remove(i);
                self.continents.insert(i, continent);
            },
            None => {
                proof {
                    lemma_continent_push(self.continents@, continent);
                }
                self.continents.push(continent);
            },
        }
    }

    /// The territory named `name`, if any.
    pub fn get_territory(&self, name: &str) -> (r: Option<&Territory>)
        requires
            self.wf(),
        ensures
            r is Some <==> self.spec_has_territory(name@),
            r is Some ==> *r->0 == self.spec_territory(name@),
    {
        match find_territory_index(&self.territories, name) {
            Some(i) => {
                proof {
                    lemma_territory_at(self.territories@, name@, i as int);
                }
                Some(&self.territories[i])
            },
            None => None,
        }
    }

    /// The continent named `name`, if any.
    pub fn get_continent(&self, name: &str) -> (r: Option<&Continent>)
        requires
            self.wf(),
        ensures
            r is Some <==> self.spec_has_continent(name@),
            r is Some ==> *r->0 == self.spec_continent(name@),
    {
        match find_continent_index(&self.continents, name) {
            Some(i) => {
                proof {
                    lemma_continent_at(self.continents@, name@, i as int);
                }
                Some(&self.continents[i])
            },
            None => None,
        }
    }
}

/// The position of the territory named `t`, if present.
pub(crate) fn find_territory_index(s: &Vec<Territory>, t: &str) -> (r: Option<usize>)
    ensures
        r is Some ==> 0 <= r->0 < s@.len() && s@[r->0 as int].name@ == t@,
        r is None ==> forall|k: int| 0 <= k < s@.len() ==> s@[k].name@ != t@,
{
    let key: String = t.to_owned();
    let mut idx: usize = 0;
    while idx < s.len()
        invariant
            0 <= idx <= s@.len(),
            key@ == t@,
            forall|k: int| 0 <= k < idx ==> s@[k].name@ != t@,
        decreases s@.len() - idx,
    {
        if s[idx].name == key {
            return Some(idx);
        }
        idx = idx + 1;
    }
    None
}

/// The position of the continent named `t`, if present.
pub(crate) fn find_continent_index(s: &Vec<Continent>, t: &str) -> (r: Option<usize>)
    ensures
        r is Some ==> 0 <= r->0 < s@.len() && s@[r->0 as int].name@ == t@,
        r is None ==> forall|k: int| 0 <= k < s@.len() ==> s@[k].name@ != t@,
{
    let key: String = t.to_owned();
    let mut idx: usize = 0;
    while idx < s.len()
        invariant
            0 <= idx <= s@.len(),
            key@ == t@,
            forall|k: int| 0 <= k < idx ==> s@[k].name@ != t@,
        decreases s@.len() - idx,
    {
        if s[idx].name == key {
            return Some(idx);
        }
        idx = idx + 1;
    }
    None
}

/// With distinct names, a matching index gives the named territory.
pub proof fn lemma_territory_at(s: Seq<Territory>, n: Seq<char>, i: int)
    requires
        distinct_territory_names(s),
        0 <= i < s.len(),
        s[i].name@ == n,
    ensures
        has_territory_named(s, n),
        territory_named(s, n) == s[i],
{
    assert(has_territory_named(s, n));
    let j = choose|j: int| 0 <= j < s.len() && s[j].name@ == n;
    assert(j == i);
}

proof fn lemma_territory_update(s: Seq<Territory>, i: int, e: Territory)
    requires
        distinct_territory_names(s),
        0 <= i < s.len(),
        e.name@ == s[i].name@,
    ensures
        distinct_territory_names(s.update(i, e)),
        territory_named(s.update(i, e), e.name@) == e,
        has_territory_named(s.update(i, e), e.name@),
        forall|n: Seq<char>|
            n != e.name@ ==> (#[trigger] has_territory_named(s.update(i, e), n)
                <==> has_territory_named(s, n)),
        forall|n: Seq<char>|
            n != e.name@ && has_territory_named(s, n) ==> #[trigger] territory_named(
                s.update(i, e),
                n,
            ) == territory_named(s, n),
{
    let s2 = s.update(i, e);
    assert(distinct_territory_names(s2)) by {
        assert forall|p: int, q: int| 0 <= p < q < s2.len() implies s2[p].name@ != s2[q].name@ by {
            assert(s[p].name@ != s[q].name@);
        }
    }
    lemma_territory_at(s2, e.name@, i);
    assert forall|n: Seq<char>| n != e.name@ implies (#[trigger] has_territory_named(
        s.update(i, e),
        n,
    ) <==> has_territory_named(s, n)) by {
        if has_territory_named(s2, n) {
            let j = choose|j: int| 0 <= j < s2.len() && s2[j].name@ == n;
            assert(j != i);
            assert(s[j].name@ == n);
        }
        if has_territory_named(s, n) {
            let j = choose|j: int| 0 <= j < s.len() && s[j].name@ == n;
            assert(j != i);
            assert(s2[j].name@ == n);
        }
    }
    assert forall|n: Seq<char>| n != e.name@ && has_territory_named(s, n) implies #[trigger] territory_named(
        s.update(i, e),
        n,
    ) == territory_named(s, n) by {
        let j = choose|j: int| 0 <= j < s.len() && s[j].name@ == n;
        assert(j != i);
        assert(s2[j].name@ == n);
        lemma_territory_at(s, n, j);
        lemma_territory_at(s2, n, j);
    }
}

proof fn lemma_territory_push(s: Seq<Territory>, e: Territory)
    requires
        distinct_territory_names(s),
        forall|k: int| 0 <= k < s.len() ==> s[k].name@ != e.name@,
    ensures
        distinct_territory_names(s.push(e)),
        has_territory_named(s.push(e), e.name@),
        territory_named(s.push(e), e.name@) == e,
        forall|n: Seq<char>|
            n != e.name@ ==> (#[trigger] has_territory_named(s.push(e), n) <==> has_territory_named(
                s,
                n,
            )),
        forall|n: Seq<char>|
            n != e.name@ && has_territory_named(s, n) ==> #[trigger] territory_named(s.push(e), n)
                == territory_named(s, n),
{
    let s2 = s.push(e);
    assert(distinct_territory_names(s2)) by {
        assert forall|p: int, q: int| 0 <= p < q < s2.len() implies s2[p].name@ != s2[q].name@ by {
            if q < s.len() {
                assert(s[p].name@ != s[q].name@);
            } else {
                assert(s2[q] == e);
            }
        }
    }
    lemma_territory_at(s2, e.name@, s.len() as int);
    assert forall|n: Seq<char>| n != e.name@ implies (#[trigger] has_territory_named(s.push(e), n)
        <==> has_territory_named(s, n)) by {
        if has_territory_named(s2, n) {
            let j = choose|j: int| 0 <= j < s2.len() && s2[j].name@ == n;
            assert(j < s.len());
            assert(s[j].name@ == n);
        }
        if has_territory_named(s, n) {
            let j = choose|j: int| 0 <= j < s.len() && s[j].name@ == n;
            assert(s2[j].name@ == n);
        }
    }
    assert forall|n: Seq<char>| n != e.name@ && has_territory_named(s, n) implies #[trigger] territory_named(
        s.push(e),
        n,
    ) == territory_named(s, n) by {
        let j = choose|j: int| 0 <= j < s.len() && s[j].name@ == n;
        assert(s2[j].name@ == n);
        lemma_territory_at(s, n, j);
        lemma_territory_at(s2, n, j);
    }
}

/// With distinct names, a matching index gives the named continent.
pub proof fn lemma_continent_at(s: Seq<Continent>, n: Seq<char>, i: int)
    requires
        distinct_continent_names(s),
        0 <= i < s.len(),
        s[i].name@ == n,
    ensures
        has_continent_named(s, n),
        continent_named(s, n) == s[i],
{
    assert(has_continent_named(s, n));
    let j = choose|j: int| 0 <= j < s.len() && s[j].name@ == n;
    assert(j == i);
}

proof fn lemma_continent_update(s: Seq<Continent>, i: int, e: Continent)
    requires
        distinct_continent_names(s),
        0 <= i < s.len(),
        e.name@ == s[i].name@,
    ensures
        distinct_continent_names(s.update(i, e)),
        continent_named(s.update(i, e), e.name@) == e,
        has_continent_named(s.update(i, e), e.name@),
        forall|n: Seq<char>|
            n != e.name@ ==> (#[trigger] has_continent_named(s.update(i, e), n)
                <==> has_continent_named(s, n)),
        forall|n: Seq<char>|
            n != e.name@ && has_continent_named(s, n) ==> #[trigger] continent_named(
                s.update(i, e),
                n,
            ) == continent_named(s, n),
{
    let s2 = s.update(i, e);
    assert(distinct_continent_names(s2)) by {
        assert forall|p: int, q: int| 0 <= p < q < s2.len() implies s2[p].name@ != s2[q].name@ by {
            assert(s[p].name@ != s[q].name@);
        }
    }
    lemma_continent_at(s2, e.name@, i);
    assert forall|n: Seq<char>| n != e.name@ implies (#[trigger] has_continent_named(
        s.update(i, e),
        n,
    ) <==> has_continent_named(s, n)) by {
        if has_continent_named(s2, n) {
            let j = choose|j: int| 0 <= j < s2.len() && s2[j].name@ == n;
            assert(j != i);
            assert(s[j].name@ == n);
        }
        if has_continent_named(s, n) {
            let j = choose|j: int| 0 <= j < s.len() && s[j].name@ == n;
            assert(j != i);
            assert(s2[j].name@ == n);
        }
    }
    assert forall|n: Seq<char>| n != e.name@ && has_continent_named(s, n) implies #[trigger] continent_named(
        s.update(i, e),
        n,
    ) == continent_named(s, n) by {
        let j = choose|j: int| 0 <= j < s.len() && s[j].name@ == n;
        assert(j != i);
        assert(s2[j].name@ == n);
        lemma_continent_at(s, n, j);
        lemma_continent_at(s2, n, j);
    }
}

proof fn lemma_continent_push(s: Seq<Continent>, e: Continent)
    requires
        distinct_continent_names(s),
        forall|k: int| 0 <= k < s.len() ==> s[k].name@ != e.name@,
    ensures
        distinct_continent_names(s.push(e)),
        has_continent_named(s.push(e), e.name@),
        continent_named(s.push(e), e.name@) == e,
        forall|n: Seq<char>|
            n != e.name@ ==> (#[trigger] has_continent_named(s.push(e), n) <==> has_continent_named(
                s,
                n,
            )),
        forall|n: Seq<char>|
            n != e.name@ && has_continent_named(s, n) ==> #[trigger] continent_named(s.push(e), n)
                == continent_named(s, n),
{
    let s2 = s.push(e);
    assert(distinct_continent_names(s2)) by {
        assert forall|p: int, q: int| 0 <= p < q < s2.len() implies s2[p].name@ != s2[q].name@ by {
            if q < s.len() {
                assert(s[p].name@ != s[q].name@);
            } else {
                assert(s2[q] == e);
            }
        }
    }
    lemma_continent_at(s2, e.name@, s.len() as int);
    assert forall|n: Seq<char>| n != e.name@ implies (#[trigger] has_continent_named(s.push(e), n)
        <==> has_continent_named(s, n)) by {
        if has_continent_named(s2, n) {
            let j = choose|j: int| 0 <= j < s2.len() && s2[j].name@ == n;
            assert(j < s.len());
            assert(s[j].name@ == n);
        }
        if has_continent_named(s, n) {
            let j = choose|j: int| 0 <= j < s.len() && s[j].name@ == n;
            assert(s2[j].name@ == n);
        }
    }
    assert forall|n: Seq<char>| n != e.name@ && has_continent_named(s, n) implies #[trigger] continent_named(
        s.push(e),
        n,
    ) == continent_named(s, n) by {
        let j = choose|j: int| 0 <= j < s.len() && s[j].name@ == n;
        assert(s2[j].name@ == n);
        lemma_continent_at(s, n, j);
        lemma_continent_at(s2, n, j);
    }
}


/// A permutation of a duplicate-free name list holds exactly the same
/// names.
proof fn lemma_shuffled_names(pre: Seq<String>, post: Seq<String>)
    requires
        distinct_names(pre),
        pre.to_multiset() == post.to_multiset(),
    ensures
        post.len() == pre.len(),
        distinct_names(post),
        forall|x: Seq<char>| #[trigger] has_name(post, x) <==> has_name(pre, x),
    decreases pre.len(),
{
    broadcast use vstd::seq_lib::group_seq_properties;
    broadcast use vstd::multiset::group_multiset_axioms;

    pre.to_multiset_ensures();
    post.to_multiset_ensures();
    assert(pre.no_duplicates()) by {
        assert forall|i: int, j: int| 0 <= i < j < pre.len() implies pre[i] != pre[j] by {
            assert(pre[i]@ != pre[j]@);
        }
    }
    pre.lemma_multiset_has_no_duplicates();
    post.lemma_multiset_has_no_duplicates_conv();
    assert forall|x: Seq<char>| #[trigger] has_name(post, x) implies has_name(pre, x) by {
        let i = choose|i: int| 0 <= i < post.len() && post[i]@ == x;
        assert(post.contains(post[i]));
        assert(post.to_multiset().count(post[i]) > 0);
        assert(pre.contains(post[i]));
        let j = choose|j: int| 0 <= j < pre.len() && pre[j] == post[i];
        assert(pre[j]@ == x);
    }
    assert forall|x: Seq<char>| has_name(pre, x) implies #[trigger] has_name(post, x) by {
        let i = choose|i: int| 0 <= i < pre.len() && pre[i]@ == x;
        assert(pre.contains(pre[i]));
        assert(pre.to_multiset().count(pre[i]) > 0);
        assert(post.contains(pre[i]));
        let j = choose|j: int| 0 <= j < post.len() && post[j] == pre[i];
        assert(post[j]@ == x);
    }
    assert forall|i: int, j: int| 0 <= i < j < post.len() implies post[i]@ != post[j]@ by {
        if post[i] == post[j] {
            assert(post.no_duplicates());
            assert(false);
        } else {
            assert(post.contains(post[i]));
            assert(post.to_multiset().count(post[i]) > 0);
            assert(pre.contains(post[i]));
            assert(post.contains(post[j]));
            assert(post.to_multiset().count(post[j]) > 0);
            assert(pre.contains(post[j]));
            let a = choose|a: int| 0 <= a < pre.len() && pre[a] == post[i];
            let b = choose|b: int| 0 <= b < pre.len() && pre[b] == post[j];
            assert(a != b);
            if a < b {
                assert(pre[a]@ != pre[b]@);
            } else {
                assert(pre[b]@ != pre[a]@);
            }
        }
    }
}

/// Members of one continent stand consecutively: whatever lies between two
/// same-key positions carries that key too.
pub open spec fn keys_contiguous(board: Board, s: Seq<String>) -> bool {
    forall|p: int, m: int, q: int|
        #![trigger group_key(board, s[p]@), group_key(board, s[m]@), group_key(board, s[q]@)]
        0 <= p < m < q < s.len() && group_key(board, s[p]@) == group_key(board, s[q]@)
            ==> group_key(board, s[m]@) == group_key(board, s[p]@)
}

/// Consecutive positions land on different players whenever at least two
/// play.
proof fn lemma_mod_succ_ne(q: int, n: int)
    requires
        n >= 2,
        q >= 0,
    ensures
        (q + 1) % n != q % n,
{
    vstd::arithmetic::div_mod::lemma_fundamental_div_mod(q, n);
    vstd::arithmetic::div_mod::lemma_mod_pos_bound(q, n);
    let d = q / n;
    let a = q % n;
    assert(n * d == d * n) by (nonlinear_arith);
    if a + 1 < n {
        vstd::arithmetic::div_mod::lemma_fundamental_div_mod_converse(q + 1, n, d, a + 1);
    } else {
        assert(q + 1 == (d + 1) * n + 0) by (nonlinear_arith)
            requires
                q == n * d + a,
                a + 1 == n,
        ;
        vstd::arithmetic::div_mod::lemma_fundamental_div_mod_converse(q + 1, n, d + 1, 0);
    }
}

/// The continent a board territory belongs to, the key the setup deals by
/// (an off-board name maps to the empty key).
pub open spec fn group_key(board: Board, x: Seq<char>) -> Seq<char> {
    if board.spec_has_territory(x) {
        board.spec_territory(x).continent@
    } else {
        Seq::empty()
    }
}

/// Whether the two board territories belong to the same continent.
fn same_group(board: &Board, a: &String, b: &String) -> (r: bool)
    requires
        board.wf(),
        board.spec_has_territory(a@),
        board.spec_has_territory(b@),
    ensures
        r == (group_key(*board, a@) == group_key(*board, b@)),
{
    let ta = match board.get_territory(a.as_str()) {
        Some(t) => t,
        None => vstd::pervasive::unreached(),
    };
    let tb = match board.get_territory(b.as_str()) {
        Some(t) => t,
        None => vstd::pervasive::unreached(),
    };
    crate::names::str_eq(ta.continent.as_str(), tb.continent.as_str())
}

/// The armies of all players together.
pub open spec fn total_all(players: Seq<Player>) -> int
    decreases players.len(),
{
    if players.len() == 0 {
        0
    } else {
        total_all(players.drop_last()) + players.last().spec_total_armies()
    }
}

/// Replacing one player shifts the grand total by the difference.
pub proof fn lemma_total_all_update(s: Seq<Player>, i: int, p: Player)
    requires
        0 <= i < s.len(),
    ensures
        total_all(s.update(i, p)) == total_all(s) - s[i].spec_total_armies()
            + p.spec_total_armies(),
    decreases s.len(),
{
    let s2 = s.update(i, p);
    if i == s.len() - 1 {
        assert(s2.drop_last() =~= s.drop_last());
        assert(s2.last() == p);
    } else {
        assert(s2.drop_last() =~= s.drop_last().update(i, p));
        lemma_total_all_update(s.drop_last(), i, p);
        assert(s2.last() == s.last());
    }
}

/// Each player's armies are bounded by the grand total.
pub proof fn lemma_total_all_entry_bound(s: Seq<Player>, i: int)
    requires
        0 <= i < s.len(),
    ensures
        total_all(s) >= s[i].spec_total_armies(),
        total_all(s) >= 0,
    decreases s.len(),
{
    lemma_total_all_nonneg(s);
    if s.len() > 0 {
        lemma_total_all_nonneg(s.drop_last());
        crate::player::lemma_sum_nonneg(s.last().armies@);
        if i < s.len() - 1 {
            lemma_total_all_entry_bound(s.drop_last(), i);
        }
    }
}

/// Removing one player drops exactly that player's armies from the total.
pub proof fn lemma_total_all_remove(s: Seq<Player>, i: int)
    requires
        0 <= i < s.len(),
    ensures
        total_all(s.remove(i)) == total_all(s) - s[i].spec_total_armies(),
    decreases s.len(),
{
    if i == s.len() - 1 {
        assert(s.remove(i) =~= s.drop_last());
    } else {
        assert(s.remove(i).drop_last() =~= s.drop_last().remove(i));
        lemma_total_all_remove(s.drop_last(), i);
        assert(s.remove(i).last() == s.last());
    }
}

/// Players with empty ledgers carry no armies at all.
pub proof fn lemma_total_all_fresh(s: Seq<Player>)
    requires
        forall|i: int| 0 <= i < s.len() ==> (#[trigger] s[i]).armies@.len() == 0,
    ensures
        total_all(s) == 0,
    decreases s.len(),
{
    if s.len() > 0 {
        lemma_total_all_fresh(s.drop_last());
    }
}

/// The grand total is never negative.
pub proof fn lemma_total_all_nonneg(s: Seq<Player>)
    ensures
        total_all(s) >= 0,
    decreases s.len(),
{
    if s.len() > 0 {
        lemma_total_all_nonneg(s.drop_last());
        crate::player::lemma_sum_nonneg(s.last().armies@);
    }
}

/// A recorded army count never exceeds the player's total.
pub proof fn lemma_armies_le_total(p: Player, t: Seq<char>)
    ensures
        p.spec_armies(t) <= p.spec_total_armies(),
        p.spec_total_armies() >= 0,
{
    crate::player::lemma_sum_nonneg(p.armies@);
    if crate::names::has_key(p.armies@, t) {
        assert forall|j: int| 0 <= j < p.armies@.len() implies (#[trigger] p.armies@[j]).1
            <= sum_armies(p.armies@) by {
            crate::player::lemma_sum_entry_bound(p.armies@, j);
        }
    }
}

/// Two duplicate-free name lists holding the same names have the same
/// length.
proof fn lemma_distinct_names_same_len(a: Seq<String>, b: Seq<String>)
    requires
        distinct_names(a),
        distinct_names(b),
        forall|x: Seq<char>| #[trigger] has_name(a, x) <==> has_name(b, x),
    ensures
        a.len() == b.len(),
{
    broadcast use vstd::seq_lib::group_seq_properties;
    broadcast use vstd::set::group_set_axioms;
    broadcast use vstd::seq_lib::seq_to_set_is_finite;

    let av = a.map_values(|x: String| x@);
    let bv = b.map_values(|x: String| x@);
    assert(av.no_duplicates()) by {
        assert forall|i: int, j: int| 0 <= i < j < av.len() implies av[i] != av[j] by {
            assert(av[i] == a[i]@ && av[j] == a[j]@);
        }
    }
    assert(bv.no_duplicates()) by {
        assert forall|i: int, j: int| 0 <= i < j < bv.len() implies bv[i] != bv[j] by {
            assert(bv[i] == b[i]@ && bv[j] == b[j]@);
        }
    }
    av.unique_seq_to_set();
    bv.unique_seq_to_set();
    assert(av.to_set() =~= bv.to_set()) by {
        assert forall|x: Seq<char>| av.to_set().contains(x) implies bv.to_set().contains(x) by {
            let i = choose|i: int| 0 <= i < av.len() && av[i] == x;
            assert(a[i]@ == x);
            assert(has_name(a, x));
            assert(has_name(b, x));
            let j = choose|j: int| 0 <= j < b.len() && b[j]@ == x;
            assert(bv[j] == x);
        }
        assert forall|x: Seq<char>| bv.to_set().contains(x) implies av.to_set().contains(x) by {
            let i = choose|i: int| 0 <= i < bv.len() && bv[i] == x;
            assert(b[i]@ == x);
            assert(has_name(b, x));
            assert(has_name(a, x));
            let j = choose|j: int| 0 <= j < a.len() && a[j]@ == x;
            assert(av[j] == x);
        }
    }
}

/// `b` is player `a` with only its territory holdings (and army entries)
/// changed.
pub open spec fn player_same_but_holdings(a: Player, b: Player) -> bool {
    &&& b.wf()
    &&& b.id == a.id
    &&& b.name == a.name
    &&& b.cards == a.cards
    &&& b.army_supply == a.army_supply
    &&& b.total_armies == a.total_armies
}

impl Board {
    /// Deals every territory of the board to the players: the territory
    /// list is shuffled and dealt round-robin, one army placed on each;
    /// afterwards five extra armies per player are spread one per owned
    /// territory, round after round, until the pool is exhausted. Every
    /// board territory ends with exactly one owner holding at least one
    /// army there.
    pub fn shuffle_and_distribute_territories(&mut self, players: &mut Vec<Player>)
        requires
            old(self).wf(),
            0 < old(players)@.len() <= 13107,
            old(self).territories@.len() + 5 * old(players)@.len() <= 0xffff,
            forall|i: int|
                0 <= i < old(players)@.len() ==> {
                    &&& (#[trigger] old(players)@[i]).wf()
                    &&& old(players)@[i].territories@.len() == 0
                    &&& old(players)@[i].armies@.len() == 0
                },
        ensures
            *final(self) == *old(self),
            final(players)@.len() == old(players)@.len(),
            forall|i: int|
                0 <= i < old(players)@.len() ==> player_same_but_holdings(
                    old(players)@[i],
                    #[trigger] final(players)@[i],
                ),
            forall|i: int, x: Seq<char>|
                0 <= i < final(players)@.len() && (#[trigger] final(players)@[i].spec_owns(x))
                    ==> old(self).spec_has_territory(x),
            forall|x: Seq<char>|
                old(self).spec_has_territory(x) ==> exists|i: int|
                    0 <= i < final(players)@.len() && (#[trigger] final(players)@[i].spec_owns(x)),
            forall|i: int, j: int, x: Seq<char>|
                0 <= i < j < final(players)@.len() ==> !((
                #[trigger] final(players)@[i].spec_owns(x)) && (
                #[trigger] final(players)@[j].spec_owns(x))),
            forall|i: int, x: Seq<char>|
                0 <= i < final(players)@.len() && (#[trigger] final(players)@[i].spec_owns(x))
                    ==> final(players)@[i].spec_armies(x) >= 1,
            old(self).territories@.len() > 0 ==> total_all(final(players)@) == old(
                self,
            ).territories@.len() + 5 * old(players)@.len(),
            old(self).territories@.len() == 0 ==> final(players)@ == old(players)@,
            // no full starting continent: with two or more players, a player
            // holding one member of a continent that has another member does
            // not hold them all
            old(players)@.len() >= 2 ==> forall|i: int, t1: Seq<char>, t2: Seq<char>|
                #![trigger final(players)@[i].spec_owns(t1), group_key(*old(self), t2)]
                0 <= i < final(players)@.len() && old(self).spec_has_territory(t1) && old(
                    self,
                ).spec_has_territory(t2) && t1 != t2 && group_key(*old(self), t1) == group_key(
                    *old(self),
                    t2,
                ) && final(players)@[i].spec_owns(t1) ==> exists|t3: Seq<char>|
                    old(self).spec_has_territory(t3) && group_key(*old(self), t3) == group_key(
                        *old(self),
                        t1,
                    ) && !final(players)@[i].spec_owns(t3),
    {
        let n = players.len();
        let mut names: Vec<String> = Vec::new();
        let mut b: usize = 0;
        while b < self.territories.len()
            invariant
                self.wf(),
                0 <= b <= self.territories@.len(),
                names@.len() == b,
                forall|k: int| 0 <= k < b ==> (#[trigger] names@[k])@ == self.territories@[k].name@,
            decreases self.territories@.len() - b,
        {
            names.push(self.territories[b].name.clone());
            b = b + 1;
        }
        let ghost pre_names = names@;
        proof {
            assert(distinct_names(pre_names));
            assert forall|x: Seq<char>| #[trigger] has_name(pre_names, x) implies
            self.spec_has_territory(x) by {
                let k = choose|k: int| 0 <= k < pre_names.len() && pre_names[k]@ == x;
                assert(self.territories@[k].name@ == x);
            }
            assert forall|x: Seq<char>| self.spec_has_territory(x) implies #[trigger] has_name(
                pre_names,
                x,
            ) by {
                let k = choose|k: int|
                    0 <= k < self.territories@.len() && self.territories@[k].name@ == x;
                assert(pre_names[k]@ == x);
            }
        }
        crate::rng::shuffle_vec(&mut names);
        proof {
            lemma_shuffled_names(pre_names, names@);
        }
        if names.len() == 0 {
            proof {
                assert(old(self).territories@.len() == 0);
            }
            return ;
        }
        // Regroup the shuffled list continent by continent (keeping the
        // shuffled order inside each group): members of one continent are
        // dealt consecutively, so with two or more players no one starts
        // holding a whole multi-territory continent.
        let ghost shuffled = names@;
        let mut grouped: Vec<String> = Vec::new();
        let mut gi: usize = 0;
        while gi < names.len()
            invariant
                self.wf(),
                names@ == shuffled,
                distinct_names(shuffled),
                forall|x: Seq<char>| #[trigger] has_name(shuffled, x) ==> self.spec_has_territory(x),
                0 <= gi <= shuffled.len(),
                distinct_names(grouped@),
                keys_contiguous(*self, grouped@),
                forall|x: Seq<char>|
                    #[trigger] has_name(grouped@, x) <==> (has_name(shuffled, x) && exists|k: int|
                        0 <= k < gi && group_key(*self, (#[trigger] shuffled[k])@) == group_key(
                            *self,
                            x,
                        )),
            decreases shuffled.len() - gi,
        {
            let lead = &names[gi];
            proof {
                assert(has_name(shuffled, lead@));
            }
            let mut seen_before = false;
            let mut pj: usize = 0;
            while pj < gi
                invariant
                    0 <= pj <= gi < shuffled.len(),
                    self.wf(),
                    names@ == shuffled,
                    forall|x: Seq<char>|
                        #[trigger] has_name(shuffled, x) ==> self.spec_has_territory(x),
                    lead == shuffled[gi as int],
                    seen_before <==> exists|k: int|
                        0 <= k < pj && group_key(*self, (#[trigger] shuffled[k])@) == group_key(
                            *self,
                            lead@,
                        ),
                decreases gi - pj,
            {
                proof {
                    assert(has_name(shuffled, names@[pj as int]@));
                    assert(has_name(shuffled, lead@));
                }
                if same_group(self, &names[pj], lead) {
                    seen_before = true;
                }
                pj = pj + 1;
            }
            if !seen_before {
                let ghost grouped0 = grouped@;
                proof {
                    // nothing already grouped carries this continent's key
                    assert forall|k: int|
                        0 <= k < grouped0.len() implies group_key(
                        *self,
                        (#[trigger] grouped0[k])@,
                    ) != group_key(*self, lead@) by {
                        assert(has_name(grouped0, grouped0[k]@));
                        let kk = choose|kk: int|
                            0 <= kk < gi && group_key(*self, (#[trigger] shuffled[kk])@)
                                == group_key(*self, grouped0[k]@);
                    }
                }
                let mut tk: usize = gi;
                while tk < names.len()
                    invariant
                        self.wf(),
                        names@ == shuffled,
                        distinct_names(shuffled),
                        forall|x: Seq<char>|
                            #[trigger] has_name(shuffled, x) ==> self.spec_has_territory(x),
                        0 <= gi <= tk <= shuffled.len(),
                        gi < shuffled.len(),
                        lead == shuffled[gi as int],
                        !(exists|k: int|
                            0 <= k < gi && group_key(*self, (#[trigger] shuffled[k])@)
                                == group_key(*self, lead@)),
                        distinct_names(grouped@),
                        keys_contiguous(*self, grouped@),
                        grouped0.len() <= grouped@.len(),
                        forall|k: int| 0 <= k < grouped0.len() ==> #[trigger] grouped@[k] == grouped0[k],
                        forall|k: int|
                            0 <= k < grouped0.len() ==> group_key(
                                *self,
                                (#[trigger] grouped0[k])@,
                            ) != group_key(*self, lead@),
                        forall|k: int|
                            grouped0.len() <= k < grouped@.len() ==> group_key(
                                *self,
                                (#[trigger] grouped@[k])@,
                            ) == group_key(*self, lead@),
                        forall|x: Seq<char>|
                            #[trigger] has_name(grouped@, x) <==> (has_name(grouped0, x) || exists|
                                k: int,
                            |
                                gi <= k < tk && (#[trigger] shuffled[k])@ == x && group_key(
                                    *self,
                                    x,
                                ) == group_key(*self, lead@)),
                        forall|x: Seq<char>|
                            #[trigger] has_name(grouped0, x) <==> (has_name(shuffled, x) && exists|
                                k: int,
                            |
                                0 <= k < gi && group_key(*self, (#[trigger] shuffled[k])@)
                                    == group_key(*self, x)),
                    decreases shuffled.len() - tk,
                {
                    proof {
                        assert(has_name(shuffled, names@[tk as int]@));
                        assert(has_name(shuffled, lead@));
                    }
                    if same_group(self, &names[tk], lead) {
                        proof {
                            assert(has_name(shuffled, shuffled[tk as int]@));
                            assert(!has_name(grouped0, shuffled[tk as int]@));
                            if has_name(grouped@, shuffled[tk as int]@) {
                                let k = choose|k: int|
                                    gi <= k < tk && (#[trigger] shuffled[k])@
                                        == shuffled[tk as int]@ && group_key(
                                        *self,
                                        shuffled[k]@,
                                    ) == group_key(*self, lead@);
                                assert(false);
                            }
                            crate::names::lemma_names_push(grouped@, names@[tk as int]);
                            let ghost gbefore = grouped@;
                            let ghost gafter = grouped@.push(names@[tk as int]);
                            assert(keys_contiguous(*self, gafter)) by {
                                assert forall|p: int, m: int, q: int|
                                    #![trigger group_key(*self, gafter[p]@), group_key(*self, gafter[m]@), group_key(*self, gafter[q]@)]
                                    0 <= p < m < q < gafter.len() && group_key(*self, gafter[p]@)
                                        == group_key(*self, gafter[q]@) implies group_key(
                                    *self,
                                    gafter[m]@,
                                ) == group_key(*self, gafter[p]@) by {
                                    if q < gbefore.len() {
                                        assert(gafter[p] == gbefore[p] && gafter[m] == gbefore[m]
                                            && gafter[q] == gbefore[q]);
                                    } else {
                                        assert(group_key(*self, gafter[q]@) == group_key(
                                            *self,
                                            lead@,
                                        ));
                                        if p >= grouped0.len() {
                                            assert(group_key(*self, gafter[m]@) == group_key(
                                                *self,
                                                lead@,
                                            ));
                                        } else {
                                            assert(group_key(*self, gafter[p]@) != group_key(
                                                *self,
                                                lead@,
                                            ));
                                        }
                                    }
                                }
                            }
                        }
                        grouped.push(names[tk].clone());
                    }
                    tk = tk + 1;
                }
                proof {
                    assert forall|x: Seq<char>| #[trigger] has_name(grouped@, x) implies (
                    has_name(shuffled, x) && exists|k: int|
                        0 <= k < gi + 1 && group_key(*self, (#[trigger] shuffled[k])@)
                            == group_key(*self, x)) by {
                        if !has_name(grouped0, x) {
                            let k = choose|k: int|
                                gi <= k < shuffled.len() && (#[trigger] shuffled[k])@ == x
                                    && group_key(*self, x) == group_key(*self, lead@);
                            assert(group_key(*self, shuffled[gi as int]@) == group_key(*self, x));
                        }
                    }
                    assert forall|x: Seq<char>|
                        (has_name(shuffled, x) && exists|k: int|
                            0 <= k < gi + 1 && group_key(*self, (#[trigger] shuffled[k])@)
                                == group_key(*self, x)) implies #[trigger] has_name(
                        grouped@,
                        x,
                    ) by {
                        if !has_name(grouped0, x) {
                            let k = choose|k: int|
                                0 <= k < gi + 1 && group_key(*self, (#[trigger] shuffled[k])@)
                                    == group_key(*self, x);
                            assert(k == gi as int);
                            let m = choose|m: int| 0 <= m < shuffled.len() && shuffled[m]@ == x;
                            if m < gi {
                                assert(group_key(*self, shuffled[m]@) == group_key(*self, x));
                                assert(has_name(grouped0, x));
                            } else {
                                assert(gi <= m < shuffled.len() && shuffled[m]@ == x && group_key(
                                    *self,
                                    x,
                                ) == group_key(*self, lead@));
                            }
                        }
                    }
                }
            } else {
                proof {
                    assert forall|x: Seq<char>| #[trigger] has_name(grouped@, x) implies (
                    has_name(shuffled, x) && exists|k: int|
                        0 <= k < gi + 1 && group_key(*self, (#[trigger] shuffled[k])@)
                            == group_key(*self, x)) by {}
                    assert forall|x: Seq<char>|
                        (has_name(shuffled, x) && exists|k: int|
                            0 <= k < gi + 1 && group_key(*self, (#[trigger] shuffled[k])@)
                                == group_key(*self, x)) implies #[trigger] has_name(
                        grouped@,
                        x,
                    ) by {
                        let k = choose|k: int|
                            0 <= k < gi + 1 && group_key(*self, (#[trigger] shuffled[k])@)
                                == group_key(*self, x);
                        if k == gi as int {
                            let j = choose|j: int|
                                0 <= j < gi && group_key(*self, (#[trigger] shuffled[j])@)
                                    == group_key(*self, lead@);
                            assert(group_key(*self, shuffled[j]@) == group_key(*self, x));
                        }
                    }
                }
            }
            gi = gi + 1;
        }
        proof {
            assert forall|x: Seq<char>| #[trigger] has_name(grouped@, x) implies has_name(
                shuffled,
                x,
            ) by {}
            assert forall|x: Seq<char>| has_name(shuffled, x) implies #[trigger] has_name(
                grouped@,
                x,
            ) by {
                let m = choose|m: int| 0 <= m < shuffled.len() && shuffled[m]@ == x;
                assert(group_key(*self, shuffled[m]@) == group_key(*self, x));
            }
        }
        let mut names = grouped;
        proof {
            // the regrouped list still covers the non-empty board
            assert(has_name(names@, shuffled[0]@));
            lemma_distinct_names_same_len(names@, pre_names);
            assert(names@.len() == old(self).territories@.len());
            lemma_total_all_fresh(players@);
            assert(keys_contiguous(*self, names@));
        }
        let ghost names_s = names@;
        let mut k: usize = 0;
        while k < names.len()
            invariant
                self.wf(),
                names@ == names_s,
                distinct_names(names_s),
                0 < n <= 13107,
                n == players@.len(),
                n == old(players)@.len(),
                0 <= k <= names_s.len(),
                forall|i: int|
                    0 <= i < n ==> player_same_but_holdings(
                        old(players)@[i],
                        #[trigger] players@[i],
                    ),
                forall|i: int, x: Seq<char>|
                    0 <= i < n ==> ((#[trigger] players@[i].spec_owns(x)) <==> exists|kk: int|
                        0 <= kk < k && (#[trigger] names_s[kk])@ == x && kk % (n as int) == i),
                forall|i: int, x: Seq<char>|
                    0 <= i < n && (#[trigger] players@[i].spec_owns(x)) ==> players@[i].spec_armies(
                        x,
                    ) >= 1,
                forall|i: int, x: Seq<char>|
                    #![trigger players@[i].spec_armies(x)]
                    0 <= i < n && !players@[i].spec_owns(x) ==> players@[i].spec_armies(x) == 0,
                total_all(players@) == k,
            decreases names_s.len() - k,
        {
            let pi = k % n;
            let ghost players0 = players@;
            let mut p = players.remove(pi);
            let ghost p0 = p;
            p.add_territory(names[k].as_str());
            let ghost p1 = p;
            p.reinforce(names[k].as_str(), 1);
            proof {
                crate::player::lemma_remove_insert(players0, pi as int, p);
                assert(p.territories == p1.territories);
                assert forall|x: Seq<char>| #[trigger] p.spec_owns(x) == p1.spec_owns(x) by {}
                // the dealt name was unowned (distinct names), so it carried
                // no armies yet and this deal adds exactly one
                assert(!p0.spec_owns(names_s[k as int]@));
                assert(p0.spec_armies(names_s[k as int]@) == 0);
                assert(p.spec_total_armies() == p0.spec_total_armies() + 1);
                lemma_total_all_update(players0, pi as int, p);
            }
            players.insert(pi, p);
            proof {
                assert forall|i: int, x: Seq<char>|
                    0 <= i < n implies ((#[trigger] players@[i].spec_owns(x)) <==> exists|kk: int|
                    0 <= kk < k + 1 && (#[trigger] names_s[kk])@ == x && kk % (n as int) == i) by {
                    if i == pi as int {
                        if players@[i].spec_owns(x) {
                            if x == names_s[k as int]@ {
                                assert(names_s[k as int]@ == x && k as int % (n as int) == i);
                            } else {
                                assert(p1.spec_owns(x) == p0.spec_owns(x));
                                let kk = choose|kk: int|
                                    0 <= kk < k && (#[trigger] names_s[kk])@ == x && kk % (
                                    n as int) == i;
                                assert(names_s[kk]@ == x && kk % (n as int) == i);
                            }
                        }
                        if exists|kk: int|
                            0 <= kk < k + 1 && (#[trigger] names_s[kk])@ == x && kk % (n as int)
                                == i {
                            let kk = choose|kk: int|
                                0 <= kk < k + 1 && (#[trigger] names_s[kk])@ == x && kk % (
                                n as int) == i;
                            if kk == k as int {
                                assert(p1.spec_owns(x));
                            } else {
                                assert(players0[i].spec_owns(x));
                                assert(p0.spec_owns(x));
                            }
                        }
                    } else {
                        assert(players@[i] == players0[i]);
                        if exists|kk: int|
                            0 <= kk < k + 1 && (#[trigger] names_s[kk])@ == x && kk % (n as int)
                                == i {
                            let kk = choose|kk: int|
                                0 <= kk < k + 1 && (#[trigger] names_s[kk])@ == x && kk % (
                                n as int) == i;
                            assert(kk != k as int);
                        }
                    }
                }
            }
            k = k + 1;
        }
        // five extra armies per player, spread one per owned territory,
        // round after round; every pass places at least one army (the first
        // player always owns a territory), so the pool runs out
        let mut remaining: u16 = (n as u16) * 5;
        while remaining > 0
            invariant
                self.wf(),
                0 < n <= 13107,
                n == players@.len(),
                n == old(players)@.len(),
                names_s.len() >= 1,
                names_s.len() == old(self).territories@.len(),
                names_s.len() + 5 * n <= 0xffff,
                total_all(players@) + remaining == names_s.len() + 5 * n,
                forall|i: int|
                    0 <= i < n ==> player_same_but_holdings(
                        old(players)@[i],
                        #[trigger] players@[i],
                    ),
                forall|i: int, x: Seq<char>|
                    0 <= i < n ==> ((#[trigger] players@[i].spec_owns(x)) <==> exists|kk: int|
                        0 <= kk < names_s.len() && (#[trigger] names_s[kk])@ == x && kk % (
                        n as int) == i),
                forall|i: int, x: Seq<char>|
                    0 <= i < n && (#[trigger] players@[i].spec_owns(x)) ==> players@[i].spec_armies(
                        x,
                    ) >= 1,
            decreases remaining,
        {
            let rem_at_pass: u16 = remaining;
            let mut i: usize = 0;
            while i < n
                invariant
                    self.wf(),
                    0 < n <= 13107,
                    n == players@.len(),
                    n == old(players)@.len(),
                    names_s.len() >= 1,
                    names_s.len() == old(self).territories@.len(),
                    names_s.len() + 5 * n <= 0xffff,
                    total_all(players@) + remaining == names_s.len() + 5 * n,
                    0 <= i <= n,
                    rem_at_pass > 0,
                    remaining <= rem_at_pass,
                    i == 0 ==> remaining == rem_at_pass,
                    i >= 1 ==> remaining < rem_at_pass,
                    forall|ii: int|
                        0 <= ii < n ==> player_same_but_holdings(
                            old(players)@[ii],
                            #[trigger] players@[ii],
                        ),
                    forall|ii: int, x: Seq<char>|
                        0 <= ii < n ==> ((#[trigger] players@[ii].spec_owns(x)) <==> exists|
                            kk: int,
                        |
                            0 <= kk < names_s.len() && (#[trigger] names_s[kk])@ == x && kk % (
                            n as int) == ii),
                    forall|ii: int, x: Seq<char>|
                        0 <= ii < n && (#[trigger] players@[ii].spec_owns(x))
                            ==> players@[ii].spec_armies(x) >= 1,
                decreases n - i,
            {
                let rem_at_player: u16 = remaining;
                let ghost players1 = players@;
                let mut p = players.remove(i);
                let ghost p_in = p;
                proof {
                    if i == 0 {
                        // the first player was dealt the first territory, so
                        // this pass can always place an army
                        assert(0int % (n as int) == 0) by (nonlinear_arith)
                            requires
                                n >= 1,
                        ;
                        assert(p_in.spec_owns(names_s[0]@));
                        assert(p_in.territories@.len() >= 1);
                    }
                    lemma_total_all_remove(players1, i as int);
                }
                let mut j: usize = 0;
                while j < p.territories.len() && remaining > 0
                    invariant
                        0 <= j <= p.territories@.len(),
                        0 < n,
                        names_s.len() + 5 * n <= 0xffff,
                        total_all(players@) + p.spec_total_armies() + remaining == names_s.len()
                            + 5 * n,
                        remaining <= rem_at_player,
                        j >= 1 ==> remaining < rem_at_player,
                        p.wf(),
                        p.territories == p_in.territories,
                        p.id == p_in.id,
                        p.name == p_in.name,
                        p.cards == p_in.cards,
                        p.army_supply == p_in.army_supply,
                        p.total_armies == p_in.total_armies,
                        forall|x: Seq<char>|
                            #[trigger] p.spec_owns(x) ==> p.spec_armies(x) >= 1,
                        forall|x: Seq<char>| #[trigger] p.spec_owns(x) == p_in.spec_owns(x),
                    decreases p.territories@.len() - j,
                {
                    let t = p.territories[j].clone();
                    let ghost pj = p;
                    proof {
                        // the count below the pool bound cannot saturate
                        lemma_armies_le_total(pj, t@);
                        lemma_total_all_nonneg(players@);
                        assert(pj.spec_armies(t@) < 0xffff);
                    }
                    p.reinforce(t.as_str(), 1);
                    proof {
                        assert(p.territories == pj.territories);
                        assert forall|x: Seq<char>| #[trigger] p.spec_owns(x)
                            == pj.spec_owns(x) by {}
                        assert forall|x: Seq<char>| #[trigger] p.spec_owns(x) implies p.spec_armies(
                            x,
                        ) >= 1 by {
                            if x == t@ {
                            } else {
                                assert(p.spec_armies(x) == pj.spec_armies(x));
                            }
                        }
                        assert(p.spec_total_armies() == pj.spec_total_armies() + 1);
                    }
                    remaining = remaining - 1;
                    j = j + 1;
                }
                proof {
                    crate::player::lemma_remove_insert(players1, i as int, p);
                    lemma_total_all_update(players1, i as int, p);
                }
                players.insert(i, p);
                proof {
                    assert forall|ii: int, x: Seq<char>|
                        0 <= ii < n implies ((#[trigger] players@[ii].spec_owns(x)) <==> exists|
                            kk: int,
                        |
                            0 <= kk < names_s.len() && (#[trigger] names_s[kk])@ == x && kk % (
                            n as int) == ii) by {
                        if ii != i as int {
                            assert(players@[ii] == players1[ii]);
                        } else {
                            assert(players@[ii].spec_owns(x) == p_in.spec_owns(x));
                        }
                    }
                    if i == 0 {
                        // the first pass over player 0 placed an army
                        assert(remaining < rem_at_player);
                    }
                }
                i = i + 1;
            }
        }
        proof {
            assert forall|i: int, x: Seq<char>|
                0 <= i < players@.len() && (#[trigger] players@[i].spec_owns(x)) implies old(
                self,
            ).spec_has_territory(x) by {
                let kk = choose|kk: int|
                    0 <= kk < names_s.len() && (#[trigger] names_s[kk])@ == x && kk % (n as int)
                        == i;
                assert(has_name(names_s, x));
            }
            assert forall|x: Seq<char>| old(self).spec_has_territory(x) implies exists|i: int|
                0 <= i < players@.len() && (#[trigger] players@[i].spec_owns(x)) by {
                assert(has_name(names_s, x));
                let kk = choose|kk: int| 0 <= kk < names_s.len() && names_s[kk]@ == x;
                let i = kk % (n as int);
                assert(players@[i].spec_owns(x));
            }
            assert forall|i: int, j: int, x: Seq<char>|
                0 <= i < j < players@.len() implies !((#[trigger] players@[i].spec_owns(x)) && (
            #[trigger] players@[j].spec_owns(x))) by {
                if players@[i].spec_owns(x) && players@[j].spec_owns(x) {
                    let k1 = choose|kk: int|
                        0 <= kk < names_s.len() && (#[trigger] names_s[kk])@ == x && kk % (
                        n as int) == i;
                    let k2 = choose|kk: int|
                        0 <= kk < names_s.len() && (#[trigger] names_s[kk])@ == x && kk % (
                        n as int) == j;
                    assert(k1 == k2);
                }
            }
            if n >= 2 {
                // members of one continent sit consecutively in the dealt
                // order, and consecutive positions go to different players
                assert forall|i: int, t1: Seq<char>, t2: Seq<char>|
                    #![trigger players@[i].spec_owns(t1), group_key(*self, t2)]
                    0 <= i < players@.len() && self.spec_has_territory(t1)
                        && self.spec_has_territory(t2) && t1 != t2 && group_key(*self, t1)
                        == group_key(*self, t2) && players@[i].spec_owns(t1) implies exists|
                    t3: Seq<char>,
                |
                    self.spec_has_territory(t3) && group_key(*self, t3) == group_key(*self, t1)
                        && !players@[i].spec_owns(t3) by {
                    assert(has_name(names_s, t1));
                    let kk = choose|kk: int|
                        0 <= kk < names_s.len() && names_s[kk]@ == t1 && kk % (n as int) == i;
                    assert(has_name(names_s, t2));
                    let q2 = choose|q2: int| 0 <= q2 < names_s.len() && names_s[q2]@ == t2;
                    assert(q2 != kk);
                    let m = if kk < q2 {
                        kk + 1
                    } else {
                        kk - 1
                    };
                    assert(0 <= m < names_s.len());
                    assert(group_key(*self, names_s[m]@) == group_key(*self, t1)) by {
                        if kk < q2 {
                            if m < q2 {
                                assert(group_key(*self, names_s[kk]@) == group_key(
                                    *self,
                                    names_s[q2]@,
                                ));
                            }
                        } else {
                            if q2 < m {
                                assert(group_key(*self, names_s[q2]@) == group_key(
                                    *self,
                                    names_s[kk]@,
                                ));
                            }
                        }
                    }
                    assert(m % (n as int) != kk % (n as int)) by {
                        if kk < q2 {
                            lemma_mod_succ_ne(kk, n as int);
                        } else {
                            lemma_mod_succ_ne(m, n as int);
                        }
                    }
                    assert(has_name(names_s, names_s[m]@));
                    assert(self.spec_has_territory(names_s[m]@));
                    assert(!players@[i].spec_owns(names_s[m]@)) by {
                        if players@[i].spec_owns(names_s[m]@) {
                            let kk3 = choose|kk3: int|
                                0 <= kk3 < names_s.len() && names_s[kk3]@ == names_s[m]@ && kk3 % (
                                n as int) == i;
                            assert(kk3 == m);
                        }
                    }
                }
            }
        }
    }
}

} // verus!
