//! The per-player ledger: owned territories, army counts per territory, and
//! the card hand.

use vstd::prelude::*;

use crate::card::Card;
use crate::names::{
    contains_name, distinct_keys, distinct_names, find_key_index, find_name_index, has_name,
    lemma_lookup_absent, lemma_lookup_at, lemma_names_push, lemma_names_remove,
    lemma_push_entry, lemma_remove_entry, lemma_update_entry, lookup,
};

verus! {

/// `a + b`, capped at the largest `u16` value.
pub open spec fn sat_add16(a: u16, b: u16) -> u16 {
    if a + b > 0xffff {
        0xffffu16
    } else {
        (a + b) as u16
    }
}

/// `a - b`, floored at zero.
pub open spec fn sat_sub16(a: u16, b: u16) -> u16 {
    if a >= b {
        (a - b) as u16
    } else {
        0u16
    }
}

/// The sum of all army counts in the ledger.
pub open spec fn sum_armies(s: Seq<(String, u16)>) -> int
    decreases s.len(),
{
    if s.len() == 0 {
        0
    } else {
        sum_armies(s.drop_last()) + s.last().1
    }
}

/// Every entry is bounded by the whole sum (counts are non-negative).
pub proof fn lemma_sum_entry_bound(s: Seq<(String, u16)>, i: int)
    requires
        0 <= i < s.len(),
    ensures
        sum_armies(s) >= s[i].1,
        sum_armies(s) >= 0,
    decreases s.len(),
{
    lemma_sum_nonneg(s);
    if s.len() > 0 {
        lemma_sum_nonneg(s.drop_last());
        if i < s.len() - 1 {
            lemma_sum_entry_bound(s.drop_last(), i);
        }
    }
}

/// The sum of army counts is never negative.
pub proof fn lemma_sum_nonneg(s: Seq<(String, u16)>)
    ensures
        sum_armies(s) >= 0,
    decreases s.len(),
{
    if s.len() > 0 {
        lemma_sum_nonneg(s.drop_last());
    }
}

/// Appending an entry adds its count to the sum.
pub proof fn lemma_sum_push(s: Seq<(String, u16)>, e: (String, u16))
    ensures
        sum_armies(s.push(e)) == sum_armies(s) + e.1,
{
    assert(s.push(e).drop_last() =~= s);
}

/// Replacing the entry at `i` shifts the sum by the difference.
pub proof fn lemma_sum_update(s: Seq<(String, u16)>, i: int, e: (String, u16))
    requires
        0 <= i < s.len(),
    ensures
        sum_armies(s.update(i, e)) == sum_armies(s) - s[i].1 + e.1,
    decreases s.len(),
{
    let s2 = s.update(i, e);
    if i == s.len() - 1 {
        assert(s2.drop_last() =~= s.drop_last());
        assert(s2.last() == e);
    } else {
        assert(s2.drop_last() =~= s.drop_last().update(i, e));
        lemma_sum_update(s.drop_last(), i, e);
        assert(s2.last() == s.last());
    }
}

/// A player: a stable id, a display name, the set of owned territories, the
/// army count per territory, the card hand, and two cached values refreshed
/// when a snapshot is taken.
#[derive(Debug, Clone, PartialEq)]
pub struct Player {
    pub id: usize,
    pub name: String,
    pub territories: Vec<String>,
    pub armies: Vec<(String, u16)>,
    pub cards: Vec<Card>,
    pub army_supply: u16,
    pub total_armies: u16,
}

impl Player {
    /// The territory list and the army ledger are free of duplicates.
    pub open spec fn wf(self) -> bool {
        &&& distinct_names(self.territories@)
        &&& distinct_keys(self.armies@)
    }

    /// The player owns the territory named `t`.
    pub open spec fn spec_owns(self, t: Seq<char>) -> bool {
        has_name(self.territories@, t)
    }

    /// The army count recorded for territory `t` (0 when untracked).
    pub open spec fn spec_armies(self, t: Seq<char>) -> u16 {
        lookup(self.armies@, t)
    }

    /// The sum of all recorded army counts.
    pub open spec fn spec_total_armies(self) -> int {
        sum_armies(self.armies@)
    }

    pub fn new(id: usize, name: &str) -> (r: Self)
        ensures
            r.wf(),
            r.id == id,
            r.name@ == name@,
            r.territories@.len() == 0,
            r.armies@.len() == 0,
            r.cards@.len() == 0,
            r.army_supply == 0,
            r.total_armies == 0,
    {
        Self {
            id,
            name: name.to_owned(),
            territories: Vec::new(),
            armies: Vec::new(),
            cards: Vec::new(),
            army_supply: 0,
            total_armies: 0,
        }
    }

    /// Grants the territory to the player and resets its army entry to 0.
    pub fn add_territory(&mut self, territory: &str)
        requires
            old(self).wf(),
        ensures
            final(self).wf(),
            final(self).spec_owns(territory@),
            forall|x: Seq<char>| x != territory@ ==> (#[trigger] final(self).spec_owns(x) <==> old(
                self,
            ).spec_owns(x)),
            final(self).territories@.len() == old(self).territories@.len() + (if old(
                self,
            ).spec_owns(territory@) {
                0int
            } else {
                1int
            }),
            final(self).spec_armies(territory@) == 0,
            forall|x: Seq<char>| x != territory@ ==> #[trigger] final(self).spec_armies(x) == old(
                self,
            ).spec_armies(x),
            final(self).spec_total_armies() == old(self).spec_total_armies() - old(self).spec_armies(territory@),
            final(self).id == old(self).id,
            final(self).name == old(self).name,
            final(self).cards == old(self).cards,
            final(self).army_supply == old(self).army_supply,
            final(self).total_armies == old(self).total_armies,
    {
        if !contains_name(&self.territories, territory) {
            let key: String = territory.to_owned();
            proof {
                lemma_names_push(self.territories@, key);
            }
            self.territories.push(key);
        }
        set_key(&mut self.armies, territory, 0);
    }

    /// Revokes the territory and deletes its army entry.
    pub fn remove_territory(&mut self, territory: &str)
        requires
            old(self).wf(),
        ensures
            final(self).wf(),
            !final(self).spec_owns(territory@),
            forall|x: Seq<char>| x != territory@ ==> (#[trigger] final(self).spec_owns(x) <==> old(
                self,
            ).spec_owns(x)),
            final(self).territories@.len() == old(self).territories@.len() - (if old(
                self,
            ).spec_owns(territory@) {
                1int
            } else {
                0int
            }),
            final(self).spec_armies(territory@) == 0,
            forall|x: Seq<char>| x != territory@ ==> #[trigger] final(self).spec_armies(x) == old(
                self,
            ).spec_armies(x),
            final(self).id == old(self).id,
            final(self).name == old(self).name,
            final(self).cards == old(self).cards,
            final(self).army_supply == old(self).army_supply,
            final(self).total_armies == old(self).total_armies,
    {
        match find_name_index(&self.territories, territory) {
            Some(i) => {
                proof {
                    lemma_names_remove(self.territories@, i as int);
                }
                self.territories.remove(i);
            },
            None => {},
        }
        match find_key_index(&self.armies, territory) {
            Some(i) => {
                proof {
                    lemma_remove_entry(self.armies@, i as int);
                }
                self.armies.remove(i);
            },
            None => {
                proof {
                    lemma_lookup_absent(self.armies@, territory@);
                }
            },
        }
    }

    /// Adds `num_armies` to the territory's entry, creating it when absent.
    /// The count saturates at the `u16` maximum.
    pub fn reinforce(&mut self, territory: &str, num_armies: u16)
        requires
            old(self).wf(),
        ensures
            final(self).wf(),
            final(self).spec_armies(territory@) == sat_add16(
                old(self).spec_armies(territory@),
                num_armies,
            ),
            forall|x: Seq<char>| x != territory@ ==> #[trigger] final(self).spec_armies(x) == old(
                self,
            ).spec_armies(x),
            final(self).spec_total_armies() == old(self).spec_total_armies() + final(self).spec_armies(territory@) - old(self).spec_armies(territory@),
            final(self).territories == old(self).territories,
            final(self).id == old(self).id,
            final(self).name == old(self).name,
            final(self).cards == old(self).cards,
            final(self).army_supply == old(self).army_supply,
            final(self).total_armies == old(self).total_armies,
    {
        add_to_key(&mut self.armies, territory, num_armies);
    }

    /// Removes up to `num_armies` from the territory's entry; the count never
    /// goes below zero, and an untracked territory stays untracked.
    pub fn remove_armies(&mut self, territory: &str, num_armies: u16)
        requires
            old(self).wf(),
        ensures
            final(self).wf(),
            final(self).spec_armies(territory@) == sat_sub16(
                old(self).spec_armies(territory@),
                num_armies,
            ),
            forall|x: Seq<char>| x != territory@ ==> #[trigger] final(self).spec_armies(x) == old(
                self,
            ).spec_armies(x),
            final(self).territories == old(self).territories,
            final(self).id == old(self).id,
            final(self).name == old(self).name,
            final(self).cards == old(self).cards,
            final(self).army_supply == old(self).army_supply,
            final(self).total_armies == old(self).total_armies,
    {
        match find_key_index(&self.armies, territory) {
            Some(i) => {
                proof {
                    lemma_lookup_at(self.armies@, territory@, i as int);
                }
                let mut entry = self.armies.remove(i);
                entry.1 = if entry.1 >= num_armies {
                    entry.1 - num_armies
                } else {
                    0
                };
                proof {
                    lemma_remove_insert(old(self).armies@, i as int, entry);
                    lemma_update_entry(old(self).armies@, i as int, entry);
                }
                self.armies.insert(i, entry);
            },
            None => {
                proof {
                    lemma_lookup_absent(self.armies@, territory@);
                }
            },
        }
    }

    /// The army count at `territory`, 0 when untracked.
    pub fn get_armies(&self, territory: &str) -> (r: u16)
        requires
            self.wf(),
        ensures
            r == self.spec_armies(territory@),
    {
        match find_key_index(&self.armies, territory) {
            Some(i) => {
                proof {
                    lemma_lookup_at(self.armies@, territory@, i as int);
                }
                self.armies[i].1
            },
            None => {
                proof {
                    lemma_lookup_absent(self.armies@, territory@);
                }
                0
            },
        }
    }

    /// Overwrites the territory's army entry, creating it when absent.
    pub fn set_armies(&mut self, territory: &str, armies: u16)
        requires
            old(self).wf(),
        ensures
            final(self).wf(),
            final(self).spec_armies(territory@) == armies,
            forall|x: Seq<char>| x != territory@ ==> #[trigger] final(self).spec_armies(x) == old(
                self,
            ).spec_armies(x),
            final(self).territories == old(self).territories,
            final(self).id == old(self).id,
            final(self).name == old(self).name,
            final(self).cards == old(self).cards,
            final(self).army_supply == old(self).army_supply,
            final(self).total_armies == old(self).total_armies,
    {
        set_key(&mut self.armies, territory, armies);
    }

    /// Moves `num_armies` from `from` to `to`, but only when `from` holds at
    /// least that many; otherwise nothing changes.
    pub fn fortify(&mut self, from: &str, to: &str, num_armies: u16)
        requires
            old(self).wf(),
        ensures
            final(self).wf(),
            old(self).spec_armies(from@) < num_armies ==> final(self).armies == old(self).armies,
            old(self).spec_armies(from@) >= num_armies && from@ == to@ ==> forall|x: Seq<char>|
                #[trigger] final(self).spec_armies(x) == old(self).spec_armies(x),
            old(self).spec_armies(from@) >= num_armies && from@ != to@ ==> {
                &&& final(self).spec_armies(from@) == old(self).spec_armies(from@) - num_armies
                &&& final(self).spec_armies(to@) == sat_add16(
                    old(self).spec_armies(to@),
                    num_armies,
                )
                &&& forall|x: Seq<char>|
                    x != from@ && x != to@ ==> #[trigger] final(self).spec_armies(x) == old(
                        self,
                    ).spec_armies(x)
            },
            final(self).territories == old(self).territories,
            final(self).id == old(self).id,
            final(self).name == old(self).name,
            final(self).cards == old(self).cards,
            final(self).army_supply == old(self).army_supply,
            final(self).total_armies == old(self).total_armies,
    {
        let cur = self.get_armies(from);
        if cur >= num_armies {
            match find_key_index(&self.armies, from) {
                Some(i) => {
                    proof {
                        lemma_lookup_at(self.armies@, from@, i as int);
                    }
                    let mut entry = self.armies.remove(i);
                    entry.1 = entry.1 - num_armies;
                    proof {
                        lemma_remove_insert(old(self).armies@, i as int, entry);
                        lemma_update_entry(old(self).armies@, i as int, entry);
                    }
                    self.armies.insert(i, entry);
                },
                None => {
                    proof {
                        lemma_lookup_absent(self.armies@, from@);
                    }
                    // `from` is untracked, so `cur == 0` and `num_armies == 0`.
                },
            }
            add_to_key(&mut self.armies, to, num_armies);
        }
    }

    /// Refreshes the cached total army count (saturating at the `u16`
    /// maximum).
    pub fn calculate_total_armies(&mut self)
        requires
            old(self).wf(),
        ensures
            final(self).wf(),
            final(self).total_armies == if old(self).spec_total_armies() > 0xffff {
                0xffffu16
            } else {
                old(self).spec_total_armies() as u16
            },
            final(self).armies == old(self).armies,
            final(self).territories == old(self).territories,
            final(self).id == old(self).id,
            final(self).name == old(self).name,
            final(self).cards == old(self).cards,
            final(self).army_supply == old(self).army_supply,
    {
        let mut acc: u16 = 0;
        let mut idx: usize = 0;
        while idx < self.armies.len()
            invariant
                0 <= idx <= self.armies@.len(),
                acc == if sum_armies(self.armies@.subrange(0, idx as int)) > 0xffff {
                    0xffffu16
                } else {
                    sum_armies(self.armies@.subrange(0, idx as int)) as u16
                },
                sum_armies(self.armies@.subrange(0, idx as int)) >= 0,
            decreases self.armies@.len() - idx,
        {
            proof {
                assert(self.armies@.subrange(0, idx + 1).drop_last() =~= self.armies@.subrange(
                    0,
                    idx as int,
                ));
                assert(self.armies@.subrange(0, idx + 1).last() == self.armies@[idx as int]);
            }
            let add: u16 = self.armies[idx].1;
            acc = if acc >= 0xffff - add {
                0xffff
            } else {
                acc + add
            };
            idx = idx + 1;
        }
        proof {
            assert(self.armies@.subrange(0, self.armies@.len() as int) =~= self.armies@);
        }
        self.total_armies = acc;
    }
}

/// `s.remove(i).insert(i, e)` replaces the element at `i`.
pub proof fn lemma_remove_insert<T>(s: Seq<T>, i: int, e: T)
    requires
        0 <= i < s.len(),
    ensures
        s.remove(i).insert(i, e) == s.update(i, e),
{
    assert(s.remove(i).insert(i, e) =~= s.update(i, e));
}

/// Adds `n` (saturating) to the entry for `t`, creating it when absent.
fn add_to_key(armies: &mut Vec<(String, u16)>, t: &str, n: u16)
    requires
        distinct_keys(old(armies)@),
    ensures
        distinct_keys(final(armies)@),
        lookup(final(armies)@, t@) == sat_add16(lookup(old(armies)@, t@), n),
        forall|x: Seq<char>| x != t@ ==> #[trigger] lookup(final(armies)@, x) == lookup(
            old(armies)@,
            x,
        ),
        sum_armies(final(armies)@) == sum_armies(old(armies)@) + lookup(final(armies)@, t@)
            - lookup(old(armies)@, t@),
{
    match find_key_index(armies, t) {
        Some(i) => {
            proof {
                lemma_lookup_at(armies@, t@, i as int);
            }
            let mut entry = armies.remove(i);
            entry.1 = if entry.1 >= 0xffff - n {
                0xffff
            } else {
                entry.1 + n
            };
            proof {
                lemma_remove_insert(old(armies)@, i as int, entry);
                lemma_update_entry(old(armies)@, i as int, entry);
                lemma_sum_update(old(armies)@, i as int, entry);
            }
            armies.insert(i, entry);
        },
        None => {
            proof {
                lemma_lookup_absent(armies@, t@);
            }
            let entry = (t.to_owned(), n);
            proof {
                lemma_push_entry(armies@, entry);
                lemma_sum_push(armies@, entry);
            }
            armies.push(entry);
        },
    }
}

/// Overwrites the entry for `t` with `v`, creating it when absent.
fn set_key(armies: &mut Vec<(String, u16)>, t: &str, v: u16)
    requires
        distinct_keys(old(armies)@),
    ensures
        distinct_keys(final(armies)@),
        lookup(final(armies)@, t@) == v,
        forall|x: Seq<char>| x != t@ ==> #[trigger] lookup(final(armies)@, x) == lookup(
            old(armies)@,
            x,
        ),
        sum_armies(final(armies)@) == sum_armies(old(armies)@) + v - lookup(old(armies)@, t@),
{
    match find_key_index(armies, t) {
        Some(i) => {
            proof {
                lemma_lookup_at(armies@, t@, i as int);
            }
            let mut entry = armies.remove(i);
            entry.1 = v;
            proof {
                lemma_remove_insert(old(armies)@, i as int, entry);
                lemma_update_entry(old(armies)@, i as int, entry);
                lemma_sum_update(old(armies)@, i as int, entry);
            }
            armies.insert(i, entry);
        },
        None => {
            proof {
                lemma_lookup_absent(armies@, t@);
            }
            let entry = (t.to_owned(), v);
            proof {
                lemma_push_entry(armies@, entry);
                lemma_sum_push(armies@, entry);
            }
            armies.push(entry);
        },
    }
}

} // verus!
