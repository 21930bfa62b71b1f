//! A continent: a named group of territories granting a reinforcement bonus
//! when fully controlled.

use vstd::prelude::*;

use crate::names::{contains_name, distinct_names, has_name, lemma_names_push};

verus! {

/// A continent with its bonus-army value and member territories.
#[derive(Debug, Clone, PartialEq)]
pub struct Continent {
    pub name: String,
    pub bonus_armies: u16,
    pub territories: Vec<String>,
}

impl Continent {
    /// The member list is free of duplicates.
    pub open spec fn wf(self) -> bool {
        distinct_names(self.territories@)
    }

    /// The continent contains the territory named `t`.
    pub open spec fn spec_has(self, t: Seq<char>) -> bool {
        has_name(self.territories@, t)
    }

    pub fn new(name: &str, bonus_armies: u16) -> (r: Self)
        ensures
            r.wf(),
            r.name@ == name@,
            r.bonus_armies == bonus_armies,
            r.territories@.len() == 0,
    {
        Self { name: name.to_owned(), bonus_armies, territories: Vec::new() }
    }

    /// Records `territory` as a member (at most once).
    pub fn add_territory(&mut self, territory: &str)
        requires
            old(self).wf(),
        ensures
            final(self).wf(),
            final(self).spec_has(territory@),
            forall|x: Seq<char>| x != territory@ ==> (#[trigger] final(self).spec_has(x) <==> old(
                self,
            ).spec_has(x)),
            final(self).name == old(self).name,
            final(self).bonus_armies == old(self).bonus_armies,
    {
        if !contains_name(&self.territories, territory) {
            let key: String = territory.to_owned();
            proof {
                lemma_names_push(self.territories@, key);
            }
            self.territories.push(key);
        }
    }

    pub fn get_bonus(&self) -> (r: u16)
        ensures
            r == self.bonus_armies,
    {
        self.bonus_armies
    }
}

} // verus!
