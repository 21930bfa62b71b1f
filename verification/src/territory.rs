//! A territory: a node of the board's adjacency graph, belonging to one
//! continent.

use vstd::prelude::*;

use crate::names::{contains_name, distinct_names, has_name, lemma_names_push};

verus! {

/// A territory with its continent and the names of its neighbours.
#[derive(Debug, Clone, PartialEq)]
pub struct Territory {
    pub name: String,
    pub continent: String,
    pub adjacent_territories: Vec<String>,
}

impl Territory {
    /// The adjacency list is free of duplicates.
    pub open spec fn wf(self) -> bool {
        distinct_names(self.adjacent_territories@)
    }

    /// The territory lists `t` as a neighbour.
    pub open spec fn spec_is_adjacent(self, t: Seq<char>) -> bool {
        has_name(self.adjacent_territories@, t)
    }

    pub fn new(name: &str, continent: &str) -> (r: Self)
        ensures
            r.wf(),
            r.name@ == name@,
            r.continent@ == continent@,
            r.adjacent_territories@.len() == 0,
    {
        Self {
            name: name.to_owned(),
            continent: continent.to_owned(),
            adjacent_territories: Vec::new(),
        }
    }

    /// Records `adjacent` as a neighbour (at most once).
    pub fn add_adjacent(&mut self, adjacent: &str)
        requires
            old(self).wf(),
        ensures
            final(self).wf(),
            final(self).spec_is_adjacent(adjacent@),
            forall|x: Seq<char>| x != adjacent@ ==> (#[trigger] final(self).spec_is_adjacent(x)
                <==> old(self).spec_is_adjacent(x)),
            final(self).name == old(self).name,
            final(self).continent == old(self).continent,
    {
        if !contains_name(&self.adjacent_territories, adjacent) {
            let key: String = adjacent.to_owned();
            proof {
                lemma_names_push(self.adjacent_territories@, key);
            }
            self.adjacent_territories.push(key);
        }
    }

    pub fn is_adjacent(&self, territory: &str) -> (r: bool)
        ensures
            r == self.spec_is_adjacent(territory@),
    {
        contains_name(&self.adjacent_territories, territory)
    }

    pub fn get_continent(&self) -> (r: &str)
        ensures
            r@ == self.continent@,
    {
        self.continent.as_str()
    }
}

} // verus!
