//! Splitting the entries of a table into the parts used to fit and to judge
//! a model of it.

use crate::field::{lemma_filter_next, Field};
use crate::random::draw_below;
use crate::solve_markov::admissible;
use crate::utility::{listing, Entry, Table, UtilityMap};
use rand::rngs::StdRng;
use vstd::multiset::Multiset;
use vstd::prelude::*;
use vstd::seq_lib::to_multiset_build;

verus! {

/// The parts into which the entries of a table are split.
#[derive(Debug, Clone, Copy, PartialEq, Eq, Structural)]
pub enum Part {
    Training,
    Testing,
    Validation,
}

/// The entries of a table, split three ways.
#[derive(Debug, Clone, PartialEq, Eq)]
pub struct Partition {
    pub training: Vec<Entry>,
    pub testing: Vec<Entry>,
    pub validation: Vec<Entry>,
}

/// The part for a number drawn below one hundred: seventy in a hundred go to
/// training, fifteen to testing, fifteen to validation.
pub open spec fn part_for(draw: int) -> Part {
    if draw < 70 {
        Part::Training
    } else if draw < 85 {
        Part::Testing
    } else {
        Part::Validation
    }
}

/// The test that keeps the entries of admissible placements.
pub open spec fn fit(n: int) -> spec_fn(Entry) -> bool {
    |e: Entry| admissible(n, e.0.0, e.0.1)
}

/// The entries of a table that are split: those of admissible placements,
/// in the order of the listing.
pub open spec fn split_entries(values: Table, n: int) -> Seq<
    Entry,
> {
    listing(values, n).filter(fit(n))
}

impl Partition {
    /// The entries of all three parts, as a bag.
    pub open spec fn all(&self) -> Multiset<Entry> {
        self.training@.to_multiset().add(self.testing@.to_multiset()).add(
            self.validation@.to_multiset(),
        )
    }
}

/// The part for a number drawn below one hundred.
pub fn part_of(draw: usize) -> (part: Part)
    ensures
        part == part_for(draw as int),
{
    if draw < 70 {
        Part::Training
    } else if draw < 85 {
        Part::Testing
    } else {
        Part::Validation
    }
}

/// Splits the entries of the admissible placements of a table into three
/// parts. For each entry a number below one hundred is drawn from `rng`, and
/// `part_of` says where the entry goes. Every such entry lands in exactly one
/// part.
pub fn partition_data(map: &UtilityMap, rng: &mut StdRng) -> (parts: Partition)
    ensures
        parts.all() == split_entries(map@, map.side()).to_multiset(),
{
    let board = Field::sized(map.size());
    let list = map.entries();
    let ghost n = map.side();
    let ghost keep = fit(n);
    let mut parts = Partition { training: Vec::new(), testing: Vec::new(), validation: Vec::new() };
    let mut i: usize = 0;
    assert(list@.take(0).filter(keep) =~= Seq::<Entry>::empty()) by {
        reveal(Seq::filter);
    }
    proof {
        let none = Seq::<Entry>::empty();
        none.to_multiset_ensures();
        assert(parts.training@ =~= none && parts.testing@ =~= none && parts.validation@ =~= none);
        assert forall|e: Entry| none.to_multiset().count(e) == 0 by {
            assert(!none.contains(e));
        }
        assert(parts.all() =~= none.to_multiset());
    }
    while i < list.len()
        invariant
            board.wf(),
            board.side() == n,
            keep == fit(n),
            list@ == listing(map@, n),
            i <= list@.len(),
            parts.all() == list@.take(i as int).filter(keep).to_multiset(),
        decreases list@.len() - i,
    {
        let entry = list[i];
        let sheep = entry.0.0;
        let dog = entry.0.1;
        proof {
            lemma_filter_next(list@, keep, i as int);
        }
        if board.is_open_at(sheep.x, sheep.y) && board.is_open_at(dog.x, dog.y) {
            let ghost before = parts;
            let ghost kept = list@.take(i as int).filter(keep);
            proof {
                to_multiset_build(kept, entry);
                to_multiset_build(before.training@, entry);
                to_multiset_build(before.testing@, entry);
                to_multiset_build(before.validation@, entry);
            }
            match part_of(draw_below(rng, 100)) {
                Part::Training => {
                    parts.training.push(entry);
                },
                Part::Testing => {
                    parts.testing.push(entry);
                },
                Part::Validation => {
                    parts.validation.push(entry);
                },
            }
            assert(parts.all() =~= before.all().insert(entry));
        }
        i += 1;
    }
    assert(list@.take(list@.len() as int) =~= list@);
    parts
}

} // verus!
