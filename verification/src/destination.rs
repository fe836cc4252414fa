//! The choice of a destination for every source of a generated trace.

use crate::ids::SourceId;
use rand::distributions::{Distribution, Uniform};
use std::collections::HashMap;
use vstd::prelude::*;

verus! {

/// The ways to choose the destinations of the sources.
#[derive(Copy, Clone, Debug, PartialEq, Eq, Structural)]
pub enum DestinationSelectionType {
    Uniform,
    RoundRobin,
    Normal,
}

/// The destinations of the sources where source `i` of `sources` gets
/// destination `i` of `destinations`. A source that is listed more than once
/// keeps the destination of its last place.
pub open spec fn assignment(sources: Seq<SourceId>, destinations: Seq<u64>) -> Map<u64, u64>
    decreases sources.len(),
{
    if sources.len() == 0 {
        Map::empty()
    } else {
        assignment(sources.drop_last(), destinations).insert(
            sources.last().0,
            destinations[sources.len() - 1],
        )
    }
}

/// Some source of `sources` has the number `k`.
pub open spec fn lists_source(sources: Seq<SourceId>, k: u64) -> bool {
    exists|i: int| 0 <= i < sources.len() && (#[trigger] sources[i]).0 == k
}

/// Every source of `sources` has a destination below `number_of_destinations`,
/// and nothing else has one.
pub open spec fn assigns_within(
    map: Map<u64, u64>,
    number_of_destinations: u64,
    sources: Seq<SourceId>,
) -> bool {
    &&& forall|k: u64| #[trigger] map.contains_key(k) <==> lists_source(sources, k)
    &&& forall|k: u64| #[trigger] map.contains_key(k) ==> map[k] < number_of_destinations
}

/// An assignment of destinations below a bound gives every source a
/// destination below the bound, and nothing else one.
pub proof fn lemma_assignment_within(
    sources: Seq<SourceId>,
    destinations: Seq<u64>,
    number_of_destinations: u64,
)
    requires
        destinations.len() == sources.len(),
        forall|i: int| 0 <= i < destinations.len() ==> destinations[i] < number_of_destinations,
    ensures
        assigns_within(assignment(sources, destinations), number_of_destinations, sources),
    decreases sources.len(),
{
    let map = assignment(sources, destinations);
    if sources.len() == 0 {
    } else {
        let front = sources.drop_last();
        let before = assignment(front, destinations);
        lemma_assignment_prefix(front, destinations, destinations.take(front.len() as int));
        lemma_assignment_within(
            front,
            destinations.take(front.len() as int),
            number_of_destinations,
        );
        assert forall|k: u64| #[trigger] map.contains_key(k) <==> lists_source(sources, k) by {
            assert(before.contains_key(k) <==> lists_source(front, k));
            if lists_source(front, k) {
                let x = choose|x: int| 0 <= x < front.len() && (#[trigger] front[x]).0 == k;
                assert(sources[x].0 == k);
            }
            if lists_source(sources, k) {
                let x = choose|x: int| 0 <= x < sources.len() && (#[trigger] sources[x]).0 == k;
                if x < front.len() {
                    assert(front[x].0 == k);
                }
            }
            assert(sources[sources.len() - 1] == sources.last());
        }
    }
}

/// An assignment looks at as many destinations as there are sources.
pub proof fn lemma_assignment_prefix(sources: Seq<SourceId>, a: Seq<u64>, b: Seq<u64>)
    requires
        sources.len() <= a.len(),
        sources.len() <= b.len(),
        forall|i: int| 0 <= i < sources.len() ==> a[i] == b[i],
    ensures
        assignment(sources, a) == assignment(sources, b),
    decreases sources.len(),
{
    if sources.len() > 0 {
        lemma_assignment_prefix(sources.drop_last(), a, b);
    }
}

/// The destinations that the sources get in turn: the first source the
/// destination 0, the next the destination 1, and so on, starting again at 0
/// after the last destination. A source that is listed more than once keeps
/// the destination of its last place.
pub open spec fn round_robin_assignment(
    sources: Seq<SourceId>,
    number_of_destinations: u64,
) -> Map<u64, u64>
    decreases sources.len(),
{
    if sources.len() == 0 {
        Map::empty()
    } else {
        round_robin_assignment(sources.drop_last(), number_of_destinations).insert(
            sources.last().0,
            ((sources.len() - 1) % (number_of_destinations as int)) as u64,
        )
    }
}

/// Draws a destination with `rand`: builds `Uniform::from` over the range
/// from 0 up to, and without, `number_of_destinations`, and takes one `sample`
/// from it with the generator of `thread_rng`. What is claimed is the range of
/// the sample, which the range that is handed over excludes at its upper end;
/// an empty range makes `Uniform::from` panic and is ruled out.
#[verifier::external_body]
fn sample_destination(number_of_destinations: u64) -> (d: u64)
    requires
        number_of_destinations > 0,
    ensures
        d < number_of_destinations,
{
    Uniform::from(0..number_of_destinations).sample(&mut rand::thread_rng())
}

/// Chooses a destination for every source in the way that `selection_type`
/// names. The result maps the number of each source to the number of its
/// destination.
///
/// There is no choice by a normal distribution: `Normal` is not taken.
pub fn destination_selection(
    selection_type: &DestinationSelectionType,
    number_of_destinations: u64,
    source_id_list: Vec<SourceId>,
) -> (map: HashMap<u64, u64>)
    requires
        !(selection_type is Normal),
        number_of_destinations > 0 || (selection_type is RoundRobin && source_id_list@.len()
            == 0),
    ensures
        selection_type is Uniform ==> assigns_within(
            map@,
            number_of_destinations,
            source_id_list@,
        ),
        selection_type is RoundRobin ==> map@ == round_robin_assignment(
            source_id_list@,
            number_of_destinations,
        ),
{
    match selection_type {
        DestinationSelectionType::Uniform => {
            uniform_destination_selection(number_of_destinations, source_id_list)
        },
        DestinationSelectionType::RoundRobin => {
            round_robin_destination_selection(number_of_destinations, source_id_list)
        },
        DestinationSelectionType::Normal => HashMap::new(),
    }
}

/// Gives source `i` of the list the destination `i` of `destinations`.
pub fn assign_destinations(source_id_list: Vec<SourceId>, destinations: &Vec<u64>) -> (map:
    HashMap<u64, u64>)
    requires
        destinations@.len() == source_id_list@.len(),
    ensures
        map@ == assignment(source_id_list@, destinations@),
{
    let ghost sources = source_id_list@;
    let mut map: HashMap<u64, u64> = HashMap::new();
    let mut i: usize = 0;
    while i < source_id_list.len()
        invariant
            sources == source_id_list@,
            destinations@.len() == sources.len(),
            i <= sources.len(),
            map@ == assignment(sources.take(i as int), destinations@),
        decreases sources.len() - i,
    {
        map.insert(source_id_list[i].0, destinations[i]);
        proof {
            let t1 = sources.take(i + 1);
            assert(t1.drop_last() == sources.take(i as int));
            assert(t1.last() == sources[i as int]);
        }
        i += 1;
    }
    proof {
        assert(sources.take(sources.len() as int) == sources);
    }
    map
}

/// Gives every source a destination that is drawn at random from all
/// destinations.
pub fn uniform_destination_selection(
    number_of_destinations: u64,
    source_id_list: Vec<SourceId>,
) -> (map: HashMap<u64, u64>)
    requires
        number_of_destinations > 0,
    ensures
        assigns_within(map@, number_of_destinations, source_id_list@),
{
    let mut destinations: Vec<u64> = Vec::with_capacity(source_id_list.len());
    let mut i: usize = 0;
    while i < source_id_list.len()
        invariant
            number_of_destinations > 0,
            i <= source_id_list@.len(),
            destinations@.len() == i,
            forall|x: int| 0 <= x < i ==> destinations@[x] < number_of_destinations,
        decreases source_id_list@.len() - i,
    {
        destinations.push(sample_destination(number_of_destinations));
        i += 1;
    }
    proof {
        lemma_assignment_within(source_id_list@, destinations@, number_of_destinations);
    }
    assign_destinations(source_id_list, &destinations)
}

/// Gives the sources the destinations in turn.
pub fn round_robin_destination_selection(
    number_of_destinations: u64,
    source_id_list: Vec<SourceId>,
) -> (map: HashMap<u64, u64>)
    requires
        number_of_destinations > 0 || source_id_list@.len() == 0,
    ensures
        map@ == round_robin_assignment(source_id_list@, number_of_destinations),
{
    let ghost sources = source_id_list@;
    let mut map: HashMap<u64, u64> = HashMap::new();
    let mut i: usize = 0;
    while i < source_id_list.len()
        invariant
            sources == source_id_list@,
            number_of_destinations > 0 || sources.len() == 0,
            i <= sources.len(),
            map@ == round_robin_assignment(sources.take(i as int), number_of_destinations),
        decreases sources.len() - i,
    {
        let source_id: SourceId = source_id_list[i];
        map.insert(source_id.0, (i as u64) % number_of_destinations);
        proof {
            let t1 = sources.take(i + 1);
            assert(t1.drop_last() == sources.take(i as int));
            assert(t1.last() == source_id);
        }
        i += 1;
    }
    proof {
        assert(sources.take(sources.len() as int) == sources);
    }
    map
}

} // verus!
