//! The movement phase: every ant leaves its colony through a tunnel picked at random.

use crate::agents::Agent;
use crate::errors::SimulationError;
use crate::graph::{has_tunnel, GraphModel, Tunnel, WorldGraph};
use crate::symbols::Handle;
use rand::seq::IndexedRandom;
use vstd::prelude::*;

verus! {

/// Some tunnel leaves `colony`.
pub open spec fn has_exit(graph: GraphModel, colony: Handle) -> bool {
    exists|direction: Handle| has_tunnel(graph, colony, direction)
}

/// Some tunnel leads from `from` to `to`.
pub open spec fn adjacent(graph: GraphModel, from: Handle, to: Handle) -> bool {
    exists|direction: Handle| #[trigger]
        has_tunnel(graph, from, direction) && graph[from][direction] == to
}

/// An ant in `from` may be in `to` after the movement phase: at the end of one of the
/// tunnels that leave `from`, or still in `from` where no tunnel leaves it.
pub open spec fn step_allowed(graph: GraphModel, from: Handle, to: Handle) -> bool {
    if has_exit(graph, from) {
        adjacent(graph, from, to)
    } else {
        to == from
    }
}

/// The ants of `after` are those of `before`, each moved by one allowed step.
pub open spec fn moved_from(graph: GraphModel, before: Seq<Agent>, after: Seq<Agent>) -> bool {
    &&& after.len() == before.len()
    &&& forall|i: int|
        0 <= i < before.len() ==> (#[trigger] after[i]).id == before[i].id && step_allowed(
            graph,
            before[i].location,
            after[i].location,
        )
}

/// `IndexedRandom::choose` of rand, with the generator of the current thread: nothing
/// from an empty list, else one of the listed handles. Which one is left open.
#[verifier::external_body]
fn choose_one(options: &Vec<Handle>) -> (picked: Option<Handle>)
    ensures
        picked is None <==> options@.len() == 0,
        picked matches Some(handle) ==> options@.contains(handle),
{
    options.choose(&mut rand::rng()).copied()
}

/// Where an ant is once the pick has been made: in the colony picked, or where it was if
/// there was nothing to pick.
pub fn settle(location: Handle, picked: Option<Handle>) -> (next: Handle)
    ensures
        next == (match picked {
            Some(colony) => colony,
            None => location,
        }),
{
    match picked {
        Some(colony) => colony,
        None => location,
    }
}

/// The colonies to which the listed tunnels lead, in the order of the list.
pub fn destinations(exits: &Vec<Tunnel>) -> (ends: Vec<Handle>)
    ensures
        ends@.len() == exits@.len(),
        forall|i: int| 0 <= i < exits@.len() ==> ends@[i] == (#[trigger] exits@[i]).destination,
{
    let mut ends: Vec<Handle> = Vec::new();
    let mut n: usize = 0;
    while n < exits.len()
        invariant
            n <= exits@.len(),
            ends@.len() == n,
            forall|i: int| 0 <= i < n ==> ends@[i] == (#[trigger] exits@[i]).destination,
        decreases exits@.len() - n,
    {
        ends.push(exits[n].destination);
        n = n + 1;
    }
    ends
}

/// Moves one ant: it goes through one of the tunnels that leave its colony, each tunnel
/// being as likely as the others. An ant in a colony without tunnels, or in a colony that
/// the graph does not have, stays where it is.
pub fn move_ant(graph: &WorldGraph, location: Handle) -> (next: Handle)
    ensures
        step_allowed(graph@, location, next),
{
    let exits = graph.exits(location);
    let ends = destinations(&exits);
    let picked = choose_one(&ends);
    proof {
        if has_exit(graph@, location) {
            let direction = choose|direction: Handle| has_tunnel(graph@, location, direction);
            assert(exits@.contains(
                Tunnel { direction, destination: graph@[location][direction] },
            ));
            assert(ends@.len() > 0);
        }
        if let Some(colony) = picked {
            let i = ends@.index_of(colony);
            assert(0 <= i < ends@.len() && ends@[i] == colony);
            assert(has_tunnel(graph@, location, exits@[i].direction));
            assert(graph@[location][exits@[i].direction] == colony);
        }
    }
    settle(location, picked)
}

/// The movement phase on one chunk of the list, as one worker makes it: every ant of the
/// chunk makes one allowed step. The graph is only read.
pub fn move_chunk(ants: &mut [Agent], graph: &WorldGraph)
    ensures
        moved_from(graph@, old(ants)@, final(ants)@),
{
    let ghost before = ants@;
    let mut n: usize = 0;
    while n < ants.len()
        invariant
            n <= ants@.len(),
            ants@.len() == before.len(),
            forall|i: int|
                0 <= i < n ==> (#[trigger] ants@[i]).id == before[i].id && step_allowed(
                    graph@,
                    before[i].location,
                    ants@[i].location,
                ),
            forall|i: int| n <= i < before.len() ==> ants@[i] == before[i],
        decreases ants@.len() - n,
    {
        let agent = ants[n];
        let next = move_ant(graph, agent.location);
        ants[n] = Agent { id: agent.id, location: next };
        n = n + 1;
    }
}

/// The movement phase on the whole list: every ant makes one allowed step, in its place in
/// the list and with its identity. The graph is only read.
pub fn move_ants(agents: &mut Vec<Agent>, graph: &WorldGraph)
    ensures
        moved_from(graph@, old(agents)@, final(agents)@),
{
    move_chunk(agents.as_mut_slice(), graph);
}

/// The number of ants that one worker moves: the ants shared out evenly among the
/// workers, and one at least.
pub fn chunk_size(total: usize, workers: usize) -> (size: usize)
    requires
        workers > 0,
    ensures
        size == (if total / workers >= 1 {
            total / workers
        } else {
            1
        }),
{
    let share = total / workers;
    if share >= 1 {
        share
    } else {
        1
    }
}

/// Places `count` ants, numbered from zero, each in a colony of the graph picked at
/// random, every colony being as likely as the others. A graph without colonies has no
/// place for an ant: that fails, whatever the count.
pub fn spawn_ants(graph: &WorldGraph, count: usize) -> (placed: Result<
    Vec<Agent>,
    SimulationError,
>)
    ensures
        match placed {
            Ok(agents) => {
                &&& graph@.dom().len() > 0
                &&& agents@.len() == count
                &&& forall|i: int|
                    0 <= i < count ==> (#[trigger] agents@[i]).id == i && graph@.contains_key(
                        agents@[i].location,
                    )
            },
            Err(e) => e == SimulationError::EmptyWorldGraph && graph@.dom().len() == 0,
        },
{
    let colonies = graph.colonies();
    if colonies.len() == 0 {
        return Err(SimulationError::EmptyWorldGraph);
    }
    let mut agents: Vec<Agent> = Vec::new();
    let mut n: usize = 0;
    while n < count
        invariant
            n <= count,
            colonies@.len() > 0,
            agents@.len() == n,
            forall|colony: Handle| colonies@.contains(colony) <==> graph@.contains_key(colony),
            forall|i: int|
                0 <= i < n ==> (#[trigger] agents@[i]).id == i && graph@.contains_key(
                    agents@[i].location,
                ),
        decreases count - n,
    {
        let picked = choose_one(&colonies);
        assert(colonies@.contains(colonies@[0]));
        let location = settle(colonies[0], picked);
        agents.push(Agent { id: n, location });
        n = n + 1;
    }
    Ok(agents)
}

} // verus!
