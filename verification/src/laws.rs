//! What holds of the collision phase, whatever the ants and the graph.

use crate::agents::{
    crowded, destructions, dies, doomed_colonies, has_collision, meet_at, survivors, Agent,
    Destruction,
};
use crate::collision::{
    asks_for, graph_without, grown_from, leads_back, lemma_index_of, lemma_quiet_phase,
    reverse_needed, severed, table_after, Cut,
};
use crate::directions::{lemma_opposite_is_involution, opposite_handle, opposite_name};
use crate::graph::{has_tunnel, no_dangling_tunnel, GraphModel};
use crate::movement::{has_exit, moved_from, step_allowed};
use crate::symbols::{Handle, MAX_SYMBOLS};
use vstd::prelude::*;

verus! {

/// Every ant is in a colony of the graph.
pub open spec fn all_placed(graph: GraphModel, agents: Seq<Agent>) -> bool {
    forall|i: int| 0 <= i < agents.len() ==> graph.contains_key((#[trigger] agents[i]).location)
}

/// Every tunnel has its way back: its direction has a reverse that the table holds, and
/// the tunnel that leaves its destination in that reverse direction leads to where it
/// came from.
pub open spec fn two_way(graph: GraphModel, table: Seq<Seq<char>>) -> bool {
    forall|colony: Handle, direction: Handle| #[trigger]
        has_tunnel(graph, colony, direction) ==> {
            &&& opposite_handle(table, direction) is Some
            &&& has_tunnel(
                graph,
                graph[colony][direction],
                opposite_handle(table, direction)->0,
            )
            &&& graph[graph[colony][direction]][opposite_handle(table, direction)->0] == colony
        }
}

/// Each item that a filter keeps is an item of the list that passes the filter.
pub proof fn lemma_filter_member<A>(items: Seq<A>, keep: spec_fn(A) -> bool, a: int)
    requires
        0 <= a < items.filter(keep).len(),
    ensures
        exists|p: int| 0 <= p < items.len() && #[trigger] items[p] == items.filter(keep)[a],
        keep(items.filter(keep)[a]),
    decreases items.len(),
{
    reveal(Seq::filter);
    if items.len() > 0 {
        let rest = items.drop_last();
        let kept = rest.filter(keep);
        if a < kept.len() {
            lemma_filter_member(rest, keep, a);
            let p = choose|p: int| 0 <= p < rest.len() && #[trigger] rest[p] == kept[a];
            assert(items[p] == items.filter(keep)[a]);
        } else {
            assert(items[items.len() - 1] == items.filter(keep)[a]);
        }
    }
}

/// A filter keeps the order: of two items that it keeps, the earlier stands earlier in
/// the list.
pub proof fn lemma_filter_order<A>(items: Seq<A>, keep: spec_fn(A) -> bool, a: int, b: int)
    requires
        0 <= a < b < items.filter(keep).len(),
    ensures
        exists|p: int, q: int|
            0 <= p < q < items.len() && #[trigger] items[p] == items.filter(keep)[a]
                && #[trigger] items[q] == items.filter(keep)[b],
    decreases items.len(),
{
    reveal(Seq::filter);
    if items.len() > 0 {
        let rest = items.drop_last();
        let kept = rest.filter(keep);
        let all = items.filter(keep);
        if b < kept.len() {
            lemma_filter_order(rest, keep, a, b);
            let (p, q) = choose|p: int, q: int|
                0 <= p < q < rest.len() && #[trigger] rest[p] == kept[a] && #[trigger] rest[q]
                    == kept[b];
            assert(items[p] == all[a] && items[q] == all[b]);
        } else {
            lemma_filter_member(rest, keep, a);
            let p = choose|p: int| 0 <= p < rest.len() && #[trigger] rest[p] == kept[a];
            let q = items.len() - 1;
            assert(items[p] == all[a] && items[q] == all[b]);
        }
    }
}

/// The graph and the ants are as the simulation keeps them: no tunnel leads to a colony
/// that the graph does not have, every tunnel has its way back, and every ant is in a
/// colony of the graph.
pub open spec fn settled(graph: GraphModel, table: Seq<Seq<char>>, agents: Seq<Agent>) -> bool {
    &&& no_dangling_tunnel(graph)
    &&& two_way(graph, table)
    &&& all_placed(graph, agents)
}

/// After a movement phase every ant is in a colony of the graph, if every ant was in one
/// before and no tunnel leads to a colony that the graph does not have.
pub proof fn lemma_moved_are_placed(graph: GraphModel, before: Seq<Agent>, after: Seq<Agent>)
    requires
        no_dangling_tunnel(graph),
        all_placed(graph, before),
        moved_from(graph, before, after),
    ensures
        all_placed(graph, after),
{
    assert forall|i: int| 0 <= i < after.len() implies graph.contains_key(
        (#[trigger] after[i]).location,
    ) by {
        let from = before[i].location;
        let to = after[i].location;
        assert(step_allowed(graph, from, to));
        if has_exit(graph, from) {
            let direction = choose|direction: Handle| #[trigger]
                has_tunnel(graph, from, direction) && graph[from][direction] == to;
            assert(has_tunnel(graph, from, direction));
        }
    }
}

/// After a collision phase every ant that is left is in a colony of the graph, if every
/// ant was in one before.
pub proof fn lemma_survivors_are_placed(
    graph: GraphModel,
    agents: Seq<Agent>,
    table: Seq<Seq<char>>,
)
    requires
        all_placed(graph, agents),
    ensures
        all_placed(graph_without(graph, doomed_colonies(agents), table), survivors(agents)),
{
    let doomed = doomed_colonies(agents);
    let alive = |agent: Agent| !dies(agents, doomed, agent.id);
    let left = survivors(agents);
    assert forall|k: int| 0 <= k < left.len() implies graph_without(
        graph,
        doomed,
        table,
    ).contains_key((#[trigger] left[k]).location) by {
        lemma_filter_member(agents, alive, k);
        let p = choose|p: int| 0 <= p < agents.len() && #[trigger] agents[p] == left[k];
        assert(!dies(agents, doomed, agents[p].id));
        assert(!doomed.contains(agents[p].location));
    }
}

/// After a collision phase no two ants share a colony.
pub proof fn lemma_survivors_do_not_collide(agents: Seq<Agent>)
    ensures
        !has_collision(survivors(agents)),
{
    let doomed = doomed_colonies(agents);
    let alive = |agent: Agent| !dies(agents, doomed, agent.id);
    let left = survivors(agents);
    if has_collision(left) {
        let (a, b) = choose|a: int, b: int|
            0 <= a < b < left.len() && #[trigger] meet_at(left, a, b, left[a].location);
        lemma_filter_order(agents, alive, a, b);
        let (p, q) = choose|p: int, q: int|
            0 <= p < q < agents.len() && #[trigger] agents[p] == left[a] && #[trigger] agents[q]
                == left[b];
        assert(meet_at(agents, p, q, agents[p].location));
        assert(crowded(agents, agents[p].location));
        assert(dies(agents, doomed, agents[p].id));
        lemma_filter_member(agents, alive, a);
    }
}

/// A table that grows only by names that it holds does not grow.
pub proof fn lemma_nothing_new(before: Seq<Seq<char>>, after: Seq<Seq<char>>)
    requires
        grown_from(after, before),
        after.no_duplicates(),
        forall|name: Seq<char>| after.contains(name) ==> before.contains(name),
    ensures
        after == before,
{
    if after.len() > before.len() {
        let extra = after[before.len() as int];
        assert(after.contains(extra));
        let i = before.index_of(extra);
        assert(0 <= i < before.len() && before[i] == extra);
        assert(after[i] == extra);
    }
    assert(after =~= before);
}

/// Detection is idempotent: a collision phase that finds no two ants in one colony
/// changes nothing, neither the ants nor the graph nor the table, and reports nothing. So
/// does every collision phase that follows one without a movement phase in between,
/// since the ants that a collision phase leaves do not collide.
pub proof fn lemma_detection_idempotent(
    graph: GraphModel,
    agents: Seq<Agent>,
    before: Seq<Seq<char>>,
    after: Seq<Seq<char>>,
)
    requires
        !has_collision(agents),
        table_after(graph, doomed_colonies(agents), before, after),
    ensures
        destructions(agents) == Seq::<Destruction>::empty(),
        survivors(agents) == agents,
        graph_without(graph, doomed_colonies(agents), after) == graph,
        after == before,
        !has_collision(survivors(agents)),
{
    lemma_quiet_phase(graph, agents, after);
    lemma_quiet_phase(graph, agents, before);
    lemma_nothing_new(before, after);
}

/// In a graph where every tunnel has its way back, the reverse of the reverse of a
/// tunnel's direction is that direction.
pub proof fn lemma_way_back_of_way_back(
    graph: GraphModel,
    table: Seq<Seq<char>>,
    colony: Handle,
    direction: Handle,
)
    requires
        table.no_duplicates(),
        table.len() <= MAX_SYMBOLS,
        has_tunnel(graph, colony, direction),
        opposite_handle(table, direction) is Some,
    ensures
        opposite_handle(table, opposite_handle(table, direction)->0) == Some(direction),
{
    let name = table[direction as int];
    let reverse = opposite_name(name)->0;
    let position = table.index_of(reverse);
    assert(0 <= position < table.len() && table[position] == reverse);
    let back = position as Handle;
    assert(opposite_handle(table, direction) == Some(back));
    assert(table[back as int] == reverse);
    lemma_opposite_is_involution(name);
    assert(opposite_name(reverse) == Some(name));
    lemma_index_of(table, direction as int);
    assert(table.contains(name));
    assert(table.index_of(name) == direction);
}

/// After a collision phase no tunnel leads to a colony that the graph does not have, in
/// a graph where that held before and every tunnel had its way back. Every tunnel still
/// has its way back, and the table is as it was.
pub proof fn lemma_no_dangling_after_collision(
    graph: GraphModel,
    agents: Seq<Agent>,
    before: Seq<Seq<char>>,
    after: Seq<Seq<char>>,
)
    requires
        no_dangling_tunnel(graph),
        two_way(graph, before),
        before.no_duplicates(),
        before.len() <= MAX_SYMBOLS,
        table_after(graph, doomed_colonies(agents), before, after),
    ensures
        after == before,
        no_dangling_tunnel(graph_without(graph, doomed_colonies(agents), after)),
        two_way(graph_without(graph, doomed_colonies(agents), after), after),
{
    let doomed = doomed_colonies(agents);
    assert forall|name: Seq<char>| after.contains(name) implies before.contains(name) by {
        if reverse_needed(graph, doomed, before, name) {
            let (from, back) = choose|from: Handle, back: Handle|
                asks_for(graph, doomed, before, from, back, name);
            assert(has_tunnel(graph, from, back));
            assert(opposite_handle(before, back) is Some);
        }
    }
    lemma_nothing_new(before, after);
    let left = graph_without(graph, doomed, after);
    assert forall|colony: Handle, direction: Handle| #[trigger]
        has_tunnel(left, colony, direction) implies left.contains_key(left[colony][direction])
        && opposite_handle(after, direction) is Some && has_tunnel(
        left,
        left[colony][direction],
        opposite_handle(after, direction)->0,
    ) && left[left[colony][direction]][opposite_handle(after, direction)->0] == colony by {
        assert(has_tunnel(graph, colony, direction));
        let end = graph[colony][direction];
        let back = opposite_handle(before, direction)->0;
        assert(has_tunnel(graph, end, back) && graph[end][back] == colony);
        assert(!severed(graph, doomed, after, Cut { colony, direction }));
        lemma_way_back_of_way_back(graph, before, colony, direction);
        if doomed.contains(end) {
            assert(leads_back(graph, doomed, after, end, back, Cut { colony, direction }));
        }
        if severed(graph, doomed, after, Cut { colony: end, direction: back }) {
            let (from, other) = choose|from: Handle, other: Handle|
                leads_back(graph, doomed, after, from, other, Cut { colony: end, direction: back });
            assert(has_tunnel(graph, from, other));
            assert(graph[end][back] == from);
        }
    }
}

/// In a graph where every tunnel has its way back, a collision phase severs every tunnel
/// that led to a doomed colony, in whatever direction it left.
pub proof fn lemma_ways_into_doomed_are_severed(
    graph: GraphModel,
    agents: Seq<Agent>,
    table: Seq<Seq<char>>,
    colony: Handle,
    direction: Handle,
)
    requires
        two_way(graph, table),
        table.no_duplicates(),
        table.len() <= MAX_SYMBOLS,
        has_tunnel(graph, colony, direction),
        crowded(agents, graph[colony][direction]),
    ensures
        !has_tunnel(graph_without(graph, doomed_colonies(agents), table), colony, direction),
{
    let doomed = doomed_colonies(agents);
    let end = graph[colony][direction];
    let back = opposite_handle(table, direction)->0;
    assert(has_tunnel(graph, end, back) && graph[end][back] == colony);
    lemma_way_back_of_way_back(graph, table, colony, direction);
    assert(leads_back(graph, doomed, table, end, back, Cut { colony, direction }));
}

/// Collision correctness: two ants in one colony destroy it. The colony is gone from the
/// graph, neither ant is left, nor any ant that shares an identity with one of them, and
/// each neighbour to which a tunnel of the colony led has lost the tunnel that left it
/// in the reverse direction, where the table holds that reverse.
pub proof fn lemma_collision_correctness(
    graph: GraphModel,
    agents: Seq<Agent>,
    table: Seq<Seq<char>>,
    a: int,
    b: int,
)
    requires
        0 <= a < b < agents.len(),
        agents[a].location == agents[b].location,
    ensures
        !graph_without(graph, doomed_colonies(agents), table).contains_key(agents[a].location),
        forall|k: int|
            0 <= k < survivors(agents).len() ==> (#[trigger] survivors(agents)[k]).id
                != agents[a].id && survivors(agents)[k].id != agents[b].id,
        forall|direction: Handle, back: Handle|
            has_tunnel(graph, agents[a].location, direction) && opposite_handle(table, direction)
                == Some(back) ==> !(#[trigger] has_tunnel(
                graph_without(graph, doomed_colonies(agents), table),
                graph[agents[a].location][direction],
                back,
            )),
{
    let doomed = doomed_colonies(agents);
    let alive = |agent: Agent| !dies(agents, doomed, agent.id);
    let here = agents[a].location;
    assert(meet_at(agents, a, b, here));
    assert(doomed.contains(here));
    assert(dies(agents, doomed, agents[a].id));
    assert(dies(agents, doomed, agents[b].id));
    assert forall|k: int| 0 <= k < survivors(agents).len() implies (#[trigger] survivors(
        agents,
    )[k]).id != agents[a].id && survivors(agents)[k].id != agents[b].id by {
        lemma_filter_member(agents, alive, k);
    }
    assert forall|direction: Handle, back: Handle|
        has_tunnel(graph, here, direction) && opposite_handle(table, direction) == Some(
            back,
        ) implies !(#[trigger] has_tunnel(
        graph_without(graph, doomed, table),
        graph[here][direction],
        back,
    )) by {
        let cut = Cut { colony: graph[here][direction], direction: back };
        assert(leads_back(graph, doomed, table, here, direction, cut));
        assert(severed(graph, doomed, table, cut));
    }
}

} // verus!
