//! The collision phase: colonies that host two ants or more are destroyed with those ants,
//! and the tunnels that lead back to them from their neighbours are severed.

use crate::agents::{
    crowded, destructions, dies, doomed_colonies, find_collisions, has_collision,
    lemma_destructions, survivors, survivors_of, Agent, Destruction,
};
use crate::directions::{
    lemma_direction_names_differ, opposite_direction, opposite_handle, opposite_name,
};
use crate::graph::{has_tunnel, no_dangling_tunnel, GraphModel, Tunnel, WorldGraph};
use crate::laws::{
    all_placed, lemma_no_dangling_after_collision, lemma_survivors_are_placed,
    lemma_survivors_do_not_collide, two_way,
};
use crate::symbols::{Handle, SymbolTable, MAX_SYMBOLS};
use std::collections::HashSet;
use vstd::prelude::*;

verus! {

/// A tunnel to be filled in: the colony it leaves, and its direction.
#[derive(Clone, Copy, Debug, PartialEq, Eq, Structural)]
pub struct Cut {
    pub colony: Handle,
    pub direction: Handle,
}

/// Every direction in which a tunnel leaves is a handle that the table has issued.
pub open spec fn directions_known(graph: GraphModel, table: Seq<Seq<char>>) -> bool {
    forall|colony: Handle, direction: Handle| #[trigger]
        has_tunnel(graph, colony, direction) ==> direction < table.len()
}

/// How many of the four direction names the table does not hold yet.
pub open spec fn missing_directions(table: Seq<Seq<char>>) -> nat {
    (if table.contains("north"@) {
        0nat
    } else {
        1nat
    }) + (if table.contains("south"@) {
        0nat
    } else {
        1nat
    }) + (if table.contains("east"@) {
        0nat
    } else {
        1nat
    }) + (if table.contains("west"@) {
        0nat
    } else {
        1nat
    })
}

/// The table has handles left for the direction names that it does not hold yet.
pub open spec fn room_for_directions(table: Seq<Seq<char>>) -> bool {
    table.len() + missing_directions(table) <= MAX_SYMBOLS
}

/// `after` is `before` with names appended: every handle of `before` keeps its name.
pub open spec fn grown_from(after: Seq<Seq<char>>, before: Seq<Seq<char>>) -> bool {
    &&& before.len() <= after.len()
    &&& forall|i: int| 0 <= i < before.len() ==> #[trigger] after[i] == before[i]
}

/// The reverse of the direction behind `direction`, as a name.
pub open spec fn reverse_of(table: Seq<Seq<char>>, direction: Handle) -> Option<Seq<char>> {
    if direction < table.len() {
        opposite_name(table[direction as int])
    } else {
        None
    }
}

/// `tunnel` is one of the tunnels that leave `from`.
pub open spec fn leaves(graph: GraphModel, from: Handle, tunnel: Tunnel) -> bool {
    has_tunnel(graph, from, tunnel.direction) && graph[from][tunnel.direction]
        == tunnel.destination
}

/// The doomed colony `from` has a tunnel in direction `back` to the colony of `cut`, and
/// `cut` names the reverse direction: the tunnel that leads back.
pub open spec fn leads_back(
    graph: GraphModel,
    doomed: Set<Handle>,
    table: Seq<Seq<char>>,
    from: Handle,
    back: Handle,
    cut: Cut,
) -> bool {
    &&& doomed.contains(from)
    &&& has_tunnel(graph, from, back)
    &&& graph[from][back] == cut.colony
    &&& opposite_handle(table, back) == Some(cut.direction)
}

/// The tunnel that `cut` names is severed when the doomed colonies go.
pub open spec fn severed(
    graph: GraphModel,
    doomed: Set<Handle>,
    table: Seq<Seq<char>>,
    cut: Cut,
) -> bool {
    exists|from: Handle, back: Handle| leads_back(graph, doomed, table, from, back, cut)
}

/// The graph after the doomed colonies have gone: they are removed with their tunnels,
/// and every other colony loses the tunnels that are severed.
pub open spec fn graph_without(
    graph: GraphModel,
    doomed: Set<Handle>,
    table: Seq<Seq<char>>,
) -> GraphModel {
    Map::new(
        |colony: Handle| graph.contains_key(colony) && !doomed.contains(colony),
        |colony: Handle|
            graph[colony].remove_keys(
                Set::new(
                    |direction: Handle| severed(graph, doomed, table, Cut { colony, direction }),
                ),
            ),
    )
}

/// The doomed colony `from` has a tunnel in direction `back`, whose reverse is `name`.
pub open spec fn asks_for(
    graph: GraphModel,
    doomed: Set<Handle>,
    table: Seq<Seq<char>>,
    from: Handle,
    back: Handle,
    name: Seq<char>,
) -> bool {
    &&& doomed.contains(from)
    &&& has_tunnel(graph, from, back)
    &&& reverse_of(table, back) == Some(name)
}

/// `name` is the reverse of a direction in which a tunnel leaves a doomed colony.
pub open spec fn reverse_needed(
    graph: GraphModel,
    doomed: Set<Handle>,
    table: Seq<Seq<char>>,
    name: Seq<char>,
) -> bool {
    exists|from: Handle, back: Handle| asks_for(graph, doomed, table, from, back, name)
}

/// The table after a collision phase: the old names keep their handles, and the names
/// added are the reverse directions that were needed and not yet held, each once.
pub open spec fn table_after(
    graph: GraphModel,
    doomed: Set<Handle>,
    before: Seq<Seq<char>>,
    after: Seq<Seq<char>>,
) -> bool {
    &&& grown_from(after, before)
    &&& after.no_duplicates()
    &&& forall|name: Seq<char>| #[trigger]
        after.contains(name) <==> before.contains(name) || reverse_needed(
            graph,
            doomed,
            before,
            name,
        )
}

/// A name that a duplicate-free table holds is found at its one position.
pub proof fn lemma_index_of(table: Seq<Seq<char>>, position: int)
    requires
        table.no_duplicates(),
        0 <= position < table.len(),
    ensures
        table.contains(table[position]),
        table.index_of(table[position]) == position,
{
    let found = table.index_of(table[position]);
    assert(0 <= found < table.len() && table[found] == table[position]);
}

/// A reverse direction that a table knows by handle stays the same when the table grows.
pub proof fn lemma_opposite_handle_stable(
    before: Seq<Seq<char>>,
    after: Seq<Seq<char>>,
    direction: Handle,
)
    requires
        grown_from(after, before),
        after.no_duplicates(),
        opposite_handle(before, direction) is Some,
    ensures
        opposite_handle(after, direction) == opposite_handle(before, direction),
{
    let name = before[direction as int];
    assert(after[direction as int] == name);
    let reverse = opposite_name(name)->0;
    let position = before.index_of(reverse);
    assert(0 <= position < before.len() && before[position] == reverse);
    assert(after[position] == reverse);
    lemma_index_of(after, position);
}

/// Interning a direction name into a table with room for the directions leaves room.
pub proof fn lemma_room_after_intern(table: Seq<Seq<char>>, name: Seq<char>)
    requires
        room_for_directions(table),
        name == "north"@ || name == "south"@ || name == "east"@ || name == "west"@,
    ensures
        table.contains(name) || table.len() < MAX_SYMBOLS,
        !table.contains(name) ==> room_for_directions(table.push(name)),
{
    lemma_direction_names_differ();
    if !table.contains(name) {
        lemma_contains_after_intern(table, name, "north"@);
        lemma_contains_after_intern(table, name, "south"@);
        lemma_contains_after_intern(table, name, "east"@);
        lemma_contains_after_intern(table, name, "west"@);
        assert(missing_directions(table.push(name)) + 1 == missing_directions(table));
    }
}

/// `tunnel` leaves one of the first `n` colonies listed in `doomed`.
pub open spec fn leaves_listed(
    graph: GraphModel,
    doomed: Seq<Handle>,
    n: int,
    tunnel: Tunnel,
) -> bool {
    exists|m: int| 0 <= m < n && m < doomed.len() && leaves(graph, #[trigger] doomed[m], tunnel)
}

/// The tunnels that leave the colonies listed in `doomed`.
pub fn doomed_exits(graph: &WorldGraph, doomed: &Vec<Handle>) -> (leaving: Vec<Tunnel>)
    ensures
        forall|i: int|
            0 <= i < leaving@.len() ==> leaves_listed(
                graph@,
                doomed@,
                doomed@.len() as int,
                #[trigger] leaving@[i],
            ),
        forall|m: int, back: Handle|
            0 <= m < doomed@.len() && #[trigger] has_tunnel(graph@, doomed@[m], back)
                ==> leaving@.contains(
                Tunnel { direction: back, destination: graph@[doomed@[m]][back] },
            ),
{
    let mut leaving: Vec<Tunnel> = Vec::new();
    let mut n: usize = 0;
    while n < doomed.len()
        invariant
            n <= doomed@.len(),
            forall|i: int|
                0 <= i < leaving@.len() ==> leaves_listed(
                    graph@,
                    doomed@,
                    n as int,
                    #[trigger] leaving@[i],
                ),
            forall|m: int, back: Handle|
                0 <= m < n && #[trigger] has_tunnel(graph@, doomed@[m], back)
                    ==> leaving@.contains(
                    Tunnel { direction: back, destination: graph@[doomed@[m]][back] },
                ),
        decreases doomed@.len() - n,
    {
        let from = doomed[n];
        let mut exits = graph.exits(from);
        let ghost so_far = leaving@;
        let ghost found = exits@;
        leaving.append(&mut exits);
        proof {
            assert(leaving@ == so_far + found);
            assert forall|i: int| 0 <= i < leaving@.len() implies leaves_listed(
                graph@,
                doomed@,
                n + 1,
                #[trigger] leaving@[i],
            ) by {
                if i < so_far.len() {
                    assert(leaving@[i] == so_far[i]);
                    let m = choose|m: int|
                        0 <= m < n && m < doomed@.len() && leaves(
                            graph@,
                            #[trigger] doomed@[m],
                            so_far[i],
                        );
                    assert(leaves(graph@, doomed@[m], leaving@[i]));
                } else {
                    let k = i - so_far.len();
                    assert(leaving@[i] == found[k]);
                    assert(leaves(graph@, doomed@[n as int], leaving@[i]));
                }
            }
            assert forall|m: int, back: Handle|
                0 <= m < n + 1 && #[trigger] has_tunnel(
                    graph@,
                    doomed@[m],
                    back,
                ) implies leaving@.contains(
                Tunnel { direction: back, destination: graph@[doomed@[m]][back] },
            ) by {
                let wanted = Tunnel { direction: back, destination: graph@[doomed@[m]][back] };
                if m < n {
                    assert(so_far.contains(wanted));
                    let i = so_far.index_of(wanted);
                    assert(0 <= i < so_far.len() && so_far[i] == wanted);
                    assert(leaving@[i] == wanted);
                } else {
                    assert(found.contains(wanted));
                    let k = found.index_of(wanted);
                    assert(0 <= k < found.len() && found[k] == wanted);
                    assert(leaving@[so_far.len() + k] == wanted);
                }
            }
        }
        n = n + 1;
    }
    leaving
}

/// `name` is the reverse of the direction of one of the first `n` tunnels of `leaving`.
pub open spec fn reverse_listed(
    table: Seq<Seq<char>>,
    leaving: Seq<Tunnel>,
    n: int,
    name: Seq<char>,
) -> bool {
    exists|i: int|
        0 <= i < n && i < leaving.len() && reverse_of(table, (#[trigger] leaving[i]).direction)
            == Some(name)
}

/// `cut` fills in the way back of one of the first `n` tunnels of `leaving`: it leaves
/// the colony to which that tunnel leads, in the reverse direction.
pub open spec fn cut_listed(
    table: Seq<Seq<char>>,
    leaving: Seq<Tunnel>,
    n: int,
    cut: Cut,
) -> bool {
    exists|i: int|
        0 <= i < n && i < leaving.len() && (#[trigger] leaving[i]).destination == cut.colony
            && opposite_handle(table, leaving[i].direction) == Some(cut.direction)
}

/// The cut that fills in the way back of `tunnel`, where its direction has a reverse that
/// the table holds.
pub open spec fn way_back(table: Seq<Seq<char>>, tunnel: Tunnel) -> Option<Cut> {
    match opposite_handle(table, tunnel.direction) {
        Some(direction) => Some(Cut { colony: tunnel.destination, direction }),
        None => None,
    }
}

/// Plans the severing: for each tunnel of `leaving` whose direction has a reverse, the
/// reverse is interned and the tunnel that leads back in that direction is listed.
pub fn plan_cuts(leaving: &Vec<Tunnel>, symbols: &mut SymbolTable) -> (cuts: Vec<Cut>)
    requires
        old(symbols).wf(),
        room_for_directions(old(symbols)@),
        forall|i: int|
            0 <= i < leaving@.len() ==> (#[trigger] leaving@[i]).direction < old(symbols)@.len(),
    ensures
        final(symbols).wf(),
        room_for_directions(final(symbols)@),
        grown_from(final(symbols)@, old(symbols)@),
        forall|name: Seq<char>| #[trigger]
            final(symbols)@.contains(name) <==> old(symbols)@.contains(name) || reverse_listed(
                old(symbols)@,
                leaving@,
                leaving@.len() as int,
                name,
            ),
        forall|k: int|
            0 <= k < cuts@.len() ==> cut_listed(
                final(symbols)@,
                leaving@,
                leaving@.len() as int,
                #[trigger] cuts@[k],
            ),
        forall|i: int|
            0 <= i < leaving@.len() && reverse_of(
                old(symbols)@,
                (#[trigger] leaving@[i]).direction,
            ) is Some ==> way_back(final(symbols)@, leaving@[i]) is Some && cuts@.contains(
                way_back(final(symbols)@, leaving@[i])->0,
            ),
{
    let ghost start = symbols@;
    let mut cuts: Vec<Cut> = Vec::new();
    let mut n: usize = 0;
    while n < leaving.len()
        invariant
            n <= leaving@.len(),
            symbols.wf(),
            room_for_directions(symbols@),
            grown_from(symbols@, start),
            forall|i: int|
                0 <= i < leaving@.len() ==> (#[trigger] leaving@[i]).direction < start.len(),
            forall|name: Seq<char>| #[trigger]
                symbols@.contains(name) <==> start.contains(name) || reverse_listed(
                    start,
                    leaving@,
                    n as int,
                    name,
                ),
            forall|k: int|
                0 <= k < cuts@.len() ==> cut_listed(
                    symbols@,
                    leaving@,
                    n as int,
                    #[trigger] cuts@[k],
                ),
            forall|i: int|
                0 <= i < n && reverse_of(start, (#[trigger] leaving@[i]).direction) is Some
                    ==> way_back(symbols@, leaving@[i]) is Some && cuts@.contains(
                    way_back(symbols@, leaving@[i])->0,
                ),
        decreases leaving@.len() - n,
    {
        let tunnel = leaving[n];
        let ghost table = symbols@;
        let ghost listed = cuts@;
        let ghost here = n as int;
        assert(leaving@[here].direction < start.len());
        assert(table[tunnel.direction as int] == start[tunnel.direction as int]);
        let reverse = match symbols.resolve(tunnel.direction) {
            Ok(name) => opposite_direction(name.as_str()),
            Err(_) => None,
        };
        assert(match reverse {
            Some(text) => reverse_of(start, tunnel.direction) == Some(text@),
            None => reverse_of(start, tunnel.direction) is None,
        });
        match reverse {
            Some(text) => {
                proof {
                    lemma_room_after_intern(table, text@);
                }
                let direction = symbols.intern(text);
                let cut = Cut { colony: tunnel.destination, direction };
                cuts.push(cut);
                proof {
                    let grown = symbols@;
                    assert(grown_from(grown, table));
                    assert(grown[direction as int] == text@);
                    lemma_index_of(grown, direction as int);
                    assert(opposite_handle(grown, tunnel.direction) == Some(direction));
                    assert(way_back(grown, leaving@[here]) == Some(cut));
                    assert(cuts@[listed.len() as int] == cut);
                    assert forall|name: Seq<char>| #[trigger]
                        grown.contains(name) <==> start.contains(name) || reverse_listed(
                            start,
                            leaving@,
                            here + 1,
                            name,
                        ) by {
                        lemma_contains_after_intern(table, text@, name);
                        lemma_reverse_listed_step(start, leaving@, here, name);
                    }
                    assert forall|k: int| 0 <= k < cuts@.len() implies cut_listed(
                        grown,
                        leaving@,
                        here + 1,
                        #[trigger] cuts@[k],
                    ) by {
                        if k < listed.len() {
                            assert(cuts@[k] == listed[k]);
                            assert(cut_listed(table, leaving@, here, listed[k]));
                            let i = choose|i: int|
                                0 <= i < here && i < leaving@.len() && (
                                #[trigger] leaving@[i]).destination == listed[k].colony
                                    && opposite_handle(table, leaving@[i].direction) == Some(
                                    listed[k].direction,
                                );
                            lemma_opposite_handle_stable(table, grown, leaving@[i].direction);
                        } else {
                            assert(leaving@[here].destination == cut.colony);
                        }
                    }
                    assert forall|i: int|
                        0 <= i < here + 1 && reverse_of(
                            start,
                            (#[trigger] leaving@[i]).direction,
                        ) is Some implies way_back(grown, leaving@[i]) is Some
                        && cuts@.contains(way_back(grown, leaving@[i])->0) by {
                        if i < here {
                            let kept = way_back(table, leaving@[i])->0;
                            lemma_opposite_handle_stable(table, grown, leaving@[i].direction);
                            let k = listed.index_of(kept);
                            assert(0 <= k < listed.len() && listed[k] == kept);
                            assert(cuts@[k] == kept);
                        }
                    }
                }
            },
            None => {
                proof {
                    assert forall|name: Seq<char>| #[trigger]
                        table.contains(name) <==> start.contains(name) || reverse_listed(
                            start,
                            leaving@,
                            here + 1,
                            name,
                        ) by {
                        lemma_reverse_listed_step(start, leaving@, here, name);
                    }
                    assert forall|k: int| 0 <= k < cuts@.len() implies cut_listed(
                        table,
                        leaving@,
                        here + 1,
                        #[trigger] cuts@[k],
                    ) by {
                        assert(cut_listed(table, leaving@, here, cuts@[k]));
                    }
                }
            },
        }
        n = n + 1;
    }
    cuts
}

/// What a table holds after a name has been interned: what it held, and that name.
pub proof fn lemma_contains_after_intern(
    table: Seq<Seq<char>>,
    interned: Seq<char>,
    name: Seq<char>,
)
    ensures
        crate::symbols::table_with(table, interned).contains(name) <==> table.contains(name)
            || name == interned,
{
    let grown = crate::symbols::table_with(table, interned);
    if table.contains(interned) {
    } else {
        assert(grown[table.len() as int] == interned);
        if table.contains(name) {
            let i = table.index_of(name);
            assert(0 <= i < table.len() && table[i] == name);
            assert(grown[i] == name);
        }
        if grown.contains(name) {
            let i = grown.index_of(name);
            assert(0 <= i < grown.len() && grown[i] == name);
            if i < table.len() {
                assert(table[i] == name);
            }
        }
    }
}

/// The reverses listed among the first `n + 1` tunnels are those among the first `n`,
/// and the reverse of the tunnel at position `n`.
pub proof fn lemma_reverse_listed_step(
    table: Seq<Seq<char>>,
    leaving: Seq<Tunnel>,
    n: int,
    name: Seq<char>,
)
    requires
        0 <= n < leaving.len(),
    ensures
        reverse_listed(table, leaving, n + 1, name) <==> reverse_listed(table, leaving, n, name)
            || reverse_of(table, leaving[n].direction) == Some(name),
{
    if reverse_listed(table, leaving, n + 1, name) {
        let i = choose|i: int|
            0 <= i < n + 1 && i < leaving.len() && reverse_of(
                table,
                (#[trigger] leaving[i]).direction,
            ) == Some(name);
        if i < n {
            assert(reverse_listed(table, leaving, n, name));
        }
    }
    if reverse_listed(table, leaving, n, name) {
        let i = choose|i: int|
            0 <= i < n && i < leaving.len() && reverse_of(
                table,
                (#[trigger] leaving[i]).direction,
            ) == Some(name);
        assert(reverse_listed(table, leaving, n + 1, name));
    }
    if reverse_of(table, leaving[n].direction) == Some(name) {
        assert(reverse_listed(table, leaving, n + 1, name));
    }
}

/// The graph after the tunnels that `cuts` names have been filled in.
pub open spec fn graph_cut(graph: GraphModel, cuts: Set<Cut>) -> GraphModel {
    Map::new(
        |colony: Handle| graph.contains_key(colony),
        |colony: Handle|
            graph[colony].remove_keys(
                Set::new(|direction: Handle| cuts.contains(Cut { colony, direction })),
            ),
    )
}

/// What the first `n + 1` items of a list hold: what the first `n` hold, and the item at
/// position `n`.
pub proof fn lemma_take_contains<A>(items: Seq<A>, n: int, item: A)
    requires
        0 <= n < items.len(),
    ensures
        items.take(n + 1).contains(item) <==> items.take(n).contains(item) || item == items[n],
{
    let shorter = items.take(n);
    let longer = items.take(n + 1);
    if shorter.contains(item) {
        let i = shorter.index_of(item);
        assert(0 <= i < shorter.len() && shorter[i] == item);
        assert(longer[i] == item);
    }
    if item == items[n] {
        assert(longer[n] == item);
    }
    if longer.contains(item) {
        let i = longer.index_of(item);
        assert(0 <= i < longer.len() && longer[i] == item);
        if i < n {
            assert(shorter[i] == item);
        }
    }
}

/// Fills in the listed tunnels. A cut that names no tunnel of the graph changes nothing.
pub fn apply_cuts(graph: &mut WorldGraph, cuts: &Vec<Cut>)
    ensures
        final(graph)@ == graph_cut(old(graph)@, cuts@.to_set()),
{
    let ghost start = graph@;
    let mut n: usize = 0;
    assert(graph@ =~~= graph_cut(start, cuts@.take(0).to_set()));
    while n < cuts.len()
        invariant
            n <= cuts@.len(),
            graph@ == graph_cut(start, cuts@.take(n as int).to_set()),
        decreases cuts@.len() - n,
    {
        let cut = cuts[n];
        graph.remove_tunnel(cut.colony, cut.direction);
        proof {
            let done = cuts@.take(n as int).to_set();
            let next = cuts@.take(n + 1).to_set();
            assert forall|other: Cut| next.contains(other) <==> done.contains(other) || other
                == cut by {
                lemma_take_contains(cuts@, n as int, other);
            }
            assert(graph@ =~~= graph_cut(start, next));
        }
        n = n + 1;
    }
    assert(cuts@.take(cuts@.len() as int) == cuts@);
}

/// Removes the listed colonies with the tunnels that leave them.
pub fn remove_colonies(graph: &mut WorldGraph, doomed: &Vec<Handle>)
    ensures
        final(graph)@ == old(graph)@.remove_keys(doomed@.to_set()),
{
    let ghost start = graph@;
    let mut n: usize = 0;
    assert(graph@ =~= start.remove_keys(doomed@.take(0).to_set()));
    while n < doomed.len()
        invariant
            n <= doomed@.len(),
            graph@ == start.remove_keys(doomed@.take(n as int).to_set()),
        decreases doomed@.len() - n,
    {
        let colony = doomed[n];
        graph.remove_colony(colony);
        proof {
            let done = doomed@.take(n as int).to_set();
            let next = doomed@.take(n + 1).to_set();
            assert forall|other: Handle| next.contains(other) <==> done.contains(other) || other
                == colony by {
                lemma_take_contains(doomed@, n as int, other);
            }
            assert(graph@ =~= start.remove_keys(next));
        }
        n = n + 1;
    }
    assert(doomed@.take(doomed@.len() as int) == doomed@);
}

/// Removes the dead: every ant that shares its identity with an ant in a listed colony.
/// The others keep their order.
pub fn bury(agents: &mut Vec<Agent>, doomed: &Vec<Handle>)
    ensures
        final(agents)@ == survivors_of(old(agents)@, doomed@.to_set()),
{
    broadcast use vstd::std_specs::hash::group_hash_axioms;

    let ghost all = agents@;
    let ghost gone = doomed@.to_set();
    let mut lost: HashSet<Handle> = HashSet::new();
    let mut n: usize = 0;
    while n < doomed.len()
        invariant
            n <= doomed@.len(),
            forall|colony: Handle|
                lost@.contains(colony) <==> doomed@.take(n as int).contains(colony),
        decreases doomed@.len() - n,
    {
        proof {
            assert forall|colony: Handle|
                doomed@.take(n + 1).contains(colony) <==> doomed@.take(n as int).contains(colony)
                    || colony == doomed@[n as int] by {
                lemma_take_contains(doomed@, n as int, colony);
            }
        }
        lost.insert(doomed[n]);
        n = n + 1;
    }
    assert(doomed@.take(doomed@.len() as int) == doomed@);
    assert(forall|colony: Handle| lost@.contains(colony) <==> gone.contains(colony));

    let mut dead: HashSet<usize> = HashSet::new();
    let mut n: usize = 0;
    while n < agents.len()
        invariant
            n <= agents@.len(),
            agents@ == all,
            forall|colony: Handle| lost@.contains(colony) <==> gone.contains(colony),
            forall|id: usize| dead@.contains(id) <==> dies(all.take(n as int), gone, id),
        decreases agents@.len() - n,
    {
        let agent = agents[n];
        proof {
            let shorter = all.take(n as int);
            let longer = all.take(n + 1);
            assert forall|id: usize|
                dies(longer, gone, id) <==> dies(shorter, gone, id) || (id == agent.id
                    && gone.contains(agent.location)) by {
                if dies(shorter, gone, id) {
                    let i = choose|i: int|
                        0 <= i < shorter.len() && (#[trigger] shorter[i]).id == id
                            && gone.contains(shorter[i].location);
                    assert(longer[i] == shorter[i]);
                }
                if id == agent.id && gone.contains(agent.location) {
                    assert(longer[n as int] == agent);
                }
                if dies(longer, gone, id) {
                    let i = choose|i: int|
                        0 <= i < longer.len() && (#[trigger] longer[i]).id == id
                            && gone.contains(longer[i].location);
                    if i < n {
                        assert(shorter[i] == longer[i]);
                    }
                }
            }
        }
        if lost.contains(&agent.location) {
            dead.insert(agent.id);
        }
        n = n + 1;
    }
    assert(all.take(all.len() as int) == all);

    let ghost alive = |agent: Agent| !dies(all, gone, agent.id);
    let mut kept: Vec<Agent> = Vec::new();
    let mut n: usize = 0;
    assert(all.take(0).filter(alive) == Seq::<Agent>::empty()) by {
        reveal(Seq::filter);
    }
    while n < agents.len()
        invariant
            n <= agents@.len(),
            agents@ == all,
            alive == |agent: Agent| !dies(all, gone, agent.id),
            forall|id: usize| dead@.contains(id) <==> dies(all, gone, id),
            kept@ == all.take(n as int).filter(alive),
        decreases agents@.len() - n,
    {
        let agent = agents[n];
        proof {
            let longer = all.take(n + 1);
            assert(longer.drop_last() == all.take(n as int));
            assert(longer.last() == agent);
            reveal(Seq::filter);
        }
        if !dead.contains(&agent.id) {
            kept.push(agent);
        }
        n = n + 1;
    }
    *agents = kept;
}

/// Whether the table has handles left for the direction names that it does not hold yet.
pub fn has_room_for_directions(symbols: &SymbolTable) -> (room: bool)
    requires
        symbols.wf(),
    ensures
        room == room_for_directions(symbols@),
{
    let mut missing: usize = 0;
    if symbols.lookup("north").is_none() {
        missing = missing + 1;
    }
    if symbols.lookup("south").is_none() {
        missing = missing + 1;
    }
    if symbols.lookup("east").is_none() {
        missing = missing + 1;
    }
    if symbols.lookup("west").is_none() {
        missing = missing + 1;
    }
    assert(missing == missing_directions(symbols@));
    symbols.len() <= MAX_SYMBOLS - missing
}

/// Whether the table has issued the direction of every tunnel of the graph.
pub fn directions_are_known(graph: &WorldGraph, symbols: &SymbolTable) -> (known: bool)
    ensures
        known == directions_known(graph@, symbols@),
{
    let issued = symbols.len();
    let colonies = graph.colonies();
    let mut n: usize = 0;
    while n < colonies.len()
        invariant
            n <= colonies@.len(),
            issued == symbols@.len(),
            forall|colony: Handle| colonies@.contains(colony) <==> graph@.contains_key(colony),
            forall|m: int, direction: Handle|
                0 <= m < n && #[trigger] has_tunnel(graph@, colonies@[m], direction)
                    ==> direction < issued,
        decreases colonies@.len() - n,
    {
        let colony = colonies[n];
        let exits = graph.exits(colony);
        let mut t: usize = 0;
        while t < exits.len()
            invariant
                t <= exits@.len(),
                issued == symbols@.len(),
                forall|i: int|
                    0 <= i < exits@.len() ==> has_tunnel(
                        graph@,
                        colony,
                        (#[trigger] exits@[i]).direction,
                    ),
                forall|i: int| 0 <= i < t ==> (#[trigger] exits@[i]).direction < issued,
            decreases exits@.len() - t,
        {
            if exits[t].direction as usize >= issued {
                assert(has_tunnel(graph@, colony, exits@[t as int].direction));
                return false;
            }
            t = t + 1;
        }
        proof {
            assert forall|direction: Handle| #[trigger]
                has_tunnel(graph@, colony, direction) implies direction < issued by {
                let wanted = Tunnel { direction, destination: graph@[colony][direction] };
                assert(exits@.contains(wanted));
                let i = exits@.index_of(wanted);
                assert(0 <= i < exits@.len() && exits@[i] == wanted);
            }
        }
        n = n + 1;
    }
    proof {
        assert forall|colony: Handle, direction: Handle| #[trigger]
            has_tunnel(graph@, colony, direction) implies direction < issued by {
            assert(colonies@.contains(colony));
            let m = colonies@.index_of(colony);
            assert(0 <= m < colonies@.len() && colonies@[m] == colony);
            assert(has_tunnel(graph@, colonies@[m], direction));
        }
    }
    true
}

/// The colonies that the records name, in the order of the records.
pub fn record_colonies(records: &Vec<Destruction>) -> (colonies: Vec<Handle>)
    ensures
        colonies@.len() == records@.len(),
        forall|r: int| 0 <= r < records@.len() ==> colonies@[r] == (#[trigger] records@[r]).colony,
{
    let mut colonies: Vec<Handle> = Vec::new();
    let mut n: usize = 0;
    while n < records.len()
        invariant
            n <= records@.len(),
            colonies@.len() == n,
            forall|r: int| 0 <= r < n ==> colonies@[r] == (#[trigger] records@[r]).colony,
        decreases records@.len() - n,
    {
        colonies.push(records[n].colony);
        n = n + 1;
    }
    colonies
}

/// Where no colony is doomed, nothing dies, no tunnel is severed and no name is needed.
pub proof fn lemma_quiet_phase(graph: GraphModel, agents: Seq<Agent>, table: Seq<Seq<char>>)
    requires
        !has_collision(agents),
    ensures
        doomed_colonies(agents) == Set::<Handle>::empty(),
        destructions(agents) == Seq::<Destruction>::empty(),
        survivors(agents) == agents,
        graph_without(graph, doomed_colonies(agents), table) == graph,
        forall|name: Seq<char>|
            !reverse_needed(graph, doomed_colonies(agents), table, name),
{
    let doomed = doomed_colonies(agents);
    assert forall|colony: Handle| !crowded(agents, colony) by {
        if crowded(agents, colony) {
            let (i, j) = choose|i: int, j: int|
                crate::agents::meet_at(agents, i, j, colony);
            assert(crate::agents::meet_at(agents, i, j, agents[i].location));
        }
    }
    assert(doomed =~= Set::<Handle>::empty());
    lemma_destructions(agents);
    assert(destructions(agents) =~= Seq::<Destruction>::empty());
    let alive = |agent: Agent| !dies(agents, doomed, agent.id);
    assert forall|i: int| 0 <= i < agents.len() implies alive(#[trigger] agents[i]) by {}
    lemma_filter_keeps_all(agents, alive);
    assert(graph_without(graph, doomed, table) =~~= graph);
}

/// A filter that every item passes keeps the whole list.
pub proof fn lemma_filter_keeps_all<A>(items: Seq<A>, keep: spec_fn(A) -> bool)
    requires
        forall|i: int| 0 <= i < items.len() ==> keep(#[trigger] items[i]),
    ensures
        items.filter(keep) == items,
    decreases items.len(),
{
    reveal(Seq::filter);
    if items.len() > 0 {
        lemma_filter_keeps_all(items.drop_last(), keep);
        assert(items.drop_last().push(items.last()) == items);
    }
}

/// The collision phase. Every colony that hosts two ants or more is doomed, and every ant
/// that shares its identity with an ant in a doomed colony is dead. For each tunnel that
/// leaves a doomed colony, the reverse of its direction is interned, where it has one, and
/// the tunnel that leaves its destination in that reverse direction is filled in. Then
/// the doomed colonies are removed with their own tunnels, and the dead ants are removed.
/// One record is returned for each doomed colony. Where no colony is doomed, nothing
/// changes.
pub fn detect_collision(
    agents: &mut Vec<Agent>,
    graph: &mut WorldGraph,
    symbols: &mut SymbolTable,
) -> (records: Vec<Destruction>)
    requires
        old(symbols).wf(),
        room_for_directions(old(symbols)@),
        directions_known(old(graph)@, old(symbols)@),
    ensures
        records@ == destructions(old(agents)@),
        final(agents)@ == survivors(old(agents)@),
        final(graph)@ == graph_without(
            old(graph)@,
            doomed_colonies(old(agents)@),
            final(symbols)@,
        ),
        table_after(
            old(graph)@,
            doomed_colonies(old(agents)@),
            old(symbols)@,
            final(symbols)@,
        ),
        final(symbols).wf(),
        room_for_directions(final(symbols)@),
        directions_known(final(graph)@, final(symbols)@),
        !has_collision(old(agents)@) ==> records@.len() == 0 && final(agents)@ == old(agents)@
            && final(graph)@ == old(graph)@ && final(symbols)@ == old(symbols)@,
        !has_collision(final(agents)@),
        all_placed(old(graph)@, old(agents)@) ==> all_placed(final(graph)@, final(agents)@),
        no_dangling_tunnel(old(graph)@) && two_way(old(graph)@, old(symbols)@)
            ==> no_dangling_tunnel(final(graph)@) && two_way(final(graph)@, final(symbols)@),
{
    let ghost herd = agents@;
    let ghost world = graph@;
    let ghost table = symbols@;
    let ghost doomed = doomed_colonies(herd);
    let records = find_collisions(agents);
    proof {
        lemma_destructions(herd);
    }
    if records.len() == 0 {
        proof {
            lemma_quiet_phase(world, herd, table);
        }
        return records;
    }
    proof {
        lemma_survivors_do_not_collide(herd);
    }
    let colonies = record_colonies(&records);
    proof {
        assert forall|colony: Handle| colonies@.contains(colony) <==> doomed.contains(
            colony,
        ) by {
            if colonies@.contains(colony) {
                let r = colonies@.index_of(colony);
                assert(0 <= r < colonies@.len() && colonies@[r] == colony);
                assert(records@[r].colony == colony);
            }
            if doomed.contains(colony) {
                let r = choose|r: int|
                    0 <= r < records@.len() && (#[trigger] records@[r]).colony == colony;
                assert(colonies@[r] == colony);
            }
        }
        assert(colonies@.to_set() =~= doomed);
    }
    let leaving = doomed_exits(graph, &colonies);
    proof {
        assert forall|i: int| 0 <= i < leaving@.len() implies (#[trigger] leaving@[i]).direction
            < table.len() by {
            assert(leaves_listed(world, colonies@, colonies@.len() as int, leaving@[i]));
        }
    }
    let cuts = plan_cuts(&leaving, symbols);
    apply_cuts(graph, &cuts);
    remove_colonies(graph, &colonies);
    bury(agents, &colonies);
    proof {
        let grown = symbols@;
        assert forall|cut: Cut| cuts@.contains(cut) <==> severed(world, doomed, grown, cut) by {
            if cuts@.contains(cut) {
                let k = cuts@.index_of(cut);
                assert(0 <= k < cuts@.len() && cuts@[k] == cut);
                assert(cut_listed(grown, leaving@, leaving@.len() as int, cuts@[k]));
                let i = choose|i: int|
                    0 <= i < leaving@.len() && (#[trigger] leaving@[i]).destination
                        == cut.colony && opposite_handle(grown, leaving@[i].direction) == Some(
                        cut.direction,
                    );
                assert(leaves_listed(world, colonies@, colonies@.len() as int, leaving@[i]));
                let m = choose|m: int|
                    0 <= m < colonies@.len() && leaves(
                        world,
                        #[trigger] colonies@[m],
                        leaving@[i],
                    );
                assert(colonies@.contains(colonies@[m]));
                assert(leads_back(
                    world,
                    doomed,
                    grown,
                    colonies@[m],
                    leaving@[i].direction,
                    cut,
                ));
            }
            if severed(world, doomed, grown, cut) {
                let (from, back) = choose|from: Handle, back: Handle|
                    leads_back(world, doomed, grown, from, back, cut);
                assert(colonies@.contains(from));
                let m = colonies@.index_of(from);
                assert(0 <= m < colonies@.len() && colonies@[m] == from);
                assert(has_tunnel(world, colonies@[m], back));
                let tunnel = Tunnel { direction: back, destination: world[from][back] };
                assert(leaving@.contains(tunnel));
                let i = leaving@.index_of(tunnel);
                assert(0 <= i < leaving@.len() && leaving@[i] == tunnel);
                assert(back < table.len());
                assert(grown[back as int] == table[back as int]);
                assert(reverse_of(table, leaving@[i].direction) is Some);
                assert(way_back(grown, leaving@[i]) == Some(cut));
            }
        }
        assert(graph@ =~~= graph_without(world, doomed, grown));
        assert forall|name: Seq<char>|
            reverse_listed(table, leaving@, leaving@.len() as int, name) <==> reverse_needed(
                world,
                doomed,
                table,
                name,
            ) by {
            if reverse_listed(table, leaving@, leaving@.len() as int, name) {
                let i = choose|i: int|
                    0 <= i < leaving@.len() && reverse_of(
                        table,
                        (#[trigger] leaving@[i]).direction,
                    ) == Some(name);
                assert(leaves_listed(world, colonies@, colonies@.len() as int, leaving@[i]));
                let m = choose|m: int|
                    0 <= m < colonies@.len() && leaves(
                        world,
                        #[trigger] colonies@[m],
                        leaving@[i],
                    );
                assert(colonies@.contains(colonies@[m]));
                assert(asks_for(world, doomed, table, colonies@[m], leaving@[i].direction, name));
            }
            if reverse_needed(world, doomed, table, name) {
                let (from, back) = choose|from: Handle, back: Handle|
                    asks_for(world, doomed, table, from, back, name);
                assert(colonies@.contains(from));
                let m = colonies@.index_of(from);
                assert(0 <= m < colonies@.len() && colonies@[m] == from);
                assert(has_tunnel(world, colonies@[m], back));
                let tunnel = Tunnel { direction: back, destination: world[from][back] };
                assert(leaving@.contains(tunnel));
                let i = leaving@.index_of(tunnel);
                assert(0 <= i < leaving@.len() && leaving@[i] == tunnel);
            }
        }
        assert forall|colony: Handle, direction: Handle| #[trigger]
            has_tunnel(graph@, colony, direction) implies direction < grown.len() by {
            assert(has_tunnel(world, colony, direction));
        }
        assert(has_collision(herd));
        if all_placed(world, herd) {
            lemma_survivors_are_placed(world, herd, grown);
        }
        if no_dangling_tunnel(world) && two_way(world, table) {
            lemma_no_dangling_after_collision(world, herd, table, grown);
        }
    }
    records
}

} // verus!
