//! Building the world: a colony is entered under its name, with the tunnels that leave it.

use crate::collision::{directions_known, grown_from, lemma_index_of};
use crate::graph::{has_tunnel, tunnels_of, GraphModel, Tunnel, WorldGraph};
use crate::symbols::{handle_in, table_with, Handle, SymbolTable, MAX_SYMBOLS};
use vstd::prelude::*;

verus! {

/// A tunnel as it is described: the name of its direction, and of the colony it leads to.
#[derive(Clone, Debug, PartialEq, Eq)]
pub struct Connection {
    pub direction: String,
    pub destination: String,
}

/// A connection as it is read: the name of its direction, then that of its destination.
pub type ConnectionText = (Seq<char>, Seq<char>);

/// The listed connections, as they are read.
pub open spec fn texts_of(connections: Seq<Connection>) -> Seq<ConnectionText> {
    connections.map_values(|connection: Connection| (connection.direction@, connection.destination@))
}

/// The table after the names of the first `n` connections have been interned: of each
/// connection first the destination, then the direction.
pub open spec fn table_with_connections(
    table: Seq<Seq<char>>,
    connections: Seq<ConnectionText>,
    n: int,
) -> Seq<Seq<char>>
    decreases n,
{
    if n <= 0 {
        table
    } else {
        table_with(
            table_with(table_with_connections(table, connections, n - 1), connections[n - 1].1),
            connections[n - 1].0,
        )
    }
}

/// The table after a colony has been entered: the names of its connections have been
/// interned, and then its own.
pub open spec fn loaded_table(
    table: Seq<Seq<char>>,
    colony: Seq<char>,
    connections: Seq<ConnectionText>,
) -> Seq<Seq<char>> {
    table_with(table_with_connections(table, connections, connections.len() as int), colony)
}

/// The tunnel that a connection describes, by the handles that `table` has for its names.
pub open spec fn described(table: Seq<Seq<char>>, connection: ConnectionText) -> Tunnel {
    Tunnel {
        direction: table.index_of(connection.0) as Handle,
        destination: table.index_of(connection.1) as Handle,
    }
}

/// The tunnels that the first `n` of the listed tunnels make: where two leave in one
/// direction, the later one counts.
pub open spec fn laid(tunnels: Seq<Tunnel>, n: int) -> Map<Handle, Handle>
    decreases n,
{
    if n <= 0 {
        Map::empty()
    } else {
        laid(tunnels, n - 1).insert(tunnels[n - 1].direction, tunnels[n - 1].destination)
    }
}

/// The graph after a colony has been entered under `colony` with the listed tunnels: the
/// tunnels that it had stay, but for those that a listed tunnel replaces.
pub open spec fn graph_with(graph: GraphModel, colony: Handle, tunnels: Seq<Tunnel>) -> GraphModel {
    graph.insert(
        colony,
        tunnels_of(graph, colony).union_prefer_right(laid(tunnels, tunnels.len() as int)),
    )
}

/// The graph after the colony named `colony` has been entered with its connections, by
/// the handles of the table as it is afterwards.
pub open spec fn loaded_graph(
    graph: GraphModel,
    table: Seq<Seq<char>>,
    colony: Seq<char>,
    connections: Seq<ConnectionText>,
) -> GraphModel {
    graph_with(
        graph,
        table.index_of(colony) as Handle,
        connections.map_values(|connection: ConnectionText| described(table, connection)),
    )
}

/// Interning keeps a table free of duplicates, keeps every handle, and makes the name
/// one of the table.
pub proof fn lemma_table_with(table: Seq<Seq<char>>, name: Seq<char>)
    requires
        table.no_duplicates(),
    ensures
        table_with(table, name).no_duplicates(),
        grown_from(table_with(table, name), table),
        table_with(table, name).contains(name),
        table_with(table, name).len() <= table.len() + 1,
        table_with(table, name).index_of(name) == handle_in(table, name),
{
    crate::symbols::lemma_intern_round_trip(table, name);
    let grown = table_with(table, name);
    let position = handle_in(table, name);
    assert(0 <= position < grown.len() && grown[position] == name);
    lemma_index_of(grown, position);
}

/// A name that a table holds keeps its handle when the table grows.
pub proof fn lemma_handle_kept(before: Seq<Seq<char>>, after: Seq<Seq<char>>, name: Seq<char>)
    requires
        grown_from(after, before),
        after.no_duplicates(),
        before.contains(name),
    ensures
        after.contains(name),
        after.index_of(name) == before.index_of(name),
{
    let position = before.index_of(name);
    assert(0 <= position < before.len() && before[position] == name);
    assert(after[position] == name);
    lemma_index_of(after, position);
}

/// Enters the tunnels into the graph as tunnels of `colony`, in the order of the list.
/// The colony is added where the graph did not have it.
pub fn lay_tunnels(graph: &mut WorldGraph, colony: Handle, tunnels: &Vec<Tunnel>)
    ensures
        final(graph)@ == graph_with(old(graph)@, colony, tunnels@),
{
    let ghost start = graph@;
    graph.add_colony(colony);
    let mut n: usize = 0;
    assert(graph@ =~~= start.insert(
        colony,
        tunnels_of(start, colony).union_prefer_right(laid(tunnels@, 0)),
    ));
    while n < tunnels.len()
        invariant
            n <= tunnels@.len(),
            graph@ == start.insert(
                colony,
                tunnels_of(start, colony).union_prefer_right(laid(tunnels@, n as int)),
            ),
        decreases tunnels@.len() - n,
    {
        let tunnel = tunnels[n];
        graph.add_tunnel(colony, tunnel.direction, tunnel.destination);
        assert(graph@ =~~= start.insert(
            colony,
            tunnels_of(start, colony).union_prefer_right(laid(tunnels@, n + 1)),
        ));
        n = n + 1;
    }
}

/// Enters a colony under its name, with the tunnels that its connections describe. The
/// names are interned: of each connection the destination, then the direction, and at last
/// the name of the colony. A colony entered before keeps its tunnels, but for those that
/// a connection replaces. The colonies to which the tunnels lead are not entered.
pub fn load_colony(
    graph: &mut WorldGraph,
    symbols: &mut SymbolTable,
    colony: &str,
    connections: &Vec<Connection>,
)
    requires
        old(symbols).wf(),
        old(symbols)@.len() + 2 * connections@.len() + 1 <= MAX_SYMBOLS,
    ensures
        final(symbols).wf(),
        final(symbols)@ == loaded_table(old(symbols)@, colony@, texts_of(connections@)),
        grown_from(final(symbols)@, old(symbols)@),
        final(symbols)@.len() <= old(symbols)@.len() + 2 * connections@.len() + 1,
        final(graph)@ == loaded_graph(
            old(graph)@,
            final(symbols)@,
            colony@,
            texts_of(connections@),
        ),
        directions_known(old(graph)@, old(symbols)@) ==> directions_known(
            final(graph)@,
            final(symbols)@,
        ),
{
    let ghost start = symbols@;
    let ghost world = graph@;
    let ghost texts = texts_of(connections@);
    let mut tunnels: Vec<Tunnel> = Vec::new();
    let mut n: usize = 0;
    while n < connections.len()
        invariant
            n <= connections@.len(),
            symbols.wf(),
            texts == texts_of(connections@),
            symbols@ == table_with_connections(start, texts, n as int),
            grown_from(symbols@, start),
            symbols@.len() <= start.len() + 2 * n,
            start.len() + 2 * connections@.len() + 1 <= MAX_SYMBOLS,
            tunnels@.len() == n,
            forall|i: int|
                0 <= i < n ==> #[trigger] tunnels@[i] == described(symbols@, texts[i])
                    && symbols@.contains(texts[i].0) && symbols@.contains(texts[i].1),
        decreases connections@.len() - n,
    {
        let ghost before = symbols@;
        let ghost listed = tunnels@;
        let connection = &connections[n];
        proof {
            assert(texts[n as int] == (connection.direction@, connection.destination@));
            lemma_table_with(before, connection.destination@);
        }
        let destination = symbols.intern(connection.destination.as_str());
        let ghost between = symbols@;
        proof {
            lemma_table_with(between, connection.direction@);
        }
        let direction = symbols.intern(connection.direction.as_str());
        tunnels.push(Tunnel { direction, destination });
        proof {
            let after = symbols@;
            lemma_handle_kept(between, after, connection.destination@);
            assert forall|i: int| 0 <= i < n + 1 implies #[trigger] tunnels@[i] == described(
                after,
                texts[i],
            ) && after.contains(texts[i].0) && after.contains(texts[i].1) by {
                if i < n {
                    assert(tunnels@[i] == listed[i]);
                    lemma_handle_kept(before, between, texts[i].0);
                    lemma_handle_kept(before, between, texts[i].1);
                    lemma_handle_kept(between, after, texts[i].0);
                    lemma_handle_kept(between, after, texts[i].1);
                }
            }
        }
        n = n + 1;
    }
    let ghost named = symbols@;
    proof {
        lemma_table_with(named, colony@);
    }
    let home = symbols.intern(colony);
    proof {
        let after = symbols@;
        let wanted = texts.map_values(|connection: ConnectionText| described(after, connection));
        assert(tunnels@ =~= wanted) by {
            assert forall|i: int| 0 <= i < tunnels@.len() implies tunnels@[i] == wanted[i] by {
                assert(tunnels@[i] == described(named, texts[i]));
                lemma_handle_kept(named, after, texts[i].0);
                lemma_handle_kept(named, after, texts[i].1);
            }
        }
    }
    lay_tunnels(graph, home, &tunnels);
    proof {
        let after = symbols@;
        if directions_known(world, start) {
            assert forall|from: Handle, direction: Handle| #[trigger]
                has_tunnel(graph@, from, direction) implies direction < after.len() by {
                if from == home && laid(tunnels@, tunnels@.len() as int).contains_key(direction) {
                    lemma_laid(tunnels@, tunnels@.len() as int, direction);
                    let i = choose|i: int|
                        0 <= i < tunnels@.len() && (#[trigger] tunnels@[i]).direction
                            == direction;
                    assert(tunnels@[i] == described(named, texts[i]));
                    lemma_handle_kept(named, after, texts[i].0);
                    let position = after.index_of(texts[i].0);
                    assert(0 <= position < after.len());
                } else {
                    assert(has_tunnel(world, from, direction));
                }
            }
        }
    }
}

/// Each tunnel that the listed tunnels make is one of the list.
pub proof fn lemma_laid(tunnels: Seq<Tunnel>, n: int, direction: Handle)
    requires
        0 <= n <= tunnels.len(),
        laid(tunnels, n).contains_key(direction),
    ensures
        exists|i: int| 0 <= i < n && (#[trigger] tunnels[i]).direction == direction,
    decreases n,
{
    if n > 0 {
        if tunnels[n - 1].direction != direction {
            lemma_laid(tunnels, n - 1, direction);
            let i = choose|i: int| 0 <= i < n - 1 && (#[trigger] tunnels[i]).direction == direction;
            assert(tunnels[i].direction == direction);
        }
    }
}

} // verus!
