use ant_colony::agents::{find_collisions, Agent, Destruction};
use ant_colony::collision::{
    apply_cuts, bury, detect_collision, directions_are_known, doomed_exits,
    has_room_for_directions, plan_cuts, record_colonies, remove_colonies, Cut,
};
use ant_colony::graph::{Tunnel, WorldGraph};
use ant_colony::loader::{load_colony, Connection};
use ant_colony::symbols::SymbolTable;

fn connection(direction: &str, destination: &str) -> Connection {
    Connection { direction: direction.to_string(), destination: destination.to_string() }
}

fn world(lines: &[(&str, &[(&str, &str)])]) -> (WorldGraph, SymbolTable) {
    let mut graph = WorldGraph::new();
    let mut symbols = SymbolTable::new();
    for (colony, exits) in lines {
        let connections: Vec<Connection> =
            exits.iter().map(|(direction, destination)| connection(direction, destination)).collect();
        load_colony(&mut graph, &mut symbols, colony, &connections);
    }
    (graph, symbols)
}

fn ant(id: usize, location: u32) -> Agent {
    Agent { id, location }
}

#[test]
fn two_ants_in_one_colony_destroy_it() {
    let (mut graph, mut symbols) = world(&[("X", &[("north", "Y")]), ("Y", &[("south", "X")])]);
    let x = symbols.lookup("X").unwrap();
    let y = symbols.lookup("Y").unwrap();
    let south = symbols.lookup("south").unwrap();
    let mut agents = vec![ant(0, x), ant(1, x)];
    let records = detect_collision(&mut agents, &mut graph, &mut symbols);
    assert_eq!(records, vec![Destruction { colony: x, first: 0, second: 1 }]);
    assert!(agents.is_empty());
    assert!(!graph.contains_colony(x));
    assert!(graph.contains_colony(y));
    assert_eq!(graph.destination(y, south), None);
    assert_eq!(graph.exits(y), Vec::<Tunnel>::new());
    assert_eq!(graph.len(), 1);
}

#[test]
fn ants_alone_in_their_colonies_change_nothing() {
    let (mut graph, mut symbols) = world(&[("X", &[("north", "Y")]), ("Y", &[("south", "X")])]);
    let x = symbols.lookup("X").unwrap();
    let y = symbols.lookup("Y").unwrap();
    let before = graph.clone();
    let names = symbols.len();
    let mut agents = vec![ant(0, x), ant(1, y)];
    let records = detect_collision(&mut agents, &mut graph, &mut symbols);
    assert!(records.is_empty());
    assert_eq!(agents, vec![ant(0, x), ant(1, y)]);
    assert_eq!(graph, before);
    assert_eq!(symbols.len(), names);
}

#[test]
fn a_second_collision_phase_changes_nothing() {
    let (mut graph, mut symbols) = world(&[
        ("A", &[("east", "B")]),
        ("B", &[("west", "A"), ("east", "C")]),
        ("C", &[("west", "B")]),
    ]);
    let a = symbols.lookup("A").unwrap();
    let b = symbols.lookup("B").unwrap();
    let c = symbols.lookup("C").unwrap();
    let mut agents = vec![ant(0, a), ant(1, b), ant(2, b), ant(3, c)];
    let first = detect_collision(&mut agents, &mut graph, &mut symbols);
    assert_eq!(first.len(), 1);
    let graph_after = graph.clone();
    let agents_after = agents.clone();
    let names_after = symbols.len();
    let second = detect_collision(&mut agents, &mut graph, &mut symbols);
    assert!(second.is_empty());
    assert_eq!(graph, graph_after);
    assert_eq!(agents, agents_after);
    assert_eq!(symbols.len(), names_after);
}

#[test]
fn no_ants_no_collision() {
    let (mut graph, mut symbols) = world(&[("X", &[("north", "Y")]), ("Y", &[("south", "X")])]);
    let before = graph.clone();
    let mut agents: Vec<Agent> = Vec::new();
    let records = detect_collision(&mut agents, &mut graph, &mut symbols);
    assert!(records.is_empty());
    assert!(agents.is_empty());
    assert_eq!(graph, before);
}

#[test]
fn every_ant_in_a_doomed_colony_dies() {
    let (mut graph, mut symbols) = world(&[("X", &[("north", "Y")]), ("Y", &[("south", "X")])]);
    let x = symbols.lookup("X").unwrap();
    let y = symbols.lookup("Y").unwrap();
    let mut agents = vec![ant(4, x), ant(9, y), ant(2, x), ant(7, x)];
    let records = detect_collision(&mut agents, &mut graph, &mut symbols);
    assert_eq!(records, vec![Destruction { colony: x, first: 4, second: 2 }]);
    assert_eq!(agents, vec![ant(9, y)]);
    assert!(graph.contains_colony(y));
    assert!(!graph.contains_colony(x));
}

#[test]
fn survivors_keep_their_order() {
    let (mut graph, mut symbols) = world(&[
        ("A", &[]),
        ("B", &[]),
        ("C", &[]),
        ("D", &[]),
    ]);
    let a = symbols.lookup("A").unwrap();
    let b = symbols.lookup("B").unwrap();
    let c = symbols.lookup("C").unwrap();
    let d = symbols.lookup("D").unwrap();
    let mut agents = vec![ant(5, d), ant(0, b), ant(1, a), ant(2, b), ant(3, c)];
    detect_collision(&mut agents, &mut graph, &mut symbols);
    assert_eq!(agents, vec![ant(5, d), ant(1, a), ant(3, c)]);
}

#[test]
fn several_colonies_can_be_doomed_in_one_phase() {
    let (mut graph, mut symbols) = world(&[
        ("A", &[("east", "B")]),
        ("B", &[("west", "A"), ("east", "C")]),
        ("C", &[("west", "B"), ("east", "D")]),
        ("D", &[("west", "C")]),
    ]);
    let a = symbols.lookup("A").unwrap();
    let b = symbols.lookup("B").unwrap();
    let c = symbols.lookup("C").unwrap();
    let d = symbols.lookup("D").unwrap();
    let east = symbols.lookup("east").unwrap();
    let west = symbols.lookup("west").unwrap();
    let mut agents = vec![ant(0, d), ant(1, a), ant(2, d), ant(3, a), ant(4, b)];
    let records = detect_collision(&mut agents, &mut graph, &mut symbols);
    assert_eq!(
        records,
        vec![
            Destruction { colony: d, first: 0, second: 2 },
            Destruction { colony: a, first: 1, second: 3 },
        ]
    );
    assert_eq!(agents, vec![ant(4, b)]);
    assert!(!graph.contains_colony(a));
    assert!(!graph.contains_colony(d));
    assert_eq!(graph.destination(b, west), None);
    assert_eq!(graph.destination(b, east), Some(c));
    assert_eq!(graph.destination(c, west), Some(b));
    assert_eq!(graph.destination(c, east), None);
    assert_eq!(graph.len(), 2);
}

#[test]
fn a_doomed_colony_without_tunnels_is_removed() {
    let (mut graph, mut symbols) = world(&[("X", &[]), ("Y", &[("south", "X")])]);
    let x = symbols.lookup("X").unwrap();
    let y = symbols.lookup("Y").unwrap();
    let south = symbols.lookup("south").unwrap();
    let names = symbols.len();
    let mut agents = vec![ant(0, x), ant(1, x)];
    let records = detect_collision(&mut agents, &mut graph, &mut symbols);
    assert_eq!(records.len(), 1);
    assert!(agents.is_empty());
    assert!(!graph.contains_colony(x));
    assert_eq!(graph.destination(y, south), Some(x));
    assert_eq!(symbols.len(), names);
}

#[test]
fn a_direction_without_opposite_severs_nothing() {
    let (mut graph, mut symbols) = world(&[("X", &[("up", "Y")]), ("Y", &[("down", "X")])]);
    let x = symbols.lookup("X").unwrap();
    let y = symbols.lookup("Y").unwrap();
    let down = symbols.lookup("down").unwrap();
    let names = symbols.len();
    let mut agents = vec![ant(0, x), ant(1, x)];
    detect_collision(&mut agents, &mut graph, &mut symbols);
    assert!(!graph.contains_colony(x));
    assert_eq!(graph.destination(y, down), Some(x));
    assert_eq!(symbols.len(), names);
}

#[test]
fn the_opposite_direction_is_interned_when_it_is_new() {
    let (mut graph, mut symbols) = world(&[("X", &[("north", "Y")]), ("Y", &[("east", "X")])]);
    let x = symbols.lookup("X").unwrap();
    let y = symbols.lookup("Y").unwrap();
    let east = symbols.lookup("east").unwrap();
    let names = symbols.len();
    assert_eq!(symbols.lookup("south"), None);
    let mut agents = vec![ant(0, x), ant(1, x)];
    detect_collision(&mut agents, &mut graph, &mut symbols);
    assert_eq!(symbols.len(), names + 1);
    assert_eq!(symbols.lookup("south"), Some(names as u32));
    assert_eq!(symbols.lookup("X"), Some(x));
    assert_eq!(graph.destination(y, east), Some(x));
    assert!(!graph.contains_colony(x));
}

#[test]
fn the_tunnel_in_the_opposite_direction_goes_wherever_it_leads() {
    let (mut graph, mut symbols) = world(&[
        ("X", &[("north", "Y")]),
        ("Y", &[("south", "Z"), ("north", "X")]),
        ("Z", &[]),
    ]);
    let x = symbols.lookup("X").unwrap();
    let y = symbols.lookup("Y").unwrap();
    let north = symbols.lookup("north").unwrap();
    let south = symbols.lookup("south").unwrap();
    let mut agents = vec![ant(0, x), ant(1, x)];
    detect_collision(&mut agents, &mut graph, &mut symbols);
    assert_eq!(graph.destination(y, south), None);
    assert_eq!(graph.destination(y, north), Some(x));
}

#[test]
fn ants_in_a_colony_that_the_graph_lacks_die_too() {
    let (mut graph, mut symbols) = world(&[("X", &[("north", "Y")])]);
    let y = symbols.lookup("Y").unwrap();
    let before = graph.clone();
    assert!(!graph.contains_colony(y));
    let mut agents = vec![ant(0, y), ant(1, y)];
    let records = detect_collision(&mut agents, &mut graph, &mut symbols);
    assert_eq!(records, vec![Destruction { colony: y, first: 0, second: 1 }]);
    assert!(agents.is_empty());
    assert_eq!(graph, before);
}

#[test]
fn an_ant_that_shares_its_identity_with_a_dead_ant_dies() {
    let (mut graph, mut symbols) = world(&[("X", &[]), ("Y", &[]), ("Z", &[])]);
    let x = symbols.lookup("X").unwrap();
    let y = symbols.lookup("Y").unwrap();
    let z = symbols.lookup("Z").unwrap();
    let mut agents = vec![ant(0, x), ant(1, x), ant(1, y), ant(2, z)];
    let records = detect_collision(&mut agents, &mut graph, &mut symbols);
    assert_eq!(records, vec![Destruction { colony: x, first: 0, second: 1 }]);
    assert_eq!(agents, vec![ant(2, z)]);
    assert!(!graph.contains_colony(x));
    assert!(graph.contains_colony(y));
    assert!(graph.contains_colony(z));
}

#[test]
fn survivors_are_in_colonies_of_the_graph() {
    let (mut graph, mut symbols) = world(&[
        ("A", &[("east", "B"), ("south", "C")]),
        ("B", &[("west", "A"), ("south", "D")]),
        ("C", &[("north", "A"), ("east", "D")]),
        ("D", &[("north", "B"), ("west", "C")]),
    ]);
    let a = symbols.lookup("A").unwrap();
    let b = symbols.lookup("B").unwrap();
    let c = symbols.lookup("C").unwrap();
    let d = symbols.lookup("D").unwrap();
    let mut agents = vec![ant(0, a), ant(1, b), ant(2, a), ant(3, c), ant(4, d), ant(5, d)];
    detect_collision(&mut agents, &mut graph, &mut symbols);
    assert_eq!(agents, vec![ant(1, b), ant(3, c)]);
    for agent in &agents {
        assert!(graph.contains_colony(agent.location));
    }
}

#[test]
fn no_tunnel_dangles_after_a_collision_in_a_two_way_graph() {
    let (mut graph, mut symbols) = world(&[
        ("A", &[("east", "B"), ("south", "C")]),
        ("B", &[("west", "A"), ("south", "D")]),
        ("C", &[("north", "A"), ("east", "D")]),
        ("D", &[("north", "B"), ("west", "C")]),
    ]);
    let a = symbols.lookup("A").unwrap();
    let b = symbols.lookup("B").unwrap();
    let mut agents = vec![ant(0, a), ant(1, a), ant(2, b)];
    detect_collision(&mut agents, &mut graph, &mut symbols);
    assert_eq!(graph.len(), 3);
    for colony in graph.colonies() {
        for tunnel in graph.exits(colony) {
            assert!(graph.contains_colony(tunnel.destination));
        }
    }
    let south = symbols.lookup("south").unwrap();
    let d = symbols.lookup("D").unwrap();
    assert_eq!(graph.exits(b), vec![Tunnel { direction: south, destination: d }]);
}

#[test]
fn a_one_way_tunnel_into_a_doomed_colony_stays() {
    let (mut graph, mut symbols) = world(&[("X", &[]), ("Y", &[("north", "X")])]);
    let x = symbols.lookup("X").unwrap();
    let y = symbols.lookup("Y").unwrap();
    let north = symbols.lookup("north").unwrap();
    let mut agents = vec![ant(0, x), ant(1, x)];
    detect_collision(&mut agents, &mut graph, &mut symbols);
    assert!(!graph.contains_colony(x));
    assert_eq!(graph.destination(y, north), Some(x));
}

#[test]
fn find_collisions_names_the_first_two_ants() {
    let agents = vec![ant(10, 3), ant(11, 4), ant(12, 3), ant(13, 3), ant(14, 4), ant(15, 5)];
    assert_eq!(
        find_collisions(&agents),
        vec![
            Destruction { colony: 3, first: 10, second: 12 },
            Destruction { colony: 4, first: 11, second: 14 },
        ]
    );
    assert_eq!(find_collisions(&vec![ant(0, 1), ant(1, 2)]), Vec::<Destruction>::new());
    assert_eq!(find_collisions(&Vec::new()), Vec::<Destruction>::new());
}

#[test]
fn record_colonies_keeps_the_order() {
    let records = vec![
        Destruction { colony: 4, first: 0, second: 1 },
        Destruction { colony: 2, first: 5, second: 6 },
    ];
    assert_eq!(record_colonies(&records), vec![4, 2]);
    assert_eq!(record_colonies(&Vec::new()), Vec::<u32>::new());
}

#[test]
fn doomed_exits_lists_the_tunnels_of_the_listed_colonies() {
    let mut graph = WorldGraph::new();
    graph.add_tunnel(1, 10, 2);
    graph.add_tunnel(2, 11, 1);
    graph.add_tunnel(3, 10, 1);
    let mut leaving = doomed_exits(&graph, &vec![1, 3, 9]);
    leaving.sort_by_key(|tunnel| (tunnel.destination, tunnel.direction));
    assert_eq!(
        leaving,
        vec![Tunnel { direction: 10, destination: 1 }, Tunnel { direction: 10, destination: 2 }]
    );
    assert_eq!(doomed_exits(&graph, &Vec::new()), Vec::<Tunnel>::new());
}

#[test]
fn plan_cuts_lists_the_ways_back() {
    let mut symbols = SymbolTable::new();
    let north = symbols.intern("north");
    let up = symbols.intern("up");
    let east = symbols.intern("east");
    let west = symbols.intern("west");
    let leaving = vec![
        Tunnel { direction: north, destination: 7 },
        Tunnel { direction: up, destination: 8 },
        Tunnel { direction: east, destination: 9 },
        Tunnel { direction: north, destination: 9 },
    ];
    let cuts = plan_cuts(&leaving, &mut symbols);
    let south = symbols.lookup("south").unwrap();
    assert_eq!(south, 4);
    assert_eq!(symbols.len(), 5);
    assert_eq!(
        cuts,
        vec![
            Cut { colony: 7, direction: south },
            Cut { colony: 9, direction: west },
            Cut { colony: 9, direction: south },
        ]
    );
}

#[test]
fn apply_cuts_fills_in_the_listed_tunnels() {
    let mut graph = WorldGraph::new();
    graph.add_tunnel(1, 10, 2);
    graph.add_tunnel(1, 11, 3);
    graph.add_tunnel(2, 10, 1);
    apply_cuts(
        &mut graph,
        &vec![
            Cut { colony: 1, direction: 10 },
            Cut { colony: 2, direction: 11 },
            Cut { colony: 5, direction: 10 },
        ],
    );
    assert_eq!(graph.destination(1, 10), None);
    assert_eq!(graph.destination(1, 11), Some(3));
    assert_eq!(graph.destination(2, 10), Some(1));
    assert_eq!(graph.len(), 2);
}

#[test]
fn remove_colonies_removes_the_listed_colonies() {
    let mut graph = WorldGraph::new();
    graph.add_tunnel(1, 10, 2);
    graph.add_tunnel(2, 10, 1);
    graph.add_colony(3);
    remove_colonies(&mut graph, &vec![2, 3, 8, 2]);
    assert_eq!(graph.colonies(), vec![1]);
    assert_eq!(graph.destination(1, 10), Some(2));
}

#[test]
fn bury_removes_the_ants_of_the_listed_colonies() {
    let mut agents = vec![ant(0, 1), ant(1, 2), ant(2, 3), ant(3, 2), ant(1, 4)];
    bury(&mut agents, &vec![2]);
    assert_eq!(agents, vec![ant(0, 1), ant(2, 3)]);
    bury(&mut agents, &Vec::new());
    assert_eq!(agents, vec![ant(0, 1), ant(2, 3)]);
}

#[test]
fn directions_are_known_when_the_table_issued_them() {
    let (graph, symbols) = world(&[("X", &[("north", "Y")]), ("Y", &[("south", "X")])]);
    assert!(directions_are_known(&graph, &symbols));
    let mut other = graph.clone();
    other.add_tunnel(0, symbols.len() as u32, 1);
    assert!(!directions_are_known(&other, &symbols));
    assert!(directions_are_known(&WorldGraph::new(), &SymbolTable::new()));
}

#[test]
fn a_small_table_has_room_for_the_directions() {
    let (_, symbols) = world(&[("X", &[("north", "Y")])]);
    assert!(has_room_for_directions(&symbols));
    assert!(has_room_for_directions(&SymbolTable::new()));
}

#[test]
fn detection_is_idempotent_when_nothing_collides() {
    let (mut graph, mut symbols) = world(&[
        ("A", &[("east", "B")]),
        ("B", &[("west", "A"), ("east", "C")]),
        ("C", &[("west", "B")]),
    ]);
    let a = symbols.lookup("A").unwrap();
    let b = symbols.lookup("B").unwrap();
    let c = symbols.lookup("C").unwrap();
    let before = graph.clone();
    let names = symbols.len();
    let mut agents = vec![ant(2, c), ant(0, a), ant(1, b)];
    for _ in 0..3 {
        let records = detect_collision(&mut agents, &mut graph, &mut symbols);
        assert!(records.is_empty());
        assert_eq!(agents, vec![ant(2, c), ant(0, a), ant(1, b)]);
        assert_eq!(graph, before);
        assert_eq!(symbols.len(), names);
    }
}
