use ant_colony::graph::{Tunnel, WorldGraph};
use ant_colony::loader::{lay_tunnels, load_colony, Connection};
use ant_colony::symbols::SymbolTable;

fn connection(direction: &str, destination: &str) -> Connection {
    Connection { direction: direction.to_string(), destination: destination.to_string() }
}

#[test]
fn a_colony_is_entered_with_its_tunnels() {
    let mut graph = WorldGraph::new();
    let mut symbols = SymbolTable::new();
    load_colony(
        &mut graph,
        &mut symbols,
        "Fizz",
        &vec![connection("north", "Buzz"), connection("west", "Blue")],
    );
    let fizz = symbols.lookup("Fizz").unwrap();
    let buzz = symbols.lookup("Buzz").unwrap();
    let blue = symbols.lookup("Blue").unwrap();
    let north = symbols.lookup("north").unwrap();
    let west = symbols.lookup("west").unwrap();
    assert_eq!(graph.len(), 1);
    assert_eq!(graph.destination(fizz, north), Some(buzz));
    assert_eq!(graph.destination(fizz, west), Some(blue));
    assert!(!graph.contains_colony(buzz));
    assert!(!graph.contains_colony(blue));
}

#[test]
fn names_are_interned_in_the_order_of_the_description() {
    let mut graph = WorldGraph::new();
    let mut symbols = SymbolTable::new();
    load_colony(
        &mut graph,
        &mut symbols,
        "Fizz",
        &vec![connection("north", "Buzz"), connection("west", "Blue")],
    );
    assert_eq!(symbols.lookup("Buzz"), Some(0));
    assert_eq!(symbols.lookup("north"), Some(1));
    assert_eq!(symbols.lookup("Blue"), Some(2));
    assert_eq!(symbols.lookup("west"), Some(3));
    assert_eq!(symbols.lookup("Fizz"), Some(4));
    assert_eq!(symbols.len(), 5);
    load_colony(&mut graph, &mut symbols, "Buzz", &vec![connection("south", "Fizz")]);
    assert_eq!(symbols.lookup("south"), Some(5));
    assert_eq!(symbols.lookup("Fizz"), Some(4));
    assert_eq!(symbols.len(), 6);
    assert_eq!(graph.destination(0, 5), Some(4));
}

#[test]
fn a_colony_without_connections_is_entered_alone() {
    let mut graph = WorldGraph::new();
    let mut symbols = SymbolTable::new();
    load_colony(&mut graph, &mut symbols, "Fizz", &Vec::new());
    assert_eq!(symbols.lookup("Fizz"), Some(0));
    assert!(graph.contains_colony(0));
    assert_eq!(graph.exits(0), Vec::<Tunnel>::new());
}

#[test]
fn the_later_of_two_connections_in_one_direction_counts() {
    let mut graph = WorldGraph::new();
    let mut symbols = SymbolTable::new();
    load_colony(
        &mut graph,
        &mut symbols,
        "Fizz",
        &vec![connection("north", "Buzz"), connection("north", "Blue")],
    );
    let fizz = symbols.lookup("Fizz").unwrap();
    let blue = symbols.lookup("Blue").unwrap();
    let north = symbols.lookup("north").unwrap();
    assert_eq!(graph.destination(fizz, north), Some(blue));
    assert_eq!(graph.exits(fizz).len(), 1);
    assert_eq!(symbols.lookup("Buzz"), Some(0));
}

#[test]
fn a_colony_entered_twice_keeps_its_tunnels_and_gets_the_new_ones() {
    let mut graph = WorldGraph::new();
    let mut symbols = SymbolTable::new();
    load_colony(
        &mut graph,
        &mut symbols,
        "Fizz",
        &vec![connection("north", "Buzz"), connection("west", "Blue")],
    );
    load_colony(
        &mut graph,
        &mut symbols,
        "Fizz",
        &vec![connection("north", "Blue"), connection("east", "Buzz")],
    );
    let fizz = symbols.lookup("Fizz").unwrap();
    let buzz = symbols.lookup("Buzz").unwrap();
    let blue = symbols.lookup("Blue").unwrap();
    assert_eq!(graph.destination(fizz, symbols.lookup("north").unwrap()), Some(blue));
    assert_eq!(graph.destination(fizz, symbols.lookup("west").unwrap()), Some(blue));
    assert_eq!(graph.destination(fizz, symbols.lookup("east").unwrap()), Some(buzz));
    assert_eq!(graph.len(), 1);
}

#[test]
fn a_colony_can_share_its_name_with_a_direction() {
    let mut graph = WorldGraph::new();
    let mut symbols = SymbolTable::new();
    load_colony(&mut graph, &mut symbols, "north", &vec![connection("north", "north")]);
    assert_eq!(symbols.len(), 1);
    assert_eq!(graph.destination(0, 0), Some(0));
}

#[test]
fn lay_tunnels_adds_the_colony_and_its_tunnels() {
    let mut graph = WorldGraph::new();
    graph.add_tunnel(1, 10, 2);
    lay_tunnels(
        &mut graph,
        1,
        &vec![
            Tunnel { direction: 11, destination: 3 },
            Tunnel { direction: 10, destination: 4 },
            Tunnel { direction: 11, destination: 5 },
        ],
    );
    assert_eq!(graph.destination(1, 10), Some(4));
    assert_eq!(graph.destination(1, 11), Some(5));
    lay_tunnels(&mut graph, 6, &Vec::new());
    assert!(graph.contains_colony(6));
    assert_eq!(graph.len(), 2);
}
