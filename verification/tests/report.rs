use ant_colony::agents::Destruction;
use ant_colony::errors::SimulationError;
use ant_colony::graph::WorldGraph;
use ant_colony::map_text::build_map;
use ant_colony::report::{
    describe_colony, describe_destruction, digit_char, push_decimal, push_tunnel,
};
use ant_colony::symbols::SymbolTable;

fn decimal(number: usize) -> String {
    let mut text = String::new();
    push_decimal(&mut text, number);
    text
}

#[test]
fn digits_have_their_characters() {
    let digits: Vec<char> = (0..10).map(digit_char).collect();
    assert_eq!(digits, vec!['0', '1', '2', '3', '4', '5', '6', '7', '8', '9']);
}

#[test]
fn numbers_are_written_in_decimal() {
    assert_eq!(decimal(0), "0");
    assert_eq!(decimal(7), "7");
    assert_eq!(decimal(10), "10");
    assert_eq!(decimal(42), "42");
    assert_eq!(decimal(100), "100");
    assert_eq!(decimal(9_999), "9999");
    assert_eq!(decimal(1_234_567_890), "1234567890");
    assert_eq!(decimal(usize::MAX), usize::MAX.to_string());
}

#[test]
fn a_number_is_appended_to_what_stands_there() {
    let mut text = "ant ".to_string();
    push_decimal(&mut text, 305);
    assert_eq!(text, "ant 305");
}

#[test]
fn a_destruction_is_told_in_words() {
    let mut symbols = SymbolTable::new();
    symbols.intern("Fizz");
    let buzz = symbols.intern("Buzz");
    let record = Destruction { colony: buzz, first: 3, second: 12 };
    assert_eq!(
        describe_destruction(&record, &symbols),
        Ok("Buzz has been destroyed by ant 3 and ant 12!".to_string())
    );
}

#[test]
fn a_destruction_of_a_colony_without_name_cannot_be_told() {
    let mut symbols = SymbolTable::new();
    symbols.intern("Fizz");
    let record = Destruction { colony: 1, first: 0, second: 1 };
    assert_eq!(describe_destruction(&record, &symbols), Err(SimulationError::UnknownHandle));
}

#[test]
fn a_colony_is_told_with_its_tunnels_in_their_order() {
    let (graph, symbols) =
        build_map("Fizz west=Blue north=Buzz south=Bla east=Foo\nBuzz south=Fizz\nBla\n");
    let fizz = symbols.lookup("Fizz").unwrap();
    let buzz = symbols.lookup("Buzz").unwrap();
    let bla = symbols.lookup("Bla").unwrap();
    assert_eq!(
        describe_colony(&graph, &symbols, fizz),
        Ok("Fizz north=Buzz south=Bla east=Foo west=Blue ".to_string())
    );
    assert_eq!(describe_colony(&graph, &symbols, buzz), Ok("Buzz south=Fizz ".to_string()));
    assert_eq!(describe_colony(&graph, &symbols, bla), Ok("Bla ".to_string()));
}

#[test]
fn tunnels_in_other_directions_are_not_told() {
    let (graph, symbols) = build_map("Fizz up=Buzz north=Bla down=Foo");
    let fizz = symbols.lookup("Fizz").unwrap();
    assert_eq!(describe_colony(&graph, &symbols, fizz), Ok("Fizz north=Bla ".to_string()));
}

#[test]
fn a_colony_that_the_graph_lacks_is_told_without_tunnels() {
    let (graph, symbols) = build_map("Fizz north=Buzz");
    let buzz = symbols.lookup("Buzz").unwrap();
    assert_eq!(describe_colony(&graph, &symbols, buzz), Ok("Buzz ".to_string()));
}

#[test]
fn a_colony_without_name_cannot_be_told() {
    let (graph, symbols) = build_map("Fizz north=Buzz");
    assert_eq!(
        describe_colony(&graph, &symbols, symbols.len() as u32),
        Err(SimulationError::UnknownHandle)
    );
}

#[test]
fn a_tunnel_to_a_colony_without_name_cannot_be_told() {
    let (mut graph, symbols) = build_map("Fizz north=Buzz");
    let fizz = symbols.lookup("Fizz").unwrap();
    let north = symbols.lookup("north").unwrap();
    graph.add_tunnel(fizz, north, 99);
    assert_eq!(describe_colony(&graph, &symbols, fizz), Err(SimulationError::UnknownHandle));
    let mut line = "Fizz ".to_string();
    assert_eq!(
        push_tunnel(&mut line, &graph, &symbols, fizz, "north"),
        Err(SimulationError::UnknownHandle)
    );
    assert_eq!(line, "Fizz ");
}

#[test]
fn a_tunnel_is_appended_to_the_line() {
    let (graph, symbols) = build_map("Fizz north=Buzz");
    let fizz = symbols.lookup("Fizz").unwrap();
    let mut line = "Fizz ".to_string();
    assert_eq!(push_tunnel(&mut line, &graph, &symbols, fizz, "south"), Ok(()));
    assert_eq!(line, "Fizz ");
    assert_eq!(push_tunnel(&mut line, &graph, &symbols, fizz, "north"), Ok(()));
    assert_eq!(line, "Fizz north=Buzz ");
    assert_eq!(push_tunnel(&mut line, &WorldGraph::new(), &symbols, fizz, "north"), Ok(()));
    assert_eq!(line, "Fizz north=Buzz ");
}
