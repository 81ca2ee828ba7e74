use ant_colony::agents::Agent;
use ant_colony::errors::SimulationError;
use ant_colony::graph::{Tunnel, WorldGraph};
use ant_colony::movement::{
    chunk_size, destinations, move_ant, move_ants, move_chunk, settle, spawn_ants,
};

fn ant(id: usize, location: u32) -> Agent {
    Agent { id, location }
}

#[test]
fn an_ant_without_exit_stays() {
    let mut graph = WorldGraph::new();
    graph.add_colony(1);
    graph.add_tunnel(2, 10, 1);
    for _ in 0..50 {
        assert_eq!(move_ant(&graph, 1), 1);
    }
}

#[test]
fn an_ant_in_a_colony_that_the_graph_lacks_stays() {
    let mut graph = WorldGraph::new();
    graph.add_tunnel(2, 10, 1);
    assert_eq!(move_ant(&graph, 1), 1);
    assert_eq!(move_ant(&WorldGraph::new(), 5), 5);
}

#[test]
fn an_ant_with_one_exit_takes_it() {
    let mut graph = WorldGraph::new();
    graph.add_tunnel(1, 10, 2);
    graph.add_tunnel(2, 11, 1);
    for _ in 0..50 {
        assert_eq!(move_ant(&graph, 1), 2);
        assert_eq!(move_ant(&graph, 2), 1);
    }
}

#[test]
fn an_ant_with_exits_always_moves_to_the_end_of_one() {
    let mut graph = WorldGraph::new();
    graph.add_tunnel(1, 10, 2);
    graph.add_tunnel(1, 11, 3);
    graph.add_tunnel(1, 12, 4);
    let mut seen = [false; 5];
    for _ in 0..2000 {
        let next = move_ant(&graph, 1);
        assert!(next == 2 || next == 3 || next == 4);
        seen[next as usize] = true;
    }
    assert!(seen[2] && seen[3] && seen[4]);
}

#[test]
fn a_tunnel_back_to_the_colony_is_an_exit_too() {
    let mut graph = WorldGraph::new();
    graph.add_tunnel(1, 10, 1);
    assert_eq!(move_ant(&graph, 1), 1);
}

#[test]
fn the_movement_phase_moves_every_ant_and_keeps_the_graph() {
    let mut graph = WorldGraph::new();
    graph.add_tunnel(1, 10, 2);
    graph.add_tunnel(2, 11, 3);
    graph.add_colony(3);
    let before = graph.clone();
    let mut agents = vec![ant(7, 1), ant(8, 2), ant(9, 3), ant(10, 1), ant(11, 42)];
    move_ants(&mut agents, &graph);
    assert_eq!(agents, vec![ant(7, 2), ant(8, 3), ant(9, 3), ant(10, 2), ant(11, 42)]);
    assert_eq!(graph, before);
    move_ants(&mut agents, &graph);
    assert_eq!(agents, vec![ant(7, 3), ant(8, 3), ant(9, 3), ant(10, 3), ant(11, 42)]);
}

#[test]
fn the_movement_phase_of_no_ants_does_nothing() {
    let mut graph = WorldGraph::new();
    graph.add_tunnel(1, 10, 2);
    let mut agents: Vec<Agent> = Vec::new();
    move_ants(&mut agents, &graph);
    assert!(agents.is_empty());
}

#[test]
fn settle_takes_the_pick_or_stays() {
    assert_eq!(settle(3, Some(8)), 8);
    assert_eq!(settle(3, Some(3)), 3);
    assert_eq!(settle(3, None), 3);
}

#[test]
fn destinations_are_the_ends_of_the_tunnels() {
    let exits = vec![
        Tunnel { direction: 10, destination: 2 },
        Tunnel { direction: 11, destination: 5 },
        Tunnel { direction: 12, destination: 2 },
    ];
    assert_eq!(destinations(&exits), vec![2, 5, 2]);
    assert_eq!(destinations(&Vec::new()), Vec::<u32>::new());
}

#[test]
fn chunks_share_the_ants_out_among_the_workers() {
    assert_eq!(chunk_size(10, 4), 2);
    assert_eq!(chunk_size(12, 4), 3);
    assert_eq!(chunk_size(1000, 8), 125);
    assert_eq!(chunk_size(7, 1), 7);
}

#[test]
fn a_chunk_holds_one_ant_at_least() {
    assert_eq!(chunk_size(3, 8), 1);
    assert_eq!(chunk_size(0, 4), 1);
    assert_eq!(chunk_size(0, 1), 1);
    assert_eq!(chunk_size(8, 8), 1);
    assert_eq!(chunk_size(7, 8), 1);
}

#[test]
fn ants_cannot_be_placed_in_an_empty_world() {
    let graph = WorldGraph::new();
    assert_eq!(spawn_ants(&graph, 3), Err(SimulationError::EmptyWorldGraph));
    assert_eq!(spawn_ants(&graph, 0), Err(SimulationError::EmptyWorldGraph));
}

#[test]
fn ants_are_numbered_from_zero_and_placed_in_colonies() {
    let mut graph = WorldGraph::new();
    graph.add_tunnel(1, 10, 2);
    graph.add_tunnel(2, 11, 1);
    graph.add_colony(3);
    let agents = spawn_ants(&graph, 200).unwrap();
    assert_eq!(agents.len(), 200);
    let mut seen = [false; 4];
    for (i, agent) in agents.iter().enumerate() {
        assert_eq!(agent.id, i);
        assert!(graph.contains_colony(agent.location));
        seen[agent.location as usize] = true;
    }
    assert!(seen[1] && seen[2] && seen[3]);
}

#[test]
fn no_ants_can_be_placed_in_a_world_with_colonies() {
    let mut graph = WorldGraph::new();
    graph.add_colony(3);
    assert_eq!(spawn_ants(&graph, 0), Ok(Vec::new()));
    assert_eq!(spawn_ants(&graph, 2), Ok(vec![ant(0, 3), ant(1, 3)]));
}

#[test]
fn a_chunk_of_the_list_is_moved_alone() {
    let mut graph = WorldGraph::new();
    graph.add_tunnel(1, 10, 2);
    graph.add_tunnel(2, 11, 3);
    graph.add_colony(3);
    let mut agents = vec![ant(7, 1), ant(8, 2), ant(9, 3), ant(10, 1), ant(11, 2)];
    move_chunk(&mut agents[1..4], &graph);
    assert_eq!(agents, vec![ant(7, 1), ant(8, 3), ant(9, 3), ant(10, 2), ant(11, 2)]);
    move_chunk(&mut agents[0..0], &graph);
    assert_eq!(agents, vec![ant(7, 1), ant(8, 3), ant(9, 3), ant(10, 2), ant(11, 2)]);
}

#[test]
fn moving_the_chunks_moves_the_list() {
    let mut graph = WorldGraph::new();
    graph.add_tunnel(1, 10, 2);
    graph.add_tunnel(2, 11, 3);
    graph.add_tunnel(3, 12, 1);
    let mut whole: Vec<Agent> = (0..10).map(|id| ant(id, 1 + (id as u32 % 3))).collect();
    let mut chunked = whole.clone();
    move_ants(&mut whole, &graph);
    for chunk in chunked.chunks_mut(chunk_size(10, 4)) {
        move_chunk(chunk, &graph);
    }
    assert_eq!(whole, chunked);
}
