//! The simulation driver: movement, then collisions, tick after tick, until no ant is
//! left or the budget of ticks is used up.

use crate::agents::{destructions, doomed_colonies, has_collision, survivors, Agent, Destruction};
use crate::collision::{
    detect_collision, directions_are_known, directions_known, graph_without, grown_from, room_for_directions,
    table_after,
};
use crate::errors::SimulationError;
use crate::graph::{has_tunnel, GraphModel, WorldGraph};
use crate::laws::{lemma_moved_are_placed, settled};
use crate::movement::{has_exit, move_ants, moved_from};
use crate::symbols::{Handle, SymbolTable};
use vstd::prelude::*;

verus! {

/// The number of ticks after which a simulation ends, whatever is left of the ants.
pub const TICK_BUDGET: usize = 10_000;

/// Where a simulation stands.
#[derive(Clone, Copy, Debug, PartialEq, Eq, Structural)]
pub enum DriverState {
    /// Ants are left, and ticks.
    Running,
    /// No ant is left. The simulation has ended.
    AllAgentsDead,
    /// The budget of ticks is used up, and ants are left. The simulation has ended.
    BudgetExhausted,
}

/// The state after a tick: the count of ticks made so far, and of the ants that are left.
pub open spec fn state_after(ticks: int, agents_left: int) -> DriverState {
    if agents_left == 0 {
        DriverState::AllAgentsDead
    } else if ticks >= TICK_BUDGET {
        DriverState::BudgetExhausted
    } else {
        DriverState::Running
    }
}

/// Every colony and every tunnel of `after` is one of `before`.
pub open spec fn part_of(after: GraphModel, before: GraphModel) -> bool {
    &&& forall|colony: Handle| #[trigger] after.contains_key(colony) ==> before.contains_key(colony)
    &&& forall|colony: Handle, direction: Handle| #[trigger]
        has_tunnel(after, colony, direction) ==> has_tunnel(before, colony, direction)
            && after[colony][direction] == before[colony][direction]
}

/// Decides how the simulation goes on after a tick. That no ant is left ends it, also
/// at the last tick of the budget.
pub fn next_state(ticks: usize, agents_left: usize) -> (state: DriverState)
    ensures
        state == state_after(ticks as int, agents_left as int),
{
    if agents_left == 0 {
        DriverState::AllAgentsDead
    } else if ticks >= TICK_BUDGET {
        DriverState::BudgetExhausted
    } else {
        DriverState::Running
    }
}

/// A simulation: the world, the names of its colonies and directions, the ants, the
/// ticks made, and where it stands.
pub struct Simulation {
    pub graph: WorldGraph,
    pub symbols: SymbolTable,
    pub agents: Vec<Agent>,
    pub ticks: usize,
    pub state: DriverState,
}

impl Simulation {
    /// The table is sound and has room for the directions, it has issued the directions of
    /// the tunnels, and a running simulation has ticks left.
    pub open spec fn wf(&self) -> bool {
        &&& self.symbols.wf()
        &&& room_for_directions(self.symbols@)
        &&& directions_known(self.graph@, self.symbols@)
        &&& self.ticks <= TICK_BUDGET
        &&& self.state == DriverState::Running ==> self.ticks < TICK_BUDGET
    }

    /// A simulation that is about to start. A graph with a tunnel whose direction the table
    /// has not issued is refused.
    pub fn new(graph: WorldGraph, symbols: SymbolTable, agents: Vec<Agent>) -> (started: Result<
        Simulation,
        SimulationError,
    >)
        requires
            symbols.wf(),
            room_for_directions(symbols@),
        ensures
            match started {
                Ok(simulation) => {
                    &&& directions_known(graph@, symbols@)
                    &&& simulation.wf()
                    &&& simulation.graph == graph
                    &&& simulation.symbols == symbols
                    &&& simulation.agents == agents
                    &&& simulation.ticks == 0
                    &&& simulation.state == DriverState::Running
                },
                Err(e) => e == SimulationError::UnknownHandle && !directions_known(
                    graph@,
                    symbols@,
                ),
            },
    {
        if directions_are_known(&graph, &symbols) {
            Ok(Simulation { graph, symbols, agents, ticks: 0, state: DriverState::Running })
        } else {
            Err(SimulationError::UnknownHandle)
        }
    }

    /// Whether the simulation goes on.
    pub fn is_running(&self) -> (running: bool)
        ensures
            running == (self.state == DriverState::Running),
    {
        match self.state {
            DriverState::Running => true,
            _ => false,
        }
    }

    /// The second half of a tick, for ants that have been moved: the collision phase, one
    /// tick more on the counter, and the decision how to go on.
    pub fn finish_tick(&mut self) -> (records: Vec<Destruction>)
        requires
            old(self).wf(),
            old(self).state == DriverState::Running,
        ensures
            final(self).wf(),
            final(self).ticks == old(self).ticks + 1,
            final(self).state == state_after(
                final(self).ticks as int,
                final(self).agents@.len() as int,
            ),
            records@ == destructions(old(self).agents@),
            final(self).agents@ == survivors(old(self).agents@),
            final(self).graph@ == graph_without(
                old(self).graph@,
                doomed_colonies(old(self).agents@),
                final(self).symbols@,
            ),
            table_after(
                old(self).graph@,
                doomed_colonies(old(self).agents@),
                old(self).symbols@,
                final(self).symbols@,
            ),
            !has_collision(old(self).agents@) ==> {
                &&& records@.len() == 0
                &&& final(self).agents@ == old(self).agents@
                &&& final(self).graph@ == old(self).graph@
                &&& final(self).symbols@ == old(self).symbols@
            },
            !has_collision(final(self).agents@),
            settled(old(self).graph@, old(self).symbols@, old(self).agents@) ==> settled(
                final(self).graph@,
                final(self).symbols@,
                final(self).agents@,
            ),
    {
        let records = detect_collision(&mut self.agents, &mut self.graph, &mut self.symbols);
        self.ticks = self.ticks + 1;
        self.state = next_state(self.ticks, self.agents.len());
        records
    }

    /// One tick: the movement phase, then the collision phase, then the decision how to
    /// go on. The records of the colonies destroyed in this tick are returned.
    pub fn tick(&mut self) -> (records: Vec<Destruction>)
        requires
            old(self).wf(),
            old(self).state == DriverState::Running,
        ensures
            final(self).wf(),
            final(self).ticks == old(self).ticks + 1,
            final(self).state == state_after(
                final(self).ticks as int,
                final(self).agents@.len() as int,
            ),
            exists|moved: Seq<Agent>|
                {
                    &&& #[trigger] moved_from(old(self).graph@, old(self).agents@, moved)
                    &&& records@ == destructions(moved)
                    &&& final(self).agents@ == survivors(moved)
                    &&& final(self).graph@ == graph_without(
                        old(self).graph@,
                        doomed_colonies(moved),
                        final(self).symbols@,
                    )
                    &&& table_after(
                        old(self).graph@,
                        doomed_colonies(moved),
                        old(self).symbols@,
                        final(self).symbols@,
                    )
                },
            part_of(final(self).graph@, old(self).graph@),
            grown_from(final(self).symbols@, old(self).symbols@),
            final(self).agents@.len() <= old(self).agents@.len(),
            old(self).agents@.len() <= 1 ==> {
                &&& records@.len() == 0
                &&& moved_from(old(self).graph@, old(self).agents@, final(self).agents@)
                &&& final(self).graph@ == old(self).graph@
                &&& final(self).symbols@ == old(self).symbols@
            },
            !has_collision(final(self).agents@),
            settled(old(self).graph@, old(self).symbols@, old(self).agents@) ==> settled(
                final(self).graph@,
                final(self).symbols@,
                final(self).agents@,
            ),
    {
        move_ants(&mut self.agents, &self.graph);
        let ghost moved = self.agents@;
        proof {
            if settled(old(self).graph@, old(self).symbols@, old(self).agents@) {
                lemma_moved_are_placed(old(self).graph@, old(self).agents@, moved);
            }
        }
        let records = self.finish_tick();
        proof {
            assert(moved_from(old(self).graph@, old(self).agents@, moved));
            moved.lemma_filter_len(
                |agent: Agent| !crate::agents::dies(moved, doomed_colonies(moved), agent.id),
            );
            if moved.len() <= 1 {
                assert(!has_collision(moved));
            }
        }
        records
    }

    /// Runs the simulation to its end: tick after tick until no ant is left or the budget
    /// is used up. All the records are returned, in the order of the destructions.
    pub fn run(&mut self) -> (records: Vec<Destruction>)
        requires
            old(self).wf(),
            old(self).state == DriverState::Running,
        ensures
            final(self).wf(),
            final(self).state != DriverState::Running,
            final(self).state == state_after(
                final(self).ticks as int,
                final(self).agents@.len() as int,
            ),
            old(self).ticks < final(self).ticks <= TICK_BUDGET,
            part_of(final(self).graph@, old(self).graph@),
            grown_from(final(self).symbols@, old(self).symbols@),
            final(self).agents@.len() <= old(self).agents@.len(),
            !has_collision(final(self).agents@),
            settled(old(self).graph@, old(self).symbols@, old(self).agents@) ==> settled(
                final(self).graph@,
                final(self).symbols@,
                final(self).agents@,
            ),
            old(self).agents@.len() == 0 ==> final(self).state == DriverState::AllAgentsDead
                && final(self).ticks == old(self).ticks + 1,
            old(self).agents@.len() == 1 ==> {
                &&& final(self).state == DriverState::BudgetExhausted
                &&& final(self).ticks == TICK_BUDGET
                &&& final(self).graph@ == old(self).graph@
                &&& final(self).symbols@ == old(self).symbols@
                &&& records@.len() == 0
                &&& final(self).agents@.len() == 1
                &&& final(self).agents@[0].id == old(self).agents@[0].id
                &&& !has_exit(old(self).graph@, old(self).agents@[0].location)
                    ==> final(self).agents@ == old(self).agents@
            },
    {
        let ghost start = *self;
        let mut records: Vec<Destruction> = Vec::new();
        while self.is_running()
            invariant
                self.wf(),
                start.state == DriverState::Running,
                start.ticks <= self.ticks <= TICK_BUDGET,
                self.ticks == start.ticks ==> self.state == DriverState::Running
                    && self.agents@ == start.agents@,
                self.ticks > start.ticks ==> self.state == state_after(
                    self.ticks as int,
                    self.agents@.len() as int,
                ) && !has_collision(self.agents@),
                part_of(self.graph@, start.graph@),
                grown_from(self.symbols@, start.symbols@),
                self.agents@.len() <= start.agents@.len(),
                settled(start.graph@, start.symbols@, start.agents@) ==> settled(
                    self.graph@,
                    self.symbols@,
                    self.agents@,
                ),
                start.agents@.len() == 0 ==> self.ticks <= start.ticks + 1,
                start.agents@.len() == 1 ==> {
                    &&& self.graph@ == start.graph@
                    &&& self.symbols@ == start.symbols@
                    &&& records@.len() == 0
                    &&& self.agents@.len() == 1
                    &&& self.agents@[0].id == start.agents@[0].id
                    &&& !has_exit(start.graph@, start.agents@[0].location) ==> self.agents@
                        == start.agents@
                },
            decreases TICK_BUDGET - self.ticks,
        {
            let ghost before = *self;
            let mut found = self.tick();
            records.append(&mut found);
            proof {
                if start.agents@.len() == 1 {
                    assert(self.agents@[0].id == before.agents@[0].id);
                    if !has_exit(start.graph@, start.agents@[0].location) {
                        assert(self.agents@[0] == before.agents@[0]);
                        assert(self.agents@ =~= before.agents@);
                    }
                }
            }
        }
        records
    }
}

} // verus!
