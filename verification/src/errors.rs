//! What can go wrong when a simulation is set up.

use vstd::prelude::*;

verus! {

/// The failures of the simulation. Both are fatal: a run that meets one does not go on.
#[derive(Clone, Copy, Debug, PartialEq, Eq, Structural)]
pub enum SimulationError {
    /// A handle was resolved that the symbol table never issued.
    UnknownHandle,
    /// Ants were to be placed in a world without colonies.
    EmptyWorldGraph,
}

impl SimulationError {
    /// A message for the person who runs the simulation.
    pub fn message(&self) -> (text: String)
        ensures
            *self == SimulationError::UnknownHandle ==> text@
                == "unknown handle: the symbol table never issued it"@,
            *self == SimulationError::EmptyWorldGraph ==> text@
                == "empty world graph: there is no colony to place an ant in"@,
    {
        match self {
            SimulationError::UnknownHandle => {
                "unknown handle: the symbol table never issued it".to_owned()
            },
            SimulationError::EmptyWorldGraph => {
                "empty world graph: there is no colony to place an ant in".to_owned()
            },
        }
    }
}

} // verus!
