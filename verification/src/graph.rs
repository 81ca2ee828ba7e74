//! The world graph: colonies, and the tunnels that lead from each of them.

use crate::symbols::Handle;
use std::collections::HashMap;
use vstd::prelude::*;
use vstd::std_specs::iter::IteratorSpec;

verus! {

/// The mathematical model of a world graph: each colony with its tunnels, a tunnel being
/// a direction and the colony it leads to.
pub type GraphModel = Map<Handle, Map<Handle, Handle>>;

/// The tunnels that leave `colony`: none where the graph has no such colony.
pub open spec fn tunnels_of(graph: GraphModel, colony: Handle) -> Map<Handle, Handle> {
    if graph.contains_key(colony) {
        graph[colony]
    } else {
        Map::empty()
    }
}

/// `graph` has a tunnel that leaves `colony` in `direction`.
pub open spec fn has_tunnel(graph: GraphModel, colony: Handle, direction: Handle) -> bool {
    graph.contains_key(colony) && graph[colony].contains_key(direction)
}

/// Every tunnel leads to a colony of the graph.
pub open spec fn no_dangling_tunnel(graph: GraphModel) -> bool {
    forall|colony: Handle, direction: Handle| #[trigger]
        has_tunnel(graph, colony, direction) ==> graph.contains_key(graph[colony][direction])
}

/// A tunnel as it is handed out: the direction in which it leaves, and where it leads.
#[derive(Clone, Copy, Debug, PartialEq, Eq, Structural)]
pub struct Tunnel {
    pub direction: Handle,
    pub destination: Handle,
}

/// The colonies and their tunnels.
#[derive(Clone, Debug, PartialEq, Eq)]
pub struct WorldGraph {
    colonies: HashMap<Handle, HashMap<Handle, Handle>>,
}

impl View for WorldGraph {
    type V = GraphModel;

    closed spec fn view(&self) -> GraphModel {
        Map::new(
            |colony: Handle| self.colonies@.contains_key(colony),
            |colony: Handle| self.colonies@[colony]@,
        )
    }
}

impl WorldGraph {
    /// The view has the colonies of the map as its keys, and only finitely many.
    proof fn lemma_view(&self)
        ensures
            self@.dom() == self.colonies@.dom(),
            self@.dom().finite(),
            forall|colony: Handle| #[trigger]
                self@.contains_key(colony) ==> self@[colony] == self.colonies@[colony]@
                    && self@[colony].dom().finite(),
    {
        broadcast use vstd::std_specs::hash::group_hash_axioms;

        assert(self@.dom() =~= self.colonies@.dom());
    }

    /// A graph without colonies.
    pub fn new() -> (graph: WorldGraph)
        ensures
            graph@ == GraphModel::empty(),
    {
        let graph = WorldGraph { colonies: HashMap::new() };
        assert(graph@ =~= GraphModel::empty());
        graph
    }

    /// The number of colonies.
    pub fn len(&self) -> (count: usize)
        ensures
            count == self@.dom().len(),
    {
        broadcast use vstd::std_specs::hash::group_hash_axioms;

        proof {
            self.lemma_view();
        }
        self.colonies.len()
    }

    /// Whether the graph has no colony.
    pub fn is_empty(&self) -> (empty: bool)
        ensures
            empty == (self@.dom().len() == 0),
            empty == (self@ == GraphModel::empty()),
    {
        broadcast use vstd::std_specs::hash::group_hash_axioms;

        proof {
            self.lemma_view();
            if self@.dom().len() == 0 {
                assert(self@ =~= GraphModel::empty());
            }
        }
        self.colonies.len() == 0
    }

    /// Whether `colony` is a colony of the graph.
    pub fn contains_colony(&self, colony: Handle) -> (present: bool)
        ensures
            present == self@.contains_key(colony),
    {
        broadcast use vstd::std_specs::hash::group_hash_axioms;

        self.colonies.contains_key(&colony)
    }

    /// Where the tunnel that leaves `colony` in `direction` leads, if there is one.
    pub fn destination(&self, colony: Handle, direction: Handle) -> (found: Option<Handle>)
        ensures
            found == (if has_tunnel(self@, colony, direction) {
                Some(self@[colony][direction])
            } else {
                None
            }),
    {
        broadcast use vstd::std_specs::hash::group_hash_axioms;

        match self.colonies.get(&colony) {
            Some(tunnels) => match tunnels.get(&direction) {
                Some(target) => Some(*target),
                None => None,
            },
            None => None,
        }
    }

    /// Makes `colony` a colony of the graph. One that is there keeps its tunnels.
    pub fn add_colony(&mut self, colony: Handle)
        ensures
            final(self)@ == old(self)@.insert(colony, tunnels_of(old(self)@, colony)),
    {
        broadcast use vstd::std_specs::hash::group_hash_axioms;

        if !self.colonies.contains_key(&colony) {
            self.colonies.insert(colony, HashMap::new());
        }
        assert(final(self)@ =~= old(self)@.insert(colony, tunnels_of(old(self)@, colony)));
    }

    /// Digs a tunnel from `colony` in `direction` to `destination`. A tunnel that left the
    /// colony in that direction is replaced. The colony is added where it was missing;
    /// the destination is not.
    pub fn add_tunnel(&mut self, colony: Handle, direction: Handle, destination: Handle)
        ensures
            final(self)@ == old(self)@.insert(
                colony,
                tunnels_of(old(self)@, colony).insert(direction, destination),
            ),
    {
        broadcast use vstd::std_specs::hash::group_hash_axioms;

        let mut tunnels = match self.colonies.remove(&colony) {
            Some(tunnels) => tunnels,
            None => HashMap::new(),
        };
        tunnels.insert(direction, destination);
        self.colonies.insert(colony, tunnels);
        assert(final(self)@ =~= old(self)@.insert(
            colony,
            tunnels_of(old(self)@, colony).insert(direction, destination),
        ));
    }

    /// Fills in the tunnel that leaves `colony` in `direction`, if there is one. The colony
    /// itself stays.
    pub fn remove_tunnel(&mut self, colony: Handle, direction: Handle)
        ensures
            final(self)@ == (if old(self)@.contains_key(colony) {
                old(self)@.insert(colony, old(self)@[colony].remove(direction))
            } else {
                old(self)@
            }),
    {
        broadcast use vstd::std_specs::hash::group_hash_axioms;

        match self.colonies.remove(&colony) {
            Some(tunnels) => {
                let mut tunnels = tunnels;
                tunnels.remove(&direction);
                self.colonies.insert(colony, tunnels);
                assert(final(self)@ =~= old(self)@.insert(
                    colony,
                    old(self)@[colony].remove(direction),
                ));
            },
            None => {
                assert(final(self)@ =~= old(self)@);
            },
        }
    }

    /// Removes `colony` with the tunnels that leave it. Tunnels that lead to it stay.
    pub fn remove_colony(&mut self, colony: Handle)
        ensures
            final(self)@ == old(self)@.remove(colony),
    {
        broadcast use vstd::std_specs::hash::group_hash_axioms;

        self.colonies.remove(&colony);
        assert(final(self)@ =~= old(self)@.remove(colony));
    }
    /// The colonies of the graph, each once, in no particular order.
    pub fn colonies(&self) -> (all: Vec<Handle>)
        ensures
            all@.no_duplicates(),
            all@.len() == self@.dom().len(),
            forall|colony: Handle| all@.contains(colony) <==> self@.contains_key(colony),
    {
        broadcast use vstd::std_specs::hash::group_hash_axioms;

        let mut all: Vec<Handle> = Vec::new();
        let ghost keys = self.colonies.keys().remaining();
        for key in walk: self.colonies.keys()
            invariant
                walk.seq() == keys,
                all@.len() == walk.index(),
                all@ == keys.take(walk.index()).unref(),
        {
            all.push(*key);
        }
        proof {
            self.lemma_view();
            assert(keys.take(keys.len() as int) == keys);
            assert(all@.to_set() == self@.dom());
            assert forall|colony: Handle| all@.contains(colony) <==> self@.contains_key(
                colony,
            ) by {
                assert(all@.contains(colony) <==> all@.to_set().contains(colony));
            }
        }
        all
    }

    /// The tunnels that leave `colony`, each once, in no particular order. A colony that the
    /// graph does not have has none.
    pub fn exits(&self, colony: Handle) -> (out: Vec<Tunnel>)
        ensures
            out@.len() == tunnels_of(self@, colony).dom().len(),
            forall|i: int|
                0 <= i < out@.len() ==> tunnels_of(self@, colony).contains_pair(
                    (#[trigger] out@[i]).direction,
                    out@[i].destination,
                ),
            forall|i: int, j: int|
                0 <= i < j < out@.len() ==> out@[i].direction != out@[j].direction,
            forall|direction: Handle| #[trigger]
                tunnels_of(self@, colony).contains_key(direction) ==> out@.contains(
                    Tunnel { direction, destination: tunnels_of(self@, colony)[direction] },
                ),
    {
        broadcast use vstd::std_specs::hash::group_hash_axioms;

        let mut out: Vec<Tunnel> = Vec::new();
        let tunnels = match self.colonies.get(&colony) {
            Some(tunnels) => tunnels,
            None => {
                assert(tunnels_of(self@, colony).dom() =~= Set::<Handle>::empty());
                return out;
            },
        };
        let ghost pairs = tunnels.iter().remaining();
        for pair in walk: tunnels.iter()
            invariant
                walk.seq() == pairs,
                out@.len() == walk.index(),
                forall|i: int|
                    0 <= i < out@.len() ==> (#[trigger] out@[i]).direction == *pairs[i].0
                        && out@[i].destination == *pairs[i].1,
        {
            out.push(Tunnel { direction: *pair.0, destination: *pair.1 });
        }
        proof {
            self.lemma_view();
            assert(tunnels_of(self@, colony) == tunnels@);
            assert(pairs.no_duplicates());
            assert forall|i: int, j: int| 0 <= i < j < out@.len() implies out@[i].direction
                != out@[j].direction by {
                assert(tunnels@.contains_key(*pairs[i].0) && tunnels@[*pairs[i].0]
                    == *pairs[i].1);
                assert(tunnels@.contains_key(*pairs[j].0) && tunnels@[*pairs[j].0]
                    == *pairs[j].1);
                if out@[i].direction == out@[j].direction {
                    assert(pairs[i] == pairs[j]);
                }
            }
            assert forall|direction: Handle| #[trigger]
                tunnels@.contains_key(direction) implies out@.contains(
                Tunnel { direction, destination: tunnels@[direction] },
            ) by {
                assert(pairs.contains((&direction, &tunnels@[direction])));
                let i = choose|i: int|
                    0 <= i < pairs.len() && pairs[i] == (&direction, &tunnels@[direction]);
                assert(out@[i] == Tunnel { direction, destination: tunnels@[direction] });
            }
        }
        out
    }
}

} // verus!
