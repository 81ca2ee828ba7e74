//! The ants, and which of them meet.

use crate::symbols::Handle;
use std::collections::HashMap;
use std::collections::HashSet;
use vstd::prelude::*;

verus! {

/// An ant: its identity, and the colony it is in.
#[derive(Clone, Copy, Debug, PartialEq, Eq, Structural)]
pub struct Agent {
    pub id: usize,
    pub location: Handle,
}

/// The record of one destroyed colony: the colony, and the first two ants that met there.
#[derive(Clone, Copy, Debug, PartialEq, Eq, Structural)]
pub struct Destruction {
    pub colony: Handle,
    pub first: usize,
    pub second: usize,
}

/// The ants at positions `i` and `j`, two different ants, are both in `colony`.
pub open spec fn meet_at(agents: Seq<Agent>, i: int, j: int, colony: Handle) -> bool {
    &&& 0 <= i < j < agents.len()
    &&& agents[i].location == colony
    &&& agents[j].location == colony
}

/// `colony` hosts two ants or more: it is doomed.
pub open spec fn crowded(agents: Seq<Agent>, colony: Handle) -> bool {
    exists|i: int, j: int| meet_at(agents, i, j, colony)
}

/// Some colony hosts two ants or more.
pub open spec fn has_collision(agents: Seq<Agent>) -> bool {
    exists|i: int, j: int| 0 <= i < j < agents.len() && #[trigger] meet_at(
        agents,
        i,
        j,
        agents[i].location,
    )
}

/// The ant at position `i` is the only one before position `j` that shares the colony of
/// the ant at `j`.
pub open spec fn only_earlier(agents: Seq<Agent>, i: int, j: int) -> bool {
    &&& 0 <= i < j < agents.len()
    &&& agents[i].location == agents[j].location
    &&& forall|k: int|
        0 <= k < j && (#[trigger] agents[k]).location == agents[j].location ==> k == i
}

/// The ant at position `j` is the second to be in its colony: here the colony is found
/// to be doomed.
pub open spec fn second_arrival(agents: Seq<Agent>, j: int) -> bool {
    exists|i: int| only_earlier(agents, i, j)
}

/// The position of the ant that was in the colony before the second arrival at `j`.
pub open spec fn first_arrival(agents: Seq<Agent>, j: int) -> int {
    choose|i: int| only_earlier(agents, i, j)
}

/// The record that the second arrival at position `j` gives rise to.
pub open spec fn destruction_at(agents: Seq<Agent>, j: int) -> Destruction {
    Destruction {
        colony: agents[j].location,
        first: agents[first_arrival(agents, j)].id,
        second: agents[j].id,
    }
}

/// The records of the colonies found doomed among the first `n` ants, in the order in
/// which their second ant stands in the list.
pub open spec fn destructions_upto(agents: Seq<Agent>, n: int) -> Seq<Destruction>
    decreases n,
{
    if n <= 0 {
        Seq::empty()
    } else if second_arrival(agents, n - 1) {
        destructions_upto(agents, n - 1).push(destruction_at(agents, n - 1))
    } else {
        destructions_upto(agents, n - 1)
    }
}

/// One record for each doomed colony.
pub open spec fn destructions(agents: Seq<Agent>) -> Seq<Destruction> {
    destructions_upto(agents, agents.len() as int)
}

/// The colonies that host two ants or more.
pub open spec fn doomed_colonies(agents: Seq<Agent>) -> Set<Handle> {
    Set::new(|colony: Handle| crowded(agents, colony))
}

/// The ant with this identity dies when the colonies of `doomed` go: an ant of that
/// identity is in one of them.
pub open spec fn dies(agents: Seq<Agent>, doomed: Set<Handle>, id: usize) -> bool {
    exists|i: int|
        0 <= i < agents.len() && (#[trigger] agents[i]).id == id && doomed.contains(
            agents[i].location,
        )
}

/// The ants that are left when the colonies of `doomed` go, in their old order.
pub open spec fn survivors_of(agents: Seq<Agent>, doomed: Set<Handle>) -> Seq<Agent> {
    agents.filter(|agent: Agent| !dies(agents, doomed, agent.id))
}

/// The ants that are left after a collision phase, in their old order: those that share
/// no identity with an ant in a colony that hosts two or more.
pub open spec fn survivors(agents: Seq<Agent>) -> Seq<Agent> {
    survivors_of(agents, doomed_colonies(agents))
}

/// What the records of the first `n` ants say: each names a colony that two of those ants
/// share, every such colony has its record, and none has two.
pub proof fn lemma_destructions_upto(agents: Seq<Agent>, n: int)
    requires
        0 <= n <= agents.len(),
    ensures
        destructions_upto(agents, n).len() <= n,
        forall|r: int|
            0 <= r < destructions_upto(agents, n).len() ==> crowded(
                agents.take(n),
                (#[trigger] destructions_upto(agents, n)[r]).colony,
            ),
        forall|colony: Handle| #[trigger]
            crowded(agents.take(n), colony) ==> exists|r: int|
                0 <= r < destructions_upto(agents, n).len() && (#[trigger] destructions_upto(
                    agents,
                    n,
                )[r]).colony == colony,
        forall|r: int, s: int|
            0 <= r < s < destructions_upto(agents, n).len() ==> (#[trigger] destructions_upto(
                agents,
                n,
            )[r]).colony != (#[trigger] destructions_upto(agents, n)[s]).colony,
    decreases n,
{
    if n > 0 {
        lemma_destructions_upto(agents, n - 1);
        let before = destructions_upto(agents, n - 1);
        let now = destructions_upto(agents, n);
        let j = n - 1;
        let here = agents[j].location;
        assert forall|colony: Handle| crowded(agents.take(j), colony) implies crowded(
            agents.take(n),
            colony,
        ) by {
            let (a, b) = choose|a: int, b: int| meet_at(agents.take(j), a, b, colony);
            assert(meet_at(agents.take(n), a, b, colony));
        }
        if second_arrival(agents, j) {
            let i = first_arrival(agents, j);
            assert(only_earlier(agents, i, j));
            assert(meet_at(agents.take(n), i, j, here));
            assert(now[now.len() - 1] == destruction_at(agents, j));
            assert forall|r: int| 0 <= r < before.len() implies (#[trigger] now[r]).colony
                != here by {
                assert(now[r] == before[r]);
                let (a, b) = choose|a: int, b: int|
                    meet_at(agents.take(j), a, b, before[r].colony);
                if before[r].colony == here {
                    assert(agents[a].location == here);
                    assert(agents[b].location == here);
                }
            }
        } else {
            assert(now == before);
        }
        assert forall|colony: Handle| #[trigger] crowded(agents.take(n), colony) implies exists|
            r: int,
        |
            0 <= r < now.len() && (#[trigger] now[r]).colony == colony by {
            let (a, b) = choose|a: int, b: int| meet_at(agents.take(n), a, b, colony);
            if b < j {
                assert(meet_at(agents.take(j), a, b, colony));
                assert(crowded(agents.take(j), colony));
                let r = choose|r: int|
                    0 <= r < before.len() && (#[trigger] before[r]).colony == colony;
                assert(now[r].colony == colony);
            } else if crowded(agents.take(j), colony) {
                let r = choose|r: int|
                    0 <= r < before.len() && (#[trigger] before[r]).colony == colony;
                assert(now[r].colony == colony);
            } else {
                assert(agents[a].location == here);
                assert forall|k: int|
                    0 <= k < j && (#[trigger] agents[k]).location == here implies k == a by {
                    if k < a {
                        assert(meet_at(agents.take(j), k, a, colony));
                    } else if k > a {
                        assert(meet_at(agents.take(j), a, k, colony));
                    }
                }
                assert(only_earlier(agents, a, j));
                assert(now[now.len() - 1].colony == colony);
            }
        }
    }
}

/// What the records say: each names a doomed colony with two of the ants that met there,
/// every doomed colony has its record, and none has two.
pub proof fn lemma_destructions(agents: Seq<Agent>)
    ensures
        forall|r: int|
            0 <= r < destructions(agents).len() ==> crowded(
                agents,
                (#[trigger] destructions(agents)[r]).colony,
            ),
        forall|colony: Handle| #[trigger]
            crowded(agents, colony) ==> exists|r: int|
                0 <= r < destructions(agents).len() && (#[trigger] destructions(
                    agents,
                )[r]).colony == colony,
        forall|r: int, s: int|
            0 <= r < s < destructions(agents).len() ==> (#[trigger] destructions(
                agents,
            )[r]).colony != (#[trigger] destructions(agents)[s]).colony,
        has_collision(agents) <==> destructions(agents).len() > 0,
{
    lemma_destructions_upto(agents, agents.len() as int);
    assert(agents.take(agents.len() as int) == agents);
    if has_collision(agents) {
        let (i, j) = choose|i: int, j: int|
            0 <= i < j < agents.len() && #[trigger] meet_at(agents, i, j, agents[i].location);
        assert(crowded(agents, agents[i].location));
    }
    if destructions(agents).len() > 0 {
        let colony = destructions(agents)[0].colony;
        assert(crowded(agents, colony));
        let (i, j) = choose|i: int, j: int| meet_at(agents, i, j, colony);
        assert(meet_at(agents, i, j, agents[i].location));
    }
}

/// Finds the doomed colonies: one record for each colony that hosts two ants or more,
/// with the first two ants found there.
pub fn find_collisions(agents: &Vec<Agent>) -> (records: Vec<Destruction>)
    ensures
        records@ == destructions(agents@),
{
    broadcast use vstd::std_specs::hash::group_hash_axioms;

    let mut first_seen: HashMap<Handle, usize> = HashMap::new();
    let mut doomed: HashSet<Handle> = HashSet::new();
    let mut records: Vec<Destruction> = Vec::new();
    let mut n: usize = 0;
    while n < agents.len()
        invariant
            n <= agents.len(),
            records@ == destructions_upto(agents@, n as int),
            forall|colony: Handle| #[trigger]
                first_seen@.contains_key(colony) ==> first_seen@[colony] < n && agents@[first_seen@[colony] as int].location
                    == colony,
            forall|k: int|
                0 <= k < n ==> first_seen@.contains_key((#[trigger] agents@[k]).location)
                    && first_seen@[agents@[k].location] <= k,
            forall|colony: Handle| #[trigger]
                doomed@.contains(colony) <==> crowded(agents@.take(n as int), colony),
        decreases agents.len() - n,
    {
        let agent = agents[n];
        let here = agent.location;
        let ghost j = n as int;
        let ghost earlier = agents@.take(j);
        let ghost upto = agents@.take(j + 1);
        proof {
            assert forall|colony: Handle| crowded(earlier, colony) implies crowded(
                upto,
                colony,
            ) by {
                let (a, b) = choose|a: int, b: int| meet_at(earlier, a, b, colony);
                assert(meet_at(upto, a, b, colony));
            }
            assert forall|colony: Handle|
                colony != here && crowded(upto, colony) implies crowded(
                earlier,
                colony,
            ) by {
                let (a, b) = choose|a: int, b: int| meet_at(upto, a, b, colony);
                assert(meet_at(earlier, a, b, colony));
            }
        }
        if doomed.contains(&here) {
            proof {
                let (a, b) = choose|a: int, b: int| meet_at(earlier, a, b, here);
                assert(agents@[a].location == here && agents@[b].location == here);
                assert(!second_arrival(agents@, j)) by {
                    if second_arrival(agents@, j) {
                        let i = first_arrival(agents@, j);
                        assert(only_earlier(agents@, i, j));
                    }
                }
            }
        } else {
            match first_seen.get(&here) {
                Some(first) => {
                    let first = *first;
                    proof {
                        let i = first as int;
                        assert forall|k: int|
                            0 <= k < j && (#[trigger] agents@[k]).location == here implies k
                            == i by {
                            if k < i {
                                assert(meet_at(earlier, k, i, here));
                            } else if k > i {
                                assert(meet_at(earlier, i, k, here));
                            }
                        }
                        assert(only_earlier(agents@, i, j));
                        let chosen = first_arrival(agents@, j);
                        assert(only_earlier(agents@, chosen, j));
                        assert(agents@[i].location == agents@[j].location);
                        assert(chosen == i);
                        assert(meet_at(upto, i, j, here));
                    }
                    records.push(
                        Destruction { colony: here, first: agents[first].id, second: agent.id },
                    );
                    doomed.insert(here);
                },
                None => {
                    proof {
                        assert(!second_arrival(agents@, j)) by {
                            if second_arrival(agents@, j) {
                                let i = first_arrival(agents@, j);
                                assert(only_earlier(agents@, i, j));
                                assert(first_seen@.contains_key(agents@[i].location));
                            }
                        }
                        assert(!crowded(upto, here)) by {
                            if crowded(upto, here) {
                                let (a, b) = choose|a: int, b: int|
                                    meet_at(upto, a, b, here);
                                assert(first_seen@.contains_key(agents@[a].location));
                            }
                        }
                    }
                    first_seen.insert(here, n);
                },
            }
        }
        n = n + 1;
    }
    records
}

} // verus!
