//! Caller-side helpers over listed agent definitions: resolving an agent's
//! address and filtering an agent out of a listing.

use vstd::prelude::*;
use vstd::string::StringExecFns;

use crate::models::{AgentDefView, AgentDefinition};

verus! {

/// The address under which an agent is reachable.
pub open spec fn address_of(id: Seq<char>) -> Seq<char> {
    "agent://"@ + id + "/"@
}

/// The listed definitions whose ID differs from `excluded`.
pub open spec fn spec_other_agents(s: Seq<AgentDefinition>, excluded: Seq<char>) -> Seq<
    AgentDefView,
>
    decreases s.len(),
{
    if s.len() == 0 {
        Seq::empty()
    } else {
        spec_other_agents(s.drop_last(), excluded) + if s.last().id@ != excluded {
            seq![s.last()@]
        } else {
            Seq::empty()
        }
    }
}

/// The address of the first listed agent with this ID — present only when
/// that agent claims at least one skill, the listing's proxy for
/// reachability.
pub fn get_agent_address(agents: &Vec<AgentDefinition>, agent_id: &String) -> (r: Option<String>)
    ensures
        match r {
            Some(addr) => exists|i: int|
                0 <= i < agents@.len() && (#[trigger] agents@[i]).id@ == agent_id@ && agents@[
                i].skills@.len() > 0 && (forall|j: int| 0 <= j < i ==> agents@[j].id@ != agent_id@)
                && addr@ == address_of(agent_id@),
            None => forall|i: int|
                0 <= i < agents@.len() && (#[trigger] agents@[i]).id@ == agent_id@ && (forall|
                j: int|
                    0 <= j < i ==> agents@[j].id@ != agent_id@) ==> agents@[i].skills@.len() == 0,
        },
{
    let mut i: usize = 0;
    while i < agents.len()
        invariant
            i <= agents@.len(),
            forall|j: int| 0 <= j < i ==> (#[trigger] agents@[j]).id@ != agent_id@,
        decreases agents@.len() - i,
    {
        if agents[i].id == *agent_id {
            if agents[i].skills.len() > 0 {
                let mut addr = String::new();
                addr.append("agent://");
                addr.append(agent_id.as_str());
                addr.append("/");
                proof {
                    assert(addr@ =~= address_of(agent_id@));
                }
                return Some(addr);
            } else {
                return None;
            }
        }
        i += 1;
    }
    None
}

/// Lists all agents except the one with the given ID — useful to keep an
/// agent from discovering itself.
pub fn list_other_agents(agents: &Vec<AgentDefinition>, excluded: &String) -> (r: Vec<
    AgentDefinition,
>)
    ensures
        r@.map_values(|d: AgentDefinition| d@) == spec_other_agents(agents@, excluded@),
        forall|i: int| 0 <= i < r@.len() ==> (#[trigger] r@[i]).id@ != excluded@,
{
    let mut r: Vec<AgentDefinition> = Vec::new();
    let mut i: usize = 0;
    while i < agents.len()
        invariant
            i <= agents@.len(),
            r@.map_values(|d: AgentDefinition| d@) == spec_other_agents(
                agents@.take(i as int),
                excluded@,
            ),
            forall|j: int| 0 <= j < r@.len() ==> (#[trigger] r@[j]).id@ != excluded@,
        decreases agents@.len() - i,
    {
        let ghost r_old = r@.map_values(|d: AgentDefinition| d@);
        if !(agents[i].id == *excluded) {
            let c = agents[i].clone();
            let ghost cv = c@;
            r.push(c);
            proof {
                assert(r@.map_values(|d: AgentDefinition| d@) =~= r_old.push(cv));
            }
        }
        proof {
            let t = agents@.take(i + 1);
            assert(t.drop_last() =~= agents@.take(i as int));
            assert(t.last() == agents@[i as int]);
            if agents@[i as int].id@ != excluded@ {
                assert(r@.map_values(|d: AgentDefinition| d@) =~= spec_other_agents(t, excluded@));
            } else {
                assert(spec_other_agents(t, excluded@) =~= spec_other_agents(
                    agents@.take(i as int),
                    excluded@,
                ));
            }
        }
        i += 1;
    }
    proof {
        assert(agents@.take(agents@.len() as int) =~= agents@);
    }
    r
}

} // verus!
