//! Which agents, personas and tools are registered, and whose workspaces are made.

use crate::seqs;
use crate::text;
use crate::token_set::TokenSet;
use vstd::prelude::*;

verus! {

#[derive(Clone, Debug)]
pub struct AgentEntry {
    pub agent_id: String,
    pub enabled: bool,
}

/// The identifiers of the enabled agents.
pub open spec fn enabled_ids(agents: Seq<AgentEntry>) -> Set<Seq<char>>
    decreases agents.len(),
{
    if agents.len() == 0 {
        Set::empty()
    } else if agents.last().enabled {
        enabled_ids(agents.drop_last()).insert(agents.last().agent_id@)
    } else {
        enabled_ids(agents.drop_last())
    }
}

pub fn enabled_agents(agents: &[AgentEntry]) -> (r: TokenSet)
    ensures
        r@ == enabled_ids(agents@),
{
    let mut out = TokenSet::new();
    let n: usize = agents.len();
    for i in 0..n
        invariant
            n == agents@.len(),
            out@ == enabled_ids(agents@.take(i as int)),
    {
        assert(agents@.take(i + 1).drop_last() == agents@.take(i as int));
        assert(agents@.take(i + 1).last() == agents@[i as int]);
        if agents[i].enabled {
            out = out.with(agents[i].agent_id.clone());
        }
    }
    assert(agents@.take(n as int) == agents@);
    out
}

/// The personas of enabled agents, in order.
pub fn registered_personas(persona_ids: &[String], enabled: &TokenSet) -> (r: Vec<String>)
    ensures
        r@ == persona_ids@.filter(|id: String| enabled@.contains(id@)),
{
    let mut out: Vec<String> = Vec::new();
    let n: usize = persona_ids.len();
    let ghost keep = |id: String| enabled@.contains(id@);
    proof {
        seqs::filter_start(persona_ids@, keep);
    }
    for i in 0..n
        invariant
            n == persona_ids@.len(),
            keep == (|id: String| enabled@.contains(id@)),
            out@ == persona_ids@.take(i as int).filter(keep),
    {
        proof {
            seqs::filter_step(persona_ids@, keep, i as int);
        }
        if enabled.contains(persona_ids[i].as_str()) {
            out.push(persona_ids[i].clone());
        }
    }
    assert(persona_ids@.take(n as int) == persona_ids@);
    out
}

/// The web search is registered where its key is given.
pub fn registers_web_search(api_key: Option<&str>) -> (r: bool)
    ensures
        r == (api_key matches Some(key) && key@.len() > 0),
{
    match api_key {
        Some(key) => !key.is_empty(),
        None => false,
    }
}

/// The agents whose workspaces are made: those without one, each once, in order.
pub open spec fn new_workspaces(existing: Set<Seq<char>>, agent_ids: Seq<Seq<char>>) -> Seq<
    Seq<char>,
>
    decreases agent_ids.len(),
{
    if agent_ids.len() == 0 {
        Seq::empty()
    } else {
        let before = new_workspaces(existing, agent_ids.drop_last());
        if existing.contains(agent_ids.last()) || before.contains(agent_ids.last()) {
            before
        } else {
            before.push(agent_ids.last())
        }
    }
}

pub fn workspaces_to_make(existing: &TokenSet, agent_ids: &[String]) -> (r: Vec<String>)
    ensures
        text::views(r@) == new_workspaces(existing@, text::views(agent_ids@)),
{
    let mut out: Vec<String> = Vec::new();
    let n: usize = agent_ids.len();
    let ghost all = text::views(agent_ids@);
    assert(text::views(out@) =~= new_workspaces(existing@, all.take(0)));
    for i in 0..n
        invariant
            n == agent_ids@.len(),
            all == text::views(agent_ids@),
            text::views(out@) == new_workspaces(existing@, all.take(i as int)),
    {
        assert(all.take(i + 1).drop_last() == all.take(i as int));
        assert(all.take(i + 1).last() == agent_ids@[i as int]@);
        if !existing.contains(agent_ids[i].as_str()) {
            match crate::token_set::position_of(out.as_slice(), agent_ids[i].as_str()) {
                Some(k) => {
                    assert(text::views(out@)[k as int] == agent_ids@[i as int]@);
                },
                None => {
                    proof {
                        text::views_push(out@, agent_ids@[i as int]);
                    }
                    out.push(agent_ids[i].clone());
                },
            }
        }
    }
    assert(all.take(n as int) == all);
    out
}

/// Afterwards every agent has a workspace, and none is made twice or anew.
pub proof fn every_agent_gets_a_workspace(existing: Set<Seq<char>>, agent_ids: Seq<Seq<char>>)
    ensures
        forall|k: int|
            0 <= k < agent_ids.len() ==> existing.contains(#[trigger] agent_ids[k])
                || new_workspaces(existing, agent_ids).contains(agent_ids[k]),
        new_workspaces(existing, agent_ids).no_duplicates(),
        forall|k: int|
            0 <= k < new_workspaces(existing, agent_ids).len() ==> !existing.contains(
                #[trigger] new_workspaces(existing, agent_ids)[k],
            ),
    decreases agent_ids.len(),
{
    if agent_ids.len() > 0 {
        let less = agent_ids.drop_last();
        let before = new_workspaces(existing, less);
        let after = new_workspaces(existing, agent_ids);
        every_agent_gets_a_workspace(existing, less);
        assert forall|k: int| 0 <= k < agent_ids.len() implies existing.contains(
            #[trigger] agent_ids[k],
        ) || after.contains(agent_ids[k]) by {
            if k < less.len() {
                assert(less[k] == agent_ids[k]);
                if !existing.contains(less[k]) {
                    let j = choose|j: int| 0 <= j < before.len() && before[j] == less[k];
                    assert(after[j] == agent_ids[k]);
                }
            } else if !existing.contains(agent_ids.last()) && !before.contains(agent_ids.last()) {
                assert(after[after.len() - 1] == agent_ids[k]);
            }
        }
        assert forall|k: int| 0 <= k < after.len() implies !existing.contains(
            #[trigger] after[k],
        ) by {
            if k < before.len() {
                assert(after[k] == before[k]);
            }
        }
    }
}

/// An agent is enabled exactly where an entry says so.
pub proof fn enabled_agents_are_those_that_say_so(agents: Seq<AgentEntry>, id: Seq<char>)
    ensures
        enabled_ids(agents).contains(id) <==> exists|i: int|
            0 <= i < agents.len() && (#[trigger] agents[i]).enabled && agents[i].agent_id@ == id,
    decreases agents.len(),
{
    if agents.len() > 0 {
        let less = agents.drop_last();
        enabled_agents_are_those_that_say_so(less, id);
        if enabled_ids(less).contains(id) {
            let i = choose|i: int|
                0 <= i < less.len() && (#[trigger] less[i]).enabled && less[i].agent_id@ == id;
            assert(agents[i] == less[i]);
        }
        if exists|i: int|
            0 <= i < agents.len() && (#[trigger] agents[i]).enabled && agents[i].agent_id@ == id {
            let i = choose|i: int|
                0 <= i < agents.len() && (#[trigger] agents[i]).enabled && agents[i].agent_id@
                    == id;
            if i < less.len() {
                assert(less[i] == agents[i]);
            }
        }
        if agents.last().enabled && agents.last().agent_id@ == id {
            assert(agents[agents.len() - 1].enabled);
        }
    }
}

/// Workspaces are made for agents alone, in the order of the agents.
pub proof fn workspaces_are_made_for_agents(
    existing: Set<Seq<char>>,
    agent_ids: Seq<Seq<char>>,
    more: Seq<char>,
)
    ensures
        forall|k: int|
            0 <= k < new_workspaces(existing, agent_ids).len() ==> agent_ids.contains(
                #[trigger] new_workspaces(existing, agent_ids)[k],
            ),
        new_workspaces(existing, agent_ids.push(more)).take(
            new_workspaces(existing, agent_ids).len() as int,
        ) == new_workspaces(existing, agent_ids),
    decreases agent_ids.len(),
{
    assert(agent_ids.push(more).drop_last() =~= agent_ids);
    let made = new_workspaces(existing, agent_ids);
    assert(made.take(made.len() as int) =~= made);
    assert(made.push(more).take(made.len() as int) =~= made);
    if agent_ids.len() > 0 {
        let less = agent_ids.drop_last();
        workspaces_are_made_for_agents(existing, less, more);
        let before = new_workspaces(existing, less);
        assert forall|k: int| 0 <= k < made.len() implies agent_ids.contains(
            #[trigger] made[k],
        ) by {
            if k < before.len() {
                assert(made[k] == before[k]);
                let i = choose|i: int| 0 <= i < less.len() && less[i] == before[k];
                assert(agent_ids[i] == made[k]);
            } else {
                assert(agent_ids[agent_ids.len() - 1] == made[k]);
            }
        }
    }
}

} // verus!
