//! Which tool serves a call, and what it may see and be granted.

use crate::orchestrator::skill_commands::ApprovalDecision;
use crate::text;
use crate::token_set;
use vstd::prelude::*;

verus! {

/// A tool that is made anew for every agent; all others come from the registry.
#[derive(Clone, Copy, Debug, PartialEq, Eq, Structural)]
pub enum AgentTool {
    MemorySearch,
    MemoryGet,
    MemoryWrite,
    MemoryForget,
    ReadFile,
    WriteFile,
    EditFile,
    ExecuteCommand,
    GrantAccess,
    ListAccess,
    RevokeAccess,
    Registered,
}

pub open spec fn tool_named(name: Seq<char>) -> AgentTool {
    if name == "memory_search"@ {
        AgentTool::MemorySearch
    } else if name == "memory_get"@ {
        AgentTool::MemoryGet
    } else if name == "memory_write"@ {
        AgentTool::MemoryWrite
    } else if name == "memory_forget"@ {
        AgentTool::MemoryForget
    } else if name == "read"@ || name == "read_file"@ {
        AgentTool::ReadFile
    } else if name == "write"@ || name == "write_file"@ {
        AgentTool::WriteFile
    } else if name == "edit"@ || name == "edit_file"@ {
        AgentTool::EditFile
    } else if name == "exec"@ || name == "execute_command"@ {
        AgentTool::ExecuteCommand
    } else if name == "grant_access"@ {
        AgentTool::GrantAccess
    } else if name == "list_access"@ {
        AgentTool::ListAccess
    } else if name == "revoke_access"@ {
        AgentTool::RevokeAccess
    } else {
        AgentTool::Registered
    }
}

/// The tool that serves the calls of a name.
pub fn tool_for_name(name: &str) -> (r: AgentTool)
    ensures
        r == tool_named(name@),
{
    if text::same_text(name, "memory_search") {
        AgentTool::MemorySearch
    } else if text::same_text(name, "memory_get") {
        AgentTool::MemoryGet
    } else if text::same_text(name, "memory_write") {
        AgentTool::MemoryWrite
    } else if text::same_text(name, "memory_forget") {
        AgentTool::MemoryForget
    } else if text::same_text(name, "read") || text::same_text(name, "read_file") {
        AgentTool::ReadFile
    } else if text::same_text(name, "write") || text::same_text(name, "write_file") {
        AgentTool::WriteFile
    } else if text::same_text(name, "edit") || text::same_text(name, "edit_file") {
        AgentTool::EditFile
    } else if text::same_text(name, "exec") || text::same_text(name, "execute_command") {
        AgentTool::ExecuteCommand
    } else if text::same_text(name, "grant_access") {
        AgentTool::GrantAccess
    } else if text::same_text(name, "list_access") {
        AgentTool::ListAccess
    } else if text::same_text(name, "revoke_access") {
        AgentTool::RevokeAccess
    } else {
        AgentTool::Registered
    }
}

// Variables of the environment

/// `list` with those of `more` behind it that it does not hold yet, each once.
pub open spec fn with_missing(list: Seq<Seq<char>>, more: Seq<Seq<char>>) -> Seq<Seq<char>>
    decreases more.len(),
{
    if more.len() == 0 {
        list
    } else {
        let before = with_missing(list, more.drop_last());
        if before.contains(more.last()) {
            before
        } else {
            before.push(more.last())
        }
    }
}

/// Adds the variables that a sandbox does not inherit yet.
pub fn inherit_variables(inherited: &mut Vec<String>, declared: &[String])
    ensures
        text::views(final(inherited)@) == with_missing(
            text::views(old(inherited)@),
            text::views(declared@),
        ),
{
    let ghost start = text::views(inherited@);
    let ghost all = text::views(declared@);
    let n: usize = declared.len();
    assert(all.take(0) =~= Seq::<Seq<char>>::empty());
    for i in 0..n
        invariant
            n == declared@.len(),
            all == text::views(declared@),
            text::views(inherited@) == with_missing(start, all.take(i as int)),
    {
        assert(all.take(i + 1).drop_last() == all.take(i as int));
        assert(all.take(i + 1).last() == declared@[i as int]@);
        match token_set::position_of(inherited.as_slice(), declared[i].as_str()) {
            Some(k) => {
                assert(text::views(inherited@)[k as int] == declared@[i as int]@);
            },
            None => {
                proof {
                    text::views_push(inherited@, declared@[i as int]);
                }
                inherited.push(declared[i].clone());
            },
        }
    }
    assert(all.take(n as int) == all);
}

/// Inheriting keeps what was inherited, in place, and adds every declared
/// variable.
pub proof fn inheriting_keeps_and_adds(list: Seq<Seq<char>>, more: Seq<Seq<char>>)
    ensures
        with_missing(list, more).len() >= list.len(),
        with_missing(list, more).take(list.len() as int) == list,
        forall|k: int|
            0 <= k < more.len() ==> with_missing(list, more).contains(#[trigger] more[k]),
        list.no_duplicates() ==> with_missing(list, more).no_duplicates(),
    decreases more.len(),
{
    if more.len() > 0 {
        let before = with_missing(list, more.drop_last());
        let after = with_missing(list, more);
        inheriting_keeps_and_adds(list, more.drop_last());
        assert forall|k: int| 0 <= k < more.len() implies after.contains(#[trigger] more[k]) by {
            if k < more.len() - 1 {
                assert(before.contains(more.drop_last()[k]));
                let j = choose|j: int| 0 <= j < before.len() && before[j] == more[k];
                assert(after[j] == more[k]);
            } else if !before.contains(more.last()) {
                assert(after[after.len() - 1] == more[k]);
            }
        }
        assert(after.take(list.len() as int) =~= list);
    } else {
        assert(list.take(list.len() as int) =~= list);
    }
}

// Grants of access

pub open spec fn grant_text(path: Option<Seq<char>>, level: Option<Seq<char>>) -> Seq<char> {
    "grant_"@ + (match level {
        Some(l) => l,
        None => "unknown"@,
    }) + " "@ + (match path {
        Some(p) => p,
        None => "unknown"@,
    })
}

pub open spec fn opt_text(s: Option<&str>) -> Option<Seq<char>> {
    match s {
        Some(x) => Some(x@),
        None => None,
    }
}

/// What a person is asked to grant.
pub fn grant_description(path: Option<&str>, level: Option<&str>) -> (r: String)
    ensures
        r@ == grant_text(opt_text(path), opt_text(level)),
{
    let mut out = "grant_".to_owned();
    match level {
        Some(l) => {
            out.append(l);
        },
        None => {
            out.append("unknown");
        },
    }
    out.append(" ");
    match path {
        Some(p) => {
            out.append(p);
        },
        None => {
            out.append("unknown");
        },
    }
    out
}

/// Why a person is asked.
pub fn grant_reason(description: &str) -> (r: String)
    ensures
        r@ == "Agent requests access: "@ + description@,
{
    let mut out = "Agent requests access: ".to_owned();
    out.append(description);
    out
}

/// What becomes of a request for access.
#[derive(Clone, Debug)]
pub enum GrantStep {
    Grant,
    /// It is refused, with this text as the result of the tool.
    Refuse(String),
}

/// Access is granted where nobody can be asked, and where a person allows it;
/// an answer that does not come in time is a refusal.
pub open spec fn grants(can_ask: bool, decision: Option<ApprovalDecision>) -> bool {
    !can_ask || decision == Some(ApprovalDecision::AllowOnce) || decision == Some(
        ApprovalDecision::AlwaysAllow,
    )
}

pub open spec fn refusal_text(decision: Option<ApprovalDecision>, description: Seq<char>) -> Seq<
    char,
> {
    if decision is Some {
        "Access grant denied by user: "@ + description
    } else {
        "Access grant timed out (no response within 60s): "@ + description
    }
}

pub fn settle_grant(can_ask: bool, decision: Option<ApprovalDecision>, description: &str) -> (r:
    GrantStep)
    ensures
        match r {
            GrantStep::Grant => grants(can_ask, decision),
            GrantStep::Refuse(said) => !grants(can_ask, decision) && said@ == refusal_text(
                decision,
                description@,
            ),
        },
{
    if !can_ask {
        return GrantStep::Grant;
    }
    match decision {
        Some(ApprovalDecision::AllowOnce) => GrantStep::Grant,
        Some(ApprovalDecision::AlwaysAllow) => GrantStep::Grant,
        Some(ApprovalDecision::Deny) => {
            let mut out = "Access grant denied by user: ".to_owned();
            out.append(description);
            GrantStep::Refuse(out)
        },
        None => {
            let mut out = "Access grant timed out (no response within 60s): ".to_owned();
            out.append(description);
            GrantStep::Refuse(out)
        },
    }
}

/// Inheriting adds nothing that was not declared.
pub proof fn inheriting_adds_nothing_else(list: Seq<Seq<char>>, more: Seq<Seq<char>>, k: int)
    requires
        0 <= k < with_missing(list, more).len(),
    ensures
        k < list.len() ==> with_missing(list, more)[k] == list[k],
        k >= list.len() ==> more.contains(with_missing(list, more)[k]) && !list.contains(
            with_missing(list, more)[k],
        ),
    decreases more.len(),
{
    if more.len() > 0 {
        let less = more.drop_last();
        let before = with_missing(list, less);
        let all = with_missing(list, more);
        inheriting_keeps_and_adds(list, less);
        if k < before.len() {
            inheriting_adds_nothing_else(list, less, k);
            assert(all[k] == before[k]);
            if k >= list.len() {
                let i = choose|i: int| 0 <= i < less.len() && less[i] == before[k];
                assert(more[i] == all[k]);
            }
        } else {
            assert(more[more.len() - 1] == all[k]);
            if list.contains(all[k]) {
                let i = choose|i: int| 0 <= i < list.len() && list[i] == all[k];
                assert(before.take(list.len() as int)[i] == before[i]);
                assert(before.contains(all[k]));
            }
        }
    }
}

/// Each tool for memories answers to its own name and to no other.
pub proof fn memory_tools_answer_to_their_names(name: Seq<char>)
    ensures
        tool_named(name) == AgentTool::MemorySearch <==> name == "memory_search"@,
        tool_named(name) == AgentTool::MemoryGet <==> name == "memory_get"@,
        tool_named(name) == AgentTool::MemoryWrite <==> name == "memory_write"@,
        tool_named(name) == AgentTool::MemoryForget <==> name == "memory_forget"@,
{
    if name == "memory_get"@ {
        reveal_strlit("memory_get");
        reveal_strlit("memory_search");
        assert(name.len() == 10 && "memory_search"@.len() == 13);
    }
    if name == "memory_write"@ {
        reveal_strlit("memory_write");
        reveal_strlit("memory_search");
        reveal_strlit("memory_get");
        assert(name.len() == 12 && "memory_search"@.len() == 13);
        assert(name.len() == 12 && "memory_get"@.len() == 10);
    }
    if name == "memory_forget"@ {
        reveal_strlit("memory_forget");
        reveal_strlit("memory_search");
        reveal_strlit("memory_get");
        reveal_strlit("memory_write");
        assert(name[7] == 'f' && "memory_search"@[7] == 's');
        assert(name.len() == 13 && "memory_get"@.len() == 10);
        assert(name.len() == 13 && "memory_write"@.len() == 12);
    }
}

/// Each tool for files and commands answers to its two names and to no other.
pub proof fn file_tools_answer_to_their_names(name: Seq<char>)
    ensures
        tool_named(name) == AgentTool::ReadFile <==> name == "read"@ || name == "read_file"@,
        tool_named(name) == AgentTool::WriteFile <==> name == "write"@ || name == "write_file"@,
        tool_named(name) == AgentTool::EditFile <==> name == "edit"@ || name == "edit_file"@,
        tool_named(name) == AgentTool::ExecuteCommand <==> name == "exec"@ || name == "execute_command"@,
{
    if name == "read"@ {
        reveal_strlit("read");
        reveal_strlit("memory_search");
        reveal_strlit("memory_get");
        reveal_strlit("memory_write");
        reveal_strlit("memory_forget");
        assert(name.len() == 4 && "memory_search"@.len() == 13);
        assert(name.len() == 4 && "memory_get"@.len() == 10);
        assert(name.len() == 4 && "memory_write"@.len() == 12);
        assert(name.len() == 4 && "memory_forget"@.len() == 13);
    }
    if name == "read_file"@ {
        reveal_strlit("read_file");
        reveal_strlit("memory_search");
        reveal_strlit("memory_get");
        reveal_strlit("memory_write");
        reveal_strlit("memory_forget");
        assert(name.len() == 9 && "memory_search"@.len() == 13);
        assert(name.len() == 9 && "memory_get"@.len() == 10);
        assert(name.len() == 9 && "memory_write"@.len() == 12);
        assert(name.len() == 9 && "memory_forget"@.len() == 13);
    }
    if name == "write"@ {
        reveal_strlit("write");
        reveal_strlit("memory_search");
        reveal_strlit("memory_get");
        reveal_strlit("memory_write");
        reveal_strlit("memory_forget");
        reveal_strlit("read");
        reveal_strlit("read_file");
        assert(name.len() == 5 && "memory_search"@.len() == 13);
        assert(name.len() == 5 && "memory_get"@.len() == 10);
        assert(name.len() == 5 && "memory_write"@.len() == 12);
        assert(name.len() == 5 && "memory_forget"@.len() == 13);
        assert(name.len() == 5 && "read"@.len() == 4);
        assert(name.len() == 5 && "read_file"@.len() == 9);
    }
    if name == "write_file"@ {
        reveal_strlit("write_file");
        reveal_strlit("memory_search");
        reveal_strlit("memory_get");
        reveal_strlit("memory_write");
        reveal_strlit("memory_forget");
        reveal_strlit("read");
        reveal_strlit("read_file");
        assert(name.len() == 10 && "memory_search"@.len() == 13);
        assert(name[0] == 'w' && "memory_get"@[0] == 'm');
        assert(name.len() == 10 && "memory_write"@.len() == 12);
        assert(name.len() == 10 && "memory_forget"@.len() == 13);
        assert(name.len() == 10 && "read"@.len() == 4);
        assert(name.len() == 10 && "read_file"@.len() == 9);
    }
    if name == "edit"@ {
        reveal_strlit("edit");
        reveal_strlit("memory_search");
        reveal_strlit("memory_get");
        reveal_strlit("memory_write");
        reveal_strlit("memory_forget");
        reveal_strlit("read");
        reveal_strlit("read_file");
        reveal_strlit("write");
        reveal_strlit("write_file");
        assert(name.len() == 4 && "memory_search"@.len() == 13);
        assert(name.len() == 4 && "memory_get"@.len() == 10);
        assert(name.len() == 4 && "memory_write"@.len() == 12);
        assert(name.len() == 4 && "memory_forget"@.len() == 13);
        assert(name[0] == 'e' && "read"@[0] == 'r');
        assert(name.len() == 4 && "read_file"@.len() == 9);
        assert(name.len() == 4 && "write"@.len() == 5);
        assert(name.len() == 4 && "write_file"@.len() == 10);
    }
    if name == "edit_file"@ {
        reveal_strlit("edit_file");
        reveal_strlit("memory_search");
        reveal_strlit("memory_get");
        reveal_strlit("memory_write");
        reveal_strlit("memory_forget");
        reveal_strlit("read");
        reveal_strlit("read_file");
        reveal_strlit("write");
        reveal_strlit("write_file");
        assert(name.len() == 9 && "memory_search"@.len() == 13);
        assert(name.len() == 9 && "memory_get"@.len() == 10);
        assert(name.len() == 9 && "memory_write"@.len() == 12);
        assert(name.len() == 9 && "memory_forget"@.len() == 13);
        assert(name.len() == 9 && "read"@.len() == 4);
        assert(name[0] == 'e' && "read_file"@[0] == 'r');
        assert(name.len() == 9 && "write"@.len() == 5);
        assert(name.len() == 9 && "write_file"@.len() == 10);
    }
    if name == "exec"@ {
        reveal_strlit("exec");
        reveal_strlit("memory_search");
        reveal_strlit("memory_get");
        reveal_strlit("memory_write");
        reveal_strlit("memory_forget");
        reveal_strlit("read");
        reveal_strlit("read_file");
        reveal_strlit("write");
        reveal_strlit("write_file");
        reveal_strlit("edit");
        reveal_strlit("edit_file");
        assert(name.len() == 4 && "memory_search"@.len() == 13);
        assert(name.len() == 4 && "memory_get"@.len() == 10);
        assert(name.len() == 4 && "memory_write"@.len() == 12);
        assert(name.len() == 4 && "memory_forget"@.len() == 13);
        assert(name[0] == 'e' && "read"@[0] == 'r');
        assert(name.len() == 4 && "read_file"@.len() == 9);
        assert(name.len() == 4 && "write"@.len() == 5);
        assert(name.len() == 4 && "write_file"@.len() == 10);
        assert(name[1] == 'x' && "edit"@[1] == 'd');
        assert(name.len() == 4 && "edit_file"@.len() == 9);
    }
    if name == "execute_command"@ {
        reveal_strlit("execute_command");
        reveal_strlit("memory_search");
        reveal_strlit("memory_get");
        reveal_strlit("memory_write");
        reveal_strlit("memory_forget");
        reveal_strlit("read");
        reveal_strlit("read_file");
        reveal_strlit("write");
        reveal_strlit("write_file");
        reveal_strlit("edit");
        reveal_strlit("edit_file");
        assert(name.len() == 15 && "memory_search"@.len() == 13);
        assert(name.len() == 15 && "memory_get"@.len() == 10);
        assert(name.len() == 15 && "memory_write"@.len() == 12);
        assert(name.len() == 15 && "memory_forget"@.len() == 13);
        assert(name.len() == 15 && "read"@.len() == 4);
        assert(name.len() == 15 && "read_file"@.len() == 9);
        assert(name.len() == 15 && "write"@.len() == 5);
        assert(name.len() == 15 && "write_file"@.len() == 10);
        assert(name.len() == 15 && "edit"@.len() == 4);
        assert(name.len() == 15 && "edit_file"@.len() == 9);
    }
}

/// Each tool for access answers to its own name and to no other.
pub proof fn access_tools_answer_to_their_names(name: Seq<char>)
    ensures
        tool_named(name) == AgentTool::GrantAccess <==> name == "grant_access"@,
        tool_named(name) == AgentTool::ListAccess <==> name == "list_access"@,
        tool_named(name) == AgentTool::RevokeAccess <==> name == "revoke_access"@,
{
    if name == "grant_access"@ {
        reveal_strlit("grant_access");
        reveal_strlit("memory_search");
        reveal_strlit("memory_get");
        reveal_strlit("memory_write");
        reveal_strlit("memory_forget");
        reveal_strlit("read");
        reveal_strlit("read_file");
        reveal_strlit("write");
        reveal_strlit("write_file");
        reveal_strlit("edit");
        reveal_strlit("edit_file");
        reveal_strlit("exec");
        reveal_strlit("execute_command");
        assert(name.len() == 12 && "memory_search"@.len() == 13);
        assert(name.len() == 12 && "memory_get"@.len() == 10);
        assert(name[0] == 'g' && "memory_write"@[0] == 'm');
        assert(name.len() == 12 && "memory_forget"@.len() == 13);
        assert(name.len() == 12 && "read"@.len() == 4);
        assert(name.len() == 12 && "read_file"@.len() == 9);
        assert(name.len() == 12 && "write"@.len() == 5);
        assert(name.len() == 12 && "write_file"@.len() == 10);
        assert(name.len() == 12 && "edit"@.len() == 4);
        assert(name.len() == 12 && "edit_file"@.len() == 9);
        assert(name.len() == 12 && "exec"@.len() == 4);
        assert(name.len() == 12 && "execute_command"@.len() == 15);
    }
    if name == "list_access"@ {
        reveal_strlit("list_access");
        reveal_strlit("memory_search");
        reveal_strlit("memory_get");
        reveal_strlit("memory_write");
        reveal_strlit("memory_forget");
        reveal_strlit("read");
        reveal_strlit("read_file");
        reveal_strlit("write");
        reveal_strlit("write_file");
        reveal_strlit("edit");
        reveal_strlit("edit_file");
        reveal_strlit("exec");
        reveal_strlit("execute_command");
        reveal_strlit("grant_access");
        assert(name.len() == 11 && "memory_search"@.len() == 13);
        assert(name.len() == 11 && "memory_get"@.len() == 10);
        assert(name.len() == 11 && "memory_write"@.len() == 12);
        assert(name.len() == 11 && "memory_forget"@.len() == 13);
        assert(name.len() == 11 && "read"@.len() == 4);
        assert(name.len() == 11 && "read_file"@.len() == 9);
        assert(name.len() == 11 && "write"@.len() == 5);
        assert(name.len() == 11 && "write_file"@.len() == 10);
        assert(name.len() == 11 && "edit"@.len() == 4);
        assert(name.len() == 11 && "edit_file"@.len() == 9);
        assert(name.len() == 11 && "exec"@.len() == 4);
        assert(name.len() == 11 && "execute_command"@.len() == 15);
        assert(name.len() == 11 && "grant_access"@.len() == 12);
    }
    if name == "revoke_access"@ {
        reveal_strlit("revoke_access");
        reveal_strlit("memory_search");
        reveal_strlit("memory_get");
        reveal_strlit("memory_write");
        reveal_strlit("memory_forget");
        reveal_strlit("read");
        reveal_strlit("read_file");
        reveal_strlit("write");
        reveal_strlit("write_file");
        reveal_strlit("edit");
        reveal_strlit("edit_file");
        reveal_strlit("exec");
        reveal_strlit("execute_command");
        reveal_strlit("grant_access");
        reveal_strlit("list_access");
        assert(name[0] == 'r' && "memory_search"@[0] == 'm');
        assert(name.len() == 13 && "memory_get"@.len() == 10);
        assert(name.len() == 13 && "memory_write"@.len() == 12);
        assert(name[0] == 'r' && "memory_forget"@[0] == 'm');
        assert(name.len() == 13 && "read"@.len() == 4);
        assert(name.len() == 13 && "read_file"@.len() == 9);
        assert(name.len() == 13 && "write"@.len() == 5);
        assert(name.len() == 13 && "write_file"@.len() == 10);
        assert(name.len() == 13 && "edit"@.len() == 4);
        assert(name.len() == 13 && "edit_file"@.len() == 9);
        assert(name.len() == 13 && "exec"@.len() == 4);
        assert(name.len() == 13 && "execute_command"@.len() == 15);
        assert(name.len() == 13 && "grant_access"@.len() == 12);
        assert(name.len() == 13 && "list_access"@.len() == 11);
    }
}

/// A person who is asked to grant something is told what and where, and so is the
/// agent that is refused.
pub proof fn grants_are_told(
    path: Seq<char>,
    level: Seq<char>,
    decision: Option<ApprovalDecision>,
)
    ensures
        grant_text(Some(path), Some(level)) == "grant_"@ + level + " "@ + path,
        text::ends_with(
            refusal_text(decision, grant_text(Some(path), Some(level))),
            "grant_"@ + level + " "@ + path,
        ),
        refusal_text(decision, path) == refusal_text(None, path) <==> decision is None,
{
    let asked = "grant_"@ + level + " "@ + path;
    assert(grant_text(Some(path), Some(level)) =~= asked);
    let said = refusal_text(decision, asked);
    assert(said.skip(said.len() - asked.len()) =~= asked);
    reveal_strlit("Access grant denied by user: ");
    reveal_strlit("Access grant timed out (no response within 60s): ");
    assert(refusal_text(None, path).len() == 49 + path.len());
    if decision is Some {
        assert(refusal_text(decision, path).len() == 29 + path.len());
    }
}

/// Where someone can be asked, access is granted exactly where they allow it;
/// where nobody can, it is granted.
pub proof fn grants_need_consent(decision: Option<ApprovalDecision>)
    ensures
        grants(false, decision),
        !grants(true, None),
        !grants(true, Some(ApprovalDecision::Deny)),
        decision is Some && decision != Some(ApprovalDecision::Deny) ==> grants(true, decision),
{
    match decision {
        Some(ApprovalDecision::AllowOnce) => {},
        Some(ApprovalDecision::AlwaysAllow) => {},
        Some(ApprovalDecision::Deny) => {},
        None => {},
    }
}

} // verus!
