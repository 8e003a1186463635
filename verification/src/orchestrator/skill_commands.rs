//! Skills that a request forces, their permissions, and their installation.

use crate::text;
use crate::text::Separator;
use crate::token_set;
use vstd::prelude::*;

verus! {

pub const SKILL_INSTALL_USAGE_HINT: &'static str =
    "请提供 skill 来源路径或 URL。用法: /skill install <source>";

// Forced skills

/// The names that a request gives behind `/skill `, separated by commas.
pub open spec fn forced_names(input: Seq<char>) -> Option<Seq<Seq<char>>> {
    let t = text::trim(input);
    let words = text::words(t.skip("/skill "@.len() as int));
    if !text::starts_with(t, "/skill "@) || words.len() == 0 {
        None
    } else {
        let names = text::nonempty(text::split(words[0], Separator::Char(',')));
        if names.len() == 0 {
            None
        } else {
            Some(names)
        }
    }
}

pub open spec fn opt_views(r: Option<Vec<String>>) -> Option<Seq<Seq<char>>> {
    match r {
        Some(v) => Some(text::views(v@)),
        None => None,
    }
}

pub fn forced_skill_names(input: &str) -> (r: Option<Vec<String>>)
    ensures
        opt_views(r) == forced_names(input@),
{
    let trimmed = text::trimmed(input);
    let chars = text::chars_of(trimmed.as_str());
    let prefix = text::chars_of("/skill ");
    if !text::starts_with_chars(chars.as_slice(), prefix.as_slice()) {
        return None;
    }
    let rest = vstd::slice::slice_subrange(chars.as_slice(), prefix.len(), chars.len());
    assert(rest@ == text::trim(input@).skip("/skill "@.len() as int));
    let words = text::words_of(text::string_of(rest).as_str());
    if words.len() == 0 {
        assert(text::views(words@).len() == 0);
        return None;
    }
    assert(text::views(words@)[0] == words@[0]@);
    let pieces = text::split_chars(
        text::chars_of(words[0].as_str()).as_slice(),
        Separator::Char(','),
    );
    let names = text::keep_nonempty(&pieces);
    if names.len() == 0 {
        assert(text::views(names@).len() == 0);
        None
    } else {
        assert(text::views(names@).len() > 0);
        Some(names)
    }
}

/// A request forces skills only where it begins with the command for that, and
/// every name that it forces says something.
pub proof fn forced_names_are_given(input: Seq<char>)
    ensures
        forced_names(input) matches Some(names) ==> {
            &&& text::starts_with(text::trim(input), "/skill "@)
            &&& names.len() > 0
            &&& forall|i: int| 0 <= i < names.len() ==> (#[trigger] names[i]).len() > 0
        },
{
    if forced_names(input) is Some {
        let t = text::trim(input);
        let pieces = text::split(
            text::words(t.skip("/skill "@.len() as int))[0],
            Separator::Char(','),
        );
        let keep = |p: Seq<char>| p.len() > 0;
        let names = text::nonempty(pieces);
        assert forall|i: int| 0 <= i < names.len() implies (#[trigger] names[i]).len() > 0 by {
            crate::seqs::filter_sound(pieces, keep, i);
        }
    }
}

// Permissions

/// What a skill may do.
#[derive(Clone, Debug)]
pub struct Permissions {
    pub fs_read: Vec<String>,
    pub fs_write: Vec<String>,
    pub network_allow: Vec<String>,
    pub commands: Vec<String>,
    pub env: Vec<String>,
    pub services: Vec<String>,
}

/// A list of what is permitted.
#[derive(Clone, Copy, Debug, PartialEq, Eq, Structural)]
pub enum Permitted {
    Read,
    Write,
    Network,
    Exec,
    Env,
}

impl Permissions {
    pub open spec fn list(self, of: Permitted) -> Seq<Seq<char>> {
        match of {
            Permitted::Read => text::views(self.fs_read@),
            Permitted::Write => text::views(self.fs_write@),
            Permitted::Network => text::views(self.network_allow@),
            Permitted::Exec => text::views(self.commands@),
            Permitted::Env => text::views(self.env@),
        }
    }

    fn list_of(&self, of: Permitted) -> (r: &Vec<String>)
        ensures
            text::views(r@) == self.list(of),
    {
        match of {
            Permitted::Read => &self.fs_read,
            Permitted::Write => &self.fs_write,
            Permitted::Network => &self.network_allow,
            Permitted::Exec => &self.commands,
            Permitted::Env => &self.env,
        }
    }

    pub fn copy(&self) -> (r: Self)
        ensures
            forall|of: Permitted| r.list(of) == #[trigger] self.list(of),
            text::views(r.services@) == text::views(self.services@),
    {
        Permissions {
            fs_read: text::copy_list(self.fs_read.as_slice()),
            fs_write: text::copy_list(self.fs_write.as_slice()),
            network_allow: text::copy_list(self.network_allow.as_slice()),
            commands: text::copy_list(self.commands.as_slice()),
            env: text::copy_list(self.env.as_slice()),
            services: text::copy_list(self.services.as_slice()),
        }
    }
}

/// What some of the permissions grant.
pub open spec fn granted(perms: Seq<Permissions>, of: Permitted) -> Set<Seq<char>>
    decreases perms.len(),
{
    if perms.len() == 0 {
        Set::empty()
    } else {
        granted(perms.drop_last(), of).union(perms.last().list(of).to_set())
    }
}

/// The services of all the permissions, one list behind the other.
pub open spec fn all_services(perms: Seq<Permissions>) -> Seq<Seq<char>>
    decreases perms.len(),
{
    if perms.len() == 0 {
        Seq::empty()
    } else {
        all_services(perms.drop_last()) + text::views(perms.last().services@)
    }
}

/// `merged` grants what any of `perms` grants, each thing once and in order.
pub open spec fn merges(merged: Permissions, perms: Seq<Permissions>) -> bool {
    &&& forall|of: Permitted| #[trigger]
        merged.list(of) == token_set::in_order(granted(perms, of))
    &&& text::views(merged.services@) == all_services(perms)
}

fn insert_all(items: &mut Vec<String>, more: &Vec<String>)
    requires
        token_set::strictly_sorted(text::views(old(items)@)),
    ensures
        token_set::strictly_sorted(text::views(final(items)@)),
        text::views(final(items)@).to_set() == text::views(old(items)@).to_set().union(
            text::views(more@).to_set(),
        ),
{
    let ghost start = text::views(items@).to_set();
    let ghost all = text::views(more@);
    let n: usize = more.len();
    assert(start.union(all.take(0).to_set()) =~= start);
    for i in 0..n
        invariant
            n == more@.len(),
            all == text::views(more@),
            token_set::strictly_sorted(text::views(items@)),
            text::views(items@).to_set() == start.union(all.take(i as int).to_set()),
    {
        let item = more[i].clone();
        token_set::insert_sorted(items, item);
        assert(all.take(i + 1) == all.take(i as int).push(all[i as int]));
        proof {
            all.take(i as int).lemma_push_to_set_commute(all[i as int]);
        }
        assert(text::views(items@).to_set() =~= start.union(all.take(i + 1).to_set()));
    }
    assert(all.take(n as int) == all);
}

fn merge_list(perms: &[Permissions], of: Permitted) -> (r: Vec<String>)
    ensures
        text::views(r@) == token_set::in_order(granted(perms@, of)),
{
    let mut out: Vec<String> = Vec::new();
    let n: usize = perms.len();
    assert(text::views(out@).to_set() =~= Set::<Seq<char>>::empty());
    for i in 0..n
        invariant
            n == perms@.len(),
            token_set::strictly_sorted(text::views(out@)),
            text::views(out@).to_set() == granted(perms@.take(i as int), of),
    {
        assert(perms@.take(i + 1).drop_last() == perms@.take(i as int));
        assert(perms@.take(i + 1).last() == perms@[i as int]);
        insert_all(&mut out, perms[i].list_of(of));
    }
    assert(perms@.take(n as int) == perms@);
    proof {
        token_set::sorted_is_in_order(text::views(out@));
    }
    out
}

fn append_services(perms: &[Permissions]) -> (r: Vec<String>)
    ensures
        text::views(r@) == all_services(perms@),
{
    let mut out: Vec<String> = Vec::new();
    let n: usize = perms.len();
    assert(text::views(out@) =~= all_services(perms@.take(0)));
    for i in 0..n
        invariant
            n == perms@.len(),
            text::views(out@) == all_services(perms@.take(i as int)),
    {
        assert(perms@.take(i + 1).drop_last() == perms@.take(i as int));
        let ghost before = out@;
        let mut more = text::copy_list(perms[i].services.as_slice());
        let ghost added = more@;
        out.append(&mut more);
        assert(text::views(before + added) =~= text::views(before) + text::views(added));
    }
    assert(perms@.take(n as int) == perms@);
    out
}

pub fn merge_permissions(perms: &[Permissions]) -> (r: Option<Permissions>)
    ensures
        r is None == (perms@.len() == 0),
        r matches Some(merged) ==> merges(merged, perms@),
{
    if perms.len() == 0 {
        return None;
    }
    let merged = Permissions {
        fs_read: merge_list(perms, Permitted::Read),
        fs_write: merge_list(perms, Permitted::Write),
        network_allow: merge_list(perms, Permitted::Network),
        commands: merge_list(perms, Permitted::Exec),
        env: merge_list(perms, Permitted::Env),
        services: append_services(perms),
    };
    assert forall|of: Permitted| #[trigger]
        merged.list(of) == token_set::in_order(granted(perms@, of)) by {
        match of {
            Permitted::Read => {},
            Permitted::Write => {},
            Permitted::Network => {},
            Permitted::Exec => {},
            Permitted::Env => {},
        }
    }
    Some(merged)
}

/// Merging grants nothing that no skill grants, and loses nothing that one grants.
pub proof fn merging_grants_what_is_granted(perms: Seq<Permissions>, of: Permitted, what: Seq<char>)
    ensures
        granted(perms, of).contains(what) <==> exists|i: int|
            0 <= i < perms.len() && (#[trigger] perms[i]).list(of).contains(what),
    decreases perms.len(),
{
    if perms.len() > 0 {
        let less = perms.drop_last();
        merging_grants_what_is_granted(less, of, what);
        if granted(perms, of).contains(what) {
            if granted(less, of).contains(what) {
                let i = choose|i: int|
                    0 <= i < less.len() && (#[trigger] less[i]).list(of).contains(what);
                assert(perms[i].list(of).contains(what));
            } else {
                assert(perms[perms.len() - 1].list(of).contains(what));
            }
        }
        if exists|i: int| 0 <= i < perms.len() && (#[trigger] perms[i]).list(of).contains(what) {
            let i = choose|i: int|
                0 <= i < perms.len() && (#[trigger] perms[i]).list(of).contains(what);
            if i < less.len() {
                assert(less[i].list(of).contains(what));
            }
        }
    }
}

// Skills

#[derive(Clone, Debug)]
pub struct SkillEntry {
    pub name: String,
    pub permissions: Option<Permissions>,
}

/// The position of the first skill of a name.
pub open spec fn skill_at(skills: Seq<SkillEntry>, name: Seq<char>) -> Option<int>
    decreases skills.len(),
{
    if skills.len() == 0 {
        None
    } else {
        match skill_at(skills.drop_last(), name) {
            Some(i) => Some(i),
            None => if skills.last().name@ == name {
                Some(skills.len() - 1)
            } else {
                None
            },
        }
    }
}

proof fn skill_at_stays(skills: Seq<SkillEntry>, name: Seq<char>, k: int)
    requires
        0 <= k <= skills.len(),
        skill_at(skills.take(k), name) is Some,
    ensures
        skill_at(skills, name) == skill_at(skills.take(k), name),
    decreases skills.len(),
{
    if k < skills.len() {
        assert(skills.drop_last().take(k) == skills.take(k));
        skill_at_stays(skills.drop_last(), name, k);
    } else {
        assert(skills.take(k) == skills);
    }
}

fn find_skill(skills: &[SkillEntry], name: &str) -> (r: Option<usize>)
    ensures
        match r {
            Some(i) => i < skills@.len() && skill_at(skills@, name@) == Some(i as int),
            None => skill_at(skills@, name@) is None,
        },
{
    let n: usize = skills.len();
    for i in 0..n
        invariant
            n == skills@.len(),
            skill_at(skills@.take(i as int), name@) is None,
    {
        assert(skills@.take(i + 1).drop_last() == skills@.take(i as int));
        if text::same_text(skills[i].name.as_str(), name) {
            proof {
                skill_at_stays(skills@, name@, i + 1);
            }
            return Some(i);
        }
    }
    assert(skills@.take(n as int) == skills@);
    None
}

/// The permissions of the skill of a name, where there is one that has any.
pub open spec fn skill_permissions(skills: Seq<SkillEntry>, name: Seq<char>) -> Option<Permissions> {
    match skill_at(skills, name) {
        Some(i) => skills[i].permissions,
        None => None,
    }
}

/// The lists are the same permissions.
pub open spec fn same_permissions(a: Seq<Permissions>, b: Seq<Permissions>) -> bool {
    &&& a.len() == b.len()
    &&& forall|i: int| #![trigger a[i]] #![trigger b[i]]
        0 <= i < a.len() ==> {
            &&& forall|of: Permitted| a[i].list(of) == #[trigger] b[i].list(of)
            &&& text::views(a[i].services@) == text::views(b[i].services@)
        }
}

proof fn same_permissions_grant_the_same(a: Seq<Permissions>, b: Seq<Permissions>, of: Permitted)
    requires
        same_permissions(a, b),
    ensures
        granted(a, of) == granted(b, of),
        all_services(a) == all_services(b),
    decreases a.len(),
{
    if a.len() > 0 {
        let x = a.drop_last();
        let y = b.drop_last();
        assert(same_permissions(x, y)) by {
            assert forall|i: int| #![trigger x[i]] #![trigger y[i]] 0 <= i < x.len() implies {
                &&& forall|of: Permitted| x[i].list(of) == #[trigger] y[i].list(of)
                &&& text::views(x[i].services@) == text::views(y[i].services@)
            } by {
                assert(x[i] == a[i] && y[i] == b[i]);
            }
        }
        same_permissions_grant_the_same(x, y, of);
        assert(a[a.len() - 1].list(of) == b[b.len() - 1].list(of));
    }
}

/// The permissions of the named skills, in the order of the names.
pub open spec fn chosen_permissions(skills: Seq<SkillEntry>, names: Seq<Seq<char>>) -> Seq<
    Permissions,
>
    decreases names.len(),
{
    if names.len() == 0 {
        Seq::empty()
    } else {
        let before = chosen_permissions(skills, names.drop_last());
        match skill_permissions(skills, names.last()) {
            Some(p) => before.push(p),
            None => before,
        }
    }
}

/// The permissions of all skills that have any.
pub open spec fn every_permission(skills: Seq<SkillEntry>) -> Seq<Permissions>
    decreases skills.len(),
{
    if skills.len() == 0 {
        Seq::empty()
    } else {
        let before = every_permission(skills.drop_last());
        match skills.last().permissions {
            Some(p) => before.push(p),
            None => before,
        }
    }
}

proof fn same_permissions_push(
    a: Seq<Permissions>,
    b: Seq<Permissions>,
    p: Permissions,
    q: Permissions,
)
    requires
        same_permissions(a, b),
        forall|of: Permitted| p.list(of) == #[trigger] q.list(of),
        text::views(p.services@) == text::views(q.services@),
    ensures
        same_permissions(a.push(p), b.push(q)),
{
    let x = a.push(p);
    let y = b.push(q);
    assert forall|i: int| #![trigger x[i]] #![trigger y[i]] 0 <= i < x.len() implies {
        &&& forall|of: Permitted| x[i].list(of) == #[trigger] y[i].list(of)
        &&& text::views(x[i].services@) == text::views(y[i].services@)
    } by {
        if i < a.len() {
            assert(x[i] == a[i] && y[i] == b[i]);
        }
    }
}

fn choose_permissions(skills: &[SkillEntry], names: &[String]) -> (r: Vec<Permissions>)
    ensures
        same_permissions(r@, chosen_permissions(skills@, text::views(names@))),
{
    let mut out: Vec<Permissions> = Vec::new();
    let n: usize = names.len();
    let ghost all = text::views(names@);
    for i in 0..n
        invariant
            n == names@.len(),
            all == text::views(names@),
            same_permissions(out@, chosen_permissions(skills@, all.take(i as int))),
    {
        assert(all.take(i + 1).drop_last() == all.take(i as int));
        assert(all.take(i + 1).last() == names@[i as int]@);
        match find_skill(skills, names[i].as_str()) {
            None => {},
            Some(at) => match &skills[at].permissions {
                None => {},
                Some(p) => {
                    let q = p.copy();
                    proof {
                        same_permissions_push(
                            out@,
                            chosen_permissions(skills@, all.take(i as int)),
                            q,
                            *p,
                        );
                    }
                    out.push(q);
                },
            },
        }
    }
    assert(all.take(n as int) == all);
    out
}

fn collect_permissions(skills: &[SkillEntry]) -> (r: Vec<Permissions>)
    ensures
        same_permissions(r@, every_permission(skills@)),
{
    let mut out: Vec<Permissions> = Vec::new();
    let n: usize = skills.len();
    for i in 0..n
        invariant
            n == skills@.len(),
            same_permissions(out@, every_permission(skills@.take(i as int))),
    {
        assert(skills@.take(i + 1).drop_last() == skills@.take(i as int));
        match &skills[i].permissions {
            None => {},
            Some(p) => {
                let q = p.copy();
                proof {
                    same_permissions_push(
                        out@,
                        every_permission(skills@.take(i as int)),
                        q,
                        *p,
                    );
                }
                out.push(q);
            },
        }
    }
    assert(skills@.take(n as int) == skills@);
    out
}

/// The permissions that count: of the forced skills, or of all where none is forced.
pub open spec fn counted_permissions(
    skills: Seq<SkillEntry>,
    forced: Option<Seq<Seq<char>>>,
) -> Seq<Permissions> {
    match forced {
        Some(names) => chosen_permissions(skills, names),
        None => every_permission(skills),
    }
}

pub fn compute_merged_permissions(skills: &[SkillEntry], forced_skills: Option<&[String]>) -> (r:
    Option<Permissions>)
    ensures
        r is None == (counted_permissions(
            skills@,
            crate::orchestrator::tool_loop::list_views(forced_skills),
        ).len() == 0),
        r matches Some(merged) ==> merges(
            merged,
            counted_permissions(
                skills@,
                crate::orchestrator::tool_loop::list_views(forced_skills),
            ),
        ),
{
    let list = match forced_skills {
        Some(names) => choose_permissions(skills, names),
        None => collect_permissions(skills),
    };
    let ghost said = counted_permissions(
        skills@,
        crate::orchestrator::tool_loop::list_views(forced_skills),
    );
    let merged = merge_permissions(list.as_slice());
    proof {
        assert forall|of: Permitted| granted(list@, of) == #[trigger] granted(said, of) by {
            same_permissions_grant_the_same(list@, said, of);
        }
        same_permissions_grant_the_same(list@, said, Permitted::Read);
    }
    merged
}

/// The permissions under which a request runs: those of the skills that it
/// forces; a request that forces none runs without any.
pub fn request_permissions(skills: &[SkillEntry], forced_skills: Option<&[String]>) -> (r: Option<
    Permissions,
>)
    ensures
        forced_skills is None ==> r is None,
        forced_skills matches Some(names) ==> {
            &&& r is None == (chosen_permissions(skills@, text::views(names@)).len() == 0)
            &&& r matches Some(merged) ==> merges(
                merged,
                chosen_permissions(skills@, text::views(names@)),
            )
        },
{
    match forced_skills {
        None => None,
        Some(names) => compute_merged_permissions(skills, Some(names)),
    }
}

/// The forced names of which there is no skill, in order.
pub open spec fn unknown_names(skills: Seq<SkillEntry>, names: Seq<Seq<char>>) -> Seq<Seq<char>> {
    names.filter(|name: Seq<char>| skill_at(skills, name) is None)
}

pub fn missing_skills(skills: &[SkillEntry], names: &[String]) -> (r: Vec<String>)
    ensures
        text::views(r@) == unknown_names(skills@, text::views(names@)),
{
    let mut out: Vec<String> = Vec::new();
    let n: usize = names.len();
    let ghost all = text::views(names@);
    let ghost keep = |name: Seq<char>| skill_at(skills@, name) is None;
    proof {
        crate::seqs::filter_start(all, keep);
    }
    assert(text::views(out@) =~= all.take(0).filter(keep));
    for i in 0..n
        invariant
            n == names@.len(),
            all == text::views(names@),
            keep == (|name: Seq<char>| skill_at(skills@, name) is None),
            text::views(out@) == all.take(i as int).filter(keep),
    {
        proof {
            crate::seqs::filter_step(all, keep, i as int);
        }
        assert(all[i as int] == names@[i as int]@);
        if find_skill(skills, names[i].as_str()).is_none() {
            proof {
                text::views_push(out@, names@[i as int]);
            }
            out.push(names[i].clone());
        }
    }
    assert(all.take(n as int) == all);
    out
}

/// What a prompt says of forced skills.
pub open spec fn forced_section(names: Seq<Seq<char>>, missing: Seq<Seq<char>>) -> Seq<char> {
    (if names.len() == 1 {
        "\n\n## Forced Skill\nYou must follow skill '"@ + names[0]
            + "' for this request and prioritize its instructions over generic approaches."@
    } else {
        "\n\n## Forced Skill\nYou must follow only these skills for this request: "@
            + text::joined(names, ", "@)
            + ". Prioritize their instructions over generic approaches."@
    }) + (if missing.len() == 0 {
        Seq::empty()
    } else {
        "\nMissing forced skills: "@ + text::joined(missing, ", "@)
            + ". Tell the user these were not found."@
    })
}

pub fn forced_skill_section(names: &[String], missing: &[String]) -> (r: String)
    ensures
        r@ == forced_section(text::views(names@), text::views(missing@)),
{
    let mut out = if names.len() == 1 {
        let mut s = "\n\n## Forced Skill\nYou must follow skill '".to_owned();
        s.append(names[0].as_str());
        s.append("' for this request and prioritize its instructions over generic approaches.");
        assert(text::views(names@)[0] == names@[0]@);
        s
    } else {
        let mut s =
            "\n\n## Forced Skill\nYou must follow only these skills for this request: ".to_owned();
        s.append(text::join(names, ", ").as_str());
        s.append(". Prioritize their instructions over generic approaches.");
        s
    };
    let ghost first = out@;
    assert(text::views(names@).len() == names@.len());
    if missing.len() > 0 {
        out.append("\nMissing forced skills: ");
        out.append(text::join(missing, ", ").as_str());
        out.append(". Tell the user these were not found.");
        assert(out@ =~= first + ("\nMissing forced skills: "@ + text::joined(
            text::views(missing@),
            ", "@,
        ) + ". Tell the user these were not found."@));
    } else {
        assert(out@ =~= first + Seq::<char>::empty());
    }
    out
}

// Tools of a request

/// The tools that a request may use, where that is limited: under forced skills
/// only the execution of commands, so that their permissions take effect, and
/// only where the agent has it.
pub open spec fn allowed_tools(
    forces_skills: bool,
    agent_allowed: Option<Seq<Seq<char>>>,
) -> Option<Seq<Seq<char>>> {
    if !forces_skills {
        agent_allowed
    } else {
        match agent_allowed {
            None => Some(seq!["execute_command"@]),
            Some(list) => if list.contains("execute_command"@) {
                Some(seq!["execute_command"@])
            } else {
                Some(Seq::empty())
            },
        }
    }
}

pub fn forced_allowed_tools(
    forced_skills: Option<&[String]>,
    agent_allowed: Option<Vec<String>>,
) -> (r: Option<Vec<String>>)
    ensures
        opt_views(r) == allowed_tools(forced_skills is Some, opt_views(agent_allowed)),
{
    if forced_skills.is_none() {
        return agent_allowed;
    }
    let mut base: Vec<String> = Vec::new();
    match agent_allowed {
        None => {
            base.push("execute_command".to_owned());
            assert(text::views(base@) =~= seq!["execute_command"@]);
        },
        Some(list) => {
            match token_set::position_of(list.as_slice(), "execute_command") {
                None => {
                    assert(text::views(base@) =~= Seq::<Seq<char>>::empty());
                },
                Some(i) => {
                    assert(text::views(list@)[i as int] == "execute_command"@);
                    base.push("execute_command".to_owned());
                    assert(text::views(base@) =~= seq!["execute_command"@]);
                },
            }
        },
    }
    Some(base)
}

/// Forcing a skill never gives a tool that the agent does not have.
pub proof fn forcing_gives_no_new_tool(agent_allowed: Seq<Seq<char>>, tool: Seq<char>)
    ensures
        allowed_tools(true, Some(agent_allowed)) is Some,
        (allowed_tools(true, Some(agent_allowed))->0).contains(tool) ==> agent_allowed.contains(
            tool,
        ),
{
}

// Hints

pub open spec fn usage_hint(subcommand: Seq<char>) -> Seq<char> {
    if subcommand == "analyze"@ {
        "Usage: /skill analyze <url-or-path>\nExample: /skill analyze https://example.com/my-skill.zip"@
    } else if subcommand == "install"@ {
        "Usage: /skill install <url-or-path>\nExample: /skill install https://example.com/my-skill.zip"@
    } else if subcommand == "confirm"@ {
        "Usage: /skill confirm <token>\nThe token is provided after running /skill analyze or /skill install."@
    } else if subcommand == "remove"@ {
        "Usage: /skill remove <skill-name>\nExample: /skill remove web-search"@
    } else {
        "Usage:\n  /skill analyze <source> — Analyze a skill before installing\n  /skill install <source> — Install a skill\n  /skill confirm <token> — Confirm a pending installation\n  /skill remove <name> — Remove an installed skill"@
    }
}

pub fn skill_usage_hint(subcommand: &str) -> (r: &'static str)
    ensures
        r@ == usage_hint(subcommand@),
{
    if text::same_text(subcommand, "analyze") {
        "Usage: /skill analyze <url-or-path>\nExample: /skill analyze https://example.com/my-skill.zip"
    } else if text::same_text(subcommand, "install") {
        "Usage: /skill install <url-or-path>\nExample: /skill install https://example.com/my-skill.zip"
    } else if text::same_text(subcommand, "confirm") {
        "Usage: /skill confirm <token>\nThe token is provided after running /skill analyze or /skill install."
    } else if text::same_text(subcommand, "remove") {
        "Usage: /skill remove <skill-name>\nExample: /skill remove web-search"
    } else {
        "Usage:\n  /skill analyze <source> — Analyze a skill before installing\n  /skill install <source> — Install a skill\n  /skill confirm <token> — Confirm a pending installation\n  /skill remove <name> — Remove an installed skill"
    }
}

// Analysis

/// The reply to a request to analyse or install a skill.
pub fn skill_analysis_reply(install_requested: bool, analysis: &str, token: &str) -> (r: String)
    ensures
        r@ == (if install_requested {
            "Install request analyzed."@
        } else {
            "Analyze complete."@
        }) + "\n\n"@ + analysis@ + "\n\nTo continue, run: /skill confirm "@ + token@,
{
    let mut out = if install_requested {
        "Install request analyzed.".to_owned()
    } else {
        "Analyze complete.".to_owned()
    };
    out.append("\n\n");
    out.append(analysis);
    out.append("\n\nTo continue, run: /skill confirm ");
    out.append(token);
    out
}

// Confirmation

/// An analysed skill that waits for its confirmation.
#[derive(Clone, Debug)]
pub struct PendingInstall {
    pub user_scope: String,
    pub conversation_scope: String,
    pub skill_name: String,
    pub high_risk: bool,
}

#[derive(Clone, Copy, Debug, PartialEq, Eq, Structural)]
pub enum ApprovalDecision {
    AllowOnce,
    AlwaysAllow,
    Deny,
}

/// Why a skill is not installed.
#[derive(Clone, Copy, Debug, PartialEq, Eq, Structural)]
pub enum InstallRefusal {
    NotAuthorized,
    InvalidToken,
    ForeignToken,
    NoApprovalChannel,
    Denied,
}

impl InstallRefusal {
    pub open spec fn message(self) -> Seq<char> {
        match self {
            InstallRefusal::NotAuthorized => "You are not authorized to install skills in this environment."@,
            InstallRefusal::InvalidToken => "Invalid or expired skill install confirmation token."@,
            InstallRefusal::ForeignToken => "This token belongs to a different user or conversation."@,
            InstallRefusal::NoApprovalChannel => "High-risk skill install requires approval but no approval UI is available."@,
            InstallRefusal::Denied => "Skill install denied by user."@,
        }
    }

    pub fn text(self) -> (r: &'static str)
        ensures
            r@ == self.message(),
    {
        match self {
            InstallRefusal::NotAuthorized => "You are not authorized to install skills in this environment.",
            InstallRefusal::InvalidToken => "Invalid or expired skill install confirmation token.",
            InstallRefusal::ForeignToken => "This token belongs to a different user or conversation.",
            InstallRefusal::NoApprovalChannel => "High-risk skill install requires approval but no approval UI is available.",
            InstallRefusal::Denied => "Skill install denied by user.",
        }
    }
}

/// What has come to light on the way to an installation.
#[derive(Clone, Debug)]
pub enum ConfirmEvent {
    /// A user asks for it; whether their scope may install is known.
    Asked { scope_allowed: bool },
    /// The token was looked up.
    TokenTaken { pending: Option<PendingInstall> },
    /// A person has decided, or could not be asked.
    Decided { decision: Option<ApprovalDecision> },
}

/// What is done next.
#[derive(Clone, Copy, Debug, PartialEq, Eq, Structural)]
pub enum ConfirmAction {
    TakeToken,
    AskApproval,
    Install,
    Refuse(InstallRefusal),
}

pub open spec fn confirm_action(
    event: ConfirmEvent,
    user_scope: Seq<char>,
    conversation_scope: Seq<char>,
    can_ask: bool,
) -> ConfirmAction {
    match event {
        ConfirmEvent::Asked { scope_allowed } => if scope_allowed {
            ConfirmAction::TakeToken
        } else {
            ConfirmAction::Refuse(InstallRefusal::NotAuthorized)
        },
        ConfirmEvent::TokenTaken { pending } => match pending {
            None => ConfirmAction::Refuse(InstallRefusal::InvalidToken),
            Some(p) => if p.user_scope@ != user_scope || p.conversation_scope@
                != conversation_scope {
                ConfirmAction::Refuse(InstallRefusal::ForeignToken)
            } else if !p.high_risk {
                ConfirmAction::Install
            } else if can_ask {
                ConfirmAction::AskApproval
            } else {
                ConfirmAction::Refuse(InstallRefusal::NoApprovalChannel)
            },
        },
        ConfirmEvent::Decided { decision } => match decision {
            Some(ApprovalDecision::AllowOnce) => ConfirmAction::Install,
            Some(ApprovalDecision::AlwaysAllow) => ConfirmAction::Install,
            _ => ConfirmAction::Refuse(InstallRefusal::Denied),
        },
    }
}

pub fn next_confirm_action(
    event: &ConfirmEvent,
    user_scope: &str,
    conversation_scope: &str,
    can_ask: bool,
) -> (r: ConfirmAction)
    ensures
        r == confirm_action(*event, user_scope@, conversation_scope@, can_ask),
{
    match event {
        ConfirmEvent::Asked { scope_allowed } => {
            if *scope_allowed {
                ConfirmAction::TakeToken
            } else {
                ConfirmAction::Refuse(InstallRefusal::NotAuthorized)
            }
        },
        ConfirmEvent::TokenTaken { pending } => match pending {
            None => ConfirmAction::Refuse(InstallRefusal::InvalidToken),
            Some(p) => {
                if !text::same_text(p.user_scope.as_str(), user_scope) || !text::same_text(
                    p.conversation_scope.as_str(),
                    conversation_scope,
                ) {
                    return ConfirmAction::Refuse(InstallRefusal::ForeignToken);
                }
                if !p.high_risk {
                    return ConfirmAction::Install;
                }
                if can_ask {
                    ConfirmAction::AskApproval
                } else {
                    ConfirmAction::Refuse(InstallRefusal::NoApprovalChannel)
                }
            },
        },
        ConfirmEvent::Decided { decision } => match decision {
            Some(ApprovalDecision::AllowOnce) => ConfirmAction::Install,
            Some(ApprovalDecision::AlwaysAllow) => ConfirmAction::Install,
            _ => ConfirmAction::Refuse(InstallRefusal::Denied),
        },
    }
}

/// A token installs only for the user and the conversation that it was given
/// to, and a skill of high risk only once a person has allowed it.
pub proof fn install_needs_its_owner_and_approval(
    pending: PendingInstall,
    user_scope: Seq<char>,
    conversation_scope: Seq<char>,
    can_ask: bool,
)
    ensures
        confirm_action(
            (ConfirmEvent::TokenTaken { pending: Some(pending) }),
            user_scope,
            conversation_scope,
            can_ask,
        ) == ConfirmAction::Install ==> {
            &&& pending.user_scope@ == user_scope
            &&& pending.conversation_scope@ == conversation_scope
            &&& !pending.high_risk
        },
        forall|decision: Option<ApprovalDecision>| #[trigger]
            confirm_action(
                (ConfirmEvent::Decided { decision }),
                user_scope,
                conversation_scope,
                can_ask,
            ) == ConfirmAction::Install ==> decision is Some && decision
                != Some(ApprovalDecision::Deny),
{
}

/// The command that a person is asked to allow.
pub fn install_command(skill_name: &str) -> (r: String)
    ensures
        r@ == "skill install "@ + skill_name@,
{
    let mut out = "skill install ".to_owned();
    out.append(skill_name);
    out
}

/// Why a person is asked.
pub fn install_reason(skill_name: &str) -> (r: String)
    ensures
        r@ == "High-risk skill install requires approval: "@ + skill_name@,
{
    let mut out = "High-risk skill install requires approval: ".to_owned();
    out.append(skill_name);
    out
}

pub open spec fn bool_text(b: bool) -> Seq<char> {
    if b {
        "true"@
    } else {
        "false"@
    }
}

/// The reply when a skill was installed.
pub open spec fn installed_text(
    skill_name: Seq<char>,
    target: Seq<char>,
    findings: nat,
    high_risk: bool,
    missing_env: Seq<Seq<char>>,
) -> Seq<char> {
    "Installed skill '"@ + skill_name + "' to "@ + target + " (findings: "@ + text::decimal(
        findings,
    ) + ", high-risk: "@ + bool_text(high_risk) + ")."@ + (if missing_env.len() == 0 {
        Seq::empty()
    } else {
        "\n\n⚠️ Missing environment variables: "@ + text::joined(missing_env, ", "@)
            + "\nAdd them to ~/.clawhive/.env (KEY=value format) for this skill to work."@
    })
}

pub fn installed_reply(
    skill_name: &str,
    target: &str,
    findings: usize,
    high_risk: bool,
    missing_env: &[String],
) -> (r: String)
    ensures
        r@ == installed_text(
            skill_name@,
            target@,
            findings as nat,
            high_risk,
            text::views(missing_env@),
        ),
{
    let mut out = "Installed skill '".to_owned();
    out.append(skill_name);
    out.append("' to ");
    out.append(target);
    out.append(" (findings: ");
    out.append(text::decimal_of(findings as u128).as_str());
    out.append(", high-risk: ");
    if high_risk {
        out.append("true");
    } else {
        out.append("false");
    }
    out.append(").");
    let ghost first = out@;
    assert(text::views(missing_env@).len() == missing_env@.len());
    if missing_env.len() > 0 {
        out.append("\n\n⚠️ Missing environment variables: ");
        out.append(text::join(missing_env, ", ").as_str());
        out.append("\nAdd them to ~/.clawhive/.env (KEY=value format) for this skill to work.");
        assert(out@ =~= first + ("\n\n⚠️ Missing environment variables: "@ + text::joined(
            text::views(missing_env@),
            ", "@,
        ) + "\nAdd them to ~/.clawhive/.env (KEY=value format) for this skill to work."@));
    } else {
        assert(out@ =~= first + Seq::<char>::empty());
    }
    out
}

// What requests and skills come to

/// The names behind the command are read as they are written, whatever follows.
pub proof fn names_behind_the_command(names: Seq<Seq<char>>, rest: Seq<char>)
    requires
        names.len() > 0,
        forall|i: int| 0 <= i < names.len() ==> (#[trigger] names[i]).len() > 0,
        forall|i: int, k: int|
            0 <= i < names.len() && 0 <= k < names[i].len() ==> #[trigger] names[i][k] != ','
                && !text::whitespace(names[i][k]),
        rest.len() > 0,
        !text::whitespace(rest.last()),
    ensures
        forced_names("/skill "@ + text::joined(names, ","@)) == Some(names),
        forced_names("/skill "@ + text::joined(names, ","@) + " "@ + rest) == Some(names),
{
    reveal_strlit("/skill ");
    reveal_strlit(",");
    reveal_strlit(" ");
    let by = Separator::Char(',');
    let list = text::joined(names, ","@);
    let none = Seq::<char>::empty();
    assert(","@ =~= seq![',']);
    assert(" "@ =~= seq![' ']);
    assert forall|i: int| 0 <= i < names.len() implies text::unseparated(
        #[trigger] names[i],
        by,
    ) by {
        assert forall|k: int| 0 <= k < names[i].len() implies !text::separates(
            by,
            #[trigger] names[i][k],
        ) by {}
    }
    text::split_of_joined(names, ',', by);
    text::nonempty_parts_stay(names);
    joined_names_have_no_blank(names);
    text::words_one_by_one(list, ' ', rest);
    let alone = "/skill "@ + list;
    assert(alone.last() == list[list.len() - 1]);
    text::trim_of_padded(none, alone, none);
    assert(none + alone + none =~= alone);
    assert(alone.take(7) =~= "/skill "@);
    assert(alone.skip(7) =~= list);
    let more = "/skill "@ + list + " "@ + rest;
    text::trim_of_padded(none, more, none);
    assert(none + more + none =~= more);
    assert(more.take(7) =~= "/skill "@);
    assert(more.skip(7) =~= list + seq![' '] + rest);
}

proof fn joined_names_have_no_blank(names: Seq<Seq<char>>)
    requires
        names.len() > 0,
        forall|i: int| 0 <= i < names.len() ==> (#[trigger] names[i]).len() > 0,
        forall|i: int, k: int|
            0 <= i < names.len() && 0 <= k < names[i].len() ==> #[trigger] names[i][k] != ','
                && !text::whitespace(names[i][k]),
    ensures
        text::joined(names, ","@).len() > 0,
        forall|k: int|
            0 <= k < text::joined(names, ","@).len() ==> !text::whitespace(
                #[trigger] text::joined(names, ","@)[k],
            ),
    decreases names.len(),
{
    reveal_strlit(",");
    let list = text::joined(names, ","@);
    let last = names[names.len() - 1];
    assert(last.len() > 0);
    if names.len() == 1 {
        assert forall|k: int| 0 <= k < list.len() implies !text::whitespace(#[trigger] list[k]) by {
            assert(names[0][k] != ',');
        }
    } else {
        let less = names.drop_last();
        assert forall|i: int| 0 <= i < less.len() implies (#[trigger] less[i]).len() > 0 by {
            assert(less[i] == names[i]);
        }
        assert forall|i: int, k: int|
            0 <= i < less.len() && 0 <= k < less[i].len() implies #[trigger] less[i][k] != ','
            && !text::whitespace(less[i][k]) by {
            assert(less[i][k] == names[i][k]);
        }
        joined_names_have_no_blank(less);
        let front = text::joined(less, ","@);
        assert forall|k: int| 0 <= k < list.len() implies !text::whitespace(#[trigger] list[k]) by {
            if k < front.len() {
                assert(list[k] == front[k]);
            } else if k > front.len() {
                assert(list[k] == names[names.len() - 1][k - front.len() - 1]);
            }
        }
    }
}

/// A skill is found by its name: the first one of that name, wherever there is one.
pub proof fn skills_are_found_by_name(skills: Seq<SkillEntry>, name: Seq<char>)
    ensures
        match skill_at(skills, name) {
            Some(k) => 0 <= k < skills.len() && skills[k].name@ == name && forall|i: int|
                0 <= i < k ==> (#[trigger] skills[i]).name@ != name,
            None => forall|i: int| 0 <= i < skills.len() ==> (#[trigger] skills[i]).name@ != name,
        },
    decreases skills.len(),
{
    if skills.len() > 0 {
        let less = skills.drop_last();
        skills_are_found_by_name(less, name);
        assert forall|i: int| 0 <= i < less.len() implies #[trigger] skills[i] == less[i] by {}
    }
}

/// The permissions of two lots of names, or of two lots of skills, stand one
/// behind the other. A name brings the permissions of the first skill of that
/// name, a skill its own.
pub proof fn permissions_are_collected(
    skills: Seq<SkillEntry>,
    a: Seq<Seq<char>>,
    b: Seq<Seq<char>>,
)
    ensures
        chosen_permissions(skills, a + b) == chosen_permissions(skills, a) + chosen_permissions(
            skills,
            b,
        ),
        forall|i: int| #![trigger skills[i]]
            0 <= i < skills.len() && a.len() == 1 && skills[i].name@ == a[0] && (forall|k: int|
                0 <= k < i ==> (#[trigger] skills[k]).name@ != a[0]) ==> chosen_permissions(
                skills,
                a,
            ) == match skills[i].permissions {
                Some(p) => seq![p],
                None => Seq::empty(),
            },
        a.len() == 1 && (forall|k: int|
            0 <= k < skills.len() ==> (#[trigger] skills[k]).name@ != a[0]) ==> chosen_permissions(
            skills,
            a,
        ).len() == 0,
    decreases b.len(),
{
    if b.len() == 0 {
        assert(a + b =~= a);
        assert(chosen_permissions(skills, a) + chosen_permissions(skills, b)
            =~= chosen_permissions(skills, a));
    } else {
        permissions_are_collected(skills, a, b.drop_last());
        assert((a + b).drop_last() =~= a + b.drop_last());
        assert((a + b).last() == b.last());
        assert(chosen_permissions(skills, a + b) =~= chosen_permissions(skills, a)
            + chosen_permissions(skills, b));
    }
    if a.len() == 1 {
        assert(a.drop_last() =~= Seq::<Seq<char>>::empty());
        assert(chosen_permissions(skills, a.drop_last()) == Seq::<Permissions>::empty());
        skills_are_found_by_name(skills, a[0]);
        assert forall|i: int| #![trigger skills[i]]
            0 <= i < skills.len() && skills[i].name@ == a[0] && (forall|k: int|
                0 <= k < i ==> (#[trigger] skills[k]).name@ != a[0]) implies chosen_permissions(
            skills,
            a,
        ) == match skills[i].permissions {
            Some(p) => seq![p],
            None => Seq::empty(),
        } by {
            let k = skill_at(skills, a[0])->0;
            assert(k == i);
            match skills[i].permissions {
                Some(p) => {
                    assert(chosen_permissions(skills, a) =~= seq![p]);
                },
                None => {},
            }
        }
    }
}

/// Where no skill is forced, the permissions of every skill count: those of two
/// lots of skills one behind the other, and of one skill its own.
pub proof fn every_skill_counts(a: Seq<SkillEntry>, b: Seq<SkillEntry>)
    ensures
        counted_permissions(a + b, None) == counted_permissions(a, None) + counted_permissions(
            b,
            None,
        ),
        a.len() == 1 ==> counted_permissions(a, None) == match a[0].permissions {
            Some(p) => seq![p],
            None => Seq::empty(),
        },
    decreases b.len(),
{
    if b.len() == 0 {
        assert(a + b =~= a);
        assert(every_permission(a) + every_permission(b) =~= every_permission(a));
    } else {
        every_skill_counts(a, b.drop_last());
        assert((a + b).drop_last() =~= a + b.drop_last());
        assert((a + b).last() == b.last());
        assert(every_permission(a + b) =~= every_permission(a) + every_permission(b));
    }
    if a.len() == 1 {
        assert(a.drop_last() =~= Seq::<SkillEntry>::empty());
        assert(every_permission(a.drop_last()) == Seq::<Permissions>::empty());
        match a[0].permissions {
            Some(p) => {
                assert(every_permission(a) =~= seq![p]);
            },
            None => {},
        }
    }
}

/// The services of two lots of permissions stand one behind the other.
pub proof fn services_are_added_up(a: Seq<Permissions>, b: Seq<Permissions>)
    ensures
        all_services(a + b) == all_services(a) + all_services(b),
        a.len() == 1 ==> all_services(a) == text::views(a[0].services@),
    decreases b.len(),
{
    if b.len() == 0 {
        assert(a + b =~= a);
        assert(all_services(a) + all_services(b) =~= all_services(a));
    } else {
        services_are_added_up(a, b.drop_last());
        assert((a + b).drop_last() =~= a + b.drop_last());
        assert((a + b).last() == b.last());
        assert(all_services(a + b) =~= all_services(a) + all_services(b));
    }
    if a.len() == 1 {
        assert(a.drop_last() =~= Seq::<Permissions>::empty());
        assert(all_services(a.drop_last()) == Seq::<Seq<char>>::empty());
        assert(all_services(a) =~= text::views(a[0].services@));
    }
}

/// What a skill with a permission may do is granted to whoever runs under the
/// skill, by force or with all others.
pub proof fn forced_skills_bring_their_grants(
    skills: Seq<SkillEntry>,
    names: Seq<Seq<char>>,
    n: int,
    at: int,
    of: Permitted,
    what: Seq<char>,
)
    requires
        0 <= n < names.len(),
        0 <= at < skills.len(),
        skills[at].name@ == names[n],
        forall|k: int| 0 <= k < at ==> (#[trigger] skills[k]).name@ != names[n],
        skills[at].permissions is Some,
        (skills[at].permissions->0).list(of).contains(what),
    ensures
        granted(counted_permissions(skills, Some(names)), of).contains(what),
        granted(counted_permissions(skills, None), of).contains(what),
{
    let p = skills[at].permissions->0;
    let a = names.take(n);
    let b = seq![names[n]];
    let c = names.skip(n + 1);
    assert(a + b + c =~= names);
    permissions_are_collected(skills, a + b, c);
    permissions_are_collected(skills, a, b);
    permissions_are_collected(skills, b, c);
    assert(b[0] == names[n]);
    assert(chosen_permissions(skills, b) == seq![p]);
    let all = chosen_permissions(skills, names);
    assert(all[chosen_permissions(skills, a).len() as int] == p);
    merging_grants_what_is_granted(all, of, what);
    let x = skills.take(at);
    let y = seq![skills[at]];
    let z = skills.skip(at + 1);
    assert(x + y + z =~= skills);
    every_skill_counts(x + y, z);
    every_skill_counts(x, y);
    every_skill_counts(y, z);
    let every = every_permission(skills);
    assert(every[every_permission(x).len() as int] == p);
    merging_grants_what_is_granted(every, of, what);
}

/// A forced name is told as missing exactly where no skill has it.
pub proof fn missing_names_have_no_skill(
    skills: Seq<SkillEntry>,
    names: Seq<Seq<char>>,
    name: Seq<char>,
)
    ensures
        unknown_names(skills, names).contains(name) <==> names.contains(name) && forall|i: int|
            0 <= i < skills.len() ==> (#[trigger] skills[i]).name@ != name,
    decreases names.len(),
{
    let keep = |n: Seq<char>| skill_at(skills, n) is None;
    let missing = names.filter(keep);
    skills_are_found_by_name(skills, name);
    if missing.contains(name) {
        let k = choose|k: int| 0 <= k < missing.len() && missing[k] == name;
        crate::seqs::filter_sound(names, keep, k);
    }
    if names.contains(name) && keep(name) {
        let i = choose|i: int| 0 <= i < names.len() && names[i] == name;
        crate::seqs::filter_holds(names, keep, i);
    }
}

/// The forced skills, and those of them that are missing, are named to the model.
pub proof fn forced_skills_are_named(
    names: Seq<Seq<char>>,
    missing: Seq<Seq<char>>,
    i: int,
)
    ensures
        text::starts_with(forced_section(names, missing), "\n\n## Forced Skill\n"@),
        0 <= i < names.len() ==> text::contains(forced_section(names, missing), names[i]),
        0 <= i < missing.len() ==> text::contains(forced_section(names, missing), missing[i])
            && text::contains(forced_section(names, missing), "Missing forced skills: "@),
{
    reveal_strlit("\n\n## Forced Skill\n");
    reveal_strlit("\n\n## Forced Skill\nYou must follow skill '");
    reveal_strlit("\n\n## Forced Skill\nYou must follow only these skills for this request: ");
    reveal_strlit("\nMissing forced skills: ");
    reveal_strlit("Missing forced skills: ");
    let none = Seq::<char>::empty();
    let section = forced_section(names, missing);
    assert(section.take(18) =~= "\n\n## Forced Skill\n"@);
    let (head, list, tail) = if names.len() == 1 {
        (
            "\n\n## Forced Skill\nYou must follow skill '"@,
            names[0],
            "' for this request and prioritize its instructions over generic approaches."@,
        )
    } else {
        (
            "\n\n## Forced Skill\nYou must follow only these skills for this request: "@,
            text::joined(names, ", "@),
            ". Prioritize their instructions over generic approaches."@,
        )
    };
    let front = head + list + tail;
    let back = if missing.len() == 0 {
        none
    } else {
        "\nMissing forced skills: "@ + text::joined(missing, ", "@)
            + ". Tell the user these were not found."@
    };
    assert(section =~= front + back);
    if 0 <= i < names.len() {
        if names.len() == 1 {
            text::middle_occurs(none, list, none);
            assert(none + list + none =~= list);
        } else {
            text::joined_holds_its_parts(names, ", "@, i);
        }
        text::occurs_in_more(head, list, tail, names[i]);
        text::occurs_in_more(none, front, back, names[i]);
        assert(none + front + back =~= section);
    }
    if 0 <= i < missing.len() {
        text::joined_holds_its_parts(missing, ", "@, i);
        let end = ". Tell the user these were not found."@;
        let said = text::joined(missing, ", "@);
        text::occurs_in_more("\nMissing forced skills: "@, said, end, missing[i]);
        text::occurs_in_more(front, back, none, missing[i]);
        assert(front + back + none =~= section);
        text::middle_occurs(front + "\n"@, "Missing forced skills: "@, said + end);
        reveal_strlit("\n");
        assert(front + "\n"@ + "Missing forced skills: "@ + (said + end) =~= section);
    }
}

/// Under forced skills the one tool left is the execution of commands, and it is
/// left wherever the agent has it; without them nothing changes.
pub proof fn forcing_leaves_command_execution(agent_allowed: Option<Seq<Seq<char>>>, tool: Seq<char>)
    ensures
        allowed_tools(false, agent_allowed) == agent_allowed,
        allowed_tools(true, agent_allowed) is Some,
        (allowed_tools(true, agent_allowed)->0).contains(tool) <==> tool == "execute_command"@ && (
        agent_allowed matches Some(list) ==> list.contains("execute_command"@)),
{
    let one = seq!["execute_command"@];
    assert(one[0] == "execute_command"@);
    assert(one.contains("execute_command"@));
}

/// What follows each event on the way to an installation: the token is looked up
/// exactly for scopes that may install; a token installs at once exactly for its
/// owner and without high risk, and a person is asked exactly for its owner, with
/// high risk and where there is someone to ask; and what a person allows is
/// installed.
pub proof fn each_event_has_its_step(
    pending: PendingInstall,
    user_scope: Seq<char>,
    conversation_scope: Seq<char>,
    can_ask: bool,
    scope_allowed: bool,
    decision: Option<ApprovalDecision>,
)
    ensures
        ({
            let asked = confirm_action(
                (ConfirmEvent::Asked { scope_allowed }),
                user_scope,
                conversation_scope,
                can_ask,
            );
            let taken = confirm_action(
                (ConfirmEvent::TokenTaken { pending: Some(pending) }),
                user_scope,
                conversation_scope,
                can_ask,
            );
            let unknown = confirm_action(
                (ConfirmEvent::TokenTaken { pending: None }),
                user_scope,
                conversation_scope,
                can_ask,
            );
            let decided = confirm_action(
                (ConfirmEvent::Decided { decision }),
                user_scope,
                conversation_scope,
                can_ask,
            );
            let own = pending.user_scope@ == user_scope && pending.conversation_scope@
                == conversation_scope;
            &&& scope_allowed <==> asked == ConfirmAction::TakeToken
            &&& !scope_allowed <==> asked == ConfirmAction::Refuse(InstallRefusal::NotAuthorized)
            &&& unknown == ConfirmAction::Refuse(InstallRefusal::InvalidToken)
            &&& !own <==> taken == ConfirmAction::Refuse(InstallRefusal::ForeignToken)
            &&& own && !pending.high_risk <==> taken == ConfirmAction::Install
            &&& own && pending.high_risk && can_ask <==> taken == ConfirmAction::AskApproval
            &&& own && pending.high_risk && !can_ask <==> taken == ConfirmAction::Refuse(
                InstallRefusal::NoApprovalChannel,
            )
            &&& decision == Some(ApprovalDecision::AllowOnce) || decision == Some(
                ApprovalDecision::AlwaysAllow,
            ) <==> decided == ConfirmAction::Install
            &&& decision == Some(ApprovalDecision::Deny) || decision is None <==> decided
                == ConfirmAction::Refuse(InstallRefusal::Denied)
        }),
{
}

/// The reply to an installation tells the skill, where it went, how many findings
/// there were, and every variable that is missing.
pub proof fn the_installation_is_told(
    skill_name: Seq<char>,
    target: Seq<char>,
    findings: nat,
    high_risk: bool,
    missing_env: Seq<Seq<char>>,
    i: int,
)
    ensures
        ({
            let reply = installed_text(skill_name, target, findings, high_risk, missing_env);
            &&& text::starts_with(reply, "Installed skill '"@ + skill_name + "' to "@ + target)
            &&& text::contains(reply, "findings: "@ + text::decimal(findings))
            &&& high_risk ==> text::contains(reply, "high-risk: true"@)
            &&& !high_risk ==> text::contains(reply, "high-risk: false"@)
            &&& 0 <= i < missing_env.len() ==> text::contains(reply, missing_env[i])
        }),
{
    reveal_strlit(" (findings: ");
    reveal_strlit("findings: ");
    reveal_strlit(" (");
    reveal_strlit(", high-risk: ");
    reveal_strlit(", ");
    reveal_strlit("high-risk: true");
    reveal_strlit("high-risk: false");
    reveal_strlit("true");
    reveal_strlit("false");
    let reply = installed_text(skill_name, target, findings, high_risk, missing_env);
    let start = "Installed skill '"@ + skill_name + "' to "@ + target;
    let count = "findings: "@ + text::decimal(findings);
    let risk = if high_risk {
        "high-risk: true"@
    } else {
        "high-risk: false"@
    };
    let end = if missing_env.len() == 0 {
        Seq::empty()
    } else {
        "\n\n⚠️ Missing environment variables: "@ + text::joined(missing_env, ", "@)
            + "\nAdd them to ~/.clawhive/.env (KEY=value format) for this skill to work."@
    };
    assert(reply =~= start + " ("@ + count + ", "@ + risk + ")."@ + end);
    assert(reply.take(start.len() as int) =~= start);
    text::middle_occurs(start + " ("@, count, ", "@ + risk + ")."@ + end);
    assert(start + " ("@ + count + (", "@ + risk + ")."@ + end) =~= reply);
    text::middle_occurs(start + " ("@ + count + ", "@, risk, ")."@ + end);
    assert(start + " ("@ + count + ", "@ + risk + (")."@ + end) =~= reply);
    if 0 <= i < missing_env.len() {
        text::joined_holds_its_parts(missing_env, ", "@, i);
        let front = start + " ("@ + count + ", "@ + risk + ")."@
            + "\n\n⚠️ Missing environment variables: "@;
        let back = "\nAdd them to ~/.clawhive/.env (KEY=value format) for this skill to work."@;
        text::occurs_in_more(front, text::joined(missing_env, ", "@), back, missing_env[i]);
        assert(front + text::joined(missing_env, ", "@) + back =~= reply);
    }
}

proof fn granted_is_finite(perms: Seq<Permissions>, of: Permitted)
    ensures
        granted(perms, of).finite(),
    decreases perms.len(),
{
    if perms.len() > 0 {
        granted_is_finite(perms.drop_last(), of);
        vstd::seq_lib::seq_to_set_is_finite(perms.last().list(of));
    }
}

/// Merged permissions list what one of the skills lists and nothing else, in
/// order and each thing once, and all their services.
pub proof fn merged_permissions_list_what_is_listed(
    merged: Permissions,
    perms: Seq<Permissions>,
    of: Permitted,
    what: Seq<char>,
)
    requires
        merges(merged, perms),
    ensures
        merged.list(of).contains(what) <==> exists|i: int|
            0 <= i < perms.len() && (#[trigger] perms[i]).list(of).contains(what),
        token_set::strictly_sorted(merged.list(of)),
        text::views(merged.services@) == all_services(perms),
{
    granted_is_finite(perms, of);
    token_set::finite_set_is_in_order(granted(perms, of));
    merging_grants_what_is_granted(perms, of, what);
    let list = merged.list(of);
    assert(list == token_set::in_order(granted(perms, of)));
    assert(list.contains(what) <==> list.to_set().contains(what));
}

/// The hint for a subcommand shows how that subcommand is used.
pub proof fn hints_show_their_subcommand(subcommand: Seq<char>)
    requires
        subcommand == "analyze"@ || subcommand == "install"@ || subcommand == "confirm"@
            || subcommand == "remove"@,
    ensures
        text::starts_with(usage_hint(subcommand), "Usage: /skill "@ + subcommand + " <"@),
{
    reveal_strlit("analyze");
    reveal_strlit("install");
    reveal_strlit("confirm");
    reveal_strlit("remove");
    reveal_strlit("Usage: /skill ");
    reveal_strlit(" <");
    let start = "Usage: /skill "@ + subcommand + " <"@;
    if subcommand == "analyze"@ {
        reveal_strlit(
            "Usage: /skill analyze <url-or-path>\nExample: /skill analyze https://example.com/my-skill.zip",
        );
        assert(usage_hint(subcommand).take(start.len() as int) =~= start);
    } else if subcommand == "install"@ {
        assert(subcommand[0] == 'i' && "analyze"@[0] == 'a');
        reveal_strlit(
            "Usage: /skill install <url-or-path>\nExample: /skill install https://example.com/my-skill.zip",
        );
        assert(usage_hint(subcommand).take(start.len() as int) =~= start);
    } else if subcommand == "confirm"@ {
        assert(subcommand[0] == 'c' && "analyze"@[0] == 'a' && "install"@[0] == 'i');
        reveal_strlit(
            "Usage: /skill confirm <token>\nThe token is provided after running /skill analyze or /skill install.",
        );
        assert(usage_hint(subcommand).take(start.len() as int) =~= start);
    } else {
        assert(subcommand.len() == 6 && "analyze"@.len() == 7 && "install"@.len() == 7
            && "confirm"@.len() == 7);
        reveal_strlit(
            "Usage: /skill remove <skill-name>\nExample: /skill remove web-search",
        );
        assert(usage_hint(subcommand).take(start.len() as int) =~= start);
    }
}

} // verus!
