//! From the summary of a conversation to facts and daily notes.

use crate::dates;
use crate::dates::CalendarDate;
use crate::memory_retrieval;
use crate::memory_summary;
use crate::memory_summary::{
    DailyTopicBlock, RetainedSummaryCandidates, SummaryCandidate, SummaryClass,
};
use crate::orchestrator::episode::types::RecentExplicitMemoryWrite;
use crate::orchestrator::messages::SessionMessage;
use crate::records::Fact;
use crate::text;
use crate::token_set::TokenSet;
use vstd::prelude::*;

verus! {

/// The length of a summary, in tokens of the model.
pub const SUMMARY_MAX_TOKENS: u32 = 512;

// The request

pub open spec fn spoken_line(m: SessionMessage) -> Seq<char> {
    m.role@ + ": "@ + m.content@
}

pub open spec fn spoken_lines(messages: Seq<SessionMessage>) -> Seq<Seq<char>> {
    Seq::new(messages.len(), |i: int| spoken_line(messages[i]))
}

/// The conversation that a model summarises: a line for each message; `None`
/// where nothing was said.
pub fn summary_conversation(messages: &[SessionMessage]) -> (r: Option<String>)
    ensures
        text::opt_view(r) == (if messages@.len() == 0 {
            None
        } else {
            Some(text::joined(spoken_lines(messages@), "\n"@))
        }),
{
    if messages.len() == 0 {
        return None;
    }
    let mut lines: Vec<String> = Vec::new();
    let n: usize = messages.len();
    let ghost all = spoken_lines(messages@);
    assert(text::views(lines@) == all.take(0));
    for i in 0..n
        invariant
            n == messages@.len(),
            all == spoken_lines(messages@),
            text::views(lines@) == all.take(i as int),
    {
        let mut line = messages[i].role.as_str().to_owned();
        line.append(": ");
        line.append(messages[i].content.as_str());
        assert(line@ == all[i as int]);
        proof {
            text::views_push(lines@, line);
        }
        lines.push(line);
        assert(all.take(i + 1) == all.take(i as int).push(all[i as int]));
    }
    assert(all.take(n as int) == all);
    Some(text::join(lines.as_slice(), "\n"))
}

// Candidates

/// The key of a candidate without white space at its ends, where it has one.
pub open spec fn own_key(candidate: SummaryCandidate) -> Option<Seq<char>> {
    match candidate.duplicate_key {
        Some(key) => if text::trim(key@).len() == 0 {
            None
        } else {
            Some(text::trim(key@))
        },
        None => None,
    }
}

pub fn normalized_duplicate_key(candidate: &SummaryCandidate) -> (r: Option<String>)
    ensures
        text::opt_view(r) == own_key(*candidate),
{
    match &candidate.duplicate_key {
        Some(key) => {
            let trimmed = text::trimmed(key.as_str());
            if trimmed.as_str().is_empty() {
                None
            } else {
                Some(trimmed)
            }
        },
        None => None,
    }
}

pub open spec fn known_fact_type(s: Seq<char>) -> bool {
    ||| s == "preference"@
    ||| s == "decision"@
    ||| s == "event"@
    ||| s == "person"@
    ||| s == "rule"@
    ||| s == "procedure"@
}

/// The type of the fact that a candidate becomes: its own where it is known.
pub open spec fn fact_type_of(candidate: SummaryCandidate) -> Seq<char> {
    match candidate.fact_type {
        Some(t) => if known_fact_type(text::trim(t@)) {
            text::trim(t@)
        } else {
            "decision"@
        },
        None => "decision"@,
    }
}

pub fn normalized_candidate_fact_type(candidate: &SummaryCandidate) -> (r: &'static str)
    ensures
        r@ == fact_type_of(*candidate),
{
    match &candidate.fact_type {
        None => "decision",
        Some(t) => {
            let trimmed = text::trimmed(t.as_str());
            let own = trimmed.as_str();
            if text::same_text(own, "preference") {
                "preference"
            } else if text::same_text(own, "event") {
                "event"
            } else if text::same_text(own, "person") {
                "person"
            } else if text::same_text(own, "rule") {
                "rule"
            } else if text::same_text(own, "procedure") {
                "procedure"
            } else {
                "decision"
            }
        },
    }
}

// What is remembered already

/// A fact, a memory written on request or an item of the long-term memory says
/// nearly what `content` says.
pub open spec fn remembered(
    content: Seq<char>,
    facts: Seq<Fact>,
    writes: Seq<RecentExplicitMemoryWrite>,
    items: Seq<Seq<char>>,
) -> bool {
    ||| exists|i: int|
        0 <= i < facts.len() && memory_retrieval::matching_content(
            (#[trigger] facts[i]).content@,
            content,
        )
    ||| exists|i: int|
        0 <= i < writes.len() && memory_retrieval::matching_content(
            (#[trigger] writes[i]).summary@,
            content,
        )
    ||| exists|i: int|
        0 <= i < items.len() && memory_retrieval::matching_content(#[trigger] items[i], content)
}

pub fn is_remembered(
    content: &str,
    facts: &[Fact],
    writes: &[RecentExplicitMemoryWrite],
    items: &[String],
) -> (r: bool)
    ensures
        r == remembered(content@, facts@, writes@, text::views(items@)),
{
    if memory_retrieval::find_matching_fact(facts, content).is_some() {
        return true;
    }
    assert forall|i: int| 0 <= i < facts@.len() implies !memory_retrieval::matching_content(
        (#[trigger] facts@[i]).content@,
        content@,
    ) by {
        assert(!memory_retrieval::matching_content(facts@[i].content@, content@));
    }
    let n: usize = writes.len();
    for i in 0..n
        invariant
            n == writes@.len(),
            forall|k: int|
                0 <= k < i ==> !memory_retrieval::matching_content(
                    (#[trigger] writes@[k]).summary@,
                    content@,
                ),
    {
        if memory_retrieval::is_matching_memory_content(writes[i].summary.as_str(), content) {
            assert(memory_retrieval::matching_content(writes@[i as int].summary@, content@));
            return true;
        }
    }
    let m: usize = items.len();
    let ghost said = text::views(items@);
    for i in 0..m
        invariant
            m == items@.len(),
            said == text::views(items@),
            forall|k: int|
                0 <= k < i ==> !memory_retrieval::matching_content(#[trigger] said[k], content@),
    {
        if memory_retrieval::is_matching_memory_content(items[i].as_str(), content) {
            assert(memory_retrieval::matching_content(said[i as int], content@));
            return true;
        }
        assert(said[i as int] == items@[i as int]@);
    }
    false
}

// Deciding on the candidates one by one

/// A kind of canonical record that a candidate may repeat.
#[derive(Clone, Copy, Debug, PartialEq, Eq, Structural)]
pub enum LookupKind {
    Fact,
    Daily,
    Memory,
}

impl LookupKind {
    pub open spec fn name(self) -> Seq<char> {
        match self {
            LookupKind::Fact => "fact"@,
            LookupKind::Daily => "daily"@,
            LookupKind::Memory => "memory"@,
        }
    }

    pub fn label(self) -> (r: &'static str)
        ensures
            r@ == self.name(),
    {
        match self {
            LookupKind::Fact => "fact",
            LookupKind::Daily => "daily",
            LookupKind::Memory => "memory",
        }
    }
}

/// What is to be done next for a summary.
#[derive(Clone, Copy, Debug, PartialEq, Eq, Structural)]
pub enum SummaryAction {
    /// Look whether a record of this kind has the key of the current candidate.
    LookUp(LookupKind),
    /// Store the current candidate as a fact.
    InsertFact,
    /// Write down what was kept.
    Finish,
}

/// The state of the work on a summary.
pub struct RunModel {
    /// Candidates that become facts.
    pub facts: Seq<SummaryCandidate>,
    /// Candidates that become daily notes.
    pub notes: Seq<SummaryCandidate>,
    /// The candidates that have been decided on.
    pub position: int,
    /// The answers to what was looked up for the current candidate.
    pub answered: Seq<bool>,
    pub active_facts: Seq<Fact>,
    pub writes: Seq<RecentExplicitMemoryWrite>,
    pub memory_items: Seq<Seq<char>>,
    pub kept: Seq<SummaryCandidate>,
}

impl RunModel {
    pub open spec fn total(self) -> int {
        (self.facts.len() + self.notes.len()) as int
    }

    pub open spec fn current(self) -> SummaryCandidate {
        if self.position < self.facts.len() {
            self.facts[self.position]
        } else {
            self.notes[self.position - self.facts.len()]
        }
    }

    pub open spec fn next(self) -> RunModel {
        RunModel { position: self.position + 1, answered: Seq::empty(), ..self }
    }

    pub open spec fn with_note(self) -> RunModel {
        RunModel { kept: self.kept.push(as_note(self.current())), ..self }
    }

    pub open spec fn with_fact(self, fact: Option<Fact>) -> RunModel {
        match fact {
            Some(fact) => RunModel { active_facts: self.active_facts.push(fact), ..self },
            None => self,
        }
    }

    pub open spec fn is_remembered(self) -> bool {
        remembered(self.current().content@, self.active_facts, self.writes, self.memory_items)
    }
}

/// The candidate as a daily note.
pub open spec fn as_note(candidate: SummaryCandidate) -> SummaryCandidate {
    SummaryCandidate { classification: SummaryClass::Daily, ..candidate }
}

/// What is looked up for a candidate, in order: nothing where it has no key.
pub open spec fn lookups(candidate: SummaryCandidate, becomes_fact: bool) -> Seq<LookupKind> {
    if own_key(candidate) is None {
        Seq::empty()
    } else if becomes_fact {
        seq![LookupKind::Fact]
    } else if candidate.classification == SummaryClass::Memory {
        seq![LookupKind::Daily, LookupKind::Memory]
    } else {
        seq![LookupKind::Daily]
    }
}

/// What is done with a candidate.
#[derive(Clone, Copy, Debug, PartialEq, Eq, Structural)]
pub enum CandidateStep {
    Skip,
    LookUp(LookupKind),
    Keep,
}

/// A candidate is skipped where it is remembered or a record was found, kept
/// where all was looked up in vain.
pub open spec fn candidate_step(m: RunModel) -> CandidateStep {
    let kinds = lookups(m.current(), m.position < m.facts.len());
    if m.is_remembered() || m.answered.contains(true) {
        CandidateStep::Skip
    } else if m.answered.len() < kinds.len() {
        CandidateStep::LookUp(kinds[m.answered.len() as int])
    } else {
        CandidateStep::Keep
    }
}

/// The state in which something is to be done, and what.
pub open spec fn settled(m: RunModel) -> (RunModel, SummaryAction)
    decreases m.total() - m.position,
{
    if m.position >= m.total() {
        (m, SummaryAction::Finish)
    } else {
        match candidate_step(m) {
            CandidateStep::Skip => settled(m.next()),
            CandidateStep::LookUp(kind) => (m, SummaryAction::LookUp(kind)),
            CandidateStep::Keep => if m.position < m.facts.len() {
                (m, SummaryAction::InsertFact)
            } else {
                settled(m.with_note().next())
            },
        }
    }
}

/// The work on a summary: its candidates are decided on one by one, while the
/// stores are asked from outside.
#[derive(Debug)]
pub struct SummaryRun {
    facts: Vec<SummaryCandidate>,
    notes: Vec<SummaryCandidate>,
    position: usize,
    answered: Vec<bool>,
    active_facts: Vec<Fact>,
    writes: Vec<RecentExplicitMemoryWrite>,
    memory_items: Vec<String>,
    kept: Vec<SummaryCandidate>,
}

impl View for SummaryRun {
    type V = RunModel;

    closed spec fn view(&self) -> RunModel {
        RunModel {
            facts: self.facts@,
            notes: self.notes@,
            position: self.position as int,
            answered: self.answered@,
            active_facts: self.active_facts@,
            writes: self.writes@,
            memory_items: text::views(self.memory_items@),
            kept: self.kept@,
        }
    }
}

impl SummaryRun {
    #[verifier::type_invariant]
    spec fn wf(&self) -> bool {
        self.facts@.len() + self.notes@.len() <= usize::MAX && self.position <= self.facts@.len()
            + self.notes@.len()
    }

    /// Begins with the retained candidates; `None` where they are too many to count.
    pub fn start(
        retained: RetainedSummaryCandidates,
        active_facts: Vec<Fact>,
        writes: Vec<RecentExplicitMemoryWrite>,
        memory_items: Vec<String>,
    ) -> (r: Option<Self>)
        ensures
            r is None == (retained.facts@.len() + retained.daily@.len() + retained.memory@.len()
                > usize::MAX),
            r matches Some(run) ==> run@ == (RunModel {
                facts: retained.facts@,
                notes: retained.daily@ + retained.memory@,
                position: 0,
                answered: Seq::empty(),
                active_facts: active_facts@,
                writes: writes@,
                memory_items: text::views(memory_items@),
                kept: Seq::empty(),
            }),
    {
        let a: usize = retained.facts.len();
        let b: usize = retained.daily.len();
        let c: usize = retained.memory.len();
        if b > usize::MAX - a || c > usize::MAX - a - b {
            return None;
        }
        let mut notes = retained.daily;
        let mut more = retained.memory;
        notes.append(&mut more);
        let run = SummaryRun {
            facts: retained.facts,
            notes,
            position: 0,
            answered: Vec::new(),
            active_facts,
            writes,
            memory_items,
            kept: Vec::new(),
        };
        Some(run)
    }

    /// The candidate that the last action speaks of.
    pub fn current(&self) -> (r: Option<&SummaryCandidate>)
        ensures
            match r {
                Some(candidate) => self@.position < self@.total() && *candidate == self@.current(),
                None => self@.position >= self@.total(),
            },
    {
        proof {
            use_type_invariant(self);
        }
        let n: usize = self.facts.len();
        if self.position < n {
            Some(&self.facts[self.position])
        } else if self.position - n < self.notes.len() {
            Some(&self.notes[self.position - n])
        } else {
            None
        }
    }

    /// What was kept for the daily notes.
    pub fn kept(&self) -> (r: &Vec<SummaryCandidate>)
        ensures
            r@ == self@.kept,
    {
        &self.kept
    }

    /// The facts that are known by now.
    pub fn active_facts(&self) -> (r: &Vec<Fact>)
        ensures
            r@ == self@.active_facts,
    {
        &self.active_facts
    }

    fn step(&self) -> (r: CandidateStep)
        requires
            self@.position < self@.total(),
        ensures
            r == candidate_step(self@),
    {
        let becomes_fact = self.position < self.facts.len();
        match self.current() {
            None => CandidateStep::Skip,
            Some(candidate) => {
                let found = is_remembered(
                    candidate.content.as_str(),
                    self.active_facts.as_slice(),
                    self.writes.as_slice(),
                    self.memory_items.as_slice(),
                );
                if found || holds_true(&self.answered) {
                    return CandidateStep::Skip;
                }
                let kinds = lookups_of(candidate, becomes_fact);
                if self.answered.len() < kinds.len() {
                    CandidateStep::LookUp(kinds[self.answered.len()])
                } else {
                    CandidateStep::Keep
                }
            },
        }
    }

    /// Moves to the next candidate.
    fn pass(self) -> (r: Self)
        requires
            self@.position < self@.total(),
        ensures
            r@ == self@.next(),
    {
        proof {
            use_type_invariant(&self);
        }
        let run = SummaryRun { position: self.position + 1, answered: Vec::new(), ..self };
        assert(run@ == self@.next());
        run
    }

    /// Decides on candidates until the stores are needed.
    pub fn proceed(self) -> (r: (Self, SummaryAction))
        ensures
            r.0@ == settled(self@).0,
            r.1 == settled(self@).1,
    {
        let ghost start = self@;
        let mut run = self;
        loop
            invariant
                start == self@,
                settled(run@) == settled(start),
            decreases run@.total() - run@.position,
        {
            let candidate = match run.current() {
                None => {
                    return (run, SummaryAction::Finish);
                },
                Some(candidate) => candidate.copy(),
            };
            match run.step() {
                CandidateStep::Skip => {
                    run = run.pass();
                },
                CandidateStep::LookUp(kind) => {
                    return (run, SummaryAction::LookUp(kind));
                },
                CandidateStep::Keep => {
                    let becomes_fact = run.position < run.facts.len();
                    if becomes_fact {
                        return (run, SummaryAction::InsertFact);
                    }
                    run = run.keep(candidate).pass();
                },
            }
        }
    }

    fn keep(self, candidate: SummaryCandidate) -> (r: Self)
        requires
            self@.position < self@.total(),
            candidate == self@.current(),
        ensures
            r@ == self@.with_note(),
    {
        proof {
            use_type_invariant(&self);
        }
        let ghost before = self@;
        let mut kept = self.kept;
        let note = SummaryCandidate { classification: SummaryClass::Daily, ..candidate };
        kept.push(note);
        let run = SummaryRun {
            facts: self.facts,
            notes: self.notes,
            position: self.position,
            answered: self.answered,
            active_facts: self.active_facts,
            writes: self.writes,
            memory_items: self.memory_items,
            kept,
        };
        assert(run@ == before.with_note());
        run
    }

    /// Takes the answer to what was looked up.
    pub fn answer(self, found: bool) -> (r: Self)
        ensures
            r@ == (RunModel { answered: self@.answered.push(found), ..self@ }),
    {
        proof {
            use_type_invariant(&self);
        }
        let mut answered = self.answered;
        answered.push(found);
        SummaryRun {
            facts: self.facts,
            notes: self.notes,
            position: self.position,
            answered,
            active_facts: self.active_facts,
            writes: self.writes,
            memory_items: self.memory_items,
            kept: self.kept,
        }
    }

    /// Takes the fact as which the current candidate was stored, or none where
    /// storing it failed, and moves on.
    pub fn inserted(self, fact: Option<Fact>) -> (r: Self)
        requires
            self@.position < self@.total(),
        ensures
            r@ == self@.with_fact(fact).next(),
    {
        proof {
            use_type_invariant(&self);
        }
        let ghost before = self@;
        let mut active_facts = self.active_facts;
        match fact {
            Some(fact) => {
                active_facts.push(fact);
            },
            None => {},
        }
        let run = SummaryRun {
            facts: self.facts,
            notes: self.notes,
            position: self.position,
            answered: self.answered,
            active_facts,
            writes: self.writes,
            memory_items: self.memory_items,
            kept: self.kept,
        };
        assert(run@ == before.with_fact(fact));
        run.pass()
    }

    /// The daily notes that were kept, by topic.
    pub fn daily_blocks(&self) -> (r: Vec<DailyTopicBlock>)
        ensures
            memory_summary::grouped(
                memory_summary::block_models(r@),
                memory_summary::candidate_models(self@.kept),
            ),
    {
        memory_summary::group_daily_candidates(self.kept.as_slice())
    }
}

fn holds_true(answered: &Vec<bool>) -> (r: bool)
    ensures
        r == answered@.contains(true),
{
    let n: usize = answered.len();
    for i in 0..n
        invariant
            n == answered@.len(),
            forall|k: int| 0 <= k < i ==> !(#[trigger] answered@[k]),
    {
        if answered[i] {
            assert(answered@[i as int]);
            return true;
        }
    }
    false
}

fn lookups_of(candidate: &SummaryCandidate, becomes_fact: bool) -> (r: Vec<LookupKind>)
    ensures
        r@ == lookups(*candidate, becomes_fact),
{
    let mut kinds: Vec<LookupKind> = Vec::new();
    if normalized_duplicate_key(candidate).is_none() {
        return kinds;
    }
    if becomes_fact {
        kinds.push(LookupKind::Fact);
    } else {
        kinds.push(LookupKind::Daily);
        if candidate.classification == SummaryClass::Memory {
            kinds.push(LookupKind::Memory);
        }
    }
    assert(kinds@ =~= lookups(*candidate, becomes_fact));
    kinds
}

/// The fact as which a candidate is stored.
pub fn fact_from_candidate(candidate: &SummaryCandidate, id: String, salience: i64) -> (r: Fact)
    ensures
        r.id == id,
        r.content@ == candidate.content@,
        r.fact_type@ == fact_type_of(*candidate),
        r.occurred_at is None,
        r.salience == salience,
{
    Fact {
        id,
        content: candidate.content.clone(),
        fact_type: normalized_candidate_fact_type(candidate).to_owned(),
        occurred_at: None,
        salience,
    }
}

// What the decisions keep

/// Only what is remembered nowhere is kept for the daily notes, each as a note:
/// as long as work goes on no kept note repeats a memory written on request or
/// an item of the long-term memory.
pub open spec fn notes_are_new(m: RunModel) -> bool {
    forall|i: int|
        0 <= i < m.kept.len() ==> {
            let note = #[trigger] m.kept[i];
            &&& note.classification == SummaryClass::Daily
            &&& !remembered(note.content@, Seq::empty(), m.writes, m.memory_items)
        }
}

/// Kept notes stay new, and the candidates and what is remembered stay as they are.
pub proof fn settling_keeps_notes_new(m: RunModel)
    requires
        notes_are_new(m),
    ensures
        notes_are_new(settled(m).0),
        settled(m).0.facts == m.facts,
        settled(m).0.notes == m.notes,
        settled(m).0.active_facts == m.active_facts,
        settled(m).0.writes == m.writes,
        settled(m).0.memory_items == m.memory_items,
        settled(m).0.position >= m.position,
    decreases m.total() - m.position,
{
    if m.position < m.total() {
        match candidate_step(m) {
            CandidateStep::Skip => {
                settling_keeps_notes_new(m.next());
            },
            CandidateStep::LookUp(kind) => {},
            CandidateStep::Keep => {
                if m.position >= m.facts.len() {
                    let after = m.with_note().next();
                    assert(notes_are_new(after)) by {
                        assert forall|i: int| 0 <= i < after.kept.len() implies {
                            let note = #[trigger] after.kept[i];
                            &&& note.classification == SummaryClass::Daily
                            &&& !remembered(
                                note.content@,
                                Seq::empty(),
                                after.writes,
                                after.memory_items,
                            )
                        } by {
                            if i < m.kept.len() {
                                assert(after.kept[i] == m.kept[i]);
                            } else {
                                assert(after.kept[i].content == m.current().content);
                            }
                        }
                    }
                    settling_keeps_notes_new(after);
                }
            },
        }
    }
}

/// When work ends every candidate has been decided on.
pub proof fn finishing_means_all_decided(m: RunModel)
    ensures
        settled(m).1 == SummaryAction::Finish ==> settled(m).0.position >= m.total(),
        settled(m).1 == SummaryAction::InsertFact ==> settled(m).0.position < m.facts.len(),
    decreases m.total() - m.position,
{
    if m.position < m.total() {
        match candidate_step(m) {
            CandidateStep::Skip => {
                finishing_means_all_decided(m.next());
            },
            CandidateStep::LookUp(kind) => {},
            CandidateStep::Keep => {
                if m.position >= m.facts.len() {
                    finishing_means_all_decided(m.with_note().next());
                }
            },
        }
    }
}

/// What was stored as a fact is neither stored nor noted again: a later candidate
/// with the same content is skipped.
pub proof fn stored_fact_is_remembered(m: RunModel, fact: Fact)
    requires
        m.active_facts.contains(fact),
        fact.content@ == m.current().content@,
        fact.content@.len() > 0,
    ensures
        candidate_step(m) == CandidateStep::Skip,
{
    let k = choose|k: int| 0 <= k < m.active_facts.len() && m.active_facts[k] == fact;
    memory_retrieval::near_duplicates_reflexive(memory_retrieval::normalized(fact.content@));
    assert(memory_retrieval::matching_content(
        m.active_facts[k].content@,
        m.current().content@,
    ));
}

/// A record that was found settles a candidate: nothing more is looked up for it.
pub proof fn found_record_settles(m: RunModel)
    ensures
        candidate_step((RunModel { answered: m.answered.push(true), ..m })) == CandidateStep::Skip,
{
    let after = m.answered.push(true);
    assert(after[after.len() - 1]);
}

// How a summary ended

/// How the summary of a conversation ended.
#[derive(Clone, Copy, Debug, PartialEq, Eq, Structural)]
pub enum SummaryOutcome {
    NothingSaid,
    ModelFailed,
    Unreadable,
    NothingKept,
    DailyWriteFailed,
    Unchanged,
    Written,
}

/// The conversation needs no further summary.
pub fn summary_succeeded(outcome: SummaryOutcome) -> (r: bool)
    ensures
        r == (outcome == SummaryOutcome::NothingKept || outcome == SummaryOutcome::Unchanged
            || outcome == SummaryOutcome::Written),
{
    match outcome {
        SummaryOutcome::NothingKept | SummaryOutcome::Unchanged | SummaryOutcome::Written => true,
        _ => false,
    }
}

/// How writing the daily notes ended, by the text that was to be written and
/// whether that succeeded.
pub fn daily_outcome(kept: usize, rendered: &Option<String>, write_failed: bool) -> (r:
    SummaryOutcome)
    ensures
        r == (if kept == 0 {
            SummaryOutcome::NothingKept
        } else if write_failed {
            SummaryOutcome::DailyWriteFailed
        } else if rendered is None {
            SummaryOutcome::Unchanged
        } else {
            SummaryOutcome::Written
        }),
{
    if kept == 0 {
        SummaryOutcome::NothingKept
    } else if write_failed {
        SummaryOutcome::DailyWriteFailed
    } else if rendered.is_none() {
        SummaryOutcome::Unchanged
    } else {
        SummaryOutcome::Written
    }
}

// Names of what is written

pub open spec fn daily_path_text(date: CalendarDate) -> Seq<char> {
    "memory/"@ + dates::full_date_text(date) + ".md"@
}

/// The file of the daily notes.
pub fn daily_path(date: CalendarDate) -> (r: String)
    requires
        date.valid(),
    ensures
        r@ == daily_path_text(date),
{
    let mut out = "memory/".to_owned();
    out.append(dates::date_label(date).as_str());
    out.append(".md");
    out
}

/// The place of a canonical record within a file.
pub fn section_reference(path: &str, canonical_id: &str) -> (r: String)
    ensures
        r@ == path@ + "#"@ + canonical_id@,
{
    let mut out = path.to_owned();
    out.append("#");
    out.append(canonical_id);
    out
}

/// The start of the places within the transcript of a session.
pub fn session_reference_prefix(session_id: &str) -> (r: String)
    ensures
        r@ == "sessions/"@ + session_id@ + "#"@,
{
    let mut out = "sessions/".to_owned();
    out.append(session_id);
    out.append("#");
    out
}

/// A link from a canonical record to a place where its content stands.
#[derive(Clone, Debug)]
pub enum LineageLink {
    /// A section of the daily notes.
    Section { reference: String },
    /// The matching parts of a transcript, as raw material.
    SessionChunks { prefix: String },
    /// The matching parts of the daily notes, as a summary.
    DailyChunks { path: String },
}

/// What a link says.
pub enum LinkModel {
    Section(Seq<char>),
    SessionChunks(Seq<char>),
    DailyChunks(Seq<char>),
}

impl View for LineageLink {
    type V = LinkModel;

    open spec fn view(&self) -> LinkModel {
        match *self {
            LineageLink::Section { reference } => LinkModel::Section(reference@),
            LineageLink::SessionChunks { prefix } => LinkModel::SessionChunks(prefix@),
            LineageLink::DailyChunks { path } => LinkModel::DailyChunks(path@),
        }
    }
}

impl LineageLink {
    /// How the place bears on the record.
    pub fn relation(&self) -> (r: &'static str)
        ensures
            r@ == (if self@ is SessionChunks {
                "raw"@
            } else {
                "summary"@
            }),
    {
        match self {
            LineageLink::SessionChunks { .. } => "raw",
            _ => "summary",
        }
    }
}

pub open spec fn link_models(s: Seq<LineageLink>) -> Seq<LinkModel> {
    Seq::new(s.len(), |i: int| s[i]@)
}

/// The links of a daily note: to its section and to the transcript, and to the
/// indexed notes once those are indexed again.
pub open spec fn note_links(
    path: Seq<char>,
    session_id: Seq<char>,
    canonical_id: Seq<char>,
    daily_reindexed: bool,
) -> Seq<LinkModel> {
    seq![
        LinkModel::Section(path + "#"@ + canonical_id),
        LinkModel::SessionChunks("sessions/"@ + session_id + "#"@),
    ] + (if daily_reindexed {
        seq![LinkModel::DailyChunks(path)]
    } else {
        Seq::empty()
    })
}

pub fn lineage_links(path: &str, session_id: &str, canonical_id: &str, daily_reindexed: bool) -> (r:
    Vec<LineageLink>)
    ensures
        link_models(r@) == note_links(path@, session_id@, canonical_id@, daily_reindexed),
{
    let mut links: Vec<LineageLink> = Vec::new();
    links.push(LineageLink::Section { reference: section_reference(path, canonical_id) });
    links.push(LineageLink::SessionChunks { prefix: session_reference_prefix(session_id) });
    if daily_reindexed {
        links.push(LineageLink::DailyChunks { path: path.to_owned() });
    }
    assert(link_models(links@) =~= note_links(path@, session_id@, canonical_id@, daily_reindexed));
    links
}

// Conflicts between facts

pub open spec fn correction_phrase(content: Seq<char>, lower: Seq<char>) -> bool {
    ||| text::contains(content, "不再"@)
    ||| text::contains(content, "改为"@)
    ||| text::contains(content, "已切换到"@)
    ||| text::contains(content, "改成"@)
    ||| text::contains(content, "换成"@)
    ||| text::contains(content, "已放弃"@)
    ||| text::contains(content, "不用了"@)
    ||| text::contains(lower, "no longer"@)
    ||| text::contains(lower, "switched to"@)
    ||| text::contains(lower, "changed to"@)
    ||| text::contains(lower, "moved to"@)
    ||| text::contains(lower, "instead of"@)
    ||| text::contains(lower, "replaced with"@)
    ||| text::contains(lower, "stopped using"@)
    ||| text::contains(lower, "quit using"@)
}

/// `content`, which is `lower` in lower case, corrects something said before.
pub fn lowered_is_correction(content: &str, lower: &str) -> (r: bool)
    ensures
        r == correction_phrase(content@, lower@),
{
    text::text_contains(content, "不再") || text::text_contains(content, "改为")
        || text::text_contains(content, "已切换到") || text::text_contains(content, "改成")
        || text::text_contains(content, "换成") || text::text_contains(content, "已放弃")
        || text::text_contains(content, "不用了") || text::text_contains(lower, "no longer")
        || text::text_contains(lower, "switched to") || text::text_contains(lower, "changed to")
        || text::text_contains(lower, "moved to") || text::text_contains(lower, "instead of")
        || text::text_contains(lower, "replaced with") || text::text_contains(
        lower,
        "stopped using",
    ) || text::text_contains(lower, "quit using")
}

pub fn contains_correction_phrase(content: &str) -> (r: bool)
    ensures
        r == correction_phrase(content@, text::lowercase(content@)),
{
    let lower = text::to_lowercase(content);
    lowered_is_correction(content, lower.as_str())
}

/// More than three fifths of the words of two facts are common to both.
pub open spec fn words_overlap(a: Set<Seq<char>>, b: Set<Seq<char>>) -> bool {
    5 * a.intersect(b).len() > 3 * a.union(b).len()
}

proof fn union_len(a: Set<Seq<char>>, b: Set<Seq<char>>)
    requires
        a.finite(),
        b.finite(),
    ensures
        a.union(b).len() == a.len() + b.len() - a.intersect(b).len(),
        a.intersect(b).len() <= a.len(),
{
    vstd::set_lib::lemma_set_intersect_union_lens(a, b);
    vstd::set_lib::lemma_len_intersect(a, b);
}

pub fn fact_words_overlap(a: &TokenSet, b: &TokenSet) -> (r: bool)
    ensures
        r == words_overlap(a@, b@),
{
    let common: usize = a.common_count(b);
    let first: usize = a.len();
    let second: usize = b.len();
    proof {
        union_len(a@, b@);
    }
    5 * (common as u128) > 3 * ((first as u128) + (second as u128) - (common as u128))
}

/// A new fact replaces an existing one: the two are of one type, their meanings
/// are close, and the new one corrects, or shares most of its words.
pub open spec fn conflicts(
    new_content: Seq<char>,
    lower: Seq<char>,
    new_fact_type: Seq<char>,
    existing: Fact,
    meanings_close: Option<bool>,
    words_close: bool,
) -> bool {
    &&& meanings_close == Some(true)
    &&& existing.fact_type@ == new_fact_type
    &&& correction_phrase(new_content, lower) || words_close
}

pub fn boundary_flush_conflict_passes_two_step(
    new_content: &str,
    new_fact_type: &str,
    existing: &Fact,
    meanings_close: Option<bool>,
    words_close: bool,
) -> (r: bool)
    ensures
        r == conflicts(
            new_content@,
            text::lowercase(new_content@),
            new_fact_type@,
            *existing,
            meanings_close,
            words_close,
        ),
{
    match meanings_close {
        Some(true) => {
            if !text::same_text(existing.fact_type.as_str(), new_fact_type) {
                return false;
            }
            contains_correction_phrase(new_content) || words_close
        },
        _ => false,
    }
}

/// The texts whose meanings are held against each other: the new content, then
/// those of the facts.
pub fn conflict_texts(new_content: &str, active_facts: &[Fact]) -> (r: Vec<String>)
    ensures
        text::views(r@) == seq![new_content@] + Seq::new(
            active_facts@.len(),
            |i: int| active_facts@[i].content@,
        ),
{
    let mut out: Vec<String> = Vec::new();
    out.push(new_content.to_owned());
    let n: usize = active_facts.len();
    let ghost all = Seq::new(active_facts@.len(), |i: int| active_facts@[i].content@);
    let ghost first = seq![new_content@];
    assert(text::views(out@) == first + all.take(0));
    for i in 0..n
        invariant
            n == active_facts@.len(),
            all == Seq::new(active_facts@.len(), |i: int| active_facts@[i].content@),
            text::views(out@) == first + all.take(i as int),
    {
        let content = active_facts[i].content.clone();
        proof {
            text::views_push(out@, content);
        }
        out.push(content);
        assert(first + all.take(i + 1) == (first + all.take(i as int)).push(all[i as int]));
    }
    assert(all.take(n as int) == all);
    out
}

/// How close an existing fact is to a new one.
#[derive(Clone, Copy, Debug, PartialEq, Eq, Structural)]
pub struct Closeness {
    pub meanings_close: bool,
    pub words_close: bool,
}

/// The first fact that a new one replaces; none where there is not one closeness
/// for each fact.
pub fn find_boundary_flush_conflict(
    new_content: &str,
    new_fact_type: &str,
    active_facts: &[Fact],
    closeness: &[Closeness],
) -> (r: Option<usize>)
    ensures
        match r {
            Some(i) => {
                &&& i < active_facts@.len() && active_facts@.len() == closeness@.len()
                &&& conflict_at(
                    new_content@,
                    text::lowercase(new_content@),
                    new_fact_type@,
                    active_facts@,
                    closeness@,
                    i as int,
                )
                &&& forall|k: int|
                    0 <= k < i ==> !#[trigger] conflict_at(
                        new_content@,
                        text::lowercase(new_content@),
                        new_fact_type@,
                        active_facts@,
                        closeness@,
                        k,
                    )
            },
            None => active_facts@.len() != closeness@.len() || forall|k: int|
                0 <= k < active_facts@.len() ==> !#[trigger] conflict_at(
                    new_content@,
                    text::lowercase(new_content@),
                    new_fact_type@,
                    active_facts@,
                    closeness@,
                    k,
                ),
        },
{
    if active_facts.len() != closeness.len() {
        return None;
    }
    let n: usize = active_facts.len();
    for i in 0..n
        invariant
            n == active_facts@.len(),
            n == closeness@.len(),
            forall|k: int|
                0 <= k < i ==> !#[trigger] conflict_at(
                    new_content@,
                    text::lowercase(new_content@),
                    new_fact_type@,
                    active_facts@,
                    closeness@,
                    k,
                ),
    {
        if boundary_flush_conflict_passes_two_step(
            new_content,
            new_fact_type,
            &active_facts[i],
            Some(closeness[i].meanings_close),
            closeness[i].words_close,
        ) {
            return Some(i);
        }
    }
    None
}

pub open spec fn conflict_at(
    new_content: Seq<char>,
    lower: Seq<char>,
    new_fact_type: Seq<char>,
    facts: Seq<Fact>,
    closeness: Seq<Closeness>,
    i: int,
) -> bool {
    conflicts(
        new_content,
        lower,
        new_fact_type,
        facts[i],
        Some(closeness[i].meanings_close),
        closeness[i].words_close,
    )
}

// What a summary keeps

/// Every message of a conversation is told to the model that summarises it, with
/// the one who said it, and in order.
pub proof fn everything_said_is_summarised(
    messages: Seq<SessionMessage>,
    more: Seq<SessionMessage>,
    i: int,
)
    ensures
        spoken_lines(messages + more) == spoken_lines(messages) + spoken_lines(more),
        0 <= i < messages.len() ==> text::contains(
            text::joined(spoken_lines(messages), "\n"@),
            messages[i].role@ + ": "@ + messages[i].content@,
        ),
{
    assert(spoken_lines(messages + more) =~= spoken_lines(messages) + spoken_lines(more));
    if 0 <= i < messages.len() {
        text::joined_holds_its_parts(spoken_lines(messages), "\n"@, i);
    }
}

/// A key counts without the white space around it, and a blank one not at all.
pub proof fn keys_count_without_blanks(
    candidate: SummaryCandidate,
    a: Seq<char>,
    key: Seq<char>,
    b: Seq<char>,
)
    requires
        candidate.duplicate_key is Some,
        (candidate.duplicate_key->0)@ == a + key + b,
        forall|i: int| 0 <= i < a.len() ==> text::whitespace(#[trigger] a[i]),
        forall|i: int| 0 <= i < b.len() ==> text::whitespace(#[trigger] b[i]),
        key.len() > 0,
        !text::whitespace(key[0]),
        !text::whitespace(key.last()),
    ensures
        own_key(candidate) == Some(key),
{
    text::trim_of_padded(a, key, b);
}

/// A type of facts that is known is kept, and any other becomes a decision.
pub proof fn known_types_are_kept(candidate: SummaryCandidate)
    ensures
        fact_type_of(candidate) == "decision"@ || (candidate.fact_type matches Some(t)
            && fact_type_of(candidate) == text::trim(t@)),
        candidate.fact_type matches Some(t) ==> {
            let own = text::trim(t@);
            &&& own == "preference"@ || own == "event"@ || own == "person"@ || own == "rule"@ || own
                == "procedure"@ ==> fact_type_of(candidate) == own
            &&& own != "preference"@ && own != "event"@ && own != "person"@ && own != "rule"@ && own
                != "procedure"@ ==> fact_type_of(candidate) == "decision"@
        },
        candidate.fact_type is None ==> fact_type_of(candidate) == "decision"@,
{
}

/// What a fact, a memory written on request or an item says is remembered; what is
/// remembered stays so with more of them; and where there is none nothing is.
pub proof fn what_is_said_is_remembered(
    content: Seq<char>,
    facts: Seq<Fact>,
    writes: Seq<RecentExplicitMemoryWrite>,
    items: Seq<Seq<char>>,
    fact: Fact,
    i: int,
)
    ensures
        !remembered(content, Seq::empty(), Seq::empty(), Seq::empty()),
        content.len() == 0 ==> !remembered(content, facts, writes, items),
        content.len() > 0 && 0 <= i < facts.len() && facts[i].content@ == content ==> remembered(
            content,
            facts,
            writes,
            items,
        ),
        content.len() > 0 && 0 <= i < writes.len() && writes[i].summary@ == content ==> remembered(
            content,
            facts,
            writes,
            items,
        ),
        content.len() > 0 && 0 <= i < items.len() && items[i] == content ==> remembered(
            content,
            facts,
            writes,
            items,
        ),
        remembered(content, facts, writes, items) ==> remembered(
            content,
            facts.push(fact),
            writes,
            items,
        ),
        remembered(content, facts.push(fact), writes, items) ==> remembered(
            content,
            facts,
            writes,
            items,
        ) || memory_retrieval::matching_content(fact.content@, content),
{
    memory_retrieval::matching_ignores_case_and_punctuation(content, content);
    let more = facts.push(fact);
    if 0 <= i < facts.len() && facts[i].content@ == content {
        assert(memory_retrieval::matching_content(facts[i].content@, content) == (content.len()
            > 0));
    }
    if 0 <= i < writes.len() && writes[i].summary@ == content {
        assert(memory_retrieval::matching_content(writes[i].summary@, content) == (content.len()
            > 0));
    }
    if 0 <= i < items.len() && items[i] == content {
        assert(memory_retrieval::matching_content(items[i], content) == (content.len() > 0));
    }
    if exists|k: int|
        0 <= k < facts.len() && memory_retrieval::matching_content(
            (#[trigger] facts[k]).content@,
            content,
        ) {
        let k = choose|k: int|
            0 <= k < facts.len() && memory_retrieval::matching_content(
                (#[trigger] facts[k]).content@,
                content,
            );
        assert(more[k] == facts[k]);
    }
    if exists|k: int|
        0 <= k < more.len() && memory_retrieval::matching_content(
            (#[trigger] more[k]).content@,
            content,
        ) {
        let k = choose|k: int|
            0 <= k < more.len() && memory_retrieval::matching_content(
                (#[trigger] more[k]).content@,
                content,
            );
        if k < facts.len() {
            assert(facts[k] == more[k]);
        }
    }
}

/// A candidate with a key is looked up where it would be stored: a fact among the
/// facts, a note among the daily notes, and one of long-term memory there too. A
/// candidate without a key is looked up nowhere.
pub proof fn candidates_are_looked_up_by_key(candidate: SummaryCandidate)
    ensures
        own_key(candidate) is None ==> lookups(candidate, true).len() == 0 && lookups(
            candidate,
            false,
        ).len() == 0,
        own_key(candidate) is Some ==> {
            &&& lookups(candidate, true) == seq![LookupKind::Fact]
            &&& lookups(candidate, false)[0] == LookupKind::Daily
            &&& !lookups(candidate, false).contains(LookupKind::Fact)
            &&& lookups(candidate, false).contains(LookupKind::Memory) <==> candidate.classification
                == SummaryClass::Memory
        },
{
    let long = seq![LookupKind::Daily, LookupKind::Memory];
    assert(long[1] == LookupKind::Memory);
}

/// A candidate that is remembered nowhere and was looked up in vain is kept: it is
/// stored as a fact, or stands next among the notes, with all that it says.
pub proof fn new_candidates_are_kept(m: RunModel)
    requires
        0 <= m.position < m.total(),
        !remembered(m.current().content@, m.active_facts, m.writes, m.memory_items),
        !m.answered.contains(true),
        m.answered.len() >= lookups(m.current(), m.position < m.facts.len()).len(),
    ensures
        m.position < m.facts.len() ==> settled(m) == (m, SummaryAction::InsertFact),
        m.position >= m.facts.len() ==> {
            let kept = settled(m).0.kept;
            &&& kept.len() > m.kept.len()
            &&& kept.take(m.kept.len() as int) == m.kept
            &&& kept[m.kept.len() as int].content == m.current().content
            &&& kept[m.kept.len() as int].topic == m.current().topic
            &&& kept[m.kept.len() as int].duplicate_key == m.current().duplicate_key
            &&& kept[m.kept.len() as int].importance_bits == m.current().importance_bits
            &&& kept[m.kept.len() as int].classification == SummaryClass::Daily
        },
{
    if m.position >= m.facts.len() {
        let next = m.with_note().next();
        kept_notes_stay(next);
        let kept = settled(m).0.kept;
        assert(kept.take(next.kept.len() as int)[m.kept.len() as int] == as_note(m.current()));
        assert(kept.take(m.kept.len() as int) =~= kept.take(next.kept.len() as int).take(
            m.kept.len() as int,
        ));
        assert(next.kept.take(m.kept.len() as int) =~= m.kept);
    }
}

/// A candidate that is remembered, or of which a record was found, is passed over;
/// and one with something left to look up waits for that.
pub proof fn known_candidates_are_passed_over(m: RunModel)
    requires
        0 <= m.position < m.total(),
    ensures
        remembered(m.current().content@, m.active_facts, m.writes, m.memory_items)
            || m.answered.contains(true) ==> settled(m) == settled(m.next()),
        !remembered(m.current().content@, m.active_facts, m.writes, m.memory_items)
            && !m.answered.contains(true) && m.answered.len() < lookups(
            m.current(),
            m.position < m.facts.len(),
        ).len() ==> settled(m) == (
            m,
            SummaryAction::LookUp(
                lookups(m.current(), m.position < m.facts.len())[m.answered.len() as int],
            ),
        ),
        m.next().position == m.position + 1 && m.next().answered.len() == 0 && m.next().kept
            == m.kept,
{
}

proof fn kept_notes_stay(m: RunModel)
    ensures
        settled(m).0.kept.len() >= m.kept.len(),
        settled(m).0.kept.take(m.kept.len() as int) == m.kept,
    decreases m.total() - m.position,
{
    assert(m.kept.take(m.kept.len() as int) =~= m.kept);
    if m.position < m.total() {
        match candidate_step(m) {
            CandidateStep::Skip => {
                kept_notes_stay(m.next());
            },
            CandidateStep::LookUp(_) => {},
            CandidateStep::Keep => if m.position >= m.facts.len() {
                let next = m.with_note().next();
                kept_notes_stay(next);
                let kept = settled(next).0.kept;
                assert(kept.take(m.kept.len() as int) =~= kept.take(next.kept.len() as int).take(
                    m.kept.len() as int,
                ));
                assert(next.kept.take(m.kept.len() as int) =~= m.kept);
            },
        }
    }
}

/// Nothing is noted that was not a candidate for the notes.
pub proof fn notes_come_from_candidates(m: RunModel, k: int)
    requires
        0 <= m.position,
        m.kept.len() <= k < settled(m).0.kept.len(),
    ensures
        exists|i: int|
            0 <= i < m.notes.len() && (#[trigger] m.notes[i]).content == settled(
                m,
            ).0.kept[k].content && m.notes[i].topic == settled(m).0.kept[k].topic,
    decreases m.total() - m.position,
{
    if m.position < m.total() {
        match candidate_step(m) {
            CandidateStep::Skip => {
                notes_come_from_candidates(m.next(), k);
            },
            CandidateStep::LookUp(_) => {},
            CandidateStep::Keep => if m.position >= m.facts.len() {
                let next = m.with_note().next();
                if k >= next.kept.len() {
                    notes_come_from_candidates(next, k);
                } else {
                    kept_notes_stay(next);
                    let kept = settled(next).0.kept;
                    assert(kept.take(next.kept.len() as int)[k] == as_note(m.current()));
                    assert(m.notes[m.position - m.facts.len()].content == kept[k].content);
                }
            },
        }
    }
}

/// A phrase of correction counts wherever it stands in a text.
pub proof fn phrases_of_correction(
    a: Seq<char>,
    mark: Seq<char>,
    b: Seq<char>,
    other: Seq<char>,
)
    ensures
        mark == "不再"@ || mark == "改为"@ || mark == "已切换到"@ || mark == "改成"@ || mark
            == "换成"@ || mark == "已放弃"@ || mark == "不用了"@ ==> correction_phrase(
            a + mark + b,
            other,
        ),
        mark == "no longer"@ || mark == "switched to"@ || mark == "changed to"@ || mark
            == "moved to"@ || mark == "instead of"@ || mark == "replaced with"@ || mark
            == "stopped using"@ || mark == "quit using"@ ==> correction_phrase(
            other,
            a + mark + b,
        ),
{
    text::middle_occurs(a, mark, b);
}

/// Words overlap the same way round or the other, fully with themselves, and never
/// where none is common.
pub proof fn words_overlap_both_ways(a: Set<Seq<char>>, b: Set<Seq<char>>)
    requires
        a.finite(),
        b.finite(),
    ensures
        words_overlap(a, b) == words_overlap(b, a),
        a.len() > 0 ==> words_overlap(a, a),
        a.disjoint(b) ==> !words_overlap(a, b),
        a.subset_of(b) ==> (words_overlap(a, b) <==> 5 * a.len() > 3 * b.len()),
{
    assert(a.intersect(b) =~= b.intersect(a));
    assert(a.union(b) =~= b.union(a));
    assert(a.intersect(a) =~= a);
    assert(a.union(a) =~= a);
    if a.disjoint(b) {
        assert(a.intersect(b) =~= Set::<Seq<char>>::empty());
    }
    if a.subset_of(b) {
        assert(a.intersect(b) =~= a);
        assert(a.union(b) =~= b);
    }
}

/// A fact is replaced only by one of its type and of a close meaning, and then
/// where that corrects or shares most of its words.
pub proof fn facts_are_replaced_by_their_like(
    content: Seq<char>,
    lower: Seq<char>,
    fact_type: Seq<char>,
    existing: Fact,
    close: Option<bool>,
    words_close: bool,
)
    ensures
        existing.fact_type@ != fact_type ==> !conflicts(
            content,
            lower,
            fact_type,
            existing,
            close,
            words_close,
        ),
        close != Some(true) ==> !conflicts(
            content,
            lower,
            fact_type,
            existing,
            close,
            words_close,
        ),
        existing.fact_type@ == fact_type ==> conflicts(
            content,
            lower,
            fact_type,
            existing,
            Some(true),
            true,
        ),
        existing.fact_type@ == fact_type ==> (conflicts(
            content,
            lower,
            fact_type,
            existing,
            Some(true),
            false,
        ) <==> correction_phrase(content, lower)),
{
}

/// A daily note is linked to its section, to the transcript of its session, and to
/// the indexed notes exactly once those are indexed again.
pub proof fn notes_are_linked(
    path: Seq<char>,
    session_id: Seq<char>,
    canonical_id: Seq<char>,
    reindexed: bool,
)
    ensures
        ({
            let links = note_links(path, session_id, canonical_id, reindexed);
            &&& links.contains(LinkModel::Section(path + "#"@ + canonical_id))
            &&& links.contains(LinkModel::SessionChunks("sessions/"@ + session_id + "#"@))
            &&& links.contains(LinkModel::DailyChunks(path)) <==> reindexed
            &&& links.len() == if reindexed {
                3nat
            } else {
                2nat
            }
        }),
{
    let links = note_links(path, session_id, canonical_id, reindexed);
    assert(links[0] == LinkModel::Section(path + "#"@ + canonical_id));
    assert(links[1] == LinkModel::SessionChunks("sessions/"@ + session_id + "#"@));
    if reindexed {
        assert(links[2] == LinkModel::DailyChunks(path));
    }
}

/// The notes of a day stand in a file of that day, and two days have two files.
pub proof fn each_day_has_its_file(a: CalendarDate, b: CalendarDate)
    ensures
        daily_path_text(a) == "memory/"@ + dates::full_date_text(a) + ".md"@,
        daily_path_text(a) == daily_path_text(b) ==> dates::full_date_text(a)
            == dates::full_date_text(b),
{
    let x = daily_path_text(a);
    let y = daily_path_text(b);
    let n = "memory/"@.len() as int;
    let m = ".md"@.len() as int;
    assert(x.subrange(n, x.len() - m) =~= dates::full_date_text(a));
    assert(y.subrange(n, y.len() - m) =~= dates::full_date_text(b));
}

/// The kinds of records have the names by which the stores know them.
pub proof fn kinds_have_their_names(kind: LookupKind)
    ensures
        kind == LookupKind::Fact ==> kind.name() == "fact"@,
        kind == LookupKind::Daily ==> kind.name() == "daily"@,
        kind == LookupKind::Memory ==> kind.name() == "memory"@,
{
}

} // verus!
