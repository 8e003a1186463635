//! What the memory tools of an agent answer and remember.

use crate::dates;
use crate::dates::CalendarDate;
use crate::memory_retrieval;
use crate::memory_retrieval::{MemoryFactHit, MemoryHit, MemorySourceKind};
use crate::orchestrator::episode::types::RecentExplicitMemoryWrite;
use crate::orchestrator::messages::Timestamp;
use crate::records::{Fact, SearchResult, TimeRange};
use crate::seqs;
use crate::text;
use vstd::prelude::*;

verus! {

/// The characters of a fact that a search shows.
pub const FACT_SNIPPET_CHARS: usize = 200;

/// The memories written on request that a session keeps in mind.
pub const MAX_EXPLICIT_WRITES: usize = 16;

pub const DEFAULT_SEARCH_RESULTS: u64 = 6;

/// What a tool answers.
#[derive(Clone, Debug)]
pub struct ToolOutput {
    pub content: String,
    pub is_error: bool,
}

pub open spec fn says(output: ToolOutput, content: Seq<char>, is_error: bool) -> bool {
    output.content@ == content && output.is_error == is_error
}

/// A field that a call must give is not there.
#[derive(Clone, Copy, Debug, PartialEq, Eq, Structural)]
pub enum MissingField {
    Query,
    Key,
    Content,
    FactType,
    Reason,
}

impl MissingField {
    pub open spec fn said(self) -> Seq<char> {
        match self {
            MissingField::Query => "missing 'query' field"@,
            MissingField::Key => "missing 'key' field"@,
            MissingField::Content => "missing 'content' field"@,
            MissingField::FactType => "missing 'fact_type' field"@,
            MissingField::Reason => "missing 'reason' field"@,
        }
    }

    pub fn message(self) -> (r: &'static str)
        ensures
            r@ == self.said(),
    {
        match self {
            MissingField::Query => "missing 'query' field",
            MissingField::Key => "missing 'key' field",
            MissingField::Content => "missing 'content' field",
            MissingField::FactType => "missing 'fact_type' field",
            MissingField::Reason => "missing 'reason' field",
        }
    }
}

// Searching

/// A search that a call asks for.
#[derive(Clone, Debug)]
pub struct SearchRequest {
    pub query: String,
    pub max_results: u64,
    pub time_range: Option<TimeRange>,
}

/// Reads the fields of a call to search.
pub fn read_search_request(
    query: Option<String>,
    max_results: Option<u64>,
    time_range: Option<TimeRange>,
) -> (r: Result<SearchRequest, MissingField>)
    ensures
        match r {
            Ok(request) => {
                &&& query == Some(request.query)
                &&& request.max_results == (match max_results {
                    Some(n) => n,
                    None => DEFAULT_SEARCH_RESULTS,
                })
                &&& request.time_range == time_range
            },
            Err(e) => query is None && e == MissingField::Query,
        },
{
    match query {
        None => Err(MissingField::Query),
        Some(query) => Ok(
            SearchRequest {
                query,
                max_results: match max_results {
                    Some(n) => n,
                    None => DEFAULT_SEARCH_RESULTS,
                },
                time_range,
            },
        ),
    }
}

/// The line that shows a hit.
pub open spec fn hit_line(hit: MemoryHit) -> Seq<char> {
    match hit {
        MemoryHit::Fact(hit) => "- [fact:"@ + hit.fact.fact_type@ + "] ["@
            + memory_retrieval::kind_label(MemorySourceKind::Fact) + "] (score: "@
            + hit.score.label@ + ") "@ + text::take_at_most(
            hit.fact.content@,
            FACT_SNIPPET_CHARS as nat,
        ) + (if hit.fact.content@.len() > FACT_SNIPPET_CHARS {
            "..."@
        } else {
            Seq::empty()
        }) + "\n"@,
        MemoryHit::Chunk(hit) => "- ["@ + hit.path@ + ":"@ + text::decimal(hit.start_line as nat)
            + "-"@ + text::decimal(hit.end_line as nat) + "] ["@ + memory_retrieval::kind_label(
            memory_retrieval::chunk_kind(hit.source@, hit.path@),
        ) + "] (score: "@ + hit.score.label@ + ") "@ + hit.snippet@ + "\n"@,
    }
}

pub fn format_memory_hit(hit: &MemoryHit) -> (r: String)
    ensures
        r@ == hit_line(*hit),
{
    match hit {
        MemoryHit::Fact(hit) => {
            let chars = text::chars_of(hit.fact.content.as_str());
            let mut out = "- [fact:".to_owned();
            out.append(hit.fact.fact_type.as_str());
            out.append("] [");
            out.append(memory_retrieval::source_label(MemorySourceKind::Fact));
            out.append("] (score: ");
            out.append(hit.score.label.as_str());
            out.append(") ");
            out.append(
                text::string_of(text::take_chars(chars.as_slice(), FACT_SNIPPET_CHARS)).as_str(),
            );
            let ghost before = out@;
            if chars.len() > FACT_SNIPPET_CHARS {
                out.append("...");
            } else {
                assert(before + Seq::<char>::empty() =~= before);
            }
            out.append("\n");
            out
        },
        MemoryHit::Chunk(hit) => {
            let mut out = "- [".to_owned();
            out.append(hit.path.as_str());
            out.append(":");
            out.append(text::decimal_of(hit.start_line as u128).as_str());
            out.append("-");
            out.append(text::decimal_of(hit.end_line as u128).as_str());
            out.append("] [");
            out.append(
                memory_retrieval::source_label(
                    memory_retrieval::classify_chunk_source(hit.source.as_str(), hit.path.as_str()),
                ),
            );
            out.append("] (score: ");
            out.append(hit.score.label.as_str());
            out.append(") ");
            out.append(hit.snippet.as_str());
            out.append("\n");
            out
        },
    }
}

pub open spec fn hit_lines(hits: Seq<MemoryHit>) -> Seq<char>
    decreases hits.len(),
{
    if hits.len() == 0 {
        Seq::empty()
    } else {
        hit_lines(hits.drop_last()) + hit_line(hits.last())
    }
}

/// The answer to a search that found these hits.
pub fn search_output(hits: &[MemoryHit]) -> (r: ToolOutput)
    ensures
        says(
            r,
            if hits@.len() == 0 {
                "No relevant memories found."@
            } else {
                hit_lines(hits@)
            },
            false,
        ),
{
    if hits.len() == 0 {
        return ToolOutput {
            content: "No relevant memories found.".to_owned(),
            is_error: false,
        };
    }
    let mut output = String::new();
    let n: usize = hits.len();
    for i in 0..n
        invariant
            n == hits@.len(),
            output@ == hit_lines(hits@.take(i as int)),
    {
        assert(hits@.take(i + 1).drop_last() == hits@.take(i as int));
        output.append(format_memory_hit(&hits[i]).as_str());
    }
    assert(hits@.take(n as int) == hits@);
    ToolOutput { content: output, is_error: false }
}

fn failure(what: &str, error: &str) -> (r: ToolOutput)
    ensures
        says(r, what@ + error@, true),
{
    let mut content = what.to_owned();
    content.append(error);
    ToolOutput { content, is_error: true }
}

fn success(what: &str, detail: &str) -> (r: ToolOutput)
    ensures
        says(r, what@ + detail@, false),
{
    let mut content = what.to_owned();
    content.append(detail);
    ToolOutput { content, is_error: false }
}

/// The answer to a search that failed.
pub fn search_failed(error: &str) -> (r: ToolOutput)
    ensures
        says(r, "Search failed: "@ + error@, true),
{
    failure("Search failed: ", error)
}

// Reading

/// Reads the fields of a call to read a memory.
pub fn read_get_request(key: Option<String>) -> (r: Result<String, MissingField>)
    ensures
        match r {
            Ok(k) => key == Some(k),
            Err(e) => key is None && e == MissingField::Key,
        },
{
    match key {
        None => Err(MissingField::Key),
        Some(key) => Ok(key),
    }
}

/// What a key stands for.
#[derive(Clone, Copy, Debug, PartialEq, Eq, Structural)]
pub enum MemoryKey {
    LongTerm,
    Daily(CalendarDate),
    Unknown,
}

/// What a key stands for that a date was read from, or none.
pub open spec fn key_meaning(key: Seq<char>, date: Option<CalendarDate>) -> MemoryKey {
    if key == "MEMORY.md"@ {
        MemoryKey::LongTerm
    } else {
        match date {
            Some(date) => MemoryKey::Daily(date),
            None => MemoryKey::Unknown,
        }
    }
}

pub fn key_with_date(key: &str, date: Option<CalendarDate>) -> (r: MemoryKey)
    ensures
        r == key_meaning(key@, date),
{
    if text::same_text(key, "MEMORY.md") {
        return MemoryKey::LongTerm;
    }
    match date {
        Some(date) => MemoryKey::Daily(date),
        None => MemoryKey::Unknown,
    }
}

pub fn read_memory_key(key: &str) -> (r: MemoryKey)
    ensures
        r == key_meaning(key@, dates::date_by_format(key@, dates::FULL_DATE_FORMAT@)),
{
    key_with_date(key, dates::parse_full_date(key))
}

/// The answer with the long-term memory.
pub fn long_term_output(read: Result<String, String>) -> (r: ToolOutput)
    ensures
        match read {
            Ok(content) => says(r, content@, false),
            Err(error) => says(r, "Failed to read MEMORY.md: "@ + error@, true),
        },
{
    match read {
        Ok(content) => ToolOutput { content, is_error: false },
        Err(error) => failure("Failed to read MEMORY.md: ", error.as_str()),
    }
}

/// The answer with the notes of a day.
pub fn daily_output(key: &str, read: Result<Option<String>, String>) -> (r: ToolOutput)
    ensures
        match read {
            Ok(Some(content)) => says(r, content@, false),
            Ok(None) => says(r, "No daily file for "@ + key@, false),
            Err(error) => says(r, "Failed to read daily file: "@ + error@, true),
        },
{
    match read {
        Ok(Some(content)) => ToolOutput { content, is_error: false },
        Ok(None) => success("No daily file for ", key),
        Err(error) => failure("Failed to read daily file: ", error.as_str()),
    }
}

/// The answer to a key that stands for nothing.
pub fn unknown_key_output(key: &str) -> (r: ToolOutput)
    ensures
        says(
            r,
            "Unknown memory key: "@ + key@ + ". Use 'MEMORY.md' or 'YYYY-MM-DD'."@,
            true,
        ),
{
    let mut content = "Unknown memory key: ".to_owned();
    content.append(key);
    content.append(". Use 'MEMORY.md' or 'YYYY-MM-DD'.");
    ToolOutput { content, is_error: true }
}

// Writing

/// A fact that a call asks to store.
#[derive(Clone, Debug)]
pub struct WriteRequest {
    pub content: String,
    pub fact_type: String,
}

/// Reads the fields of a call to store a fact; the first that is missing is told.
pub fn read_write_request(content: Option<String>, fact_type: Option<String>) -> (r: Result<
    WriteRequest,
    MissingField,
>)
    ensures
        match r {
            Ok(request) => content == Some(request.content) && fact_type == Some(request.fact_type),
            Err(MissingField::Content) => content is None,
            Err(e) => content is Some && fact_type is None && e == MissingField::FactType,
        },
{
    match (content, fact_type) {
        (None, _) => Err(MissingField::Content),
        (Some(_), None) => Err(MissingField::FactType),
        (Some(content), Some(fact_type)) => Ok(WriteRequest { content, fact_type }),
    }
}

/// The first of some texts that says nearly what `content` says.
pub open spec fn first_match(texts: Seq<Seq<char>>, content: Seq<char>) -> Option<Seq<char>>
    decreases texts.len(),
{
    if texts.len() == 0 {
        None
    } else if memory_retrieval::matching_content(texts[0], content) {
        Some(texts[0])
    } else {
        first_match(texts.skip(1), content)
    }
}

pub open spec fn fact_contents(facts: Seq<Fact>) -> Seq<Seq<char>> {
    Seq::new(facts.len(), |i: int| facts[i].content@)
}

/// What is remembered already of a content: the first fact that says it, else
/// the first item of the long-term memory.
pub open spec fn known_as(content: Seq<char>, facts: Seq<Fact>, items: Seq<Seq<char>>) -> Option<
    Seq<char>,
> {
    match first_match(fact_contents(facts), content) {
        Some(s) => Some(s),
        None => first_match(items, content),
    }
}

proof fn first_match_at(texts: Seq<Seq<char>>, content: Seq<char>, i: int)
    requires
        0 <= i < texts.len(),
        memory_retrieval::matching_content(texts[i], content),
        forall|k: int| 0 <= k < i ==> !memory_retrieval::matching_content(#[trigger] texts[k], content),
    ensures
        first_match(texts, content) == Some(texts[i]),
    decreases i,
{
    if i > 0 {
        assert(!memory_retrieval::matching_content(texts[0], content));
        let rest = texts.skip(1);
        assert forall|k: int| 0 <= k < i - 1 implies !memory_retrieval::matching_content(
            #[trigger] rest[k],
            content,
        ) by {
            assert(rest[k] == texts[k + 1]);
        }
        assert(rest[i - 1] == texts[i]);
        first_match_at(rest, content, i - 1);
    }
}

proof fn no_first_match(texts: Seq<Seq<char>>, content: Seq<char>)
    requires
        forall|k: int|
            0 <= k < texts.len() ==> !memory_retrieval::matching_content(#[trigger] texts[k], content),
    ensures
        first_match(texts, content) is None,
    decreases texts.len(),
{
    if texts.len() > 0 {
        let rest = texts.skip(1);
        assert forall|k: int| 0 <= k < rest.len() implies !memory_retrieval::matching_content(
            #[trigger] rest[k],
            content,
        ) by {
            assert(rest[k] == texts[k + 1]);
        }
        no_first_match(rest, content);
    }
}

/// What is remembered already of a content.
pub fn already_remembered(content: &str, active_facts: &[Fact], memory_items: &[String]) -> (r:
    Option<String>)
    ensures
        text::opt_view(r) == known_as(content@, active_facts@, text::views(memory_items@)),
{
    let ghost contents = fact_contents(active_facts@);
    match memory_retrieval::find_matching_fact(active_facts, content) {
        Some(fact) => {
            proof {
                let i = choose|i: int|
                    {
                        &&& 0 <= i < active_facts@.len()
                        &&& #[trigger] active_facts@[i] == *fact
                        &&& memory_retrieval::matching_content(
                            active_facts@[i].content@,
                            content@,
                        )
                        &&& forall|k: int|
                            0 <= k < i ==> !memory_retrieval::matching_content(
                                #[trigger] active_facts@[k].content@,
                                content@,
                            )
                    };
                assert forall|k: int| 0 <= k < i implies !memory_retrieval::matching_content(
                    #[trigger] contents[k],
                    content@,
                ) by {
                    assert(contents[k] == active_facts@[k].content@);
                }
                first_match_at(contents, content@, i);
            }
            return Some(fact.content.clone());
        },
        None => {
            proof {
                assert forall|k: int| 0 <= k < contents.len() implies !memory_retrieval::matching_content(
                    #[trigger] contents[k],
                    content@,
                ) by {
                    assert(contents[k] == active_facts@[k].content@);
                }
                no_first_match(contents, content@);
            }
        },
    }
    let n: usize = memory_items.len();
    let ghost items = text::views(memory_items@);
    for i in 0..n
        invariant
            n == memory_items@.len(),
            items == text::views(memory_items@),
            first_match(fact_contents(active_facts@), content@) is None,
            forall|k: int|
                0 <= k < i ==> !memory_retrieval::matching_content(#[trigger] items[k], content@),
    {
        assert(items[i as int] == memory_items@[i as int]@);
        if memory_retrieval::is_matching_memory_content(memory_items[i].as_str(), content) {
            proof {
                first_match_at(items, content@, i as int);
            }
            return Some(memory_items[i].clone());
        }
    }
    proof {
        no_first_match(items, content@);
    }
    None
}

/// The answer where a content is remembered already.
pub fn already_remembered_output(existing: &str) -> (r: ToolOutput)
    ensures
        says(r, "Already remembered: "@ + existing@, false),
{
    success("Already remembered: ", existing)
}

/// The answer where a content was to be stored.
pub fn write_output(content: &str, stored: Result<(), String>) -> (r: ToolOutput)
    ensures
        match stored {
            Ok(_) => says(r, "Remembered: "@ + content@, false),
            Err(error) => says(r, "Failed to store fact: "@ + error@, true),
        },
{
    match stored {
        Ok(_) => success("Remembered: ", content),
        Err(error) => failure("Failed to store fact: ", error.as_str()),
    }
}

/// What was written once is not written again: a content that is among the facts
/// is answered as remembered.
pub proof fn writing_is_idempotent(content: Seq<char>, facts: Seq<Fact>, items: Seq<Seq<char>>, i: int)
    requires
        0 <= i < facts.len(),
        facts[i].content@ == content,
        content.len() > 0,
    ensures
        known_as(content, facts, items) is Some,
{
    let contents = fact_contents(facts);
    if first_match(contents, content) is None {
        memory_retrieval::near_duplicates_reflexive(memory_retrieval::normalized(content));
        assert(memory_retrieval::matching_content(contents[i], content));
        a_match_is_found(contents, content, i);
    }
}

proof fn a_match_is_found(texts: Seq<Seq<char>>, content: Seq<char>, i: int)
    requires
        0 <= i < texts.len(),
        memory_retrieval::matching_content(texts[i], content),
    ensures
        first_match(texts, content) is Some,
    decreases i,
{
    if i > 0 && !memory_retrieval::matching_content(texts[0], content) {
        assert(texts.skip(1)[i - 1] == texts[i]);
        a_match_is_found(texts.skip(1), content, i - 1);
    }
}

// Markers of what was written

/// A marker says something.
pub open spec fn says_something(marker: RecentExplicitMemoryWrite) -> bool {
    marker.summary@.len() > 0
}

/// A marker says nearly what `content` says.
pub open spec fn marked(writes: Seq<RecentExplicitMemoryWrite>, content: Seq<char>) -> bool {
    exists|i: int|
        0 <= i < writes.len() && memory_retrieval::matching_content(
            (#[trigger] writes[i]).summary@,
            content,
        )
}

fn keep_saying(writes: &Vec<RecentExplicitMemoryWrite>) -> (r: Vec<RecentExplicitMemoryWrite>)
    ensures
        r@ == writes@.filter(|w: RecentExplicitMemoryWrite| says_something(w)),
{
    let mut out: Vec<RecentExplicitMemoryWrite> = Vec::new();
    let n: usize = writes.len();
    let ghost keep = |w: RecentExplicitMemoryWrite| says_something(w);
    proof {
        seqs::filter_start(writes@, keep);
    }
    for i in 0..n
        invariant
            n == writes@.len(),
            keep == (|w: RecentExplicitMemoryWrite| says_something(w)),
            out@ == writes@.take(i as int).filter(keep),
    {
        proof {
            seqs::filter_step(writes@, keep, i as int);
        }
        if !writes[i].summary.as_str().is_empty() {
            out.push(writes[i].copy());
        }
    }
    assert(writes@.take(n as int) == writes@);
    out
}

/// The markers of a session with one more: those that say something, the new one
/// behind them, and of all these the newest. `None` where nothing is to be
/// marked: the fact says nothing, or a marker says it already.
pub fn with_explicit_write(
    writes: &Vec<RecentExplicitMemoryWrite>,
    fact: &Fact,
    interaction_count: u64,
    now: Timestamp,
) -> (r: Option<Vec<RecentExplicitMemoryWrite>>)
    ensures
        r is None == (fact.content@.len() == 0 || marked(writes@, fact.content@)),
        r matches Some(after) ==> {
            let kept = writes@.filter(|w: RecentExplicitMemoryWrite| says_something(w));
            let from = if kept.len() + 1 > MAX_EXPLICIT_WRITES {
                kept.len() + 1 - MAX_EXPLICIT_WRITES
            } else {
                0
            };
            &&& after@.len() == kept.len() + 1 - from
            &&& after@.drop_last() == kept.skip(from)
            &&& is_marker(after@.last(), *fact, interaction_count, now)
        },
{
    if fact.content.as_str().is_empty() {
        return None;
    }
    let n: usize = writes.len();
    for i in 0..n
        invariant
            n == writes@.len(),
            forall|k: int|
                0 <= k < i ==> !memory_retrieval::matching_content(
                    (#[trigger] writes@[k]).summary@,
                    fact.content@,
                ),
    {
        if memory_retrieval::is_matching_memory_content(
            writes[i].summary.as_str(),
            fact.content.as_str(),
        ) {
            assert(memory_retrieval::matching_content(
                writes@[i as int].summary@,
                fact.content@,
            ));
            return None;
        }
    }
    let mut after = keep_saying(writes);
    let ghost kept = after@;
    let marker = RecentExplicitMemoryWrite {
        turn_index: interaction_count.saturating_add(1),
        memory_ref: fact.id.clone(),
        canonical_id: None,
        summary: fact.content.clone(),
        recorded_at: now,
    };
    let total: usize = after.len();
    if total >= MAX_EXPLICIT_WRITES {
        let from: usize = total - (MAX_EXPLICIT_WRITES - 1);
        let mut newest: Vec<RecentExplicitMemoryWrite> = Vec::new();
        assert(kept.subrange(from as int, from as int) =~= newest@);
        for i in from..total
            invariant
                total == after@.len(),
                from <= total,
                kept == after@,
                newest@ == kept.subrange(from as int, i as int),
        {
            newest.push(after[i].copy());
            assert(kept.subrange(from as int, i + 1) =~= kept.subrange(
                from as int,
                i as int,
            ).push(kept[i as int]));
        }
        newest.push(marker);
        assert(newest@.drop_last() =~= kept.skip(from as int));
        return Some(newest);
    }
    after.push(marker);
    assert(after@.drop_last() =~= kept.skip(0));
    Some(after)
}

/// The marker of a fact that was written in the turn after so many.
pub open spec fn is_marker(
    marker: RecentExplicitMemoryWrite,
    fact: Fact,
    interaction_count: u64,
    now: Timestamp,
) -> bool {
    &&& marker.turn_index == (if interaction_count == u64::MAX {
        u64::MAX
    } else {
        (interaction_count + 1) as u64
    })
    &&& marker.memory_ref@ == fact.id@
    &&& marker.canonical_id is None
    &&& marker.summary@ == fact.content@
    &&& marker.recorded_at == now
}

/// A marker is made once: after it, the same fact is marked no more.
pub proof fn marker_is_made_once(
    writes: Seq<RecentExplicitMemoryWrite>,
    fact: Fact,
    interaction_count: u64,
    now: Timestamp,
)
    requires
        writes.len() > 0,
        is_marker(writes.last(), fact, interaction_count, now),
        fact.content@.len() > 0,
    ensures
        marked(writes, fact.content@),
{
    memory_retrieval::near_duplicates_reflexive(memory_retrieval::normalized(fact.content@));
    let i = writes.len() - 1;
    assert(memory_retrieval::matching_content(writes[i].summary@, fact.content@));
}

// Forgetting

/// A fact that a call asks to retract, and why.
#[derive(Clone, Debug)]
pub struct ForgetRequest {
    pub content: String,
    pub reason: String,
}

/// Reads the fields of a call to retract a fact; the first that is missing is told.
pub fn read_forget_request(content: Option<String>, reason: Option<String>) -> (r: Result<
    ForgetRequest,
    MissingField,
>)
    ensures
        match r {
            Ok(request) => content == Some(request.content) && reason == Some(request.reason),
            Err(MissingField::Content) => content is None,
            Err(e) => content is Some && reason is None && e == MissingField::Reason,
        },
{
    match (content, reason) {
        (None, _) => Err(MissingField::Content),
        (Some(_), None) => Err(MissingField::Reason),
        (Some(content), Some(reason)) => Ok(ForgetRequest { content, reason }),
    }
}

/// What is done to forget.
#[derive(Clone, Copy, Debug, PartialEq, Eq, Structural)]
pub enum ForgetStep {
    Retract,
    NotFound,
}

/// A fact is retracted where it was found active.
pub fn forget_step(found_status: Option<&str>) -> (r: ForgetStep)
    ensures
        r == (if found_status matches Some(status) && status@ == "active"@ {
            ForgetStep::Retract
        } else {
            ForgetStep::NotFound
        }),
{
    match found_status {
        Some(status) => if text::same_text(status, "active") {
            ForgetStep::Retract
        } else {
            ForgetStep::NotFound
        },
        None => ForgetStep::NotFound,
    }
}

/// The answer where a fact was to be retracted.
pub fn forget_output(content: &str, retracted: Result<(), String>) -> (r: ToolOutput)
    ensures
        match retracted {
            Ok(_) => says(r, "Forgotten: "@ + content@, false),
            Err(error) => says(r, "Failed to retract fact: "@ + error@, true),
        },
{
    match retracted {
        Ok(_) => success("Forgotten: ", content),
        Err(error) => failure("Failed to retract fact: ", error.as_str()),
    }
}

/// The answer where no active fact was found.
pub fn nothing_to_forget(content: &str) -> (r: ToolOutput)
    ensures
        says(r, "No active fact found matching: "@ + content@, false),
{
    success("No active fact found matching: ", content)
}

/// The answer where the fact could not be looked for.
pub fn forget_lookup_failed(error: &str) -> (r: ToolOutput)
    ensures
        says(r, "Failed to look up fact: "@ + error@, true),
{
    failure("Failed to look up fact: ", error)
}

// What the answers tell

/// The lines of two lots of hits stand one behind the other, one for each hit.
pub proof fn hits_are_shown_one_by_one(a: Seq<MemoryHit>, b: Seq<MemoryHit>)
    ensures
        hit_lines(a + b) == hit_lines(a) + hit_lines(b),
        a.len() == 1 ==> hit_lines(a) == hit_line(a[0]),
    decreases b.len(),
{
    if b.len() == 0 {
        assert(a + b =~= a);
        assert(hit_lines(a) + hit_lines(b) =~= hit_lines(a));
    } else {
        hits_are_shown_one_by_one(a, b.drop_last());
        assert((a + b).drop_last() =~= a + b.drop_last());
        assert((a + b).last() == b.last());
        assert(hit_lines(a + b) =~= hit_lines(a) + hit_lines(b));
    }
    if a.len() == 1 {
        assert(a.drop_last() =~= Seq::<MemoryHit>::empty());
        assert(hit_lines(a.drop_last()) == Seq::<char>::empty());
        assert(hit_lines(a) =~= hit_line(a[0]));
    }
}

/// The line of a fact tells its type, its score and its content: all of it up to
/// 200 characters, and of a longer one the first 200 with dots behind them.
pub proof fn fact_hits_are_told(hit: MemoryFactHit)
    ensures
        hit.fact.content@.len() <= 200 ==> hit_line(MemoryHit::Fact(Box::new(hit))) == "- [fact:"@
            + hit.fact.fact_type@ + "] [fact] (score: "@ + hit.score.label@ + ") "@
            + hit.fact.content@ + "\n"@,
        hit.fact.content@.len() > 200 ==> hit_line(MemoryHit::Fact(Box::new(hit))) == "- [fact:"@
            + hit.fact.fact_type@ + "] [fact] (score: "@ + hit.score.label@ + ") "@
            + hit.fact.content@.take(200) + "...\n"@,
{
    reveal_strlit("] [fact] (score: ");
    reveal_strlit("] [");
    reveal_strlit("fact");
    reveal_strlit("] (score: ");
    reveal_strlit("...\n");
    reveal_strlit("...");
    reveal_strlit("\n");
    let line = hit_line(MemoryHit::Fact(Box::new(hit)));
    let middle = "] [fact] (score: "@;
    assert("] ["@ + "fact"@ + "] (score: "@ =~= middle);
    assert("..."@ + "\n"@ =~= "...\n"@);
    let head = "- [fact:"@ + hit.fact.fact_type@;
    assert(head + "] ["@ + "fact"@ + "] (score: "@ =~= head + middle);
    let front = head + middle + hit.score.label@ + ") "@;
    if hit.fact.content@.len() <= 200 {
        assert(line =~= front + hit.fact.content@ + "\n"@);
    } else {
        assert(line =~= front + hit.fact.content@.take(200) + "...\n"@);
    }
}

/// The line of a chunk begins with its path and its lines and ends with its
/// snippet.
pub proof fn chunk_hits_are_told(hit: SearchResult)
    ensures
        text::starts_with(
            hit_line(MemoryHit::Chunk(Box::new(hit))),
            "- ["@ + hit.path@ + ":"@ + text::decimal(hit.start_line as nat) + "-"@ + text::decimal(
                hit.end_line as nat,
            ) + "] ["@,
        ),
        text::ends_with(
            hit_line(MemoryHit::Chunk(Box::new(hit))),
            "] (score: "@ + hit.score.label@ + ") "@ + hit.snippet@ + "\n"@,
        ),
{
    let line = hit_line(MemoryHit::Chunk(Box::new(hit)));
    let front = "- ["@ + hit.path@ + ":"@ + text::decimal(hit.start_line as nat) + "-"@
        + text::decimal(hit.end_line as nat) + "] ["@;
    let label = memory_retrieval::kind_label(
        memory_retrieval::chunk_kind(hit.source@, hit.path@),
    );
    let back = "] (score: "@ + hit.score.label@ + ") "@ + hit.snippet@ + "\n"@;
    assert(line =~= front + label + back);
    assert(line.take(front.len() as int) =~= front);
    assert(line.skip(line.len() - back.len()) =~= back);
}

proof fn first_match_is_first(texts: Seq<Seq<char>>, content: Seq<char>)
    ensures
        match first_match(texts, content) {
            Some(s) => exists|i: int|
                0 <= i < texts.len() && #[trigger] texts[i] == s
                    && memory_retrieval::matching_content(texts[i], content) && forall|k: int|
                    0 <= k < i ==> !memory_retrieval::matching_content(
                        #[trigger] texts[k],
                        content,
                    ),
            None => forall|i: int|
                0 <= i < texts.len() ==> !memory_retrieval::matching_content(
                    #[trigger] texts[i],
                    content,
                ),
        },
    decreases texts.len(),
{
    if texts.len() > 0 && !memory_retrieval::matching_content(texts[0], content) {
        let rest = texts.skip(1);
        first_match_is_first(rest, content);
        match first_match(texts, content) {
            Some(s) => {
                let i = choose|i: int|
                    0 <= i < rest.len() && #[trigger] rest[i] == s
                        && memory_retrieval::matching_content(rest[i], content) && forall|k: int|
                        0 <= k < i ==> !memory_retrieval::matching_content(
                            #[trigger] rest[k],
                            content,
                        );
                assert(texts[i + 1] == s);
                assert forall|k: int| 0 <= k < i + 1 implies !memory_retrieval::matching_content(
                    #[trigger] texts[k],
                    content,
                ) by {
                    if k > 0 {
                        assert(rest[k - 1] == texts[k]);
                    }
                }
            },
            None => {
                assert forall|i: int| 0 <= i < texts.len() implies
                    !memory_retrieval::matching_content(#[trigger] texts[i], content) by {
                    if i > 0 {
                        assert(rest[i - 1] == texts[i]);
                    }
                }
            },
        }
    } else if texts.len() > 0 {
        assert(texts[0] == first_match(texts, content)->0);
    }
}

/// A content is new exactly where no active fact and no item of the long-term
/// memory says nearly the same; what it is known as says so, and is a fact where
/// any fact does.
pub proof fn what_is_known_is_remembered(
    content: Seq<char>,
    facts: Seq<Fact>,
    items: Seq<Seq<char>>,
)
    ensures
        known_as(content, facts, items) is None <==> (forall|i: int|
            0 <= i < facts.len() ==> !memory_retrieval::matching_content(
                (#[trigger] facts[i]).content@,
                content,
            )) && (forall|i: int|
            0 <= i < items.len() ==> !memory_retrieval::matching_content(
                #[trigger] items[i],
                content,
            )),
        known_as(content, facts, items) matches Some(s) ==> memory_retrieval::matching_content(
            s,
            content,
        ) && (items.contains(s) || exists|i: int|
            0 <= i < facts.len() && (#[trigger] facts[i]).content@ == s),
        (exists|i: int|
            0 <= i < facts.len() && memory_retrieval::matching_content(
                (#[trigger] facts[i]).content@,
                content,
            )) ==> known_as(content, facts, items) is Some && exists|i: int|
            0 <= i < facts.len() && Some((#[trigger] facts[i]).content@) == known_as(
                content,
                facts,
                items,
            ),
{
    let texts = fact_contents(facts);
    first_match_is_first(texts, content);
    first_match_is_first(items, content);
    assert forall|i: int| 0 <= i < facts.len() implies #[trigger] texts[i] == facts[i].content@ by {}
    match first_match(texts, content) {
        Some(s) => {
            let i = choose|i: int|
                0 <= i < texts.len() && #[trigger] texts[i] == s
                    && memory_retrieval::matching_content(texts[i], content) && forall|k: int|
                    0 <= k < i ==> !memory_retrieval::matching_content(
                        #[trigger] texts[k],
                        content,
                    );
            assert(facts[i].content@ == s);
        },
        None => {
            assert forall|i: int| 0 <= i < facts.len() implies !memory_retrieval::matching_content(
                (#[trigger] facts[i]).content@,
                content,
            ) by {
                assert(texts[i] == facts[i].content@);
            }
        },
    }
}

/// The long-term memory has a key of its own; a key from which a date is read
/// stands for that day, and no other key stands for anything.
pub proof fn keys_stand_for_memories(key: Seq<char>, date: CalendarDate, read: Option<CalendarDate>)
    ensures
        key_meaning(key, read) is LongTerm <==> key == "MEMORY.md"@,
        key != "MEMORY.md"@ ==> key_meaning(key, Some(date)) == MemoryKey::Daily(date)
            && key_meaning(key, None) is Unknown,
{
}

/// A marker is that of its fact: it names the fact, says what it says, and stands
/// for the turn that comes next.
pub proof fn markers_tell_of_their_fact(
    marker: RecentExplicitMemoryWrite,
    fact: Fact,
    interaction_count: u64,
    now: Timestamp,
)
    requires
        is_marker(marker, fact, interaction_count, now),
    ensures
        marker.memory_ref@ == fact.id@,
        marker.summary@ == fact.content@,
        marker.recorded_at == now,
        marker.canonical_id is None,
        interaction_count < u64::MAX ==> marker.turn_index == interaction_count + 1,
{
}

/// A content is marked where a marker says nearly the same, and where no marker
/// does it is not; a marker counts where it says something.
pub proof fn markers_mark_what_they_say(
    writes: Seq<RecentExplicitMemoryWrite>,
    content: Seq<char>,
    i: int,
)
    ensures
        0 <= i < writes.len() && memory_retrieval::matching_content(writes[i].summary@, content)
            ==> marked(writes, content),
        (forall|k: int|
            0 <= k < writes.len() ==> !memory_retrieval::matching_content(
                (#[trigger] writes[k]).summary@,
                content,
            )) ==> !marked(writes, content),
        0 <= i < writes.len() ==> (says_something(writes[i]) <==> writes[i].summary@ != Seq::<
            char,
        >::empty()),
{
    if 0 <= i < writes.len() && writes[i].summary@.len() == 0 {
        assert(writes[i].summary@ =~= Seq::<char>::empty());
    }
}

/// What is missing from a call is named.
pub proof fn missing_fields_are_named(field: MissingField, name: Seq<char>)
    requires
        name == match field {
            MissingField::Query => "query"@,
            MissingField::Key => "key"@,
            MissingField::Content => "content"@,
            MissingField::FactType => "fact_type"@,
            MissingField::Reason => "reason"@,
        },
    ensures
        field.said() == "missing '"@ + name + "' field"@,
{
    reveal_strlit("missing '");
    reveal_strlit("' field");
    match field {
        MissingField::Query => {
            reveal_strlit("query");
            reveal_strlit("missing 'query' field");
        },
        MissingField::Key => {
            reveal_strlit("key");
            reveal_strlit("missing 'key' field");
        },
        MissingField::Content => {
            reveal_strlit("content");
            reveal_strlit("missing 'content' field");
        },
        MissingField::FactType => {
            reveal_strlit("fact_type");
            reveal_strlit("missing 'fact_type' field");
        },
        MissingField::Reason => {
            reveal_strlit("reason");
            reveal_strlit("missing 'reason' field");
        },
    }
    assert(field.said() =~= "missing '"@ + name + "' field"@);
}

/// An answer says one thing, and is an error or is none.
pub proof fn answers_say_one_thing(
    output: ToolOutput,
    a: Seq<char>,
    b: Seq<char>,
    error: bool,
    other: bool,
)
    requires
        says(output, a, error),
    ensures
        output.content@ == a,
        output.is_error == error,
        says(output, b, other) <==> a == b && error == other,
{
}

} // verus!
