//! The part of a prompt that tells what is remembered.

use crate::memory_retrieval;
use crate::memory_retrieval::{MemoryHit, MemoryRoutingBias, MemorySourceKind};
use crate::records::{Fact, SearchResult};
use crate::seqs;
use crate::text;
use vstd::prelude::*;

verus! {

pub const DEFAULT_INJECTED_CHARS: usize = 6000;

pub const TRUNCATED: &'static str = "\n...[truncated]";

pub const MEMORY_HEADER: &'static str = "## Relevant Memory\n\n";

/// The characters of memory that a prompt takes in.
pub fn injection_budget(policy: Option<usize>) -> (r: usize)
    ensures
        r == (match policy {
            Some(n) => n,
            None => DEFAULT_INJECTED_CHARS,
        }),
{
    match policy {
        Some(n) => n,
        None => DEFAULT_INJECTED_CHARS,
    }
}

// Cutting to a budget

/// `s` cut to `budget` characters, with a note of the cut where it has room.
pub open spec fn cut_to_budget(s: Seq<char>, budget: nat) -> Seq<char> {
    if s.len() <= budget {
        s
    } else if budget <= TRUNCATED@.len() {
        s.take(budget as int)
    } else {
        s.take(budget - TRUNCATED@.len()) + TRUNCATED@
    }
}

pub fn truncate_text_to_budget(value: &str, budget: usize) -> (r: String)
    ensures
        r@ == cut_to_budget(value@, budget as nat),
{
    let chars = text::chars_of(value);
    if chars.len() <= budget {
        return value.to_owned();
    }
    let note: usize = text::chars_of(TRUNCATED).len();
    if budget <= note {
        return text::string_of(text::take_chars(chars.as_slice(), budget));
    }
    let mut out = text::string_of(text::take_chars(chars.as_slice(), budget - note));
    out.append(TRUNCATED);
    out
}

/// A text that was cut keeps within its budget.
pub proof fn cut_keeps_the_budget(s: Seq<char>, budget: nat)
    ensures
        cut_to_budget(s, budget).len() <= budget,
{
}

// Facts

pub open spec fn fact_line(fact: Fact) -> Seq<char> {
    "- ["@ + fact.fact_type@ + "] "@ + fact.content@ + "\n"@
}

pub open spec fn fact_lines(facts: Seq<Fact>) -> Seq<char>
    decreases facts.len(),
{
    if facts.len() == 0 {
        Seq::empty()
    } else {
        fact_lines(facts.drop_last()) + fact_line(facts.last())
    }
}

/// The known facts within a budget.
pub open spec fn facts_section(facts: Seq<Fact>, budget: nat) -> Seq<char> {
    if facts.len() == 0 || budget == 0 {
        Seq::empty()
    } else {
        cut_to_budget("## Known Facts\n\n"@ + fact_lines(facts) + "\n"@, budget)
    }
}

pub fn build_known_facts_section(facts: &[Fact], budget: usize) -> (r: String)
    ensures
        r@ == facts_section(facts@, budget as nat),
{
    if facts.len() == 0 || budget == 0 {
        return String::new();
    }
    let mut section = "## Known Facts\n\n".to_owned();
    let ghost head = "## Known Facts\n\n"@;
    let n: usize = facts.len();
    assert(head + fact_lines(facts@.take(0)) == head);
    for i in 0..n
        invariant
            n == facts@.len(),
            section@ == head + fact_lines(facts@.take(i as int)),
    {
        assert(facts@.take(i + 1).drop_last() == facts@.take(i as int));
        let ghost before = section@;
        section.append("- [");
        section.append(facts[i].fact_type.as_str());
        section.append("] ");
        section.append(facts[i].content.as_str());
        section.append("\n");
        assert(section@ == before + fact_line(facts@[i as int]));
        assert(section@ == head + fact_lines(facts@.take(i + 1)));
    }
    assert(facts@.take(n as int) == facts@);
    section.append("\n");
    truncate_text_to_budget(section.as_str(), budget)
}

// Chunks

pub open spec fn kind_of(chunk: SearchResult) -> MemorySourceKind {
    memory_retrieval::chunk_kind(chunk.source@, chunk.path@)
}

pub open spec fn of_kind(chunks: Seq<SearchResult>, kind: MemorySourceKind) -> Seq<SearchResult> {
    chunks.filter(|c: SearchResult| kind_of(c) == kind)
}

/// The chunks that are shown under a bias: so many of each kind, in the order
/// that suits the bias, and then those of no particular kind.
pub open spec fn selected_chunks(
    chunks: Seq<SearchResult>,
    bias: MemoryRoutingBias,
) -> Seq<SearchResult> {
    let long_term = of_kind(chunks, MemorySourceKind::LongTerm);
    let daily = of_kind(chunks, MemorySourceKind::Daily);
    let session = of_kind(chunks, MemorySourceKind::Session);
    let other = of_kind(chunks, MemorySourceKind::Other);
    match bias {
        MemoryRoutingBias::LongTerm => if long_term.len() > 0 {
            seqs::at_most(long_term, 4) + other
        } else {
            seqs::at_most(daily, 3) + seqs::at_most(session, 1) + other
        },
        MemoryRoutingBias::ShortTerm => seqs::at_most(daily, 4) + seqs::at_most(session, 2)
            + seqs::at_most(long_term, 1) + other,
        MemoryRoutingBias::Neutral => seqs::at_most(long_term, 2) + seqs::at_most(daily, 2)
            + seqs::at_most(session, 1) + other,
    }
}

fn keep_kind(chunks: &Vec<SearchResult>, kind: MemorySourceKind, limit: usize) -> (r: Vec<
    SearchResult,
>)
    ensures
        r@ == seqs::at_most(of_kind(chunks@, kind), limit as nat),
{
    let mut out: Vec<SearchResult> = Vec::new();
    let n: usize = chunks.len();
    let ghost keep = |c: SearchResult| kind_of(c) == kind;
    proof {
        seqs::filter_start(chunks@, keep);
    }
    for i in 0..n
        invariant
            n == chunks@.len(),
            keep == (|c: SearchResult| kind_of(c) == kind),
            out@ == chunks@.take(i as int).filter(keep),
    {
        proof {
            seqs::filter_step(chunks@, keep, i as int);
        }
        let own = memory_retrieval::classify_chunk_source(
            chunks[i].source.as_str(),
            chunks[i].path.as_str(),
        );
        if own == kind {
            out.push(chunks[i].copy());
        }
    }
    assert(chunks@.take(n as int) == chunks@);
    let ghost all = out@;
    out.truncate(limit);
    assert(out@ == seqs::at_most(all, limit as nat));
    out
}

pub fn select_chunks_for_context(
    chunks: Vec<SearchResult>,
    routing_bias: MemoryRoutingBias,
) -> (r: Vec<SearchResult>)
    ensures
        r@ == selected_chunks(chunks@, routing_bias),
{
    let total: usize = chunks.len();
    let mut other = keep_kind(&chunks, MemorySourceKind::Other, total);
    proof {
        let keep = |c: SearchResult| kind_of(c) == MemorySourceKind::Other;
        chunks@.lemma_filter_len(keep);
        assert(other@ == of_kind(chunks@, MemorySourceKind::Other));
    }
    match routing_bias {
        MemoryRoutingBias::LongTerm => {
            let mut selected = keep_kind(&chunks, MemorySourceKind::LongTerm, 4);
            if selected.len() == 0 {
                let mut daily = keep_kind(&chunks, MemorySourceKind::Daily, 3);
                let mut session = keep_kind(&chunks, MemorySourceKind::Session, 1);
                daily.append(&mut session);
                daily.append(&mut other);
                return daily;
            }
            selected.append(&mut other);
            selected
        },
        MemoryRoutingBias::ShortTerm => {
            let mut selected = keep_kind(&chunks, MemorySourceKind::Daily, 4);
            let mut session = keep_kind(&chunks, MemorySourceKind::Session, 2);
            let mut long_term = keep_kind(&chunks, MemorySourceKind::LongTerm, 1);
            selected.append(&mut session);
            selected.append(&mut long_term);
            selected.append(&mut other);
            selected
        },
        MemoryRoutingBias::Neutral => {
            let mut selected = keep_kind(&chunks, MemorySourceKind::LongTerm, 2);
            let mut daily = keep_kind(&chunks, MemorySourceKind::Daily, 2);
            let mut session = keep_kind(&chunks, MemorySourceKind::Session, 1);
            selected.append(&mut daily);
            selected.append(&mut session);
            selected.append(&mut other);
            selected
        },
    }
}

pub open spec fn chunk_entry(chunk: SearchResult) -> Seq<char> {
    "### "@ + chunk.path@ + " (score: "@ + chunk.score.label@ + ")\n"@ + chunk.text@ + "\n\n"@
}

fn write_entry(chunk: &SearchResult) -> (r: String)
    ensures
        r@ == chunk_entry(*chunk),
{
    let mut out = "### ".to_owned();
    out.append(chunk.path.as_str());
    out.append(" (score: ");
    out.append(chunk.score.label.as_str());
    out.append(")\n");
    out.append(chunk.text.as_str());
    out.append("\n\n");
    out
}

/// The leading entries that fit when `used` characters are taken already.
pub open spec fn fitting_entries(results: Seq<SearchResult>, used: int, budget: int) -> Seq<char>
    decreases results.len(),
{
    if results.len() == 0 || used + chunk_entry(results[0]).len() > budget {
        Seq::empty()
    } else {
        chunk_entry(results[0]) + fitting_entries(
            results.drop_first(),
            used + chunk_entry(results[0]).len(),
            budget,
        )
    }
}

/// The start of an entry that does not fit, and a note of the cut where it has room.
pub open spec fn cut_entry(entry: Seq<char>, used: int, budget: int) -> Seq<char> {
    let room = budget - (used + TRUNCATED@.len());
    let part = if room <= 0 {
        Seq::empty()
    } else {
        text::take_at_most(entry, room as nat)
    };
    if used + part.len() + TRUNCATED@.len() <= budget {
        part + TRUNCATED@
    } else {
        part
    }
}

/// The results within a budget: a heading and the leading entries that fit; the
/// first is cut where even it does not fit.
pub open spec fn clamped(results: Seq<SearchResult>, budget: nat) -> Seq<char> {
    let head = MEMORY_HEADER@.len() as int;
    if results.len() == 0 || budget == 0 {
        Seq::empty()
    } else if budget <= head {
        MEMORY_HEADER@.take(budget as int)
    } else if head + chunk_entry(results[0]).len() > budget {
        MEMORY_HEADER@ + cut_entry(chunk_entry(results[0]), head, budget as int)
    } else {
        MEMORY_HEADER@ + fitting_entries(results, head, budget as int)
    }
}

pub fn clamp_to_budget(results: &[SearchResult], budget: usize) -> (r: String)
    ensures
        r@ == clamped(results@, budget as nat),
{
    if results.len() == 0 || budget == 0 {
        return String::new();
    }
    let header = text::chars_of(MEMORY_HEADER);
    let head: usize = header.len();
    if budget <= head {
        let part = text::take_chars(header.as_slice(), budget);
        assert(part@ == MEMORY_HEADER@.take(budget as int));
        return text::string_of(part);
    }
    let mut context = MEMORY_HEADER.to_owned();
    let note: usize = text::chars_of(TRUNCATED).len();
    let first = text::chars_of(write_entry(&results[0]).as_str());
    if first.len() > budget - head {
        let left: usize = budget - head;
        if left <= note {
            if left == note {
                context.append(TRUNCATED);
                assert(cut_entry(first@, head as int, budget as int) =~= TRUNCATED@);
            } else {
                assert(cut_entry(first@, head as int, budget as int) =~= Seq::empty());
                assert(context@ =~= MEMORY_HEADER@ + Seq::<char>::empty());
            }
        } else {
            let part = text::take_chars(first.as_slice(), left - note);
            context.append(text::string_of(part).as_str());
            context.append(TRUNCATED);
            assert(context@ =~= MEMORY_HEADER@ + (part@ + TRUNCATED@));
        }
        return context;
    }
    let mut used: usize = head;
    let n: usize = results.len();
    let ghost all = fitting_entries(results@, head as int, budget as int);
    assert(results@.skip(0) == results@);
    assert(context@ + all == MEMORY_HEADER@ + all);
    for i in 0..n
        invariant
            n == results@.len(),
            used <= budget,
            clamped(results@, budget as nat) == MEMORY_HEADER@ + all,
            context@ + fitting_entries(results@.skip(i as int), used as int, budget as int)
                == MEMORY_HEADER@ + all,
    {
        let entry = write_entry(&results[i]);
        let size: usize = text::chars_of(entry.as_str()).len();
        let ghost rest = results@.skip(i as int);
        assert(rest[0] == results@[i as int]);
        if size > budget - used {
            assert(context@ + Seq::<char>::empty() =~= context@);
            return context;
        }
        let ghost before = context@;
        context.append(entry.as_str());
        assert(rest.drop_first() == results@.skip(i + 1));
        used = used + size;
        let ghost later = fitting_entries(results@.skip(i + 1), used as int, budget as int);
        assert(context@ + later =~= before + (entry@ + later));
    }
    assert(context@ + Seq::<char>::empty() =~= context@);
    context
}

proof fn fitting_entries_fit(results: Seq<SearchResult>, used: int, budget: int)
    requires
        used <= budget,
    ensures
        used + fitting_entries(results, used, budget).len() <= budget,
    decreases results.len(),
{
    if results.len() > 0 && used + chunk_entry(results[0]).len() <= budget {
        fitting_entries_fit(
            results.drop_first(),
            used + chunk_entry(results[0]).len(),
            budget,
        );
    }
}

/// What is shown of the results keeps within its budget.
pub proof fn clamp_keeps_the_budget(results: Seq<SearchResult>, budget: nat)
    ensures
        clamped(results, budget).len() <= budget,
{
    let head = MEMORY_HEADER@.len() as int;
    if results.len() > 0 && budget > head {
        if head + chunk_entry(results[0]).len() > budget {
            let room = budget - (head + TRUNCATED@.len());
            let part = if room <= 0 {
                Seq::empty()
            } else {
                text::take_at_most(chunk_entry(results[0]), room as nat)
            };
            assert(head + part.len() <= budget);
        } else {
            fitting_entries_fit(results, head, budget as int);
        }
    }
}

// The whole context

/// The facts among the hits, in order.
pub open spec fn hit_facts(hits: Seq<MemoryHit>) -> Seq<Fact>
    decreases hits.len(),
{
    if hits.len() == 0 {
        Seq::empty()
    } else {
        match hits.last() {
            MemoryHit::Fact(hit) => hit_facts(hits.drop_last()).push(hit.fact),
            MemoryHit::Chunk(_) => hit_facts(hits.drop_last()),
        }
    }
}

/// The chunks among the hits, in order.
pub open spec fn hit_chunks(hits: Seq<MemoryHit>) -> Seq<SearchResult>
    decreases hits.len(),
{
    if hits.len() == 0 {
        Seq::empty()
    } else {
        match hits.last() {
            MemoryHit::Chunk(hit) => hit_chunks(hits.drop_last()).push(*hit),
            MemoryHit::Fact(_) => hit_chunks(hits.drop_last()),
        }
    }
}

pub fn facts_of_hits(hits: &[MemoryHit]) -> (r: Vec<Fact>)
    ensures
        r@ == hit_facts(hits@),
{
    let mut out: Vec<Fact> = Vec::new();
    let n: usize = hits.len();
    for i in 0..n
        invariant
            n == hits@.len(),
            out@ == hit_facts(hits@.take(i as int)),
    {
        assert(hits@.take(i + 1).drop_last() == hits@.take(i as int));
        match &hits[i] {
            MemoryHit::Fact(hit) => {
                out.push(hit.fact.copy());
            },
            MemoryHit::Chunk(_) => {},
        }
    }
    assert(hits@.take(n as int) == hits@);
    out
}

pub fn chunks_of_hits(hits: &[MemoryHit]) -> (r: Vec<SearchResult>)
    ensures
        r@ == hit_chunks(hits@),
{
    let mut out: Vec<SearchResult> = Vec::new();
    let n: usize = hits.len();
    for i in 0..n
        invariant
            n == hits@.len(),
            out@ == hit_chunks(hits@.take(i as int)),
    {
        assert(hits@.take(i + 1).drop_last() == hits@.take(i as int));
        match &hits[i] {
            MemoryHit::Chunk(hit) => {
                out.push(hit.copy());
            },
            MemoryHit::Fact(_) => {},
        }
    }
    assert(hits@.take(n as int) == hits@);
    out
}

pub open spec fn min_of(a: nat, b: nat) -> nat {
    if a <= b {
        a
    } else {
        b
    }
}

/// The part of the budget that facts may take beside chunks.
pub open spec fn facts_share(bias: MemoryRoutingBias, budget: nat) -> nat {
    match bias {
        MemoryRoutingBias::LongTerm => min_of(budget / 4, 1500),
        MemoryRoutingBias::ShortTerm => min_of(budget / 6, 900),
        MemoryRoutingBias::Neutral => min_of(budget / 3, 1500),
    }
}

fn lesser(a: usize, b: usize) -> (r: usize)
    ensures
        r == min_of(a as nat, b as nat),
{
    if a <= b {
        a
    } else {
        b
    }
}

/// The chunks that are shown beside the facts.
pub open spec fn shown_chunks(hits: Seq<MemoryHit>, bias: MemoryRoutingBias) -> Seq<SearchResult> {
    selected_chunks(
        hit_chunks(hits).filter(
            |c: SearchResult| !memory_retrieval::told_by_fact(c, hit_facts(hits)),
        ),
        bias,
    )
}

/// The characters that the facts may take: a share where there are chunks too.
pub open spec fn facts_budget(hits: Seq<MemoryHit>, bias: MemoryRoutingBias, budget: nat) -> nat {
    if hit_facts(hits).len() == 0 || shown_chunks(hits, bias).len() == 0 {
        budget
    } else {
        facts_share(bias, budget)
    }
}

pub open spec fn context_from_hits(
    hits: Seq<MemoryHit>,
    bias: MemoryRoutingBias,
    budget: nat,
) -> Seq<char> {
    if hits.len() == 0 || budget == 0 {
        Seq::empty()
    } else {
        let facts = facts_section(hit_facts(hits), facts_budget(hits, bias, budget));
        let left = if facts.len() <= budget {
            (budget - facts.len()) as nat
        } else {
            0
        };
        facts + clamped(shown_chunks(hits, bias), left)
    }
}

pub fn build_memory_context_from_hits(
    hits: &[MemoryHit],
    routing_bias: MemoryRoutingBias,
    budget: usize,
) -> (r: String)
    ensures
        r@ == context_from_hits(hits@, routing_bias, budget as nat),
{
    if hits.len() == 0 || budget == 0 {
        return String::new();
    }
    let facts = facts_of_hits(hits);
    let fresh = memory_retrieval::filter_duplicate_chunks_against_facts(
        chunks_of_hits(hits),
        facts.as_slice(),
    );
    let chunks = select_chunks_for_context(fresh, routing_bias);
    let share: usize = if facts.len() == 0 || chunks.len() == 0 {
        budget
    } else {
        match routing_bias {
            MemoryRoutingBias::LongTerm => lesser(budget / 4, 1500),
            MemoryRoutingBias::ShortTerm => lesser(budget / 6, 900),
            MemoryRoutingBias::Neutral => lesser(budget / 3, 1500),
        }
    };
    let mut out = build_known_facts_section(facts.as_slice(), share);
    let used: usize = text::chars_of(out.as_str()).len();
    let left: usize = if used <= budget {
        budget - used
    } else {
        0
    };
    out.append(clamp_to_budget(chunks.as_slice(), left).as_str());
    out
}

/// The context from hits keeps within the budget of a prompt.
pub proof fn context_from_hits_keeps_the_budget(
    hits: Seq<MemoryHit>,
    bias: MemoryRoutingBias,
    budget: nat,
)
    ensures
        context_from_hits(hits, bias, budget).len() <= budget,
{
    let share = facts_budget(hits, bias, budget);
    let facts = facts_section(hit_facts(hits), share);
    assert(share <= budget);
    assert(facts.len() <= share);
    clamp_keeps_the_budget(shown_chunks(hits, bias), (budget - facts.len()) as nat);
}

/// Facts and a text that stands in for hits, within a budget.
pub open spec fn context_from_fallback(
    facts: Seq<Fact>,
    fallback: Seq<char>,
    budget: nat,
) -> Seq<char> {
    let cut = cut_to_budget(fallback, budget);
    if budget == 0 {
        Seq::empty()
    } else if facts.len() == 0 {
        cut
    } else if text::trim(cut).len() == 0 {
        facts_section(facts, budget)
    } else {
        let section = facts_section(facts, min_of(budget / 3, 1800));
        let left = if section.len() <= budget {
            (budget - section.len()) as nat
        } else {
            0
        };
        section + cut_to_budget(text::trim(cut), left)
    }
}

pub fn build_memory_context_from_fallback(facts: &[Fact], fallback: &str, budget: usize) -> (r:
    String)
    ensures
        r@ == context_from_fallback(facts@, fallback@, budget as nat),
{
    if budget == 0 {
        return String::new();
    }
    let cut = truncate_text_to_budget(fallback, budget);
    if facts.len() == 0 {
        return cut;
    }
    let trimmed = text::trimmed(cut.as_str());
    if trimmed.as_str().is_empty() {
        return build_known_facts_section(facts, budget);
    }
    let mut out = build_known_facts_section(facts, lesser(budget / 3, 1800));
    let used: usize = text::chars_of(out.as_str()).len();
    let left: usize = if used <= budget {
        budget - used
    } else {
        0
    };
    out.append(truncate_text_to_budget(trimmed.as_str(), left).as_str());
    out
}

/// The context from a fallback keeps within the budget of a prompt.
pub proof fn context_from_fallback_keeps_the_budget(
    facts: Seq<Fact>,
    fallback: Seq<char>,
    budget: nat,
)
    ensures
        context_from_fallback(facts, fallback, budget).len() <= budget,
{
    let section = facts_section(facts, min_of(budget / 3, 1800));
    assert(section.len() <= min_of(budget / 3, 1800));
}

/// Neither a fact nor a long-term memory is among the hits.
pub open spec fn nothing_durable(hits: Seq<MemoryHit>) -> bool {
    forall|i: int|
        0 <= i < hits.len() ==> (#[trigger] hits[i]).kind() != MemorySourceKind::Fact
            && hits[i].kind() != MemorySourceKind::LongTerm
}

/// Long-term memory stands in for hits where the bias is not for recent
/// memories and no hit is durable.
pub fn should_use_long_term_fallback(routing_bias: MemoryRoutingBias, hits: &[MemoryHit]) -> (r:
    bool)
    ensures
        r == (routing_bias != MemoryRoutingBias::ShortTerm && nothing_durable(hits@)),
{
    if routing_bias == MemoryRoutingBias::ShortTerm {
        return false;
    }
    let n: usize = hits.len();
    for i in 0..n
        invariant
            n == hits@.len(),
            forall|k: int|
                0 <= k < i ==> (#[trigger] hits@[k]).kind() != MemorySourceKind::Fact
                    && hits@[k].kind() != MemorySourceKind::LongTerm,
    {
        let kind = hits[i].source_kind();
        if kind == MemorySourceKind::Fact || kind == MemorySourceKind::LongTerm {
            assert(hits@[i as int].kind() == kind);
            return false;
        }
    }
    true
}

/// Where the memory of a prompt comes from.
#[derive(Clone, Copy, Debug, PartialEq, Eq, Structural)]
pub enum ContextPlan {
    /// From the hits of the search.
    Hits,
    /// From the long-term memory where it says something, else from the hits.
    LongTermOrHits,
    /// From the memory files where they say something, else from the facts.
    FilesOrFacts,
}

pub open spec fn context_plan(
    search_succeeded: bool,
    hits: Seq<MemoryHit>,
    bias: MemoryRoutingBias,
) -> ContextPlan {
    if !search_succeeded || hits.len() == 0 {
        ContextPlan::FilesOrFacts
    } else if bias != MemoryRoutingBias::ShortTerm && nothing_durable(hits) {
        ContextPlan::LongTermOrHits
    } else {
        ContextPlan::Hits
    }
}

pub fn plan_memory_context(
    search_succeeded: bool,
    hits: &[MemoryHit],
    routing_bias: MemoryRoutingBias,
) -> (r: ContextPlan)
    ensures
        r == context_plan(search_succeeded, hits@, routing_bias),
{
    if !search_succeeded || hits.len() == 0 {
        ContextPlan::FilesOrFacts
    } else if should_use_long_term_fallback(routing_bias, hits) {
        ContextPlan::LongTermOrHits
    } else {
        ContextPlan::Hits
    }
}

/// The context where the long-term memory is asked first.
pub fn context_with_long_term(
    hits: &[MemoryHit],
    routing_bias: MemoryRoutingBias,
    long_term: &str,
    budget: usize,
) -> (r: String)
    ensures
        r@ == (if text::trim(long_term@).len() == 0 {
            context_from_hits(hits@, routing_bias, budget as nat)
        } else {
            context_from_fallback(hit_facts(hits@), long_term@, budget as nat)
        }),
{
    if text::trimmed(long_term).as_str().is_empty() {
        build_memory_context_from_hits(hits, routing_bias, budget)
    } else {
        build_memory_context_from_fallback(facts_of_hits(hits).as_slice(), long_term, budget)
    }
}

/// What a context without hits was made from.
#[derive(Clone, Copy, Debug, PartialEq, Eq, Structural)]
pub enum ContextSource {
    Fallback,
    FactsPlusFallback,
    FactsOnly,
    Nothing,
}

/// The context where a search found nothing: from the memory files where they
/// say something, else from the injected facts.
pub fn context_without_hits(facts: &[Fact], fallback: &str, budget: usize) -> (r: (
    String,
    ContextSource,
))
    ensures
        text::trim(fallback@).len() > 0 ==> {
            &&& r.0@ == context_from_fallback(facts@, fallback@, budget as nat)
            &&& r.1 == (if facts@.len() == 0 {
                ContextSource::Fallback
            } else {
                ContextSource::FactsPlusFallback
            })
        },
        text::trim(fallback@).len() == 0 ==> {
            &&& r.0@ == facts_section(facts@, budget as nat)
            &&& r.1 == (if facts@.len() == 0 {
                ContextSource::Nothing
            } else {
                ContextSource::FactsOnly
            })
        },
{
    if !text::trimmed(fallback).as_str().is_empty() {
        let source = if facts.len() == 0 {
            ContextSource::Fallback
        } else {
            ContextSource::FactsPlusFallback
        };
        return (build_memory_context_from_fallback(facts, fallback, budget), source);
    }
    if facts.len() == 0 {
        return (String::new(), ContextSource::Nothing);
    }
    (build_known_facts_section(facts, budget), ContextSource::FactsOnly)
}

// Previews

/// A text on one line with single blanks, cut to so many characters.
pub open spec fn preview(s: Seq<char>, max_chars: nat) -> Seq<char> {
    let line = text::joined(text::words(s), " "@);
    if line.len() <= max_chars {
        line
    } else {
        line.take(max_chars as int) + "…"@
    }
}

pub fn truncate_tool_result_preview(value: &str, max_chars: usize) -> (r: String)
    ensures
        r@ == preview(value@, max_chars as nat),
{
    let line = text::join(text::words_of(value).as_slice(), " ");
    let chars = text::chars_of(line.as_str());
    if chars.len() <= max_chars {
        return line;
    }
    let mut out = text::string_of(text::take_chars(chars.as_slice(), max_chars));
    out.append("…");
    out
}

// What a context shows

/// A text that fits is left as it is; one that does not takes up its budget, goes
/// as the text does up to the note of the cut, and ends with that note where the
/// budget has room for it.
pub proof fn a_cut_text_begins_as_it_did(s: Seq<char>, budget: nat)
    ensures
        s.len() <= budget ==> cut_to_budget(s, budget) == s,
        s.len() > budget ==> {
            &&& cut_to_budget(s, budget).len() == budget
            &&& forall|i: int|
                0 <= i < budget - "\n...[truncated]"@.len() ==> cut_to_budget(s, budget)[i]
                    == #[trigger] s[i]
            &&& budget > "\n...[truncated]"@.len() ==> text::ends_with(
                cut_to_budget(s, budget),
                "\n...[truncated]"@,
            )
            &&& budget <= "\n...[truncated]"@.len() ==> cut_to_budget(s, budget) == s.take(
                budget as int,
            )
        },
{
    if s.len() > budget && budget > TRUNCATED@.len() {
        let cut = cut_to_budget(s, budget);
        assert(cut.skip(cut.len() - TRUNCATED@.len()) =~= TRUNCATED@);
    }
}

/// The lines of two lots of facts stand one behind the other, and a fact has one
/// line with its type and its content.
pub proof fn fact_lines_follow_the_facts(a: Seq<Fact>, b: Seq<Fact>)
    ensures
        fact_lines(a + b) == fact_lines(a) + fact_lines(b),
        a.len() == 1 ==> fact_lines(a) == "- ["@ + a[0].fact_type@ + "] "@ + a[0].content@
            + "\n"@,
    decreases b.len(),
{
    if b.len() == 0 {
        assert(a + b =~= a);
        assert(fact_lines(a) + fact_lines(b) =~= fact_lines(a));
    } else {
        fact_lines_follow_the_facts(a, b.drop_last());
        assert((a + b).drop_last() =~= a + b.drop_last());
        assert((a + b).last() == b.last());
        assert(fact_lines(a + b) =~= fact_lines(a) + fact_lines(b));
    }
    if a.len() == 1 {
        assert(a.drop_last() =~= Seq::<Fact>::empty());
        assert(fact_lines(a.drop_last()) == Seq::<char>::empty());
        assert(fact_lines(a) =~= fact_line(a[0]));
    }
}

/// Every fact has its line.
pub proof fn every_fact_has_its_line(facts: Seq<Fact>, i: int)
    requires
        0 <= i < facts.len(),
    ensures
        text::contains(
            fact_lines(facts),
            "- ["@ + facts[i].fact_type@ + "] "@ + facts[i].content@ + "\n"@,
        ),
{
    let a = facts.take(i);
    let b = seq![facts[i]];
    let c = facts.skip(i + 1);
    assert(a + b + c =~= facts);
    fact_lines_follow_the_facts(a + b, c);
    fact_lines_follow_the_facts(a, b);
    fact_lines_follow_the_facts(b, c);
    text::middle_occurs(fact_lines(a), fact_lines(b), fact_lines(c));
}

/// The facts and the chunks of two lots of hits are those of the one and then
/// those of the other; each hit is one of the two.
pub proof fn hits_are_facts_or_chunks(a: Seq<MemoryHit>, b: Seq<MemoryHit>)
    ensures
        hit_facts(a + b) == hit_facts(a) + hit_facts(b),
        hit_chunks(a + b) == hit_chunks(a) + hit_chunks(b),
        a.len() == 1 ==> match a[0] {
            MemoryHit::Fact(hit) => hit_facts(a) == seq![hit.fact] && hit_chunks(a).len() == 0,
            MemoryHit::Chunk(hit) => hit_chunks(a) == seq![*hit] && hit_facts(a).len() == 0,
        },
    decreases b.len(),
{
    if b.len() == 0 {
        assert(a + b =~= a);
        assert(hit_facts(a) + hit_facts(b) =~= hit_facts(a));
        assert(hit_chunks(a) + hit_chunks(b) =~= hit_chunks(a));
    } else {
        hits_are_facts_or_chunks(a, b.drop_last());
        assert((a + b).drop_last() =~= a + b.drop_last());
        assert((a + b).last() == b.last());
        assert(hit_facts(a + b) =~= hit_facts(a) + hit_facts(b));
        assert(hit_chunks(a + b) =~= hit_chunks(a) + hit_chunks(b));
    }
    if a.len() == 1 {
        let none = a.drop_last();
        assert(none =~= Seq::<MemoryHit>::empty());
        assert(hit_facts(none) == Seq::<Fact>::empty());
        assert(hit_chunks(none) == Seq::<SearchResult>::empty());
    }
}

/// Every fact among the hits, and every chunk, is taken from them.
pub proof fn every_hit_is_taken(hits: Seq<MemoryHit>, i: int)
    requires
        0 <= i < hits.len(),
    ensures
        hits[i] matches MemoryHit::Fact(hit) ==> hit_facts(hits).contains(hit.fact),
        hits[i] matches MemoryHit::Chunk(hit) ==> hit_chunks(hits).contains(*hit),
{
    let a = hits.take(i);
    let b = seq![hits[i]];
    let c = hits.skip(i + 1);
    assert(a + b + c =~= hits);
    hits_are_facts_or_chunks(a + b, c);
    hits_are_facts_or_chunks(a, b);
    hits_are_facts_or_chunks(b, c);
    match hits[i] {
        MemoryHit::Fact(hit) => {
            assert(hit_facts(hits)[hit_facts(a).len() as int] == hit.fact);
        },
        MemoryHit::Chunk(hit) => {
            assert(hit_chunks(hits)[hit_chunks(a).len() as int] == *hit);
        },
    }
}

/// Under every bias the known facts come first, whole, where they take no more
/// than a sixth of the budget and 900 characters: with a heading and with the
/// line of every fact among the hits.
pub proof fn known_facts_come_first(
    hits: Seq<MemoryHit>,
    bias: MemoryRoutingBias,
    budget: nat,
    i: int,
)
    requires
        0 <= i < hits.len(),
        hits[i] is Fact,
        ("## Known Facts\n\n"@ + fact_lines(hit_facts(hits)) + "\n"@).len() <= budget / 6,
        ("## Known Facts\n\n"@ + fact_lines(hit_facts(hits)) + "\n"@).len() <= 900,
    ensures
        text::starts_with(
            context_from_hits(hits, bias, budget),
            "## Known Facts\n\n"@ + fact_lines(hit_facts(hits)) + "\n"@,
        ),
        hits[i] matches MemoryHit::Fact(hit) ==> text::contains(
            context_from_hits(hits, bias, budget),
            "- ["@ + hit.fact.fact_type@ + "] "@ + hit.fact.content@ + "\n"@,
        ),
{
    reveal_strlit("\n");
    let facts = hit_facts(hits);
    let head = "## Known Facts\n\n"@;
    let full = head + fact_lines(facts) + "\n"@;
    every_hit_is_taken(hits, i);
    assert(full.len() > 0);
    let share = facts_budget(hits, bias, budget);
    assert(full.len() <= share);
    assert(facts_section(facts, share) == full);
    let context = context_from_hits(hits, bias, budget);
    let rest = context.skip(full.len() as int);
    assert(context.take(full.len() as int) =~= full);
    assert(full + rest =~= context);
    match hits[i] {
        MemoryHit::Fact(hit) => {
            let k = choose|k: int| 0 <= k < facts.len() && facts[k] == hit.fact;
            every_fact_has_its_line(facts, k);
            let line = "- ["@ + hit.fact.fact_type@ + "] "@ + hit.fact.content@ + "\n"@;
            text::occurs_in_more(head, fact_lines(facts), "\n"@ + rest, line);
            assert(head + fact_lines(facts) + ("\n"@ + rest) =~= context);
        },
        _ => {},
    }
}

/// The characters of the entries of the first `n` results.
pub open spec fn entries_len(results: Seq<SearchResult>, n: int) -> int
    decreases n,
{
    if n <= 0 {
        0
    } else {
        entries_len(results, n - 1) + ("### "@ + results[n - 1].path@ + " (score: "@ + results[n
            - 1].score.label@ + ")\n"@ + results[n - 1].text@ + "\n\n"@).len()
    }
}

proof fn entries_len_of_rest(results: Seq<SearchResult>, n: int)
    requires
        0 < n <= results.len(),
    ensures
        entries_len(results, n) == chunk_entry(results[0]).len() + entries_len(
            results.drop_first(),
            n - 1,
        ),
        entries_len(results, n) >= entries_len(results, n - 1) >= 0,
    decreases n,
{
    if n > 1 {
        entries_len_of_rest(results, n - 1);
        assert(results.drop_first()[n - 2] == results[n - 1]);
    } else {
        assert(entries_len(results, 0) == 0);
        assert(entries_len(results.drop_first(), 0) == 0);
    }
}

proof fn fitting_entry_occurs(results: Seq<SearchResult>, used: int, budget: int, i: int)
    requires
        0 <= i < results.len(),
        used + entries_len(results, i + 1) <= budget,
    ensures
        text::contains(fitting_entries(results, used, budget), chunk_entry(results[i])),
    decreases results.len(),
{
    let none = Seq::<char>::empty();
    let first = chunk_entry(results[0]);
    let rest = results.drop_first();
    entries_len_of_rest(results, i + 1);
    entries_len_nonneg(rest, i);
    let later = fitting_entries(rest, used + first.len(), budget);
    if i == 0 {
        text::middle_occurs(none, first, later);
        assert(none + first + later =~= first + later);
    } else {
        fitting_entry_occurs(rest, used + first.len(), budget, i - 1);
        assert(rest[i - 1] == results[i]);
        text::occurs_in_more(first, later, none, chunk_entry(results[i]));
        assert(first + later + none =~= first + later);
    }
}

proof fn entries_len_nonneg(results: Seq<SearchResult>, n: int)
    ensures
        entries_len(results, n) >= 0,
    decreases n,
{
    if n > 0 {
        entries_len_nonneg(results, n - 1);
    }
}

/// A result is shown, with its path, its score and all of its text, where the
/// heading and the entries up to it fit the budget.
pub proof fn results_that_fit_are_shown(results: Seq<SearchResult>, budget: nat, i: int)
    requires
        0 <= i < results.len(),
        "## Relevant Memory\n\n"@.len() + entries_len(results, i + 1) <= budget,
    ensures
        text::starts_with(clamped(results, budget), "## Relevant Memory\n\n"@),
        text::contains(
            clamped(results, budget),
            "### "@ + results[i].path@ + " (score: "@ + results[i].score.label@ + ")\n"@
                + results[i].text@ + "\n\n"@,
        ),
{
    reveal_strlit("### ");
    let head = MEMORY_HEADER@;
    let entry = chunk_entry(results[i]);
    entries_len_of_rest(results, i + 1);
    entries_len_nonneg(results.drop_first(), i);
    assert(chunk_entry(results[0]).len() > 0);
    fitting_entry_occurs(results, head.len() as int, budget as int, i);
    let all = fitting_entries(results, head.len() as int, budget as int);
    let none = Seq::<char>::empty();
    text::occurs_in_more(head, all, none, entry);
    assert(head + all + none =~= clamped(results, budget));
    assert(clamped(results, budget).take(head.len() as int) =~= head);
}

/// Where not even the first result fits, it is shown from its start on as far as
/// the budget goes, with a note of the cut at the end.
pub proof fn a_first_result_is_cut_not_dropped(results: Seq<SearchResult>, budget: nat, n: int)
    requires
        results.len() > 0,
        "## Relevant Memory\n\n"@.len() + entries_len(results, 1) > budget,
        0 <= n,
        budget == "## Relevant Memory\n\n"@.len() + n + "\n...[truncated]"@.len(),
    ensures
        clamped(results, budget) == "## Relevant Memory\n\n"@ + ("### "@ + results[0].path@
            + " (score: "@ + results[0].score.label@ + ")\n"@ + results[0].text@ + "\n\n"@).take(
            n,
        ) + "\n...[truncated]"@,
{
    reveal_strlit("\n...[truncated]");
    assert(entries_len(results, 0) == 0);
    let entry = chunk_entry(results[0]);
    assert(entry.len() == entries_len(results, 1));
    assert(text::take_at_most(entry, n as nat) =~= entry.take(n));
    assert(clamped(results, budget) =~= MEMORY_HEADER@ + entry.take(n) + TRUNCATED@);
}

proof fn all_of_kind_stay(chunks: Seq<SearchResult>, kind: MemorySourceKind, own: MemorySourceKind)
    requires
        forall|i: int| 0 <= i < chunks.len() ==> kind_of(#[trigger] chunks[i]) == own,
    ensures
        of_kind(chunks, kind) == if kind == own {
            chunks
        } else {
            Seq::<SearchResult>::empty()
        },
    decreases chunks.len(),
{
    reveal(Seq::filter);
    if chunks.len() > 0 {
        let less = chunks.drop_last();
        assert forall|i: int| 0 <= i < less.len() implies kind_of(#[trigger] less[i]) == own by {
            assert(less[i] == chunks[i]);
        }
        all_of_kind_stay(less, kind, own);
        assert(kind_of(chunks[chunks.len() - 1]) == own);
        assert(chunks == less.push(chunks.last()));
    } else {
        assert(of_kind(chunks, kind) =~= Seq::<SearchResult>::empty());
        assert(chunks =~= Seq::<SearchResult>::empty());
    }
}

proof fn some_of_kind(chunks: Seq<SearchResult>, kind: MemorySourceKind, own: MemorySourceKind, n: nat)
    ensures
        of_kind(seqs::at_most(of_kind(chunks, own), n), kind) == if kind == own {
            seqs::at_most(of_kind(chunks, own), n)
        } else {
            Seq::<SearchResult>::empty()
        },
        of_kind(of_kind(chunks, own), kind) == if kind == own {
            of_kind(chunks, own)
        } else {
            Seq::<SearchResult>::empty()
        },
{
    let all = of_kind(chunks, own);
    let some = seqs::at_most(all, n);
    let keep = |c: SearchResult| kind_of(c) == own;
    assert forall|i: int| 0 <= i < all.len() implies kind_of(#[trigger] all[i]) == own by {
        seqs::filter_sound(chunks, keep, i);
    }
    assert forall|i: int| 0 <= i < some.len() implies kind_of(#[trigger] some[i]) == own by {
        assert(some[i] == all[i]);
    }
    all_of_kind_stay(all, kind, own);
    all_of_kind_stay(some, kind, own);
}

proof fn kinds_of_both(a: Seq<SearchResult>, b: Seq<SearchResult>, kind: MemorySourceKind)
    ensures
        of_kind(a + b, kind) == of_kind(a, kind) + of_kind(b, kind),
{
    let keep = |c: SearchResult| kind_of(c) == kind;
    Seq::filter_distributes_over_add(a, b, keep);
}

/// Of each kind the leading chunks are shown, in their order: long-term ones up to
/// four under a long-term bias, one under a short-term bias, two otherwise; daily
/// and session ones up to four and two under a short-term bias, two and one
/// otherwise, but under a long-term bias three and one and only where there is no
/// long-term chunk; and those of no particular kind all.
pub proof fn each_kind_has_its_place(
    chunks: Seq<SearchResult>,
    bias: MemoryRoutingBias,
    kind: MemorySourceKind,
)
    ensures
        ({
            let shown = selected_chunks(chunks, bias);
            let long_term = of_kind(chunks, MemorySourceKind::LongTerm);
            let eased = bias == MemoryRoutingBias::LongTerm && long_term.len() > 0;
            of_kind(shown, kind) == match kind {
                MemorySourceKind::LongTerm => seqs::at_most(
                    long_term,
                    match bias {
                        MemoryRoutingBias::LongTerm => 4,
                        MemoryRoutingBias::ShortTerm => 1,
                        MemoryRoutingBias::Neutral => 2,
                    },
                ),
                MemorySourceKind::Daily => if eased {
                    Seq::empty()
                } else {
                    seqs::at_most(
                        of_kind(chunks, MemorySourceKind::Daily),
                        match bias {
                            MemoryRoutingBias::LongTerm => 3,
                            MemoryRoutingBias::ShortTerm => 4,
                            MemoryRoutingBias::Neutral => 2,
                        },
                    )
                },
                MemorySourceKind::Session => if eased {
                    Seq::empty()
                } else {
                    seqs::at_most(
                        of_kind(chunks, MemorySourceKind::Session),
                        if bias == MemoryRoutingBias::ShortTerm {
                            2
                        } else {
                            1
                        },
                    )
                },
                MemorySourceKind::Other => of_kind(chunks, MemorySourceKind::Other),
                MemorySourceKind::Fact => Seq::empty(),
            }
        }),
{
    let long_term = of_kind(chunks, MemorySourceKind::LongTerm);
    let daily = of_kind(chunks, MemorySourceKind::Daily);
    let session = of_kind(chunks, MemorySourceKind::Session);
    let other = of_kind(chunks, MemorySourceKind::Other);
    some_of_kind(chunks, kind, MemorySourceKind::Other, 0);
    let shown = selected_chunks(chunks, bias);
    let none = Seq::<SearchResult>::empty();
    match bias {
        MemoryRoutingBias::LongTerm => {
            some_of_kind(chunks, kind, MemorySourceKind::LongTerm, 4);
            some_of_kind(chunks, kind, MemorySourceKind::Daily, 3);
            some_of_kind(chunks, kind, MemorySourceKind::Session, 1);
            let l = seqs::at_most(long_term, 4);
            let d = seqs::at_most(daily, 3);
            let e = seqs::at_most(session, 1);
            kinds_of_both(l, other, kind);
            kinds_of_both(d, e, kind);
            kinds_of_both(d + e, other, kind);
            if long_term.len() == 0 {
                assert(seqs::at_most(long_term, 4) =~= none);
            }
        },
        MemoryRoutingBias::ShortTerm => {
            some_of_kind(chunks, kind, MemorySourceKind::Daily, 4);
            some_of_kind(chunks, kind, MemorySourceKind::Session, 2);
            some_of_kind(chunks, kind, MemorySourceKind::LongTerm, 1);
            let d = seqs::at_most(daily, 4);
            let e = seqs::at_most(session, 2);
            let l = seqs::at_most(long_term, 1);
            kinds_of_both(d, e, kind);
            kinds_of_both(d + e, l, kind);
            kinds_of_both(d + e + l, other, kind);
        },
        MemoryRoutingBias::Neutral => {
            some_of_kind(chunks, kind, MemorySourceKind::LongTerm, 2);
            some_of_kind(chunks, kind, MemorySourceKind::Daily, 2);
            some_of_kind(chunks, kind, MemorySourceKind::Session, 1);
            let l = seqs::at_most(long_term, 2);
            let d = seqs::at_most(daily, 2);
            let e = seqs::at_most(session, 1);
            kinds_of_both(l, d, kind);
            kinds_of_both(l + d, e, kind);
            kinds_of_both(l + d + e, other, kind);
        },
    }
    match kind {
        MemorySourceKind::LongTerm => {
            assert(of_kind(shown, kind) =~= seqs::at_most(
                long_term,
                match bias {
                    MemoryRoutingBias::LongTerm => 4,
                    MemoryRoutingBias::ShortTerm => 1,
                    MemoryRoutingBias::Neutral => 2,
                },
            ));
        },
        MemorySourceKind::Daily => {
            assert(of_kind(shown, kind) =~= if bias == MemoryRoutingBias::LongTerm
                && long_term.len() > 0 {
                none
            } else {
                seqs::at_most(
                    daily,
                    match bias {
                        MemoryRoutingBias::LongTerm => 3,
                        MemoryRoutingBias::ShortTerm => 4,
                        MemoryRoutingBias::Neutral => 2,
                    },
                )
            });
        },
        MemorySourceKind::Session => {
            assert(of_kind(shown, kind) =~= if bias == MemoryRoutingBias::LongTerm
                && long_term.len() > 0 {
                none
            } else {
                seqs::at_most(
                    session,
                    if bias == MemoryRoutingBias::ShortTerm {
                        2
                    } else {
                        1
                    },
                )
            });
        },
        MemorySourceKind::Other => {
            assert(of_kind(shown, kind) =~= other);
        },
        MemorySourceKind::Fact => {
            assert(of_kind(shown, kind) =~= none);
        },
    }
}

/// What a bias is for is shown first: recent notes under a short-term bias,
/// long-term memories otherwise.
pub proof fn what_is_favoured_comes_first(chunks: Seq<SearchResult>, bias: MemoryRoutingBias)
    ensures
        ({
            let shown = selected_chunks(chunks, bias);
            let first = of_kind(
                chunks,
                if bias == MemoryRoutingBias::ShortTerm {
                    MemorySourceKind::Daily
                } else {
                    MemorySourceKind::LongTerm
                },
            );
            first.len() > 0 ==> shown.len() > 0 && shown[0] == first[0]
        }),
{
}

/// A chunk is shown only where it is among the hits and no fact among them says
/// what it says; one of no particular kind of which that holds is shown.
pub proof fn chunks_beside_facts(hits: Seq<MemoryHit>, bias: MemoryRoutingBias, chunk: SearchResult)
    ensures
        shown_chunks(hits, bias).contains(chunk) ==> hit_chunks(hits).contains(chunk)
            && !memory_retrieval::told_by_fact(chunk, hit_facts(hits)),
        hit_chunks(hits).contains(chunk) && !memory_retrieval::told_by_fact(chunk, hit_facts(hits))
            && kind_of(chunk) == MemorySourceKind::Other ==> shown_chunks(hits, bias).contains(
            chunk,
        ),
{
    let keep = |c: SearchResult| !memory_retrieval::told_by_fact(c, hit_facts(hits));
    let chunks = hit_chunks(hits);
    let fresh = chunks.filter(keep);
    let shown = selected_chunks(fresh, bias);
    let is_other = |c: SearchResult| kind_of(c) == MemorySourceKind::Other;
    if shown.contains(chunk) {
        let i = choose|i: int| 0 <= i < shown.len() && shown[i] == chunk;
        selected_chunks_are_given(fresh, bias, i);
        let k = choose|k: int| 0 <= k < fresh.len() && fresh[k] == chunk;
        seqs::filter_sound(chunks, keep, k);
    }
    if chunks.contains(chunk) && keep(chunk) && is_other(chunk) {
        let i = choose|i: int| 0 <= i < chunks.len() && chunks[i] == chunk;
        seqs::filter_holds(chunks, keep, i);
        let k = choose|k: int| 0 <= k < fresh.len() && fresh[k] == chunk;
        seqs::filter_holds(fresh, is_other, k);
        each_kind_has_its_place(fresh, bias, MemorySourceKind::Other);
        let own = of_kind(shown, MemorySourceKind::Other);
        let at = choose|at: int| 0 <= at < own.len() && own[at] == chunk;
        seqs::filter_sound(shown, is_other, at);
    }
}

proof fn selected_chunks_are_given(chunks: Seq<SearchResult>, bias: MemoryRoutingBias, i: int)
    requires
        0 <= i < selected_chunks(chunks, bias).len(),
    ensures
        chunks.contains(selected_chunks(chunks, bias)[i]),
{
    kind_is_given(chunks, MemorySourceKind::LongTerm);
    kind_is_given(chunks, MemorySourceKind::Daily);
    kind_is_given(chunks, MemorySourceKind::Session);
    kind_is_given(chunks, MemorySourceKind::Other);
}

proof fn kind_is_given(chunks: Seq<SearchResult>, kind: MemorySourceKind)
    ensures
        forall|i: int|
            0 <= i < of_kind(chunks, kind).len() ==> chunks.contains(
                #[trigger] of_kind(chunks, kind)[i],
            ),
{
    let keep = |c: SearchResult| kind_of(c) == kind;
    assert forall|i: int| 0 <= i < of_kind(chunks, kind).len() implies chunks.contains(
        #[trigger] of_kind(chunks, kind)[i],
    ) by {
        seqs::filter_sound(chunks, keep, i);
    }
}

/// Beside facts that fit their share, a chunk that is shown stands in the context
/// with all of its text where it fits what is left.
pub proof fn fitting_chunks_stand_in_the_context(
    hits: Seq<MemoryHit>,
    bias: MemoryRoutingBias,
    budget: nat,
    i: int,
)
    requires
        0 <= i < shown_chunks(hits, bias).len(),
        hits.len() > 0,
        facts_section(hit_facts(hits), facts_budget(hits, bias, budget)).len()
            + "## Relevant Memory\n\n"@.len() + entries_len(shown_chunks(hits, bias), i + 1)
            <= budget,
    ensures
        text::contains(
            context_from_hits(hits, bias, budget),
            "### "@ + shown_chunks(hits, bias)[i].path@ + " (score: "@ + shown_chunks(
                hits,
                bias,
            )[i].score.label@ + ")\n"@ + shown_chunks(hits, bias)[i].text@ + "\n\n"@,
        ),
{
    let shown = shown_chunks(hits, bias);
    let facts = facts_section(hit_facts(hits), facts_budget(hits, bias, budget));
    entries_len_of_rest(shown, i + 1);
    entries_len_nonneg(shown, i + 1);
    reveal_strlit("## Relevant Memory\n\n");
    let left = (budget - facts.len()) as nat;
    results_that_fit_are_shown(shown, left, i);
    let none = Seq::<char>::empty();
    text::occurs_in_more(facts, clamped(shown, left), none, chunk_entry(shown[i]));
    assert(facts + clamped(shown, left) + none =~= context_from_hits(hits, bias, budget));
}

/// A text that stands in for hits is told whole where there is room for it:
/// alone as it is, and behind the known facts without its blank ends.
pub proof fn the_fallback_is_told(facts: Seq<Fact>, fallback: Seq<char>, budget: nat)
    requires
        fallback.len() <= budget,
        budget > 0,
    ensures
        facts.len() == 0 ==> context_from_fallback(facts, fallback, budget) == fallback,
        facts.len() > 0 && text::trim(fallback).len() > 0 && ("## Known Facts\n\n"@ + fact_lines(
            facts,
        ) + "\n"@).len() <= budget / 3 && ("## Known Facts\n\n"@ + fact_lines(facts)
            + "\n"@).len() <= 1800 && ("## Known Facts\n\n"@ + fact_lines(facts) + "\n"@).len()
            + text::trim(fallback).len() <= budget ==> context_from_fallback(
            facts,
            fallback,
            budget,
        ) == "## Known Facts\n\n"@ + fact_lines(facts) + "\n"@ + text::trim(fallback),
        facts.len() > 0 && text::trim(fallback).len() == 0 && ("## Known Facts\n\n"@ + fact_lines(
            facts,
        ) + "\n"@).len() <= budget ==> context_from_fallback(facts, fallback, budget)
            == "## Known Facts\n\n"@ + fact_lines(facts) + "\n"@,
{
    reveal_strlit("\n");
}

proof fn words_have_no_blank(s: Seq<char>)
    ensures
        forall|i: int|
            0 <= i < text::words(s).len() ==> (#[trigger] text::words(s)[i]).len() > 0
                && text::unseparated(text::words(s)[i], text::Separator::Whitespace),
{
    let pieces = text::split(s, text::Separator::Whitespace);
    let keep = |p: Seq<char>| p.len() > 0;
    text::pieces_are_unseparated(s, text::Separator::Whitespace);
    assert forall|i: int| 0 <= i < text::words(s).len() implies (
    #[trigger] text::words(s)[i]).len() > 0 && text::unseparated(
        text::words(s)[i],
        text::Separator::Whitespace,
    ) by {
        seqs::filter_sound(pieces, keep, i);
        let k = choose|k: int| 0 <= k < pieces.len() && pieces[k] == text::words(s)[i];
        assert(text::unseparated(pieces[k], text::Separator::Whitespace));
    }
}

/// A preview tells the words of a text, in order: all of them where there is
/// room, and else it begins with them and ends with an ellipsis.
pub proof fn previews_tell_the_words(s: Seq<char>, max_chars: nat)
    requires
        text::words(s).len() > 0,
    ensures
        preview(s, max_chars).len() <= max_chars ==> text::words(preview(s, max_chars))
            == text::words(s),
        preview(s, max_chars).len() > max_chars ==> preview(s, max_chars).len() == max_chars + 1
            && preview(s, max_chars).last() == '…' && preview(s, max_chars).take(max_chars as int)
            == text::joined(text::words(s), " "@).take(max_chars as int),
{
    reveal_strlit(" ");
    reveal_strlit("…");
    assert(" "@ =~= seq![' ']);
    let words = text::words(s);
    let by = text::Separator::Whitespace;
    words_have_no_blank(s);
    text::split_of_joined(words, ' ', by);
    text::nonempty_parts_stay(words);
    let line = text::joined(words, " "@);
    if line.len() > max_chars {
        assert(preview(s, max_chars).take(max_chars as int) =~= line.take(max_chars as int));
    }
}

/// Facts have their share of the budget beside chunks: a quarter and 1500
/// characters under a long-term bias, a sixth and 900 under a short-term one, a
/// third and 1500 otherwise. What exceeds the share is cut off there, and where
/// no chunk is shown the facts have all of the budget.
pub proof fn facts_have_their_share(hits: Seq<MemoryHit>, bias: MemoryRoutingBias, budget: nat)
    requires
        hits.len() > 0,
        budget > 0,
        hit_facts(hits).len() > 0,
    ensures
        ({
            let full = "## Known Facts\n\n"@ + fact_lines(hit_facts(hits)) + "\n"@;
            let share: nat = match bias {
                MemoryRoutingBias::LongTerm => if budget / 4 <= 1500 {
                    budget / 4
                } else {
                    1500
                },
                MemoryRoutingBias::ShortTerm => if budget / 6 <= 900 {
                    budget / 6
                } else {
                    900
                },
                MemoryRoutingBias::Neutral => if budget / 3 <= 1500 {
                    budget / 3
                } else {
                    1500
                },
            };
            let context = context_from_hits(hits, bias, budget);
            let chunks = shown_chunks(hits, bias);
            &&& chunks.len() > 0 && full.len() <= share ==> context == full + clamped(
                chunks,
                (budget - full.len()) as nat,
            )
            &&& chunks.len() > 0 && full.len() > share ==> context == cut_to_budget(full, share)
                + clamped(chunks, (budget - share) as nat)
            &&& chunks.len() == 0 && full.len() <= budget ==> context == full
        }),
{
    let full = "## Known Facts\n\n"@ + fact_lines(hit_facts(hits)) + "\n"@;
    reveal_strlit("\n");
    let share = facts_share(bias, budget);
    a_cut_text_begins_as_it_did(full, share);
    assert(share <= budget);
    let chunks = shown_chunks(hits, bias);
    if chunks.len() == 0 && full.len() <= budget {
        let left = (budget - full.len()) as nat;
        assert(clamped(chunks, left) =~= Seq::<char>::empty());
        assert(context_from_hits(hits, bias, budget) =~= full);
    }
}

/// The memory of a prompt comes from the hits wherever a search found a fact or a
/// long-term memory, or the bias is for recent memories and anything was found;
/// the long-term memory stands in where nothing durable was found, and the memory
/// files where nothing was.
pub proof fn contexts_come_from_what_was_found(
    succeeded: bool,
    hits: Seq<MemoryHit>,
    bias: MemoryRoutingBias,
    i: int,
)
    ensures
        context_plan(succeeded, hits, bias) == ContextPlan::FilesOrFacts <==> !succeeded
            || hits.len() == 0,
        succeeded && 0 <= i < hits.len() && (hits[i].kind() == MemorySourceKind::Fact
            || hits[i].kind() == MemorySourceKind::LongTerm) ==> context_plan(succeeded, hits, bias)
            == ContextPlan::Hits,
        succeeded && hits.len() > 0 && bias == MemoryRoutingBias::ShortTerm ==> context_plan(
            succeeded,
            hits,
            bias,
        ) == ContextPlan::Hits,
        context_plan(succeeded, hits, bias) == ContextPlan::LongTermOrHits ==> bias
            != MemoryRoutingBias::ShortTerm && (0 <= i < hits.len() ==> hits[i].kind()
            != MemorySourceKind::Fact && hits[i].kind() != MemorySourceKind::LongTerm),
{
}

} // verus!
