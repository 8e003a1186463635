//! Summaries of conversations: candidates, their selection, and the daily document.

use crate::dates;
use crate::dates::CalendarDate;
use crate::records;
use crate::text;
use crate::token_set;
use vstd::prelude::*;

verus! {

pub const DEFAULT_TOPIC: &'static str = "General";

/// The importance of a candidate that was read from a plain list: one half, as
/// the bits of a single-precision number.
pub const LIST_IMPORTANCE_BITS: u32 = 0x3f00_0000;

#[derive(Clone, Copy, Debug, PartialEq, Eq, Structural)]
pub enum SummaryClass {
    Discard,
    Daily,
    Fact,
    Memory,
}

/// A statement that a summary proposes to remember. The importance is held as
/// the bits of a single-precision number.
#[derive(Clone, Debug)]
pub struct SummaryCandidate {
    pub content: String,
    pub classification: SummaryClass,
    pub topic: String,
    pub importance_bits: u32,
    pub fact_type: Option<String>,
    pub duplicate_key: Option<String>,
}

#[derive(Clone, Debug, PartialEq, Eq)]
pub struct DailyTopicBlock {
    pub topic: String,
    pub items: Vec<String>,
}

#[derive(Clone, Debug)]
pub struct RetainedSummaryCandidates {
    pub daily: Vec<SummaryCandidate>,
    pub facts: Vec<SummaryCandidate>,
    pub memory: Vec<SummaryCandidate>,
}

/// What a candidate says.
pub struct CandidateModel {
    pub content: Seq<char>,
    pub classification: SummaryClass,
    pub topic: Seq<char>,
    pub importance_bits: u32,
    pub fact_type: Option<Seq<char>>,
    pub duplicate_key: Option<Seq<char>>,
}

/// What a topic block says.
pub struct BlockModel {
    pub topic: Seq<char>,
    pub items: Seq<Seq<char>>,
}

impl View for SummaryCandidate {
    type V = CandidateModel;

    open spec fn view(&self) -> CandidateModel {
        CandidateModel {
            content: self.content@,
            classification: self.classification,
            topic: self.topic@,
            importance_bits: self.importance_bits,
            fact_type: text::opt_view(self.fact_type),
            duplicate_key: text::opt_view(self.duplicate_key),
        }
    }
}

impl View for DailyTopicBlock {
    type V = BlockModel;

    open spec fn view(&self) -> BlockModel {
        BlockModel { topic: self.topic@, items: text::views(self.items@) }
    }
}

impl SummaryCandidate {
    pub fn copy(&self) -> (r: Self)
        ensures
            r == *self,
    {
        SummaryCandidate {
            content: self.content.clone(),
            classification: self.classification,
            topic: self.topic.clone(),
            importance_bits: self.importance_bits,
            fact_type: records::copy_option(&self.fact_type),
            duplicate_key: records::copy_option(&self.duplicate_key),
        }
    }
}

pub open spec fn candidate_models(s: Seq<SummaryCandidate>) -> Seq<CandidateModel> {
    Seq::new(s.len(), |i: int| s[i]@)
}

pub open spec fn block_models(s: Seq<DailyTopicBlock>) -> Seq<BlockModel> {
    Seq::new(s.len(), |i: int| s[i]@)
}

pub const SUMMARY_PROMPT: &'static str = r#"Summarize this conversation by extracting memory candidates.

Return a JSON array only. Each item must contain:
- "content": concise standalone statement
- "classification": one of "discard", "daily", "fact", "memory"
- "topic": short topic label
- "importance": 0.0 to 1.0
- "fact_type": optional for "fact" items; one of "preference", "decision", "event", "person", "rule"
- "duplicate_key": optional short key for deduplication

Rules:
- Prefer under-selection over over-selection
- Discard greetings, identity chatter, small talk, and repeated hello/hi exchanges
- Discard raw command output, system stats, port listings, and one-off execution receipts
- Discard bilingual restatements of the same point
- Keep only decisions, meaningful changes, blockers, or context likely to matter in later turns
- Use "daily" only for short-term context worth keeping beyond this turn
- Use "fact" for stable preferences, rules, identities, or durable decisions
- Use "memory" for long-lived narrative context
- Topic labels should be short and reusable
"#;

pub fn build_summary_prompt() -> (r: String)
    ensures
        r@ == SUMMARY_PROMPT@,
{
    SUMMARY_PROMPT.to_owned()
}

// Items and topics

/// A topic without white space at its ends, or the default one in place of none.
pub open spec fn topic_text(topic: Seq<char>) -> Seq<char> {
    if text::trim(topic).len() == 0 {
        DEFAULT_TOPIC@
    } else {
        text::trim(topic)
    }
}

pub fn normalize_topic(topic: &str) -> (r: String)
    ensures
        r@ == topic_text(topic@),
{
    let trimmed = text::trimmed(topic);
    if trimmed.as_str().is_empty() {
        DEFAULT_TOPIC.to_owned()
    } else {
        trimmed
    }
}

/// An item without list dashes and white space at its ends, with plain line feeds.
pub open spec fn item_text(value: Seq<char>) -> Seq<char> {
    text::replaced(
        text::trim(text::strip_start(text::trim(value), "- "@)),
        "\r\n"@,
        "\n"@,
    )
}

pub fn normalize_item(value: &str) -> (r: String)
    ensures
        r@ == item_text(value@),
{
    let chars = text::chars_of(value);
    let dash = text::chars_of("- ");
    let body = text::trim_chars(
        text::strip_start_chars(text::trim_chars(chars.as_slice()), dash.as_slice()),
    );
    proof {
        reveal_strlit("\r\n");
    }
    text::replace_chars(body, "\r\n", "\n")
}

pub open spec fn is_blank_char(c: char) -> bool {
    c == ' ' || c == '\t' || c == '\n' || c == '\r'
}

/// The text without blanks, tabs and line ends.
pub open spec fn compacted(s: Seq<char>) -> Seq<char> {
    s.filter(|c: char| !is_blank_char(c))
}

fn compact(s: &str) -> (r: String)
    ensures
        r@ == compacted(s@),
{
    let chars = text::chars_of(s);
    let mut out = String::new();
    let n: usize = chars.len();
    let ghost keep = |c: char| !is_blank_char(c);
    proof {
        crate::seqs::filter_start(chars@, keep);
    }
    for i in 0..n
        invariant
            n == chars@.len(),
            keep == (|c: char| !is_blank_char(c)),
            out@ == chars@.take(i as int).filter(keep),
    {
        proof {
            crate::seqs::filter_step(chars@, keep, i as int);
        }
        let c: char = chars[i];
        if !(c == ' ' || c == '\t' || c == '\n' || c == '\r') {
            out.push(c);
        }
    }
    assert(chars@.take(n as int) == chars@);
    out
}

pub open spec fn trivial_greeting(s: Seq<char>) -> bool {
    ||| s == "hi"@
    ||| s == "hello"@
    ||| s == "hey"@
    ||| s == "你好"@
    ||| s == "您好"@
    ||| s == "嗨"@
    ||| s == "早上好"@
    ||| s == "晚上好"@
    ||| s == "收到"@
}

pub open spec fn has_status_marker(s: Seq<char>) -> bool {
    ||| text::contains(s, "task triggered successfully"@)
    ||| text::contains(s, "stop requested"@)
    ||| text::contains(s, "start requested"@)
    ||| text::contains(s, "uptime"@)
    ||| text::contains(s, "whoami"@)
    ||| text::contains(s, "lsof"@)
    ||| text::contains(s, "df -h"@)
    ||| text::contains(s, "port "@)
    ||| text::contains(s, "delivered"@)
}

pub open spec fn has_small_talk_marker(s: Seq<char>) -> bool {
    ||| text::contains(s, "just greeted"@)
    ||| text::contains(s, "casual greeting"@)
    ||| text::contains(s, "exchange of greetings"@)
    ||| text::contains(s, "only greeted"@)
    ||| text::contains(s, "greeted the assistant"@)
    ||| text::contains(s, "greeted the user"@)
    ||| text::contains(s, "问候"@)
    ||| text::contains(s, "打了招呼"@)
    ||| text::contains(s, "简单打了招呼"@)
    ||| text::contains(s, "身份试探"@)
}

/// What an item says in lower case is not worth keeping: a short greeting, a
/// report of a command, or small talk.
pub open spec fn low_value(lower: Seq<char>) -> bool {
    ||| text::utf8_len(lower) <= 12 && trivial_greeting(compacted(lower))
    ||| has_status_marker(lower)
    ||| has_small_talk_marker(lower)
}

fn is_trivial_greeting(s: &str) -> (r: bool)
    ensures
        r == trivial_greeting(s@),
{
    text::same_text(s, "hi") || text::same_text(s, "hello") || text::same_text(s, "hey")
        || text::same_text(s, "你好") || text::same_text(s, "您好") || text::same_text(s, "嗨")
        || text::same_text(s, "早上好") || text::same_text(s, "晚上好") || text::same_text(s, "收到")
}

/// Whether a text, given in lower case, is not worth keeping.
pub fn lowered_is_low_value(lower: &str) -> (r: bool)
    ensures
        r == low_value(lower@),
{
    if text::byte_len(lower) <= 12 && is_trivial_greeting(compact(lower).as_str()) {
        return true;
    }
    let status = text::text_contains(lower, "task triggered successfully") || text::text_contains(
        lower,
        "stop requested",
    ) || text::text_contains(lower, "start requested") || text::text_contains(lower, "uptime")
        || text::text_contains(lower, "whoami") || text::text_contains(lower, "lsof")
        || text::text_contains(lower, "df -h") || text::text_contains(lower, "port ")
        || text::text_contains(lower, "delivered");
    if status {
        return true;
    }
    text::text_contains(lower, "just greeted") || text::text_contains(lower, "casual greeting")
        || text::text_contains(lower, "exchange of greetings") || text::text_contains(
        lower,
        "only greeted",
    ) || text::text_contains(lower, "greeted the assistant") || text::text_contains(
        lower,
        "greeted the user",
    ) || text::text_contains(lower, "问候") || text::text_contains(lower, "打了招呼")
        || text::text_contains(lower, "简单打了招呼") || text::text_contains(lower, "身份试探")
}

pub fn looks_low_value(value: &str) -> (r: bool)
    ensures
        r == low_value(text::lowercase(value@)),
{
    lowered_is_low_value(text::to_lowercase(value).as_str())
}

// Reading candidates

/// `s` from its end backwards without fence marks, trimmed.
pub open spec fn fenced_body(body: Seq<char>) -> Seq<char> {
    text::trim(text::strip_end(text::trim(body), "```"@))
}

/// The text inside a code fence, or the trimmed text where there is none.
pub open spec fn unfenced(raw: Seq<char>) -> Seq<char> {
    let trimmed = text::trim(raw);
    if text::starts_with(trimmed, "```json"@) {
        fenced_body(trimmed.skip("```json"@.len() as int))
    } else if text::starts_with(trimmed, "```"@) {
        fenced_body(trimmed.skip("```"@.len() as int))
    } else {
        trimmed
    }
}

fn cut_fence(body: &[char]) -> (r: String)
    ensures
        r@ == fenced_body(body@),
{
    let mark = text::chars_of("```");
    text::string_of(
        text::trim_chars(text::strip_end_chars(text::trim_chars(body), mark.as_slice())),
    )
}

pub fn strip_json_fence(raw: &str) -> (r: String)
    ensures
        r@ == unfenced(raw@),
{
    let chars = text::chars_of(raw);
    let trimmed = text::trim_chars(chars.as_slice());
    let json = text::chars_of("```json");
    let plain = text::chars_of("```");
    let n: usize = trimmed.len();
    if text::starts_with_chars(trimmed, json.as_slice()) {
        let body = vstd::slice::slice_subrange(trimmed, json.len(), n);
        assert(body@ == trimmed@.skip(json@.len() as int));
        return cut_fence(body);
    }
    if text::starts_with_chars(trimmed, plain.as_slice()) {
        let body = vstd::slice::slice_subrange(trimmed, plain.len(), n);
        assert(body@ == trimmed@.skip(plain@.len() as int));
        return cut_fence(body);
    }
    text::string_of(trimmed)
}

/// The text from the first `[` to the last `]`, where they stand in this order.
pub open spec fn bracketed(s: Seq<char>) -> Option<Seq<char>> {
    match (text::first_index(s, '['), text::last_index(s, ']')) {
        (Some(start), Some(end)) => if end > start {
            Some(s.subrange(start, end + 1))
        } else {
            None
        },
        _ => None,
    }
}

/// The array that a text holds in the midst of prose.
pub fn extract_embedded_json(raw: &str) -> (r: Option<String>)
    ensures
        text::opt_view(r) == bracketed(raw@),
{
    let chars = text::chars_of(raw);
    match (text::find_first(chars.as_slice(), '['), text::find_last(chars.as_slice(), ']')) {
        (Some(start), Some(end)) => {
            let n: usize = chars.len();
            if end > start {
                let part = vstd::slice::slice_subrange(chars.as_slice(), start, end + 1);
                Some(text::string_of(part))
            } else {
                None
            }
        },
        _ => None,
    }
}

/// `s` without the digits at its start.
pub open spec fn after_digits(s: Seq<char>) -> Seq<char>
    decreases s.len(),
{
    if s.len() > 0 && dates::is_digit(s[0]) {
        after_digits(s.drop_first())
    } else {
        s
    }
}

/// The item that a line of a list holds: after a dash, a star or a number.
pub open spec fn list_item(line: Seq<char>) -> Option<Seq<char>> {
    let trimmed = text::trim(line);
    let rest = after_digits(trimmed);
    let body = if text::starts_with(trimmed, "- "@) || text::starts_with(trimmed, "* "@) {
        Some(text::trim(trimmed.skip(2)))
    } else if text::starts_with(rest, ". "@) || text::starts_with(rest, ") "@) {
        Some(text::trim(rest.skip(2)))
    } else {
        None
    };
    match body {
        Some(item) => if item.len() == 0 {
            None
        } else {
            Some(item)
        },
        None => None,
    }
}

pub open spec fn list_candidate(item: Seq<char>) -> CandidateModel {
    CandidateModel {
        content: item,
        classification: SummaryClass::Daily,
        topic: DEFAULT_TOPIC@,
        importance_bits: LIST_IMPORTANCE_BITS,
        fact_type: None,
        duplicate_key: None,
    }
}

/// The candidates that the lines of a list hold, in order.
pub open spec fn list_candidates(lines: Seq<Seq<char>>) -> Seq<CandidateModel>
    decreases lines.len(),
{
    if lines.len() == 0 {
        Seq::empty()
    } else {
        let before = list_candidates(lines.drop_last());
        match list_item(lines.last()) {
            Some(item) => before.push(list_candidate(item)),
            None => before,
        }
    }
}

fn skip_digits<'a>(s: &'a [char]) -> (r: &'a [char])
    ensures
        r@ == after_digits(s@),
{
    let n: usize = s.len();
    let mut i: usize = 0;
    assert(s@.skip(0) == s@);
    while i < n && '0' <= s[i] && s[i] <= '9'
        invariant
            n == s@.len(),
            i <= n,
            after_digits(s@) == after_digits(s@.skip(i as int)),
        decreases n - i,
    {
        assert(s@.skip(i as int).drop_first() == s@.skip(i + 1));
        i = i + 1;
    }
    let r = vstd::slice::slice_subrange(s, i, n);
    assert(r@ == s@.skip(i as int));
    r
}

fn trimmed_after(s: &[char], from: usize) -> (r: Option<String>)
    requires
        from <= s@.len(),
    ensures
        text::opt_view(r) == (if text::trim(s@.skip(from as int)).len() == 0 {
            None
        } else {
            Some(text::trim(s@.skip(from as int)))
        }),
{
    let n: usize = s.len();
    let rest = vstd::slice::slice_subrange(s, from, n);
    assert(rest@ == s@.skip(from as int));
    let item = text::trim_chars(rest);
    if item.len() == 0 {
        None
    } else {
        Some(text::string_of(item))
    }
}

pub fn read_list_item(line: &str) -> (r: Option<String>)
    ensures
        text::opt_view(r) == list_item(line@),
{
    let chars = text::chars_of(line);
    let trimmed = text::trim_chars(chars.as_slice());
    proof {
        reveal_strlit("- ");
        reveal_strlit("* ");
        reveal_strlit(". ");
        reveal_strlit(") ");
    }
    let dash = text::chars_of("- ");
    let star = text::chars_of("* ");
    if text::starts_with_chars(trimmed, dash.as_slice()) || text::starts_with_chars(
        trimmed,
        star.as_slice(),
    ) {
        return trimmed_after(trimmed, 2);
    }
    let rest = skip_digits(trimmed);
    let dot = text::chars_of(". ");
    let paren = text::chars_of(") ");
    if text::starts_with_chars(rest, dot.as_slice()) || text::starts_with_chars(
        rest,
        paren.as_slice(),
    ) {
        return trimmed_after(rest, 2);
    }
    None
}

pub open spec fn candidates_or_none(s: Seq<CandidateModel>) -> Option<Seq<CandidateModel>> {
    if s.len() == 0 {
        None
    } else {
        Some(s)
    }
}

pub open spec fn opt_candidates(s: Option<Vec<SummaryCandidate>>) -> Option<Seq<CandidateModel>> {
    match s {
        Some(v) => Some(candidate_models(v@)),
        None => None,
    }
}

/// Reads the candidates of a list with dashes, stars or numbers.
pub fn parse_list_fallback(raw: &str) -> (r: Option<Vec<SummaryCandidate>>)
    ensures
        opt_candidates(r) == candidates_or_none(list_candidates(text::lines(raw@))),
{
    let lines = text::lines_of(raw);
    let ghost all = text::lines(raw@);
    let mut out: Vec<SummaryCandidate> = Vec::new();
    let n: usize = lines.len();
    assert(candidate_models(out@) == list_candidates(all.take(0)));
    for i in 0..n
        invariant
            n == lines@.len(),
            all == text::views(lines@),
            candidate_models(out@) == list_candidates(all.take(i as int)),
    {
        assert(all.take(i + 1).drop_last() == all.take(i as int));
        assert(all[i as int] == lines@[i as int]@);
        match read_list_item(lines[i].as_str()) {
            Some(item) => {
                let candidate = SummaryCandidate {
                    content: item,
                    classification: SummaryClass::Daily,
                    topic: DEFAULT_TOPIC.to_owned(),
                    importance_bits: LIST_IMPORTANCE_BITS,
                    fact_type: None,
                    duplicate_key: None,
                };
                let ghost before = candidate_models(out@);
                assert(candidate@ == list_candidate(item@));
                out.push(candidate);
                assert(candidate_models(out@) == before.push(candidate@));
            },
            None => {},
        }
    }
    assert(all.take(n as int) == all);
    if out.len() == 0 {
        None
    } else {
        Some(out)
    }
}

/// The candidates of a reply whose unfenced text is `stripped`: the array that
/// it is, else the array that it holds, else the list that it writes.
pub fn choose_candidates(
    stripped: &str,
    strict: Option<Vec<SummaryCandidate>>,
    embedded: Option<Vec<SummaryCandidate>>,
) -> (r: Option<Vec<SummaryCandidate>>)
    ensures
        strict is Some ==> r == strict,
        strict is None && embedded is Some ==> r == embedded,
        strict is None && embedded is None ==> opt_candidates(r) == candidates_or_none(
            list_candidates(text::lines(stripped@)),
        ),
{
    if strict.is_some() {
        return strict;
    }
    if embedded.is_some() {
        return embedded;
    }
    parse_list_fallback(stripped)
}

/// How reading the array that a reply holds in its midst ended.
#[derive(Clone, Debug)]
pub enum EmbeddedOutcome {
    Absent,
    Read,
    Failed(String),
}

pub open spec fn candidates_error_text(
    strict_error: Option<Seq<char>>,
    embedded: EmbeddedOutcome,
) -> Seq<char> {
    match strict_error {
        None => "no error (strict JSON parsed successfully)"@,
        Some(error) => match embedded {
            EmbeddedOutcome::Read => "no error (embedded JSON parsed successfully)"@,
            EmbeddedOutcome::Failed(inner) => "strict: "@ + error + "; embedded: "@ + inner@,
            EmbeddedOutcome::Absent => "strict: "@ + error + "; no embedded JSON array found"@,
        },
    }
}

/// Says why the candidates of a reply could not be read.
pub fn parse_candidates_error(strict_error: Option<&str>, embedded: &EmbeddedOutcome) -> (r: String)
    ensures
        r@ == candidates_error_text(
            match strict_error {
                Some(e) => Some(e@),
                None => None,
            },
            *embedded,
        ),
{
    match strict_error {
        None => "no error (strict JSON parsed successfully)".to_owned(),
        Some(error) => match embedded {
            EmbeddedOutcome::Read => "no error (embedded JSON parsed successfully)".to_owned(),
            EmbeddedOutcome::Failed(inner) => {
                let mut out = "strict: ".to_owned();
                out.append(error);
                out.append("; embedded: ");
                out.append(inner.as_str());
                out
            },
            EmbeddedOutcome::Absent => {
                let mut out = "strict: ".to_owned();
                out.append(error);
                out.append("; no embedded JSON array found");
                out
            },
        },
    }
}

// Selection of candidates

/// A candidate that is not discarded and whose content is worth keeping.
pub open spec fn worth_keeping(c: CandidateModel) -> bool {
    &&& c.classification != SummaryClass::Discard
    &&& item_text(c.content).len() > 0
    &&& !low_value(text::lowercase(item_text(c.content)))
}

/// What tells repetitions of a candidate: the key that it brings, or its
/// content in lower case.
pub open spec fn repetition_key(c: CandidateModel) -> Seq<char> {
    match c.duplicate_key {
        Some(key) => if item_text(key).len() > 0 {
            item_text(key)
        } else {
            text::lowercase(item_text(c.content))
        },
        None => text::lowercase(item_text(c.content)),
    }
}

/// Two candidates of one class say the same; daily ones only under one topic.
pub open spec fn repeats(a: CandidateModel, b: CandidateModel) -> bool {
    &&& a.classification == b.classification
    &&& repetition_key(a) == repetition_key(b)
    &&& a.classification == SummaryClass::Daily ==> topic_text(a.topic) == topic_text(b.topic)
}

pub open spec fn cleaned(c: CandidateModel) -> CandidateModel {
    CandidateModel { content: item_text(c.content), topic: topic_text(c.topic), ..c }
}

/// A candidate before the last that is worth keeping says what the last says.
pub open spec fn repeats_earlier(s: Seq<CandidateModel>) -> bool {
    exists|j: int|
        0 <= j < s.len() - 1 && worth_keeping(#[trigger] s[j]) && repeats(s[j], s.last())
}

/// The candidates of a class that are retained: those worth keeping, without
/// repetitions of earlier ones.
pub open spec fn retained(s: Seq<CandidateModel>, class: SummaryClass) -> Seq<CandidateModel>
    decreases s.len(),
{
    if s.len() == 0 {
        Seq::empty()
    } else {
        let before = retained(s.drop_last(), class);
        if s.last().classification == class && worth_keeping(s.last()) && !repeats_earlier(s) {
            before.push(cleaned(s.last()))
        } else {
            before
        }
    }
}

fn is_worth_keeping(c: &SummaryCandidate) -> (r: bool)
    ensures
        r == worth_keeping(c@),
{
    if c.classification == SummaryClass::Discard {
        return false;
    }
    let item = normalize_item(c.content.as_str());
    !item.as_str().is_empty() && !looks_low_value(item.as_str())
}

fn repetition_key_of(c: &SummaryCandidate) -> (r: String)
    ensures
        r@ == repetition_key(c@),
{
    match &c.duplicate_key {
        Some(key) => {
            let item = normalize_item(key.as_str());
            if !item.as_str().is_empty() {
                return item;
            }
        },
        None => {},
    }
    text::to_lowercase(normalize_item(c.content.as_str()).as_str())
}

fn is_repeated(a: &SummaryCandidate, b: &SummaryCandidate) -> (r: bool)
    ensures
        r == repeats(a@, b@),
{
    if a.classification != b.classification {
        return false;
    }
    if !text::same_text(repetition_key_of(a).as_str(), repetition_key_of(b).as_str()) {
        return false;
    }
    a.classification != SummaryClass::Daily || text::same_text(
        normalize_topic(a.topic.as_str()).as_str(),
        normalize_topic(b.topic.as_str()).as_str(),
    )
}

fn is_repetition(candidates: &Vec<SummaryCandidate>, at: usize) -> (r: bool)
    requires
        at < candidates@.len(),
    ensures
        r == repeats_earlier(candidate_models(candidates@).take(at + 1)),
{
    let ghost s = candidate_models(candidates@).take(at + 1);
    for j in 0..at
        invariant
            at < candidates@.len(),
            s == candidate_models(candidates@).take(at + 1),
            forall|k: int|
                0 <= k < j ==> !(worth_keeping(#[trigger] s[k]) && repeats(s[k], s.last())),
    {
        assert(s[j as int] == candidates@[j as int]@);
        assert(s.last() == candidates@[at as int]@);
        if is_worth_keeping(&candidates[j]) && is_repeated(&candidates[j], &candidates[at]) {
            return true;
        }
    }
    false
}

fn clean(c: &SummaryCandidate) -> (r: SummaryCandidate)
    ensures
        r@ == cleaned(c@),
{
    SummaryCandidate {
        content: normalize_item(c.content.as_str()),
        classification: c.classification,
        topic: normalize_topic(c.topic.as_str()),
        importance_bits: c.importance_bits,
        fact_type: crate::records::copy_option(&c.fact_type),
        duplicate_key: crate::records::copy_option(&c.duplicate_key),
    }
}

proof fn models_push(s: Seq<SummaryCandidate>, c: SummaryCandidate)
    ensures
        candidate_models(s.push(c)) == candidate_models(s).push(c@),
{
}

pub fn retain_summary_candidates(candidates: Vec<SummaryCandidate>) -> (r: RetainedSummaryCandidates)
    ensures
        candidate_models(r.daily@) == retained(
            candidate_models(candidates@),
            SummaryClass::Daily,
        ),
        candidate_models(r.facts@) == retained(candidate_models(candidates@), SummaryClass::Fact),
        candidate_models(r.memory@) == retained(
            candidate_models(candidates@),
            SummaryClass::Memory,
        ),
{
    let mut daily: Vec<SummaryCandidate> = Vec::new();
    let mut facts: Vec<SummaryCandidate> = Vec::new();
    let mut memory: Vec<SummaryCandidate> = Vec::new();
    let ghost all = candidate_models(candidates@);
    let n: usize = candidates.len();
    assert(candidate_models(daily@) == retained(all.take(0), SummaryClass::Daily));
    assert(candidate_models(facts@) == retained(all.take(0), SummaryClass::Fact));
    assert(candidate_models(memory@) == retained(all.take(0), SummaryClass::Memory));
    for i in 0..n
        invariant
            n == candidates@.len(),
            all == candidate_models(candidates@),
            candidate_models(daily@) == retained(all.take(i as int), SummaryClass::Daily),
            candidate_models(facts@) == retained(all.take(i as int), SummaryClass::Fact),
            candidate_models(memory@) == retained(all.take(i as int), SummaryClass::Memory),
    {
        assert(all.take(i + 1).drop_last() == all.take(i as int));
        assert(all.take(i + 1).last() == candidates@[i as int]@);
        if is_worth_keeping(&candidates[i]) && !is_repetition(&candidates, i) {
            let kept = clean(&candidates[i]);
            match candidates[i].classification {
                SummaryClass::Discard => {},
                SummaryClass::Daily => {
                    proof {
                        models_push(daily@, kept);
                    }
                    daily.push(kept);
                },
                SummaryClass::Fact => {
                    proof {
                        models_push(facts@, kept);
                    }
                    facts.push(kept);
                },
                SummaryClass::Memory => {
                    proof {
                        models_push(memory@, kept);
                    }
                    memory.push(kept);
                },
            }
        }
    }
    assert(all.take(n as int) == all);
    RetainedSummaryCandidates { daily, facts, memory }
}

pub fn retain_daily_candidates(candidates: Vec<SummaryCandidate>) -> (r: Vec<SummaryCandidate>)
    ensures
        candidate_models(r@) == retained(candidate_models(candidates@), SummaryClass::Daily),
{
    retain_summary_candidates(candidates).daily
}

/// Every retained candidate is the cleaned form of one that was given, of the
/// class asked for, worth keeping, and the first of its kind.
pub proof fn retained_candidates_are_worth_keeping(
    s: Seq<CandidateModel>,
    class: SummaryClass,
    k: int,
)
    requires
        0 <= k < retained(s, class).len(),
    ensures
        exists|i: int|
            {
                &&& 0 <= i < s.len()
                &&& retained(s, class)[k] == cleaned(#[trigger] s[i])
                &&& s[i].classification == class
                &&& worth_keeping(s[i])
                &&& !repeats_earlier(s.take(i + 1))
            },
    decreases s.len(),
{
    let less = s.drop_last();
    let before = retained(less, class);
    if k < before.len() {
        retained_candidates_are_worth_keeping(less, class, k);
        let i = choose|i: int|
            {
                &&& 0 <= i < less.len()
                &&& before[k] == cleaned(#[trigger] less[i])
                &&& less[i].classification == class
                &&& worth_keeping(less[i])
                &&& !repeats_earlier(less.take(i + 1))
            };
        assert(s[i] == less[i]);
        assert(s.take(i + 1) == less.take(i + 1));
    } else {
        assert(s.take(s.len() as int) == s);
        assert(s[s.len() - 1] == s.last());
    }
}

/// No discarded candidate is retained.
pub proof fn discarded_candidates_are_dropped(s: Seq<CandidateModel>)
    ensures
        retained(s, SummaryClass::Discard).len() == 0,
    decreases s.len(),
{
    if s.len() > 0 {
        discarded_candidates_are_dropped(s.drop_last());
    }
}

// Grouping by topic

/// Some candidate has the topic.
pub open spec fn topic_present(s: Seq<CandidateModel>, topic: Seq<char>) -> bool {
    exists|i: int| 0 <= i < s.len() && topic_text(#[trigger] s[i].topic) == topic
}

/// Some candidate of the topic has the content.
pub open spec fn content_present(
    s: Seq<CandidateModel>,
    topic: Seq<char>,
    content: Seq<char>,
) -> bool {
    exists|i: int|
        0 <= i < s.len() && topic_text(#[trigger] s[i].topic) == topic && s[i].content == content
}

/// `blocks` holds one block for each topic of the candidates, in the order of
/// topics, and in each block the contents of its candidates, each once and in order.
pub open spec fn grouped(blocks: Seq<BlockModel>, s: Seq<CandidateModel>) -> bool {
    &&& forall|i: int, j: int|
        0 <= i < j < blocks.len() ==> text::lex_lt(
            (#[trigger] blocks[i]).topic,
            (#[trigger] blocks[j]).topic,
        )
    &&& forall|topic: Seq<char>| #[trigger]
        topic_present(s, topic) <==> exists|i: int|
            0 <= i < blocks.len() && (#[trigger] blocks[i]).topic == topic
    &&& forall|i: int| #![trigger blocks[i]]
        0 <= i < blocks.len() ==> {
            &&& token_set::strictly_sorted(blocks[i].items)
            &&& forall|content: Seq<char>| #[trigger]
                blocks[i].items.contains(content) <==> content_present(
                    s,
                    blocks[i].topic,
                    content,
                )
        }
}

fn topics_of(candidates: &[SummaryCandidate]) -> (r: Vec<String>)
    ensures
        token_set::strictly_sorted(text::views(r@)),
        forall|topic: Seq<char>| #[trigger]
            text::views(r@).contains(topic) <==> topic_present(
                candidate_models(candidates@),
                topic,
            ),
{
    let mut out: Vec<String> = Vec::new();
    let n: usize = candidates.len();
    let ghost all = candidate_models(candidates@);
    for i in 0..n
        invariant
            n == candidates@.len(),
            all == candidate_models(candidates@),
            token_set::strictly_sorted(text::views(out@)),
            forall|topic: Seq<char>| #[trigger]
                text::views(out@).contains(topic) <==> topic_present(all.take(i as int), topic),
    {
        let ghost before = text::views(out@);
        let topic = normalize_topic(candidates[i].topic.as_str());
        let ghost added = topic@;
        token_set::insert_sorted(&mut out, topic);
        assert forall|t: Seq<char>| #[trigger]
            text::views(out@).contains(t) <==> topic_present(all.take(i + 1), t) by {
            let after = text::views(out@);
            assert(after.contains(t) == after.to_set().contains(t));
            assert(before.contains(t) == before.to_set().contains(t));
            let s = all.take(i + 1);
            if t == added {
                assert(topic_text(s[i as int].topic) == t);
            }
            if before.contains(t) {
                let k = choose|k: int|
                    0 <= k < all.take(i as int).len() && topic_text(
                        #[trigger] all.take(i as int)[k].topic,
                    ) == t;
                assert(s[k] == all.take(i as int)[k]);
            }
            if topic_present(s, t) {
                let k = choose|k: int|
                    0 <= k < s.len() && topic_text(#[trigger] s[k].topic) == t;
                if k < i {
                    assert(all.take(i as int)[k] == s[k]);
                    assert(topic_present(all.take(i as int), t));
                }
            }
        }
    }
    assert(all.take(n as int) == all);
    out
}

fn contents_of(candidates: &[SummaryCandidate], topic: &str) -> (r: Vec<String>)
    ensures
        token_set::strictly_sorted(text::views(r@)),
        forall|content: Seq<char>| #[trigger]
            text::views(r@).contains(content) <==> content_present(
                candidate_models(candidates@),
                topic@,
                content,
            ),
{
    let mut out: Vec<String> = Vec::new();
    let n: usize = candidates.len();
    let ghost all = candidate_models(candidates@);
    for i in 0..n
        invariant
            n == candidates@.len(),
            all == candidate_models(candidates@),
            token_set::strictly_sorted(text::views(out@)),
            forall|content: Seq<char>| #[trigger]
                text::views(out@).contains(content) <==> content_present(
                    all.take(i as int),
                    topic@,
                    content,
                ),
    {
        let ghost before = text::views(out@);
        let ghost old_part = all.take(i as int);
        let ghost s = all.take(i + 1);
        let own = normalize_topic(candidates[i].topic.as_str());
        let matches = text::same_text(own.as_str(), topic);
        if matches {
            token_set::insert_sorted(&mut out, candidates[i].content.clone());
        }
        assert forall|c: Seq<char>| #[trigger]
            text::views(out@).contains(c) <==> content_present(s, topic@, c) by {
            let after = text::views(out@);
            assert(after.contains(c) == after.to_set().contains(c));
            assert(before.contains(c) == before.to_set().contains(c));
            assert(s[i as int] == candidates@[i as int]@);
            if content_present(old_part, topic@, c) {
                let k = choose|k: int|
                    0 <= k < old_part.len() && topic_text(#[trigger] old_part[k].topic) == topic@
                        && old_part[k].content == c;
                assert(s[k] == old_part[k]);
                assert(content_present(s, topic@, c));
            }
            if matches && c == candidates@[i as int].content@ {
                assert(topic_text(s[i as int].topic) == topic@);
                assert(content_present(s, topic@, c));
            }
            if content_present(s, topic@, c) {
                let k = choose|k: int|
                    0 <= k < s.len() && topic_text(#[trigger] s[k].topic) == topic@ && s[k].content
                        == c;
                if k < i {
                    assert(old_part[k] == s[k]);
                    assert(content_present(old_part, topic@, c));
                }
            }
        }
    }
    assert(all.take(n as int) == all);
    out
}

pub fn group_daily_candidates(candidates: &[SummaryCandidate]) -> (r: Vec<DailyTopicBlock>)
    ensures
        grouped(block_models(r@), candidate_models(candidates@)),
{
    let topics = topics_of(candidates);
    let ghost names = text::views(topics@);
    let ghost all = candidate_models(candidates@);
    let mut out: Vec<DailyTopicBlock> = Vec::new();
    let n: usize = topics.len();
    for i in 0..n
        invariant
            n == topics@.len(),
            names == text::views(topics@),
            all == candidate_models(candidates@),
            out@.len() == i,
            forall|k: int| #![trigger block_models(out@)[k]]
                0 <= k < i ==> {
                    &&& block_models(out@)[k].topic == names[k]
                    &&& token_set::strictly_sorted(block_models(out@)[k].items)
                    &&& forall|content: Seq<char>| #[trigger]
                        block_models(out@)[k].items.contains(content) <==> content_present(
                            all,
                            names[k],
                            content,
                        )
                },
    {
        let ghost before = block_models(out@);
        let items = contents_of(candidates, topics[i].as_str());
        let block = DailyTopicBlock { topic: topics[i].clone(), items };
        out.push(block);
        assert(block_models(out@) == before.push(block@));
    }
    let ghost blocks = block_models(out@);
    proof {
        assert forall|i: int, j: int| 0 <= i < j < blocks.len() implies text::lex_lt(
            (#[trigger] blocks[i]).topic,
            (#[trigger] blocks[j]).topic,
        ) by {
            assert(text::lex_lt(names[i], names[j]));
        }
        assert forall|topic: Seq<char>| #[trigger]
            topic_present(all, topic) <==> exists|i: int|
                0 <= i < blocks.len() && (#[trigger] blocks[i]).topic == topic by {
            assert(names.contains(topic) <==> topic_present(all, topic));
            if names.contains(topic) {
                let k = choose|k: int| 0 <= k < names.len() && names[k] == topic;
                assert(blocks[k].topic == topic);
            }
            if exists|i: int| 0 <= i < blocks.len() && (#[trigger] blocks[i]).topic == topic {
                let k = choose|k: int|
                    0 <= k < blocks.len() && (#[trigger] blocks[k]).topic == topic;
                assert(names[k] == topic);
            }
        }
    }
    out
}

// The daily document

/// The position of the first section whose topic is not before `topic`.
pub open spec fn slot(sections: Seq<BlockModel>, topic: Seq<char>) -> int
    decreases sections.len(),
{
    if sections.len() == 0 || !text::lex_lt(sections[0].topic, topic) {
        0
    } else {
        1 + slot(sections.drop_first(), topic)
    }
}

/// The sections have a section of the topic.
pub open spec fn has_section(sections: Seq<BlockModel>, topic: Seq<char>) -> bool {
    slot(sections, topic) < sections.len() && sections[slot(sections, topic)].topic == topic
}

/// The sections with one of the topic, empty where it is new, in its place in
/// the order of topics.
pub open spec fn with_section(sections: Seq<BlockModel>, topic: Seq<char>) -> Seq<BlockModel> {
    if has_section(sections, topic) {
        sections
    } else {
        sections.insert(slot(sections, topic), BlockModel { topic, items: Seq::empty() })
    }
}

/// The items of the section of a topic; none where there is no such section.
pub open spec fn section_items(sections: Seq<BlockModel>, topic: Seq<char>) -> Seq<Seq<char>> {
    if has_section(sections, topic) {
        sections[slot(sections, topic)].items
    } else {
        Seq::empty()
    }
}

/// The sections with `items` as the items of the topic.
pub open spec fn set_items(
    sections: Seq<BlockModel>,
    topic: Seq<char>,
    items: Seq<Seq<char>>,
) -> Seq<BlockModel> {
    let all = with_section(sections, topic);
    all.update(slot(all, topic), BlockModel { topic, items })
}

pub open spec fn sections_sorted(sections: Seq<BlockModel>) -> bool {
    forall|i: int, j: int|
        0 <= i < j < sections.len() ==> text::lex_lt(
            (#[trigger] sections[i]).topic,
            (#[trigger] sections[j]).topic,
        )
}

/// The slot of a topic lies behind the sections of earlier topics, and before the rest.
pub proof fn slot_bounds(sections: Seq<BlockModel>, topic: Seq<char>)
    ensures
        0 <= slot(sections, topic) <= sections.len(),
        forall|i: int|
            0 <= i < slot(sections, topic) ==> text::lex_lt((#[trigger] sections[i]).topic, topic),
        slot(sections, topic) < sections.len() ==> !text::lex_lt(
            sections[slot(sections, topic)].topic,
            topic,
        ),
    decreases sections.len(),
{
    if sections.len() > 0 && text::lex_lt(sections[0].topic, topic) {
        let rest = sections.drop_first();
        slot_bounds(rest, topic);
        assert forall|i: int| 0 <= i < slot(sections, topic) implies text::lex_lt(
            (#[trigger] sections[i]).topic,
            topic,
        ) by {
            if i > 0 {
                assert(rest[i - 1] == sections[i]);
            }
        }
    }
}

pub proof fn slot_unique(sections: Seq<BlockModel>, topic: Seq<char>, k: int)
    requires
        0 <= k <= sections.len(),
        forall|i: int| 0 <= i < k ==> text::lex_lt((#[trigger] sections[i]).topic, topic),
        k < sections.len() ==> !text::lex_lt(sections[k].topic, topic),
    ensures
        slot(sections, topic) == k,
{
    slot_bounds(sections, topic);
    let m = slot(sections, topic);
    if m < k {
        assert(text::lex_lt(sections[m].topic, topic));
    } else if k < m {
        assert(text::lex_lt(sections[k].topic, topic));
    }
}

/// A section that was put in is found again.
pub proof fn section_is_found(sections: Seq<BlockModel>, topic: Seq<char>)
    ensures
        has_section(with_section(sections, topic), topic),
        slot(with_section(sections, topic), topic) == slot(sections, topic),
        section_items(with_section(sections, topic), topic) == section_items(sections, topic),
{
    slot_bounds(sections, topic);
    if !has_section(sections, topic) {
        let k = slot(sections, topic);
        let all = with_section(sections, topic);
        text::lex_lt_irreflexive(topic);
        assert forall|i: int| 0 <= i < k implies text::lex_lt((#[trigger] all[i]).topic, topic) by {
            assert(all[i] == sections[i]);
        }
        slot_unique(all, topic, k);
    }
}

/// The items that are set are the items that are found.
pub proof fn set_items_are_found(
    sections: Seq<BlockModel>,
    topic: Seq<char>,
    items: Seq<Seq<char>>,
)
    ensures
        has_section(set_items(sections, topic, items), topic),
        section_items(set_items(sections, topic, items), topic) == items,
{
    section_is_found(sections, topic);
    let all = with_section(sections, topic);
    let k = slot(all, topic);
    slot_bounds(all, topic);
    let changed = set_items(sections, topic, items);
    assert forall|i: int| 0 <= i < k implies text::lex_lt((#[trigger] changed[i]).topic, topic) by {
        assert(changed[i] == all[i]);
    }
    text::lex_lt_irreflexive(topic);
    slot_unique(changed, topic, k);
}

pub proof fn with_section_sorted(sections: Seq<BlockModel>, topic: Seq<char>)
    requires
        sections_sorted(sections),
    ensures
        sections_sorted(with_section(sections, topic)),
{
    slot_bounds(sections, topic);
    if !has_section(sections, topic) {
        let k = slot(sections, topic);
        let all = with_section(sections, topic);
        if k < sections.len() {
            text::lex_lt_total(sections[k].topic, topic);
        }
        assert forall|i: int, j: int| 0 <= i < j < all.len() implies text::lex_lt(
            (#[trigger] all[i]).topic,
            (#[trigger] all[j]).topic,
        ) by {
            if j == k {
                assert(all[i] == sections[i]);
            } else if i == k {
                assert(all[j] == sections[j - 1]);
                if j - 1 > k {
                    assert(text::lex_lt(sections[k].topic, sections[j - 1].topic));
                    text::lex_lt_transitive(topic, sections[k].topic, sections[j - 1].topic);
                }
            } else {
                assert(all[i] == if i < k { sections[i] } else { sections[i - 1] });
                assert(all[j] == if j < k { sections[j] } else { sections[j - 1] });
            }
        }
    }
}

/// Setting items keeps the sections in order.
pub proof fn set_items_sorted(sections: Seq<BlockModel>, topic: Seq<char>, items: Seq<Seq<char>>)
    requires
        sections_sorted(sections),
    ensures
        sections_sorted(set_items(sections, topic, items)),
{
    with_section_sorted(sections, topic);
    section_is_found(sections, topic);
    let all = with_section(sections, topic);
    let changed = set_items(sections, topic, items);
    slot_bounds(all, topic);
    assert forall|i: int| 0 <= i < all.len() implies (#[trigger] changed[i]).topic
        == all[i].topic by {}
    assert forall|i: int, j: int| 0 <= i < j < changed.len() implies text::lex_lt(
        (#[trigger] changed[i]).topic,
        (#[trigger] changed[j]).topic,
    ) by {
        assert(changed[i].topic == all[i].topic);
        assert(changed[j].topic == all[j].topic);
        assert(text::lex_lt(all[i].topic, all[j].topic));
    }
}

/// Setting the items of one topic leaves those of another as they are.
pub proof fn set_items_of_one_topic(
    sections: Seq<BlockModel>,
    topic: Seq<char>,
    items: Seq<Seq<char>>,
    other: Seq<char>,
)
    requires
        sections_sorted(sections),
        other != topic,
    ensures
        section_items(set_items(sections, topic, items), other) == section_items(sections, other),
{
    with_section_sorted(sections, topic);
    section_is_found(sections, topic);
    slot_bounds(sections, topic);
    slot_bounds(sections, other);
    let all = with_section(sections, topic);
    let changed = set_items(sections, topic, items);
    let k = slot(all, topic);
    let m = slot(sections, other);
    slot_bounds(changed, other);
    let q = slot(changed, other);
    set_items_sorted(sections, topic, items);
    if has_section(sections, other) {
        let at = if has_section(sections, topic) || m < k {
            m
        } else {
            m + 1
        };
        assert(changed[at] == sections[m]);
        text::lex_lt_irreflexive(other);
        assert forall|i: int| 0 <= i < at implies text::lex_lt(
            (#[trigger] changed[i]).topic,
            other,
        ) by {
            assert(text::lex_lt(changed[i].topic, changed[at].topic));
        }
        slot_unique(changed, other, at);
    } else if has_section(changed, other) {
        assert(q != k);
        let from = if has_section(sections, topic) || q < k {
            q
        } else {
            q - 1
        };
        assert(changed[q] == sections[from]);
        text::lex_lt_irreflexive(other);
        assert forall|i: int| 0 <= i < from implies text::lex_lt(
            (#[trigger] sections[i]).topic,
            other,
        ) by {
            assert(text::lex_lt(sections[i].topic, sections[from].topic));
        }
        slot_unique(sections, other, from);
    }
}

/// What a daily document says, and the topic under which its last line stands.
pub struct DocumentModel {
    pub preface: Seq<Seq<char>>,
    pub sections: Seq<BlockModel>,
    pub current: Option<Seq<char>>,
}

/// A document with one more line read.
pub open spec fn read_line(doc: DocumentModel, line: Seq<char>) -> DocumentModel {
    let trimmed = text::trim(line);
    if text::starts_with(line, "# "@) {
        doc
    } else if text::starts_with(line, "## "@) {
        let topic = text::trim(line.skip(3));
        DocumentModel {
            sections: with_section(doc.sections, topic),
            current: Some(topic),
            ..doc
        }
    } else if trimmed.len() == 0 {
        doc
    } else {
        match doc.current {
            None => DocumentModel { preface: doc.preface.push(trimmed), ..doc },
            Some(topic) => {
                let item = if text::starts_with(trimmed, "- "@) {
                    text::trim(trimmed.skip(2))
                } else {
                    trimmed
                };
                DocumentModel {
                    sections: set_items(
                        doc.sections,
                        topic,
                        section_items(doc.sections, topic).push(item),
                    ),
                    ..doc
                }
            },
        }
    }
}

pub open spec fn read_lines(lines: Seq<Seq<char>>) -> DocumentModel
    decreases lines.len(),
{
    if lines.len() == 0 {
        DocumentModel { preface: Seq::empty(), sections: Seq::empty(), current: None }
    } else {
        read_line(read_lines(lines.drop_last()), lines.last())
    }
}

/// The lines of the sections that have items: for each a heading, an empty
/// line and its items, with an empty line between two sections.
pub open spec fn section_lines(sections: Seq<BlockModel>) -> Seq<Seq<char>>
    decreases sections.len(),
{
    if sections.len() == 0 {
        Seq::empty()
    } else {
        let before = section_lines(sections.drop_last());
        let section = sections.last();
        if section.items.len() == 0 {
            before
        } else {
            let gap = if before.len() == 0 {
                Seq::empty()
            } else {
                seq![Seq::<char>::empty()]
            };
            before + gap + seq!["## "@ + section.topic, Seq::<char>::empty()]
                + section.items.map_values(|item: Seq<char>| "- "@ + item_text(item))
        }
    }
}

/// The lines of a document: its date, what stands before the first section, and
/// the sections in the order of their topics.
pub open spec fn document_lines(
    date: Seq<char>,
    preface: Seq<Seq<char>>,
    sections: Seq<BlockModel>,
) -> Seq<Seq<char>> {
    let head = seq!["# "@ + date, Seq::<char>::empty()];
    let front = if preface.len() == 0 {
        Seq::empty()
    } else {
        preface.push(Seq::<char>::empty())
    };
    head + front + section_lines(sections) + seq![Seq::<char>::empty()]
}

pub open spec fn document_text(
    date: Seq<char>,
    preface: Seq<Seq<char>>,
    sections: Seq<BlockModel>,
) -> Seq<char> {
    text::joined(document_lines(date, preface, sections), "\n"@)
}

/// A day's notes, grouped by topic. The sections stand in the order of their
/// topics, each topic once.
#[derive(Debug)]
pub struct DailyDocument {
    date: CalendarDate,
    preface: Vec<String>,
    sections: Vec<DailyTopicBlock>,
}

fn find_slot(sections: &Vec<DailyTopicBlock>, topic: &str) -> (r: usize)
    ensures
        r == slot(block_models(sections@), topic@),
        r <= sections@.len(),
{
    let ghost all = block_models(sections@);
    let mut at: usize = 0;
    while at < sections.len() && text::text_before(sections[at].topic.as_str(), topic)
        invariant
            all == block_models(sections@),
            at <= sections@.len(),
            forall|i: int| 0 <= i < at ==> text::lex_lt((#[trigger] all[i]).topic, topic@),
        decreases sections@.len() - at,
    {
        assert(all[at as int].topic == sections@[at as int].topic@);
        at = at + 1;
    }
    proof {
        if at < sections@.len() {
            assert(all[at as int].topic == sections@[at as int].topic@);
        }
        slot_unique(all, topic@, at as int);
    }
    at
}

/// Makes sure of a section of the topic, and says where it stands.
fn ensure_section(sections: &mut Vec<DailyTopicBlock>, topic: &str) -> (at: usize)
    ensures
        block_models(final(sections)@) == with_section(block_models(old(sections)@), topic@),
        at == slot(block_models(final(sections)@), topic@),
        at < final(sections)@.len(),
        final(sections)@[at as int].topic@ == topic@,
{
    let ghost before = block_models(sections@);
    let at = find_slot(sections, topic);
    proof {
        section_is_found(before, topic@);
        if at < sections@.len() {
            assert(before[at as int] == sections@[at as int]@);
        }
    }
    if at < sections.len() && text::same_text(sections[at].topic.as_str(), topic) {
        return at;
    }
    let block = DailyTopicBlock { topic: topic.to_owned(), items: Vec::new() };
    assert(text::views(block.items@) == Seq::<Seq<char>>::empty());
    proof {
        assert(block_models(sections@.insert(at as int, block)) == before.insert(
            at as int,
            block@,
        ));
    }
    sections.insert(at, block);
    at
}

fn add_item(sections: &mut Vec<DailyTopicBlock>, topic: &str, item: String)
    ensures
        block_models(final(sections)@) == set_items(
            block_models(old(sections)@),
            topic@,
            section_items(block_models(old(sections)@), topic@).push(item@),
        ),
{
    let ghost before = block_models(sections@);
    let at = ensure_section(sections, topic);
    let ghost all = block_models(sections@);
    proof {
        section_is_found(before, topic@);
        assert(all[at as int] == sections@[at as int]@);
        text::views_push(sections@[at as int].items@, item);
    }
    sections[at].items.push(item);
    assert(block_models(sections@) == all.update(
        at as int,
        BlockModel { topic: topic@, items: all[at as int].items.push(item@) },
    ));
}

impl DailyDocument {
    pub closed spec fn front(&self) -> Seq<Seq<char>> {
        text::views(self.preface@)
    }

    pub closed spec fn topics(&self) -> Seq<BlockModel> {
        block_models(self.sections@)
    }

    pub closed spec fn day(&self) -> CalendarDate {
        self.date
    }

    /// Reads a document that was written for `date`.
    pub fn parse(date: CalendarDate, raw: &str) -> (r: Self)
        ensures
            r.day() == date,
            r.front() == read_lines(text::lines(raw@)).preface,
            r.topics() == read_lines(text::lines(raw@)).sections,
    {
        let lines = text::lines_of(raw);
        let ghost all = text::lines(raw@);
        let mut preface: Vec<String> = Vec::new();
        let mut sections: Vec<DailyTopicBlock> = Vec::new();
        let mut current: Option<String> = None;
        let n: usize = lines.len();
        proof {
            reveal_strlit("## ");
            reveal_strlit("- ");
            assert(text::views(preface@) == read_lines(all.take(0)).preface);
            assert(block_models(sections@) == read_lines(all.take(0)).sections);
        }
        for i in 0..n
            invariant
                n == lines@.len(),
                all == text::views(lines@),
                "## "@.len() == 3,
                "- "@.len() == 2,
                text::views(preface@) == read_lines(all.take(i as int)).preface,
                block_models(sections@) == read_lines(all.take(i as int)).sections,
                text::opt_view(current) == read_lines(all.take(i as int)).current,
        {
            assert(all.take(i + 1).drop_last() == all.take(i as int));
            assert(all.take(i + 1).last() == lines@[i as int]@);
            let line = text::chars_of(lines[i].as_str());
            let title = text::chars_of("# ");
            let heading = text::chars_of("## ");
            let dash = text::chars_of("- ");
            if text::starts_with_chars(line.as_slice(), title.as_slice()) {
            } else if text::starts_with_chars(line.as_slice(), heading.as_slice()) {
                let rest = vstd::slice::slice_subrange(line.as_slice(), 3, line.len());
                assert(rest@ == line@.skip(3));
                let topic = text::string_of(text::trim_chars(rest));
                ensure_section(&mut sections, topic.as_str());
                current = Some(topic);
            } else {
                let trimmed = text::trim_chars(line.as_slice());
                if trimmed.len() > 0 {
                    match &current {
                        None => {
                            let kept = text::string_of(trimmed);
                            proof {
                                text::views_push(preface@, kept);
                            }
                            preface.push(kept);
                        },
                        Some(topic) => {
                            let item = if text::starts_with_chars(trimmed, dash.as_slice()) {
                                let m: usize = trimmed.len();
                                let rest = vstd::slice::slice_subrange(trimmed, 2, m);
                                assert(rest@ == trimmed@.skip(2));
                                text::string_of(text::trim_chars(rest))
                            } else {
                                text::string_of(trimmed)
                            };
                            add_item(&mut sections, topic.as_str(), item);
                        },
                    }
                }
            }
        }
        assert(all.take(n as int) == all);
        DailyDocument { date, preface, sections }
    }

    /// Writes the document.
    pub fn render(&self) -> (r: String)
        requires
            self.day().valid(),
        ensures
            r@ == document_text(dates::full_date_text(self.day()), self.front(), self.topics()),
    {
        let mut out: Vec<String> = Vec::new();
        let mut title = "# ".to_owned();
        title.append(dates::date_label(self.date).as_str());
        out.push(title);
        out.push(String::new());
        let ghost head = seq![
            "# "@ + dates::full_date_text(self.date),
            Seq::<char>::empty(),
        ];
        assert(text::views(out@) == head);
        if self.preface.len() > 0 {
            let n: usize = self.preface.len();
            let ghost front = text::views(self.preface@);
            assert(head + front.take(0) == head);
            for i in 0..n
                invariant
                    n == self.preface@.len(),
                    front == text::views(self.preface@),
                    text::views(out@) == head + front.take(i as int),
            {
                proof {
                    text::views_push(out@, self.preface@[i as int]);
                }
                out.push(self.preface[i].clone());
                assert(head + front.take(i + 1) == (head + front.take(i as int)).push(
                    front[i as int],
                ));
            }
            assert(front.take(n as int) == front);
            let blank = String::new();
            proof {
                text::views_push(out@, blank);
                assert((head + front).push(Seq::<char>::empty()) == head + front.push(
                    Seq::<char>::empty(),
                ));
            }
            out.push(blank);
        } else {
            assert(head + Seq::<Seq<char>>::empty() == head);
        }
        let ghost start = text::views(out@);
        assert(start == head + (if self.front().len() == 0 {
            Seq::empty()
        } else {
            self.front().push(Seq::<char>::empty())
        }));
        let mut first_section = true;
        let ghost all = block_models(self.sections@);
        let n: usize = self.sections.len();
        assert(start + section_lines(all.take(0)) == start);
        for i in 0..n
            invariant
                n == self.sections@.len(),
                all == block_models(self.sections@),
                text::views(out@) == start + section_lines(all.take(i as int)),
                first_section == (section_lines(all.take(i as int)).len() == 0),
        {
            let ghost before = section_lines(all.take(i as int));
            let ghost section = all[i as int];
            assert(all.take(i + 1).drop_last() == all.take(i as int));
            assert(all.take(i + 1).last() == section);
            if self.sections[i].items.len() > 0 {
                let ghost gap = if before.len() == 0 {
                    Seq::empty()
                } else {
                    seq![Seq::<char>::empty()]
                };
                if !first_section {
                    let blank = String::new();
                    proof {
                        text::views_push(out@, blank);
                    }
                    out.push(blank);
                }
                assert(text::views(out@) == start + before + gap);
                first_section = false;
                let mut heading = "## ".to_owned();
                heading.append(self.sections[i].topic.as_str());
                let blank = String::new();
                proof {
                    text::views_push(out@, heading);
                    text::views_push(out@.push(heading), blank);
                }
                out.push(heading);
                out.push(blank);
                let ghost titled = start + before + gap + seq![
                    "## "@ + section.topic,
                    Seq::<char>::empty(),
                ];
                assert(text::views(out@) == titled);
                let ghost written = section.items.map_values(
                    |item: Seq<char>| "- "@ + item_text(item),
                );
                let m: usize = self.sections[i].items.len();
                assert(titled + written.take(0) == titled);
                for j in 0..m
                    invariant
                        i < n,
                        n == self.sections@.len(),
                        m == self.sections@[i as int].items@.len(),
                        section == self.sections@[i as int]@,
                        written == section.items.map_values(
                            |item: Seq<char>| "- "@ + item_text(item),
                        ),
                        text::views(out@) == titled + written.take(j as int),
                {
                    let mut line = "- ".to_owned();
                    line.append(normalize_item(self.sections[i].items[j].as_str()).as_str());
                    assert(line@ == written[j as int]);
                    proof {
                        text::views_push(out@, line);
                    }
                    out.push(line);
                    assert(titled + written.take(j + 1) == (titled + written.take(j as int)).push(
                        written[j as int],
                    ));
                }
                assert(written.take(m as int) == written);
                assert(titled + written == start + section_lines(all.take(i + 1)));
            }
        }
        assert(all.take(n as int) == all);
        let blank = String::new();
        proof {
            text::views_push(out@, blank);
        }
        out.push(blank);
        assert(text::views(out@) == document_lines(
            dates::full_date_text(self.date),
            self.front(),
            self.topics(),
        ));
        text::join(out.as_slice(), "\n")
    }
}

/// An item of the list says what `item` says.
pub open spec fn holds_item(items: Seq<Seq<char>>, item: Seq<char>) -> bool {
    exists|i: int| 0 <= i < items.len() && item_text(#[trigger] items[i]) == item_text(item)
}

/// The items with those of `more` that they do not hold yet.
pub open spec fn with_items(items: Seq<Seq<char>>, more: Seq<Seq<char>>) -> Seq<Seq<char>>
    decreases more.len(),
{
    if more.len() == 0 {
        items
    } else {
        let before = with_items(items, more.drop_last());
        if holds_item(before, more.last()) {
            before
        } else {
            before.push(more.last())
        }
    }
}

/// The sections with a block merged in.
pub open spec fn merge_block(sections: Seq<BlockModel>, block: BlockModel) -> Seq<BlockModel> {
    set_items(
        sections,
        block.topic,
        with_items(section_items(sections, block.topic), block.items),
    )
}

pub open spec fn merge_blocks(sections: Seq<BlockModel>, blocks: Seq<BlockModel>) -> Seq<BlockModel>
    decreases blocks.len(),
{
    if blocks.len() == 0 {
        sections
    } else {
        merge_block(merge_blocks(sections, blocks.drop_last()), blocks.last())
    }
}

/// A block brings an item that its section did not hold when it was merged.
pub open spec fn merge_changes(sections: Seq<BlockModel>, blocks: Seq<BlockModel>) -> bool
    decreases blocks.len(),
{
    if blocks.len() == 0 {
        false
    } else {
        let before = merge_blocks(sections, blocks.drop_last());
        let items = section_items(before, blocks.last().topic);
        merge_changes(sections, blocks.drop_last()) || with_items(items, blocks.last().items).len()
            != items.len()
    }
}

fn is_held(items: &Vec<String>, item: &str) -> (r: bool)
    ensures
        r == holds_item(text::views(items@), item@),
{
    let wanted = normalize_item(item);
    let n: usize = items.len();
    let ghost all = text::views(items@);
    for i in 0..n
        invariant
            n == items@.len(),
            all == text::views(items@),
            wanted@ == item_text(item@),
            forall|k: int| 0 <= k < i ==> item_text(#[trigger] all[k]) != item_text(item@),
    {
        assert(all[i as int] == items@[i as int]@);
        if text::same_text(normalize_item(items[i].as_str()).as_str(), wanted.as_str()) {
            return true;
        }
    }
    false
}

fn add_items(items: &mut Vec<String>, more: &Vec<String>)
    ensures
        text::views(final(items)@) == with_items(text::views(old(items)@), text::views(more@)),
{
    let ghost start = text::views(items@);
    let ghost all = text::views(more@);
    let n: usize = more.len();
    for i in 0..n
        invariant
            n == more@.len(),
            all == text::views(more@),
            text::views(items@) == with_items(start, all.take(i as int)),
    {
        assert(all.take(i + 1).drop_last() == all.take(i as int));
        assert(all.take(i + 1).last() == more@[i as int]@);
        if !is_held(items, more[i].as_str()) {
            proof {
                text::views_push(items@, more@[i as int]);
            }
            items.push(more[i].clone());
        }
    }
    assert(all.take(n as int) == all);
}

impl DailyDocument {
    /// Merges a block, and says whether it brought anything new.
    fn merge(&mut self, block: &DailyTopicBlock) -> (changed: bool)
        ensures
            final(self).day() == old(self).day(),
            final(self).front() == old(self).front(),
            final(self).topics() == merge_block(old(self).topics(), block@),
            changed == (with_items(
                section_items(old(self).topics(), block@.topic),
                block@.items,
            ).len() != section_items(old(self).topics(), block@.topic).len()),
    {
        let ghost before = block_models(self.sections@);
        let at = ensure_section(&mut self.sections, block.topic.as_str());
        let ghost all = block_models(self.sections@);
        proof {
            section_is_found(before, block.topic@);
            assert(all[at as int] == self.sections@[at as int]@);
        }
        let length: usize = self.sections[at].items.len();
        add_items(&mut self.sections[at].items, &block.items);
        assert(block_models(self.sections@) == all.update(
            at as int,
            BlockModel {
                topic: block.topic@,
                items: with_items(all[at as int].items, text::views(block.items@)),
            },
        ));
        assert(text::views(self.sections@[at as int].items@).len() == with_items(
            all[at as int].items,
            text::views(block.items@),
        ).len());
        self.sections[at].items.len() != length
    }
}

pub open spec fn existing_document(existing: Option<&str>) -> DocumentModel {
    match existing {
        Some(raw) => read_lines(text::lines(raw@)),
        None => read_lines(text::lines(""@)),
    }
}

/// The document of a day with blocks merged in; `None` where there is no block,
/// and where a document exists that holds every item already.
pub open spec fn merged_document(
    date: CalendarDate,
    existing: Option<&str>,
    blocks: Seq<BlockModel>,
) -> Option<Seq<char>> {
    let doc = existing_document(existing);
    if blocks.len() == 0 || (existing is Some && !merge_changes(doc.sections, blocks)) {
        None
    } else {
        Some(
            document_text(
                dates::full_date_text(date),
                doc.preface,
                merge_blocks(doc.sections, blocks),
            ),
        )
    }
}

pub fn merge_daily_blocks(
    date: CalendarDate,
    existing: Option<&str>,
    blocks: &[DailyTopicBlock],
) -> (r: Option<String>)
    requires
        date.valid(),
    ensures
        text::opt_view(r) == merged_document(date, existing, block_models(blocks@)),
{
    if blocks.len() == 0 {
        return None;
    }
    let raw = match existing {
        Some(raw) => raw,
        None => "",
    };
    let mut doc = DailyDocument::parse(date, raw);
    let ghost start = doc.topics();
    let ghost front = doc.front();
    let ghost all = block_models(blocks@);
    let mut changed = false;
    let n: usize = blocks.len();
    for i in 0..n
        invariant
            n == blocks@.len(),
            all == block_models(blocks@),
            doc.day() == date,
            doc.front() == front,
            doc.topics() == merge_blocks(start, all.take(i as int)),
            changed == merge_changes(start, all.take(i as int)),
    {
        assert(all.take(i + 1).drop_last() == all.take(i as int));
        assert(all.take(i + 1).last() == blocks@[i as int]@);
        let grew = doc.merge(&blocks[i]);
        changed = changed || grew;
    }
    assert(all.take(n as int) == all);
    if !changed && existing.is_some() {
        return None;
    }
    Some(doc.render())
}

// What merging keeps

/// Adding items keeps those that were there, in place.
pub proof fn with_items_keeps_items(items: Seq<Seq<char>>, more: Seq<Seq<char>>)
    ensures
        items.len() <= with_items(items, more).len(),
        with_items(items, more).take(items.len() as int) == items,
    decreases more.len(),
{
    if more.len() > 0 {
        with_items_keeps_items(items, more.drop_last());
        let before = with_items(items, more.drop_last());
        assert(before.push(more.last()).take(items.len() as int) == before.take(
            items.len() as int,
        ));
    } else {
        assert(items.take(items.len() as int) == items);
    }
}

/// After adding, every item that was brought is held.
pub proof fn with_items_holds_every_item(items: Seq<Seq<char>>, more: Seq<Seq<char>>, k: int)
    requires
        0 <= k < more.len(),
    ensures
        holds_item(with_items(items, more), more[k]),
    decreases more.len(),
{
    let before = with_items(items, more.drop_last());
    let after = with_items(items, more);
    if k == more.len() - 1 {
        if !holds_item(before, more.last()) {
            assert(item_text(after[before.len() as int]) == item_text(more[k]));
        }
    } else {
        with_items_holds_every_item(items, more.drop_last(), k);
        let i = choose|i: int|
            0 <= i < before.len() && item_text(#[trigger] before[i]) == item_text(more[k]);
        assert(after[i] == before[i]);
    }
}

/// Items that are held already add nothing.
pub proof fn held_items_add_nothing(items: Seq<Seq<char>>, more: Seq<Seq<char>>)
    requires
        forall|k: int| 0 <= k < more.len() ==> holds_item(items, #[trigger] more[k]),
    ensures
        with_items(items, more) == items,
    decreases more.len(),
{
    if more.len() > 0 {
        assert forall|k: int| 0 <= k < more.drop_last().len() implies holds_item(
            items,
            #[trigger] more.drop_last()[k],
        ) by {
            assert(more[k] == more.drop_last()[k]);
        }
        held_items_add_nothing(items, more.drop_last());
        assert(holds_item(items, more[more.len() - 1]));
    }
}

/// Merging a block a second time changes nothing.
pub proof fn merging_a_block_is_idempotent(sections: Seq<BlockModel>, block: BlockModel)
    ensures
        merge_block(merge_block(sections, block), block) == merge_block(sections, block),
        section_items(merge_block(sections, block), block.topic) == with_items(
            section_items(sections, block.topic),
            block.items,
        ),
{
    let items = with_items(section_items(sections, block.topic), block.items);
    let once = merge_block(sections, block);
    set_items_are_found(sections, block.topic, items);
    assert forall|k: int| 0 <= k < block.items.len() implies holds_item(
        items,
        #[trigger] block.items[k],
    ) by {
        with_items_holds_every_item(section_items(sections, block.topic), block.items, k);
    }
    held_items_add_nothing(items, block.items);
    slot_bounds(once, block.topic);
    assert(merge_block(once, block) =~= once);
}

/// Merging keeps the order of the sections.
pub proof fn merging_keeps_sections_sorted(sections: Seq<BlockModel>, blocks: Seq<BlockModel>)
    requires
        sections_sorted(sections),
    ensures
        sections_sorted(merge_blocks(sections, blocks)),
    decreases blocks.len(),
{
    if blocks.len() > 0 {
        merging_keeps_sections_sorted(sections, blocks.drop_last());
        let before = merge_blocks(sections, blocks.drop_last());
        let block = blocks.last();
        set_items_sorted(
            before,
            block.topic,
            with_items(section_items(before, block.topic), block.items),
        );
    }
}

/// Merging loses no item of any topic: what a section held stays in front.
pub proof fn merging_loses_no_item(
    sections: Seq<BlockModel>,
    blocks: Seq<BlockModel>,
    topic: Seq<char>,
)
    requires
        sections_sorted(sections),
    ensures
        section_items(sections, topic).len() <= section_items(
            merge_blocks(sections, blocks),
            topic,
        ).len(),
        section_items(merge_blocks(sections, blocks), topic).take(
            section_items(sections, topic).len() as int,
        ) == section_items(sections, topic),
    decreases blocks.len(),
{
    let items = section_items(sections, topic);
    if blocks.len() == 0 {
        assert(items.take(items.len() as int) == items);
    } else {
        merging_loses_no_item(sections, blocks.drop_last(), topic);
        merging_keeps_sections_sorted(sections, blocks.drop_last());
        let before = merge_blocks(sections, blocks.drop_last());
        let block = blocks.last();
        let now = with_items(section_items(before, block.topic), block.items);
        if topic == block.topic {
            set_items_are_found(before, topic, now);
            with_items_keeps_items(section_items(before, topic), block.items);
            assert(now.take(items.len() as int) == section_items(before, topic).take(
                items.len() as int,
            ));
        } else {
            set_items_of_one_topic(before, block.topic, now, topic);
        }
    }
}

/// After merging, the section of every block holds every item of the block.
pub proof fn merging_holds_every_item(
    sections: Seq<BlockModel>,
    blocks: Seq<BlockModel>,
    b: int,
    k: int,
)
    requires
        sections_sorted(sections),
        0 <= b < blocks.len(),
        0 <= k < blocks[b].items.len(),
    ensures
        holds_item(
            section_items(merge_blocks(sections, blocks), blocks[b].topic),
            blocks[b].items[k],
        ),
    decreases blocks.len(),
{
    let before = merge_blocks(sections, blocks.drop_last());
    let block = blocks.last();
    let after = merge_blocks(sections, blocks);
    let topic = blocks[b].topic;
    let now = with_items(section_items(before, block.topic), block.items);
    set_items_are_found(before, block.topic, now);
    merging_keeps_sections_sorted(sections, blocks.drop_last());
    if b == blocks.len() - 1 {
        with_items_holds_every_item(section_items(before, topic), block.items, k);
    } else {
        merging_holds_every_item(sections, blocks.drop_last(), b, k);
        let item = blocks[b].items[k];
        let held = section_items(before, topic);
        let i = choose|i: int|
            0 <= i < held.len() && item_text(#[trigger] held[i]) == item_text(item);
        if topic == block.topic {
            with_items_keeps_items(held, block.items);
            assert(now.take(held.len() as int)[i] == now[i]);
        } else {
            set_items_of_one_topic(before, block.topic, now, topic);
            assert(section_items(after, topic) == held);
        }
    }
}

/// Merging blocks into sections that hold every one of their items changes nothing.
pub proof fn held_blocks_change_nothing(sections: Seq<BlockModel>, blocks: Seq<BlockModel>)
    requires
        sections_sorted(sections),
        forall|b: int, k: int|
            0 <= b < blocks.len() && 0 <= k < blocks[b].items.len() ==> holds_item(
                section_items(sections, blocks[b].topic),
                #[trigger] blocks[b].items[k],
            ),
    ensures
        !merge_changes(sections, blocks),
        forall|topic: Seq<char>| #[trigger]
            section_items(merge_blocks(sections, blocks), topic) == section_items(sections, topic),
    decreases blocks.len(),
{
    if blocks.len() > 0 {
        let less = blocks.drop_last();
        assert forall|b: int, k: int|
            0 <= b < less.len() && 0 <= k < less[b].items.len() implies holds_item(
            section_items(sections, less[b].topic),
            #[trigger] less[b].items[k],
        ) by {
            assert(holds_item(section_items(sections, blocks[b].topic), blocks[b].items[k]));
        }
        held_blocks_change_nothing(sections, less);
        merging_keeps_sections_sorted(sections, less);
        let before = merge_blocks(sections, less);
        let block = blocks.last();
        let items = section_items(before, block.topic);
        assert forall|k: int| 0 <= k < block.items.len() implies holds_item(
            items,
            #[trigger] block.items[k],
        ) by {
            assert(holds_item(
                section_items(sections, blocks[blocks.len() - 1].topic),
                blocks[blocks.len() - 1].items[k],
            ));
        }
        held_items_add_nothing(items, block.items);
        assert forall|topic: Seq<char>| #[trigger]
            section_items(merge_blocks(sections, blocks), topic) == section_items(
                sections,
                topic,
            ) by {
            if topic == block.topic {
                set_items_are_found(before, topic, items);
            } else {
                set_items_of_one_topic(before, block.topic, items, topic);
            }
            assert(section_items(before, topic) == section_items(sections, topic));
        }
    }
}

/// Merging the same blocks again brings nothing new.
pub proof fn merging_again_changes_nothing(sections: Seq<BlockModel>, blocks: Seq<BlockModel>)
    requires
        sections_sorted(sections),
    ensures
        !merge_changes(merge_blocks(sections, blocks), blocks),
{
    let once = merge_blocks(sections, blocks);
    merging_keeps_sections_sorted(sections, blocks);
    assert forall|b: int, k: int|
        0 <= b < blocks.len() && 0 <= k < blocks[b].items.len() implies holds_item(
        section_items(once, blocks[b].topic),
        #[trigger] blocks[b].items[k],
    ) by {
        merging_holds_every_item(sections, blocks, b, k);
    }
    held_blocks_change_nothing(once, blocks);
}

/// Reading a line keeps the order of the sections.
pub proof fn reading_keeps_order(doc: DocumentModel, line: Seq<char>)
    requires
        sections_sorted(doc.sections),
    ensures
        sections_sorted(read_line(doc, line).sections),
{
    let trimmed = text::trim(line);
    if text::starts_with(line, "# "@) {
    } else if text::starts_with(line, "## "@) {
        with_section_sorted(doc.sections, text::trim(line.skip(3)));
    } else if trimmed.len() > 0 && doc.current is Some {
        let item = if text::starts_with(trimmed, "- "@) {
            text::trim(trimmed.skip(2))
        } else {
            trimmed
        };
        let topic = doc.current->0;
        set_items_sorted(doc.sections, topic, section_items(doc.sections, topic).push(item));
    }
}

/// The sections of a document that was read stand in the order of their topics.
pub proof fn read_sections_are_sorted(lines: Seq<Seq<char>>)
    ensures
        sections_sorted(read_lines(lines).sections),
    decreases lines.len(),
{
    if lines.len() > 0 {
        read_sections_are_sorted(lines.drop_last());
        reading_keeps_order(read_lines(lines.drop_last()), lines.last());
    }
}

// What is told apart

/// Two candidates with keys of their own repeat each other only where the keys
/// agree: whatever their contents say, different keys are no repetition, and one
/// key in one class (for daily candidates, under one topic) is.
pub proof fn keys_of_their_own_decide(a: CandidateModel, b: CandidateModel)
    requires
        a.duplicate_key is Some,
        b.duplicate_key is Some,
        item_text(a.duplicate_key->0).len() > 0,
        item_text(b.duplicate_key->0).len() > 0,
    ensures
        item_text(a.duplicate_key->0) != item_text(b.duplicate_key->0) ==> !repeats(a, b),
        item_text(a.duplicate_key->0) == item_text(b.duplicate_key->0) && a.classification
            == b.classification && (a.classification == SummaryClass::Daily ==> topic_text(a.topic)
            == topic_text(b.topic)) ==> repeats(a, b),
{
}

/// Two candidates without keys repeat each other where they say the same in
/// lower case, in one class and, for daily ones, under one topic.
pub proof fn contents_decide_without_keys(a: CandidateModel, b: CandidateModel)
    requires
        a.duplicate_key is None,
        b.duplicate_key is None,
    ensures
        repeats(a, b) <==> a.classification == b.classification && text::lowercase(
            item_text(a.content),
        ) == text::lowercase(item_text(b.content)) && (a.classification == SummaryClass::Daily
            ==> topic_text(a.topic) == topic_text(b.topic)),
{
}

/// Of the candidates retained in one class (for daily ones, under one topic) no
/// two bring the same key.
pub proof fn retained_keys_are_distinct(
    s: Seq<CandidateModel>,
    class: SummaryClass,
    i: int,
    j: int,
)
    requires
        0 <= i < j < retained(s, class).len(),
        retained(s, class)[i].duplicate_key is Some,
        retained(s, class)[j].duplicate_key is Some,
        item_text(retained(s, class)[i].duplicate_key->0).len() > 0,
        class == SummaryClass::Daily ==> retained(s, class)[i].topic == retained(s, class)[j].topic,
    ensures
        item_text(retained(s, class)[i].duplicate_key->0) != item_text(
            retained(s, class)[j].duplicate_key->0,
        ),
    decreases s.len(),
{
    let less = s.drop_last();
    let before = retained(less, class);
    let all = retained(s, class);
    if j < before.len() {
        assert(all[i] == before[i] && all[j] == before[j]);
        retained_keys_are_distinct(less, class, i, j);
    } else {
        assert(all[i] == before[i]);
        retained_candidates_are_worth_keeping(less, class, i);
        let k = choose|k: int|
            {
                &&& 0 <= k < less.len()
                &&& before[i] == cleaned(#[trigger] less[k])
                &&& less[k].classification == class
                &&& worth_keeping(less[k])
                &&& !repeats_earlier(less.take(k + 1))
            };
        assert(s[k] == less[k]);
        assert(!repeats(s[k], s.last()));
    }
}

/// Of the candidates retained in one class (for daily ones, under one topic) no
/// two that bring no key say the same in lower case.
pub proof fn retained_contents_are_distinct(
    s: Seq<CandidateModel>,
    class: SummaryClass,
    i: int,
    j: int,
)
    requires
        0 <= i < j < retained(s, class).len(),
        retained(s, class)[i].duplicate_key is None,
        retained(s, class)[j].duplicate_key is None,
        class == SummaryClass::Daily ==> retained(s, class)[i].topic == retained(s, class)[j].topic,
    ensures
        text::lowercase(retained(s, class)[i].content) != text::lowercase(
            retained(s, class)[j].content,
        ),
    decreases s.len(),
{
    let less = s.drop_last();
    let before = retained(less, class);
    let all = retained(s, class);
    if j < before.len() {
        assert(all[i] == before[i] && all[j] == before[j]);
        retained_contents_are_distinct(less, class, i, j);
    } else {
        assert(all[i] == before[i]);
        retained_candidates_are_worth_keeping(less, class, i);
        let k = choose|k: int|
            {
                &&& 0 <= k < less.len()
                &&& before[i] == cleaned(#[trigger] less[k])
                &&& less[k].classification == class
                &&& worth_keeping(less[k])
                &&& !repeats_earlier(less.take(k + 1))
            };
        assert(s[k] == less[k]);
        assert(!repeats(s[k], s.last()));
    }
}

/// A candidate whose key no earlier candidate brings is retained wherever its
/// content says something that is worth keeping, even where an earlier candidate
/// with a key of its own says the same.
pub proof fn a_new_key_is_retained(s: Seq<CandidateModel>, i: int)
    requires
        0 <= i < s.len(),
        s[i].classification != SummaryClass::Discard,
        item_text(s[i].content).len() > 0,
        !low_value(text::lowercase(item_text(s[i].content))),
        s[i].duplicate_key is Some,
        item_text(s[i].duplicate_key->0).len() > 0,
        forall|j: int|
            0 <= j < i ==> (#[trigger] s[j]).duplicate_key is Some && item_text(
                s[j].duplicate_key->0,
            ).len() > 0 && item_text(s[j].duplicate_key->0) != item_text(s[i].duplicate_key->0),
    ensures
        exists|k: int|
            {
                &&& 0 <= k < retained(s, s[i].classification).len()
                &&& (#[trigger] retained(s, s[i].classification)[k]).content == item_text(
                    s[i].content,
                )
                &&& retained(s, s[i].classification)[k].duplicate_key == s[i].duplicate_key
                &&& retained(s, s[i].classification)[k].topic == topic_text(s[i].topic)
                &&& retained(s, s[i].classification)[k].importance_bits == s[i].importance_bits
                &&& retained(s, s[i].classification)[k].fact_type == s[i].fact_type
                &&& retained(s, s[i].classification)[k].classification == s[i].classification
            },
{
    let part = s.take(i + 1);
    assert forall|j: int| 0 <= j < part.len() - 1 implies !(worth_keeping(#[trigger] part[j])
        && repeats(part[j], part.last())) by {
        assert(part[j] == s[j]);
        keys_of_their_own_decide(s[j], s[i]);
    }
    what_is_no_repetition_is_retained(s, i);
}

/// A candidate that is worth keeping and repeats no earlier one is retained in its
/// class, with its importance, its type and its key.
pub proof fn what_is_no_repetition_is_retained(s: Seq<CandidateModel>, i: int)
    requires
        0 <= i < s.len(),
        worth_keeping(s[i]),
        !repeats_earlier(s.take(i + 1)),
    ensures
        exists|k: int|
            {
                &&& 0 <= k < retained(s, s[i].classification).len()
                &&& (#[trigger] retained(s, s[i].classification)[k]).content == item_text(
                    s[i].content,
                )
                &&& retained(s, s[i].classification)[k].duplicate_key == s[i].duplicate_key
                &&& retained(s, s[i].classification)[k].topic == topic_text(s[i].topic)
                &&& retained(s, s[i].classification)[k].importance_bits == s[i].importance_bits
                &&& retained(s, s[i].classification)[k].fact_type == s[i].fact_type
                &&& retained(s, s[i].classification)[k].classification == s[i].classification
            },
    decreases s.len(),
{
    let less = s.drop_last();
    let class = s[i].classification;
    let before = retained(less, class);
    if i == s.len() - 1 {
        assert(s.take(i + 1) =~= s);
        assert(retained(s, class)[before.len() as int] == cleaned(s[i]));
    } else {
        assert(less[i] == s[i]);
        assert(less.take(i + 1) =~= s.take(i + 1));
        what_is_no_repetition_is_retained(less, i);
        let k = choose|k: int|
            {
                &&& 0 <= k < before.len()
                &&& (#[trigger] before[k]).content == item_text(less[i].content)
                &&& before[k].duplicate_key == less[i].duplicate_key
                &&& before[k].topic == topic_text(less[i].topic)
                &&& before[k].importance_bits == less[i].importance_bits
                &&& before[k].fact_type == less[i].fact_type
                &&& before[k].classification == less[i].classification
            };
        assert(retained(s, class)[k] == before[k]);
    }
}

/// Later candidates take nothing away from what is retained, and add themselves
/// at the end at most.
pub proof fn retained_candidates_stay(
    s: Seq<CandidateModel>,
    c: CandidateModel,
    class: SummaryClass,
)
    ensures
        retained(s.push(c), class).len() <= retained(s, class).len() + 1,
        retained(s.push(c), class).take(retained(s, class).len() as int) == retained(s, class),
        c.classification != class ==> retained(s.push(c), class) == retained(s, class),
{
    assert(s.push(c).drop_last() =~= s);
    let before = retained(s, class);
    assert(before.take(before.len() as int) =~= before);
    assert(before.push(cleaned(c)).take(before.len() as int) =~= before);
}

/// A topic is told without blank ends, and a blank one as the general one.
pub proof fn topics_are_trimmed(a: Seq<char>, topic: Seq<char>, b: Seq<char>)
    requires
        forall|i: int| 0 <= i < a.len() ==> text::whitespace(#[trigger] a[i]),
        forall|i: int| 0 <= i < b.len() ==> text::whitespace(#[trigger] b[i]),
        topic.len() > 0,
        !text::whitespace(topic[0]),
        !text::whitespace(topic.last()),
    ensures
        topic_text(a + topic + b) == topic,
        topic_text(a) == "General"@,
{
    text::trim_of_padded(a, topic, b);
    blank_is_trimmed(a);
}

proof fn blank_is_trimmed(a: Seq<char>)
    requires
        forall|i: int| 0 <= i < a.len() ==> text::whitespace(#[trigger] a[i]),
    ensures
        text::trim(a).len() == 0,
    decreases a.len(),
{
    if a.len() > 0 {
        let rest = a.drop_first();
        assert forall|i: int| 0 <= i < rest.len() implies text::whitespace(#[trigger] rest[i]) by {
            assert(rest[i] == a[i + 1]);
        }
        blank_is_trimmed(rest);
        assert(text::whitespace(a[0]));
    }
}

/// An item is told as it is, without the white space around it and without the
/// dash of a list before it.
pub proof fn items_are_told_as_they_are(a: Seq<char>, item: Seq<char>, b: Seq<char>)
    requires
        forall|i: int| 0 <= i < a.len() ==> text::whitespace(#[trigger] a[i]),
        forall|i: int| 0 <= i < b.len() ==> text::whitespace(#[trigger] b[i]),
        item.len() > 0,
        !text::whitespace(item[0]),
        !text::whitespace(item.last()),
        item[0] != '-',
        forall|i: int| 0 <= i < item.len() ==> #[trigger] item[i] != '\r',
    ensures
        item_text(a + item + b) == item,
        item_text(a + ("- "@ + item) + b) == item,
{
    reveal_strlit("- ");
    reveal_strlit("\r\n");
    let dash = "- "@;
    let none = Seq::<char>::empty();
    text::trim_of_padded(a, item, b);
    text::trim_of_padded(a, dash + item, b);
    text::trim_of_padded(none, item, none);
    assert(none + item + none =~= item);
    if text::starts_with(item, dash) {
        assert(item.take(2)[0] == item[0]);
    }
    assert((dash + item).take(2) =~= dash);
    assert((dash + item).skip(2) =~= item);
    assert(text::strip_start(item, dash) == item);
    text::nothing_to_replace(item, "\r\n"@, "\n"@);
}

/// A text that shows a mark of a command's report or of small talk is of low
/// value, whatever stands around the mark.
pub proof fn marks_of_low_value(a: Seq<char>, mark: Seq<char>, b: Seq<char>)
    requires
        mark == "task triggered successfully"@ || mark == "stop requested"@ || mark
            == "start requested"@ || mark == "uptime"@ || mark == "whoami"@ || mark == "lsof"@
            || mark == "df -h"@ || mark == "port "@ || mark == "delivered"@ || mark
            == "just greeted"@ || mark == "casual greeting"@ || mark == "exchange of greetings"@
            || mark == "only greeted"@ || mark == "greeted the assistant"@ || mark
            == "greeted the user"@ || mark == "问候"@ || mark == "打了招呼"@ || mark
            == "简单打了招呼"@ || mark == "身份试探"@,
    ensures
        low_value(a + mark + b),
{
    text::middle_occurs(a, mark, b);
}

/// The array in the midst of a text is told from its first bracket to its last.
pub proof fn the_array_in_the_midst(a: Seq<char>, inner: Seq<char>, b: Seq<char>)
    requires
        forall|i: int| 0 <= i < a.len() ==> #[trigger] a[i] != '[',
        forall|i: int| 0 <= i < b.len() ==> #[trigger] b[i] != ']',
    ensures
        bracketed(a + "["@ + inner + "]"@ + b) == Some("["@ + inner + "]"@),
{
    reveal_strlit("[");
    reveal_strlit("]");
    let s = a + "["@ + inner + "]"@ + b;
    text::first_index_is_first(s, '[');
    text::last_index_is_last(s, ']');
    let from = a.len() as int;
    let to = from + 1 + inner.len();
    assert(s[from] == '[');
    assert(s[to] == ']');
    let first = text::first_index(s, '[')->0;
    let last = text::last_index(s, ']')->0;
    if first < from {
        assert(s[first] == a[first]);
    }
    if last > to {
        assert(s[last] == b[last - to - 1]);
    }
    assert(s.subrange(from, to + 1) =~= "["@ + inner + "]"@);
}

/// A text with no opening bracket, or with no closing one, holds no array.
pub proof fn no_array_without_brackets(s: Seq<char>)
    requires
        (forall|i: int| 0 <= i < s.len() ==> #[trigger] s[i] != '[') || (forall|i: int|
            0 <= i < s.len() ==> #[trigger] s[i] != ']'),
    ensures
        bracketed(s) is None,
{
    text::first_index_is_first(s, '[');
    text::last_index_is_last(s, ']');
}

/// A text inside a code fence is told without the fence, and one without a fence
/// as it is.
pub proof fn fences_are_taken_off(body: Seq<char>)
    requires
        body.len() > 0,
        !text::whitespace(body[0]),
        !text::whitespace(body.last()),
        body[0] != '`',
        body.last() != '`',
    ensures
        unfenced(body) == body,
        unfenced("```json\n"@ + body + "\n```"@) == body,
        unfenced("```\n"@ + body + "\n```"@) == body,
{
    reveal_strlit("```json\n");
    reveal_strlit("```\n");
    reveal_strlit("\n```");
    reveal_strlit("```json");
    reveal_strlit("```");
    let none = Seq::<char>::empty();
    let line = seq!['\n'];
    let mark = "```"@;
    text::trim_of_padded(none, body, none);
    assert(none + body + none =~= body);
    if text::starts_with(body, "```json"@) {
        assert(body.take(7)[0] == body[0]);
    }
    if text::starts_with(body, mark) {
        assert(body.take(3)[0] == body[0]);
    }
    // The mark is taken off the end.
    let tail = body + "\n```"@;
    text::trim_of_padded(line, tail, none);
    assert(text::trim(line + tail) == tail) by {
        assert(line + tail + none =~= line + tail);
    }
    assert(tail.skip(tail.len() - 3) =~= mark);
    assert(tail.take(tail.len() - 3) =~= body + line);
    if text::ends_with(body + line, mark) {
        assert((body + line).skip((body + line).len() - 3)[2] == '\n');
    }
    assert(text::strip_end(body + line, mark) == body + line);
    assert(text::strip_end(tail, mark) == body + line);
    text::trim_of_padded(none, body, line);
    assert(none + body + line =~= body + line);
    assert(fenced_body(line + tail) == body);
    let json = "```json\n"@ + body + "\n```"@;
    text::trim_of_padded(none, json, none);
    assert(none + json + none =~= json);
    assert(json.take(7) =~= "```json"@);
    assert(json.skip(7) =~= line + tail);
    let plain = "```\n"@ + body + "\n```"@;
    text::trim_of_padded(none, plain, none);
    assert(none + plain + none =~= plain);
    assert(plain.take(3) =~= mark);
    assert(plain.skip(3) =~= line + tail);
    if text::starts_with(plain, "```json"@) {
        assert(plain.take(7)[3] == plain[3]);
    }
}

/// A line of a list holds what stands behind its dash, its star or its number.
pub proof fn lines_hold_their_items(
    a: Seq<char>,
    number: Seq<char>,
    mark: Seq<char>,
    item: Seq<char>,
    b: Seq<char>,
)
    requires
        forall|i: int| 0 <= i < a.len() ==> text::whitespace(#[trigger] a[i]),
        forall|i: int| 0 <= i < b.len() ==> text::whitespace(#[trigger] b[i]),
        item.len() > 0,
        !text::whitespace(item[0]),
        !text::whitespace(item.last()),
        forall|i: int| 0 <= i < number.len() ==> '0' <= #[trigger] number[i] <= '9',
        (mark == "- "@ || mark == "* "@) && number.len() == 0 || mark == ". "@ || mark == ") "@,
    ensures
        list_item(a + (number + mark + item) + b) == Some(item),
{
    reveal_strlit("- ");
    reveal_strlit("* ");
    reveal_strlit(". ");
    reveal_strlit(") ");
    let none = Seq::<char>::empty();
    let line = number + mark + item;
    if number.len() > 0 {
        assert(line[0] == number[0]);
        assert('0' <= number[0] <= '9');
    }
    text::trim_of_padded(a, line, b);
    text::trim_of_padded(none, item, none);
    assert(none + item + none =~= item);
    if text::starts_with(line, "- "@) {
        assert(line.take(2)[0] == line[0]);
    }
    if text::starts_with(line, "* "@) {
        assert(line.take(2)[0] == line[0]);
    }
    if number.len() == 0 {
        assert(line =~= mark + item);
        assert(line.take(2) =~= mark);
        assert(line.skip(2) =~= item);
    }
    assert(line =~= number + (mark + item));
    digits_are_skipped(number, mark + item);
    assert((mark + item).take(2) =~= mark);
    assert((mark + item).skip(2) =~= item);
}

proof fn digits_are_skipped(number: Seq<char>, rest: Seq<char>)
    requires
        forall|i: int| 0 <= i < number.len() ==> '0' <= #[trigger] number[i] <= '9',
        rest.len() > 0,
        !('0' <= rest[0] <= '9'),
    ensures
        after_digits(number + rest) == rest,
    decreases number.len(),
{
    if number.len() > 0 {
        let fewer = number.drop_first();
        assert forall|i: int| 0 <= i < fewer.len() implies '0' <= #[trigger] fewer[i] <= '9' by {
            assert(fewer[i] == number[i + 1]);
        }
        digits_are_skipped(fewer, rest);
        assert((number + rest)[0] == number[0]);
        assert((number + rest).drop_first() =~= fewer + rest);
    } else {
        assert(number + rest =~= rest);
    }
}

/// The candidates of two lists are those of the one and then those of the other;
/// a line has at most one, which is a daily one with the item as its content.
pub proof fn lists_are_read_line_by_line(a: Seq<Seq<char>>, b: Seq<Seq<char>>)
    ensures
        list_candidates(a + b) == list_candidates(a) + list_candidates(b),
        a.len() == 1 && list_item(a[0]) is None ==> list_candidates(a).len() == 0,
        a.len() == 1 && list_item(a[0]) is Some ==> list_candidates(a).len() == 1
            && list_candidates(a)[0].content == list_item(a[0])->0
            && list_candidates(a)[0].classification == SummaryClass::Daily
            && list_candidates(a)[0].topic == "General"@
            && list_candidates(a)[0].importance_bits == 0x3f00_0000
            && list_candidates(a)[0].fact_type is None
            && list_candidates(a)[0].duplicate_key is None,
    decreases b.len(),
{
    if b.len() == 0 {
        assert(a + b =~= a);
        assert(list_candidates(a) + list_candidates(b) =~= list_candidates(a));
    } else {
        lists_are_read_line_by_line(a, b.drop_last());
        assert((a + b).drop_last() =~= a + b.drop_last());
        assert((a + b).last() == b.last());
        assert(list_candidates(a + b) =~= list_candidates(a) + list_candidates(b));
    }
    if a.len() == 1 {
        assert(a.drop_last() =~= Seq::<Seq<char>>::empty());
        assert(list_candidates(a.drop_last()) == Seq::<CandidateModel>::empty());
    }
}

/// Where candidates are grouped, each stands in the block of its topic, and every
/// item of a block is the content of a candidate of that topic; no topic has two
/// blocks, and no block holds an item twice.
pub proof fn candidates_stand_under_their_topic(
    blocks: Seq<BlockModel>,
    s: Seq<CandidateModel>,
    i: int,
    b: int,
    k: int,
)
    requires
        grouped(blocks, s),
    ensures
        0 <= i < s.len() ==> exists|c: int|
            0 <= c < blocks.len() && (#[trigger] blocks[c]).topic == topic_text(s[i].topic)
                && blocks[c].items.contains(s[i].content),
        0 <= b < blocks.len() && 0 <= k < blocks[b].items.len() ==> exists|j: int|
            0 <= j < s.len() && topic_text((#[trigger] s[j]).topic) == blocks[b].topic
                && s[j].content == blocks[b].items[k],
        0 <= b < k < blocks.len() ==> text::lex_lt(blocks[b].topic, blocks[k].topic),
        0 <= b < blocks.len() ==> token_set::strictly_sorted(blocks[b].items),
{
    if 0 <= i < s.len() {
        let topic = topic_text(s[i].topic);
        assert(topic_present(s, topic));
        let c = choose|c: int| 0 <= c < blocks.len() && (#[trigger] blocks[c]).topic == topic;
        assert(content_present(s, blocks[c].topic, s[i].content));
        assert(blocks[c].items.contains(s[i].content));
    }
    if 0 <= b < blocks.len() && 0 <= k < blocks[b].items.len() {
        let content = blocks[b].items[k];
        assert(blocks[b].items.contains(content));
        assert(content_present(s, blocks[b].topic, content));
        let j = choose|j: int|
            0 <= j < s.len() && topic_text(#[trigger] s[j].topic) == blocks[b].topic
                && s[j].content == content;
        assert(topic_text(s[j].topic) == blocks[b].topic);
    }
}

/// A short greeting is of low value, whatever blanks stand in it.
pub proof fn greetings_are_of_low_value(lower: Seq<char>)
    requires
        text::utf8_len(lower) <= 12,
        compacted(lower) == "hi"@ || compacted(lower) == "hello"@ || compacted(lower) == "hey"@
            || compacted(lower) == "你好"@ || compacted(lower) == "您好"@ || compacted(lower) == "嗨"@
            || compacted(lower) == "早上好"@ || compacted(lower) == "晚上好"@ || compacted(lower)
            == "收到"@,
    ensures
        low_value(lower),
{
}

/// Compacting takes away blanks, tabs and line ends, and nothing else.
pub proof fn compacting_takes_blanks_away(a: Seq<char>, b: Seq<char>)
    ensures
        compacted(a + b) == compacted(a) + compacted(b),
        a.len() == 1 && (a[0] == ' ' || a[0] == '\t' || a[0] == '\n' || a[0] == '\r')
            ==> compacted(a).len() == 0,
        a.len() == 1 && a[0] != ' ' && a[0] != '\t' && a[0] != '\n' && a[0] != '\r' ==> compacted(a)
            == a,
{
    let keep = |c: char| !is_blank_char(c);
    Seq::filter_distributes_over_add(a, b, keep);
    if a.len() == 1 {
        reveal(Seq::filter);
        assert(a.drop_last() =~= Seq::<char>::empty());
        assert(a.drop_last().filter(keep) =~= Seq::<char>::empty());
        if keep(a[0]) {
            assert(compacted(a) =~= a);
        }
    }
}

/// A document begins with its date, and its sections with their topics hold a line
/// for each of their items.
pub proof fn documents_hold_their_items(
    date: Seq<char>,
    preface: Seq<Seq<char>>,
    sections: Seq<BlockModel>,
    i: int,
    k: int,
)
    ensures
        text::starts_with(document_text(date, preface, sections), "# "@ + date + "\n"@),
        0 <= k < preface.len() ==> text::contains(
            document_text(date, preface, sections),
            preface[k],
        ),
        0 <= i < sections.len() && 0 <= k < sections[i].items.len() ==> text::contains(
            document_text(date, preface, sections),
            "- "@ + item_text(sections[i].items[k]),
        ) && text::contains(document_text(date, preface, sections), "## "@ + sections[i].topic),
{
    let lines = document_lines(date, preface, sections);
    let head = seq!["# "@ + date, Seq::<char>::empty()];
    assert(lines[0] == "# "@ + date);
    text::joined_begins_with_its_first(lines, "\n"@);
    let front = if preface.len() == 0 {
        Seq::empty()
    } else {
        preface.push(Seq::<char>::empty())
    };
    let body = section_lines(sections);
    assert(lines =~= head + front + body + seq![Seq::<char>::empty()]);
    if 0 <= k < preface.len() {
        assert(lines[2 + k] == preface[k]);
        text::joined_holds_its_parts(lines, "\n"@, 2 + k);
    }
    if 0 <= i < sections.len() && 0 <= k < sections[i].items.len() {
        let (a, b) = lines_of_an_item(sections, i, k);
        let n = 2 + front.len();
        assert(lines[n + a] == body[a]);
        assert(lines[n + b] == body[b]);
        text::joined_holds_its_parts(lines, "\n"@, n + a);
        text::joined_holds_its_parts(lines, "\n"@, n + b);
    }
}

proof fn lines_of_an_item(sections: Seq<BlockModel>, i: int, k: int) -> (r: (int, int))
    requires
        0 <= i < sections.len(),
        0 <= k < sections[i].items.len(),
    ensures
        0 <= r.0 < r.1 < section_lines(sections).len(),
        section_lines(sections)[r.0] == "## "@ + sections[i].topic,
        section_lines(sections)[r.1] == "- "@ + item_text(sections[i].items[k]),
    decreases sections.len(),
{
    let less = sections.drop_last();
    let before = section_lines(less);
    let all = section_lines(sections);
    let section = sections.last();
    let gap = if before.len() == 0 {
        Seq::empty()
    } else {
        seq![Seq::<char>::empty()]
    };
    let items = section.items.map_values(|item: Seq<char>| "- "@ + item_text(item));
    if i < less.len() {
        assert(less[i] == sections[i]);
        let (a, b) = lines_of_an_item(less, i, k);
        if section.items.len() > 0 {
            assert(all =~= before + gap + seq!["## "@ + section.topic, Seq::<char>::empty()]
                + items);
            assert(all[a] == before[a] && all[b] == before[b]);
        }
        (a, b)
    } else {
        let n = (before.len() + gap.len()) as int;
        assert(all =~= before + gap + seq!["## "@ + section.topic, Seq::<char>::empty()] + items);
        assert(all[n] == "## "@ + section.topic);
        assert(all[n + 2 + k] == items[k]);
        (n, n + 2 + k)
    }
}

/// Adding items brings none that was not to be added, and none twice.
pub proof fn added_items_are_new(items: Seq<Seq<char>>, more: Seq<Seq<char>>, k: int)
    requires
        items.len() <= k < with_items(items, more).len(),
    ensures
        more.contains(with_items(items, more)[k]),
        !holds_item(with_items(items, more).take(k), with_items(items, more)[k]),
    decreases more.len(),
{
    if more.len() > 0 {
        let less = more.drop_last();
        let before = with_items(items, less);
        let all = with_items(items, more);
        if k < before.len() {
            added_items_are_new(items, less, k);
            let i = choose|i: int| 0 <= i < less.len() && less[i] == before[k];
            assert(more[i] == before[k]);
            assert(all.take(k) =~= before.take(k));
        } else {
            assert(more[more.len() - 1] == all[k]);
            assert(all.take(k) =~= before);
        }
    }
}

/// A document is written wherever a block brings an item that it did not hold, and
/// for a new document wherever there is a block; the text begins with the date
/// and holds the item.
pub proof fn new_items_are_written(
    date: CalendarDate,
    existing: Option<&str>,
    blocks: Seq<BlockModel>,
    b: int,
    k: int,
)
    requires
        0 <= b < blocks.len(),
        0 <= k < blocks[b].items.len(),
        existing is Some ==> !holds_item(
            section_items(existing_document(existing).sections, blocks[b].topic),
            blocks[b].items[k],
        ),
    ensures
        merged_document(date, existing, blocks) is Some,
        text::starts_with(
            merged_document(date, existing, blocks)->0,
            "# "@ + dates::full_date_text(date) + "\n"@,
        ),
        text::contains(
            merged_document(date, existing, blocks)->0,
            "- "@ + item_text(blocks[b].items[k]),
        ),
{
    let doc = existing_document(existing);
    let lines = match existing {
        Some(raw) => text::lines(raw@),
        None => text::lines(""@),
    };
    read_sections_are_sorted(lines);
    if existing is Some && !merge_changes(doc.sections, blocks) {
        unchanged_sections_hold_all(doc.sections, blocks, b);
        merging_holds_every_item(doc.sections, blocks, b, k);
    }
    let merged = merge_blocks(doc.sections, blocks);
    let topic = blocks[b].topic;
    merging_holds_every_item(doc.sections, blocks, b, k);
    let items = section_items(merged, topic);
    let j = choose|j: int|
        0 <= j < items.len() && item_text(#[trigger] items[j]) == item_text(blocks[b].items[k]);
    let at = slot(merged, topic);
    slot_bounds(merged, topic);
    assert(merged[at].items == items);
    documents_hold_their_items(dates::full_date_text(date), doc.preface, merged, at, j);
}

proof fn unchanged_sections_hold_all(sections: Seq<BlockModel>, blocks: Seq<BlockModel>, b: int)
    requires
        sections_sorted(sections),
        0 <= b < blocks.len(),
        !merge_changes(sections, blocks),
    ensures
        section_items(merge_blocks(sections, blocks), blocks[b].topic) == section_items(
            sections,
            blocks[b].topic,
        ),
{
    items_stay_where_nothing_changes(sections, blocks, blocks[b].topic);
}

proof fn items_stay_where_nothing_changes(
    sections: Seq<BlockModel>,
    blocks: Seq<BlockModel>,
    topic: Seq<char>,
)
    requires
        sections_sorted(sections),
        !merge_changes(sections, blocks),
    ensures
        section_items(merge_blocks(sections, blocks), topic) == section_items(sections, topic),
    decreases blocks.len(),
{
    if blocks.len() > 0 {
        let less = blocks.drop_last();
        items_stay_where_nothing_changes(sections, less, topic);
        let before = merge_blocks(sections, less);
        let block = blocks.last();
        let items = section_items(before, block.topic);
        let all = with_items(items, block.items);
        with_items_keeps_items(items, block.items);
        assert(all.take(items.len() as int) =~= all);
        merging_keeps_sections_sorted(sections, less);
        set_items_are_found(before, block.topic, all);
        if topic != block.topic {
            set_items_of_one_topic(before, block.topic, all, topic);
        }
    }
}

/// What is retained says something, and nothing of low value; what says nothing,
/// or something of low value, is not retained.
pub proof fn retained_candidates_say_something(
    s: Seq<CandidateModel>,
    class: SummaryClass,
    k: int,
    c: CandidateModel,
)
    ensures
        0 <= k < retained(s, class).len() ==> retained(s, class)[k].content.len() > 0 && !low_value(
            text::lowercase(retained(s, class)[k].content),
        ) && retained(s, class)[k].classification == class,
        item_text(c.content).len() == 0 || low_value(text::lowercase(item_text(c.content)))
            ==> retained(s.push(c), class) == retained(s, class),
{
    assert(s.push(c).drop_last() =~= s);
    if 0 <= k < retained(s, class).len() {
        retained_candidates_are_worth_keeping(s, class, k);
    }
}

} // verus!
