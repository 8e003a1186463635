//! Retrieval of memories: matching, ranking and removal of duplicates.

use crate::dates;
use crate::dates::CalendarDate;
use crate::records::{CanonicalEntry, Fact, Score, SearchResult, TimeRange};
use crate::seqs;
use crate::text;
use crate::token_set;
use crate::token_set::TokenSet;
use vstd::prelude::*;

verus! {

#[derive(Clone, Copy, Debug, PartialEq, Eq, Structural)]
pub enum MemorySourceKind {
    Fact,
    LongTerm,
    Daily,
    Session,
    Other,
}

#[derive(Clone, Copy, Debug, PartialEq, Eq, Structural)]
pub enum MemoryRoutingBias {
    LongTerm,
    ShortTerm,
    Neutral,
}

#[derive(Clone, Debug)]
pub struct MemoryFactHit {
    pub fact: Fact,
    pub score: Score,
}

#[derive(Clone, Debug)]
pub enum MemoryHit {
    Fact(Box<MemoryFactHit>),
    Chunk(Box<SearchResult>),
}

/// The kind of memory that an indexed text belongs to: by the name of its
/// source, and where that names none, by its path.
pub open spec fn chunk_kind(source: Seq<char>, path: Seq<char>) -> MemorySourceKind {
    if source == "long_term"@ {
        MemorySourceKind::LongTerm
    } else if source == "daily"@ {
        MemorySourceKind::Daily
    } else if source == "session"@ {
        MemorySourceKind::Session
    } else if path == "MEMORY.md"@ {
        MemorySourceKind::LongTerm
    } else if text::starts_with(path, "memory/"@) {
        MemorySourceKind::Daily
    } else if text::starts_with(path, "sessions/"@) {
        MemorySourceKind::Session
    } else {
        MemorySourceKind::Other
    }
}

pub fn classify_chunk_source(source: &str, path: &str) -> (r: MemorySourceKind)
    ensures
        r == chunk_kind(source@, path@),
{
    if text::same_text(source, "long_term") {
        MemorySourceKind::LongTerm
    } else if text::same_text(source, "daily") {
        MemorySourceKind::Daily
    } else if text::same_text(source, "session") {
        MemorySourceKind::Session
    } else if text::same_text(path, "MEMORY.md") {
        MemorySourceKind::LongTerm
    } else if text::text_starts_with(path, "memory/") {
        MemorySourceKind::Daily
    } else if text::text_starts_with(path, "sessions/") {
        MemorySourceKind::Session
    } else {
        MemorySourceKind::Other
    }
}

pub open spec fn kind_label(kind: MemorySourceKind) -> Seq<char> {
    match kind {
        MemorySourceKind::Fact => "fact"@,
        MemorySourceKind::LongTerm => "long_term"@,
        MemorySourceKind::Daily => "daily"@,
        MemorySourceKind::Session => "session"@,
        MemorySourceKind::Other => "other"@,
    }
}

pub fn source_label(kind: MemorySourceKind) -> (r: &'static str)
    ensures
        r@ == kind_label(kind),
{
    match kind {
        MemorySourceKind::Fact => "fact",
        MemorySourceKind::LongTerm => "long_term",
        MemorySourceKind::Daily => "daily",
        MemorySourceKind::Session => "session",
        MemorySourceKind::Other => "other",
    }
}

/// The label of an indexed kind of memory names that kind again.
pub proof fn label_names_its_kind(kind: MemorySourceKind, path: Seq<char>)
    requires
        kind == MemorySourceKind::LongTerm || kind == MemorySourceKind::Daily || kind
            == MemorySourceKind::Session,
    ensures
        chunk_kind(kind_label(kind), path) == kind,
{
    reveal_strlit("long_term");
    reveal_strlit("daily");
    reveal_strlit("session");
    assert("long_term"@.len() == 9);
    assert("daily"@.len() == 5);
    assert("session"@.len() == 7);
}

impl MemoryHit {
    pub open spec fn kind(self) -> MemorySourceKind {
        match self {
            MemoryHit::Fact(_) => MemorySourceKind::Fact,
            MemoryHit::Chunk(hit) => chunk_kind(hit.source@, hit.path@),
        }
    }

    pub open spec fn body(self) -> Seq<char> {
        match self {
            MemoryHit::Fact(hit) => hit.fact.content@,
            MemoryHit::Chunk(hit) => hit.text@,
        }
    }

    pub open spec fn order(self) -> int {
        match self {
            MemoryHit::Fact(hit) => hit.score.order as int,
            MemoryHit::Chunk(hit) => hit.score.order as int,
        }
    }

    pub fn score(&self) -> (r: &Score)
        ensures
            *r == (match *self {
                MemoryHit::Fact(hit) => hit.score,
                MemoryHit::Chunk(hit) => hit.score,
            }),
    {
        match self {
            MemoryHit::Fact(hit) => &hit.score,
            MemoryHit::Chunk(hit) => &hit.score,
        }
    }

    pub fn source_kind(&self) -> (r: MemorySourceKind)
        ensures
            r == self.kind(),
    {
        match self {
            MemoryHit::Fact(_) => MemorySourceKind::Fact,
            MemoryHit::Chunk(hit) => classify_chunk_source(hit.source.as_str(), hit.path.as_str()),
        }
    }

    pub fn content(&self) -> (r: &str)
        ensures
            r@ == self.body(),
    {
        match self {
            MemoryHit::Fact(hit) => hit.fact.content.as_str(),
            MemoryHit::Chunk(hit) => hit.text.as_str(),
        }
    }

    pub fn chunk_id(&self) -> (r: Option<&str>)
        ensures
            match *self {
                MemoryHit::Fact(_) => r is None,
                MemoryHit::Chunk(hit) => r is Some && r->0@ == hit.chunk_id@,
            },
    {
        match self {
            MemoryHit::Fact(_) => None,
            MemoryHit::Chunk(hit) => Some(hit.chunk_id.as_str()),
        }
    }

    pub fn fact_id(&self) -> (r: Option<&str>)
        ensures
            match *self {
                MemoryHit::Fact(hit) => r is Some && r->0@ == hit.fact.id@,
                MemoryHit::Chunk(_) => r is None,
            },
    {
        match self {
            MemoryHit::Fact(hit) => Some(hit.fact.id.as_str()),
            MemoryHit::Chunk(_) => None,
        }
    }

    pub fn copy(&self) -> (r: Self)
        ensures
            r == *self,
    {
        match self {
            MemoryHit::Fact(hit) => {
                let fact = MemoryFactHit { fact: hit.fact.copy(), score: hit.score.copy() };
                MemoryHit::Fact(Box::new(fact))
            },
            MemoryHit::Chunk(hit) => MemoryHit::Chunk(Box::new(hit.copy())),
        }
    }
}

// Text normalisation and tokens

pub open spec fn normalized_char(c: char) -> char {
    if text::alphanumeric(c) || text::whitespace(c) {
        text::ascii_lower(c)
    } else {
        ' '
    }
}

/// The text with ASCII letters in lower case and a blank in place of every
/// character that is neither a letter, a number nor white space.
pub open spec fn normalized(s: Seq<char>) -> Seq<char> {
    s.map_values(|c: char| normalized_char(c))
}

pub fn normalize_text(value: &str) -> (r: String)
    ensures
        r@ == normalized(value@),
{
    let chars = text::chars_of(value);
    let mut out = String::new();
    let n: usize = chars.len();
    for i in 0..n
        invariant
            n == chars@.len(),
            out@ == normalized(chars@.take(i as int)),
    {
        let c: char = chars[i];
        if text::is_alphanumeric(c) || text::is_whitespace(c) {
            out.push(text::to_ascii_lower(c));
        } else {
            out.push(' ');
        }
        assert(normalized(chars@.take(i + 1)) == normalized(chars@.take(i as int)).push(
            normalized_char(c),
        ));
    }
    assert(chars@.take(n as int) == chars@);
    out
}

/// Normalising keeps the number of characters, leaves only letters, numbers and
/// white space, with no ASCII letter in upper case, and changes nothing a second
/// time.
pub proof fn normalizing_is_idempotent(s: Seq<char>)
    ensures
        normalized(s).len() == s.len(),
        forall|i: int|
            0 <= i < s.len() ==> {
                let c = #[trigger] normalized(s)[i];
                (text::alphanumeric(c) || text::whitespace(c)) && !('A' <= c <= 'Z')
            },
        normalized(normalized(s)) == normalized(s),
{
    assert forall|i: int| 0 <= i < s.len() implies ({
        let c = #[trigger] normalized(s)[i];
        &&& text::alphanumeric(c) || text::whitespace(c)
        &&& !('A' <= c <= 'Z')
        &&& normalized_char(c) == c
    }) by {
        text::lower_keeps_class(s[i]);
        text::lower_keeps_class(' ');
    }
    assert(normalized(normalized(s)) =~= normalized(s));
}

/// The scripts whose text is matched character by character.
pub open spec fn cjk(c: char) -> bool {
    ||| 0x4e00 <= c as u32 <= 0x9fff
    ||| 0x3400 <= c as u32 <= 0x4dbf
    ||| 0x3000 <= c as u32 <= 0x303f
    ||| 0x3040 <= c as u32 <= 0x309f
    ||| 0x30a0 <= c as u32 <= 0x30ff
    ||| 0xac00 <= c as u32 <= 0xd7af
}

pub fn is_cjk(ch: char) -> (r: bool)
    ensures
        r == cjk(ch),
{
    let n: u32 = ch as u32;
    (0x4e00 <= n && n <= 0x9fff) || (0x3400 <= n && n <= 0x4dbf) || (0x3000 <= n && n <= 0x303f)
        || (0x3040 <= n && n <= 0x309f) || (0x30a0 <= n && n <= 0x30ff) || (0xac00 <= n && n
        <= 0xd7af)
}

/// The words of more than one byte.
pub open spec fn long_words(s: Seq<char>) -> Seq<Seq<char>> {
    text::words(s).filter(|w: Seq<char>| text::utf8_len(w) > 1)
}

pub open spec fn cjk_chars(s: Seq<char>) -> Seq<char> {
    s.filter(|c: char| cjk(c))
}

pub open spec fn unigrams(s: Seq<char>) -> Seq<Seq<char>> {
    s.map_values(|c: char| seq![c])
}

/// The pairs of neighbours in `s`.
pub open spec fn bigrams(s: Seq<char>) -> Seq<Seq<char>> {
    Seq::new(
        if s.len() == 0 {
            0
        } else {
            (s.len() - 1) as nat
        },
        |i: int| seq![s[i], s[i + 1]],
    )
}

/// The tokens of a text: its words of more than one byte, and of the characters
/// that are matched singly, each one and each two that follow one another.
pub open spec fn tokens(s: Seq<char>) -> Set<Seq<char>> {
    long_words(s).to_set().union(unigrams(cjk_chars(s)).to_set()).union(
        bigrams(cjk_chars(s)).to_set(),
    )
}

proof fn union_step(base: Set<Seq<char>>, s: Seq<Seq<char>>, i: int)
    requires
        0 <= i < s.len(),
    ensures
        base.union(s.take(i + 1).to_set()) == base.union(s.take(i).to_set()).insert(s[i]),
{
    assert(s.take(i + 1) == s.take(i).push(s[i]));
    s.take(i).lemma_push_to_set_commute(s[i]);
    assert(base.union(s.take(i + 1).to_set()) =~= base.union(s.take(i).to_set()).insert(s[i]));
}

fn keep_cjk(chars: &[char]) -> (r: Vec<char>)
    ensures
        r@ == cjk_chars(chars@),
{
    let mut out: Vec<char> = Vec::new();
    let n: usize = chars.len();
    let ghost keep = |c: char| cjk(c);
    proof {
        seqs::filter_start(chars@, keep);
    }
    for i in 0..n
        invariant
            n == chars@.len(),
            keep == (|c: char| cjk(c)),
            out@ == chars@.take(i as int).filter(keep),
    {
        proof {
            seqs::filter_step(chars@, keep, i as int);
        }
        if is_cjk(chars[i]) {
            out.push(chars[i]);
        }
    }
    assert(chars@.take(n as int) == chars@);
    out
}

fn add_long_words(value: &str) -> (r: TokenSet)
    ensures
        r@ == long_words(value@).to_set(),
{
    let all = text::words_of(value);
    let ghost words = text::words(value@);
    let ghost keep = |w: Seq<char>| text::utf8_len(w) > 1;
    let mut out = TokenSet::new();
    let n: usize = all.len();
    proof {
        seqs::filter_start(words, keep);
    }
    assert(out@ =~= words.take(0).filter(keep).to_set());
    for i in 0..n
        invariant
            n == all@.len(),
            words == text::views(all@),
            keep == (|w: Seq<char>| text::utf8_len(w) > 1),
            out@ == words.take(i as int).filter(keep).to_set(),
    {
        proof {
            seqs::filter_step(words, keep, i as int);
            words.take(i as int).filter(keep).lemma_push_to_set_commute(words[i as int]);
        }
        if text::byte_len(all[i].as_str()) > 1 {
            out = out.with(all[i].clone());
        }
    }
    assert(words.take(n as int) == words);
    out
}

pub fn tokenize(value: &str) -> (r: TokenSet)
    ensures
        r@ == tokens(value@),
{
    let mut out = add_long_words(value);
    let chars = text::chars_of(value);
    let singles = keep_cjk(chars.as_slice());
    let n: usize = singles.len();
    let ghost words = long_words(value@).to_set();
    let ghost ones = unigrams(singles@);
    assert(words.union(ones.take(0).to_set()) =~= words);
    for i in 0..n
        invariant
            n == singles@.len(),
            ones == unigrams(singles@),
            out@ == words.union(ones.take(i as int).to_set()),
    {
        proof {
            union_step(words, ones, i as int);
        }
        let mut token = String::new();
        token.push(singles[i]);
        assert(token@ == ones[i as int]);
        out = out.with(token);
    }
    assert(ones.take(n as int) == ones);
    let ghost base = words.union(ones.to_set());
    let ghost pairs = bigrams(singles@);
    assert(base.union(pairs.take(0).to_set()) =~= base);
    let m: usize = if n == 0 {
        0
    } else {
        n - 1
    };
    for i in 0..m
        invariant
            n == singles@.len(),
            m == pairs.len(),
            m < n || m == 0,
            pairs == bigrams(singles@),
            out@ == base.union(pairs.take(i as int).to_set()),
    {
        proof {
            union_step(base, pairs, i as int);
        }
        let mut token = String::new();
        token.push(singles[i]);
        token.push(singles[i + 1]);
        assert(token@ == pairs[i as int]);
        out = out.with(token);
    }
    assert(pairs.take(m as int) == pairs);
    out
}

/// Two normalised texts say nearly the same: they are equal; or the first has
/// at least 24 bytes and one contains the other; or the second holds at least
/// four fifths of the tokens of the first.
pub open spec fn near_duplicates(a: Seq<char>, b: Seq<char>) -> bool {
    ||| a == b
    ||| text::utf8_len(a) >= 24 && (text::contains(a, b) || text::contains(b, a))
    ||| {
        &&& tokens(a) != Set::<Seq<char>>::empty()
        &&& tokens(b) != Set::<Seq<char>>::empty()
        &&& 5 * tokens(a).intersect(tokens(b)).len() >= 4 * tokens(a).len()
    }
}

pub fn are_near_duplicates(a: &str, b: &str) -> (r: bool)
    ensures
        r == near_duplicates(a@, b@),
{
    if text::same_text(a, b) {
        return true;
    }
    if text::byte_len(a) >= 24 && (text::text_contains(a, b) || text::text_contains(b, a)) {
        return true;
    }
    let tokens_a = tokenize(a);
    let tokens_b = tokenize(b);
    if tokens_a.is_empty() || tokens_b.is_empty() {
        return false;
    }
    reaches_four_fifths(tokens_a.common_count(&tokens_b), tokens_a.len())
}

/// `part` is at least four fifths of `whole`.
fn reaches_four_fifths(part: usize, whole: usize) -> (r: bool)
    ensures
        r == (5 * part >= 4 * whole),
{
    5 * (part as u128) >= 4 * (whole as u128)
}

/// Every text is a near duplicate of itself.
pub proof fn near_duplicates_reflexive(a: Seq<char>)
    ensures
        near_duplicates(a, a),
{
}

/// A remembered text and a candidate say nearly the same, and neither is empty.
pub open spec fn matching_content(existing: Seq<char>, candidate: Seq<char>) -> bool {
    existing.len() > 0 && candidate.len() > 0 && near_duplicates(
        normalized(existing),
        normalized(candidate),
    )
}

/// Matching goes by the normalised texts: ASCII case and punctuation make no
/// difference. A text matches itself unless it is empty, and nothing matches an
/// empty text.
pub proof fn matching_ignores_case_and_punctuation(existing: Seq<char>, candidate: Seq<char>)
    ensures
        matching_content(normalized(existing), normalized(candidate)) == matching_content(
            existing,
            candidate,
        ),
        matching_content(existing, existing) == (existing.len() > 0),
        existing.len() == 0 || candidate.len() == 0 ==> !matching_content(existing, candidate),
{
    normalizing_is_idempotent(existing);
    normalizing_is_idempotent(candidate);
    near_duplicates_reflexive(normalized(existing));
}

pub fn is_matching_memory_content(existing: &str, candidate: &str) -> (r: bool)
    ensures
        r == matching_content(existing@, candidate@),
{
    let normalized_existing = normalize_text(existing);
    let normalized_candidate = normalize_text(candidate);
    !normalized_existing.as_str().is_empty() && !normalized_candidate.as_str().is_empty()
        && are_near_duplicates(normalized_existing.as_str(), normalized_candidate.as_str())
}

/// The first fact that says nearly what `content` says.
pub fn find_matching_fact<'a>(facts: &'a [Fact], content: &str) -> (r: Option<&'a Fact>)
    ensures
        match r {
            Some(fact) => exists|i: int|
                {
                    &&& 0 <= i < facts@.len()
                    &&& #[trigger] facts@[i] == *fact
                    &&& matching_content(facts@[i].content@, content@)
                    &&& forall|k: int|
                        0 <= k < i ==> !matching_content(#[trigger] facts@[k].content@, content@)
                },
            None => forall|k: int|
                0 <= k < facts@.len() ==> !matching_content(#[trigger] facts@[k].content@, content@),
        },
{
    let n: usize = facts.len();
    for i in 0..n
        invariant
            n == facts@.len(),
            forall|k: int|
                0 <= k < i ==> !matching_content(#[trigger] facts@[k].content@, content@),
    {
        if is_matching_memory_content(facts[i].content.as_str(), content) {
            assert(facts@[i as int] == facts[i as int]);
            return Some(&facts[i]);
        }
    }
    None
}

// Facts and their match with a query

/// `fact` occurred on a date within the given ends; an end that is absent does
/// not bound.
pub open spec fn date_within(
    date: Option<CalendarDate>,
    from: Option<CalendarDate>,
    to: Option<CalendarDate>,
) -> bool {
    &&& date is Some
    &&& from is Some ==> !(date->0).earlier(from->0)
    &&& to is Some ==> !(to->0).earlier(date->0)
}

pub fn is_date_within(
    date: Option<CalendarDate>,
    from: Option<CalendarDate>,
    to: Option<CalendarDate>,
) -> (r: bool)
    ensures
        r == date_within(date, from, to),
{
    match date {
        None => false,
        Some(d) => {
            let after_start = match from {
                None => true,
                Some(f) => !d.is_earlier(f),
            };
            let before_end = match to {
                None => true,
                Some(t) => !t.is_earlier(d),
            };
            after_start && before_end
        },
    }
}

/// The date of a fact, where it has one that can be read.
pub open spec fn fact_date(fact: Fact) -> Option<CalendarDate> {
    match fact.occurred_at {
        None => None,
        Some(value) => dates::occurred_date(
            dates::rfc3339_date(value@),
            dates::date_by_format(value@, dates::FULL_DATE_FORMAT@),
        ),
    }
}

/// The date that an end of a range stands for, where it can be read.
pub open spec fn range_end(value: Option<String>, is_start: bool) -> Option<CalendarDate> {
    match value {
        None => None,
        Some(value) => dates::time_boundary(
            dates::date_by_format(value@, dates::FULL_DATE_FORMAT@),
            value@,
            is_start,
        ),
    }
}

fn read_range_end(value: &Option<String>, is_start: bool) -> (r: Option<CalendarDate>)
    ensures
        r == range_end(*value, is_start),
{
    match value {
        None => None,
        Some(v) => dates::parse_time_boundary(v.as_str(), is_start),
    }
}

pub open spec fn occurs_within(fact: Fact, range: TimeRange) -> bool {
    date_within(fact_date(fact), range_end(range.from, true), range_end(range.to, false))
}

/// The facts that occurred within the range, in order; all of them without one.
pub fn filter_facts_by_time_range(facts: &[Fact], time_range: Option<&TimeRange>) -> (r: Vec<Fact>)
    ensures
        r@ == (match time_range {
            None => facts@,
            Some(range) => facts@.filter(|fact: Fact| occurs_within(fact, *range)),
        }),
{
    let n: usize = facts.len();
    let mut out: Vec<Fact> = Vec::new();
    match time_range {
        None => {
            for i in 0..n
                invariant
                    n == facts@.len(),
                    out@ == facts@.take(i as int),
            {
                out.push(facts[i].copy());
                assert(facts@.take(i + 1) == facts@.take(i as int).push(facts@[i as int]));
            }
            assert(facts@.take(n as int) == facts@);
        },
        Some(range) => {
            let from = read_range_end(&range.from, true);
            let to = read_range_end(&range.to, false);
            let ghost keep = |fact: Fact| occurs_within(fact, *range);
            proof {
                seqs::filter_start(facts@, keep);
            }
            for i in 0..n
                invariant
                    n == facts@.len(),
                    keep == (|fact: Fact| occurs_within(fact, *range)),
                    from == range_end(range.from, true),
                    to == range_end(range.to, false),
                    out@ == facts@.take(i as int).filter(keep),
            {
                proof {
                    seqs::filter_step(facts@, keep, i as int);
                }
                let date = match &facts[i].occurred_at {
                    None => None,
                    Some(value) => dates::parse_fact_occurred_date(value.as_str()),
                };
                if is_date_within(date, from, to) {
                    out.push(facts[i].copy());
                }
            }
            assert(facts@.take(n as int) == facts@);
        },
    }
    out
}

/// How a fact matches a query.
#[derive(Clone, Copy, Debug, PartialEq, Eq, Structural)]
pub struct FactMatch {
    /// The tokens of the query that the fact holds.
    pub overlap: usize,
    /// The tokens of the query.
    pub query_tokens: usize,
    pub contains_query: bool,
    pub fact_type_match: bool,
    /// The salience of the fact, within 0 to 100.
    pub salience: i64,
}

/// A word of the type names a token of the query.
pub open spec fn type_matches(fact_type: Seq<char>, query: Set<Seq<char>>) -> bool {
    exists|i: int|
        0 <= i < text::words(fact_type).len() && query.contains(
            text::lowered(#[trigger] text::words(fact_type)[i]),
        )
}

fn type_matches_query(fact_type: &str, query: &TokenSet) -> (r: bool)
    ensures
        r == type_matches(fact_type@, query@),
{
    let words = text::words_of(fact_type);
    let ghost all = text::words(fact_type@);
    let n: usize = words.len();
    for i in 0..n
        invariant
            n == words@.len(),
            all == text::views(words@),
            all == text::words(fact_type@),
            forall|k: int| 0 <= k < i ==> !query@.contains(text::lowered(#[trigger] all[k])),
    {
        assert(all[i as int] == words@[i as int]@);
        if query.contains(text::to_lowered(words[i].as_str()).as_str()) {
            return true;
        }
    }
    false
}

pub open spec fn clamped_salience(salience: i64) -> i64 {
    if salience < 0 {
        0
    } else if salience > 100 {
        100
    } else {
        salience
    }
}

/// How `fact` matches `query`: not at all where either normalised text is empty,
/// where the query has no token, or where there is no sign of a match.
pub open spec fn fact_match(fact: Fact, query: Seq<char>) -> Option<FactMatch> {
    let query_tokens = tokens(normalized(query));
    let overlap = query_tokens.intersect(tokens(normalized(fact.content@))).len();
    let contains_query = text::contains(normalized(fact.content@), normalized(query));
    let fact_type_match = type_matches(fact.fact_type@, query_tokens);
    if query.len() == 0 || query_tokens == Set::<Seq<char>>::empty() || fact.content@.len() == 0 {
        None
    } else if overlap == 0 && !contains_query && !fact_type_match {
        None
    } else {
        Some(
            FactMatch {
                overlap: overlap as usize,
                query_tokens: query_tokens.len() as usize,
                contains_query,
                fact_type_match,
                salience: clamped_salience(fact.salience),
            },
        )
    }
}

pub fn match_fact(fact: &Fact, query: &str) -> (r: Option<FactMatch>)
    ensures
        r == fact_match(*fact, query@),
        r matches Some(m) ==> {
            &&& m.overlap == tokens(normalized(query@)).intersect(
                tokens(normalized(fact.content@)),
            ).len()
            &&& m.query_tokens == tokens(normalized(query@)).len()
            &&& m.overlap <= m.query_tokens
            &&& m.query_tokens > 0
        },
{
    let normalized_query = normalize_text(query);
    if normalized_query.as_str().is_empty() {
        return None;
    }
    let query_tokens = tokenize(normalized_query.as_str());
    if query_tokens.is_empty() {
        return None;
    }
    let normalized_content = normalize_text(fact.content.as_str());
    if normalized_content.as_str().is_empty() {
        return None;
    }
    let content_tokens = tokenize(normalized_content.as_str());
    let overlap: usize = query_tokens.common_count(&content_tokens);
    let total: usize = query_tokens.len();
    let contains_query = text::text_contains(
        normalized_content.as_str(),
        normalized_query.as_str(),
    );
    let fact_type_match = type_matches_query(fact.fact_type.as_str(), &query_tokens);
    if overlap == 0 && !contains_query && !fact_type_match {
        return None;
    }
    let salience: i64 = if fact.salience < 0 {
        0
    } else if fact.salience > 100 {
        100
    } else {
        fact.salience
    };
    proof {
        vstd::set_lib::lemma_len_intersect(query_tokens@, content_tokens@);
        if total == 0 {
            assert(query_tokens@ =~= Set::<Seq<char>>::empty());
        }
    }
    Some(
        FactMatch { overlap, query_tokens: total, contains_query, fact_type_match, salience },
    )
}

/// The weight of a kind of memory, in hundredths.
pub open spec fn weight_percent(kind: MemorySourceKind, bias: MemoryRoutingBias) -> u32 {
    match (bias, kind) {
        (MemoryRoutingBias::Neutral, MemorySourceKind::Fact) => 125,
        (MemoryRoutingBias::Neutral, MemorySourceKind::LongTerm) => 110,
        (MemoryRoutingBias::Neutral, MemorySourceKind::Session) => 85,
        (MemoryRoutingBias::LongTerm, MemorySourceKind::Fact) => 135,
        (MemoryRoutingBias::LongTerm, MemorySourceKind::LongTerm) => 120,
        (MemoryRoutingBias::LongTerm, MemorySourceKind::Daily) => 95,
        (MemoryRoutingBias::LongTerm, MemorySourceKind::Session) => 75,
        (MemoryRoutingBias::ShortTerm, MemorySourceKind::Fact) => 95,
        (MemoryRoutingBias::ShortTerm, MemorySourceKind::LongTerm) => 90,
        (MemoryRoutingBias::ShortTerm, MemorySourceKind::Daily) => 118,
        (MemoryRoutingBias::ShortTerm, MemorySourceKind::Session) => 105,
        _ => 100,
    }
}

pub fn source_weight_percent(kind: MemorySourceKind, bias: MemoryRoutingBias) -> (r: u32)
    ensures
        r == weight_percent(kind, bias),
{
    match (bias, kind) {
        (MemoryRoutingBias::Neutral, MemorySourceKind::Fact) => 125,
        (MemoryRoutingBias::Neutral, MemorySourceKind::LongTerm) => 110,
        (MemoryRoutingBias::Neutral, MemorySourceKind::Session) => 85,
        (MemoryRoutingBias::LongTerm, MemorySourceKind::Fact) => 135,
        (MemoryRoutingBias::LongTerm, MemorySourceKind::LongTerm) => 120,
        (MemoryRoutingBias::LongTerm, MemorySourceKind::Daily) => 95,
        (MemoryRoutingBias::LongTerm, MemorySourceKind::Session) => 75,
        (MemoryRoutingBias::ShortTerm, MemorySourceKind::Fact) => 95,
        (MemoryRoutingBias::ShortTerm, MemorySourceKind::LongTerm) => 90,
        (MemoryRoutingBias::ShortTerm, MemorySourceKind::Daily) => 118,
        (MemoryRoutingBias::ShortTerm, MemorySourceKind::Session) => 105,
        _ => 100,
    }
}

/// A bias raises the kinds of memory that it is for: durable kinds weigh more
/// under a long-term bias than under a short-term one, recent kinds less.
pub proof fn bias_favours_its_kinds(kind: MemorySourceKind)
    ensures
        kind == MemorySourceKind::Fact || kind == MemorySourceKind::LongTerm ==> weight_percent(
            kind,
            MemoryRoutingBias::ShortTerm,
        ) < weight_percent(kind, MemoryRoutingBias::Neutral) < weight_percent(
            kind,
            MemoryRoutingBias::LongTerm,
        ),
        kind == MemorySourceKind::Daily || kind == MemorySourceKind::Session ==> weight_percent(
            kind,
            MemoryRoutingBias::LongTerm,
        ) < weight_percent(kind, MemoryRoutingBias::Neutral) < weight_percent(
            kind,
            MemoryRoutingBias::ShortTerm,
        ),
        kind == MemorySourceKind::Other ==> forall|bias: MemoryRoutingBias|
            #[trigger] weight_percent(kind, bias) == 100,
{
}

/// The side that a hit speaks for when the routing bias is inferred.
#[derive(Clone, Copy, Debug, PartialEq, Eq, Structural)]
pub enum RoutingSignal {
    LongTerm,
    ShortTerm,
    Silent,
}

pub open spec fn kind_signal(kind: MemorySourceKind) -> RoutingSignal {
    match kind {
        MemorySourceKind::Fact => RoutingSignal::LongTerm,
        MemorySourceKind::LongTerm => RoutingSignal::LongTerm,
        MemorySourceKind::Daily => RoutingSignal::ShortTerm,
        MemorySourceKind::Session => RoutingSignal::ShortTerm,
        MemorySourceKind::Other => RoutingSignal::Silent,
    }
}

/// The number of leading hits from which the routing bias is inferred.
pub const ROUTING_SIGNAL_HITS: usize = 6;

pub open spec fn signal_count(hits: Seq<MemoryHit>) -> int {
    if hits.len() < ROUTING_SIGNAL_HITS {
        hits.len() as int
    } else {
        ROUTING_SIGNAL_HITS as int
    }
}

/// The signals of the leading hits, in the order of their ranks.
pub fn routing_signals(hits: &[MemoryHit]) -> (r: Vec<RoutingSignal>)
    ensures
        r@ == Seq::new(signal_count(hits@) as nat, |i: int| kind_signal(hits@[i].kind())),
{
    let n: usize = if hits.len() < ROUTING_SIGNAL_HITS {
        hits.len()
    } else {
        ROUTING_SIGNAL_HITS
    };
    let mut out: Vec<RoutingSignal> = Vec::new();
    for i in 0..n
        invariant
            n == signal_count(hits@),
            out@ == Seq::new(i as nat, |k: int| kind_signal(hits@[k].kind())),
    {
        let signal = match hits[i].source_kind() {
            MemorySourceKind::Fact => RoutingSignal::LongTerm,
            MemorySourceKind::LongTerm => RoutingSignal::LongTerm,
            MemorySourceKind::Daily => RoutingSignal::ShortTerm,
            MemorySourceKind::Session => RoutingSignal::ShortTerm,
            MemorySourceKind::Other => RoutingSignal::Silent,
        };
        out.push(signal);
        assert(out@ == Seq::new((i + 1) as nat, |k: int| kind_signal(hits@[k].kind())));
    }
    out
}

// Ranking

/// Hits by falling score; hits of equal score in their own order.
pub open spec fn ranked(hits: Seq<MemoryHit>) -> Seq<MemoryHit> {
    seqs::stable_order(rank_keys(hits)).map_values(|i: int| hits[i])
}

pub open spec fn rank_keys(hits: Seq<MemoryHit>) -> Seq<int> {
    hits.map_values(|hit: MemoryHit| i64::MAX - hit.order())
}

pub fn rank_hits(hits: &[MemoryHit]) -> (r: Vec<MemoryHit>)
    ensures
        r@ == ranked(hits@),
{
    let n: usize = hits.len();
    let mut keys: Vec<u128> = Vec::new();
    for i in 0..n
        invariant
            n == hits@.len(),
            keys@.len() == i,
            forall|k: int| 0 <= k < i ==> #[trigger] keys@[k] == i64::MAX - hits@[k].order(),
    {
        let distance: i128 = 0x7fff_ffff_ffff_ffff - hits[i].score().order as i128;
        keys.push(distance as u128);
    }
    assert(seqs::as_ints(keys@) == rank_keys(hits@));
    let order = seqs::order_by_key(keys.as_slice());
    let ghost p = seqs::stable_order(rank_keys(hits@));
    proof {
        seqs::stable_order_sorts(rank_keys(hits@));
    }
    let mut out: Vec<MemoryHit> = Vec::new();
    for i in 0..n
        invariant
            n == hits@.len(),
            n == order@.len(),
            p == seqs::positions(order@),
            seqs::stable_by_key(p, rank_keys(hits@)),
            out@ == p.take(i as int).map_values(|k: int| hits@[k]),
    {
        assert(p[i as int] == order@[i as int]);
        out.push(hits[order[i]].copy());
        assert(out@ == p.take(i + 1).map_values(|k: int| hits@[k]));
    }
    assert(p.take(n as int) == p);
    out
}

/// Ranking puts no hit before a better one, and adds and drops none.
pub proof fn ranking_orders_by_score(hits: Seq<MemoryHit>)
    ensures
        ranked(hits).len() == hits.len(),
        forall|i: int, j: int|
            0 <= i < j < hits.len() ==> #[trigger] ranked(hits)[i].order() >= #[trigger] ranked(
                hits,
            )[j].order(),
        forall|k: int| 0 <= k < hits.len() ==> ranked(hits).contains(#[trigger] hits[k]),
        forall|i: int| 0 <= i < hits.len() ==> hits.contains(#[trigger] ranked(hits)[i]),
{
    let keys = rank_keys(hits);
    seqs::stable_order_sorts(keys);
    seqs::stable_order_is_permutation(keys);
    let p = seqs::stable_order(keys);
    assert forall|k: int| 0 <= k < hits.len() implies ranked(hits).contains(#[trigger] hits[k]) by {
        assert(p.contains(k));
        let i = choose|i: int| 0 <= i < p.len() && p[i] == k;
        assert(ranked(hits)[i] == hits[k]);
    }
    assert forall|i: int, j: int| 0 <= i < j < hits.len() implies #[trigger] ranked(hits)[i].order()
        >= #[trigger] ranked(hits)[j].order() by {
        assert(keys[p[i]] < keys[p[j]] || (keys[p[i]] == keys[p[j]] && p[i] < p[j]));
    }
    assert forall|i: int| 0 <= i < hits.len() implies hits.contains(#[trigger] ranked(hits)[i]) by {
        assert(hits[p[i]] == ranked(hits)[i]);
    }
}

/// Chunks with other scores.
pub open spec fn rescored_chunks(chunks: Seq<SearchResult>, scores: Seq<Score>) -> Seq<SearchResult> {
    Seq::new(chunks.len(), |i: int| SearchResult { score: scores[i], ..chunks[i] })
}

pub open spec fn chunk_keys(chunks: Seq<SearchResult>) -> Seq<int> {
    chunks.map_values(|chunk: SearchResult| i64::MAX - chunk.score.order)
}

/// Chunks by falling score; chunks of equal score in their own order.
pub open spec fn ranked_chunks(chunks: Seq<SearchResult>) -> Seq<SearchResult> {
    seqs::stable_order(chunk_keys(chunks)).map_values(|i: int| chunks[i])
}

/// The chunks by falling score, where `weighted` gives the score of each after
/// the weight of its source.
pub fn rerank_chunks_by_source(results: &[SearchResult], weighted: &[Score]) -> (r: Vec<
    SearchResult,
>)
    requires
        results@.len() == weighted@.len(),
    ensures
        r@ == ranked_chunks(rescored_chunks(results@, weighted@)),
{
    let n: usize = results.len();
    let ghost all = rescored_chunks(results@, weighted@);
    let mut keys: Vec<u128> = Vec::new();
    for i in 0..n
        invariant
            n == results@.len(),
            n == weighted@.len(),
            keys@.len() == i,
            forall|k: int| 0 <= k < i ==> #[trigger] keys@[k] == i64::MAX - weighted@[k].order,
    {
        let distance: i128 = 0x7fff_ffff_ffff_ffff - weighted[i].order as i128;
        keys.push(distance as u128);
    }
    assert(seqs::as_ints(keys@) =~= chunk_keys(all));
    let order = seqs::order_by_key(keys.as_slice());
    let ghost p = seqs::stable_order(chunk_keys(all));
    proof {
        seqs::stable_order_sorts(chunk_keys(all));
    }
    let mut out: Vec<SearchResult> = Vec::new();
    for i in 0..n
        invariant
            n == results@.len(),
            n == weighted@.len(),
            n == order@.len(),
            all == rescored_chunks(results@, weighted@),
            p == seqs::positions(order@),
            seqs::stable_by_key(p, chunk_keys(all)),
            out@ == p.take(i as int).map_values(|k: int| all[k]),
    {
        assert(p[i as int] == order@[i as int]);
        let at: usize = order[i];
        let mut chunk = results[at].copy();
        chunk.score = weighted[at].copy();
        assert(chunk == all[at as int]);
        out.push(chunk);
        assert(out@ == p.take(i + 1).map_values(|k: int| all[k]));
    }
    assert(p.take(n as int) == p);
    out
}

/// A hit with another score.
pub open spec fn rescored(hit: MemoryHit, score: Score) -> MemoryHit {
    match hit {
        MemoryHit::Fact(hit) => MemoryHit::Fact(
            Box::new(MemoryFactHit { fact: hit.fact, score }),
        ),
        MemoryHit::Chunk(hit) => MemoryHit::Chunk(Box::new(SearchResult { score, ..*hit })),
    }
}

pub open spec fn rescored_hits(hits: Seq<MemoryHit>, scores: Seq<Score>) -> Seq<MemoryHit> {
    Seq::new(hits.len(), |i: int| rescored(hits[i], scores[i]))
}

fn rescore_hits(hits: &[MemoryHit], scores: &[Score]) -> (r: Vec<MemoryHit>)
    requires
        hits@.len() == scores@.len(),
    ensures
        r@ == rescored_hits(hits@, scores@),
{
    let mut out: Vec<MemoryHit> = Vec::new();
    let n: usize = hits.len();
    let ghost all = rescored_hits(hits@, scores@);
    for i in 0..n
        invariant
            n == hits@.len(),
            n == scores@.len(),
            all == rescored_hits(hits@, scores@),
            out@ == all.take(i as int),
    {
        let score = scores[i].copy();
        let hit = match &hits[i] {
            MemoryHit::Fact(hit) => {
                let fact = MemoryFactHit { fact: hit.fact.copy(), score };
                MemoryHit::Fact(Box::new(fact))
            },
            MemoryHit::Chunk(hit) => {
                let mut chunk = hit.copy();
                chunk.score = score;
                MemoryHit::Chunk(Box::new(chunk))
            },
        };
        assert(hit == all[i as int]);
        out.push(hit);
        assert(all.take(i + 1) == all.take(i as int).push(all[i as int]));
    }
    assert(all.take(n as int) == all);
    out
}

// Duplicates

/// The canonical identifiers that `entries` gives for `id`.
pub open spec fn lookup(entries: Seq<CanonicalEntry>, id: Seq<char>) -> Option<Seq<Seq<char>>>
    decreases entries.len(),
{
    if entries.len() == 0 {
        None
    } else if entries[0].id@ == id {
        Some(text::views(entries[0].canonical_ids@))
    } else {
        lookup(entries.drop_first(), id)
    }
}

/// No identifier has two entries.
pub open spec fn keyed_once(entries: Seq<CanonicalEntry>) -> bool {
    forall|i: int, j: int|
        0 <= i < j < entries.len() ==> (#[trigger] entries[i]).id@ != (#[trigger] entries[j]).id@
}

/// What is found for an identifier goes by its first entry alone; where no
/// identifier has two entries, every entry is found by its identifier.
pub proof fn lookup_goes_by_the_first_entry(entries: Seq<CanonicalEntry>, id: Seq<char>)
    ensures
        lookup(entries, id) is None <==> forall|i: int|
            0 <= i < entries.len() ==> (#[trigger] entries[i]).id@ != id,
        forall|i: int|
            0 <= i < entries.len() && (#[trigger] entries[i]).id@ == id && (forall|k: int|
                0 <= k < i ==> (#[trigger] entries[k]).id@ != id) ==> lookup(entries, id) == Some(
                text::views(entries[i].canonical_ids@),
            ),
        keyed_once(entries) ==> forall|i: int|
            0 <= i < entries.len() && (#[trigger] entries[i]).id@ == id ==> lookup(entries, id)
                == Some(text::views(entries[i].canonical_ids@)),
    decreases entries.len(),
{
    if entries.len() > 0 {
        let rest = entries.drop_first();
        lookup_goes_by_the_first_entry(rest, id);
        assert forall|i: int| 0 < i < entries.len() implies #[trigger] entries[i]
            == rest[i - 1] by {}
        assert forall|i: int| 0 <= i < rest.len() implies #[trigger] rest[i] == entries[i + 1] by {}
        if entries[0].id@ != id {
            assert forall|i: int|
                0 <= i < entries.len() && (#[trigger] entries[i]).id@ == id && (forall|k: int|
                    0 <= k < i ==> (#[trigger] entries[k]).id@ != id) implies lookup(entries, id)
                == Some(text::views(entries[i].canonical_ids@)) by {
                assert(entries[i] == rest[i - 1]);
                assert forall|k: int| 0 <= k < i - 1 implies (#[trigger] rest[k]).id@ != id by {
                    assert(rest[k] == entries[k + 1]);
                }
            }
            if lookup(entries, id) is None {
                assert forall|i: int| 0 <= i < entries.len() implies (#[trigger] entries[i]).id@
                    != id by {
                    if i > 0 {
                        assert(entries[i] == rest[i - 1]);
                    }
                }
            } else {
                let k = choose|k: int| 0 <= k < rest.len() && (#[trigger] rest[k]).id@ == id;
                assert(entries[k + 1].id@ == id);
            }
        }
        if keyed_once(entries) {
            assert forall|i: int| 0 <= i < entries.len() && (#[trigger] entries[i]).id@
                == id implies lookup(entries, id) == Some(
                text::views(entries[i].canonical_ids@),
            ) by {
                assert forall|k: int| 0 <= k < i implies (#[trigger] entries[k]).id@ != id by {
                    assert(entries[k].id@ != entries[i].id@);
                }
            }
        }
    }
}

/// Some entry lists `canonical`.
pub open spec fn listed(entries: Seq<CanonicalEntry>, canonical: Seq<char>) -> bool {
    exists|i: int|
        0 <= i < entries.len() && text::views(#[trigger] entries[i].canonical_ids@).contains(
            canonical,
        )
}

/// Some element of `ids` is listed by an entry.
pub open spec fn any_listed(ids: Seq<Seq<char>>, entries: Seq<CanonicalEntry>) -> bool {
    exists|k: int| 0 <= k < ids.len() && listed(entries, #[trigger] ids[k])
}

fn find_entry<'a>(entries: &'a [CanonicalEntry], id: &str) -> (r: Option<&'a Vec<String>>)
    ensures
        match r {
            Some(ids) => lookup(entries@, id@) == Some(text::views(ids@)),
            None => lookup(entries@, id@) is None,
        },
{
    let n: usize = entries.len();
    assert(entries@.skip(0) == entries@);
    for i in 0..n
        invariant
            n == entries@.len(),
            lookup(entries@, id@) == lookup(entries@.skip(i as int), id@),
    {
        if text::same_text(entries[i].id.as_str(), id) {
            return Some(&entries[i].canonical_ids);
        }
        assert(entries@.skip(i as int).drop_first() == entries@.skip(i + 1));
    }
    None
}

fn is_listed(entries: &[CanonicalEntry], canonical: &str) -> (r: bool)
    ensures
        r == listed(entries@, canonical@),
{
    let n: usize = entries.len();
    for i in 0..n
        invariant
            n == entries@.len(),
            forall|k: int|
                0 <= k < i ==> !text::views(#[trigger] entries@[k].canonical_ids@).contains(
                    canonical@,
                ),
    {
        match token_set::position_of(entries[i].canonical_ids.as_slice(), canonical) {
            Some(at) => {
                assert(text::views(entries@[i as int].canonical_ids@)[at as int] == canonical@);
                return true;
            },
            None => {},
        }
    }
    false
}

fn is_any_listed(ids: &[String], entries: &[CanonicalEntry]) -> (r: bool)
    ensures
        r == any_listed(text::views(ids@), entries@),
{
    let n: usize = ids.len();
    let ghost all = text::views(ids@);
    for i in 0..n
        invariant
            n == ids@.len(),
            all == text::views(ids@),
            forall|k: int| 0 <= k < i ==> !listed(entries@, #[trigger] all[k]),
    {
        assert(all[i as int] == ids@[i as int]@);
        if is_listed(entries, ids[i].as_str()) {
            return true;
        }
    }
    false
}

/// What lineage knows of the hits of one search: the canonical identifiers of
/// facts and of chunks, and for a canonical identifier those that replace it.
#[derive(Clone, Debug)]
pub struct Lineage {
    pub fact_canonical_ids: Vec<CanonicalEntry>,
    pub chunk_canonical_ids: Vec<CanonicalEntry>,
    pub superseding_canonical_ids: Vec<CanonicalEntry>,
}

impl Lineage {
    /// Each identifier has one entry at most.
    pub open spec fn wf(self) -> bool {
        &&& keyed_once(self.fact_canonical_ids@)
        &&& keyed_once(self.chunk_canonical_ids@)
        &&& keyed_once(self.superseding_canonical_ids@)
    }
}

/// A chunk with an entry has the canonical identifiers of that entry, wherever
/// the entry stands.
pub proof fn chunk_has_its_entry(hit: SearchResult, lineage: Lineage, i: int)
    requires
        lineage.wf(),
        0 <= i < lineage.chunk_canonical_ids@.len(),
        lineage.chunk_canonical_ids@[i].id@ == hit.chunk_id@,
    ensures
        hit_canonicals(MemoryHit::Chunk(Box::new(hit)), lineage) == Some(
            text::views(lineage.chunk_canonical_ids@[i].canonical_ids@),
        ),
{
    lookup_goes_by_the_first_entry(lineage.chunk_canonical_ids@, hit.chunk_id@);
}

/// The canonical identifiers of a hit, where it is a chunk that has an entry.
pub open spec fn hit_canonicals(hit: MemoryHit, lineage: Lineage) -> Option<Seq<Seq<char>>> {
    match hit {
        MemoryHit::Fact(_) => None,
        MemoryHit::Chunk(chunk) => lookup(lineage.chunk_canonical_ids@, chunk.chunk_id@),
    }
}

/// A newer identifier of a chunk in this search replaces `canonical`.
pub open spec fn replaced(canonical: Seq<char>, lineage: Lineage) -> bool {
    match lookup(lineage.superseding_canonical_ids@, canonical) {
        None => false,
        Some(newer) => any_listed(newer, lineage.chunk_canonical_ids@),
    }
}

/// The hit shares a canonical identifier with a fact of this search.
pub open spec fn covered_by_fact(hit: MemoryHit, lineage: Lineage) -> bool {
    match hit_canonicals(hit, lineage) {
        None => false,
        Some(ids) => any_listed(ids, lineage.fact_canonical_ids@),
    }
}

/// Every canonical identifier of the hit is replaced by a newer one.
pub open spec fn superseded(hit: MemoryHit, lineage: Lineage) -> bool {
    match hit_canonicals(hit, lineage) {
        None => false,
        Some(ids) => ids.len() > 0 && forall|k: int|
            0 <= k < ids.len() ==> replaced(#[trigger] ids[k], lineage),
    }
}

/// Two hits have a canonical identifier in common.
pub open spec fn share_canonical(a: MemoryHit, b: MemoryHit, lineage: Lineage) -> bool {
    match (hit_canonicals(a, lineage), hit_canonicals(b, lineage)) {
        (Some(x), Some(y)) => exists|k: int| 0 <= k < y.len() && x.contains(#[trigger] y[k]),
        _ => false,
    }
}

/// `hit` tells something that no hit in `selected` tells.
pub open spec fn admitted(selected: Seq<MemoryHit>, hit: MemoryHit, lineage: Lineage) -> bool {
    &&& !covered_by_fact(hit, lineage)
    &&& !superseded(hit, lineage)
    &&& hit.body().len() > 0
    &&& forall|j: int|
        0 <= j < selected.len() ==> !share_canonical(#[trigger] selected[j], hit, lineage)
            && !near_duplicates(normalized(selected[j].body()), normalized(hit.body()))
}

/// The hits that remain when each is held against those kept before it.
pub open spec fn deduplicated(hits: Seq<MemoryHit>, lineage: Lineage) -> Seq<MemoryHit>
    decreases hits.len(),
{
    if hits.len() == 0 {
        Seq::empty()
    } else {
        let before = deduplicated(hits.drop_last(), lineage);
        if admitted(before, hits.last(), lineage) {
            before.push(hits.last())
        } else {
            before
        }
    }
}

fn shares_canonical_with(
    ids: &Vec<String>,
    other: &MemoryHit,
    lineage: &Lineage,
) -> (r: bool)
    ensures
        r == (match hit_canonicals(*other, *lineage) {
            None => false,
            Some(x) => exists|k: int|
                0 <= k < ids@.len() && x.contains(#[trigger] text::views(ids@)[k]),
        }),
{
    let found = match other.chunk_id() {
        None => None,
        Some(id) => find_entry(lineage.chunk_canonical_ids.as_slice(), id),
    };
    match found {
        None => false,
        Some(theirs) => {
            let n: usize = ids.len();
            let ghost mine = text::views(ids@);
            for i in 0..n
                invariant
                    n == ids@.len(),
                    mine == text::views(ids@),
                    hit_canonicals(*other, *lineage) == Some(text::views(theirs@)),
                    forall|k: int|
                        0 <= k < i ==> !text::views(theirs@).contains(#[trigger] mine[k]),
            {
                assert(mine[i as int] == ids@[i as int]@);
                match token_set::position_of(theirs.as_slice(), ids[i].as_str()) {
                    Some(at) => {
                        assert(text::views(theirs@)[at as int] == mine[i as int]);
                        return true;
                    },
                    None => {},
                }
            }
            false
        },
    }
}

fn all_replaced(ids: &Vec<String>, lineage: &Lineage) -> (r: bool)
    ensures
        r == forall|k: int|
            0 <= k < ids@.len() ==> replaced(#[trigger] text::views(ids@)[k], *lineage),
{
    let n: usize = ids.len();
    let ghost all = text::views(ids@);
    for i in 0..n
        invariant
            n == ids@.len(),
            all == text::views(ids@),
            forall|k: int| 0 <= k < i ==> replaced(#[trigger] all[k], *lineage),
    {
        assert(all[i as int] == ids@[i as int]@);
        let newer = find_entry(lineage.superseding_canonical_ids.as_slice(), ids[i].as_str());
        let gone = match newer {
            None => false,
            Some(newer_ids) => is_any_listed(
                newer_ids.as_slice(),
                lineage.chunk_canonical_ids.as_slice(),
            ),
        };
        if !gone {
            assert(!replaced(all[i as int], *lineage));
            return false;
        }
    }
    true
}

fn is_admitted(selected: &Vec<MemoryHit>, hit: &MemoryHit, lineage: &Lineage) -> (r: bool)
    ensures
        r == admitted(selected@, *hit, *lineage),
{
    let canonicals = match hit.chunk_id() {
        None => None,
        Some(id) => find_entry(lineage.chunk_canonical_ids.as_slice(), id),
    };
    match canonicals {
        None => {},
        Some(ids) => {
            assert(hit_canonicals(*hit, *lineage) == Some(text::views(ids@)));
            if is_any_listed(ids.as_slice(), lineage.fact_canonical_ids.as_slice()) {
                return false;
            }
            if ids.len() > 0 && all_replaced(ids, lineage) {
                return false;
            }
        },
    }
    if hit.content().is_empty() {
        return false;
    }
    let candidate = normalize_text(hit.content());
    let n: usize = selected.len();
    for j in 0..n
        invariant
            n == selected@.len(),
            candidate@ == normalized(hit.body()),
            match canonicals {
                None => hit_canonicals(*hit, *lineage) is None,
                Some(ids) => hit_canonicals(*hit, *lineage) == Some(text::views(ids@)),
            },
            forall|k: int|
                0 <= k < j ==> !share_canonical(#[trigger] selected@[k], *hit, *lineage)
                    && !near_duplicates(normalized(selected@[k].body()), normalized(hit.body())),
    {
        match canonicals {
            None => {},
            Some(ids) => {
                if shares_canonical_with(ids, &selected[j], lineage) {
                    assert(share_canonical(selected@[j as int], *hit, *lineage));
                    return false;
                }
            },
        }
        assert(!share_canonical(selected@[j as int], *hit, *lineage));
        let existing = normalize_text(selected[j].content());
        if are_near_duplicates(existing.as_str(), candidate.as_str()) {
            return false;
        }
    }
    true
}

pub fn dedup_memory_hits_with_chunk_canonicals_and_supersedes(
    hits: Vec<MemoryHit>,
    lineage: &Lineage,
) -> (r: Vec<MemoryHit>)
    ensures
        r@ == deduplicated(hits@, *lineage),
{
    let mut selected: Vec<MemoryHit> = Vec::new();
    let n: usize = hits.len();
    for i in 0..n
        invariant
            n == hits@.len(),
            selected@ == deduplicated(hits@.take(i as int), *lineage),
    {
        assert(hits@.take(i + 1).drop_last() == hits@.take(i as int));
        if is_admitted(&selected, &hits[i], lineage) {
            selected.push(hits[i].copy());
        }
    }
    assert(hits@.take(n as int) == hits@);
    selected
}

pub open spec fn no_lineage(lineage: Lineage) -> bool {
    &&& lineage.fact_canonical_ids@.len() == 0
    &&& lineage.chunk_canonical_ids@.len() == 0
    &&& lineage.superseding_canonical_ids@.len() == 0
}

pub fn dedup_memory_hits_with_chunk_canonicals(
    hits: Vec<MemoryHit>,
    chunk_canonical_ids: Vec<CanonicalEntry>,
) -> (r: Vec<MemoryHit>)
    ensures
        exists|lineage: Lineage|
            {
                &&& lineage.fact_canonical_ids@.len() == 0
                &&& lineage.chunk_canonical_ids@ == chunk_canonical_ids@
                &&& lineage.superseding_canonical_ids@.len() == 0
                &&& r@ == #[trigger] deduplicated(hits@, lineage)
            },
{
    let lineage = Lineage {
        fact_canonical_ids: Vec::new(),
        chunk_canonical_ids,
        superseding_canonical_ids: Vec::new(),
    };
    dedup_memory_hits_with_chunk_canonicals_and_supersedes(hits, &lineage)
}

pub fn dedup_memory_hits(hits: Vec<MemoryHit>) -> (r: Vec<MemoryHit>)
    ensures
        exists|lineage: Lineage|
            no_lineage(lineage) && r@ == #[trigger] deduplicated(hits@, lineage),
{
    let lineage = Lineage {
        fact_canonical_ids: Vec::new(),
        chunk_canonical_ids: Vec::new(),
        superseding_canonical_ids: Vec::new(),
    };
    let r = dedup_memory_hits_with_chunk_canonicals_and_supersedes(hits, &lineage);
    assert(no_lineage(lineage));
    r
}

/// Every hit that is kept was given, is neither covered by a fact nor
/// superseded, and tells something that the hits kept before it do not.
pub proof fn deduplicated_hits_are_distinct(hits: Seq<MemoryHit>, lineage: Lineage)
    ensures
        deduplicated(hits, lineage).len() <= hits.len(),
        forall|j: int|
            0 <= j < deduplicated(hits, lineage).len() ==> {
                &&& hits.contains(#[trigger] deduplicated(hits, lineage)[j])
                &&& admitted(
                    deduplicated(hits, lineage).take(j),
                    deduplicated(hits, lineage)[j],
                    lineage,
                )
            },
    decreases hits.len(),
{
    if hits.len() > 0 {
        let less = hits.drop_last();
        deduplicated_hits_are_distinct(less, lineage);
        let before = deduplicated(less, lineage);
        let all = deduplicated(hits, lineage);
        assert forall|j: int| 0 <= j < all.len() implies {
            &&& hits.contains(#[trigger] all[j])
            &&& admitted(all.take(j), all[j], lineage)
        } by {
            if j < before.len() {
                assert(all[j] == before[j]);
                assert(all.take(j) == before.take(j));
                let k = choose|k: int| 0 <= k < less.len() && less[k] == before[j];
                assert(hits[k] == all[j]);
            } else {
                assert(all.take(j) == before);
                assert(hits[hits.len() - 1] == all[j]);
            }
        }
    }
}

/// Removing duplicates a second time removes nothing.
pub proof fn deduplication_is_idempotent(hits: Seq<MemoryHit>, lineage: Lineage)
    ensures
        deduplicated(deduplicated(hits, lineage), lineage) == deduplicated(hits, lineage),
    decreases hits.len(),
{
    if hits.len() > 0 {
        deduplication_is_idempotent(hits.drop_last(), lineage);
        let before = deduplicated(hits.drop_last(), lineage);
        if admitted(before, hits.last(), lineage) {
            assert(before.push(hits.last()).drop_last() == before);
        }
    }
}

/// The hits of a search: by falling score, without duplicates.
pub open spec fn search_order(hits: Seq<MemoryHit>, lineage: Lineage) -> Seq<MemoryHit> {
    deduplicated(ranked(hits), lineage)
}

/// The scores of the hits fall from one to the next.
pub open spec fn falls_in_score(hits: Seq<MemoryHit>) -> bool {
    forall|i: int, j: int|
        0 <= i < j < hits.len() ==> (#[trigger] hits[i]).order() >= (#[trigger] hits[j]).order()
}

proof fn deduplication_keeps_the_fall(hits: Seq<MemoryHit>, lineage: Lineage)
    requires
        falls_in_score(hits),
    ensures
        falls_in_score(deduplicated(hits, lineage)),
    decreases hits.len(),
{
    if hits.len() > 0 {
        let less = hits.drop_last();
        assert forall|i: int, j: int| 0 <= i < j < less.len() implies (
        #[trigger] less[i]).order() >= (#[trigger] less[j]).order() by {
            assert(less[i] == hits[i] && less[j] == hits[j]);
        }
        deduplication_keeps_the_fall(less, lineage);
        deduplicated_hits_are_distinct(less, lineage);
        let before = deduplicated(less, lineage);
        let all = deduplicated(hits, lineage);
        assert forall|i: int, j: int| 0 <= i < j < all.len() implies (#[trigger] all[i]).order()
            >= (#[trigger] all[j]).order() by {
            assert(all[i] == before[i]);
            if j < before.len() {
                assert(all[j] == before[j]);
            } else {
                let k = choose|k: int| 0 <= k < less.len() && less[k] == before[i];
                assert(hits[k] == all[i]);
                assert(hits[hits.len() - 1] == all[j]);
            }
        }
    }
}

/// The results of a search fall in score, however many of them are returned, and
/// each of them is a hit that was found.
pub proof fn search_results_fall_in_score(hits: Seq<MemoryHit>, lineage: Lineage, target: nat)
    ensures
        falls_in_score(seqs::at_most(search_order(hits, lineage), target)),
        forall|i: int|
            0 <= i < search_order(hits, lineage).len() ==> hits.contains(
                #[trigger] search_order(hits, lineage)[i],
            ),
{
    ranking_orders_by_score(hits);
    deduplication_keeps_the_fall(ranked(hits), lineage);
    deduplicated_hits_are_distinct(ranked(hits), lineage);
    let all = search_order(hits, lineage);
    let some = seqs::at_most(all, target);
    assert forall|i: int, j: int| 0 <= i < j < some.len() implies (#[trigger] some[i]).order() >= (
    #[trigger] some[j]).order() by {
        assert(some[i] == all[i] && some[j] == all[j]);
    }
    assert forall|i: int| 0 <= i < all.len() implies hits.contains(#[trigger] all[i]) by {
        let k = choose|k: int| 0 <= k < ranked(hits).len() && ranked(hits)[k] == all[i];
        assert(hits.contains(ranked(hits)[k]));
    }
}

pub fn rank_and_dedup(hits: &[MemoryHit], lineage: &Lineage) -> (r: Vec<MemoryHit>)
    ensures
        r@ == search_order(hits@, *lineage),
{
    dedup_memory_hits_with_chunk_canonicals_and_supersedes(rank_hits(hits), lineage)
}

pub const DEFAULT_MAX_RESULTS: usize = 6;

/// How many hits a search returns: the number asked for, or the default for 0.
pub fn result_limit(max_results: usize) -> (r: usize)
    ensures
        r == (if max_results == 0 {
            DEFAULT_MAX_RESULTS
        } else {
            max_results
        }),
{
    if max_results == 0 {
        DEFAULT_MAX_RESULTS
    } else {
        max_results
    }
}

/// How many chunks are fetched for a search: three for each hit returned.
pub fn fetch_limit(target: usize) -> (r: usize)
    ensures
        r == (if 3 * target > usize::MAX {
            usize::MAX as int
        } else {
            3 * target
        }),
{
    match target.checked_mul(3) {
        Some(n) => n,
        None => usize::MAX,
    }
}

/// The identifiers of the facts among `hits`, in order.
pub open spec fn fact_ids(hits: Seq<MemoryHit>) -> Seq<Seq<char>>
    decreases hits.len(),
{
    if hits.len() == 0 {
        Seq::empty()
    } else {
        match hits.last() {
            MemoryHit::Fact(hit) => fact_ids(hits.drop_last()).push(hit.fact.id@),
            MemoryHit::Chunk(_) => fact_ids(hits.drop_last()),
        }
    }
}

pub fn fact_ids_of(hits: &[MemoryHit]) -> (r: Vec<String>)
    ensures
        text::views(r@) == fact_ids(hits@),
{
    let mut out: Vec<String> = Vec::new();
    let n: usize = hits.len();
    assert(text::views(out@) == fact_ids(hits@.take(0)));
    for i in 0..n
        invariant
            n == hits@.len(),
            text::views(out@) == fact_ids(hits@.take(i as int)),
    {
        assert(hits@.take(i + 1).drop_last() == hits@.take(i as int));
        match &hits[i] {
            MemoryHit::Fact(hit) => {
                proof {
                    text::views_push(out@, hit.fact.id);
                }
                out.push(hit.fact.id.clone());
            },
            MemoryHit::Chunk(_) => {},
        }
    }
    assert(hits@.take(n as int) == hits@);
    out
}

/// The identifiers of the chunks among `hits`, in order.
pub open spec fn chunk_ids(hits: Seq<MemoryHit>) -> Seq<Seq<char>>
    decreases hits.len(),
{
    if hits.len() == 0 {
        Seq::empty()
    } else {
        match hits.last() {
            MemoryHit::Chunk(hit) => chunk_ids(hits.drop_last()).push(hit.chunk_id@),
            MemoryHit::Fact(_) => chunk_ids(hits.drop_last()),
        }
    }
}

pub fn chunk_ids_of(hits: &[MemoryHit]) -> (r: Vec<String>)
    ensures
        text::views(r@) == chunk_ids(hits@),
{
    let mut out: Vec<String> = Vec::new();
    let n: usize = hits.len();
    assert(text::views(out@) == chunk_ids(hits@.take(0)));
    for i in 0..n
        invariant
            n == hits@.len(),
            text::views(out@) == chunk_ids(hits@.take(i as int)),
    {
        assert(hits@.take(i + 1).drop_last() == hits@.take(i as int));
        match &hits[i] {
            MemoryHit::Chunk(hit) => {
                proof {
                    text::views_push(out@, hit.chunk_id);
                }
                out.push(hit.chunk_id.clone());
            },
            MemoryHit::Fact(_) => {},
        }
    }
    assert(hits@.take(n as int) == hits@);
    out
}

/// The canonical identifiers of the chunks of a search, each once.
pub fn canonical_ids_of(entries: &[CanonicalEntry]) -> (r: TokenSet)
    ensures
        forall|id: Seq<char>| #[trigger] r@.contains(id) == listed(entries@, id),
{
    let mut out = TokenSet::new();
    let n: usize = entries.len();
    for i in 0..n
        invariant
            n == entries@.len(),
            forall|id: Seq<char>| #[trigger]
                out@.contains(id) == exists|k: int|
                    0 <= k < i && text::views(#[trigger] entries@[k].canonical_ids@).contains(id),
    {
        let ids = &entries[i].canonical_ids;
        let m: usize = ids.len();
        let ghost start = out@;
        let ghost mine = text::views(ids@);
        for j in 0..m
            invariant
                i < n,
                n == entries@.len(),
                m == ids@.len(),
                *ids == entries@[i as int].canonical_ids,
                mine == text::views(ids@),
                forall|id: Seq<char>| #[trigger]
                    out@.contains(id) == (start.contains(id) || mine.take(j as int).contains(id)),
        {
            assert(mine.take(j + 1) == mine.take(j as int).push(mine[j as int]));
            out = out.with(ids[j].clone());
            assert forall|id: Seq<char>| #[trigger]
                out@.contains(id) == (start.contains(id) || mine.take(j + 1).contains(id)) by {
                if mine.take(j as int).contains(id) {
                    let k = choose|k: int|
                        0 <= k < mine.take(j as int).len() && mine.take(j as int)[k] == id;
                    assert(mine.take(j + 1)[k] == id);
                }
                assert(mine.take(j + 1)[j as int] == mine[j as int]);
            }
        }
        assert(mine.take(m as int) == mine);
        assert forall|id: Seq<char>| #[trigger]
            out@.contains(id) == exists|k: int|
                0 <= k < i + 1 && text::views(#[trigger] entries@[k].canonical_ids@).contains(
                    id,
                ) by {
            if mine.contains(id) {
                assert(text::views(entries@[i as int].canonical_ids@).contains(id));
            }
        }
    }
    out
}

/// What a search returns: the leading hits, and the facts among them.
pub fn finish_search(hits: Vec<MemoryHit>, target: usize) -> (r: (Vec<MemoryHit>, Vec<String>))
    ensures
        r.0@ == seqs::at_most(hits@, target as nat),
        text::views(r.1@) == fact_ids(seqs::at_most(hits@, target as nat)),
{
    let mut kept = hits;
    kept.truncate(target);
    assert(kept@ == seqs::at_most(hits@, target as nat));
    let ids = fact_ids_of(kept.as_slice());
    (kept, ids)
}

/// Completes a search whose hits stand in order, where `biased` gives their
/// scores after the bias, if there is one: the results, and the facts among them.
pub fn settle_search(
    ordered: Vec<MemoryHit>,
    lineage: &Lineage,
    biased: Option<&[Score]>,
    target: usize,
) -> (r: (Vec<MemoryHit>, Vec<String>))
    requires
        biased matches Some(scores) ==> scores@.len() == ordered@.len(),
    ensures
        r.0@ == seqs::at_most(
            match biased {
                Some(scores) => search_order(rescored_hits(ordered@, scores@), *lineage),
                None => ordered@,
            },
            target as nat,
        ),
        text::views(r.1@) == fact_ids(r.0@),
{
    match biased {
        None => finish_search(ordered, target),
        Some(scores) => {
            let again = rescore_hits(ordered.as_slice(), scores);
            finish_search(rank_and_dedup(again.as_slice(), lineage), target)
        },
    }
}

// Chunks beside facts

/// Some fact says nearly what the chunk says.
pub open spec fn told_by_fact(chunk: SearchResult, facts: Seq<Fact>) -> bool {
    exists|i: int|
        0 <= i < facts.len() && #[trigger] facts[i].content@.len() > 0 && near_duplicates(
            normalized(facts[i].content@),
            normalized(chunk.text@),
        )
}

/// The chunks that no fact tells already, in order.
pub fn filter_duplicate_chunks_against_facts(
    chunks: Vec<SearchResult>,
    facts: &[Fact],
) -> (r: Vec<SearchResult>)
    ensures
        r@ == chunks@.filter(|chunk: SearchResult| !told_by_fact(chunk, facts@)),
{
    let mut out: Vec<SearchResult> = Vec::new();
    let n: usize = chunks.len();
    let ghost keep = |chunk: SearchResult| !told_by_fact(chunk, facts@);
    proof {
        seqs::filter_start(chunks@, keep);
    }
    for i in 0..n
        invariant
            n == chunks@.len(),
            keep == (|chunk: SearchResult| !told_by_fact(chunk, facts@)),
            out@ == chunks@.take(i as int).filter(keep),
    {
        proof {
            seqs::filter_step(chunks@, keep, i as int);
        }
        if !is_told_by_fact(&chunks[i], facts) {
            out.push(chunks[i].copy());
        }
    }
    assert(chunks@.take(n as int) == chunks@);
    out
}

fn is_told_by_fact(chunk: &SearchResult, facts: &[Fact]) -> (r: bool)
    ensures
        r == told_by_fact(*chunk, facts@),
{
    let normalized_chunk = normalize_text(chunk.text.as_str());
    let n: usize = facts.len();
    for i in 0..n
        invariant
            n == facts@.len(),
            normalized_chunk@ == normalized(chunk.text@),
            forall|k: int|
                0 <= k < i && #[trigger] facts@[k].content@.len() > 0 ==> !near_duplicates(
                    normalized(facts@[k].content@),
                    normalized(chunk.text@),
                ),
    {
        let fact = normalize_text(facts[i].content.as_str());
        if !fact.as_str().is_empty() && are_near_duplicates(
            fact.as_str(),
            normalized_chunk.as_str(),
        ) {
            assert(facts@[i as int].content@.len() > 0);
            return true;
        }
    }
    false
}

// What is matched, and what is kept

/// The tokens of a text are its words of more than one byte, its characters that
/// are matched singly, and their neighbouring pairs; nothing else is a token.
pub proof fn what_the_tokens_are(s: Seq<char>, i: int, t: Seq<char>)
    requires
        0 <= i < s.len(),
    ensures
        text::words(s).contains(t) && text::utf8_len(t) > 1 ==> tokens(s).contains(t),
        cjk(s[i]) ==> tokens(s).contains(seq![s[i]]),
        cjk(s[i]) && i + 1 < s.len() && cjk(s[i + 1]) ==> tokens(s).contains(
            seq![s[i], s[i + 1]],
        ),
        tokens(s).contains(t) ==> text::words(s).contains(t) && text::utf8_len(t) > 1 || t.len()
            == 1 && cjk(t[0]) && s.contains(t[0]) || t.len() == 2 && cjk(t[0]) && cjk(t[1])
            && s.contains(t[0]) && s.contains(t[1]),
{
    let keep = |c: char| cjk(c);
    let long = |w: Seq<char>| text::utf8_len(w) > 1;
    let words = text::words(s);
    let chars = cjk_chars(s);
    let ones = unigrams(chars);
    let twos = bigrams(chars);
    if words.contains(t) && text::utf8_len(t) > 1 {
        let k = choose|k: int| 0 <= k < words.len() && words[k] == t;
        seqs::filter_holds(words, long, k);
        assert(long_words(s).to_set().contains(t));
    }
    if cjk(s[i]) {
        seqs::filter_holds(s, keep, i);
        let k = choose|k: int| 0 <= k < chars.len() && chars[k] == s[i];
        assert(ones[k] == seq![s[i]]);
        assert(ones.to_set().contains(seq![s[i]]));
    }
    if cjk(s[i]) && i + 1 < s.len() && cjk(s[i + 1]) {
        let k = neighbours_stay(s, i);
        assert(twos[k] =~= seq![s[i], s[i + 1]]);
        assert(twos.to_set().contains(seq![s[i], s[i + 1]]));
    }
    if tokens(s).contains(t) {
        if long_words(s).to_set().contains(t) {
            let all = long_words(s);
            let k = choose|k: int| 0 <= k < all.len() && all[k] == t;
            seqs::filter_sound(words, long, k);
        } else if ones.to_set().contains(t) {
            let k = choose|k: int| 0 <= k < ones.len() && ones[k] == t;
            seqs::filter_sound(s, keep, k);
        } else {
            let k = choose|k: int| 0 <= k < twos.len() && twos[k] == t;
            seqs::filter_sound(s, keep, k);
            seqs::filter_sound(s, keep, k + 1);
        }
    }
}

proof fn neighbours_stay(s: Seq<char>, i: int) -> (k: int)
    requires
        0 <= i < s.len() - 1,
        cjk(s[i]),
        cjk(s[i + 1]),
    ensures
        0 <= k < cjk_chars(s).len() - 1,
        cjk_chars(s)[k] == s[i],
        cjk_chars(s)[k + 1] == s[i + 1],
    decreases s.len(),
{
    let keep = |c: char| cjk(c);
    reveal(Seq::filter);
    let less = s.drop_last();
    if i + 1 < less.len() {
        let k = neighbours_stay(less, i);
        assert(cjk_chars(s)[k] == cjk_chars(less)[k]);
        assert(cjk_chars(s)[k + 1] == cjk_chars(less)[k + 1]);
        k
    } else {
        let least = less.drop_last();
        assert(less.last() == s[i]);
        assert(s.last() == s[i + 1]);
        assert(less.filter(keep) == least.filter(keep).push(s[i]));
        assert(s.filter(keep) == less.filter(keep).push(s[i + 1]));
        least.filter(keep).len() as int
    }
}

/// Texts say nearly the same where one of at least 24 bytes holds the other, or
/// where the second has every token of the first; and texts of which neither holds
/// the other and which share no token do not.
pub proof fn what_nearly_the_same_means(a: Seq<char>, b: Seq<char>, c: Seq<char>)
    ensures
        text::utf8_len(a + b + c) >= 24 ==> near_duplicates(a + b + c, b),
        text::utf8_len(b) >= 24 ==> near_duplicates(b, a + b + c),
        tokens(a) != Set::<Seq<char>>::empty() && tokens(a).subset_of(tokens(b))
            ==> near_duplicates(a, b),
        !text::contains(a, b) && !text::contains(b, a) && tokens(a).disjoint(tokens(b))
            ==> !near_duplicates(a, b),
        text::utf8_len(a) < 24 && a != b && tokens(a).disjoint(tokens(b)) ==> !near_duplicates(
            a,
            b,
        ),
{
    text::middle_occurs(a, b, c);
    let both = tokens(a).intersect(tokens(b));
    if tokens(a) != Set::<Seq<char>>::empty() && tokens(a).subset_of(tokens(b)) {
        assert(both =~= tokens(a));
        let t = choose|t: Seq<char>| tokens(a).contains(t);
        if !(exists|t: Seq<char>| tokens(a).contains(t)) {
            assert(tokens(a) =~= Set::<Seq<char>>::empty());
        }
        assert(tokens(b).contains(t));
    }
    if tokens(a).disjoint(tokens(b)) {
        assert(both =~= Set::<Seq<char>>::empty());
        tokens_are_finite(a);
        if tokens(a).len() == 0 {
            assert(tokens(a) =~= Set::<Seq<char>>::empty());
        }
        if a == b && !text::contains(a, b) {
            let none = Seq::<char>::empty();
            text::middle_occurs(none, a, none);
            assert(none + a + none =~= a);
        }
    }
}

proof fn tokens_are_finite(s: Seq<char>)
    ensures
        tokens(s).finite(),
{
    vstd::seq_lib::seq_to_set_is_finite(long_words(s));
    vstd::seq_lib::seq_to_set_is_finite(unigrams(cjk_chars(s)));
    vstd::seq_lib::seq_to_set_is_finite(bigrams(cjk_chars(s)));
}

/// A range takes in its ends and what lies between them, and nothing else; what
/// has no date lies in no range.
pub proof fn ranges_take_in_their_ends(d: CalendarDate, from: CalendarDate, to: CalendarDate)
    ensures
        !date_within(None, Some(from), Some(to)) && !date_within(None, None, None),
        date_within(Some(d), None, None),
        date_within(Some(d), Some(d), Some(d)),
        date_within(Some(d), Some(from), None) <==> !d.earlier(from),
        date_within(Some(d), None, Some(to)) <==> !to.earlier(d),
        date_within(Some(d), Some(from), Some(to)) <==> date_within(Some(d), Some(from), None)
            && date_within(Some(d), None, Some(to)),
{
}

/// A fact that holds a query that has tokens is found, with all tokens of the
/// query; and a fact is found only where it shares a token with the query, holds
/// it, or is of a type that the query names.
pub proof fn facts_that_hold_the_query_are_found(fact: Fact, query: Seq<char>)
    ensures
        fact.content@ == query && tokens(normalized(query)) != Set::<Seq<char>>::empty() ==> {
            let found = fact_match(fact, query);
            found is Some && (found->0).contains_query && (found->0).overlap == (
            found->0).query_tokens
        },
        query.len() > 0 && fact.content@.len() > 0 && tokens(normalized(query)) != Set::<
            Seq<char>,
        >::empty() && text::contains(normalized(fact.content@), normalized(query)) ==> fact_match(
            fact,
            query,
        ) is Some && (fact_match(fact, query)->0).contains_query,
        fact_match(fact, query) matches Some(found) ==> {
            ||| !tokens(normalized(query)).disjoint(tokens(normalized(fact.content@)))
            ||| text::contains(normalized(fact.content@), normalized(query))
            ||| exists|i: int|
                0 <= i < text::words(fact.fact_type@).len() && tokens(normalized(query)).contains(
                    text::lowered(#[trigger] text::words(fact.fact_type@)[i]),
                )
        },
        fact_match(fact, query) matches Some(found) ==> {
            &&& 0 <= found.salience <= 100
            &&& 0 <= fact.salience <= 100 ==> found.salience == fact.salience
            &&& fact.salience > 100 ==> found.salience == 100
            &&& fact.salience < 0 ==> found.salience == 0
        },
{
    let q = tokens(normalized(query));
    let f = tokens(normalized(fact.content@));
    if fact.content@ == query && q != Set::<Seq<char>>::empty() {
        assert(q.intersect(f) =~= q);
        let none = Seq::<char>::empty();
        text::middle_occurs(none, normalized(query), none);
        assert(none + normalized(query) + none =~= normalized(query));
        if query.len() == 0 {
            empty_has_no_token(normalized(query));
        }
    }
    if q.disjoint(f) {
        assert(q.intersect(f) =~= Set::<Seq<char>>::empty());
    }
}

proof fn empty_has_no_token(s: Seq<char>)
    requires
        s.len() == 0,
    ensures
        tokens(s) == Set::<Seq<char>>::empty(),
{
    reveal(Seq::filter);
    let pieces = text::split(s, text::Separator::Whitespace);
    assert(pieces =~= seq![Seq::<char>::empty()]);
    assert(pieces.drop_last() =~= Seq::<Seq<char>>::empty());
    let none = Seq::<Seq<char>>::empty();
    assert(pieces == none.push(Seq::<char>::empty()));
    assert(text::nonempty(none) =~= none);
    assert(text::words(s) =~= none);
    assert(long_words(s) =~= Seq::<Seq<char>>::empty());
    assert(cjk_chars(s) =~= Seq::<char>::empty());
    assert(tokens(s) =~= Set::<Seq<char>>::empty());
}

/// The more tokens of the query a fact has, the larger the overlap: it is at most
/// the number of the query's tokens, and that only where none is missing.
pub proof fn overlap_counts_shared_tokens(fact: Fact, query: Seq<char>)
    requires
        tokens(normalized(query)).len() <= usize::MAX,
    ensures
        fact_match(fact, query) matches Some(found) ==> {
            &&& found.overlap <= found.query_tokens
            &&& found.query_tokens == tokens(normalized(query)).len()
            &&& found.overlap == found.query_tokens <==> tokens(normalized(query)).subset_of(
                tokens(normalized(fact.content@)),
            )
        },
{
    let q = tokens(normalized(query));
    let f = tokens(normalized(fact.content@));
    let both = q.intersect(f);
    tokens_are_finite(normalized(query));
    vstd::set_lib::lemma_len_subset(both, q);
    if both.len() == q.len() {
        vstd::set_lib::lemma_subset_equality(both, q);
        assert forall|t: Seq<char>| q.contains(t) implies f.contains(t) by {
            assert(both.contains(t));
        }
    }
    if q.subset_of(f) {
        assert(both =~= q);
    }
}

/// Under every bias facts weigh more than long-term memories and daily notes more
/// than sessions; durable kinds weigh more than recent ones unless the bias is
/// for the recent.
pub proof fn kinds_weigh_in_order(bias: MemoryRoutingBias)
    ensures
        weight_percent(MemorySourceKind::Fact, bias) > weight_percent(
            MemorySourceKind::LongTerm,
            bias,
        ),
        weight_percent(MemorySourceKind::Daily, bias) > weight_percent(
            MemorySourceKind::Session,
            bias,
        ),
        bias != MemoryRoutingBias::ShortTerm ==> weight_percent(MemorySourceKind::LongTerm, bias)
            > 100 >= weight_percent(MemorySourceKind::Daily, bias),
        bias == MemoryRoutingBias::ShortTerm ==> weight_percent(MemorySourceKind::Session, bias)
            > 100 > weight_percent(MemorySourceKind::Fact, bias),
{
}

/// Hits of equal score stay in the order in which they were found.
pub proof fn ranking_is_stable(hits: Seq<MemoryHit>)
    ensures
        exists|p: Seq<int>| #[trigger]
            p.len() == hits.len() && p.no_duplicates() && (forall|k: int|
                0 <= k < p.len() ==> 0 <= #[trigger] p[k] < hits.len() && ranked(hits)[k]
                    == hits[p[k]]) && (forall|k: int, l: int|
                0 <= k < l < p.len() && hits[#[trigger] p[k]].order()
                    == hits[#[trigger] p[l]].order() ==> p[k] < p[l]),
{
    let keys = rank_keys(hits);
    let p = seqs::stable_order(keys);
    seqs::stable_order_sorts(keys);
    seqs::stable_order_is_permutation(keys);
    assert forall|k: int| 0 <= k < p.len() implies 0 <= #[trigger] p[k] < hits.len()
        && ranked(hits)[k] == hits[p[k]] by {}
    assert forall|k: int, l: int|
        0 <= k < l < p.len() && hits[#[trigger] p[k]].order()
            == hits[#[trigger] p[l]].order() implies p[k] < p[l] by {
        assert(keys[p[k]] == keys[p[l]]);
    }
    assert(p.len() == hits.len());
}

/// A hit is dropped only where it says nothing, is covered by a fact, is
/// superseded, or where a hit that is kept tells of the same thing or says nearly
/// the same.
pub proof fn dropped_hits_are_told_otherwise(hits: Seq<MemoryHit>, lineage: Lineage, i: int)
    requires
        0 <= i < hits.len(),
    ensures
        deduplicated(hits, lineage).contains(hits[i]) || hits[i].body().len() == 0
            || covered_by_fact(hits[i], lineage) || superseded(hits[i], lineage) || exists|j: int|
            0 <= j < deduplicated(hits, lineage).len() && (share_canonical(
                #[trigger] deduplicated(hits, lineage)[j],
                hits[i],
                lineage,
            ) || near_duplicates(
                normalized(deduplicated(hits, lineage)[j].body()),
                normalized(hits[i].body()),
            )),
    decreases hits.len(),
{
    let less = hits.drop_last();
    let before = deduplicated(less, lineage);
    let all = deduplicated(hits, lineage);
    if i < less.len() {
        assert(less[i] == hits[i]);
        dropped_hits_are_told_otherwise(less, lineage, i);
        if before.contains(hits[i]) {
            let k = choose|k: int| 0 <= k < before.len() && before[k] == hits[i];
            assert(all[k] == before[k]);
        } else if hits[i].body().len() > 0 && !covered_by_fact(hits[i], lineage) && !superseded(
            hits[i],
            lineage,
        ) {
            let j = choose|j: int|
                0 <= j < before.len() && (share_canonical(
                    #[trigger] before[j],
                    hits[i],
                    lineage,
                ) || near_duplicates(normalized(before[j].body()), normalized(hits[i].body())));
            assert(all[j] == before[j]);
        }
    } else if admitted(before, hits.last(), lineage) {
        assert(all[before.len() as int] == hits[i]);
    } else if hits[i].body().len() > 0 && !covered_by_fact(hits[i], lineage) && !superseded(
        hits[i],
        lineage,
    ) {
        let j = choose|j: int|
            0 <= j < before.len() && !(!share_canonical(#[trigger] before[j], hits.last(), lineage)
                && !near_duplicates(
                normalized(before[j].body()),
                normalized(hits.last().body()),
            ));
        assert(all[j] == before[j]);
    }
}

/// No two hits that are kept say nearly the same, and none says nothing.
pub proof fn kept_hits_say_different_things(
    hits: Seq<MemoryHit>,
    lineage: Lineage,
    i: int,
    j: int,
)
    requires
        0 <= i < j < deduplicated(hits, lineage).len(),
    ensures
        !near_duplicates(
            normalized(deduplicated(hits, lineage)[i].body()),
            normalized(deduplicated(hits, lineage)[j].body()),
        ),
        normalized(deduplicated(hits, lineage)[i].body()) != normalized(
            deduplicated(hits, lineage)[j].body(),
        ),
        deduplicated(hits, lineage)[j].body().len() > 0,
{
    deduplicated_hits_are_distinct(hits, lineage);
    let all = deduplicated(hits, lineage);
    assert(admitted(all.take(j), all[j], lineage));
    assert(all.take(j)[i] == all[i]);
}

/// A chunk of which a fact of the search tells is not kept: one of its canonical
/// identifiers stands with a fact.
pub proof fn chunks_that_facts_cover_are_dropped(
    hits: Seq<MemoryHit>,
    lineage: Lineage,
    chunk: SearchResult,
    entry: int,
    fact: int,
    canonical: Seq<char>,
)
    requires
        lineage.wf(),
        0 <= entry < lineage.chunk_canonical_ids@.len(),
        lineage.chunk_canonical_ids@[entry].id@ == chunk.chunk_id@,
        text::views(lineage.chunk_canonical_ids@[entry].canonical_ids@).contains(canonical),
        0 <= fact < lineage.fact_canonical_ids@.len(),
        text::views(lineage.fact_canonical_ids@[fact].canonical_ids@).contains(canonical),
    ensures
        !deduplicated(hits, lineage).contains(MemoryHit::Chunk(Box::new(chunk))),
{
    let hit = MemoryHit::Chunk(Box::new(chunk));
    chunk_has_its_entry(chunk, lineage, entry);
    let ids = text::views(lineage.chunk_canonical_ids@[entry].canonical_ids@);
    let k = choose|k: int| 0 <= k < ids.len() && ids[k] == canonical;
    assert(listed(lineage.fact_canonical_ids@, ids[k]));
    assert(covered_by_fact(hit, lineage));
    deduplicated_hits_are_distinct(hits, lineage);
}

/// A chunk is dropped for a newer one only where each of its canonical identifiers
/// is replaced by one that a chunk of the search has; a fact never is.
pub proof fn chunks_are_superseded_whole(
    lineage: Lineage,
    chunk: SearchResult,
    fact: MemoryFactHit,
    entry: int,
    k: int,
)
    requires
        lineage.wf(),
        0 <= entry < lineage.chunk_canonical_ids@.len(),
        lineage.chunk_canonical_ids@[entry].id@ == chunk.chunk_id@,
        0 <= k < lineage.chunk_canonical_ids@[entry].canonical_ids@.len(),
    ensures
        !superseded(MemoryHit::Fact(Box::new(fact)), lineage),
        !covered_by_fact(MemoryHit::Fact(Box::new(fact)), lineage),
        (forall|i: int|
            0 <= i < lineage.superseding_canonical_ids@.len() ==> (
            #[trigger] lineage.superseding_canonical_ids@[i]).id@
                != lineage.chunk_canonical_ids@[entry].canonical_ids@[k]@) ==> !superseded(
            MemoryHit::Chunk(Box::new(chunk)),
            lineage,
        ),
{
    chunk_has_its_entry(chunk, lineage, entry);
    let ids = text::views(lineage.chunk_canonical_ids@[entry].canonical_ids@);
    assert(ids[k] == lineage.chunk_canonical_ids@[entry].canonical_ids@[k]@);
    lookup_goes_by_the_first_entry(lineage.superseding_canonical_ids@, ids[k]);
}

/// The identifiers of two lots of hits stand one behind the other; each hit has
/// one, among those of the facts or among those of the chunks.
pub proof fn every_hit_is_identified(a: Seq<MemoryHit>, b: Seq<MemoryHit>)
    ensures
        fact_ids(a + b) == fact_ids(a) + fact_ids(b),
        chunk_ids(a + b) == chunk_ids(a) + chunk_ids(b),
        a.len() == 1 ==> match a[0] {
            MemoryHit::Fact(hit) => fact_ids(a) == seq![hit.fact.id@] && chunk_ids(a).len() == 0,
            MemoryHit::Chunk(hit) => chunk_ids(a) == seq![hit.chunk_id@] && fact_ids(a).len() == 0,
        },
    decreases b.len(),
{
    if b.len() == 0 {
        assert(a + b =~= a);
        assert(fact_ids(a) + fact_ids(b) =~= fact_ids(a));
        assert(chunk_ids(a) + chunk_ids(b) =~= chunk_ids(a));
    } else {
        every_hit_is_identified(a, b.drop_last());
        assert((a + b).drop_last() =~= a + b.drop_last());
        assert((a + b).last() == b.last());
        assert(fact_ids(a + b) =~= fact_ids(a) + fact_ids(b));
        assert(chunk_ids(a + b) =~= chunk_ids(a) + chunk_ids(b));
    }
    if a.len() == 1 {
        assert(a.drop_last() =~= Seq::<MemoryHit>::empty());
        assert(fact_ids(a.drop_last()) == Seq::<Seq<char>>::empty());
        assert(chunk_ids(a.drop_last()) == Seq::<Seq<char>>::empty());
    }
}

/// Other scores change nothing else of a hit.
pub proof fn scores_change_nothing_else(hits: Seq<MemoryHit>, scores: Seq<Score>, i: int)
    requires
        hits.len() == scores.len(),
        0 <= i < hits.len(),
    ensures
        rescored_hits(hits, scores).len() == hits.len(),
        rescored_hits(hits, scores)[i].order() == scores[i].order,
        rescored_hits(hits, scores)[i].body() == hits[i].body(),
        fact_ids(rescored_hits(hits, scores)) == fact_ids(hits),
        chunk_ids(rescored_hits(hits, scores)) == chunk_ids(hits),
{
    scores_keep_identifiers(hits, scores);
}

proof fn scores_keep_identifiers(hits: Seq<MemoryHit>, scores: Seq<Score>)
    requires
        hits.len() == scores.len(),
    ensures
        fact_ids(rescored_hits(hits, scores)) == fact_ids(hits),
        chunk_ids(rescored_hits(hits, scores)) == chunk_ids(hits),
    decreases hits.len(),
{
    if hits.len() > 0 {
        scores_keep_identifiers(hits.drop_last(), scores.drop_last());
        assert(rescored_hits(hits, scores).drop_last() =~= rescored_hits(
            hits.drop_last(),
            scores.drop_last(),
        ));
    }
}

/// A chunk that says what a fact says is told by it, however it is written; where
/// there are no facts nothing is.
pub proof fn facts_tell_what_they_say(chunk: SearchResult, facts: Seq<Fact>, i: int)
    ensures
        facts.len() == 0 ==> !told_by_fact(chunk, facts),
        0 <= i < facts.len() && chunk.text@.len() > 0 && normalized(facts[i].content@)
            == normalized(chunk.text@) ==> told_by_fact(chunk, facts),
{
    if 0 <= i < facts.len() && chunk.text@.len() > 0 && normalized(facts[i].content@) == normalized(
        chunk.text@,
    ) {
        assert(normalized(facts[i].content@).len() == facts[i].content@.len());
        assert(normalized(chunk.text@).len() == chunk.text@.len());
        assert(facts[i].content@.len() > 0);
    }
}

/// The name of a source goes before the path, and a path without such a name
/// goes by its directory.
pub proof fn sources_go_before_paths(source: Seq<char>, path: Seq<char>, other: Seq<char>)
    ensures
        source == "long_term"@ || source == "daily"@ || source == "session"@ ==> chunk_kind(
            source,
            path,
        ) == chunk_kind(source, other),
        source != "long_term"@ && source != "daily"@ && source != "session"@ ==> {
            &&& chunk_kind(source, "MEMORY.md"@) == MemorySourceKind::LongTerm
            &&& chunk_kind(source, "memory/"@ + path) == MemorySourceKind::Daily
            &&& chunk_kind(source, "sessions/"@ + path) == MemorySourceKind::Session
            &&& chunk_kind(source, path) == MemorySourceKind::Other <==> path != "MEMORY.md"@
                && !text::starts_with(path, "memory/"@) && !text::starts_with(path, "sessions/"@)
        },
        chunk_kind(source, path) != MemorySourceKind::Fact,
{
    reveal_strlit("MEMORY.md");
    reveal_strlit("memory/");
    reveal_strlit("sessions/");
    let day = "memory/"@ + path;
    let session = "sessions/"@ + path;
    assert(day.take(7) =~= "memory/"@);
    assert(session.take(9) =~= "sessions/"@);
    assert(day[0] == 'm');
    assert(session[0] == 's');
    assert("MEMORY.md"@[0] == 'M');
    if text::starts_with(session, "memory/"@) {
        assert(session.take(7)[0] == session[0]);
    }
}

/// Normalising keeps letters, numbers and white space, puts ASCII letters into
/// lower case, and puts a blank in place of anything else.
pub proof fn normalizing_keeps_letters(s: Seq<char>, i: int)
    requires
        0 <= i < s.len(),
    ensures
        'a' <= s[i] <= 'z' || '0' <= s[i] <= '9' || s[i] == ' ' || s[i] == '\n' ==> normalized(s)[i]
            == s[i],
        'A' <= s[i] <= 'Z' ==> normalized(s)[i] as u32 == s[i] as u32 + 32,
        s[i] as u32 > 0x7f && text::alphanumeric(s[i]) ==> normalized(s)[i] == s[i],
        !text::alphanumeric(s[i]) && !text::whitespace(s[i]) ==> normalized(s)[i] == ' ',
{
}

/// Ideographs, kana, hangul and the marks that stand between them are matched one
/// by one; nothing of ASCII is.
pub proof fn what_is_matched_singly(c: char)
    ensures
        '\u{4e00}' <= c <= '\u{9fff}' || '\u{3400}' <= c <= '\u{4dbf}' || '\u{3000}' <= c
            <= '\u{30ff}' || '\u{ac00}' <= c <= '\u{d7af}' <==> cjk(c),
        c as u32 <= 0x7f ==> !cjk(c),
{
}

/// Short texts that differ say nearly the same exactly where the second has at
/// least four of every five tokens of the first.
pub proof fn most_tokens_are_enough(a: Seq<char>, b: Seq<char>)
    requires
        a != b,
        text::utf8_len(a) < 24,
    ensures
        near_duplicates(a, b) <==> tokens(a) != Set::<Seq<char>>::empty() && tokens(b) != Set::<
            Seq<char>,
        >::empty() && 5 * tokens(a).difference(tokens(b)).len() <= tokens(a).len(),
{
    tokens_are_finite(a);
    tokens_are_finite(b);
    let both = tokens(a).intersect(tokens(b));
    let rest = tokens(a).difference(tokens(b));
    assert(both.disjoint(rest));
    vstd::set_lib::lemma_set_disjoint_lens(both, rest);
    assert(both + rest =~= tokens(a));
}

/// A fact of a type that a token of the query names is found.
pub proof fn types_that_are_named_are_found(fact: Fact, query: Seq<char>, i: int)
    requires
        query.len() > 0,
        fact.content@.len() > 0,
        0 <= i < text::words(fact.fact_type@).len(),
        tokens(normalized(query)).contains(text::lowered(text::words(fact.fact_type@)[i])),
    ensures
        fact_match(fact, query) is Some,
        (fact_match(fact, query)->0).fact_type_match,
{
    let q = tokens(normalized(query));
    assert(q != Set::<Seq<char>>::empty());
    assert(type_matches(fact.fact_type@, q));
}

/// A fact that shares a token with the query is found.
pub proof fn facts_with_a_common_token_are_found(fact: Fact, query: Seq<char>, t: Seq<char>)
    requires
        query.len() > 0,
        fact.content@.len() > 0,
        tokens(normalized(query)).contains(t),
        tokens(normalized(fact.content@)).contains(t),
    ensures
        fact_match(fact, query) is Some,
{
    let q = tokens(normalized(query));
    let both = q.intersect(tokens(normalized(fact.content@)));
    tokens_are_finite(normalized(query));
    assert(both.contains(t));
    if both.len() == 0 {
        assert(both =~= Set::<Seq<char>>::empty());
    }
}

/// Durable kinds of memory speak for the long term, recent ones for the short
/// term, and at most the six leading hits speak.
pub proof fn hits_speak_for_their_kind(kind: MemorySourceKind, hits: Seq<MemoryHit>)
    ensures
        kind_signal(kind) == RoutingSignal::LongTerm <==> kind == MemorySourceKind::Fact || kind
            == MemorySourceKind::LongTerm,
        kind_signal(kind) == RoutingSignal::ShortTerm <==> kind == MemorySourceKind::Daily || kind
            == MemorySourceKind::Session,
        hits.len() <= 6 ==> signal_count(hits) == hits.len(),
        hits.len() > 6 ==> signal_count(hits) == 6,
{
}

/// Chunks are ranked by falling score, those of equal score as they came; each
/// keeps all but its score, and none is added or dropped.
pub proof fn chunks_are_ranked_by_score(chunks: Seq<SearchResult>, scores: Seq<Score>)
    requires
        chunks.len() == scores.len(),
    ensures
        ({
            let ranked = ranked_chunks(rescored_chunks(chunks, scores));
            &&& ranked.len() == chunks.len()
            &&& forall|i: int, j: int|
                0 <= i < j < ranked.len() ==> (#[trigger] ranked[i]).score.order >= (
                #[trigger] ranked[j]).score.order
            &&& exists|p: Seq<int>| #[trigger]
                p.len() == chunks.len() && p.no_duplicates() && (forall|k: int|
                    0 <= k < p.len() ==> 0 <= #[trigger] p[k] < chunks.len() && ranked[k].score
                        == scores[p[k]] && ranked[k].chunk_id == chunks[p[k]].chunk_id
                        && ranked[k].text == chunks[p[k]].text && ranked[k].path
                        == chunks[p[k]].path && ranked[k].source == chunks[p[k]].source
                        && ranked[k].snippet == chunks[p[k]].snippet) && (forall|k: int, l: int|
                    0 <= k < l < p.len() && scores[#[trigger] p[k]].order
                        == scores[#[trigger] p[l]].order ==> p[k] < p[l])
        }),
{
    let given = rescored_chunks(chunks, scores);
    let keys = chunk_keys(given);
    let p = seqs::stable_order(keys);
    seqs::stable_order_sorts(keys);
    seqs::stable_order_is_permutation(keys);
    let ranked = ranked_chunks(given);
    assert forall|i: int, j: int| 0 <= i < j < ranked.len() implies (
    #[trigger] ranked[i]).score.order >= (#[trigger] ranked[j]).score.order by {
        assert(keys[p[i]] <= keys[p[j]]);
    }
    assert forall|k: int| 0 <= k < p.len() implies 0 <= #[trigger] p[k] < chunks.len()
        && ranked[k].score == scores[p[k]] && ranked[k].chunk_id == chunks[p[k]].chunk_id
        && ranked[k].text == chunks[p[k]].text && ranked[k].path == chunks[p[k]].path
        && ranked[k].source == chunks[p[k]].source && ranked[k].snippet == chunks[p[k]].snippet by {
        assert(ranked[k] == given[p[k]]);
    }
    assert forall|k: int, l: int|
        0 <= k < l < p.len() && scores[#[trigger] p[k]].order
            == scores[#[trigger] p[l]].order implies p[k] < p[l] by {
        assert(keys[p[k]] == keys[p[l]]);
    }
    assert(p.len() == chunks.len());
}

/// A chunk whose one canonical identifier is superseded by one that a chunk of the
/// search has is not kept.
pub proof fn superseded_chunks_are_dropped(
    hits: Seq<MemoryHit>,
    lineage: Lineage,
    chunk: SearchResult,
    entry: int,
    newer: int,
    other: int,
    canonical: Seq<char>,
)
    requires
        lineage.wf(),
        0 <= entry < lineage.chunk_canonical_ids@.len(),
        lineage.chunk_canonical_ids@[entry].id@ == chunk.chunk_id@,
        lineage.chunk_canonical_ids@[entry].canonical_ids@.len() == 1,
        0 <= newer < lineage.superseding_canonical_ids@.len(),
        lineage.superseding_canonical_ids@[newer].id@
            == lineage.chunk_canonical_ids@[entry].canonical_ids@[0]@,
        text::views(lineage.superseding_canonical_ids@[newer].canonical_ids@).contains(canonical),
        0 <= other < lineage.chunk_canonical_ids@.len(),
        text::views(lineage.chunk_canonical_ids@[other].canonical_ids@).contains(canonical),
    ensures
        !deduplicated(hits, lineage).contains(MemoryHit::Chunk(Box::new(chunk))),
{
    let hit = MemoryHit::Chunk(Box::new(chunk));
    chunk_has_its_entry(chunk, lineage, entry);
    let ids = text::views(lineage.chunk_canonical_ids@[entry].canonical_ids@);
    assert(ids[0] == lineage.chunk_canonical_ids@[entry].canonical_ids@[0]@);
    lookup_goes_by_the_first_entry(lineage.superseding_canonical_ids@, ids[0]);
    let list = text::views(lineage.superseding_canonical_ids@[newer].canonical_ids@);
    let k = choose|k: int| 0 <= k < list.len() && list[k] == canonical;
    assert(listed(lineage.chunk_canonical_ids@, list[k]));
    assert(replaced(ids[0], lineage));
    assert(superseded(hit, lineage));
    deduplicated_hits_are_distinct(hits, lineage);
}

/// No two chunks that are kept have a canonical identifier in common.
pub proof fn kept_chunks_share_nothing(
    hits: Seq<MemoryHit>,
    lineage: Lineage,
    i: int,
    j: int,
    canonical: Seq<char>,
)
    requires
        0 <= i < j < deduplicated(hits, lineage).len(),
        deduplicated(hits, lineage)[i] is Chunk,
        deduplicated(hits, lineage)[j] is Chunk,
    ensures
        ({
            let a = lookup(
                lineage.chunk_canonical_ids@,
                (*deduplicated(hits, lineage)[i]->Chunk_0).chunk_id@,
            );
            let b = lookup(
                lineage.chunk_canonical_ids@,
                (*deduplicated(hits, lineage)[j]->Chunk_0).chunk_id@,
            );
            a is Some && b is Some ==> !((a->0).contains(canonical) && (b->0).contains(canonical))
        }),
{
    let all = deduplicated(hits, lineage);
    deduplicated_hits_are_distinct(hits, lineage);
    assert(admitted(all.take(j), all[j], lineage));
    assert(all.take(j)[i] == all[i]);
    assert(!share_canonical(all[i], all[j], lineage));
    let a = hit_canonicals(all[i], lineage);
    let b = hit_canonicals(all[j], lineage);
    if a is Some && b is Some && (a->0).contains(canonical) && (b->0).contains(canonical) {
        let y = b->0;
        let k = choose|k: int| 0 <= k < y.len() && y[k] == canonical;
        assert((a->0).contains(y[k]));
    }
}

/// Without lineage only the texts count: a hit is dropped only where it says
/// nothing, or where a hit that is kept says nearly the same.
pub proof fn without_lineage_only_texts_count(hits: Seq<MemoryHit>, lineage: Lineage, i: int)
    requires
        no_lineage(lineage),
        0 <= i < hits.len(),
    ensures
        deduplicated(hits, lineage).contains(hits[i]) || hits[i].body().len() == 0 || exists|j: int|
            0 <= j < deduplicated(hits, lineage).len() && near_duplicates(
                normalized((#[trigger] deduplicated(hits, lineage)[j]).body()),
                normalized(hits[i].body()),
            ),
{
    dropped_hits_are_told_otherwise(hits, lineage, i);
    assert(hit_canonicals(hits[i], lineage) is None);
}

/// What an entry lists is listed, and what none lists is not.
pub proof fn entries_list_their_identifiers(
    entries: Seq<CanonicalEntry>,
    ids: Seq<Seq<char>>,
    i: int,
    k: int,
)
    ensures
        0 <= i < entries.len() && 0 <= k < ids.len() && text::views(
            entries[i].canonical_ids@,
        ).contains(ids[k]) ==> listed(entries, ids[k]) && any_listed(ids, entries),
        entries.len() == 0 || ids.len() == 0 ==> !any_listed(ids, entries),
        (forall|j: int|
            0 <= j < entries.len() ==> (#[trigger] entries[j]).canonical_ids@.len() == 0)
            ==> !any_listed(ids, entries),
{
    if 0 <= i < entries.len() && 0 <= k < ids.len() && text::views(
        entries[i].canonical_ids@,
    ).contains(ids[k]) {
        assert(listed(entries, ids[k]));
    }
    if (forall|j: int|
        0 <= j < entries.len() ==> (#[trigger] entries[j]).canonical_ids@.len() == 0)
        && any_listed(ids, entries) {
        let m = choose|m: int| 0 <= m < ids.len() && listed(entries, #[trigger] ids[m]);
        let j = choose|j: int|
            0 <= j < entries.len() && text::views(#[trigger] entries[j].canonical_ids@).contains(
                ids[m],
            );
        assert(entries[j].canonical_ids@.len() == 0);
    }
}

/// A fact that says nothing tells nothing.
pub proof fn silent_facts_tell_nothing(chunk: SearchResult, facts: Seq<Fact>)
    requires
        forall|i: int| 0 <= i < facts.len() ==> (#[trigger] facts[i]).content@.len() == 0,
    ensures
        !told_by_fact(chunk, facts),
{
    if told_by_fact(chunk, facts) {
        let i = choose|i: int|
            0 <= i < facts.len() && #[trigger] facts[i].content@.len() > 0 && near_duplicates(
                normalized(facts[i].content@),
                normalized(chunk.text@),
            );
        assert(facts[i].content@.len() == 0);
    }
}

} // verus!
