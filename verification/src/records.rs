//! Records that the stores hand over and take back.

use vstd::prelude::*;

verus! {

/// A retrieval score. `order` orders scores as their total order does, higher
/// for a better match; `label` is the score with two decimals.
#[derive(Clone, Debug)]
pub struct Score {
    pub order: i64,
    pub label: String,
}

/// A remembered statement.
#[derive(Clone, Debug)]
pub struct Fact {
    pub id: String,
    pub content: String,
    pub fact_type: String,
    pub occurred_at: Option<String>,
    pub salience: i64,
}

/// A stretch of indexed text that a search found.
#[derive(Clone, Debug)]
pub struct SearchResult {
    pub chunk_id: String,
    pub path: String,
    pub source: String,
    pub start_line: u64,
    pub end_line: u64,
    pub snippet: String,
    pub text: String,
    pub score: Score,
}

/// A range of dates. Each end is a full date or a month.
#[derive(Clone, Debug)]
pub struct TimeRange {
    pub from: Option<String>,
    pub to: Option<String>,
}

/// The canonical identifiers that lineage gives a source.
#[derive(Clone, Debug)]
pub struct CanonicalEntry {
    pub id: String,
    pub canonical_ids: Vec<String>,
}

pub fn copy_option(s: &Option<String>) -> (r: Option<String>)
    ensures
        r == *s,
{
    match s {
        Some(x) => Some(x.clone()),
        None => None,
    }
}

impl Score {
    pub fn copy(&self) -> (r: Self)
        ensures
            r == *self,
    {
        Score { order: self.order, label: self.label.clone() }
    }
}

impl Fact {
    pub fn copy(&self) -> (r: Self)
        ensures
            r == *self,
    {
        Fact {
            id: self.id.clone(),
            content: self.content.clone(),
            fact_type: self.fact_type.clone(),
            occurred_at: copy_option(&self.occurred_at),
            salience: self.salience,
        }
    }
}

impl SearchResult {
    pub fn copy(&self) -> (r: Self)
        ensures
            r == *self,
    {
        SearchResult {
            chunk_id: self.chunk_id.clone(),
            path: self.path.clone(),
            source: self.source.clone(),
            start_line: self.start_line,
            end_line: self.end_line,
            snippet: self.snippet.clone(),
            text: self.text.clone(),
            score: self.score.copy(),
        }
    }
}

} // verus!
