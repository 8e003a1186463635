//! Records of episodes and of the memory state of a session.

use crate::orchestrator::messages::{SessionMessage, Timestamp};
use crate::records;
use vstd::prelude::*;

verus! {

#[derive(Clone, Copy, Debug, PartialEq, Eq, Structural)]
pub enum EpisodeStatusRecord {
    Open,
    Closed,
    FlushPending,
    Flushed,
}

#[derive(Clone, Copy, Debug, PartialEq, Eq, Structural)]
pub enum EpisodeTaskStateRecord {
    Exploring,
    Executing,
    Delivered,
}

/// A stretch of a session on one topic.
#[derive(Clone, Debug)]
pub struct EpisodeStateRecord {
    pub episode_id: String,
    pub start_turn: u64,
    pub end_turn: u64,
    pub status: EpisodeStatusRecord,
    pub task_state: EpisodeTaskStateRecord,
    pub topic_sketch: String,
    pub last_activity_at: Timestamp,
}

/// A memory that was written on request during a session.
#[derive(Clone, Debug)]
pub struct RecentExplicitMemoryWrite {
    pub turn_index: u64,
    pub memory_ref: String,
    pub canonical_id: Option<String>,
    pub summary: String,
    pub recorded_at: Timestamp,
}

/// What is known of how far a session has been flushed to memory.
#[derive(Clone, Debug)]
pub struct SessionMemoryStateRecord {
    pub agent_id: String,
    pub session_id: String,
    pub session_key: String,
    pub last_flushed_turn: u64,
    pub last_boundary_flush_at: Option<Timestamp>,
    pub pending_flush: bool,
    pub flush_phase: String,
    pub flush_phase_updated_at: Option<Timestamp>,
    pub flush_summary_cache: Option<String>,
    pub recent_explicit_writes: Vec<RecentExplicitMemoryWrite>,
    pub open_episodes: Vec<EpisodeStateRecord>,
}

/// The messages of one or more turns.
#[derive(Clone, Debug)]
pub struct BoundaryFlushEpisode {
    pub start_turn: u64,
    pub end_turn: u64,
    pub messages: Vec<SessionMessage>,
}

#[derive(Clone, Debug)]
pub struct BoundaryFlushSnapshot {
    pub episodes: Vec<BoundaryFlushEpisode>,
    pub turn_count: u64,
    pub recent_explicit_writes: Vec<RecentExplicitMemoryWrite>,
}

#[derive(Clone, Copy, Debug, PartialEq, Eq, Structural)]
pub enum EpisodeBoundaryDecision {
    ContinueCurrent,
    CloseCurrentAndOpenNext,
}

#[derive(Clone, Copy, Debug, PartialEq, Eq, Structural)]
pub struct EpisodeTurnDecision {
    pub task_state: EpisodeTaskStateRecord,
    pub boundary: EpisodeBoundaryDecision,
}

/// A turn that has just ended.
#[derive(Clone, Copy, Debug)]
pub struct EpisodeTurnInput<'a> {
    pub turn_index: u64,
    pub user_text: &'a str,
    pub assistant_text: &'a str,
    pub successful_tool_calls: usize,
    pub final_stop_reason: Option<&'a str>,
}

/// What an episode's record says.
pub struct EpisodeModel {
    pub episode_id: Seq<char>,
    pub start_turn: u64,
    pub end_turn: u64,
    pub status: EpisodeStatusRecord,
    pub task_state: EpisodeTaskStateRecord,
    pub topic_sketch: Seq<char>,
    pub last_activity_at: Timestamp,
}

/// What the messages of some turns are.
pub struct TurnsModel {
    pub start_turn: u64,
    pub end_turn: u64,
    pub messages: Seq<SessionMessage>,
}

impl View for EpisodeStateRecord {
    type V = EpisodeModel;

    open spec fn view(&self) -> EpisodeModel {
        EpisodeModel {
            episode_id: self.episode_id@,
            start_turn: self.start_turn,
            end_turn: self.end_turn,
            status: self.status,
            task_state: self.task_state,
            topic_sketch: self.topic_sketch@,
            last_activity_at: self.last_activity_at,
        }
    }
}

impl View for BoundaryFlushEpisode {
    type V = TurnsModel;

    open spec fn view(&self) -> TurnsModel {
        TurnsModel {
            start_turn: self.start_turn,
            end_turn: self.end_turn,
            messages: self.messages@,
        }
    }
}

pub open spec fn episode_models(s: Seq<EpisodeStateRecord>) -> Seq<EpisodeModel> {
    Seq::new(s.len(), |i: int| s[i]@)
}

pub open spec fn turns_models(s: Seq<BoundaryFlushEpisode>) -> Seq<TurnsModel> {
    Seq::new(s.len(), |i: int| s[i]@)
}

impl EpisodeStateRecord {
    pub fn copy(&self) -> (r: Self)
        ensures
            r == *self,
    {
        EpisodeStateRecord {
            episode_id: self.episode_id.clone(),
            start_turn: self.start_turn,
            end_turn: self.end_turn,
            status: self.status,
            task_state: self.task_state,
            topic_sketch: self.topic_sketch.clone(),
            last_activity_at: self.last_activity_at,
        }
    }
}

impl RecentExplicitMemoryWrite {
    pub fn copy(&self) -> (r: Self)
        ensures
            r == *self,
    {
        RecentExplicitMemoryWrite {
            turn_index: self.turn_index,
            memory_ref: self.memory_ref.clone(),
            canonical_id: records::copy_option(&self.canonical_id),
            summary: self.summary.clone(),
            recorded_at: self.recorded_at,
        }
    }
}

pub fn copy_writes(s: &Vec<RecentExplicitMemoryWrite>) -> (r: Vec<RecentExplicitMemoryWrite>)
    ensures
        r@ == s@,
{
    let mut out: Vec<RecentExplicitMemoryWrite> = Vec::new();
    let n: usize = s.len();
    for i in 0..n
        invariant
            n == s@.len(),
            out@ == s@.take(i as int),
    {
        out.push(s[i].copy());
        assert(s@.take(i + 1) == s@.take(i as int).push(s@[i as int]));
    }
    assert(s@.take(n as int) == s@);
    out
}

pub fn copy_messages(s: &Vec<SessionMessage>) -> (r: Vec<SessionMessage>)
    ensures
        r@ == s@,
{
    let mut out: Vec<SessionMessage> = Vec::new();
    append_messages(&mut out, s);
    out
}

/// Puts the messages of `more` behind those of `out`.
pub fn append_messages(out: &mut Vec<SessionMessage>, more: &Vec<SessionMessage>)
    ensures
        final(out)@ == old(out)@ + more@,
{
    let ghost start = out@;
    let n: usize = more.len();
    assert(start + more@.take(0) == start);
    for i in 0..n
        invariant
            n == more@.len(),
            out@ == start + more@.take(i as int),
    {
        out.push(more[i].copy());
        assert(start + more@.take(i + 1) == (start + more@.take(i as int)).push(more@[i as int]));
    }
    assert(more@.take(n as int) == more@);
}

impl BoundaryFlushEpisode {
    pub fn copy(&self) -> (r: Self)
        ensures
            r@ == self@,
    {
        BoundaryFlushEpisode {
            start_turn: self.start_turn,
            end_turn: self.end_turn,
            messages: copy_messages(&self.messages),
        }
    }
}

impl SessionMemoryStateRecord {
    /// The state of a session of which nothing has been flushed.
    pub fn fresh(agent_id: &str, session_id: &str, session_key: &str) -> (r: Self)
        ensures
            r.agent_id@ == agent_id@,
            r.session_id@ == session_id@,
            r.session_key@ == session_key@,
            r.last_flushed_turn == 0,
            r.last_boundary_flush_at is None,
            !r.pending_flush,
            r.flush_phase@ == "idle"@,
            r.flush_phase_updated_at is None,
            r.flush_summary_cache is None,
            r.recent_explicit_writes@.len() == 0,
            r.open_episodes@.len() == 0,
    {
        SessionMemoryStateRecord {
            agent_id: agent_id.to_owned(),
            session_id: session_id.to_owned(),
            session_key: session_key.to_owned(),
            last_flushed_turn: 0,
            last_boundary_flush_at: None,
            pending_flush: false,
            flush_phase: "idle".to_owned(),
            flush_phase_updated_at: None,
            flush_summary_cache: None,
            recent_explicit_writes: Vec::new(),
            open_episodes: Vec::new(),
        }
    }

    /// The parts of the state that flushing does not touch.
    pub open spec fn same_session(self, other: SessionMemoryStateRecord) -> bool {
        &&& self.agent_id == other.agent_id
        &&& self.session_id == other.session_id
        &&& self.session_key == other.session_key
        &&& self.flush_phase == other.flush_phase
        &&& self.flush_phase_updated_at == other.flush_phase_updated_at
        &&& self.flush_summary_cache == other.flush_summary_cache
    }
}

} // verus!
