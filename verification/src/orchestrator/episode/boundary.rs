//! Boundaries of episodes: topics, turns, and what is flushed together.

use crate::orchestrator::episode::types;
use crate::orchestrator::episode::types::{
    BoundaryFlushEpisode, EpisodeBoundaryDecision, EpisodeStateRecord, EpisodeStatusRecord,
    EpisodeTaskStateRecord, EpisodeTurnDecision, TurnsModel,
};
use crate::orchestrator::messages::{SessionEntry, SessionMessage, Timestamp};
use crate::orchestrator::predicates;
use crate::orchestrator::predicates::EmptyPromiseVerdict;
use crate::seqs;
use crate::text;
use crate::token_set;
use crate::token_set::TokenSet;
use vstd::prelude::*;

verus! {

pub const EPISODE_FLUSH_PENDING_GRACE_SECS: i64 = 30;

pub const MAX_OPEN_EPISODE_TURNS: u64 = 4;

pub const MAX_BOUNDARY_FLUSH_TURNS_PER_BATCH: u64 = 50;

/// The turns that are flushed together at most.
pub const MAX_EPISODE_TURNS: u64 = 3;

/// The bytes of messages that are flushed together at most.
pub const MAX_EPISODE_BYTES: usize = 1600;

/// The tokens that a topic sketch names at most.
pub const SKETCH_TOKENS: usize = 8;

/// The characters of a text that stand for its topic when it has no token.
pub const SKETCH_CHARS: usize = 96;

// Topics

/// The topic tokens among pieces of a text: those of three bytes or more, with
/// ASCII letters in lower case.
pub open spec fn piece_tokens(pieces: Seq<Seq<char>>) -> Set<Seq<char>>
    decreases pieces.len(),
{
    if pieces.len() == 0 {
        Set::empty()
    } else {
        let before = piece_tokens(pieces.drop_last());
        let token = text::trim(pieces.last());
        if text::utf8_len(token) >= 3 {
            before.insert(text::lowered(token))
        } else {
            before
        }
    }
}

/// The topic tokens of a text: its runs of letters and numbers, as above.
pub open spec fn topic_tokens(s: Seq<char>) -> Set<Seq<char>> {
    piece_tokens(text::split(s, text::Separator::NonAlphanumeric))
}

pub fn boundary_flush_topic_tokens_from_text(value: &str) -> (r: TokenSet)
    ensures
        r@ == topic_tokens(value@),
{
    let pieces = text::split_chars(
        text::chars_of(value).as_slice(),
        text::Separator::NonAlphanumeric,
    );
    let ghost all = text::split(value@, text::Separator::NonAlphanumeric);
    let mut out = TokenSet::new();
    let n: usize = pieces.len();
    for i in 0..n
        invariant
            n == pieces@.len(),
            all == text::views(pieces@),
            out@ == piece_tokens(all.take(i as int)),
    {
        assert(all.take(i + 1).drop_last() == all.take(i as int));
        assert(all.take(i + 1).last() == pieces@[i as int]@);
        let token = text::trimmed(pieces[i].as_str());
        if text::byte_len(token.as_str()) >= 3 {
            out = out.with(text::to_lowered(token.as_str()));
        }
    }
    assert(all.take(n as int) == all);
    out
}

/// The topic tokens of the user's messages.
pub open spec fn message_tokens(messages: Seq<SessionMessage>) -> Set<Seq<char>>
    decreases messages.len(),
{
    if messages.len() == 0 {
        Set::empty()
    } else {
        let before = message_tokens(messages.drop_last());
        if messages.last().role@ == "user"@ {
            before.union(topic_tokens(messages.last().content@))
        } else {
            before
        }
    }
}

pub fn boundary_flush_topic_tokens(messages: &[SessionMessage]) -> (r: TokenSet)
    ensures
        r@ == message_tokens(messages@),
{
    let mut out = TokenSet::new();
    let n: usize = messages.len();
    for i in 0..n
        invariant
            n == messages@.len(),
            out@ == message_tokens(messages@.take(i as int)),
    {
        assert(messages@.take(i + 1).drop_last() == messages@.take(i as int));
        if text::same_text(messages[i].role.as_str(), "user") {
            out = out.union(&boundary_flush_topic_tokens_from_text(messages[i].content.as_str()));
        }
    }
    assert(messages@.take(n as int) == messages@);
    out
}

/// The topic tokens of two runs of messages are those of both.
pub proof fn message_tokens_of_both(a: Seq<SessionMessage>, b: Seq<SessionMessage>)
    ensures
        message_tokens(a + b) == message_tokens(a).union(message_tokens(b)),
    decreases b.len(),
{
    if b.len() == 0 {
        assert(a + b == a);
        assert(message_tokens(a).union(message_tokens(b)) =~= message_tokens(a));
    } else {
        message_tokens_of_both(a, b.drop_last());
        assert((a + b).drop_last() == a + b.drop_last());
        assert((a + b).last() == b.last());
        assert(message_tokens(a + b) =~= message_tokens(a).union(message_tokens(b)));
    }
}

/// A sketch of the topic of a text: its first tokens in order, or the start of
/// the text where it has none.
pub open spec fn topic_sketch(s: Seq<char>) -> Seq<char> {
    let tokens = token_set::in_order(topic_tokens(s));
    if tokens.len() == 0 {
        text::trim(text::take_at_most(text::trim(s), SKETCH_CHARS as nat))
    } else {
        text::joined(seqs::at_most(tokens, SKETCH_TOKENS as nat), " "@)
    }
}

pub fn build_episode_topic_sketch(value: &str) -> (r: String)
    ensures
        r@ == topic_sketch(value@),
{
    let mut tokens = boundary_flush_topic_tokens_from_text(value).sorted();
    let ghost all = text::views(tokens@);
    if tokens.len() == 0 {
        let start = text::text_take(text::trimmed(value).as_str(), SKETCH_CHARS);
        text::trimmed(start.as_str())
    } else {
        tokens.truncate(SKETCH_TOKENS);
        assert(text::views(tokens@) == seqs::at_most(all, SKETCH_TOKENS as nat));
        text::join(tokens.as_slice(), " ")
    }
}

/// Two topics are related when they share two tokens.
pub open spec fn related(a: Set<Seq<char>>, b: Set<Seq<char>>) -> bool {
    a.intersect(b).len() >= 2
}

pub fn boundary_flush_topics_are_related(current: &TokenSet, next: &TokenSet) -> (r: bool)
    ensures
        r == related(current@, next@),
{
    current.common_count(next) >= 2
}

/// Relatedness goes both ways, and nothing is related to a topic without tokens.
pub proof fn related_is_symmetric(a: Set<Seq<char>>, b: Set<Seq<char>>)
    ensures
        related(a, b) == related(b, a),
        !related(a, Set::<Seq<char>>::empty()),
{
    assert(a.intersect(b) =~= b.intersect(a));
    assert(a.intersect(Set::<Seq<char>>::empty()) =~= Set::<Seq<char>>::empty());
}

// Turns and their state

/// How far the task of a turn has come: cut short or promising more, it is being
/// executed; ended like a sentence or after tools, it is delivered; else it is
/// being explored.
pub open spec fn task_state(
    assistant: Seq<char>,
    successful_tool_calls: int,
    stop_reason: Option<Seq<char>>,
) -> EpisodeTaskStateRecord {
    if stop_reason == Some("length"@) {
        EpisodeTaskStateRecord::Executing
    } else {
        match predicates::promise_verdict(0, 0, assistant) {
            EmptyPromiseVerdict::Evident => EpisodeTaskStateRecord::Executing,
            EmptyPromiseVerdict::Inconclusive => if successful_tool_calls > 0 {
                EpisodeTaskStateRecord::Delivered
            } else {
                EpisodeTaskStateRecord::Exploring
            },
            EmptyPromiseVerdict::No => EpisodeTaskStateRecord::Delivered,
        }
    }
}

pub open spec fn reason_text(reason: Option<&str>) -> Option<Seq<char>> {
    match reason {
        Some(s) => Some(s@),
        None => None,
    }
}

pub fn infer_episode_task_state(
    assistant_text: &str,
    successful_tool_calls: usize,
    final_stop_reason: Option<&str>,
) -> (r: EpisodeTaskStateRecord)
    ensures
        r == task_state(
            assistant_text@,
            successful_tool_calls as int,
            reason_text(final_stop_reason),
        ),
{
    match final_stop_reason {
        Some(reason) => {
            if text::same_text(reason, "length") {
                return EpisodeTaskStateRecord::Executing;
            }
        },
        None => {},
    }
    match predicates::detect_empty_promise_structural(0, 0, assistant_text) {
        EmptyPromiseVerdict::Evident => EpisodeTaskStateRecord::Executing,
        EmptyPromiseVerdict::Inconclusive => if successful_tool_calls > 0 {
            EpisodeTaskStateRecord::Delivered
        } else {
            EpisodeTaskStateRecord::Exploring
        },
        EmptyPromiseVerdict::No => EpisodeTaskStateRecord::Delivered,
    }
}

/// Whether a turn goes on with the current episode: it does while the episode is
/// short of its cap and the topics are related, whatever the state of its task.
pub open spec fn boundary_decision(
    current: Set<Seq<char>>,
    next: Set<Seq<char>>,
    current_turn_count: int,
) -> EpisodeBoundaryDecision {
    if current_turn_count < MAX_OPEN_EPISODE_TURNS && related(current, next) {
        EpisodeBoundaryDecision::ContinueCurrent
    } else {
        EpisodeBoundaryDecision::CloseCurrentAndOpenNext
    }
}

pub fn decide_episode_turn(
    current_tokens: &TokenSet,
    next_tokens: &TokenSet,
    assistant_text: &str,
    successful_tool_calls: usize,
    final_stop_reason: Option<&str>,
    current_task_state: EpisodeTaskStateRecord,
    current_turn_count: u64,
) -> (r: EpisodeTurnDecision)
    ensures
        r.task_state == task_state(
            assistant_text@,
            successful_tool_calls as int,
            reason_text(final_stop_reason),
        ),
        r.boundary == boundary_decision(
            current_tokens@,
            next_tokens@,
            current_turn_count as int,
        ),
{
    let task_state = infer_episode_task_state(
        assistant_text,
        successful_tool_calls,
        final_stop_reason,
    );
    let boundary = if current_turn_count >= MAX_OPEN_EPISODE_TURNS {
        EpisodeBoundaryDecision::CloseCurrentAndOpenNext
    } else if boundary_flush_topics_are_related(current_tokens, next_tokens) {
        EpisodeBoundaryDecision::ContinueCurrent
    } else {
        match current_task_state {
            EpisodeTaskStateRecord::Delivered
            | EpisodeTaskStateRecord::Executing
            | EpisodeTaskStateRecord::Exploring => EpisodeBoundaryDecision::CloseCurrentAndOpenNext,
        }
    };
    EpisodeTurnDecision { task_state, boundary }
}

/// An episode is ready to be flushed unless it is flushed, or its flush is
/// pending and was begun less than half a minute ago.
pub open spec fn ready_for_flush(
    status: EpisodeStatusRecord,
    last_activity_at: Timestamp,
    now: Timestamp,
) -> bool {
    match status {
        EpisodeStatusRecord::Open => true,
        EpisodeStatusRecord::Closed => true,
        EpisodeStatusRecord::Flushed => false,
        EpisodeStatusRecord::FlushPending => now.total() - last_activity_at.total()
            >= EPISODE_FLUSH_PENDING_GRACE_SECS * 1_000_000_000,
    }
}

pub fn episode_status_ready_for_boundary_flush(
    episode: &EpisodeStateRecord,
    now: Timestamp,
) -> (r: bool)
    ensures
        r == ready_for_flush(episode.status, episode.last_activity_at, now),
{
    match episode.status {
        EpisodeStatusRecord::Open => true,
        EpisodeStatusRecord::Closed => true,
        EpisodeStatusRecord::Flushed => false,
        EpisodeStatusRecord::FlushPending => now.since(episode.last_activity_at) >= 30_000_000_000,
    }
}

// Transcripts by turn

/// The messages of a transcript, each with the time of its entry.
pub open spec fn timed_messages(entries: Seq<SessionEntry>) -> Seq<SessionMessage>
    decreases entries.len(),
{
    if entries.len() == 0 {
        Seq::empty()
    } else {
        let before = timed_messages(entries.drop_last());
        match entries.last() {
            SessionEntry::Message { id, timestamp, message } => before.push(
                SessionMessage { timestamp: Some(timestamp), ..message },
            ),
            SessionEntry::Other => before,
        }
    }
}

/// The messages of a transcript as they stand.
pub open spec fn plain_messages(entries: Seq<SessionEntry>) -> Seq<SessionMessage>
    decreases entries.len(),
{
    if entries.len() == 0 {
        Seq::empty()
    } else {
        let before = plain_messages(entries.drop_last());
        match entries.last() {
            SessionEntry::Message { id, timestamp, message } => before.push(message),
            SessionEntry::Other => before,
        }
    }
}

/// The number of turns: a user's message begins one.
pub open spec fn turn_count(messages: Seq<SessionMessage>) -> int
    decreases messages.len(),
{
    if messages.len() == 0 {
        0
    } else {
        turn_count(messages.drop_last()) + if messages.last().role@ == "user"@ {
            1int
        } else {
            0int
        }
    }
}

/// The messages of turn `t`, in order.
pub open spec fn turn_messages(messages: Seq<SessionMessage>, t: int) -> Seq<SessionMessage>
    decreases messages.len(),
{
    if messages.len() == 0 {
        Seq::empty()
    } else {
        let before = turn_messages(messages.drop_last(), t);
        if turn_count(messages) == t {
            before.push(messages.last())
        } else {
            before
        }
    }
}

/// The turns after `from`, one by one.
pub open spec fn turns_after(messages: Seq<SessionMessage>, from: int) -> Seq<TurnsModel> {
    Seq::new(
        if turn_count(messages) <= from {
            0
        } else {
            (turn_count(messages) - from) as nat
        },
        |k: int|
            TurnsModel {
                start_turn: (from + 1 + k) as u64,
                end_turn: (from + 1 + k) as u64,
                messages: turn_messages(messages, from + 1 + k),
            },
    )
}

proof fn turn_count_bounds(messages: Seq<SessionMessage>)
    ensures
        0 <= turn_count(messages) <= messages.len(),
    decreases messages.len(),
{
    if messages.len() > 0 {
        turn_count_bounds(messages.drop_last());
    }
}

proof fn later_turn_is_empty(messages: Seq<SessionMessage>, t: int)
    requires
        t > turn_count(messages),
    ensures
        turn_messages(messages, t) == Seq::<SessionMessage>::empty(),
    decreases messages.len(),
{
    if messages.len() > 0 {
        turn_count_bounds(messages.drop_last());
        later_turn_is_empty(messages.drop_last(), t);
    }
}

/// Every turn begins with the user's message that opens it.
pub proof fn turn_begins_with_user(messages: Seq<SessionMessage>, t: int)
    requires
        1 <= t <= turn_count(messages),
    ensures
        turn_messages(messages, t).len() > 0,
        turn_messages(messages, t)[0].role@ == "user"@,
    decreases messages.len(),
{
    let less = messages.drop_last();
    turn_count_bounds(less);
    if t <= turn_count(less) {
        turn_begins_with_user(less, t);
    } else {
        later_turn_is_empty(less, t);
    }
}

pub open spec fn collected_turns(
    r: Option<(Vec<BoundaryFlushEpisode>, u64)>,
    entries: Seq<SessionEntry>,
    last_flushed_turn: u64,
) -> bool {
    let messages = timed_messages(entries);
    match r {
        None => turn_count(messages) <= last_flushed_turn,
        Some((turns, count)) => {
            &&& turn_count(messages) > last_flushed_turn
            &&& types::turns_models(turns@) == turns_after(messages, last_flushed_turn as int)
            &&& count == turn_count(messages)
        },
    }
}

proof fn turns_push(s: Seq<BoundaryFlushEpisode>, e: BoundaryFlushEpisode)
    ensures
        types::turns_models(s.push(e)) == types::turns_models(s).push(e@),
{
}

/// The turns of a transcript that come after the checkpoint, one by one, and
/// the number of its turns; `None` where there is no such turn.
pub fn collect_unflushed_boundary_turns(
    entries: &[SessionEntry],
    last_flushed_turn: u64,
) -> (r: Option<(Vec<BoundaryFlushEpisode>, u64)>)
    ensures
        collected_turns(r, entries@, last_flushed_turn),
{
    let mut count: u64 = 0;
    let mut turns: Vec<BoundaryFlushEpisode> = Vec::new();
    let mut current: Vec<SessionMessage> = Vec::new();
    let n: usize = entries.len();
    let ghost lf = last_flushed_turn as int;
    assert(types::turns_models(turns@) == Seq::<TurnsModel>::empty());
    for i in 0..n
        invariant
            n == entries@.len(),
            lf == last_flushed_turn,
            count <= i,
            count == turn_count(timed_messages(entries@.take(i as int))),
            current@ == (if count > lf {
                turn_messages(timed_messages(entries@.take(i as int)), count as int)
            } else {
                Seq::empty()
            }),
            types::turns_models(turns@) == Seq::new(
                if count <= lf {
                    0
                } else {
                    (count - 1 - lf) as nat
                },
                |k: int|
                    TurnsModel {
                        start_turn: (lf + 1 + k) as u64,
                        end_turn: (lf + 1 + k) as u64,
                        messages: turn_messages(
                            timed_messages(entries@.take(i as int)),
                            lf + 1 + k,
                        ),
                    },
            ),
    {
        let ghost before = timed_messages(entries@.take(i as int));
        let ghost after = timed_messages(entries@.take(i + 1));
        let ghost count_before = count as int;
        assert(entries@.take(i + 1).drop_last() == entries@.take(i as int));
        assert(entries@.take(i + 1).last() == entries@[i as int]);
        match &entries[i] {
            SessionEntry::Other => {},
            SessionEntry::Message { id, timestamp, message } => {
                let kept = SessionMessage {
                    role: message.role.clone(),
                    content: message.content.clone(),
                    timestamp: Some(*timestamp),
                };
                assert(after == before.push(kept));
                assert(after.drop_last() == before);
                if text::same_text(message.role.as_str(), "user") {
                    if count > last_flushed_turn {
                        let mut done: Vec<SessionMessage> = Vec::new();
                        std::mem::swap(&mut done, &mut current);
                        let episode = BoundaryFlushEpisode {
                            start_turn: count,
                            end_turn: count,
                            messages: done,
                        };
                        proof {
                            turns_push(turns@, episode);
                        }
                        turns.push(episode);
                    }
                    count = count + 1;
                    proof {
                        later_turn_is_empty(before, count as int);
                    }
                }
                if count > last_flushed_turn {
                    current.push(kept);
                }
                assert(types::turns_models(turns@) =~= Seq::new(
                    if count <= lf {
                        0
                    } else {
                        (count - 1 - lf) as nat
                    },
                    |k: int|
                        TurnsModel {
                            start_turn: (lf + 1 + k) as u64,
                            end_turn: (lf + 1 + k) as u64,
                            messages: turn_messages(after, lf + 1 + k),
                        },
                ));
            },
        }
    }
    assert(entries@.take(n as int) == entries@);
    let ghost messages = timed_messages(entries@);
    if count <= last_flushed_turn {
        return None;
    }
    let episode = BoundaryFlushEpisode { start_turn: count, end_turn: count, messages: current };
    proof {
        turns_push(turns@, episode);
    }
    turns.push(episode);
    assert(types::turns_models(turns@) =~= turns_after(messages, lf));
    Some((turns, count))
}

/// Nothing is lost after the checkpoint: the turns that are collected are all
/// the turns after it, in order and without gaps.
pub proof fn collected_turns_follow_the_checkpoint(messages: Seq<SessionMessage>, from: u64)
    requires
        turn_count(messages) > from,
        messages.len() <= u64::MAX,
    ensures
        turns_after(messages, from as int).len() == turn_count(messages) - from,
        turns_after(messages, from as int)[0].start_turn == from + 1,
        turns_after(messages, from as int).last().end_turn == turn_count(messages),
        forall|k: int|
            0 <= k < turns_after(messages, from as int).len() ==> {
                let turn = #[trigger] turns_after(messages, from as int)[k];
                &&& turn.start_turn == turn.end_turn == from + 1 + k
                &&& turn.messages.len() > 0
                &&& turn.messages[0].role@ == "user"@
            },
{
    turn_count_bounds(messages);
    assert forall|k: int| 0 <= k < turns_after(messages, from as int).len() implies {
        let turn = #[trigger] turns_after(messages, from as int)[k];
        &&& turn.start_turn == turn.end_turn == from + 1 + k
        &&& turn.messages.len() > 0
        &&& turn.messages[0].role@ == "user"@
    } by {
        turn_begins_with_user(messages, from + 1 + k);
    }
}

// Turns that are flushed together

pub open spec fn message_bytes(messages: Seq<SessionMessage>) -> int
    decreases messages.len(),
{
    if messages.len() == 0 {
        0
    } else {
        message_bytes(messages.drop_last()) + text::utf8_len(messages.last().content@)
    }
}

proof fn message_bytes_nonneg(messages: Seq<SessionMessage>)
    ensures
        message_bytes(messages) >= 0,
    decreases messages.len(),
{
    if messages.len() > 0 {
        message_bytes_nonneg(messages.drop_last());
    }
}

proof fn message_bytes_monotone(messages: Seq<SessionMessage>, i: int)
    requires
        0 <= i <= messages.len(),
    ensures
        message_bytes(messages.take(i)) <= message_bytes(messages),
    decreases messages.len(),
{
    if i == messages.len() {
        assert(messages.take(i) == messages);
    } else {
        message_bytes_monotone(messages.drop_last(), i);
        assert(messages.drop_last().take(i) == messages.take(i));
    }
}

/// What is left of `budget` after the bytes of the messages, if they fit.
fn bytes_left(messages: &[SessionMessage], budget: usize) -> (r: Option<usize>)
    ensures
        match r {
            Some(left) => left == budget - message_bytes(messages@),
            None => message_bytes(messages@) > budget,
        },
{
    let mut left: usize = budget;
    let n: usize = messages.len();
    for i in 0..n
        invariant
            n == messages@.len(),
            left == budget - message_bytes(messages@.take(i as int)),
    {
        assert(messages@.take(i + 1).drop_last() == messages@.take(i as int));
        let size: usize = text::byte_len(messages[i].content.as_str());
        if size > left {
            proof {
                message_bytes_monotone(messages@, i + 1);
            }
            return None;
        }
        left = left - size;
    }
    assert(messages@.take(n as int) == messages@);
    Some(left)
}

/// The next turn joins the current run: it follows directly, the run is short
/// in turns and together they are short in bytes, and the topics are related.
pub open spec fn joins(current: TurnsModel, next: TurnsModel) -> bool {
    &&& current.end_turn + 1 == next.start_turn
    &&& turns_in(current) < MAX_EPISODE_TURNS
    &&& message_bytes(current.messages) + message_bytes(next.messages) <= MAX_EPISODE_BYTES
    &&& related(message_tokens(current.messages), message_tokens(next.messages))
}

/// The number of turns of a run.
pub open spec fn turns_in(run: TurnsModel) -> int {
    if run.end_turn >= run.start_turn {
        run.end_turn - run.start_turn + 1
    } else {
        1
    }
}

pub open spec fn joined_run(current: TurnsModel, next: TurnsModel) -> TurnsModel {
    TurnsModel {
        start_turn: current.start_turn,
        end_turn: next.end_turn,
        messages: current.messages + next.messages,
    }
}

/// Turns grouped into runs: each turn joins the run before it or begins one.
pub open spec fn grouped_turns(turns: Seq<TurnsModel>) -> Seq<TurnsModel>
    decreases turns.len(),
{
    if turns.len() == 0 {
        Seq::empty()
    } else {
        let before = grouped_turns(turns.drop_last());
        let next = turns.last();
        if before.len() > 0 && joins(before.last(), next) {
            before.drop_last().push(joined_run(before.last(), next))
        } else {
            before.push(next)
        }
    }
}

fn does_join(current: &BoundaryFlushEpisode, next: &BoundaryFlushEpisode) -> (r: bool)
    ensures
        r == joins(current@, next@),
{
    if current.end_turn == u64::MAX || current.end_turn + 1 != next.start_turn {
        return false;
    }
    let long = current.end_turn >= current.start_turn && current.end_turn - current.start_turn
        >= MAX_EPISODE_TURNS - 1;
    if long {
        return false;
    }
    match bytes_left(current.messages.as_slice(), MAX_EPISODE_BYTES) {
        None => {
            proof {
                message_bytes_nonneg(next.messages@);
            }
            return false;
        },
        Some(left) => {
            if bytes_left(next.messages.as_slice(), left).is_none() {
                return false;
            }
        },
    }
    boundary_flush_topics_are_related(
        &boundary_flush_topic_tokens(current.messages.as_slice()),
        &boundary_flush_topic_tokens(next.messages.as_slice()),
    )
}

fn group_turns(turns: &Vec<BoundaryFlushEpisode>) -> (r: Vec<BoundaryFlushEpisode>)
    ensures
        types::turns_models(r@) == grouped_turns(types::turns_models(turns@)),
{
    let ghost all = types::turns_models(turns@);
    let mut out: Vec<BoundaryFlushEpisode> = Vec::new();
    let n: usize = turns.len();
    assert(types::turns_models(out@) == grouped_turns(all.take(0)));
    for i in 0..n
        invariant
            n == turns@.len(),
            all == types::turns_models(turns@),
            types::turns_models(out@) == grouped_turns(all.take(i as int)),
    {
        let ghost before = types::turns_models(out@);
        assert(all.take(i + 1).drop_last() == all.take(i as int));
        assert(all.take(i + 1).last() == turns@[i as int]@);
        let m: usize = out.len();
        if m > 0 {
            assert(before.last() == out@[m - 1]@);
        }
        if m > 0 && does_join(&out[m - 1], &turns[i]) {
            let last = out.pop();
            match last {
                None => {},
                Some(current) => {
                    let mut messages = current.messages;
                    types::append_messages(&mut messages, &turns[i].messages);
                    let joined = BoundaryFlushEpisode {
                        start_turn: current.start_turn,
                        end_turn: turns[i].end_turn,
                        messages,
                    };
                    assert(types::turns_models(out@) == before.drop_last());
                    proof {
                        turns_push(out@, joined);
                    }
                    out.push(joined);
                },
            }
        } else {
            let next = turns[i].copy();
            proof {
                turns_push(out@, next);
            }
            out.push(next);
        }
    }
    assert(all.take(n as int) == all);
    out
}

/// The turns after the checkpoint, grouped into runs on one topic.
pub fn collect_unflushed_boundary_episodes(
    entries: &[SessionEntry],
    last_flushed_turn: u64,
) -> (r: Option<(Vec<BoundaryFlushEpisode>, u64)>)
    ensures
        match r {
            None => turn_count(timed_messages(entries@)) <= last_flushed_turn,
            Some((episodes, count)) => {
                &&& turn_count(timed_messages(entries@)) > last_flushed_turn
                &&& types::turns_models(episodes@) == grouped_turns(
                    turns_after(timed_messages(entries@), last_flushed_turn as int),
                )
                &&& count == turn_count(timed_messages(entries@))
            },
        },
{
    match collect_unflushed_boundary_turns(entries, last_flushed_turn) {
        None => None,
        Some((turns, count)) => Some((group_turns(&turns), count)),
    }
}

/// All the messages of some runs, in order.
pub open spec fn all_messages(runs: Seq<TurnsModel>) -> Seq<SessionMessage>
    decreases runs.len(),
{
    if runs.len() == 0 {
        Seq::empty()
    } else {
        all_messages(runs.drop_last()) + runs.last().messages
    }
}

/// Grouping loses and reorders no message.
pub proof fn grouping_keeps_messages(turns: Seq<TurnsModel>)
    ensures
        all_messages(grouped_turns(turns)) == all_messages(turns),
        turns.len() > 0 ==> grouped_turns(turns).len() > 0,
        grouped_turns(turns).len() <= turns.len(),
    decreases turns.len(),
{
    if turns.len() > 0 {
        grouping_keeps_messages(turns.drop_last());
        let before = grouped_turns(turns.drop_last());
        let next = turns.last();
        if before.len() > 0 && joins(before.last(), next) {
            let joined = joined_run(before.last(), next);
            let after = before.drop_last().push(joined);
            assert(after.drop_last() == before.drop_last());
            assert(after.last() == joined);
            assert(all_messages(after) =~= all_messages(before.drop_last()) + (
            before.last().messages + next.messages));
            assert(all_messages(after) =~= all_messages(before) + next.messages);
        } else {
            assert(before.push(next).drop_last() == before);
        }
    }
}

/// A run of more than one turn keeps within the limits of a run.
pub proof fn runs_keep_their_limits(turns: Seq<TurnsModel>, k: int)
    requires
        forall|i: int|
            0 <= i < turns.len() ==> (#[trigger] turns[i]).start_turn == turns[i].end_turn,
        0 <= k < grouped_turns(turns).len(),
    ensures
        1 <= turns_in(grouped_turns(turns)[k]) <= MAX_EPISODE_TURNS,
        grouped_turns(turns)[k].start_turn <= grouped_turns(turns)[k].end_turn,
        turns_in(grouped_turns(turns)[k]) > 1 ==> message_bytes(grouped_turns(turns)[k].messages)
            <= MAX_EPISODE_BYTES,
    decreases turns.len(),
{
    let less = turns.drop_last();
    let before = grouped_turns(less);
    let next = turns.last();
    assert(turns[turns.len() - 1] == next);
    if before.len() > 0 && joins(before.last(), next) {
        if k == before.len() - 1 {
            runs_keep_their_limits(less, k);
            message_bytes_of_both(before.last().messages, next.messages);
        } else {
            runs_keep_their_limits(less, k);
        }
    } else if k < before.len() {
        runs_keep_their_limits(less, k);
    }
}

proof fn message_bytes_of_both(a: Seq<SessionMessage>, b: Seq<SessionMessage>)
    ensures
        message_bytes(a + b) == message_bytes(a) + message_bytes(b),
    decreases b.len(),
{
    if b.len() == 0 {
        assert(a + b == a);
    } else {
        message_bytes_of_both(a, b.drop_last());
        assert((a + b).drop_last() == a + b.drop_last());
        assert((a + b).last() == b.last());
    }
}

// Episodes from their records

pub open spec fn range_key(episode: EpisodeStateRecord) -> int {
    episode.start_turn * 0x1_0000_0000_0000_0000 + episode.end_turn
}

/// Records by their ranges of turns, equal ranges in their own order.
pub open spec fn by_range(episodes: Seq<EpisodeStateRecord>) -> Seq<EpisodeStateRecord> {
    seqs::stable_order(range_keys(episodes)).map_values(|i: int| episodes[i])
}

pub open spec fn range_keys(episodes: Seq<EpisodeStateRecord>) -> Seq<int> {
    episodes.map_values(|e: EpisodeStateRecord| range_key(e))
}

pub fn sort_by_range(episodes: &Vec<EpisodeStateRecord>) -> (r: Vec<EpisodeStateRecord>)
    ensures
        r@ == by_range(episodes@),
{
    let n: usize = episodes.len();
    let mut keys: Vec<u128> = Vec::new();
    for i in 0..n
        invariant
            n == episodes@.len(),
            keys@.len() == i,
            forall|k: int| 0 <= k < i ==> #[trigger] keys@[k] == range_key(episodes@[k]),
    {
        keys.push(
            (episodes[i].start_turn as u128) * 0x1_0000_0000_0000_0000
                + episodes[i].end_turn as u128,
        );
    }
    assert(seqs::as_ints(keys@) == range_keys(episodes@));
    let order = seqs::order_by_key(keys.as_slice());
    let ghost p = seqs::stable_order(range_keys(episodes@));
    proof {
        seqs::stable_order_sorts(range_keys(episodes@));
    }
    let mut out: Vec<EpisodeStateRecord> = Vec::new();
    for i in 0..n
        invariant
            n == episodes@.len(),
            n == order@.len(),
            p == seqs::positions(order@),
            seqs::stable_by_key(p, range_keys(episodes@)),
            out@ == p.take(i as int).map_values(|k: int| episodes@[k]),
    {
        assert(p[i as int] == order@[i as int]);
        out.push(episodes[order[i]].copy());
        assert(out@ == p.take(i + 1).map_values(|k: int| episodes@[k]));
    }
    assert(p.take(n as int) == p);
    out
}

/// The messages of the turns that lie within the range, in order.
pub open spec fn messages_within(turns: Seq<TurnsModel>, start: u64, end: u64) -> Seq<
    SessionMessage,
>
    decreases turns.len(),
{
    if turns.len() == 0 {
        Seq::empty()
    } else {
        let before = messages_within(turns.drop_last(), start, end);
        let turn = turns.last();
        if turn.start_turn >= start && turn.end_turn <= end {
            before + turn.messages
        } else {
            before
        }
    }
}

fn collect_within(turns: &[BoundaryFlushEpisode], start: u64, end: u64) -> (r: Vec<SessionMessage>)
    ensures
        r@ == messages_within(types::turns_models(turns@), start, end),
{
    let mut out: Vec<SessionMessage> = Vec::new();
    let n: usize = turns.len();
    let ghost all = types::turns_models(turns@);
    for i in 0..n
        invariant
            n == turns@.len(),
            all == types::turns_models(turns@),
            out@ == messages_within(all.take(i as int), start, end),
    {
        assert(all.take(i + 1).drop_last() == all.take(i as int));
        assert(all.take(i + 1).last() == turns@[i as int]@);
        if turns[i].start_turn >= start && turns[i].end_turn <= end {
            types::append_messages(&mut out, &turns[i].messages);
        }
    }
    assert(all.take(n as int) == all);
    out
}

/// For each record a run of the messages within its range, where there are any.
pub open spec fn runs_of_records(
    turns: Seq<TurnsModel>,
    records: Seq<EpisodeStateRecord>,
) -> Seq<TurnsModel>
    decreases records.len(),
{
    if records.len() == 0 {
        Seq::empty()
    } else {
        let before = runs_of_records(turns, records.drop_last());
        let record = records.last();
        let messages = messages_within(turns, record.start_turn, record.end_turn);
        if messages.len() == 0 {
            before
        } else {
            before.push(
                TurnsModel { start_turn: record.start_turn, end_turn: record.end_turn, messages },
            )
        }
    }
}

pub open spec fn ready_records(episodes: Seq<EpisodeStateRecord>, now: Timestamp) -> Seq<
    EpisodeStateRecord,
> {
    episodes.filter(|e: EpisodeStateRecord| ready_for_flush(e.status, e.last_activity_at, now))
}

fn keep_ready(episodes: &[EpisodeStateRecord], now: Timestamp) -> (r: Vec<EpisodeStateRecord>)
    ensures
        r@ == ready_records(episodes@, now),
{
    let mut out: Vec<EpisodeStateRecord> = Vec::new();
    let n: usize = episodes.len();
    let ghost keep = |e: EpisodeStateRecord| ready_for_flush(e.status, e.last_activity_at, now);
    proof {
        seqs::filter_start(episodes@, keep);
    }
    for i in 0..n
        invariant
            n == episodes@.len(),
            keep == (|e: EpisodeStateRecord| ready_for_flush(e.status, e.last_activity_at, now)),
            out@ == episodes@.take(i as int).filter(keep),
    {
        proof {
            seqs::filter_step(episodes@, keep, i as int);
        }
        if episode_status_ready_for_boundary_flush(&episodes[i], now) {
            out.push(episodes[i].copy());
        }
    }
    assert(episodes@.take(n as int) == episodes@);
    out
}

/// The runs that the records of ready episodes mark, by their ranges.
pub fn build_boundary_episodes_from_state(
    turns: &[BoundaryFlushEpisode],
    open_episodes: &[EpisodeStateRecord],
    now: Timestamp,
) -> (r: Vec<BoundaryFlushEpisode>)
    ensures
        types::turns_models(r@) == runs_of_records(
            types::turns_models(turns@),
            by_range(ready_records(open_episodes@, now)),
        ),
{
    let ready = keep_ready(open_episodes, now);
    let ranges = sort_by_range(&ready);
    let ghost all = types::turns_models(turns@);
    let mut out: Vec<BoundaryFlushEpisode> = Vec::new();
    let n: usize = ranges.len();
    assert(types::turns_models(out@) == runs_of_records(all, ranges@.take(0)));
    for i in 0..n
        invariant
            n == ranges@.len(),
            all == types::turns_models(turns@),
            types::turns_models(out@) == runs_of_records(all, ranges@.take(i as int)),
    {
        assert(ranges@.take(i + 1).drop_last() == ranges@.take(i as int));
        assert(ranges@.take(i + 1).last() == ranges@[i as int]);
        let messages = collect_within(turns, ranges[i].start_turn, ranges[i].end_turn);
        if messages.len() > 0 {
            let run = BoundaryFlushEpisode {
                start_turn: ranges[i].start_turn,
                end_turn: ranges[i].end_turn,
                messages,
            };
            proof {
                turns_push(out@, run);
            }
            out.push(run);
        }
    }
    assert(ranges@.take(n as int) == ranges@);
    out
}

/// The messages whose turn lies within the range, in order; those before the
/// first turn belong to none.
pub open spec fn range_messages(messages: Seq<SessionMessage>, start: u64, end: u64) -> Seq<
    SessionMessage,
>
    decreases messages.len(),
{
    if messages.len() == 0 {
        Seq::empty()
    } else {
        let before = range_messages(messages.drop_last(), start, end);
        let t = turn_count(messages);
        if t >= 1 && start <= t <= end {
            before.push(messages.last())
        } else {
            before
        }
    }
}

/// The run of the turns within a range; `None` where it has no message.
pub fn collect_boundary_episode_for_range(
    entries: &[SessionEntry],
    start_turn: u64,
    end_turn: u64,
) -> (r: Option<BoundaryFlushEpisode>)
    ensures
        match r {
            None => range_messages(plain_messages(entries@), start_turn, end_turn).len() == 0,
            Some(run) => {
                &&& run@ == (TurnsModel {
                    start_turn,
                    end_turn,
                    messages: range_messages(plain_messages(entries@), start_turn, end_turn),
                })
                &&& run.messages@.len() > 0
            },
        },
{
    let mut count: u64 = 0;
    let mut messages: Vec<SessionMessage> = Vec::new();
    let n: usize = entries.len();
    for i in 0..n
        invariant
            n == entries@.len(),
            count <= i,
            count == turn_count(plain_messages(entries@.take(i as int))),
            messages@ == range_messages(
                plain_messages(entries@.take(i as int)),
                start_turn,
                end_turn,
            ),
    {
        assert(entries@.take(i + 1).drop_last() == entries@.take(i as int));
        assert(entries@.take(i + 1).last() == entries@[i as int]);
        match &entries[i] {
            SessionEntry::Other => {},
            SessionEntry::Message { id, timestamp, message } => {
                let ghost before = plain_messages(entries@.take(i as int));
                assert(before.push(*message).drop_last() == before);
                if text::same_text(message.role.as_str(), "user") {
                    count = count + 1;
                }
                if count >= 1 && start_turn <= count && count <= end_turn {
                    messages.push(message.copy());
                }
            },
        }
    }
    assert(entries@.take(n as int) == entries@);
    if messages.len() == 0 {
        None
    } else {
        Some(BoundaryFlushEpisode { start_turn, end_turn, messages })
    }
}

// Batches

pub open spec fn saturating_sum(a: int, b: int) -> int {
    if a + b > u64::MAX {
        u64::MAX as int
    } else {
        a + b
    }
}

/// The turns that a run counts for in a batch.
pub open spec fn counted_turns(run: TurnsModel) -> int {
    if run.end_turn >= run.start_turn {
        saturating_sum(run.end_turn - run.start_turn, 1)
    } else {
        1
    }
}

pub open spec fn batch_turns(batch: Seq<TurnsModel>) -> int
    decreases batch.len(),
{
    if batch.len() == 0 {
        0
    } else {
        saturating_sum(batch_turns(batch.drop_last()), counted_turns(batch.last()))
    }
}

/// The runs in batches: each run goes into the last batch unless that batch
/// would then count more turns than allowed.
pub open spec fn batches(runs: Seq<TurnsModel>, max_turns: int) -> Seq<Seq<TurnsModel>>
    decreases runs.len(),
{
    if runs.len() == 0 {
        Seq::empty()
    } else {
        let before = batches(runs.drop_last(), max_turns);
        let run = runs.last();
        if before.len() == 0 || saturating_sum(batch_turns(before.last()), counted_turns(run))
            > max_turns {
            before.push(seq![run])
        } else {
            before.drop_last().push(before.last().push(run))
        }
    }
}

pub open spec fn batch_models(s: Seq<Vec<BoundaryFlushEpisode>>) -> Seq<Seq<TurnsModel>> {
    Seq::new(s.len(), |i: int| types::turns_models(s[i]@))
}

proof fn batches_nonempty(runs: Seq<TurnsModel>, max_turns: int)
    ensures
        runs.len() > 0 ==> batches(runs, max_turns).len() > 0,
        forall|i: int|
            0 <= i < batches(runs, max_turns).len() ==> (#[trigger] batches(
                runs,
                max_turns,
            )[i]).len() > 0,
    decreases runs.len(),
{
    if runs.len() > 0 {
        batches_nonempty(runs.drop_last(), max_turns);
        let before = batches(runs.drop_last(), max_turns);
        let after = batches(runs, max_turns);
        assert forall|i: int| 0 <= i < after.len() implies (#[trigger] after[i]).len() > 0 by {
            if i < before.len() {
                assert(before[i].len() > 0);
            }
        }
    }
}

proof fn batch_models_push(s: Seq<Vec<BoundaryFlushEpisode>>, b: Vec<BoundaryFlushEpisode>)
    ensures
        batch_models(s.push(b)) == batch_models(s).push(types::turns_models(b@)),
{
}

pub fn split_boundary_flush_episode_batches(
    episodes: &[BoundaryFlushEpisode],
    max_turns_per_batch: u64,
) -> (r: Vec<Vec<BoundaryFlushEpisode>>)
    ensures
        batch_models(r@) == batches(types::turns_models(episodes@), max_turns_per_batch as int),
{
    let ghost all = types::turns_models(episodes@);
    let ghost max = max_turns_per_batch as int;
    let mut done: Vec<Vec<BoundaryFlushEpisode>> = Vec::new();
    let mut current: Vec<BoundaryFlushEpisode> = Vec::new();
    let mut current_turns: u64 = 0;
    let n: usize = episodes.len();
    for i in 0..n
        invariant
            n == episodes@.len(),
            all == types::turns_models(episodes@),
            max == max_turns_per_batch,
            i == 0 ==> current@.len() == 0 && done@.len() == 0 && current_turns == 0,
            i > 0 ==> current@.len() > 0 && batches(all.take(i as int), max) == batch_models(
                done@,
            ).push(types::turns_models(current@)),
            current_turns == batch_turns(types::turns_models(current@)),
    {
        let ghost before = batches(all.take(i as int), max);
        let ghost run = all[i as int];
        assert(all.take(i + 1).drop_last() == all.take(i as int));
        assert(all.take(i + 1).last() == run);
        let span: u64 = if episodes[i].end_turn >= episodes[i].start_turn {
            episodes[i].end_turn - episodes[i].start_turn
        } else {
            0
        };
        let turns: u64 = span.saturating_add(1);
        assert(turns == counted_turns(run));
        if current.len() > 0 && current_turns.saturating_add(turns) > max_turns_per_batch {
            let mut full: Vec<BoundaryFlushEpisode> = Vec::new();
            std::mem::swap(&mut full, &mut current);
            proof {
                batch_models_push(done@, full);
            }
            done.push(full);
            current_turns = 0;
        }
        let ghost cur = types::turns_models(current@);
        assert(current_turns == batch_turns(cur));
        let ghost had = current_turns as int;
        current_turns = current_turns.saturating_add(turns);
        assert(current_turns == saturating_sum(had, counted_turns(run)));
        let kept = episodes[i].copy();
        proof {
            turns_push(current@, kept);
            assert(kept@ == run);
            assert(cur.push(run).drop_last() == cur);
            assert(cur.push(run).last() == run);
            if i == 0 {
                assert(all.take(0) == Seq::<TurnsModel>::empty());
                assert(cur.push(run) =~= seq![run]);
                assert(batch_models(done@) =~= Seq::<Seq<TurnsModel>>::empty());
            } else if cur.len() == 0 {
                assert(batch_models(done@) =~= before);
                assert(cur.push(run) =~= seq![run]);
            } else {
                assert(before.drop_last() =~= batch_models(done@));
            }
        }
        current.push(kept);
    }
    assert(all.take(n as int) == all);
    if current.len() > 0 {
        proof {
            batch_models_push(done@, current);
        }
        done.push(current);
    }
    assert(n == 0 ==> batch_models(done@) =~= Seq::<Seq<TurnsModel>>::empty());
    done
}

/// Batching loses and reorders no run, leaves no batch empty, and fills no batch
/// of several runs beyond the limit.
pub proof fn batches_partition_the_runs(runs: Seq<TurnsModel>, max_turns: u64)
    ensures
        batches(runs, max_turns as int).flatten() == runs,
        forall|i: int|
            0 <= i < batches(runs, max_turns as int).len() ==> {
                let batch = #[trigger] batches(runs, max_turns as int)[i];
                &&& batch.len() > 0
                &&& batch.len() > 1 ==> batch_turns(batch) <= max_turns
            },
    decreases runs.len(),
{
    let max = max_turns as int;
    let after = batches(runs, max);
    batches_nonempty(runs, max);
    after.lemma_flatten_and_flatten_alt_are_equivalent();
    if runs.len() == 0 {
        assert(after.flatten() =~= runs);
    } else {
        batches_partition_the_runs(runs.drop_last(), max_turns);
        let before = batches(runs.drop_last(), max);
        let run = runs.last();
        before.lemma_flatten_and_flatten_alt_are_equivalent();
        if before.len() == 0 || saturating_sum(batch_turns(before.last()), counted_turns(run))
            > max {
            assert(after.drop_last() == before);
            assert(after.last() == seq![run]);
        } else {
            assert(after.drop_last() == before.drop_last());
            let grown = before.last().push(run);
            assert(after.last() == grown);
            assert(grown.drop_last() == before.last());
            assert(before.drop_last().flatten_alt() + before.last() == before.flatten_alt());
            assert(before.drop_last().flatten_alt() + grown =~= (before.drop_last().flatten_alt()
                + before.last()).push(run));
        }
        assert(after.flatten() =~= runs);
    }
}

// What topics, turns and batches come to

/// The topic tokens of pieces are their long ones, in lower case, and no others.
pub proof fn topic_tokens_are_long_pieces(pieces: Seq<Seq<char>>, t: Seq<char>)
    ensures
        piece_tokens(pieces).contains(t) <==> exists|i: int|
            0 <= i < pieces.len() && text::utf8_len(text::trim(#[trigger] pieces[i])) >= 3 && t
                == text::lowered(text::trim(pieces[i])),
    decreases pieces.len(),
{
    if pieces.len() > 0 {
        let less = pieces.drop_last();
        topic_tokens_are_long_pieces(less, t);
        if piece_tokens(less).contains(t) {
            let i = choose|i: int|
                0 <= i < less.len() && text::utf8_len(text::trim(#[trigger] less[i])) >= 3 && t
                    == text::lowered(text::trim(less[i]));
            assert(pieces[i] == less[i]);
        }
        let last = pieces[pieces.len() - 1];
        if text::utf8_len(text::trim(last)) >= 3 && t == text::lowered(text::trim(last)) {
            assert(piece_tokens(pieces).contains(t));
        }
        if exists|i: int|
            0 <= i < pieces.len() && text::utf8_len(text::trim(#[trigger] pieces[i])) >= 3 && t
                == text::lowered(text::trim(pieces[i])) {
            let i = choose|i: int|
                0 <= i < pieces.len() && text::utf8_len(text::trim(#[trigger] pieces[i])) >= 3 && t
                    == text::lowered(text::trim(pieces[i]));
            if i < less.len() {
                assert(less[i] == pieces[i]);
            }
        }
    }
}

/// Only what the user says makes the topic of messages: a token of a user's
/// message is one of its topic, and every token of the topic is of such a message.
pub proof fn topics_come_from_the_user(messages: Seq<SessionMessage>, t: Seq<char>)
    ensures
        message_tokens(messages).contains(t) <==> exists|i: int|
            0 <= i < messages.len() && (#[trigger] messages[i]).role@ == "user"@ && topic_tokens(
                messages[i].content@,
            ).contains(t),
    decreases messages.len(),
{
    if messages.len() > 0 {
        let less = messages.drop_last();
        topics_come_from_the_user(less, t);
        if message_tokens(less).contains(t) {
            let i = choose|i: int|
                0 <= i < less.len() && (#[trigger] less[i]).role@ == "user"@ && topic_tokens(
                    less[i].content@,
                ).contains(t);
            assert(messages[i] == less[i]);
        }
        let last = messages[messages.len() - 1];
        if last.role@ == "user"@ && topic_tokens(last.content@).contains(t) {
            assert(message_tokens(messages).contains(t));
        }
        if exists|i: int|
            0 <= i < messages.len() && (#[trigger] messages[i]).role@ == "user"@ && topic_tokens(
                messages[i].content@,
            ).contains(t) {
            let i = choose|i: int|
                0 <= i < messages.len() && (#[trigger] messages[i]).role@ == "user"@
                    && topic_tokens(messages[i].content@).contains(t);
            if i < less.len() {
                assert(less[i] == messages[i]);
            }
        }
    }
}

/// Topics are related where they have two different tokens in common, and one
/// token in common is not enough.
pub proof fn related_topics_share_two_tokens(
    a: Set<Seq<char>>,
    b: Set<Seq<char>>,
    t: Seq<char>,
    u: Seq<char>,
)
    requires
        a.finite(),
    ensures
        t != u && a.contains(t) && b.contains(t) && a.contains(u) && b.contains(u) ==> related(
            a,
            b,
        ),
        a.intersect(b).subset_of(Set::<Seq<char>>::empty().insert(t)) ==> !related(a, b),
{
    let both = a.intersect(b);
    if t != u && both.contains(t) && both.contains(u) {
        let two = Set::<Seq<char>>::empty().insert(t).insert(u);
        assert(two.subset_of(both));
        vstd::set_lib::lemma_len_subset(two, both);
    }
    let one = Set::<Seq<char>>::empty().insert(t);
    if both.subset_of(one) {
        vstd::set_lib::lemma_len_subset(both, one);
    }
}

/// A reply that was cut short leaves its task under way, whatever it says. Else
/// the reason for its end makes no difference, and after tools a task is never
/// still being explored.
pub proof fn cut_replies_leave_their_task(
    assistant: Seq<char>,
    calls: int,
    more: int,
    reason: Option<Seq<char>>,
)
    ensures
        task_state(assistant, calls, Some("length"@)) == EpisodeTaskStateRecord::Executing,
        reason != Some("length"@) ==> task_state(assistant, calls, reason) == task_state(
            assistant,
            calls,
            None,
        ),
        calls > 0 ==> task_state(assistant, calls, reason) != EpisodeTaskStateRecord::Exploring,
        calls > 0 && more > 0 ==> task_state(assistant, calls, reason) == task_state(
            assistant,
            more,
            reason,
        ),
        task_state(assistant, calls, None) == EpisodeTaskStateRecord::Executing <==> task_state(
            assistant,
            more,
            None,
        ) == EpisodeTaskStateRecord::Executing,
        task_state(assistant, 0, reason) == EpisodeTaskStateRecord::Delivered ==> task_state(
            assistant,
            calls,
            reason,
        ) == EpisodeTaskStateRecord::Delivered,
{
}

/// A turn goes on with its episode exactly where the topics share two tokens and
/// the episode has fewer than four turns.
pub proof fn episodes_end_with_their_topic(
    current: Set<Seq<char>>,
    next: Set<Seq<char>>,
    turns: int,
)
    ensures
        boundary_decision(current, next, turns) == EpisodeBoundaryDecision::ContinueCurrent <==> turns
            < 4 && current.intersect(next).len() >= 2,
        boundary_decision(current, next, turns) == boundary_decision(next, current, turns),
        boundary_decision(current, Set::empty(), turns)
            == EpisodeBoundaryDecision::CloseCurrentAndOpenNext,
{
    assert(current.intersect(next) =~= next.intersect(current));
    related_is_symmetric(current, Set::empty());
}

/// A flush that is pending is left alone for half a minute and no longer; what is
/// flushed is never flushed again, and anything else is ready at any time.
pub proof fn pending_flushes_have_their_time(
    status: EpisodeStatusRecord,
    begun: Timestamp,
    now: Timestamp,
)
    ensures
        ready_for_flush(EpisodeStatusRecord::FlushPending, begun, now) <==> now.total()
            - begun.total() >= 30_000_000_000,
        !ready_for_flush(EpisodeStatusRecord::Flushed, begun, now),
        status == EpisodeStatusRecord::Open || status == EpisodeStatusRecord::Closed
            ==> ready_for_flush(status, begun, now),
{
}

/// The messages of two stretches of a transcript stand one behind the other; an
/// entry with a message brings that message, with its time or as it stands.
pub proof fn messages_are_read_in_order(a: Seq<SessionEntry>, b: Seq<SessionEntry>)
    ensures
        timed_messages(a + b) == timed_messages(a) + timed_messages(b),
        plain_messages(a + b) == plain_messages(a) + plain_messages(b),
        a.len() == 1 ==> match a[0] {
            SessionEntry::Message { id, timestamp, message } => {
                &&& plain_messages(a) == seq![message]
                &&& timed_messages(a).len() == 1
                &&& timed_messages(a)[0].role == message.role
                &&& timed_messages(a)[0].content == message.content
                &&& timed_messages(a)[0].timestamp == Some(timestamp)
            },
            SessionEntry::Other => plain_messages(a).len() == 0 && timed_messages(a).len() == 0,
        },
    decreases b.len(),
{
    if b.len() == 0 {
        assert(a + b =~= a);
        assert(timed_messages(a) + timed_messages(b) =~= timed_messages(a));
        assert(plain_messages(a) + plain_messages(b) =~= plain_messages(a));
    } else {
        messages_are_read_in_order(a, b.drop_last());
        assert((a + b).drop_last() =~= a + b.drop_last());
        assert((a + b).last() == b.last());
        assert(timed_messages(a + b) =~= timed_messages(a) + timed_messages(b));
        assert(plain_messages(a + b) =~= plain_messages(a) + plain_messages(b));
    }
    if a.len() == 1 {
        assert(a.drop_last() =~= Seq::<SessionEntry>::empty());
        assert(timed_messages(a.drop_last()) == Seq::<SessionMessage>::empty());
        assert(plain_messages(a.drop_last()) == Seq::<SessionMessage>::empty());
    }
}

/// Turns add up: a message of the user is one, any other none.
pub proof fn turns_add_up(a: Seq<SessionMessage>, b: Seq<SessionMessage>)
    ensures
        turn_count(a + b) == turn_count(a) + turn_count(b),
        a.len() == 1 ==> turn_count(a) == if a[0].role@ == "user"@ {
            1int
        } else {
            0int
        },
    decreases b.len(),
{
    if b.len() == 0 {
        assert(a + b =~= a);
    } else {
        turns_add_up(a, b.drop_last());
        assert((a + b).drop_last() =~= a + b.drop_last());
        assert((a + b).last() == b.last());
    }
    if a.len() == 1 {
        assert(a.drop_last() =~= Seq::<SessionMessage>::empty());
        assert(turn_count(a.drop_last()) == 0);
    }
}

/// A message belongs to the turn that the last message of the user before it, or
/// itself, has begun: it is within a range exactly where that turn is.
pub proof fn messages_belong_to_their_turn(
    messages: Seq<SessionMessage>,
    next: SessionMessage,
    start: u64,
    end: u64,
)
    ensures
        ({
            let t = turn_count(messages) + if next.role@ == "user"@ {
                1int
            } else {
                0int
            };
            range_messages(messages.push(next), start, end) == if 1 <= t && start <= t <= end {
                range_messages(messages, start, end).push(next)
            } else {
                range_messages(messages, start, end)
            }
        }),
{
    assert(messages.push(next).drop_last() =~= messages);
}

proof fn later_range_is_empty(messages: Seq<SessionMessage>, start: u64, end: u64)
    requires
        turn_count(messages) < start,
    ensures
        range_messages(messages, start, end).len() == 0,
    decreases messages.len(),
{
    if messages.len() > 0 {
        turn_count_bounds(messages);
        later_range_is_empty(messages.drop_last(), start, end);
    }
}

/// The messages of a range are those of its first part and then those of the rest.
pub proof fn ranges_can_be_parted(messages: Seq<SessionMessage>, start: u64, at: u64, end: u64)
    requires
        start <= at < end,
    ensures
        range_messages(messages, start, end) == range_messages(messages, start, at)
            + range_messages(messages, (at + 1) as u64, end),
    decreases messages.len(),
{
    let rest = (at + 1) as u64;
    if messages.len() > 0 {
        let less = messages.drop_last();
        ranges_can_be_parted(less, start, at, end);
        turn_count_bounds(messages);
        if turn_count(messages) <= at {
            later_range_is_empty(less, rest, end);
            later_range_is_empty(messages, rest, end);
        }
        assert(range_messages(messages, start, end) =~= range_messages(messages, start, at)
            + range_messages(messages, rest, end));
    } else {
        assert(range_messages(messages, start, end) =~= Seq::<SessionMessage>::empty());
        assert(range_messages(messages, start, at) + range_messages(messages, rest, end)
            =~= Seq::<SessionMessage>::empty());
    }
}

/// A transcript that begins with the user is whole in the range of all its turns.
pub proof fn a_whole_range_holds_all(messages: Seq<SessionMessage>, end: u64)
    requires
        messages.len() > 0 ==> messages[0].role@ == "user"@,
        turn_count(messages) <= end,
    ensures
        range_messages(messages, 1, end) == messages,
        messages.len() > 0 ==> turn_count(messages) >= 1,
    decreases messages.len(),
{
    if messages.len() > 0 {
        let less = messages.drop_last();
        turn_count_bounds(less);
        a_whole_range_holds_all(less, end);
        assert(messages =~= less.push(messages.last()));
        if less.len() == 0 {
            assert(messages.last() == messages[0]);
        }
    } else {
        assert(range_messages(messages, 1, end) =~= messages);
    }
}

/// No message after the checkpoint is lost: one behind the other, the turns after
/// it hold the messages of those turns.
pub proof fn turns_after_hold_their_messages(messages: Seq<SessionMessage>, from: u64)
    requires
        messages.len() < u64::MAX,
        from < u64::MAX,
    ensures
        all_messages(turns_after(messages, from as int)) == range_messages(
            messages,
            (from + 1) as u64,
            u64::MAX,
        ),
    decreases messages.len(),
{
    let turns = turns_after(messages, from as int);
    let start = (from + 1) as u64;
    turn_count_bounds(messages);
    if messages.len() == 0 {
        assert(turns =~= Seq::<TurnsModel>::empty());
    } else {
        let less = messages.drop_last();
        let last = messages.last();
        let before = turns_after(less, from as int);
        turns_after_hold_their_messages(less, from);
        turn_count_bounds(less);
        let n = turn_count(messages);
        assert(messages =~= less.push(last));
        if n <= from {
            assert(turns =~= Seq::<TurnsModel>::empty());
            assert(before =~= Seq::<TurnsModel>::empty());
        } else {
            let less_turns = turns.drop_last();
            assert forall|k: int| 0 <= k < less_turns.len() implies #[trigger] less_turns[k]
                == before[k] by {
                assert(turns[k].messages == turn_messages(messages, from + 1 + k));
            }
            if last.role@ == "user"@ {
                assert(less_turns =~= before);
                later_turn_is_empty(less, n);
                assert(turns.last().messages =~= seq![last]);
                assert(all_messages(turns) =~= all_messages(before).push(last));
            } else {
                assert(less_turns =~= before.drop_last());
                assert(turns.last().messages == before.last().messages.push(last));
                assert(all_messages(turns) =~= all_messages(before).push(last));
            }
        }
    }
}

/// Bytes add up over messages.
pub proof fn bytes_add_up(a: Seq<SessionMessage>, b: Seq<SessionMessage>)
    ensures
        message_bytes(a + b) == message_bytes(a) + message_bytes(b),
        a.len() == 1 ==> message_bytes(a) == text::utf8_len(a[0].content@),
{
    message_bytes_of_both(a, b);
    if a.len() == 1 {
        assert(a.drop_last() =~= Seq::<SessionMessage>::empty());
        assert(message_bytes(a.drop_last()) == 0);
    }
}

/// Two turns make one run exactly where the second follows the first directly,
/// both have at most 1600 bytes together, and their topics share two tokens; the
/// run is then both, one behind the other.
pub proof fn two_turns_on_one_topic(a: TurnsModel, b: TurnsModel)
    requires
        a.start_turn == a.end_turn,
    ensures
        ({
            let one = a.end_turn + 1 == b.start_turn && message_bytes(a.messages) + message_bytes(
                b.messages,
            ) <= 1600 && message_tokens(a.messages).intersect(message_tokens(b.messages)).len()
                >= 2;
            let runs = grouped_turns(seq![a, b]);
            &&& !one ==> runs == seq![a, b]
            &&& one ==> runs.len() == 1 && runs[0].start_turn == a.start_turn && runs[0].end_turn
                == b.end_turn && runs[0].messages == a.messages + b.messages
        }),
{
    let two = seq![a, b];
    let first = two.drop_last();
    assert(first =~= seq![a]);
    assert(first.drop_last() =~= Seq::<TurnsModel>::empty());
    assert(grouped_turns(first.drop_last()) == Seq::<TurnsModel>::empty());
    assert(grouped_turns(first) =~= seq![a]);
    assert(grouped_turns(first).push(b) =~= seq![a, b]);
}

/// A run of three turns takes no fourth.
pub proof fn full_runs_take_no_more(current: TurnsModel, next: TurnsModel)
    requires
        current.end_turn >= current.start_turn + 2,
    ensures
        !joins(current, next),
{
}

/// Records stand in the order of their first turns, those of one first turn in
/// the order of their last; each is there, and nothing else is.
pub proof fn records_stand_in_order(episodes: Seq<EpisodeStateRecord>)
    ensures
        by_range(episodes).len() == episodes.len(),
        forall|i: int, j: int|
            0 <= i < j < episodes.len() ==> {
                let a = #[trigger] by_range(episodes)[i];
                let b = #[trigger] by_range(episodes)[j];
                a.start_turn < b.start_turn || a.start_turn == b.start_turn && a.end_turn
                    <= b.end_turn
            },
        forall|k: int| 0 <= k < episodes.len() ==> by_range(episodes).contains(
            #[trigger] episodes[k],
        ),
        forall|k: int| 0 <= k < episodes.len() ==> episodes.contains(
            #[trigger] by_range(episodes)[k],
        ),
{
    let keys = range_keys(episodes);
    let p = seqs::stable_order(keys);
    seqs::stable_order_sorts(keys);
    seqs::stable_order_is_permutation(keys);
    let sorted = by_range(episodes);
    assert forall|i: int, j: int| 0 <= i < j < episodes.len() implies {
        let a = #[trigger] sorted[i];
        let b = #[trigger] sorted[j];
        a.start_turn < b.start_turn || a.start_turn == b.start_turn && a.end_turn <= b.end_turn
    } by {
        assert(keys[p[i]] <= keys[p[j]]);
        assert(range_key(sorted[i]) <= range_key(sorted[j]));
    }
    assert forall|k: int| 0 <= k < episodes.len() implies sorted.contains(
        #[trigger] episodes[k],
    ) by {
        assert(p.contains(k));
        let i = choose|i: int| 0 <= i < p.len() && p[i] == k;
        assert(sorted[i] == episodes[k]);
    }
    assert forall|k: int| 0 <= k < episodes.len() implies episodes.contains(
        #[trigger] sorted[k],
    ) by {
        assert(sorted[k] == episodes[p[k]]);
    }
}

/// The messages within a range are those of the turns within it, turn by turn.
pub proof fn turns_within_bring_their_messages(
    a: Seq<TurnsModel>,
    b: Seq<TurnsModel>,
    start: u64,
    end: u64,
)
    ensures
        messages_within(a + b, start, end) == messages_within(a, start, end) + messages_within(
            b,
            start,
            end,
        ),
        a.len() == 1 && start <= a[0].start_turn && a[0].end_turn <= end ==> messages_within(
            a,
            start,
            end,
        ) == a[0].messages,
        a.len() == 1 && !(start <= a[0].start_turn && a[0].end_turn <= end) ==> messages_within(
            a,
            start,
            end,
        ).len() == 0,
    decreases b.len(),
{
    if b.len() == 0 {
        assert(a + b =~= a);
        assert(messages_within(a, start, end) + messages_within(b, start, end)
            =~= messages_within(a, start, end));
    } else {
        turns_within_bring_their_messages(a, b.drop_last(), start, end);
        assert((a + b).drop_last() =~= a + b.drop_last());
        assert((a + b).last() == b.last());
        assert(messages_within(a + b, start, end) =~= messages_within(a, start, end)
            + messages_within(b, start, end));
    }
    if a.len() == 1 {
        assert(a.drop_last() =~= Seq::<TurnsModel>::empty());
        assert(messages_within(a.drop_last(), start, end) == Seq::<SessionMessage>::empty());
        if start <= a[0].start_turn && a[0].end_turn <= end {
            assert(messages_within(a, start, end) =~= a[0].messages);
        }
    }
}

/// The runs of two lots of records stand one behind the other; a record has one
/// run with its range and the messages within it, unless there is none.
pub proof fn records_bring_their_runs(
    turns: Seq<TurnsModel>,
    a: Seq<EpisodeStateRecord>,
    b: Seq<EpisodeStateRecord>,
)
    ensures
        runs_of_records(turns, a + b) == runs_of_records(turns, a) + runs_of_records(turns, b),
        a.len() == 1 ==> {
            let messages = messages_within(turns, a[0].start_turn, a[0].end_turn);
            &&& messages.len() == 0 ==> runs_of_records(turns, a).len() == 0
            &&& messages.len() > 0 ==> runs_of_records(turns, a).len() == 1 && runs_of_records(
                turns,
                a,
            )[0].start_turn == a[0].start_turn && runs_of_records(turns, a)[0].end_turn
                == a[0].end_turn && runs_of_records(turns, a)[0].messages == messages
        },
    decreases b.len(),
{
    if b.len() == 0 {
        assert(a + b =~= a);
        assert(runs_of_records(turns, a) + runs_of_records(turns, b) =~= runs_of_records(turns, a));
    } else {
        records_bring_their_runs(turns, a, b.drop_last());
        assert((a + b).drop_last() =~= a + b.drop_last());
        assert((a + b).last() == b.last());
        assert(runs_of_records(turns, a + b) =~= runs_of_records(turns, a) + runs_of_records(
            turns,
            b,
        ));
    }
    if a.len() == 1 {
        assert(a.drop_last() =~= Seq::<EpisodeStateRecord>::empty());
        assert(runs_of_records(turns, a.drop_last()) == Seq::<TurnsModel>::empty());
    }
}

/// A new batch is begun only where the next run would not fit the one before.
pub proof fn batches_are_filled(runs: Seq<TurnsModel>, max_turns: u64, i: int)
    requires
        0 <= i < batches(runs, max_turns as int).len() - 1,
    ensures
        batches(runs, max_turns as int)[i + 1].len() > 0,
        saturating_sum(
            batch_turns(batches(runs, max_turns as int)[i]),
            counted_turns(batches(runs, max_turns as int)[i + 1][0]),
        ) > max_turns,
    decreases runs.len(),
{
    let less = runs.drop_last();
    let before = batches(less, max_turns as int);
    let all = batches(runs, max_turns as int);
    batches_partition_the_runs(less, max_turns);
    if before.len() == 0 {
        assert(all =~= seq![seq![runs.last()]]);
    } else if saturating_sum(batch_turns(before.last()), counted_turns(runs.last())) > max_turns {
        if i + 1 < before.len() {
            batches_are_filled(less, max_turns, i);
            assert(all[i] == before[i] && all[i + 1] == before[i + 1]);
        } else {
            assert(all[i] == before.last());
            assert(all[i + 1] == seq![runs.last()]);
        }
    } else {
        batches_are_filled(less, max_turns, i);
        assert(all[i] == before[i]);
        assert(before[i + 1].len() > 0);
        if i + 1 < before.len() - 1 {
            assert(all[i + 1] == before[i + 1]);
        } else {
            assert(all[i + 1] == before[i + 1].push(runs.last()));
        }
    }
}

/// A batch counts the turns of its runs: a run of the turns from one to another
/// counts for each of them, and batches of few turns add up.
pub proof fn batches_count_their_turns(batch: Seq<TurnsModel>, run: TurnsModel)
    ensures
        batch_turns(Seq::empty()) == 0,
        run.start_turn <= run.end_turn && run.end_turn - run.start_turn < u64::MAX && batch_turns(
            batch,
        ) + (run.end_turn - run.start_turn + 1) <= u64::MAX ==> batch_turns(batch.push(run))
            == batch_turns(batch) + (run.end_turn - run.start_turn + 1),
        batch_turns(batch.push(run)) <= u64::MAX,
{
    assert(batch.push(run).drop_last() =~= batch);
}

/// The turns that are collected behind a checkpoint hold every message of those
/// turns, and there are none only where no turn is left.
pub proof fn collected_turns_hold_all(
    r: Option<(Vec<BoundaryFlushEpisode>, u64)>,
    entries: Seq<SessionEntry>,
    from: u64,
)
    requires
        collected_turns(r, entries, from),
        from < u64::MAX,
        timed_messages(entries).len() < u64::MAX,
    ensures
        r is None <==> turn_count(timed_messages(entries)) <= from,
        r matches Some((turns, count)) ==> {
            &&& count == turn_count(timed_messages(entries))
            &&& turns@.len() == count - from
            &&& all_messages(types::turns_models(turns@)) == range_messages(
                timed_messages(entries),
                (from + 1) as u64,
                u64::MAX,
            )
        },
{
    turns_after_hold_their_messages(timed_messages(entries), from);
    match r {
        Some((turns, count)) => {
            assert(types::turns_models(turns@).len() == turns@.len());
        },
        None => {},
    }
}

} // verus!
