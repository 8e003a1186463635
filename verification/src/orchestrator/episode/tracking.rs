//! How the memory state of a session moves on as turns end and episodes are flushed.

use crate::orchestrator::episode::boundary;
use crate::orchestrator::episode::types;
use crate::orchestrator::episode::types::{
    EpisodeBoundaryDecision, EpisodeModel, EpisodeStateRecord, EpisodeStatusRecord,
    EpisodeTaskStateRecord, EpisodeTurnInput, RecentExplicitMemoryWrite, SessionMemoryStateRecord,
};
use crate::orchestrator::messages::Timestamp;
use crate::seqs;
use crate::text;
use vstd::prelude::*;

verus! {

// Recording a turn

/// The position of the last open episode.
pub open spec fn last_open(episodes: Seq<EpisodeModel>) -> Option<int>
    decreases episodes.len(),
{
    if episodes.len() == 0 {
        None
    } else if episodes.last().status == EpisodeStatusRecord::Open {
        Some(episodes.len() - 1)
    } else {
        last_open(episodes.drop_last())
    }
}

/// The turns from the first of an episode to its last.
pub open spec fn episode_turns(episode: EpisodeModel) -> int {
    if episode.end_turn >= episode.start_turn {
        episode.end_turn - episode.start_turn + 1
    } else {
        1
    }
}

/// What a turn that has ended says.
pub struct TurnModel {
    pub turn_index: u64,
    pub user_text: Seq<char>,
    pub assistant_text: Seq<char>,
    pub successful_tool_calls: int,
    pub final_stop_reason: Option<Seq<char>>,
}

pub open spec fn turn_model(turn: EpisodeTurnInput) -> TurnModel {
    TurnModel {
        turn_index: turn.turn_index,
        user_text: turn.user_text@,
        assistant_text: turn.assistant_text@,
        successful_tool_calls: turn.successful_tool_calls as int,
        final_stop_reason: boundary::reason_text(turn.final_stop_reason),
    }
}

pub open spec fn turn_state(turn: TurnModel) -> EpisodeTaskStateRecord {
    boundary::task_state(turn.assistant_text, turn.successful_tool_calls, turn.final_stop_reason)
}

/// The episode that a turn opens.
pub open spec fn opened_episode(
    session_id: Seq<char>,
    turn: TurnModel,
    now: Timestamp,
) -> EpisodeModel {
    EpisodeModel {
        episode_id: session_id + ":"@ + text::decimal(turn.turn_index as nat),
        start_turn: turn.turn_index,
        end_turn: turn.turn_index,
        status: EpisodeStatusRecord::Open,
        task_state: turn_state(turn),
        topic_sketch: boundary::topic_sketch(turn.user_text),
        last_activity_at: now,
    }
}

/// The open episode with a turn added.
pub open spec fn continued_episode(
    episode: EpisodeModel,
    turn: TurnModel,
    now: Timestamp,
) -> EpisodeModel {
    let sketch = boundary::topic_sketch(turn.user_text);
    EpisodeModel {
        end_turn: turn.turn_index,
        topic_sketch: if sketch.len() == 0 {
            episode.topic_sketch
        } else {
            sketch
        },
        task_state: turn_state(turn),
        last_activity_at: now,
        ..episode
    }
}

pub open spec fn closed_episode(episode: EpisodeModel, now: Timestamp) -> EpisodeModel {
    EpisodeModel { status: EpisodeStatusRecord::Closed, last_activity_at: now, ..episode }
}

/// Whether the turn goes on with the episode.
pub open spec fn turn_continues(episode: EpisodeModel, turn: TurnModel) -> bool {
    boundary::boundary_decision(
        boundary::topic_tokens(episode.topic_sketch),
        boundary::topic_tokens(boundary::topic_sketch(turn.user_text)),
        episode_turns(episode),
    ) == EpisodeBoundaryDecision::ContinueCurrent
}

/// The episodes after a turn: the last open one is continued, or it is closed
/// and another opened; without an open one, one is opened.
pub open spec fn recorded_turn(
    episodes: Seq<EpisodeModel>,
    session_id: Seq<char>,
    turn: TurnModel,
    now: Timestamp,
) -> Seq<EpisodeModel> {
    match last_open(episodes) {
        None => episodes.push(opened_episode(session_id, turn, now)),
        Some(i) => if turn_continues(episodes[i], turn) {
            episodes.update(i, continued_episode(episodes[i], turn, now))
        } else {
            episodes.update(i, closed_episode(episodes[i], now)).push(
                opened_episode(session_id, turn, now),
            )
        },
    }
}

/// The episode that the turn closes, where it closes one.
pub open spec fn closed_by_turn(
    episodes: Seq<EpisodeModel>,
    turn: TurnModel,
    now: Timestamp,
) -> Option<EpisodeModel> {
    match last_open(episodes) {
        None => None,
        Some(i) => if turn_continues(episodes[i], turn) {
            None
        } else {
            Some(closed_episode(episodes[i], now))
        },
    }
}

fn find_last_open(episodes: &Vec<EpisodeStateRecord>) -> (r: Option<usize>)
    ensures
        match r {
            Some(i) => i < episodes@.len() && last_open(types::episode_models(episodes@)) == Some(
                i as int,
            ),
            None => last_open(types::episode_models(episodes@)) is None,
        },
{
    let ghost all = types::episode_models(episodes@);
    let mut j: usize = episodes.len();
    assert(all.take(j as int) == all);
    while j > 0
        invariant
            all == types::episode_models(episodes@),
            j <= episodes@.len(),
            last_open(all) == last_open(all.take(j as int)),
        decreases j,
    {
        assert(all.take(j as int).last() == episodes@[j - 1]@);
        assert(all.take(j as int).drop_last() == all.take(j - 1));
        if episodes[j - 1].status == EpisodeStatusRecord::Open {
            return Some(j - 1);
        }
        j = j - 1;
    }
    None
}

fn episode_id_of(session_id: &str, turn_index: u64) -> (r: String)
    ensures
        r@ == session_id@ + ":"@ + text::decimal(turn_index as nat),
{
    let mut id = session_id.to_owned();
    id.append(":");
    id.append(text::decimal_of(turn_index as u128).as_str());
    id
}

fn open_episode(
    session_id: &str,
    turn: &EpisodeTurnInput,
    sketch: String,
    task_state: EpisodeTaskStateRecord,
    now: Timestamp,
) -> (r: EpisodeStateRecord)
    requires
        sketch@ == boundary::topic_sketch(turn.user_text@),
        task_state == turn_state(turn_model(*turn)),
    ensures
        r@ == opened_episode(session_id@, turn_model(*turn), now),
{
    EpisodeStateRecord {
        episode_id: episode_id_of(session_id, turn.turn_index),
        start_turn: turn.turn_index,
        end_turn: turn.turn_index,
        status: EpisodeStatusRecord::Open,
        task_state,
        topic_sketch: sketch,
        last_activity_at: now,
    }
}

proof fn models_push(s: Seq<EpisodeStateRecord>, e: EpisodeStateRecord)
    ensures
        types::episode_models(s.push(e)) == types::episode_models(s).push(e@),
{
}

/// Only the episodes of the state are different.
pub open spec fn only_episodes_differ(
    after: SessionMemoryStateRecord,
    before: SessionMemoryStateRecord,
) -> bool {
    &&& after.same_session(before)
    &&& after.last_flushed_turn == before.last_flushed_turn
    &&& after.last_boundary_flush_at == before.last_boundary_flush_at
    &&& after.pending_flush == before.pending_flush
    &&& after.recent_explicit_writes == before.recent_explicit_writes
}

/// Records a turn of the session, and returns the episode that it closes.
pub fn record_session_turn_episode(
    state: &mut SessionMemoryStateRecord,
    session_id: &str,
    turn: &EpisodeTurnInput,
    now: Timestamp,
) -> (closed: Option<EpisodeStateRecord>)
    ensures
        only_episodes_differ(*final(state), *old(state)),
        types::episode_models(final(state).open_episodes@) == recorded_turn(
            types::episode_models(old(state).open_episodes@),
            session_id@,
            turn_model(*turn),
            now,
        ),
        match closed {
            Some(e) => closed_by_turn(
                types::episode_models(old(state).open_episodes@),
                turn_model(*turn),
                now,
            ) == Some(e@),
            None => closed_by_turn(
                types::episode_models(old(state).open_episodes@),
                turn_model(*turn),
                now,
            ) is None,
        },
{
    let ghost before = types::episode_models(state.open_episodes@);
    let sketch = boundary::build_episode_topic_sketch(turn.user_text);
    let next_tokens = boundary::boundary_flush_topic_tokens_from_text(sketch.as_str());
    match find_last_open(&state.open_episodes) {
        None => {
            let task_state = boundary::infer_episode_task_state(
                turn.assistant_text,
                turn.successful_tool_calls,
                turn.final_stop_reason,
            );
            let opened = open_episode(session_id, turn, sketch, task_state, now);
            proof {
                models_push(state.open_episodes@, opened);
            }
            state.open_episodes.push(opened);
            None
        },
        Some(i) => {
            let mut episode = state.open_episodes[i].copy();
            assert(before[i as int] == episode@);
            let current_tokens = boundary::boundary_flush_topic_tokens_from_text(
                episode.topic_sketch.as_str(),
            );
            let span: u64 = if episode.end_turn >= episode.start_turn {
                episode.end_turn - episode.start_turn
            } else {
                0
            };
            let turns: u64 = span.saturating_add(1);
            let decision = boundary::decide_episode_turn(
                &current_tokens,
                &next_tokens,
                turn.assistant_text,
                turn.successful_tool_calls,
                turn.final_stop_reason,
                episode.task_state,
                turns,
            );
            assert(decision.boundary == boundary::boundary_decision(
                current_tokens@,
                next_tokens@,
                episode_turns(episode@),
            ));
            match decision.boundary {
                EpisodeBoundaryDecision::ContinueCurrent => {
                    episode.end_turn = turn.turn_index;
                    if !sketch.as_str().is_empty() {
                        episode.topic_sketch = sketch;
                    }
                    episode.task_state = decision.task_state;
                    episode.last_activity_at = now;
                    let ghost changed = episode@;
                    state.open_episodes[i] = episode;
                    assert(types::episode_models(state.open_episodes@) == before.update(
                        i as int,
                        changed,
                    ));
                    None
                },
                EpisodeBoundaryDecision::CloseCurrentAndOpenNext => {
                    episode.status = EpisodeStatusRecord::Closed;
                    episode.last_activity_at = now;
                    let closed = episode.copy();
                    let ghost changed = episode@;
                    state.open_episodes[i] = episode;
                    assert(types::episode_models(state.open_episodes@) == before.update(
                        i as int,
                        changed,
                    ));
                    let opened = open_episode(session_id, turn, sketch, decision.task_state, now);
                    proof {
                        models_push(state.open_episodes@, opened);
                    }
                    state.open_episodes.push(opened);
                    Some(closed)
                },
            }
        },
    }
}

/// No more than one episode is open.
pub open spec fn one_open(episodes: Seq<EpisodeModel>) -> bool {
    forall|i: int, j: int|
        0 <= i < j < episodes.len() ==> !((#[trigger] episodes[i]).status
            == EpisodeStatusRecord::Open && (#[trigger] episodes[j]).status
            == EpisodeStatusRecord::Open)
}

proof fn last_open_is_open(episodes: Seq<EpisodeModel>)
    ensures
        match last_open(episodes) {
            Some(i) => {
                &&& 0 <= i < episodes.len()
                &&& episodes[i].status == EpisodeStatusRecord::Open
                &&& forall|k: int|
                    i < k < episodes.len() ==> (#[trigger] episodes[k]).status
                        != EpisodeStatusRecord::Open
            },
            None => forall|k: int|
                0 <= k < episodes.len() ==> (#[trigger] episodes[k]).status
                    != EpisodeStatusRecord::Open,
        },
    decreases episodes.len(),
{
    if episodes.len() > 0 && episodes.last().status != EpisodeStatusRecord::Open {
        let less = episodes.drop_last();
        last_open_is_open(less);
        assert forall|k: int| 0 <= k < less.len() implies less[k] == episodes[k] by {}
    }
}

/// Recording a turn keeps a session at one open episode at most, and leaves one
/// open that ends with the turn.
pub proof fn recording_keeps_one_open_episode(
    episodes: Seq<EpisodeModel>,
    session_id: Seq<char>,
    turn: TurnModel,
    now: Timestamp,
)
    requires
        one_open(episodes),
    ensures
        one_open(recorded_turn(episodes, session_id, turn, now)),
        last_open(recorded_turn(episodes, session_id, turn, now)) matches Some(i) && recorded_turn(
            episodes,
            session_id,
            turn,
            now,
        )[i].end_turn == turn.turn_index,
{
    let after = recorded_turn(episodes, session_id, turn, now);
    last_open_is_open(episodes);
    last_open_is_open(after);
    let opened = opened_episode(session_id, turn, now);
    match last_open(episodes) {
        None => {
            assert(after[after.len() - 1] == opened);
        },
        Some(i) => {
            if turn_continues(episodes[i], turn) {
                assert(after[i].status == EpisodeStatusRecord::Open);
                assert forall|k: int| 0 <= k < after.len() && k != i implies after[k]
                    == episodes[k] by {}
            } else {
                assert(after[after.len() - 1] == opened);
                assert forall|k: int| 0 <= k < episodes.len() && k != i implies after[k]
                    == episodes[k] by {}
                assert(after[i] == closed_episode(episodes[i], now));
                assert forall|k: int| 0 <= k < episodes.len() implies (#[trigger] after[k]).status
                    != EpisodeStatusRecord::Open by {
                    if k < i {
                        assert(episodes[k].status != EpisodeStatusRecord::Open);
                    } else if k > i {
                        assert(episodes[k].status != EpisodeStatusRecord::Open);
                    }
                }
            }
        },
    }
}

/// While turns follow one another, the open episode stays within its cap.
pub proof fn recording_keeps_the_turn_cap(
    episodes: Seq<EpisodeModel>,
    session_id: Seq<char>,
    turn: TurnModel,
    now: Timestamp,
)
    requires
        last_open(episodes) matches Some(i) ==> {
            &&& episodes[i].start_turn <= episodes[i].end_turn
            &&& turn.turn_index == episodes[i].end_turn + 1
        },
    ensures
        last_open(recorded_turn(episodes, session_id, turn, now)) matches Some(i) && episode_turns(
            recorded_turn(episodes, session_id, turn, now)[i],
        ) <= boundary::MAX_OPEN_EPISODE_TURNS,
{
    let after = recorded_turn(episodes, session_id, turn, now);
    last_open_is_open(episodes);
    last_open_is_open(after);
    match last_open(episodes) {
        None => {
            assert(after[after.len() - 1] == opened_episode(session_id, turn, now));
        },
        Some(i) => {
            if turn_continues(episodes[i], turn) {
                assert(after[i] == continued_episode(episodes[i], turn, now));
                assert forall|k: int| i < k < after.len() implies after[k] == episodes[k] by {}
            } else {
                assert(after[after.len() - 1] == opened_episode(session_id, turn, now));
            }
        },
    }
}

// The end of a session

/// The episode, closed where it was open.
pub open spec fn ended_episode(episode: EpisodeModel, now: Timestamp) -> EpisodeModel {
    if episode.status == EpisodeStatusRecord::Open {
        closed_episode(episode, now)
    } else {
        episode
    }
}

/// Closes every open episode, and says whether there was one.
pub fn close_open_episodes_for_session_end(
    state: &mut SessionMemoryStateRecord,
    now: Timestamp,
) -> (changed: bool)
    ensures
        only_episodes_differ(*final(state), *old(state)),
        types::episode_models(final(state).open_episodes@) == types::episode_models(
            old(state).open_episodes@,
        ).map_values(|e: EpisodeModel| ended_episode(e, now)),
        changed == exists|i: int|
            0 <= i < old(state).open_episodes@.len() && (#[trigger] old(
                state,
            ).open_episodes@[i]).status == EpisodeStatusRecord::Open,
{
    let ghost start = *state;
    let ghost all = types::episode_models(state.open_episodes@);
    let mut changed = false;
    let n: usize = state.open_episodes.len();
    for i in 0..n
        invariant
            n == state.open_episodes@.len(),
            n == start.open_episodes@.len(),
            all == types::episode_models(start.open_episodes@),
            only_episodes_differ(*state, start),
            forall|k: int|
                0 <= k < i ==> (#[trigger] state.open_episodes@[k])@ == ended_episode(all[k], now),
            forall|k: int|
                i <= k < n ==> #[trigger] state.open_episodes@[k] == start.open_episodes@[k],
            changed == exists|k: int|
                0 <= k < i && (#[trigger] start.open_episodes@[k]).status
                    == EpisodeStatusRecord::Open,
    {
        assert(state.open_episodes@[i as int] == start.open_episodes@[i as int]);
        assert(all[i as int] == start.open_episodes@[i as int]@);
        if state.open_episodes[i].status == EpisodeStatusRecord::Open {
            let mut episode = state.open_episodes[i].copy();
            episode.status = EpisodeStatusRecord::Closed;
            episode.last_activity_at = now;
            state.open_episodes[i] = episode;
            changed = true;
            assert(start.open_episodes@[i as int].status == EpisodeStatusRecord::Open);
        }
    }
    assert(types::episode_models(state.open_episodes@) == all.map_values(
        |e: EpisodeModel| ended_episode(e, now),
    ));
    changed
}

/// After the end of a session no episode is open, and those that were not open
/// are as they were.
pub proof fn session_end_leaves_no_open_episode(episodes: Seq<EpisodeModel>, now: Timestamp)
    ensures
        last_open(episodes.map_values(|e: EpisodeModel| ended_episode(e, now))) is None,
        forall|i: int|
            0 <= i < episodes.len() && (#[trigger] episodes[i]).status != EpisodeStatusRecord::Open
                ==> ended_episode(episodes[i], now) == episodes[i],
{
    let after = episodes.map_values(|e: EpisodeModel| ended_episode(e, now));
    last_open_is_open(after);
}

/// The episodes that are flushed when a session ends: those neither flushed nor
/// pending, by their ranges.
pub open spec fn session_end_order(episodes: Seq<EpisodeStateRecord>) -> Seq<EpisodeStateRecord> {
    boundary::by_range(
        episodes.filter(
            |e: EpisodeStateRecord|
                e.status != EpisodeStatusRecord::Flushed && e.status
                    != EpisodeStatusRecord::FlushPending,
        ),
    )
}

pub fn session_end_episodes(state: &SessionMemoryStateRecord) -> (r: Vec<EpisodeStateRecord>)
    ensures
        r@ == session_end_order(state.open_episodes@),
{
    let mut due: Vec<EpisodeStateRecord> = Vec::new();
    let n: usize = state.open_episodes.len();
    let ghost all = state.open_episodes@;
    let ghost keep = |e: EpisodeStateRecord|
        e.status != EpisodeStatusRecord::Flushed && e.status != EpisodeStatusRecord::FlushPending;
    proof {
        seqs::filter_start(all, keep);
    }
    for i in 0..n
        invariant
            n == state.open_episodes@.len(),
            all == state.open_episodes@,
            keep == (|e: EpisodeStateRecord|
                e.status != EpisodeStatusRecord::Flushed && e.status
                    != EpisodeStatusRecord::FlushPending),
            due@ == all.take(i as int).filter(keep),
    {
        proof {
            seqs::filter_step(all, keep, i as int);
        }
        if state.open_episodes[i].status != EpisodeStatusRecord::Flushed
            && state.open_episodes[i].status != EpisodeStatusRecord::FlushPending {
            due.push(state.open_episodes[i].copy());
        }
    }
    assert(all.take(n as int) == all);
    boundary::sort_by_range(&due)
}

/// The closed episodes whose task was delivered, by their ranges.
pub open spec fn delivered_order(episodes: Seq<EpisodeStateRecord>) -> Seq<EpisodeStateRecord> {
    boundary::by_range(
        episodes.filter(
            |e: EpisodeStateRecord|
                e.status == EpisodeStatusRecord::Closed && e.task_state
                    == EpisodeTaskStateRecord::Delivered,
        ),
    )
}

pub fn delivered_episodes(state: &SessionMemoryStateRecord) -> (r: Vec<EpisodeStateRecord>)
    ensures
        r@ == delivered_order(state.open_episodes@),
{
    let mut due: Vec<EpisodeStateRecord> = Vec::new();
    let n: usize = state.open_episodes.len();
    let ghost all = state.open_episodes@;
    let ghost keep = |e: EpisodeStateRecord|
        e.status == EpisodeStatusRecord::Closed && e.task_state
            == EpisodeTaskStateRecord::Delivered;
    proof {
        seqs::filter_start(all, keep);
    }
    for i in 0..n
        invariant
            n == state.open_episodes@.len(),
            all == state.open_episodes@,
            keep == (|e: EpisodeStateRecord|
                e.status == EpisodeStatusRecord::Closed && e.task_state
                    == EpisodeTaskStateRecord::Delivered),
            due@ == all.take(i as int).filter(keep),
    {
        proof {
            seqs::filter_step(all, keep, i as int);
        }
        if state.open_episodes[i].status == EpisodeStatusRecord::Closed
            && state.open_episodes[i].task_state == EpisodeTaskStateRecord::Delivered {
            due.push(state.open_episodes[i].copy());
        }
    }
    assert(all.take(n as int) == all);
    boundary::sort_by_range(&due)
}

// Flushes of single episodes

/// The position of the first episode with the identifier.
pub open spec fn episode_at(episodes: Seq<EpisodeModel>, id: Seq<char>) -> Option<int>
    decreases episodes.len(),
{
    if episodes.len() == 0 {
        None
    } else {
        match episode_at(episodes.drop_last(), id) {
            Some(i) => Some(i),
            None => if episodes.last().episode_id == id {
                Some(episodes.len() - 1)
            } else {
                None
            },
        }
    }
}

proof fn episode_at_is_found(episodes: Seq<EpisodeModel>, id: Seq<char>)
    ensures
        episode_at(episodes, id) matches Some(i) ==> 0 <= i < episodes.len()
            && episodes[i].episode_id == id,
    decreases episodes.len(),
{
    if episodes.len() > 0 {
        episode_at_is_found(episodes.drop_last(), id);
    }
}

fn find_episode(episodes: &Vec<EpisodeStateRecord>, id: &str) -> (r: Option<usize>)
    ensures
        match r {
            Some(i) => i < episodes@.len() && episode_at(types::episode_models(episodes@), id@)
                == Some(i as int),
            None => episode_at(types::episode_models(episodes@), id@) is None,
        },
{
    let ghost all = types::episode_models(episodes@);
    let mut found: Option<usize> = None;
    let n: usize = episodes.len();
    for i in 0..n
        invariant
            n == episodes@.len(),
            all == types::episode_models(episodes@),
            match found {
                Some(k) => k < i && episode_at(all.take(i as int), id@) == Some(k as int),
                None => episode_at(all.take(i as int), id@) is None,
            },
    {
        assert(all.take(i + 1).drop_last() == all.take(i as int));
        assert(all.take(i + 1).last() == episodes@[i as int]@);
        if found.is_none() && text::same_text(episodes[i].episode_id.as_str(), id) {
            found = Some(i);
        }
    }
    assert(all.take(n as int) == all);
    found
}

pub open spec fn pending_episode(episode: EpisodeModel, now: Timestamp) -> EpisodeModel {
    EpisodeModel { status: EpisodeStatusRecord::FlushPending, last_activity_at: now, ..episode }
}

/// The episodes with one marked as being flushed.
pub open spec fn marked_pending(
    episodes: Seq<EpisodeModel>,
    id: Seq<char>,
    now: Timestamp,
) -> Seq<EpisodeModel> {
    match episode_at(episodes, id) {
        None => episodes,
        Some(i) => episodes.update(i, pending_episode(episodes[i], now)),
    }
}

/// Marks an episode as being flushed.
pub fn mark_flush_pending(state: &mut SessionMemoryStateRecord, episode_id: &str, now: Timestamp)
    ensures
        only_episodes_differ(*final(state), *old(state)),
        types::episode_models(final(state).open_episodes@) == marked_pending(
            types::episode_models(old(state).open_episodes@),
            episode_id@,
            now,
        ),
{
    let ghost before = types::episode_models(state.open_episodes@);
    match find_episode(&state.open_episodes, episode_id) {
        None => {},
        Some(i) => {
            let mut episode = state.open_episodes[i].copy();
            assert(before[i as int] == episode@);
            episode.status = EpisodeStatusRecord::FlushPending;
            episode.last_activity_at = now;
            let ghost changed = episode@;
            state.open_episodes[i] = episode;
            assert(types::episode_models(state.open_episodes@) == before.update(
                i as int,
                changed,
            ));
        },
    }
}

/// The episode after its flush: flushed on success; on failure closed again
/// where the flush was pending.
pub open spec fn settled_episode(
    episode: EpisodeModel,
    success: bool,
    now: Timestamp,
) -> EpisodeModel {
    if success {
        EpisodeModel { status: EpisodeStatusRecord::Flushed, ..episode }
    } else if episode.status == EpisodeStatusRecord::FlushPending {
        closed_episode(episode, now)
    } else {
        episode
    }
}

pub open spec fn settled(
    episodes: Seq<EpisodeModel>,
    id: Seq<char>,
    success: bool,
    now: Timestamp,
) -> Seq<EpisodeModel> {
    match episode_at(episodes, id) {
        None => episodes,
        Some(i) => episodes.update(i, settled_episode(episodes[i], success, now)),
    }
}

/// The first flushed episode that begins with the turn.
pub open spec fn flushed_from(episodes: Seq<EpisodeModel>, turn: int) -> Option<int>
    decreases episodes.len(),
{
    if episodes.len() == 0 {
        None
    } else {
        match flushed_from(episodes.drop_last(), turn) {
            Some(i) => Some(i),
            None => if episodes.last().status == EpisodeStatusRecord::Flushed
                && episodes.last().start_turn == turn {
                Some(episodes.len() - 1)
            } else {
                None
            },
        }
    }
}

/// The checkpoint moved on over flushed episodes that follow one another.
pub open spec fn advanced(episodes: Seq<EpisodeModel>, checkpoint: int) -> int
    decreases u64::MAX - checkpoint,
{
    match flushed_from(episodes, checkpoint + 1) {
        None => checkpoint,
        Some(i) => if checkpoint < episodes[i].end_turn {
            advanced(episodes, episodes[i].end_turn as int)
        } else {
            checkpoint
        },
    }
}

/// The checkpoint can move on no further than it does: no flushed episode begins
/// right behind where it stops.
pub open spec fn comes_to_rest(episodes: Seq<EpisodeModel>, checkpoint: int) -> bool {
    let end = advanced(episodes, checkpoint);
    flushed_from(
        episodes,
        if end < u64::MAX {
            end + 1
        } else {
            u64::MAX as int
        },
    ) is None
}

/// Episodes begin before they end, and end before the last turn that can be counted.
pub open spec fn ranges_ordered(episodes: Seq<EpisodeModel>) -> bool {
    forall|i: int|
        0 <= i < episodes.len() ==> (#[trigger] episodes[i]).start_turn <= episodes[i].end_turn
            < u64::MAX
}

proof fn flushed_from_is_flushed(episodes: Seq<EpisodeModel>, turn: int)
    ensures
        flushed_from(episodes, turn) matches Some(i) ==> {
            &&& 0 <= i < episodes.len()
            &&& episodes[i].status == EpisodeStatusRecord::Flushed
            &&& episodes[i].start_turn == turn
        },
        flushed_from(episodes, turn) is None ==> forall|k: int|
            0 <= k < episodes.len() ==> !((#[trigger] episodes[k]).status
                == EpisodeStatusRecord::Flushed && episodes[k].start_turn == turn),
    decreases episodes.len(),
{
    if episodes.len() > 0 {
        let less = episodes.drop_last();
        flushed_from_is_flushed(less, turn);
        assert forall|k: int| 0 <= k < less.len() implies less[k] == episodes[k] by {}
    }
}

fn find_flushed_from(episodes: &Vec<EpisodeStateRecord>, turn: u64) -> (r: Option<usize>)
    ensures
        match r {
            Some(i) => i < episodes@.len() && flushed_from(
                types::episode_models(episodes@),
                turn as int,
            ) == Some(i as int),
            None => flushed_from(types::episode_models(episodes@), turn as int) is None,
        },
{
    let ghost all = types::episode_models(episodes@);
    let mut found: Option<usize> = None;
    let n: usize = episodes.len();
    for i in 0..n
        invariant
            n == episodes@.len(),
            all == types::episode_models(episodes@),
            match found {
                Some(k) => k < i && flushed_from(all.take(i as int), turn as int) == Some(k as int),
                None => flushed_from(all.take(i as int), turn as int) is None,
            },
    {
        assert(all.take(i + 1).drop_last() == all.take(i as int));
        assert(all.take(i + 1).last() == episodes@[i as int]@);
        if found.is_none() && episodes[i].status == EpisodeStatusRecord::Flushed
            && episodes[i].start_turn == turn {
            found = Some(i);
        }
    }
    assert(all.take(n as int) == all);
    found
}

fn advance_checkpoint(episodes: &Vec<EpisodeStateRecord>, from: u64) -> (r: u64)
    requires
        comes_to_rest(types::episode_models(episodes@), from as int),
    ensures
        r == advanced(types::episode_models(episodes@), from as int),
        r >= from,
{
    let ghost all = types::episode_models(episodes@);
    let mut checkpoint: u64 = from;
    loop
        invariant
            all == types::episode_models(episodes@),
            comes_to_rest(all, from as int),
            advanced(all, from as int) == advanced(all, checkpoint as int),
            checkpoint >= from,
        decreases u64::MAX - checkpoint,
    {
        proof {
            flushed_from_is_flushed(all, checkpoint + 1);
        }
        match find_flushed_from(episodes, checkpoint.saturating_add(1)) {
            None => {
                return checkpoint;
            },
            Some(i) => {
                assert(all[i as int] == episodes@[i as int]@);
                assert(checkpoint < u64::MAX && checkpoint < all[i as int].end_turn);
                checkpoint = episodes[i].end_turn;
            },
        }
    }
}

/// The memories written on request after the turn.
pub open spec fn writes_after(
    writes: Seq<RecentExplicitMemoryWrite>,
    turn: u64,
) -> Seq<RecentExplicitMemoryWrite> {
    writes.filter(|w: RecentExplicitMemoryWrite| w.turn_index > turn)
}

fn keep_writes_after(writes: &Vec<RecentExplicitMemoryWrite>, turn: u64) -> (r: Vec<
    RecentExplicitMemoryWrite,
>)
    ensures
        r@ == writes_after(writes@, turn),
{
    let mut out: Vec<RecentExplicitMemoryWrite> = Vec::new();
    let n: usize = writes.len();
    let ghost keep = |w: RecentExplicitMemoryWrite| w.turn_index > turn;
    proof {
        seqs::filter_start(writes@, keep);
    }
    for i in 0..n
        invariant
            n == writes@.len(),
            keep == (|w: RecentExplicitMemoryWrite| w.turn_index > turn),
            out@ == writes@.take(i as int).filter(keep),
    {
        proof {
            seqs::filter_step(writes@, keep, i as int);
        }
        if writes[i].turn_index > turn {
            out.push(writes[i].copy());
        }
    }
    assert(writes@.take(n as int) == writes@);
    out
}

/// The episodes that the checkpoint has not left behind as flushed.
pub open spec fn episodes_left(episodes: Seq<EpisodeModel>, checkpoint: int) -> Seq<EpisodeModel> {
    episodes.filter(
        |e: EpisodeModel|
            !(e.status == EpisodeStatusRecord::Flushed && e.end_turn <= checkpoint),
    )
}

/// The episodes that end after the turn.
pub open spec fn episodes_after(episodes: Seq<EpisodeModel>, turn: u64) -> Seq<EpisodeModel> {
    episodes.filter(|e: EpisodeModel| e.end_turn > turn)
}

fn keep_episodes_left(episodes: &Vec<EpisodeStateRecord>, checkpoint: u64) -> (r: Vec<
    EpisodeStateRecord,
>)
    ensures
        types::episode_models(r@) == episodes_left(
            types::episode_models(episodes@),
            checkpoint as int,
        ),
{
    let ghost all = types::episode_models(episodes@);
    let mut out: Vec<EpisodeStateRecord> = Vec::new();
    let n: usize = episodes.len();
    let ghost keep = |e: EpisodeModel|
        !(e.status == EpisodeStatusRecord::Flushed && e.end_turn <= checkpoint as int);
    proof {
        seqs::filter_start(all, keep);
        assert(types::episode_models(out@) =~= Seq::<EpisodeModel>::empty());
    }
    for i in 0..n
        invariant
            n == episodes@.len(),
            all == types::episode_models(episodes@),
            keep == (|e: EpisodeModel|
                !(e.status == EpisodeStatusRecord::Flushed && e.end_turn <= checkpoint as int)),
            types::episode_models(out@) == all.take(i as int).filter(keep),
    {
        assert(all[i as int] == episodes@[i as int]@);
        proof {
            seqs::filter_step(all, keep, i as int);
        }
        if !(episodes[i].status == EpisodeStatusRecord::Flushed && episodes[i].end_turn
            <= checkpoint) {
            let kept = episodes[i].copy();
            proof {
                models_push(out@, kept);
            }
            out.push(kept);
        }
    }
    assert(all.take(n as int) == all);
    out
}

fn keep_episodes_after(episodes: &Vec<EpisodeStateRecord>, turn: u64) -> (r: Vec<
    EpisodeStateRecord,
>)
    ensures
        types::episode_models(r@) == episodes_after(types::episode_models(episodes@), turn),
{
    let ghost all = types::episode_models(episodes@);
    let mut out: Vec<EpisodeStateRecord> = Vec::new();
    let n: usize = episodes.len();
    let ghost keep = |e: EpisodeModel| e.end_turn > turn;
    proof {
        seqs::filter_start(all, keep);
        assert(types::episode_models(out@) =~= Seq::<EpisodeModel>::empty());
    }
    for i in 0..n
        invariant
            n == episodes@.len(),
            all == types::episode_models(episodes@),
            keep == (|e: EpisodeModel| e.end_turn > turn),
            types::episode_models(out@) == all.take(i as int).filter(keep),
    {
        assert(all[i as int] == episodes@[i as int]@);
        proof {
            seqs::filter_step(all, keep, i as int);
        }
        if episodes[i].end_turn > turn {
            let kept = episodes[i].copy();
            proof {
                models_push(out@, kept);
            }
            out.push(kept);
        }
    }
    assert(all.take(n as int) == all);
    out
}

/// Settles the flush of an episode: marks the episode, and on success moves the
/// checkpoint on over what is flushed and drops what lies behind it.
pub fn update_closed_episode_flush_state(
    state: &mut SessionMemoryStateRecord,
    episode_id: &str,
    success: bool,
    now: Timestamp,
)
    requires
        success ==> comes_to_rest(
            settled(
                types::episode_models(old(state).open_episodes@),
                episode_id@,
                success,
                now,
            ),
            old(state).last_flushed_turn as int,
        ),
    ensures
        final(state).same_session(*old(state)),
        final(state).pending_flush == old(state).pending_flush,
        ({
            let marked = settled(
                types::episode_models(old(state).open_episodes@),
                episode_id@,
                success,
                now,
            );
            let checkpoint = advanced(marked, old(state).last_flushed_turn as int);
            if !success || checkpoint <= old(state).last_flushed_turn {
                &&& types::episode_models(final(state).open_episodes@) == marked
                &&& final(state).last_flushed_turn == old(state).last_flushed_turn
                &&& final(state).recent_explicit_writes@ == old(state).recent_explicit_writes@
            } else {
                &&& types::episode_models(final(state).open_episodes@) == episodes_left(
                    marked,
                    checkpoint,
                )
                &&& final(state).last_flushed_turn == checkpoint
                &&& final(state).recent_explicit_writes@ == writes_after(
                    old(state).recent_explicit_writes@,
                    checkpoint as u64,
                )
            }
        }),
        final(state).last_boundary_flush_at == (if success {
            Some(now)
        } else {
            old(state).last_boundary_flush_at
        }),
{
    let ghost before = types::episode_models(state.open_episodes@);
    match find_episode(&state.open_episodes, episode_id) {
        None => {},
        Some(i) => {
            let mut episode = state.open_episodes[i].copy();
            assert(before[i as int] == episode@);
            if success {
                episode.status = EpisodeStatusRecord::Flushed;
            } else if episode.status == EpisodeStatusRecord::FlushPending {
                episode.status = EpisodeStatusRecord::Closed;
                episode.last_activity_at = now;
            }
            let ghost changed = episode@;
            state.open_episodes[i] = episode;
            assert(types::episode_models(state.open_episodes@) == before.update(
                i as int,
                changed,
            ));
        },
    }
    let ghost marked = types::episode_models(state.open_episodes@);
    assert(marked == settled(before, episode_id@, success, now));
    if success {
        let checkpoint = advance_checkpoint(&state.open_episodes, state.last_flushed_turn);
        if checkpoint > state.last_flushed_turn {
            state.last_flushed_turn = checkpoint;
            let writes = keep_writes_after(&state.recent_explicit_writes, checkpoint);
            state.recent_explicit_writes = writes;
            let episodes = keep_episodes_left(&state.open_episodes, checkpoint);
            state.open_episodes = episodes;
        }
        state.last_boundary_flush_at = Some(now);
    }
}

/// A flushed episode covers the turn.
pub open spec fn covered(episodes: Seq<EpisodeModel>, turn: int) -> bool {
    exists|i: int|
        0 <= i < episodes.len() && (#[trigger] episodes[i]).status == EpisodeStatusRecord::Flushed
            && episodes[i].start_turn <= turn <= episodes[i].end_turn
}

/// The checkpoint never moves back, and it passes only turns that a flushed
/// episode covers.
pub proof fn checkpoint_passes_only_flushed_turns(episodes: Seq<EpisodeModel>, checkpoint: int)
    requires
        0 <= checkpoint <= u64::MAX,
    ensures
        checkpoint <= advanced(episodes, checkpoint) <= u64::MAX,
        forall|turn: int|
            checkpoint < turn <= advanced(episodes, checkpoint) ==> #[trigger] covered(
                episodes,
                turn,
            ),
    decreases u64::MAX - checkpoint,
{
    flushed_from_is_flushed(episodes, checkpoint + 1);
    match flushed_from(episodes, checkpoint + 1) {
        None => {},
        Some(i) => {
            if checkpoint < episodes[i].end_turn {
                checkpoint_passes_only_flushed_turns(episodes, episodes[i].end_turn as int);
                assert forall|turn: int|
                    checkpoint < turn <= advanced(episodes, checkpoint) implies #[trigger] covered(
                    episodes,
                    turn,
                ) by {
                    if turn <= episodes[i].end_turn {
                        assert(episodes[i].start_turn <= turn);
                    }
                }
            }
        },
    }
}

/// Where episodes begin before they end, the checkpoint always comes to rest: it
/// stops where no flushed episode goes on from it.
pub proof fn checkpoint_goes_as_far_as_it_can(episodes: Seq<EpisodeModel>, checkpoint: int)
    requires
        0 <= checkpoint <= u64::MAX,
        ranges_ordered(episodes),
    ensures
        comes_to_rest(episodes, checkpoint),
        forall|i: int|
            0 <= i < episodes.len() ==> !((#[trigger] episodes[i]).status
                == EpisodeStatusRecord::Flushed && episodes[i].start_turn == advanced(
                episodes,
                checkpoint,
            ) + 1),
    decreases u64::MAX - checkpoint,
{
    flushed_from_is_flushed(episodes, checkpoint + 1);
    flushed_from_is_flushed(episodes, u64::MAX as int);
    match flushed_from(episodes, checkpoint + 1) {
        None => {},
        Some(i) => {
            assert(episodes[i].start_turn <= episodes[i].end_turn);
            checkpoint_goes_as_far_as_it_can(episodes, episodes[i].end_turn as int);
        },
    }
}

/// Whatever happens to the episodes of a session, each begins before it ends, as
/// long as turns are recorded in order.
pub proof fn ranges_stay_ordered(
    episodes: Seq<EpisodeModel>,
    session_id: Seq<char>,
    turn: TurnModel,
    id: Seq<char>,
    success: bool,
    checkpoint: int,
    now: Timestamp,
)
    requires
        ranges_ordered(episodes),
        turn.turn_index < u64::MAX,
        last_open(episodes) matches Some(i) ==> episodes[i].start_turn <= turn.turn_index,
    ensures
        ranges_ordered(recorded_turn(episodes, session_id, turn, now)),
        ranges_ordered(episodes.map_values(|e: EpisodeModel| ended_episode(e, now))),
        ranges_ordered(marked_pending(episodes, id, now)),
        ranges_ordered(settled(episodes, id, success, now)),
        ranges_ordered(episodes_left(episodes, checkpoint)),
{
    let ended = episodes.map_values(|e: EpisodeModel| ended_episode(e, now));
    assert forall|i: int| 0 <= i < ended.len() implies (#[trigger] ended[i]).start_turn
        <= ended[i].end_turn < u64::MAX by {
        assert(episodes[i].start_turn <= episodes[i].end_turn);
    }
    last_open_is_open(episodes);
    episode_at_is_found(episodes, id);
    let recorded = recorded_turn(episodes, session_id, turn, now);
    assert forall|i: int| 0 <= i < recorded.len() implies (#[trigger] recorded[i]).start_turn
        <= recorded[i].end_turn < u64::MAX by {
        if i < episodes.len() {
            assert(episodes[i].start_turn <= episodes[i].end_turn);
        }
    }
    let pending = marked_pending(episodes, id, now);
    assert forall|i: int| 0 <= i < pending.len() implies (#[trigger] pending[i]).start_turn
        <= pending[i].end_turn < u64::MAX by {
        assert(episodes[i].start_turn <= episodes[i].end_turn);
    }
    let after = settled(episodes, id, success, now);
    assert forall|i: int| 0 <= i < after.len() implies (#[trigger] after[i]).start_turn
        <= after[i].end_turn < u64::MAX by {
        assert(episodes[i].start_turn <= episodes[i].end_turn);
    }
    let keep = |e: EpisodeModel|
        !(e.status == EpisodeStatusRecord::Flushed && e.end_turn <= checkpoint);
    let left = episodes_left(episodes, checkpoint);
    assert forall|i: int| 0 <= i < left.len() implies (#[trigger] left[i]).start_turn
        <= left[i].end_turn < u64::MAX by {
        episodes.lemma_filter_contains_rev(keep, left[i]);
        let k = choose|k: int| 0 <= k < episodes.len() && episodes[k] == left[i];
        assert(episodes[k].start_turn <= episodes[k].end_turn);
    }
}

/// A flush that fails loses nothing: checkpoint and memories stay, and no
/// episode becomes flushed by it.
pub proof fn failed_flush_can_be_retried(
    episodes: Seq<EpisodeModel>,
    id: Seq<char>,
    now: Timestamp,
)
    ensures
        settled(episodes, id, false, now).len() == episodes.len(),
        forall|i: int| #![trigger settled(episodes, id, false, now)[i]]
            0 <= i < episodes.len() ==> {
                let after = settled(episodes, id, false, now)[i];
                &&& after.start_turn == episodes[i].start_turn
                &&& after.end_turn == episodes[i].end_turn
                &&& after.status == EpisodeStatusRecord::Flushed ==> episodes[i].status
                    == EpisodeStatusRecord::Flushed
            },
{
    episode_at_is_found(episodes, id);
}

// Flushes of whole sessions

/// Settles the flush of a session up to a turn.
pub fn persist_boundary_flush_state(
    state: &mut SessionMemoryStateRecord,
    turn_count: Option<u64>,
    success: bool,
    now: Timestamp,
)
    ensures
        final(state).same_session(*old(state)),
        !success ==> {
            &&& final(state).pending_flush
            &&& final(state).last_flushed_turn == old(state).last_flushed_turn
            &&& final(state).last_boundary_flush_at == old(state).last_boundary_flush_at
            &&& final(state).recent_explicit_writes == old(state).recent_explicit_writes
            &&& final(state).open_episodes == old(state).open_episodes
        },
        success ==> {
            &&& !final(state).pending_flush
            &&& final(state).last_boundary_flush_at == Some(now)
        },
        success && turn_count is None ==> {
            &&& final(state).last_flushed_turn == old(state).last_flushed_turn
            &&& final(state).recent_explicit_writes == old(state).recent_explicit_writes
            &&& final(state).open_episodes == old(state).open_episodes
        },
        success && turn_count is Some ==> {
            &&& final(state).last_flushed_turn == turn_count->0
            &&& final(state).recent_explicit_writes@ == writes_after(
                old(state).recent_explicit_writes@,
                turn_count->0,
            )
            &&& types::episode_models(final(state).open_episodes@) == episodes_after(
                types::episode_models(old(state).open_episodes@),
                turn_count->0,
            )
        },
{
    if success {
        match turn_count {
            None => {},
            Some(count) => {
                state.last_flushed_turn = count;
                let writes = keep_writes_after(&state.recent_explicit_writes, count);
                state.recent_explicit_writes = writes;
                let episodes = keep_episodes_after(&state.open_episodes, count);
                state.open_episodes = episodes;
            },
        }
        state.last_boundary_flush_at = Some(now);
        state.pending_flush = false;
    } else {
        state.pending_flush = true;
    }
}

// What records come to

/// The episode that counts as open is the last that is.
pub proof fn the_last_open_episode_counts(episodes: Seq<EpisodeModel>)
    ensures
        match last_open(episodes) {
            Some(k) => 0 <= k < episodes.len() && episodes[k].status == EpisodeStatusRecord::Open
                && forall|i: int|
                k < i < episodes.len() ==> (#[trigger] episodes[i]).status
                    != EpisodeStatusRecord::Open,
            None => forall|i: int|
                0 <= i < episodes.len() ==> (#[trigger] episodes[i]).status
                    != EpisodeStatusRecord::Open,
        },
    decreases episodes.len(),
{
    if episodes.len() > 0 {
        let less = episodes.drop_last();
        the_last_open_episode_counts(less);
        assert forall|i: int| 0 <= i < less.len() implies #[trigger] episodes[i] == less[i] by {}
    }
}

/// A turn that shares two tokens with the sketch of an open episode of fewer than
/// four turns goes on with it: the episode keeps its name, its beginning and its
/// being open, ends with the turn, and is active now; nothing else changes.
pub proof fn a_turn_on_the_topic_is_added(
    episodes: Seq<EpisodeModel>,
    session_id: Seq<char>,
    turn: TurnModel,
    now: Timestamp,
    k: int,
)
    requires
        last_open(episodes) == Some(k),
        episodes[k].end_turn < episodes[k].start_turn || episodes[k].end_turn
            - episodes[k].start_turn + 1 < 4,
        boundary::topic_tokens(episodes[k].topic_sketch).intersect(
            boundary::topic_tokens(boundary::topic_sketch(turn.user_text)),
        ).len() >= 2,
    ensures
        ({
            let after = recorded_turn(episodes, session_id, turn, now);
            &&& after.len() == episodes.len()
            &&& after[k].episode_id == episodes[k].episode_id
            &&& after[k].start_turn == episodes[k].start_turn
            &&& after[k].end_turn == turn.turn_index
            &&& after[k].status == EpisodeStatusRecord::Open
            &&& after[k].last_activity_at == now
            &&& after[k].task_state == boundary::task_state(
                turn.assistant_text,
                turn.successful_tool_calls,
                turn.final_stop_reason,
            )
            &&& boundary::topic_sketch(turn.user_text).len() > 0 ==> after[k].topic_sketch
                == boundary::topic_sketch(turn.user_text)
            &&& boundary::topic_sketch(turn.user_text).len() == 0 ==> after[k].topic_sketch
                == episodes[k].topic_sketch
            &&& forall|i: int|
                0 <= i < episodes.len() && i != k ==> #[trigger] after[i] == episodes[i]
            &&& closed_by_turn(episodes, turn, now) is None
        }),
{
    the_last_open_episode_counts(episodes);
}

/// Any other turn begins an episode of its own, behind the others, named after
/// the session and the turn; and an episode that was open is closed by it, with
/// everything else of it as it was.
pub proof fn another_turn_opens_an_episode(
    episodes: Seq<EpisodeModel>,
    session_id: Seq<char>,
    turn: TurnModel,
    now: Timestamp,
)
    requires
        last_open(episodes) matches Some(k) ==> episodes[k].end_turn >= episodes[k].start_turn
            && episodes[k].end_turn - episodes[k].start_turn + 1 >= 4 || boundary::topic_tokens(
            episodes[k].topic_sketch,
        ).intersect(boundary::topic_tokens(boundary::topic_sketch(turn.user_text))).len() < 2,
    ensures
        ({
            let after = recorded_turn(episodes, session_id, turn, now);
            let new = after.last();
            &&& after.len() == episodes.len() + 1
            &&& new.episode_id == session_id + ":"@ + text::decimal(turn.turn_index as nat)
            &&& new.start_turn == turn.turn_index && new.end_turn == turn.turn_index
            &&& new.status == EpisodeStatusRecord::Open
            &&& new.topic_sketch == boundary::topic_sketch(turn.user_text)
            &&& new.task_state == boundary::task_state(
                turn.assistant_text,
                turn.successful_tool_calls,
                turn.final_stop_reason,
            )
            &&& new.last_activity_at == now
            &&& forall|i: int|
                0 <= i < episodes.len() && last_open(episodes) != Some(i) ==> #[trigger] after[i]
                    == episodes[i]
            &&& last_open(episodes) matches Some(k) ==> {
                &&& after[k].status == EpisodeStatusRecord::Closed
                &&& after[k].last_activity_at == now
                &&& after[k].episode_id == episodes[k].episode_id
                &&& after[k].start_turn == episodes[k].start_turn
                &&& after[k].end_turn == episodes[k].end_turn
                &&& after[k].task_state == episodes[k].task_state
                &&& after[k].topic_sketch == episodes[k].topic_sketch
                &&& closed_by_turn(episodes, turn, now) == Some(after[k])
            }
            &&& last_open(episodes) is None ==> closed_by_turn(episodes, turn, now) is None
        }),
{
    the_last_open_episode_counts(episodes);
}

/// At the end of a session the open episodes are closed, with everything else of
/// them as it was.
pub proof fn ended_episodes_keep_what_they_were(episode: EpisodeModel, now: Timestamp)
    requires
        episode.status == EpisodeStatusRecord::Open,
    ensures
        ended_episode(episode, now).status == EpisodeStatusRecord::Closed,
        ended_episode(episode, now).last_activity_at == now,
        ended_episode(episode, now).episode_id == episode.episode_id,
        ended_episode(episode, now).start_turn == episode.start_turn,
        ended_episode(episode, now).end_turn == episode.end_turn,
        ended_episode(episode, now).task_state == episode.task_state,
        ended_episode(episode, now).topic_sketch == episode.topic_sketch,
{
}

proof fn by_range_holds_the_same(episodes: Seq<EpisodeStateRecord>, e: EpisodeStateRecord)
    ensures
        boundary::by_range(episodes).contains(e) <==> episodes.contains(e),
{
    boundary::records_stand_in_order(episodes);
    let sorted = boundary::by_range(episodes);
    if sorted.contains(e) {
        let k = choose|k: int| 0 <= k < sorted.len() && sorted[k] == e;
        assert(episodes.contains(sorted[k]));
    }
    if episodes.contains(e) {
        let k = choose|k: int| 0 <= k < episodes.len() && episodes[k] == e;
        assert(sorted.contains(episodes[k]));
    }
}

/// At the end of a session every episode is flushed whose flush is neither done
/// nor on its way, and of those that were delivered the closed ones.
pub proof fn episodes_that_are_left_to_flush(
    episodes: Seq<EpisodeStateRecord>,
    e: EpisodeStateRecord,
)
    ensures
        session_end_order(episodes).contains(e) <==> episodes.contains(e) && (e.status
            == EpisodeStatusRecord::Open || e.status == EpisodeStatusRecord::Closed),
        delivered_order(episodes).contains(e) <==> episodes.contains(e) && e.status
            == EpisodeStatusRecord::Closed && e.task_state == EpisodeTaskStateRecord::Delivered,
{
    let at_end = |e: EpisodeStateRecord|
        e.status != EpisodeStatusRecord::Flushed && e.status != EpisodeStatusRecord::FlushPending;
    let delivered = |e: EpisodeStateRecord|
        e.status == EpisodeStatusRecord::Closed && e.task_state
            == EpisodeTaskStateRecord::Delivered;
    seqs::filter_is_exact(episodes, at_end, e);
    seqs::filter_is_exact(episodes, delivered, e);
    by_range_holds_the_same(episodes.filter(at_end), e);
    by_range_holds_the_same(episodes.filter(delivered), e);
}

/// An episode is found by its name: the first of that name, wherever there is one.
pub proof fn episodes_are_found_by_name(episodes: Seq<EpisodeModel>, id: Seq<char>)
    ensures
        match episode_at(episodes, id) {
            Some(k) => 0 <= k < episodes.len() && episodes[k].episode_id == id && forall|i: int|
                0 <= i < k ==> (#[trigger] episodes[i]).episode_id != id,
            None => forall|i: int|
                0 <= i < episodes.len() ==> (#[trigger] episodes[i]).episode_id != id,
        },
    decreases episodes.len(),
{
    if episodes.len() > 0 {
        let less = episodes.drop_last();
        episodes_are_found_by_name(less, id);
        assert forall|i: int| 0 <= i < less.len() implies #[trigger] episodes[i] == less[i] by {}
    }
}

/// Marking and settling touch the one episode of that name: it is pending, then
/// flushed where the flush succeeded, and closed again where it failed. It keeps
/// its turns, its topic and its task.
pub proof fn settling_touches_one_episode(
    episodes: Seq<EpisodeModel>,
    id: Seq<char>,
    success: bool,
    now: Timestamp,
    later: Timestamp,
    i: int,
)
    requires
        0 <= i < episodes.len(),
    ensures
        ({
            let marked = marked_pending(episodes, id, now);
            let done = settled(marked, id, success, later);
            let own = episodes[i].episode_id == id && forall|k: int|
                0 <= k < i ==> (#[trigger] episodes[k]).episode_id != id;
            &&& marked.len() == episodes.len() && done.len() == episodes.len()
            &&& !own ==> marked[i] == episodes[i] && done[i] == episodes[i]
            &&& own ==> {
                &&& marked[i].status == EpisodeStatusRecord::FlushPending
                &&& marked[i].last_activity_at == now
                &&& success ==> done[i].status == EpisodeStatusRecord::Flushed
                    && done[i].last_activity_at == now
                &&& !success ==> done[i].status == EpisodeStatusRecord::Closed
                    && done[i].last_activity_at == later
            }
            &&& done[i].episode_id == episodes[i].episode_id
            &&& done[i].start_turn == episodes[i].start_turn
            &&& done[i].end_turn == episodes[i].end_turn
            &&& done[i].task_state == episodes[i].task_state
            &&& done[i].topic_sketch == episodes[i].topic_sketch
        }),
{
    let marked = marked_pending(episodes, id, now);
    episodes_are_found_by_name(episodes, id);
    episodes_are_found_by_name(marked, id);
    assert forall|k: int| 0 <= k < episodes.len() implies (#[trigger] marked[k]).episode_id
        == episodes[k].episode_id by {}
    match episode_at(episodes, id) {
        Some(a) => {
            assert(marked[a].episode_id == id);
            assert(episode_at(marked, id) is Some);
            let b = episode_at(marked, id)->0;
            if b < a {
                assert(episodes[b].episode_id != id);
            }
            if a < b {
                assert(marked[a].episode_id != id);
            }
        },
        None => {
            assert(marked == episodes);
        },
    }
}

/// What the checkpoint has passed is let go and nothing else: memories that were
/// written up to it, and episodes that were flushed up to it.
pub proof fn only_what_is_passed_is_let_go(
    episodes: Seq<EpisodeModel>,
    writes: Seq<RecentExplicitMemoryWrite>,
    checkpoint: u64,
    e: EpisodeModel,
    w: RecentExplicitMemoryWrite,
)
    ensures
        writes_after(writes, checkpoint).contains(w) <==> writes.contains(w) && w.turn_index
            > checkpoint,
        episodes_after(episodes, checkpoint).contains(e) <==> episodes.contains(e) && e.end_turn
            > checkpoint,
        episodes_left(episodes, checkpoint as int).contains(e) <==> episodes.contains(e) && (
        e.status != EpisodeStatusRecord::Flushed || e.end_turn > checkpoint),
{
    seqs::filter_is_exact(writes, |w: RecentExplicitMemoryWrite| w.turn_index > checkpoint, w);
    seqs::filter_is_exact(episodes, |e: EpisodeModel| e.end_turn > checkpoint, e);
    seqs::filter_is_exact(
        episodes,
        |e: EpisodeModel|
            !(e.status == EpisodeStatusRecord::Flushed && e.end_turn <= checkpoint as int),
        e,
    );
}

/// The checkpoint passes every flushed episode that goes on from where it is.
pub proof fn the_checkpoint_passes_flushed_episodes(
    episodes: Seq<EpisodeModel>,
    checkpoint: int,
    i: int,
)
    requires
        0 <= i < episodes.len(),
        0 <= checkpoint < u64::MAX,
        episodes[i].status == EpisodeStatusRecord::Flushed,
        episodes[i].start_turn == checkpoint + 1,
        ranges_ordered(episodes),
        forall|k: int|
            0 <= k < episodes.len() && k != i ==> (#[trigger] episodes[k]).start_turn != checkpoint
                + 1,
    ensures
        advanced(episodes, checkpoint) >= episodes[i].end_turn,
{
    flushed_from_is_exact(episodes, checkpoint + 1);
    let at = flushed_from(episodes, checkpoint + 1);
    assert(at is Some);
    assert(at == Some(i));
    checkpoint_passes_only_flushed_turns(episodes, episodes[i].end_turn as int);
}

proof fn flushed_from_is_exact(episodes: Seq<EpisodeModel>, turn: int)
    ensures
        match flushed_from(episodes, turn) {
            Some(k) => 0 <= k < episodes.len() && episodes[k].status == EpisodeStatusRecord::Flushed
                && episodes[k].start_turn == turn,
            None => forall|i: int|
                0 <= i < episodes.len() ==> !((#[trigger] episodes[i]).status
                    == EpisodeStatusRecord::Flushed && episodes[i].start_turn == turn),
        },
    decreases episodes.len(),
{
    if episodes.len() > 0 {
        let less = episodes.drop_last();
        flushed_from_is_exact(less, turn);
        assert forall|i: int| 0 <= i < less.len() implies #[trigger] episodes[i] == less[i] by {}
    }
}

/// Where only the episodes of a state differ, everything else of it is as it was.
pub proof fn states_stay_as_they_were(
    after: SessionMemoryStateRecord,
    before: SessionMemoryStateRecord,
)
    requires
        only_episodes_differ(after, before),
    ensures
        after.agent_id == before.agent_id,
        after.session_id == before.session_id,
        after.session_key == before.session_key,
        after.last_flushed_turn == before.last_flushed_turn,
        after.last_boundary_flush_at == before.last_boundary_flush_at,
        after.pending_flush == before.pending_flush,
        after.flush_phase == before.flush_phase,
        after.flush_phase_updated_at == before.flush_phase_updated_at,
        after.flush_summary_cache == before.flush_summary_cache,
        after.recent_explicit_writes == before.recent_explicit_writes,
{
}

} // verus!
