//! What of a session is flushed to memory, and in which pieces.

use crate::orchestrator::episode::boundary;
use crate::orchestrator::episode::tracking;
use crate::orchestrator::episode::types;
use crate::orchestrator::episode::types::{
    BoundaryFlushEpisode, BoundaryFlushSnapshot, EpisodeStateRecord, RecentExplicitMemoryWrite,
    SessionMemoryStateRecord, TurnsModel,
};
use crate::orchestrator::messages::{SessionEntry, Timestamp};
use crate::seqs;
use crate::text;
use crate::token_set::TokenSet;
use vstd::prelude::*;

verus! {

/// The name under which the flush of a stale session writes.
pub const STALE_FLUSH_SOURCE: &'static str = "fallback_summary";

/// The name under which the flush before a requested reset writes.
pub const RESET_FLUSH_SOURCE: &'static str = "explicit_reset";

// Snapshots

/// The last turn that has been flushed.
pub open spec fn checkpoint(state: Option<&SessionMemoryStateRecord>) -> u64 {
    match state {
        Some(state) => state.last_flushed_turn,
        None => 0,
    }
}

pub open spec fn known_writes(state: Option<&SessionMemoryStateRecord>) -> Seq<
    RecentExplicitMemoryWrite,
> {
    match state {
        Some(state) => state.recent_explicit_writes@,
        None => Seq::empty(),
    }
}

fn writes_of(state: Option<&SessionMemoryStateRecord>) -> (r: Vec<RecentExplicitMemoryWrite>)
    ensures
        r@ == known_writes(state),
{
    match state {
        Some(state) => types::copy_writes(&state.recent_explicit_writes),
        None => Vec::new(),
    }
}

/// The episodes that reach beyond the checkpoint and are ready to be flushed.
pub open spec fn due_episodes(
    state: Option<&SessionMemoryStateRecord>,
    now: Timestamp,
) -> Seq<EpisodeStateRecord> {
    match state {
        Some(state) => state.open_episodes@.filter(
            |e: EpisodeStateRecord|
                e.end_turn > state.last_flushed_turn && boundary::ready_for_flush(
                    e.status,
                    e.last_activity_at,
                    now,
                ),
        ),
        None => Seq::empty(),
    }
}

fn collect_due(state: Option<&SessionMemoryStateRecord>, now: Timestamp) -> (r: Vec<
    EpisodeStateRecord,
>)
    ensures
        r@ == due_episodes(state, now),
{
    let mut out: Vec<EpisodeStateRecord> = Vec::new();
    match state {
        None => {},
        Some(state) => {
            let ghost keep = |e: EpisodeStateRecord|
                e.end_turn > state.last_flushed_turn && boundary::ready_for_flush(
                    e.status,
                    e.last_activity_at,
                    now,
                );
            let n: usize = state.open_episodes.len();
            proof {
                seqs::filter_start(state.open_episodes@, keep);
            }
            for i in 0..n
                invariant
                    n == state.open_episodes@.len(),
                    keep == (|e: EpisodeStateRecord|
                        e.end_turn > state.last_flushed_turn && boundary::ready_for_flush(
                            e.status,
                            e.last_activity_at,
                            now,
                        )),
                    out@ == state.open_episodes@.take(i as int).filter(keep),
            {
                proof {
                    seqs::filter_step(state.open_episodes@, keep, i as int);
                }
                let episode = &state.open_episodes[i];
                if episode.end_turn > state.last_flushed_turn
                    && boundary::episode_status_ready_for_boundary_flush(episode, now) {
                    out.push(episode.copy());
                }
            }
            assert(state.open_episodes@.take(n as int) == state.open_episodes@);
        },
    }
    out
}

/// The runs of turns that are flushed: those that the due episodes mark, and
/// where they mark none, the turns after the checkpoint grouped by topic.
pub open spec fn runs_to_flush(
    state: Option<&SessionMemoryStateRecord>,
    entries: Seq<SessionEntry>,
    now: Timestamp,
) -> Seq<TurnsModel> {
    let turns = boundary::turns_after(
        boundary::timed_messages(entries),
        checkpoint(state) as int,
    );
    let marked = boundary::runs_of_records(
        turns,
        boundary::by_range(boundary::ready_records(due_episodes(state, now), now)),
    );
    if marked.len() == 0 {
        boundary::grouped_turns(turns)
    } else {
        marked
    }
}

/// There is something to flush: a turn beyond the checkpoint, in a session that
/// no schedule runs.
pub open spec fn has_unflushed(
    scheduled: bool,
    state: Option<&SessionMemoryStateRecord>,
    entries: Seq<SessionEntry>,
) -> bool {
    !scheduled && boundary::turn_count(boundary::timed_messages(entries)) > checkpoint(state)
}

pub fn capture_boundary_flush_snapshot(
    scheduled: bool,
    state: Option<&SessionMemoryStateRecord>,
    entries: &[SessionEntry],
    now: Timestamp,
) -> (r: Option<BoundaryFlushSnapshot>)
    ensures
        r is Some == has_unflushed(scheduled, state, entries@),
        r matches Some(snapshot) ==> {
            &&& types::turns_models(snapshot.episodes@) == runs_to_flush(state, entries@, now)
            &&& snapshot.turn_count == boundary::turn_count(boundary::timed_messages(entries@))
            &&& snapshot.recent_explicit_writes@ == known_writes(state)
        },
{
    if scheduled {
        return None;
    }
    let last_flushed_turn: u64 = match state {
        Some(state) => state.last_flushed_turn,
        None => 0,
    };
    match boundary::collect_unflushed_boundary_turns(entries, last_flushed_turn) {
        None => None,
        Some((turns, turn_count)) => {
            let due = collect_due(state, now);
            let marked = boundary::build_boundary_episodes_from_state(
                turns.as_slice(),
                due.as_slice(),
                now,
            );
            let episodes = if marked.len() == 0 {
                assert(types::turns_models(marked@).len() == 0);
                match boundary::collect_unflushed_boundary_episodes(entries, last_flushed_turn) {
                    None => {
                        return None;
                    },
                    Some((episodes, _)) => episodes,
                }
            } else {
                assert(types::turns_models(marked@).len() > 0);
                marked
            };
            Some(
                BoundaryFlushSnapshot {
                    episodes,
                    turn_count,
                    recent_explicit_writes: writes_of(state),
                },
            )
        },
    }
}

/// The messages of an episode that has been closed, and what was written to
/// memory meanwhile; `None` where the episode has no message.
pub fn capture_closed_episode_snapshot(
    state: Option<&SessionMemoryStateRecord>,
    entries: &[SessionEntry],
    episode: &EpisodeStateRecord,
) -> (r: Option<(BoundaryFlushEpisode, Vec<RecentExplicitMemoryWrite>)>)
    ensures
        r is None == (boundary::range_messages(
            boundary::plain_messages(entries@),
            episode.start_turn,
            episode.end_turn,
        ).len() == 0),
        r matches Some((run, writes)) ==> {
            &&& run@ == (TurnsModel {
                start_turn: episode.start_turn,
                end_turn: episode.end_turn,
                messages: boundary::range_messages(
                    boundary::plain_messages(entries@),
                    episode.start_turn,
                    episode.end_turn,
                ),
            })
            &&& writes@ == known_writes(state)
        },
{
    match boundary::collect_boundary_episode_for_range(
        entries,
        episode.start_turn,
        episode.end_turn,
    ) {
        None => None,
        Some(run) => Some((run, writes_of(state))),
    }
}

// Plans

/// The name under which the flush of a closed episode writes.
pub fn closure_source(episode_id: &str) -> (r: String)
    ensures
        r@ == "episode_closure:"@ + episode_id@,
{
    let mut out = "episode_closure:".to_owned();
    out.append(episode_id);
    out
}

pub open spec fn run_source(source: Seq<char>, number: nat) -> Seq<char> {
    source + ":episode:"@ + text::decimal(number)
}

fn name_run(source: &str, number: usize) -> (r: String)
    ensures
        r@ == run_source(source@, number as nat),
{
    let mut out = source.to_owned();
    out.append(":episode:");
    out.append(text::decimal_of(number as u128).as_str());
    out
}

/// A summary to be made: of a run of turns, under a name.
#[derive(Clone, Debug)]
pub struct FlushJob {
    pub source: String,
    pub episode: BoundaryFlushEpisode,
}

/// What a job is.
pub struct JobModel {
    pub source: Seq<char>,
    pub turns: TurnsModel,
}

impl View for FlushJob {
    type V = JobModel;

    open spec fn view(&self) -> JobModel {
        JobModel { source: self.source@, turns: self.episode@ }
    }
}

pub open spec fn job_models(s: Seq<FlushJob>) -> Seq<JobModel> {
    Seq::new(s.len(), |i: int| s[i]@)
}

pub open spec fn job_batches(s: Seq<Vec<FlushJob>>) -> Seq<Seq<JobModel>> {
    Seq::new(s.len(), |i: int| job_models(s[i]@))
}

/// The number of runs in some batches.
pub open spec fn run_count(batches: Seq<Seq<TurnsModel>>) -> nat
    decreases batches.len(),
{
    if batches.len() == 0 {
        0
    } else {
        run_count(batches.drop_last()) + batches.last().len()
    }
}

/// The jobs of a batch that follows `before` runs.
pub open spec fn numbered(batch: Seq<TurnsModel>, source: Seq<char>, before: nat) -> Seq<JobModel> {
    Seq::new(
        batch.len(),
        |i: int|
            JobModel { source: run_source(source, (before + i + 1) as nat), turns: batch[i] },
    )
}

/// A job for each run, batch by batch, numbered from 1 on across the batches.
pub open spec fn planned(batches: Seq<Seq<TurnsModel>>, source: Seq<char>) -> Seq<Seq<JobModel>>
    decreases batches.len(),
{
    if batches.len() == 0 {
        Seq::empty()
    } else {
        planned(batches.drop_last(), source).push(
            numbered(batches.last(), source, run_count(batches.drop_last())),
        )
    }
}

/// The jobs of one batch, and the number of the last.
fn number_batch(batch: &Vec<BoundaryFlushEpisode>, source: &str, before: usize) -> (r: Option<
    (Vec<FlushJob>, usize),
>)
    ensures
        r is None == (before + batch@.len() > usize::MAX),
        r matches Some((jobs, last)) ==> {
            &&& job_models(jobs@) == numbered(
                types::turns_models(batch@),
                source@,
                before as nat,
            )
            &&& last == before + batch@.len()
        },
{
    let ghost runs = types::turns_models(batch@);
    let mut jobs: Vec<FlushJob> = Vec::new();
    let n: usize = batch.len();
    if n > usize::MAX - before {
        return None;
    }
    let ghost all = numbered(runs, source@, before as nat);
    assert(job_models(jobs@) == all.take(0));
    for i in 0..n
        invariant
            n == batch@.len(),
            before + n <= usize::MAX,
            runs == types::turns_models(batch@),
            all == numbered(runs, source@, before as nat),
            job_models(jobs@) == all.take(i as int),
    {
        let job = FlushJob { source: name_run(source, before + i + 1), episode: batch[i].copy() };
        let ghost said = job@;
        let ghost made = job_models(jobs@);
        jobs.push(job);
        assert(said == all[i as int]);
        assert(job_models(jobs@) == made.push(said));
        assert(all.take(i + 1) == all.take(i as int).push(all[i as int]));
    }
    assert(all.take(n as int) == all);
    Some((jobs, before + n))
}

proof fn run_count_of_batches(runs: Seq<TurnsModel>, max: int)
    ensures
        run_count(boundary::batches(runs, max)) == runs.len(),
    decreases runs.len(),
{
    let after = boundary::batches(runs, max);
    if runs.len() > 0 {
        let less = runs.drop_last();
        let before = boundary::batches(less, max);
        run_count_of_batches(less, max);
        assert(after.drop_last() == before || (before.len() > 0 && after.drop_last()
            == before.drop_last()));
    }
}

proof fn run_count_monotone(batches: Seq<Seq<TurnsModel>>, i: int)
    requires
        0 <= i <= batches.len(),
    ensures
        run_count(batches.take(i)) <= run_count(batches),
    decreases batches.len(),
{
    if i == batches.len() {
        assert(batches.take(i) == batches);
    } else {
        run_count_monotone(batches.drop_last(), i);
        assert(batches.drop_last().take(i) == batches.take(i));
    }
}

/// The jobs that flush the runs, in batches of at most so many turns.
pub fn plan_flush(
    episodes: &[BoundaryFlushEpisode],
    source: &str,
    max_turns_per_batch: u64,
) -> (r: Vec<Vec<FlushJob>>)
    ensures
        job_batches(r@) == planned(
            boundary::batches(types::turns_models(episodes@), max_turns_per_batch as int),
            source@,
        ),
{
    let batches = boundary::split_boundary_flush_episode_batches(episodes, max_turns_per_batch);
    let ghost all = boundary::batch_models(batches@);
    let total: usize = episodes.len();
    proof {
        run_count_of_batches(types::turns_models(episodes@), max_turns_per_batch as int);
        assert(run_count(all) == total);
    }
    let mut plan: Vec<Vec<FlushJob>> = Vec::new();
    let mut number: usize = 0;
    let n: usize = batches.len();
    assert(all.take(0) == Seq::<Seq<TurnsModel>>::empty());
    assert(job_batches(plan@) == planned(all.take(0), source@));
    for i in 0..n
        invariant
            n == batches@.len(),
            all == boundary::batch_models(batches@),
            run_count(all) == total,
            number == run_count(all.take(i as int)),
            job_batches(plan@) == planned(all.take(i as int), source@),
    {
        assert(all.take(i + 1).drop_last() == all.take(i as int));
        assert(all.take(i + 1).last() == types::turns_models(batches@[i as int]@));
        proof {
            run_count_monotone(all, i + 1);
        }
        match number_batch(&batches[i], source, number) {
            None => {},
            Some((jobs, last)) => {
                let ghost made = job_batches(plan@);
                let ghost said = job_models(jobs@);
                plan.push(jobs);
                assert(job_batches(plan@) == made.push(said));
                number = last;
            },
        }
    }
    assert(all.take(n as int) == all);
    plan
}

proof fn planned_flattens(batches: Seq<Seq<TurnsModel>>, source: Seq<char>)
    ensures
        planned(batches, source).flatten() == numbered(batches.flatten(), source, 0),
        batches.flatten().len() == run_count(batches),
    decreases batches.len(),
{
    let plan = planned(batches, source);
    batches.lemma_flatten_and_flatten_alt_are_equivalent();
    plan.lemma_flatten_and_flatten_alt_are_equivalent();
    if batches.len() == 0 {
        assert(plan.flatten() =~= numbered(batches.flatten(), source, 0));
    } else {
        let less = batches.drop_last();
        planned_flattens(less, source);
        less.lemma_flatten_and_flatten_alt_are_equivalent();
        planned(less, source).lemma_flatten_and_flatten_alt_are_equivalent();
        assert(plan.drop_last() == planned(less, source));
        assert(batches.flatten() == less.flatten() + batches.last());
        assert(plan.flatten() == planned(less, source).flatten() + numbered(
            batches.last(),
            source,
            run_count(less),
        ));
        assert(plan.flatten() =~= numbered(batches.flatten(), source, 0));
    }
}

/// The plan has one job for every run, in their order, and the number in the name
/// of a job is the place of its run.
pub proof fn plan_names_every_run(runs: Seq<TurnsModel>, max_turns: u64, source: Seq<char>)
    ensures
        planned(boundary::batches(runs, max_turns as int), source).flatten() == Seq::new(
            runs.len(),
            |i: int| JobModel { source: run_source(source, (i + 1) as nat), turns: runs[i] },
        ),
{
    boundary::batches_partition_the_runs(runs, max_turns);
    planned_flattens(boundary::batches(runs, max_turns as int), source);
    assert(numbered(runs, source, 0) =~= Seq::new(
        runs.len(),
        |i: int| JobModel { source: run_source(source, (i + 1) as nat), turns: runs[i] },
    ));
}

/// A flush has succeeded where every job has; a job without a result has not.
pub fn all_jobs_succeeded(results: &[Option<bool>]) -> (r: bool)
    ensures
        r == (forall|i: int| 0 <= i < results@.len() ==> #[trigger] results@[i] == Some(true)),
{
    let n: usize = results.len();
    for i in 0..n
        invariant
            n == results@.len(),
            forall|k: int| 0 <= k < i ==> #[trigger] results@[k] == Some(true),
    {
        match results[i] {
            Some(true) => {},
            _ => {
                assert(results@[i as int] != Some(true));
                return false;
            },
        }
    }
    true
}

// Stale sessions

/// Notes the start of the flush of a stale session: with nothing to flush it is
/// settled at once, else it is pending.
pub fn begin_stale_flush(
    state: &mut SessionMemoryStateRecord,
    snapshot: &Option<BoundaryFlushSnapshot>,
    now: Timestamp,
)
    ensures
        final(state).same_session(*old(state)),
        final(state).pending_flush == (snapshot is Some),
        final(state).last_boundary_flush_at == (if snapshot is Some {
            old(state).last_boundary_flush_at
        } else {
            Some(now)
        }),
        final(state).last_flushed_turn == old(state).last_flushed_turn,
        final(state).recent_explicit_writes == old(state).recent_explicit_writes,
        final(state).open_episodes == old(state).open_episodes,
{
    tracking::persist_boundary_flush_state(state, None, snapshot.is_none(), now);
}

/// What becomes of a session whose flush was pending when the process ended.
#[derive(Clone, Copy, Debug, PartialEq, Eq, Structural)]
pub enum RecoveryAction {
    /// Its transcript is missing: it is left for repair by hand.
    TranscriptMissing,
    /// It is being recovered already.
    AlreadyInFlight,
    /// It is flushed now.
    Recover,
}

/// Decides on the recovery of a session and claims it; no session is recovered
/// twice at a time.
pub fn claim_recovery(
    in_flight: TokenSet,
    session_id: &str,
    transcript_exists: bool,
) -> (r: (TokenSet, RecoveryAction))
    ensures
        r.1 == (if !transcript_exists {
            RecoveryAction::TranscriptMissing
        } else if in_flight@.contains(session_id@) {
            RecoveryAction::AlreadyInFlight
        } else {
            RecoveryAction::Recover
        }),
        r.0@ == (if r.1 == RecoveryAction::Recover {
            in_flight@.insert(session_id@)
        } else {
            in_flight@
        }),
{
    if !transcript_exists {
        return (in_flight, RecoveryAction::TranscriptMissing);
    }
    if in_flight.contains(session_id) {
        return (in_flight, RecoveryAction::AlreadyInFlight);
    }
    (in_flight.with(session_id.to_owned()), RecoveryAction::Recover)
}

/// Releases a session whose recovery has ended.
pub fn release_recovery(in_flight: TokenSet, session_id: &str) -> (r: TokenSet)
    ensures
        r@ == in_flight@.remove(session_id@),
{
    in_flight.without(session_id)
}

/// A recovery that was claimed and released leaves the set of claims as it was.
pub proof fn release_undoes_claim(in_flight: Set<Seq<char>>, session_id: Seq<char>)
    requires
        !in_flight.contains(session_id),
    ensures
        in_flight.insert(session_id).remove(session_id) == in_flight,
{
}

/// An episode is due exactly where it reaches beyond the checkpoint and is ready:
/// not flushed, and not pending for less than half a minute.
pub proof fn due_episodes_are_new_and_ready(
    state: SessionMemoryStateRecord,
    now: Timestamp,
    episode: EpisodeStateRecord,
)
    ensures
        due_episodes(Some(&state), now).contains(episode) <==> state.open_episodes@.contains(
            episode,
        ) && episode.end_turn > state.last_flushed_turn && boundary::ready_for_flush(
            episode.status,
            episode.last_activity_at,
            now,
        ),
        due_episodes(None, now).len() == 0,
{
    let keep = |e: EpisodeStateRecord|
        e.end_turn > state.last_flushed_turn && boundary::ready_for_flush(
            e.status,
            e.last_activity_at,
            now,
        );
    let all = state.open_episodes@;
    let due = all.filter(keep);
    if due.contains(episode) {
        let k = choose|k: int| 0 <= k < due.len() && due[k] == episode;
        seqs::filter_sound(all, keep, k);
    }
    if all.contains(episode) && keep(episode) {
        let i = choose|i: int| 0 <= i < all.len() && all[i] == episode;
        seqs::filter_holds(all, keep, i);
    }
}

/// Where no episode marks a run, every message after the checkpoint is flushed,
/// in order, and something is flushed wherever a turn is left.
pub proof fn unmarked_turns_are_flushed_whole(
    state: Option<&SessionMemoryStateRecord>,
    entries: Seq<SessionEntry>,
    now: Timestamp,
)
    requires
        due_episodes(state, now).len() == 0,
        boundary::timed_messages(entries).len() < u64::MAX,
        checkpoint(state) < u64::MAX,
    ensures
        boundary::all_messages(runs_to_flush(state, entries, now)) == boundary::range_messages(
            boundary::timed_messages(entries),
            (checkpoint(state) + 1) as u64,
            u64::MAX,
        ),
        has_unflushed(false, state, entries) ==> runs_to_flush(state, entries, now).len() > 0,
        !has_unflushed(true, state, entries),
{
    let messages = boundary::timed_messages(entries);
    let turns = boundary::turns_after(messages, checkpoint(state) as int);
    let due = due_episodes(state, now);
    assert(due =~= Seq::<EpisodeStateRecord>::empty());
    reveal(Seq::filter);
    let ready = boundary::ready_records(due, now);
    assert(ready =~= Seq::<EpisodeStateRecord>::empty());
    boundary::records_stand_in_order(ready);
    assert(boundary::runs_of_records(turns, boundary::by_range(ready)).len() == 0);
    boundary::grouping_keeps_messages(turns);
    boundary::turns_after_hold_their_messages(messages, checkpoint(state));
}

/// The names of jobs tell them apart: two numbers give two names.
pub proof fn runs_are_told_apart(source: Seq<char>, a: nat, b: nat)
    ensures
        run_source(source, a) == run_source(source, b) ==> a == b,
        text::starts_with(run_source(source, a), source + ":episode:"@),
{
    let x = run_source(source, a);
    let y = run_source(source, b);
    let head = source + ":episode:"@;
    crate::dates::decimals_write_their_numbers(a);
    crate::dates::decimals_write_their_numbers(b);
    assert(x.take(head.len() as int) =~= head);
    assert(x.skip(head.len() as int) =~= text::decimal(a));
    assert(y.skip(head.len() as int) =~= text::decimal(b));
}

} // verus!
