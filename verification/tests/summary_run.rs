use clawhive_core::dates::CalendarDate;
use clawhive_core::memory_summary::{
    retain_summary_candidates, RetainedSummaryCandidates, SummaryCandidate, SummaryClass,
};
use clawhive_core::orchestrator::episode::types::RecentExplicitMemoryWrite;
use clawhive_core::orchestrator::messages::{SessionMessage, Timestamp};
use clawhive_core::orchestrator::summary::{
    boundary_flush_conflict_passes_two_step, conflict_texts, contains_correction_phrase,
    daily_outcome, daily_path, fact_from_candidate, fact_words_overlap,
    find_boundary_flush_conflict, is_remembered, lowered_is_correction,
    normalized_candidate_fact_type, normalized_duplicate_key, section_reference,
    session_reference_prefix, summary_conversation, summary_succeeded, Closeness, LookupKind,
    SummaryAction, SummaryOutcome, SummaryRun,
};
use clawhive_core::records::Fact;
use clawhive_core::token_set::TokenSet;

fn fact(id: &str, content: &str, fact_type: &str) -> Fact {
    Fact {
        id: id.to_string(),
        content: content.to_string(),
        fact_type: fact_type.to_string(),
        occurred_at: None,
        salience: 50,
    }
}

fn candidate(content: &str, class: SummaryClass, key: Option<&str>) -> SummaryCandidate {
    SummaryCandidate {
        content: content.to_string(),
        classification: class,
        topic: "Topic".to_string(),
        importance_bits: 0,
        fact_type: None,
        duplicate_key: key.map(|k| k.to_string()),
    }
}

fn retained(candidates: Vec<SummaryCandidate>) -> RetainedSummaryCandidates {
    retain_summary_candidates(candidates)
}

fn words(text: &str) -> TokenSet {
    let mut set = TokenSet::new();
    for word in text.split_whitespace() {
        set = set.with(word.to_lowercase());
    }
    set
}

#[test]
fn fact_token_overlap_requires_high_similarity() {
    assert!(fact_words_overlap(
        &words("User prefers Rust for backend services"),
        &words("User prefers Rust for backend systems"),
    ));
    assert!(!fact_words_overlap(
        &words("User prefers Rust for backend services"),
        &words("User moved to Tokyo last month"),
    ));
}

/// Close where the similarity of the meanings is above 0.85.
fn passes(new_content: &str, existing: &Fact, similarity: Option<f64>) -> bool {
    boundary_flush_conflict_passes_two_step(
        new_content,
        "preference",
        existing,
        similarity.map(|s| s > 0.85),
        fact_words_overlap(&words(new_content), &words(&existing.content)),
    )
}

#[test]
fn boundary_flush_conflict_requires_same_type_and_embedding_signal() {
    let old_fact = fact(
        "old",
        "User prefers Rust for backend services",
        "preference",
    );
    let mut different_type = old_fact.clone();
    different_type.fact_type = "decision".to_string();

    assert!(passes(
        "User prefers Rust for backend systems",
        &old_fact,
        Some(0.9)
    ));
    assert!(!passes(
        "User prefers Rust for backend systems",
        &different_type,
        Some(0.9)
    ));
    assert!(!passes(
        "User prefers Rust for backend systems",
        &old_fact,
        None
    ));
    assert!(passes(
        "User no longer uses Python for backend systems",
        &old_fact,
        Some(0.9)
    ));
}

#[test]
fn boundary_flush_conflict_check_fallbacks_to_insert_on_embedding_failure() {
    let old_fact = fact(
        "old",
        "User prefers Rust for backend services",
        "preference",
    );
    let conflict = find_boundary_flush_conflict(
        "User prefers Rust for backend systems",
        "preference",
        &[old_fact],
        &[],
    );
    assert!(conflict.is_none());
}

#[test]
fn the_first_conflicting_fact_is_replaced() {
    let facts = [
        fact("a", "one", "event"),
        fact("b", "two", "preference"),
        fact("c", "three", "preference"),
    ];
    let near = || Closeness {
        meanings_close: true,
        words_close: true,
    };
    assert_eq!(
        find_boundary_flush_conflict("new", "preference", &facts, &[near(), near(), near()]),
        Some(1)
    );
    let far = Closeness {
        meanings_close: true,
        words_close: false,
    };
    assert_eq!(
        find_boundary_flush_conflict("new", "preference", &facts, &[near(), far, near()]),
        Some(2)
    );
    assert_eq!(
        conflict_texts("new", &facts),
        vec!["new", "one", "two", "three"]
    );
}

#[test]
fn corrections_are_told_by_phrases() {
    assert!(contains_correction_phrase("User NO LONGER uses Python"));
    assert!(contains_correction_phrase("用户改为使用 Rust"));
    assert!(!contains_correction_phrase("User likes tea"));
    assert!(lowered_is_correction("", "moved to berlin"));
    assert!(!lowered_is_correction("MOVED TO BERLIN", "MOVED TO BERLIN"));
}

#[test]
fn a_conversation_is_a_line_for_each_message() {
    let message = |role: &str, content: &str| SessionMessage {
        role: role.to_string(),
        content: content.to_string(),
        timestamp: None,
    };
    assert_eq!(
        summary_conversation(&[message("user", "a"), message("assistant", "b")]),
        Some("user: a\nassistant: b".to_string())
    );
    assert_eq!(summary_conversation(&[]), None);
}

#[test]
fn candidates_have_keys_and_types() {
    let mut c = candidate("x", SummaryClass::Fact, Some("  key "));
    assert_eq!(normalized_duplicate_key(&c), Some("key".to_string()));
    c.duplicate_key = Some("  ".to_string());
    assert_eq!(normalized_duplicate_key(&c), None);
    assert_eq!(normalized_candidate_fact_type(&c), "decision");
    c.fact_type = Some(" rule ".to_string());
    assert_eq!(normalized_candidate_fact_type(&c), "rule");
    c.fact_type = Some("other".to_string());
    assert_eq!(normalized_candidate_fact_type(&c), "decision");
    let made = fact_from_candidate(&c, "id".to_string(), 50);
    assert_eq!(made.content, "x");
    assert_eq!(made.id, "id");
    assert_eq!(made.fact_type, "decision");
}

#[test]
fn what_is_remembered_is_not_noted_again() {
    let write = RecentExplicitMemoryWrite {
        turn_index: 1,
        memory_ref: "f".to_string(),
        canonical_id: None,
        summary: "User prefers concise replies".to_string(),
        recorded_at: Timestamp { secs: 0, nanos: 0 },
    };
    let text = "User prefers concise replies";
    assert!(is_remembered(text, &[fact("f", text, "preference")], &[], &[]));
    assert!(is_remembered(text, &[], &[write], &[]));
    assert!(is_remembered(text, &[], &[], &[text.to_string()]));
    assert!(!is_remembered(text, &[], &[], &[]));
}

#[test]
fn a_run_decides_on_every_candidate() {
    let run = SummaryRun::start(
        retained(vec![
            candidate("We chose Verus for proofs", SummaryClass::Fact, None),
            candidate("We chose Verus for proofs", SummaryClass::Daily, None),
            candidate("Reviewed the parser today", SummaryClass::Daily, Some("parser")),
            candidate("Known item of memory", SummaryClass::Memory, None),
        ]),
        vec![],
        vec![],
        vec!["Known item of memory".to_string()],
    )
    .expect("something to decide");

    let (run, action) = run.proceed();
    assert!(matches!(action, SummaryAction::InsertFact));
    let c = run.current().expect("a candidate");
    assert_eq!(c.content, "We chose Verus for proofs");
    let stored = fact_from_candidate(c, "f1".to_string(), 50);
    let run = run.inserted(Some(stored));
    assert_eq!(run.active_facts().len(), 1);

    // The note of the same content is skipped; the next has a key to look up.
    let (run, action) = run.proceed();
    assert!(matches!(action, SummaryAction::LookUp(_)));
    assert_eq!(run.current().unwrap().content, "Reviewed the parser today");
    let mut run = run.answer(false);
    loop {
        let (next, action) = run.proceed();
        run = next;
        match action {
            SummaryAction::LookUp(_) => run = run.answer(false),
            SummaryAction::InsertFact => panic!("no fact is left"),
            SummaryAction::Finish => break,
        }
    }
    assert_eq!(run.kept().len(), 1);
    let blocks = run.daily_blocks();
    assert_eq!(blocks.len(), 1);
    assert_eq!(blocks[0].topic, "Topic");
    assert_eq!(blocks[0].items, vec!["Reviewed the parser today".to_string()]);
}

#[test]
fn a_record_that_is_found_settles_its_candidate() {
    let run = SummaryRun::start(
        retained(vec![candidate(
            "Reviewed the parser today",
            SummaryClass::Daily,
            Some("parser"),
        )]),
        vec![],
        vec![],
        vec![],
    )
    .unwrap();
    let (run, action) = run.proceed();
    assert!(matches!(action, SummaryAction::LookUp(_)));
    let (run, action) = run.answer(true).proceed();
    assert!(matches!(action, SummaryAction::Finish));
    assert!(run.kept().is_empty());
}

#[test]
fn a_fact_that_was_not_stored_is_passed_over() {
    let run = SummaryRun::start(
        retained(vec![candidate(
            "We chose Verus for proofs",
            SummaryClass::Fact,
            None,
        )]),
        vec![],
        vec![],
        vec![],
    )
    .unwrap();
    let (run, _) = run.proceed();
    let (run, action) = run.inserted(None).proceed();
    assert!(matches!(action, SummaryAction::Finish));
    assert!(run.active_facts().is_empty());
    assert!(run.kept().is_empty());
}

#[test]
fn nothing_retained_is_finished_at_once() {
    let run = SummaryRun::start(retained(vec![]), vec![], vec![], vec![]).expect("a run");
    let (run, action) = run.proceed();
    assert!(matches!(action, SummaryAction::Finish));
    assert!(run.current().is_none());
    assert!(run.daily_blocks().is_empty());
}

#[test]
fn lookups_have_labels() {
    assert_eq!(LookupKind::Fact.label(), "fact");
    assert_eq!(LookupKind::Daily.label(), "daily");
    assert_eq!(LookupKind::Memory.label(), "memory");
}

#[test]
fn outcomes_tell_whether_to_try_again() {
    assert!(summary_succeeded(SummaryOutcome::Written));
    assert!(summary_succeeded(SummaryOutcome::Unchanged));
    assert!(summary_succeeded(SummaryOutcome::NothingKept));
    assert!(!summary_succeeded(SummaryOutcome::ModelFailed));
    assert!(!summary_succeeded(SummaryOutcome::Unreadable));
    assert!(!summary_succeeded(SummaryOutcome::DailyWriteFailed));
    let text = Some("t".to_string());
    assert!(matches!(daily_outcome(0, &None, false), SummaryOutcome::NothingKept));
    assert!(matches!(daily_outcome(1, &None, false), SummaryOutcome::Unchanged));
    assert!(matches!(daily_outcome(1, &text, false), SummaryOutcome::Written));
    assert!(matches!(
        daily_outcome(1, &text, true),
        SummaryOutcome::DailyWriteFailed
    ));
}

#[test]
fn references_name_their_places() {
    let day = CalendarDate {
        year: 2026,
        month: 3,
        day: 9,
    };
    assert_eq!(daily_path(day), "memory/2026-03-09.md");
    assert_eq!(section_reference("MEMORY.md", "c1"), "MEMORY.md#c1");
    assert_eq!(session_reference_prefix("s1"), "sessions/s1#");
}
