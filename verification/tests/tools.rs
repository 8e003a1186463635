use clawhive_core::dates::CalendarDate;
use clawhive_core::memory_retrieval::{finish_search, match_fact, MemoryFactHit, MemoryHit};
use clawhive_core::memory_tools::{
    already_remembered, already_remembered_output, daily_output, forget_lookup_failed,
    forget_output, forget_step, format_memory_hit, key_with_date, long_term_output,
    nothing_to_forget, read_forget_request, read_get_request, read_memory_key,
    read_search_request, read_write_request, search_failed, search_output,
    unknown_key_output, with_explicit_write, write_output, ForgetStep, MemoryKey, MissingField,
};
use clawhive_core::orchestrator::messages::Timestamp;
use clawhive_core::records::{Fact, Score, SearchResult, TimeRange};

fn score(label: &str) -> Score {
    Score {
        order: 0,
        label: label.to_string(),
    }
}

fn fact(id: &str, content: &str, fact_type: &str) -> Fact {
    Fact {
        id: id.to_string(),
        content: content.to_string(),
        fact_type: fact_type.to_string(),
        occurred_at: None,
        salience: 50,
    }
}

fn at(secs: i64) -> Timestamp {
    Timestamp { secs, nanos: 0 }
}

/// Writes a fact where nothing like it is known, and gives the reply.
fn write(facts: &mut Vec<Fact>, items: &[String], content: &str, fact_type: &str) -> String {
    match already_remembered(content, facts, items) {
        Some(existing) => already_remembered_output(&existing).content,
        None => {
            let id = format!("fact-{}", facts.len());
            facts.push(fact(&id, content, fact_type));
            write_output(content, Ok(())).content
        }
    }
}

#[test]
fn format_memory_hit_chunk_uses_snippet_field() {
    let chunk = SearchResult {
        chunk_id: "chunk-1".to_string(),
        path: "MEMORY.md".to_string(),
        source: "long_term".to_string(),
        start_line: 1,
        end_line: 2,
        snippet: "short snippet...".to_string(),
        text: "very long full chunk text that should not be printed directly".to_string(),
        score: score("0.90"),
    };

    let rendered = format_memory_hit(&MemoryHit::Chunk(Box::new(chunk)));
    assert!(rendered.contains("short snippet..."));
    assert!(!rendered.contains("very long full chunk text"));
    assert_eq!(
        rendered,
        "- [MEMORY.md:1-2] [long_term] (score: 0.90) short snippet...\n"
    );
}

#[test]
fn memory_search_returns_results() {
    // With empty index, should return empty but not error
    let request = read_search_request(Some("test query".to_string()), None, None).unwrap();
    assert_eq!(request.query, "test query");
    let result = search_output(&[]);
    assert!(!result.is_error);
    assert_eq!(result.content, "No relevant memories found.");
}

#[test]
fn memory_search_includes_matching_facts() {
    let stored = fact("f", "User prefers Chinese replies", "preference");
    assert!(match_fact(&stored, "Chinese replies").is_some());
    let hits = vec![MemoryHit::Fact(Box::new(MemoryFactHit {
        fact: stored,
        score: score("1.54"),
    }))];
    let (hits, _) = finish_search(hits, 6);
    let result = search_output(&hits);
    assert!(!result.is_error);
    assert!(result.content.contains("[fact:preference]"));
    assert!(result.content.contains("[fact]"));
    assert!(result.content.contains("Chinese replies"));
    assert_eq!(
        result.content,
        "- [fact:preference] [fact] (score: 1.54) User prefers Chinese replies\n"
    );
}

#[test]
fn memory_get_long_term() {
    assert!(matches!(read_memory_key("MEMORY.md"), MemoryKey::LongTerm));
    let result = long_term_output(Ok("# Long term memory".to_string()));
    assert!(!result.is_error);
    assert!(result.content.contains("Long term memory"));
}

#[test]
fn memory_write_stores_active_fact() {
    let mut facts = Vec::new();
    let reply = write(&mut facts, &[], "User prefers dark mode", "preference");
    assert_eq!(reply, "Remembered: User prefers dark mode");
    assert_eq!(facts.len(), 1);
    assert_eq!(facts[0].fact_type, "preference");
}

#[test]
fn memory_write_is_idempotent_for_exact_duplicate() {
    let mut facts = Vec::new();
    let first = write(&mut facts, &[], "User prefers dark mode", "preference");
    assert_eq!(first, "Remembered: User prefers dark mode");
    let second = write(&mut facts, &[], "User prefers dark mode", "preference");
    assert_eq!(second, "Already remembered: User prefers dark mode");
    assert_eq!(facts.len(), 1);
}

#[test]
fn memory_write_suppresses_near_duplicate_fact() {
    let mut facts = Vec::new();
    write(&mut facts, &[], "User prefers Chinese replies", "preference");
    let second = write(
        &mut facts,
        &[],
        "User prefers Chinese replies for future answers",
        "preference",
    );
    assert_eq!(second, "Already remembered: User prefers Chinese replies");
    assert_eq!(facts.len(), 1);
}

#[test]
fn memory_write_suppresses_content_already_in_long_term_memory() {
    let mut facts = Vec::new();
    let items = vec!["Memory refactor is now section-based".to_string()];
    let reply = write(
        &mut facts,
        &items,
        "Memory refactor is now section-based",
        "decision",
    );
    assert_eq!(
        reply,
        "Already remembered: Memory refactor is now section-based"
    );
    assert!(facts.is_empty());
}

#[test]
fn memory_write_records_recent_explicit_marker_for_current_session() {
    let stored = fact("fact-1", "User prefers concise replies", "preference");
    let writes = with_explicit_write(&vec![], &stored, 4, at(100)).expect("a marker");
    assert_eq!(writes.len(), 1);
    let marker = &writes[0];
    assert_eq!(marker.turn_index, 5);
    assert_eq!(marker.summary, "User prefers concise replies");
    assert_eq!(marker.memory_ref, "fact-1");
    assert_eq!(marker.recorded_at, at(100));
}

#[test]
fn memory_forget_retracts_existing_fact() {
    assert!(matches!(forget_step(Some("active")), ForgetStep::Retract));
    let result = forget_output("User moved to Berlin", Ok(()));
    assert!(!result.is_error);
    assert_eq!(result.content, "Forgotten: User moved to Berlin");
}

#[test]
fn forgetting_needs_an_active_fact() {
    assert!(matches!(forget_step(Some("retracted")), ForgetStep::NotFound));
    assert!(matches!(forget_step(None), ForgetStep::NotFound));
    let result = nothing_to_forget("X");
    assert!(!result.is_error);
    assert_eq!(result.content, "No active fact found matching: X");
    let failed = forget_output("X", Err("locked".to_string()));
    assert!(failed.is_error);
    assert_eq!(failed.content, "Failed to retract fact: locked");
    let failed = forget_lookup_failed("locked");
    assert!(failed.is_error);
    assert_eq!(failed.content, "Failed to look up fact: locked");
}

#[test]
fn every_missing_field_is_named() {
    assert_eq!(MissingField::Query.message(), "missing 'query' field");
    assert_eq!(MissingField::Key.message(), "missing 'key' field");
    assert_eq!(MissingField::Content.message(), "missing 'content' field");
    assert_eq!(MissingField::FactType.message(), "missing 'fact_type' field");
    assert_eq!(MissingField::Reason.message(), "missing 'reason' field");
}

#[test]
fn a_search_request_has_defaults() {
    let request = read_search_request(Some("q".to_string()), None, None).unwrap();
    assert_eq!(request.max_results, 6);
    assert!(request.time_range.is_none());
    let range = TimeRange {
        from: Some("2026-03".to_string()),
        to: None,
    };
    let request = read_search_request(Some("q".to_string()), Some(2), Some(range)).unwrap();
    assert_eq!(request.max_results, 2);
    assert_eq!(
        request.time_range.unwrap().from,
        Some("2026-03".to_string())
    );
    assert!(matches!(
        read_search_request(None, None, None),
        Err(MissingField::Query)
    ));
}

#[test]
fn a_failed_search_says_why() {
    let failed = search_failed("no index");
    assert!(failed.is_error);
    assert_eq!(failed.content, "Search failed: no index");
}

#[test]
fn long_facts_are_cut_in_a_search() {
    let long = "长".repeat(201);
    let hit = MemoryHit::Fact(Box::new(MemoryFactHit {
        fact: fact("f", &long, "event"),
        score: score("0.50"),
    }));
    let rendered = format_memory_hit(&hit);
    assert!(rendered.contains(&"长".repeat(200)));
    assert!(!rendered.contains(&long));
    assert!(rendered.ends_with("...\n"));
    let exact = "长".repeat(200);
    let hit = MemoryHit::Fact(Box::new(MemoryFactHit {
        fact: fact("f", &exact, "event"),
        score: score("0.50"),
    }));
    assert!(!format_memory_hit(&hit).contains("..."));
}

#[test]
fn memory_keys_are_told_apart() {
    let day = CalendarDate {
        year: 2026,
        month: 3,
        day: 29,
    };
    assert!(matches!(read_memory_key("2026-03-29"), MemoryKey::Daily(d) if d == day));
    assert!(matches!(read_memory_key("2026-02-30"), MemoryKey::Unknown));
    assert!(matches!(read_memory_key("notes"), MemoryKey::Unknown));
    assert!(matches!(key_with_date("MEMORY.md", Some(day)), MemoryKey::LongTerm));
    let unknown = unknown_key_output("notes");
    assert!(unknown.is_error);
    assert_eq!(
        unknown.content,
        "Unknown memory key: notes. Use 'MEMORY.md' or 'YYYY-MM-DD'."
    );
}

#[test]
fn files_that_cannot_be_read_are_errors() {
    let failed = long_term_output(Err("denied".to_string()));
    assert!(failed.is_error);
    assert_eq!(failed.content, "Failed to read MEMORY.md: denied");
    let read = daily_output("2026-03-29", Ok(Some("# day".to_string())));
    assert!(!read.is_error);
    assert_eq!(read.content, "# day");
    let absent = daily_output("2026-03-29", Ok(None));
    assert!(!absent.is_error);
    assert_eq!(absent.content, "No daily file for 2026-03-29");
    let failed = daily_output("2026-03-29", Err("denied".to_string()));
    assert!(failed.is_error);
    assert_eq!(failed.content, "Failed to read daily file: denied");
}

#[test]
fn a_fact_that_cannot_be_stored_is_an_error() {
    let failed = write_output("X", Err("full".to_string()));
    assert!(failed.is_error);
    assert_eq!(failed.content, "Failed to store fact: full");
}

#[test]
fn a_marker_is_made_once_and_the_list_is_bounded() {
    let stored = fact("fact-1", "User prefers concise replies", "preference");
    let once = with_explicit_write(&vec![], &stored, 4, at(100)).unwrap();
    assert!(with_explicit_write(&once, &stored, 4, at(200)).is_none());
    let mut writes = once;
    for i in 0..40 {
        let more = fact(&format!("more-{}", i), &format!("word{} other{}", i, i), "event");
        if let Some(next) = with_explicit_write(&writes, &more, i, at(i as i64)) {
            writes = next;
        }
    }
    assert_eq!(writes.len(), 16);
    assert_eq!(writes[15].memory_ref, "more-39");
    assert_eq!(writes[0].memory_ref, "more-24");
}

#[test]
fn requests_need_their_fields() {
    let given = || Some("x".to_string());
    assert!(read_get_request(given()).is_ok());
    assert!(matches!(read_get_request(None), Err(MissingField::Key)));
    let write = read_write_request(given(), Some("rule".to_string())).unwrap();
    assert_eq!((write.content.as_str(), write.fact_type.as_str()), ("x", "rule"));
    assert!(matches!(
        read_write_request(None, None),
        Err(MissingField::Content)
    ));
    assert!(matches!(
        read_write_request(given(), None),
        Err(MissingField::FactType)
    ));
    let forget = read_forget_request(given(), Some("why".to_string())).unwrap();
    assert_eq!((forget.content.as_str(), forget.reason.as_str()), ("x", "why"));
    assert!(matches!(
        read_forget_request(None, given()),
        Err(MissingField::Content)
    ));
    assert!(matches!(
        read_forget_request(given(), None),
        Err(MissingField::Reason)
    ));
}
