use clawhive_core::memory_retrieval::{
    are_near_duplicates, canonical_ids_of, chunk_ids_of, classify_chunk_source, dedup_memory_hits,
    dedup_memory_hits_with_chunk_canonicals,
    dedup_memory_hits_with_chunk_canonicals_and_supersedes, fact_ids_of, fetch_limit,
    filter_duplicate_chunks_against_facts, filter_facts_by_time_range, find_matching_fact,
    finish_search, is_cjk, is_date_within, is_matching_memory_content, match_fact, normalize_text,
    rank_and_dedup, rank_hits, rerank_chunks_by_source, result_limit, routing_signals,
    settle_search, source_label, source_weight_percent, tokenize, Lineage, MemoryFactHit,
    MemoryHit, MemoryRoutingBias, MemorySourceKind, RoutingSignal,
};
use clawhive_core::dates::CalendarDate;
use clawhive_core::records::{CanonicalEntry, Fact, Score, SearchResult, TimeRange};

/// Orders as `f64::total_cmp` does.
fn order_of(x: f64) -> i64 {
    let bits = x.to_bits() as i64;
    bits ^ ((((bits >> 63) as u64) >> 1) as i64)
}

fn score(x: f64) -> Score {
    Score {
        order: order_of(x),
        label: format!("{:.2}", x),
    }
}

fn make_result(path: &str, source: &str, value: f64) -> SearchResult {
    SearchResult {
        chunk_id: format!("{}:0-1:test", path),
        path: path.to_string(),
        source: source.to_string(),
        start_line: 0,
        end_line: 1,
        snippet: "demo".to_string(),
        text: "demo".to_string(),
        score: score(value),
    }
}

fn chunk(id: &str, path: &str, source: &str, text: &str, value: f64) -> MemoryHit {
    MemoryHit::Chunk(Box::new(SearchResult {
        chunk_id: id.to_string(),
        path: path.to_string(),
        source: source.to_string(),
        start_line: 1,
        end_line: 2,
        snippet: text.to_string(),
        text: text.to_string(),
        score: score(value),
    }))
}

fn make_fact(id: &str, content: &str, fact_type: &str) -> Fact {
    Fact {
        id: id.to_string(),
        content: content.to_string(),
        fact_type: fact_type.to_string(),
        occurred_at: None,
        salience: 50,
    }
}

fn fact_hit(fact: Fact, value: f64) -> MemoryHit {
    MemoryHit::Fact(Box::new(MemoryFactHit {
        fact,
        score: score(value),
    }))
}

fn entry(id: &str, canonical: &[&str]) -> CanonicalEntry {
    CanonicalEntry {
        id: id.to_string(),
        canonical_ids: canonical.iter().map(|c| c.to_string()).collect(),
    }
}

#[test]
fn rerank_prefers_long_term_over_session_when_scores_are_close() {
    let results = vec![
        make_result("sessions/demo", "session", 0.82),
        make_result("MEMORY.md", "long_term", 0.8),
    ];
    let values = [0.82, 0.8];
    let weighted: Vec<Score> = results
        .iter()
        .zip(values.iter())
        .map(|(r, v)| {
            let kind = classify_chunk_source(&r.source, &r.path);
            let percent = source_weight_percent(kind, MemoryRoutingBias::Neutral);
            score(v * (percent as f64 / 100.0))
        })
        .collect();

    let results = rerank_chunks_by_source(&results, &weighted);

    assert_eq!(results[0].path, "MEMORY.md");
    assert!(results[0].score.order > results[1].score.order);
    assert_eq!(results[0].score.label, "0.88");
    assert_eq!(results[1].score.label, "0.70");
}

#[test]
fn dedup_memory_hits_prefers_first_hit_for_near_duplicates() {
    let fact = make_fact(
        "fact-1",
        "User prefers Chinese replies for all future answers",
        "preference",
    );
    let hits = dedup_memory_hits(vec![
        fact_hit(fact, 1.0),
        chunk(
            "chunk-1",
            "MEMORY.md",
            "long_term",
            "User prefers Chinese replies for all future answers",
            0.9,
        ),
    ]);

    assert_eq!(hits.len(), 1);
    assert!(matches!(hits[0], MemoryHit::Fact(_)));
}

#[test]
fn dedup_memory_hits_drops_later_chunk_with_same_canonical() {
    let hits = vec![
        chunk(
            "chunk-memory",
            "MEMORY.md",
            "long_term",
            "ActionBook 采用 CDP 抽取文章结构",
            1.1,
        ),
        chunk(
            "chunk-daily",
            "memory/2026-03-29.md",
            "daily",
            "今天讨论了 ActionBook 的 CDP 文章抽取方案",
            0.95,
        ),
    ];
    let chunk_canonical_ids = vec![
        entry("chunk-memory", &["canon-1", "canon-shared"]),
        entry("chunk-daily", &["canon-shared"]),
    ];

    let deduped = dedup_memory_hits_with_chunk_canonicals(hits, chunk_canonical_ids);

    assert_eq!(deduped.len(), 1);
    assert_eq!(deduped[0].chunk_id(), Some("chunk-memory"));
}

#[test]
fn dedup_memory_hits_drops_chunk_when_all_its_canonicals_are_superseded() {
    let hits = vec![
        chunk(
            "chunk-old",
            "memory/2026-03-28.md",
            "daily",
            "Use incremental patch consolidation for memory",
            1.2,
        ),
        chunk(
            "chunk-new",
            "MEMORY.md",
            "long_term",
            "Use section-based consolidation for memory",
            0.9,
        ),
    ];
    let lineage = Lineage {
        fact_canonical_ids: vec![],
        chunk_canonical_ids: vec![
            entry("chunk-old", &["canon-old"]),
            entry("chunk-new", &["canon-new"]),
        ],
        superseding_canonical_ids: vec![entry("canon-old", &["canon-new"])],
    };

    let deduped = dedup_memory_hits_with_chunk_canonicals_and_supersedes(hits, &lineage);

    assert_eq!(deduped.len(), 1);
    assert_eq!(deduped[0].chunk_id(), Some("chunk-new"));
}

#[test]
fn dedup_memory_hits_drops_chunk_when_fact_shares_memory_canonical() {
    let fact = make_fact(
        "fact-1",
        "Use section-based consolidation for memory",
        "decision",
    );
    let hits = vec![
        fact_hit(fact, 1.1),
        chunk(
            "chunk-memory",
            "MEMORY.md",
            "long_term",
            "The project uses section-based consolidation for memory",
            1.05,
        ),
    ];
    let lineage = Lineage {
        fact_canonical_ids: vec![entry("fact-1", &["canon-fact", "canon-memory"])],
        chunk_canonical_ids: vec![entry("chunk-memory", &["canon-memory"])],
        superseding_canonical_ids: vec![],
    };

    let deduped = dedup_memory_hits_with_chunk_canonicals_and_supersedes(hits, &lineage);

    assert_eq!(deduped.len(), 1);
    assert!(matches!(deduped[0], MemoryHit::Fact(_)));
}

#[test]
fn tokenize_handles_cjk_text() {
    let tokens = tokenize("用户喜欢吃拉面");
    // Should contain CJK unigrams
    assert!(tokens.contains("用"));
    assert!(tokens.contains("喜"));
    assert!(tokens.contains("面"));
    // Should contain CJK bigrams
    assert!(tokens.contains("喜欢"));
    assert!(tokens.contains("拉面"));
}

#[test]
fn filter_facts_by_time_range_uses_occurred_at() {
    let mut in_range = make_fact("fact-in", "In range fact", "event");
    in_range.occurred_at = Some("2026-03-15T10:00:00Z".to_string());
    let mut out_of_range = in_range.clone();
    out_of_range.id = "fact-out".to_string();
    out_of_range.occurred_at = Some("2026-04-01T00:00:00Z".to_string());

    let filtered = filter_facts_by_time_range(
        &[in_range, out_of_range],
        Some(&TimeRange {
            from: Some("2026-03".to_string()),
            to: Some("2026-03".to_string()),
        }),
    );

    assert_eq!(filtered.len(), 1);
    assert_eq!(filtered[0].id, "fact-in");
}

#[test]
fn range_without_ends_keeps_dated_facts_only() {
    let undated = make_fact("undated", "no date", "event");
    let mut dated = make_fact("dated", "a date", "event");
    dated.occurred_at = Some("2026-03-15".to_string());
    let mut unreadable = make_fact("unreadable", "a bad date", "event");
    unreadable.occurred_at = Some("soon".to_string());
    let facts = [undated, dated, unreadable];
    let open = TimeRange {
        from: None,
        to: None,
    };
    let kept = filter_facts_by_time_range(&facts, Some(&open));
    assert_eq!(kept.len(), 1);
    assert_eq!(kept[0].id, "dated");
    assert_eq!(filter_facts_by_time_range(&facts, None).len(), 3);
}

#[test]
fn a_day_lies_within_its_ends() {
    let day = |d: u32| CalendarDate {
        year: 2026,
        month: 3,
        day: d,
    };
    assert!(is_date_within(Some(day(5)), Some(day(5)), Some(day(5))));
    assert!(!is_date_within(Some(day(4)), Some(day(5)), None));
    assert!(!is_date_within(Some(day(6)), None, Some(day(5))));
    assert!(is_date_within(Some(day(6)), None, None));
    assert!(!is_date_within(None, None, None));
}

#[test]
fn labels_and_kinds_agree() {
    let kinds = [
        (MemorySourceKind::Fact, "fact"),
        (MemorySourceKind::LongTerm, "long_term"),
        (MemorySourceKind::Daily, "daily"),
        (MemorySourceKind::Session, "session"),
        (MemorySourceKind::Other, "other"),
    ];
    for (kind, label) in kinds {
        assert_eq!(source_label(kind), label);
    }
    assert_eq!(
        classify_chunk_source("x", "MEMORY.md"),
        MemorySourceKind::LongTerm
    );
    assert_eq!(
        classify_chunk_source("x", "memory/2026-01-01.md"),
        MemorySourceKind::Daily
    );
    assert_eq!(
        classify_chunk_source("x", "sessions/a"),
        MemorySourceKind::Session
    );
    assert_eq!(classify_chunk_source("x", "notes.md"), MemorySourceKind::Other);
    assert_eq!(
        classify_chunk_source("daily", "MEMORY.md"),
        MemorySourceKind::Daily
    );
}

#[test]
fn normalizing_lowers_and_blanks_punctuation() {
    assert_eq!(normalize_text("Hello, World!"), "hello  world ");
    assert_eq!(normalize_text("Ünï-Code"), "Ünï code");
    assert_eq!(normalize_text("用户：好"), "用户 好");
}

#[test]
fn cjk_ranges_have_their_ends() {
    assert!(is_cjk('\u{4e00}') && is_cjk('\u{9fff}'));
    assert!(is_cjk('\u{3400}') && is_cjk('\u{4dbf}'));
    assert!(is_cjk('\u{3000}') && is_cjk('\u{30ff}'));
    assert!(is_cjk('\u{ac00}') && is_cjk('\u{d7af}'));
    assert!(!is_cjk('a') && !is_cjk('\u{2fff}') && !is_cjk('\u{3100}') && !is_cjk('\u{d7b0}'));
}

#[test]
fn near_duplicates_by_containment_and_overlap() {
    assert!(are_near_duplicates("same", "same"));
    // Containment counts only from 24 bytes on.
    assert!(are_near_duplicates(
        "user prefers chinese replies",
        "user prefers chinese"
    ));
    assert!(!are_near_duplicates("ab cd ef", "ab cd"));
    // Four of five tokens.
    assert!(are_near_duplicates("aa bb cc dd ee", "aa bb cc dd xx"));
    assert!(!are_near_duplicates("aa bb cc dd ee", "aa bb cc yy xx"));
    assert!(!are_near_duplicates("a", "b"));
}

#[test]
fn the_first_matching_fact_is_found() {
    let facts = vec![
        make_fact("one", "User likes tea", "preference"),
        make_fact("two", "User prefers Chinese replies", "preference"),
        make_fact("three", "User prefers Chinese replies!", "preference"),
    ];
    let found = find_matching_fact(&facts, "user prefers chinese replies");
    assert_eq!(found.map(|f| f.id.as_str()), Some("two"));
    assert!(find_matching_fact(&facts, "nothing of the kind").is_none());
    assert!(!is_matching_memory_content("", ""));
}

#[test]
fn facts_match_by_overlap_type_or_containment() {
    let fact = make_fact("f", "User prefers Chinese replies", "preference");
    let m = match_fact(&fact, "Chinese replies").expect("matches");
    assert_eq!((m.overlap, m.query_tokens), (2, 2));
    assert!(m.contains_query);
    assert!(!m.fact_type_match);
    assert_eq!(m.salience, 50);
    let by_type = match_fact(&fact, "which preference").expect("matches by type");
    assert_eq!((by_type.overlap, by_type.query_tokens), (0, 2));
    assert!(by_type.fact_type_match);
    assert!(match_fact(&fact, "weather tomorrow").is_none());
    assert!(match_fact(&fact, "").is_none());
    let cjk = make_fact("g", "用户喜欢吃拉面", "preference");
    assert!(match_fact(&cjk, "我喜欢吃什么面").is_some());
}

#[test]
fn salience_is_held_within_its_range() {
    let mut fact = make_fact("f", "User likes ramen", "preference");
    fact.salience = 900;
    assert_eq!(match_fact(&fact, "likes ramen").unwrap().salience, 100);
    fact.salience = -3;
    assert_eq!(match_fact(&fact, "likes ramen").unwrap().salience, 0);
}

#[test]
fn weights_follow_the_bias() {
    let w = source_weight_percent;
    assert_eq!(w(MemorySourceKind::Fact, MemoryRoutingBias::Neutral), 125);
    assert_eq!(w(MemorySourceKind::LongTerm, MemoryRoutingBias::Neutral), 110);
    assert_eq!(w(MemorySourceKind::Daily, MemoryRoutingBias::Neutral), 100);
    assert_eq!(w(MemorySourceKind::Session, MemoryRoutingBias::Neutral), 85);
    assert_eq!(w(MemorySourceKind::Fact, MemoryRoutingBias::LongTerm), 135);
    assert_eq!(w(MemorySourceKind::LongTerm, MemoryRoutingBias::LongTerm), 120);
    assert_eq!(w(MemorySourceKind::Daily, MemoryRoutingBias::LongTerm), 95);
    assert_eq!(w(MemorySourceKind::Session, MemoryRoutingBias::LongTerm), 75);
    assert_eq!(w(MemorySourceKind::Fact, MemoryRoutingBias::ShortTerm), 95);
    assert_eq!(w(MemorySourceKind::LongTerm, MemoryRoutingBias::ShortTerm), 90);
    assert_eq!(w(MemorySourceKind::Daily, MemoryRoutingBias::ShortTerm), 118);
    assert_eq!(w(MemorySourceKind::Session, MemoryRoutingBias::ShortTerm), 105);
    assert_eq!(w(MemorySourceKind::Other, MemoryRoutingBias::ShortTerm), 100);
}

#[test]
fn routing_looks_at_six_hits() {
    let mut hits = Vec::new();
    for i in 0..8 {
        hits.push(chunk(
            &format!("c{}", i),
            if i == 0 { "MEMORY.md" } else { "memory/a.md" },
            "",
            "text",
            1.0,
        ));
    }
    hits[5] = chunk("x", "elsewhere", "", "text", 1.0);
    let signals = routing_signals(&hits);
    assert_eq!(signals.len(), 6);
    assert_eq!(signals[0], RoutingSignal::LongTerm);
    assert_eq!(signals[1], RoutingSignal::ShortTerm);
    assert_eq!(signals[5], RoutingSignal::Silent);
}

#[test]
fn hits_are_ranked_by_score_and_stay_stable() {
    let hits = vec![
        chunk("a", "p", "", "alpha beta", 0.5),
        chunk("b", "p", "", "gamma delta", 0.9),
        chunk("c", "p", "", "epsilon zeta", 0.5),
        chunk("d", "p", "", "eta theta", -0.5),
    ];
    let ranked = rank_hits(&hits);
    let ids: Vec<&str> = ranked.iter().map(|h| h.chunk_id().unwrap()).collect();
    assert_eq!(ids, vec!["b", "a", "c", "d"]);
    let none = Lineage {
        fact_canonical_ids: vec![],
        chunk_canonical_ids: vec![],
        superseding_canonical_ids: vec![],
    };
    let again = rank_and_dedup(&rank_and_dedup(&hits, &none), &none);
    assert_eq!(again.len(), 4);
}

#[test]
fn a_biased_search_is_ranked_anew() {
    let none = Lineage {
        fact_canonical_ids: vec![],
        chunk_canonical_ids: vec![],
        superseding_canonical_ids: vec![],
    };
    let ordered = vec![
        fact_hit(make_fact("f", "one two three", "event"), 0.9),
        chunk("c", "memory/a.md", "daily", "four five six", 0.8),
        chunk("d", "memory/b.md", "daily", "seven eight nine", 0.7),
    ];
    let (plain, ids) = settle_search(ordered.clone(), &none, None, 2);
    assert_eq!(plain.len(), 2);
    assert_eq!(ids, vec!["f".to_string()]);
    let biased = vec![score(0.1), score(0.2), score(0.3)];
    let (results, ids) = settle_search(ordered, &none, Some(&biased), 2);
    assert_eq!(results[0].chunk_id(), Some("d"));
    assert_eq!(results[1].chunk_id(), Some("c"));
    assert!(ids.is_empty());
}

#[test]
fn limits_of_a_search() {
    assert_eq!(result_limit(0), 6);
    assert_eq!(result_limit(3), 3);
    assert_eq!(fetch_limit(6), 18);
    assert_eq!(fetch_limit(usize::MAX), usize::MAX);
}

#[test]
fn results_keep_their_leading_hits_and_name_their_facts() {
    let hits = vec![
        chunk("c1", "p", "", "x", 1.0),
        fact_hit(make_fact("f1", "y", "event"), 0.9),
        fact_hit(make_fact("f2", "z", "event"), 0.8),
    ];
    assert_eq!(fact_ids_of(&hits), vec!["f1".to_string(), "f2".to_string()]);
    assert_eq!(chunk_ids_of(&hits), vec!["c1".to_string()]);
    let (kept, ids) = finish_search(hits, 2);
    assert_eq!(kept.len(), 2);
    assert_eq!(ids, vec!["f1".to_string()]);
    let set = canonical_ids_of(&[entry("a", &["1", "2"]), entry("b", &["2"])]);
    assert_eq!(set.sorted(), vec!["1".to_string(), "2".to_string()]);
}

#[test]
fn chunks_that_a_fact_tells_are_left_out() {
    let facts = vec![make_fact(
        "f",
        "User prefers Chinese replies for all future answers",
        "preference",
    )];
    let mut told = make_result("MEMORY.md", "long_term", 1.0);
    told.text = "User prefers Chinese replies for all future answers".to_string();
    let mut other = make_result("memory/a.md", "daily", 1.0);
    other.text = "Something else entirely".to_string();
    let kept = filter_duplicate_chunks_against_facts(vec![told, other], &facts);
    assert_eq!(kept.len(), 1);
    assert_eq!(kept[0].path, "memory/a.md");
}

#[test]
fn normalizing_twice_changes_nothing() {
    for text in ["", "Hello, World!", "Ünï-Code ÀB", "用户：好\t2²", "A\u{a0}B—c"] {
        let once = normalize_text(text);
        assert_eq!(normalize_text(&once), once);
        assert_eq!(once.chars().count(), text.chars().count());
    }
    // Of ASCII, letters and digits stay, and so does white space.
    for byte in 0..128u8 {
        let c = byte as char;
        let kept = normalize_text(&c.to_string());
        let expected = if c.is_ascii_alphanumeric() || c.is_whitespace() {
            c.to_ascii_lowercase()
        } else {
            ' '
        };
        assert_eq!(kept, expected.to_string());
    }
}

#[test]
fn matching_goes_by_normalized_texts() {
    let texts = [
        "",
        "!",
        "User likes: dark mode.",
        "user likes  dark mode ",
        "Something else entirely",
    ];
    for a in texts {
        assert_eq!(is_matching_memory_content(a, a), !a.is_empty());
        for b in texts {
            assert_eq!(
                is_matching_memory_content(&normalize_text(a), &normalize_text(b)),
                is_matching_memory_content(a, b)
            );
        }
    }
    assert!(is_matching_memory_content(texts[2], texts[3]));
    assert!(!is_matching_memory_content(texts[2], texts[4]));
}

#[test]
fn results_fall_in_score_and_entries_go_by_their_key() {
    let hits = vec![
        chunk("a", "memory/a.md", "daily", "one two three", 0.2),
        chunk("b", "memory/b.md", "daily", "four five six", 0.9),
        chunk("c", "memory/c.md", "daily", "seven eight nine", 0.5),
        chunk("d", "memory/d.md", "daily", "ten eleven twelve", 0.4),
    ];
    let lineage = |entries: Vec<CanonicalEntry>| Lineage {
        fact_canonical_ids: vec![],
        chunk_canonical_ids: entries,
        superseding_canonical_ids: vec![],
    };
    // The order of the entries makes no difference.
    let one_way = lineage(vec![entry("b", &["x"]), entry("d", &["x", "y"])]);
    let other_way = lineage(vec![entry("d", &["x", "y"]), entry("b", &["x"])]);
    for known in [one_way, other_way] {
        let results = rank_and_dedup(&hits, &known);
        let ids: Vec<Option<&str>> = results.iter().map(|hit| hit.chunk_id()).collect();
        assert_eq!(ids, vec![Some("b"), Some("c"), Some("a")]);
        for pair in results.windows(2) {
            assert!(pair[0].score().order >= pair[1].score().order);
        }
    }
}
