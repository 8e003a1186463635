use clawhive_core::memory_retrieval::{
    routing_signals, MemoryFactHit, MemoryHit, MemoryRoutingBias, RoutingSignal,
};
use clawhive_core::orchestrator::memory_context::{
    build_known_facts_section, build_memory_context_from_fallback, build_memory_context_from_hits,
    chunks_of_hits, clamp_to_budget, context_with_long_term, context_without_hits, facts_of_hits,
    injection_budget, plan_memory_context, select_chunks_for_context,
    should_use_long_term_fallback, truncate_text_to_budget, truncate_tool_result_preview,
    ContextPlan, ContextSource,
};
use clawhive_core::records::{Fact, Score, SearchResult};

fn make_result(path: &str, source: &str, text: &str, value: f64) -> SearchResult {
    let bits = value.to_bits() as i64;
    SearchResult {
        chunk_id: format!("{}:0-1:abc", path),
        path: path.to_string(),
        source: source.to_string(),
        start_line: 0,
        end_line: 1,
        snippet: text.to_string(),
        text: text.to_string(),
        score: Score {
            order: bits ^ ((((bits >> 63) as u64) >> 1) as i64),
            label: format!("{:.2}", value),
        },
    }
}

fn chunk_hit(path: &str, source: &str, text: &str, value: f64) -> MemoryHit {
    MemoryHit::Chunk(Box::new(make_result(path, source, text, value)))
}

fn make_fact(fact_type: &str, content: &str) -> Fact {
    Fact {
        id: "f".to_string(),
        content: content.to_string(),
        fact_type: fact_type.to_string(),
        occurred_at: None,
        salience: 50,
    }
}

fn fact_hit(fact_type: &str, content: &str) -> MemoryHit {
    MemoryHit::Fact(Box::new(MemoryFactHit {
        fact: make_fact(fact_type, content),
        score: Score {
            order: 0,
            label: "0.00".to_string(),
        },
    }))
}

/// The bias that the leading hits speak for.
fn bias_of(hits: &[MemoryHit], scores: &[f64]) -> MemoryRoutingBias {
    let mut long = 0.0;
    let mut short = 0.0;
    for (i, signal) in routing_signals(hits).into_iter().enumerate() {
        let contribution = scores[i].max(0.0) / ((i + 1) as f64);
        match signal {
            RoutingSignal::LongTerm => {
                long += contribution;
                short -= contribution * 0.45;
            }
            RoutingSignal::ShortTerm => {
                short += contribution;
                long -= contribution * 0.35;
            }
            RoutingSignal::Silent => {}
        }
    }
    if long > short + 0.18 {
        MemoryRoutingBias::LongTerm
    } else if short > long + 0.18 {
        MemoryRoutingBias::ShortTerm
    } else {
        MemoryRoutingBias::Neutral
    }
}

#[test]
fn test_clamp_to_budget_empty_results() {
    assert_eq!(clamp_to_budget(&[], 100), "");
}

#[test]
fn test_clamp_to_budget_within_limit() {
    let results = vec![
        make_result("memory/a.md", "daily", "first chunk", 0.91),
        make_result("memory/b.md", "daily", "second chunk", 0.83),
    ];

    let context = clamp_to_budget(&results, 1_000);

    assert!(context.starts_with("## Relevant Memory\n\n"));
    assert!(context.contains("### memory/a.md (score: 0.91)\nfirst chunk\n\n"));
    assert!(context.contains("### memory/b.md (score: 0.83)\nsecond chunk\n\n"));
}

#[test]
fn test_clamp_to_budget_exceeds_limit() {
    let results = vec![make_result(
        "memory/a.md",
        "daily",
        "abcdefghijklmnopqrstuvwxyz",
        0.91,
    )];

    let context = clamp_to_budget(&results, 40);

    assert!(context.starts_with("## Relevant Memory\n\n"));
    assert!(context.contains("...[truncated]"));
    assert!(!context.contains("abcdefghijklmnopqrstuvwxyz"));
    assert!(!context.is_empty());
}

#[test]
fn test_clamp_to_budget_zero_budget() {
    let results = vec![make_result("memory/a.md", "daily", "first chunk", 0.91)];

    assert_eq!(clamp_to_budget(&results, 0), "");
}

#[test]
fn build_memory_context_from_hits_long_term_query_suppresses_daily_and_session_noise() {
    let hits = vec![
        chunk_hit(
            "MEMORY.md",
            "long_term",
            "长期主线：重构记忆系统，采用分层记忆架构。",
            1.32,
        ),
        chunk_hit(
            "memory/2026-03-29.md",
            "daily",
            "daily 细节：品牌命名还在候选阶段。",
            0.94,
        ),
        chunk_hit(
            "sessions/demo#turn:1-2",
            "session",
            "session 讨论：列出一堆当前缺陷清单。",
            0.81,
        ),
    ];
    let bias = bias_of(&hits, &[1.32, 0.94, 0.81]);
    assert_eq!(bias, MemoryRoutingBias::LongTerm);

    let context = build_memory_context_from_hits(&hits, bias, 4_000);

    assert!(context.contains("MEMORY.md"));
    assert!(context.contains("长期主线：重构记忆系统"));
    assert!(!context.contains("品牌命名还在候选阶段"));
    assert!(!context.contains("列出一堆当前缺陷清单"));
}

#[test]
fn build_memory_context_from_hits_short_term_query_prefers_daily_over_long_term() {
    let hits = vec![
        chunk_hit(
            "memory/2026-03-30.md",
            "daily",
            "短期事项：品牌命名还在候选阶段。",
            1.28,
        ),
        chunk_hit(
            "sessions/demo#turn:1",
            "session",
            "session 补充：刚确认了几个候选词。",
            1.04,
        ),
        chunk_hit("MEMORY.md", "long_term", "长期主线：重构记忆系统。", 0.83),
    ];
    let bias = bias_of(&hits, &[1.28, 1.04, 0.83]);
    assert_eq!(bias, MemoryRoutingBias::ShortTerm);

    let context = build_memory_context_from_hits(&hits, bias, 4_000);

    let daily_pos = context.find("memory/2026-03-30.md").expect("daily hit");
    let long_term_pos = context.find("MEMORY.md").expect("long term hit");
    assert!(daily_pos < long_term_pos);
    assert!(context.contains("品牌命名还在候选阶段"));
}

#[test]
fn should_use_long_term_fallback_only_when_long_term_query_has_no_fact_or_memory_hit() {
    let daily_hit = chunk_hit(
        "memory/2026-03-30.md",
        "daily",
        "短期事项：品牌命名还在候选阶段。",
        1.0,
    );
    let long_term_hit = chunk_hit("MEMORY.md", "long_term", "长期主线：重构记忆系统。", 0.8);

    assert!(should_use_long_term_fallback(
        MemoryRoutingBias::LongTerm,
        std::slice::from_ref(&daily_hit),
    ));
    assert!(!should_use_long_term_fallback(
        MemoryRoutingBias::LongTerm,
        &[daily_hit, long_term_hit.clone()],
    ));
    assert!(!should_use_long_term_fallback(
        MemoryRoutingBias::ShortTerm,
        std::slice::from_ref(&long_term_hit),
    ));
}

#[test]
fn a_chunk_that_does_not_fit_is_cut_to_the_budget() {
    let results = vec![make_result("a", "daily", "abcdefghijklmnop", 1.0)];
    // The heading takes 20 characters, the note of the cut 15.
    assert_eq!(
        clamp_to_budget(&results, 40),
        "## Relevant Memory\n\n### a\n...[truncated]"
    );
    assert_eq!(clamp_to_budget(&results, 30), "## Relevant Memory\n\n");
    assert_eq!(clamp_to_budget(&results, 5), "## Re");
    for budget in 0..80 {
        assert!(clamp_to_budget(&results, budget).chars().count() <= budget);
    }
}

#[test]
fn later_chunks_are_left_out_whole() {
    let results = vec![
        make_result("a", "daily", "x", 1.0),
        make_result("b", "daily", "yyyyyyyyyyyyyyyyyyyyyyyyyy", 1.0),
    ];
    assert_eq!(
        clamp_to_budget(&results, 60),
        "## Relevant Memory\n\n### a (score: 1.00)\nx\n\n"
    );
}

#[test]
fn texts_are_cut_by_characters() {
    assert_eq!(truncate_text_to_budget("héllo", 5), "héllo");
    assert_eq!(
        truncate_text_to_budget(&"é".repeat(30), 20),
        format!("{}\n...[truncated]", "é".repeat(5))
    );
    assert_eq!(truncate_text_to_budget("abcdefgh", 4).chars().count(), 4);
    assert_eq!(truncate_text_to_budget("abc", 0), "");
}

#[test]
fn known_facts_are_listed() {
    let facts = vec![make_fact("rule", "Be brief"), make_fact("event", "Moved")];
    assert_eq!(
        build_known_facts_section(&facts, 1000),
        "## Known Facts\n\n- [rule] Be brief\n- [event] Moved\n\n"
    );
    assert_eq!(build_known_facts_section(&[], 1000), "");
    assert_eq!(build_known_facts_section(&facts, 0), "");
}

#[test]
fn facts_and_chunks_are_parted() {
    let hits = vec![
        fact_hit("rule", "one"),
        chunk_hit("a", "daily", "two", 1.0),
        fact_hit("rule", "three"),
    ];
    let facts: Vec<String> = facts_of_hits(&hits).into_iter().map(|f| f.content).collect();
    assert_eq!(facts, vec!["one".to_string(), "three".to_string()]);
    let chunks = chunks_of_hits(&hits);
    assert_eq!(chunks.len(), 1);
    assert_eq!(chunks[0].text, "two");
}

#[test]
fn the_bias_decides_how_many_chunks_of_each_kind_are_shown() {
    let mut chunks = Vec::new();
    for i in 0..6 {
        chunks.push(make_result("MEMORY.md", "long_term", &format!("L{}", i), 1.0));
        chunks.push(make_result("memory/a.md", "daily", &format!("D{}", i), 1.0));
        chunks.push(make_result("sessions/a", "session", &format!("S{}", i), 1.0));
    }
    chunks.push(make_result("notes", "", "O", 1.0));
    let texts = |bias: MemoryRoutingBias| -> Vec<String> {
        select_chunks_for_context(chunks.clone(), bias)
            .into_iter()
            .map(|c| c.text)
            .collect()
    };
    assert_eq!(
        texts(MemoryRoutingBias::LongTerm),
        vec!["L0", "L1", "L2", "L3", "O"]
    );
    assert_eq!(
        texts(MemoryRoutingBias::ShortTerm),
        vec!["D0", "D1", "D2", "D3", "S0", "S1", "L0", "O"]
    );
    assert_eq!(
        texts(MemoryRoutingBias::Neutral),
        vec!["L0", "L1", "D0", "D1", "S0", "O"]
    );
    let recent: Vec<SearchResult> = chunks
        .iter()
        .filter(|c| c.source != "long_term")
        .cloned()
        .collect();
    let shown: Vec<String> = select_chunks_for_context(recent, MemoryRoutingBias::LongTerm)
        .into_iter()
        .map(|c| c.text)
        .collect();
    assert_eq!(shown, vec!["D0", "D1", "D2", "S0", "O"]);
}

#[test]
fn the_context_holds_facts_and_keeps_its_budget() {
    let hits = vec![
        fact_hit("preference", "User prefers Chinese replies"),
        chunk_hit("memory/a.md", "daily", "Something else entirely", 1.0),
    ];
    let context = build_memory_context_from_hits(&hits, MemoryRoutingBias::Neutral, 4_000);
    assert!(context.starts_with("## Known Facts\n\n- [preference] User prefers Chinese replies\n"));
    assert!(context.contains("### memory/a.md (score: 1.00)\nSomething else entirely\n\n"));
    for budget in 0..160 {
        let cut = build_memory_context_from_hits(&hits, MemoryRoutingBias::Neutral, budget);
        assert!(cut.chars().count() <= budget);
        let facts = facts_of_hits(&hits);
        let cut = build_memory_context_from_fallback(&facts, "files", budget);
        assert!(cut.chars().count() <= budget);
    }
}

#[test]
fn the_plan_follows_the_search() {
    let daily = [chunk_hit("memory/a.md", "daily", "x", 1.0)];
    let plan = |ok: bool, hits: &[MemoryHit], bias: MemoryRoutingBias| {
        plan_memory_context(ok, hits, bias)
    };
    assert!(matches!(
        plan(false, &daily, MemoryRoutingBias::Neutral),
        ContextPlan::FilesOrFacts
    ));
    assert!(matches!(
        plan(true, &[], MemoryRoutingBias::Neutral),
        ContextPlan::FilesOrFacts
    ));
    assert!(matches!(
        plan(true, &daily, MemoryRoutingBias::LongTerm),
        ContextPlan::LongTermOrHits
    ));
    assert!(matches!(
        plan(true, &daily, MemoryRoutingBias::Neutral),
        ContextPlan::LongTermOrHits
    ));
    assert!(matches!(
        plan(true, &daily, MemoryRoutingBias::ShortTerm),
        ContextPlan::Hits
    ));
    let durable = [fact_hit("rule", "Be brief")];
    assert!(matches!(
        plan(true, &durable, MemoryRoutingBias::Neutral),
        ContextPlan::Hits
    ));
}

#[test]
fn long_term_memory_stands_in_where_it_says_something() {
    let hits = [chunk_hit("memory/a.md", "daily", "recent", 1.0)];
    let with = context_with_long_term(&hits, MemoryRoutingBias::LongTerm, "durable", 1000);
    assert!(with.contains("durable"));
    assert!(!with.contains("recent"));
    let without = context_with_long_term(&hits, MemoryRoutingBias::LongTerm, "  \n", 1000);
    assert!(without.contains("recent"));
}

#[test]
fn without_hits_files_and_facts_stand_in() {
    let facts = [make_fact("rule", "Be brief")];
    let (text, source) = context_without_hits(&[], "", 1000);
    assert_eq!(text, "");
    assert!(matches!(source, ContextSource::Nothing));
    let (text, source) = context_without_hits(&[], "files", 1000);
    assert_eq!(text, "files");
    assert!(matches!(source, ContextSource::Fallback));
    let (text, source) = context_without_hits(&facts, "", 1000);
    assert!(text.contains("Be brief"));
    assert!(matches!(source, ContextSource::FactsOnly));
    let (text, source) = context_without_hits(&facts, "files", 1000);
    assert!(text.contains("Be brief") && text.contains("files"));
    assert!(matches!(source, ContextSource::FactsPlusFallback));
}

#[test]
fn budgets_have_a_default() {
    assert_eq!(injection_budget(None), 6000);
    assert_eq!(injection_budget(Some(12)), 12);
}

#[test]
fn previews_are_short() {
    assert_eq!(truncate_tool_result_preview("a \n c", 3), "a c");
    assert_eq!(truncate_tool_result_preview("abcdef", 3), "abc…");
    assert_eq!(truncate_tool_result_preview(" \n", 0), "");
}
