use clawhive_core::dates::CalendarDate;
use clawhive_core::memory_summary::{
    build_summary_prompt, choose_candidates, extract_embedded_json, group_daily_candidates,
    looks_low_value, lowered_is_low_value, merge_daily_blocks, normalize_item, normalize_topic,
    parse_candidates_error, parse_list_fallback, read_list_item, retain_daily_candidates,
    retain_summary_candidates, strip_json_fence, DailyDocument, DailyTopicBlock, EmbeddedOutcome,
    SummaryCandidate, SummaryClass,
};

fn date(y: i32, m: u32, d: u32) -> CalendarDate {
    CalendarDate {
        year: y,
        month: m,
        day: d,
    }
}

fn candidate(content: &str, class: SummaryClass, topic: &str, importance: f32) -> SummaryCandidate {
    SummaryCandidate {
        content: content.to_string(),
        classification: class,
        topic: topic.to_string(),
        importance_bits: importance.to_bits(),
        fact_type: None,
        duplicate_key: None,
    }
}

fn keyed(mut c: SummaryCandidate, key: &str) -> SummaryCandidate {
    c.duplicate_key = Some(key.to_string());
    c
}

fn class_named(name: &str) -> Option<SummaryClass> {
    match name {
        "discard" => Some(SummaryClass::Discard),
        "daily" => Some(SummaryClass::Daily),
        "fact" => Some(SummaryClass::Fact),
        "memory" => Some(SummaryClass::Memory),
        _ => None,
    }
}

/// Reads an array of candidates, or nothing.
fn candidates_from_json(text: &str) -> Option<Vec<SummaryCandidate>> {
    let value: serde_json::Value = serde_json::from_str(text).ok()?;
    let mut out = Vec::new();
    for item in value.as_array()? {
        let class = class_named(item.get("classification")?.as_str()?)?;
        let importance = item.get("importance").and_then(|v| v.as_f64()).unwrap_or(0.0);
        let optional = |key: &str| item.get(key).and_then(|v| v.as_str()).map(str::to_string);
        let mut read = candidate(
            item.get("content")?.as_str()?,
            class,
            item.get("topic").and_then(|v| v.as_str()).unwrap_or(""),
            importance as f32,
        );
        read.fact_type = optional("fact_type");
        read.duplicate_key = optional("duplicate_key");
        out.push(read);
    }
    Some(out)
}

fn parse_candidates(raw: &str) -> Option<Vec<SummaryCandidate>> {
    let stripped = strip_json_fence(raw);
    let strict = candidates_from_json(&stripped);
    let embedded = extract_embedded_json(&stripped).and_then(|s| candidates_from_json(&s));
    choose_candidates(&stripped, strict, embedded)
}

#[test]
fn parse_candidates_accepts_json_fence() {
    let raw = "```json\n[{\"content\":\"keep\",\"classification\":\"daily\",\"topic\":\"Proj\",\"importance\":0.8}]\n```";
    let parsed = parse_candidates(raw).expect("json should parse");
    assert_eq!(parsed.len(), 1);
    assert_eq!(parsed[0].classification, SummaryClass::Daily);
}

#[test]
fn parse_candidates_falls_back_to_bullets() {
    let raw = "- fallback summary 1\n- fallback summary 2";
    let parsed = parse_candidates(raw).expect("bullet fallback should parse");
    assert_eq!(parsed.len(), 2);
    assert_eq!(parsed[0].topic, "General");
}

#[test]
fn parse_candidates_handles_star_bullets() {
    let raw = "* summary A\n* summary B";
    let parsed = parse_candidates(raw).expect("star bullets should parse");
    assert_eq!(parsed.len(), 2);
    assert_eq!(parsed[0].content, "summary A");
}

#[test]
fn parse_candidates_handles_numbered_list() {
    let raw = "1. first item\n2. second item\n3. third item";
    let parsed = parse_candidates(raw).expect("numbered list should parse");
    assert_eq!(parsed.len(), 3);
    assert_eq!(parsed[0].content, "first item");
}

#[test]
fn parse_candidates_handles_embedded_json() {
    let raw = "Here is the analysis:\n[{\"content\":\"keep\",\"classification\":\"daily\",\"topic\":\"Proj\",\"importance\":0.8}]\nDone.";
    let parsed = parse_candidates(raw).expect("embedded json should parse");
    assert_eq!(parsed.len(), 1);
    assert_eq!(parsed[0].content, "keep");
}

#[test]
fn retain_daily_candidates_drops_greetings_and_duplicates() {
    let text = "Confirmed memory redesign will use section-based consolidation.";
    let input = vec![
        candidate(
            "The user greeted the assistant with hi.",
            SummaryClass::Daily,
            "Chat",
            0.1,
        ),
        keyed(
            candidate(text, SummaryClass::Daily, "Memory", 0.8),
            "memory-redesign",
        ),
        keyed(
            candidate(text, SummaryClass::Daily, "Memory", 0.9),
            "memory-redesign",
        ),
    ];

    let kept = retain_daily_candidates(input);
    assert_eq!(kept.len(), 1);
    assert_eq!(kept[0].topic, "Memory");
}

#[test]
fn retain_summary_candidates_preserves_fact_and_memory_candidates() {
    let mut fact = keyed(
        candidate(
            "User prefers Chinese replies",
            SummaryClass::Fact,
            "Prefs",
            0.9,
        ),
        "reply-lang",
    );
    fact.fact_type = Some("preference".to_string());
    let retained = retain_summary_candidates(vec![
        fact,
        keyed(
            candidate(
                "Memory refactor is now section-based",
                SummaryClass::Memory,
                "Architecture",
                0.8,
            ),
            "memory-refactor",
        ),
        candidate("hello", SummaryClass::Daily, "", 0.1),
    ]);

    assert!(retained.daily.is_empty());
    assert_eq!(retained.facts.len(), 1);
    assert_eq!(retained.facts[0].content, "User prefers Chinese replies");
    assert_eq!(retained.memory.len(), 1);
    assert_eq!(
        retained.memory[0].content,
        "Memory refactor is now section-based"
    );
}

#[test]
fn group_daily_candidates_groups_by_topic() {
    let grouped = group_daily_candidates(&[
        candidate("A", SummaryClass::Daily, "Proj", 0.5),
        candidate("B", SummaryClass::Daily, "Proj", 0.5),
    ]);

    assert_eq!(
        grouped,
        vec![DailyTopicBlock {
            topic: "Proj".to_string(),
            items: vec!["A".to_string(), "B".to_string()],
        }]
    );
}

#[test]
fn merge_daily_blocks_creates_structured_document() {
    let output = merge_daily_blocks(
        date(2026, 3, 29),
        None,
        &[DailyTopicBlock {
            topic: "Memory".to_string(),
            items: vec!["Decided to refactor".to_string()],
        }],
    )
    .expect("document should be created");

    assert!(output.contains("# 2026-03-29"));
    assert!(output.contains("## Memory"));
    assert!(output.contains("- Decided to refactor"));
}

#[test]
fn merge_daily_blocks_merges_into_existing_topic() {
    let existing = "# 2026-03-29\n\n## Memory\n\n- Decided to refactor\n";
    let output = merge_daily_blocks(
        date(2026, 3, 29),
        Some(existing),
        &[DailyTopicBlock {
            topic: "Memory".to_string(),
            items: vec![
                "Decided to refactor".to_string(),
                "Will use section routing".to_string(),
            ],
        }],
    )
    .expect("document should change");

    assert_eq!(output.matches("## Memory").count(), 1);
    assert_eq!(output.matches("- Decided to refactor").count(), 1);
    assert!(output.contains("- Will use section routing"));
}

fn block(topic: &str, items: &[&str]) -> DailyTopicBlock {
    DailyTopicBlock {
        topic: topic.to_string(),
        items: items.iter().map(|s| s.to_string()).collect(),
    }
}

#[test]
fn a_document_is_written_in_full() {
    let output = merge_daily_blocks(
        date(2026, 1, 5),
        None,
        &[block("Zoo", &["z"]), block("Art", &["a", "- b"])],
    )
    .unwrap();
    assert_eq!(
        output,
        "# 2026-01-05\n\n## Art\n\n- a\n- b\n\n## Zoo\n\n- z\n"
    );
}

#[test]
fn merging_the_same_blocks_again_changes_nothing() {
    let blocks = [block("Art", &["a", "b"])];
    let once = merge_daily_blocks(date(2026, 1, 5), None, &blocks).unwrap();
    assert_eq!(merge_daily_blocks(date(2026, 1, 5), Some(&once), &blocks), None);
    assert_eq!(merge_daily_blocks(date(2026, 1, 5), None, &[]), None);
}

#[test]
fn a_written_document_reads_back() {
    let text = "# 2026-01-05\n\nwords before\n\n## Art\n\n- a\n- b\n\n## Zoo\n\n- z\n";
    let read = DailyDocument::parse(date(2026, 1, 5), text);
    assert_eq!(read.render(), text);
}

#[test]
fn documents_in_other_shapes_are_read_too() {
    let text = "intro\r\n- listed intro\n## Notes \nplain line\n-  dashed\n\n# title\n## Empty\n";
    let read = DailyDocument::parse(date(2026, 12, 31), text);
    assert_eq!(
        read.render(),
        "# 2026-12-31\n\nintro\n- listed intro\n\n## Notes\n\n- plain line\n- dashed\n"
    );
}

#[test]
fn items_and_topics_are_cleaned() {
    assert_eq!(normalize_item("  - - a\r\nb "), "a\nb");
    assert_eq!(normalize_item("plain"), "plain");
    assert_eq!(normalize_topic("  "), "General");
    assert_eq!(normalize_topic(" Art "), "Art");
}

#[test]
fn low_value_is_told_by_markers() {
    for s in ["hi", "Hello", "你好", " 收到 ", "Uptime is 3 days", "用户问候了助手"] {
        assert!(looks_low_value(s), "{}", s);
    }
    assert!(!looks_low_value("Decided to use Verus"));
    assert!(lowered_is_low_value("df -h"));
    assert!(!lowered_is_low_value("DF -H"));
    // Upper case is lowered before the markers are looked for.
    assert!(looks_low_value("DF -H"));
}

#[test]
fn fences_are_stripped() {
    assert_eq!(strip_json_fence("```json\n[1]\n```"), "[1]");
    assert_eq!(strip_json_fence("```\n[1]\n```"), "[1]");
    assert_eq!(strip_json_fence("  [1] "), "[1]");
}

#[test]
fn an_embedded_array_is_cut_out() {
    assert_eq!(extract_embedded_json("a [1, [2]] b"), Some("[1, [2]]".to_string()));
    assert_eq!(extract_embedded_json("] ["), None);
    assert_eq!(extract_embedded_json("none"), None);
}

#[test]
fn list_items_in_all_forms() {
    assert_eq!(read_list_item(" - a "), Some("a".to_string()));
    assert_eq!(read_list_item("* b"), Some("b".to_string()));
    assert_eq!(read_list_item("12. c"), Some("c".to_string()));
    assert_eq!(read_list_item("3) d"), Some("d".to_string()));
    assert_eq!(read_list_item("plain"), None);
    assert_eq!(read_list_item("-"), None);
    let read = parse_list_fallback("text\n- x\n").unwrap();
    assert_eq!(read.len(), 1);
    assert_eq!(f32::from_bits(read[0].importance_bits), 0.5);
    assert!(parse_list_fallback("nothing").is_none());
}

#[test]
fn errors_of_candidates_say_which_reading_failed() {
    assert_eq!(
        parse_candidates_error(None, &EmbeddedOutcome::Absent),
        "no error (strict JSON parsed successfully)"
    );
    assert_eq!(
        parse_candidates_error(Some("bad"), &EmbeddedOutcome::Read),
        "no error (embedded JSON parsed successfully)"
    );
    assert_eq!(
        parse_candidates_error(Some("bad"), &EmbeddedOutcome::Failed("worse".to_string())),
        "strict: bad; embedded: worse"
    );
    assert_eq!(
        parse_candidates_error(Some("bad"), &EmbeddedOutcome::Absent),
        "strict: bad; no embedded JSON array found"
    );
}

#[test]
fn repetitions_are_told_by_key_class_and_topic() {
    let kept = retain_summary_candidates(vec![
        candidate("We chose Verus", SummaryClass::Daily, "A", 0.5),
        candidate("we chose verus", SummaryClass::Daily, "A", 0.5),
        candidate("We chose Verus", SummaryClass::Daily, "B", 0.5),
        candidate("We chose Verus", SummaryClass::Fact, "A", 0.5),
        candidate("We chose Verus", SummaryClass::Discard, "A", 0.5),
    ]);
    assert_eq!(kept.daily.len(), 2);
    assert_eq!(kept.facts.len(), 1);
    assert!(kept.memory.is_empty());
}

#[test]
fn the_prompt_asks_for_an_array() {
    let prompt = build_summary_prompt();
    assert!(prompt.starts_with("Summarize this conversation by extracting memory candidates."));
    assert!(prompt.contains("Return a JSON array only."));
}

#[test]
fn merging_again_changes_nothing_whatever_was_there() {
    let blocks = vec![
        DailyTopicBlock {
            topic: "Memory".to_string(),
            items: vec!["keep sections".to_string(), "no dashes".to_string()],
        },
        DailyTopicBlock {
            topic: "Travel".to_string(),
            items: vec!["train at nine".to_string()],
        },
    ];
    let day = date(2026, 3, 30);
    for existing in [
        None,
        Some(""),
        Some("# 2026-03-30\n\n## Memory\n\n## Empty\n"),
        Some("## Memory\n- - no dashes\n- -  - x\n"),
        Some("  ## Memory\nstray\n   # odd\n## Travel\r\n- by boat\r\n"),
        Some("## \n-\n##  Memory \n* star\r"),
    ] {
        let written = merge_daily_blocks(day, existing, &blocks).expect("something new");
        assert!(written.contains("- keep sections"));
        assert_eq!(merge_daily_blocks(day, Some(&written), &blocks), None);
    }
    // An item of two lines is not found again.
    let two = vec![DailyTopicBlock {
        topic: "T".to_string(),
        items: vec!["a\nb".to_string()],
    }];
    let written = merge_daily_blocks(day, None, &two).expect("something new");
    assert!(merge_daily_blocks(day, Some(&written), &two).is_some());
}
