use clawhive_core::dates::{
    boundary_from, date_label, parse_fact_occurred_date, parse_full_date, parse_time_boundary,
    CalendarDate,
};
use clawhive_core::seqs::order_by_key;
use clawhive_core::text::{
    byte_len, chars_of, decimal_of, find_first, find_last, join, lines_of, replace_chars,
    same_text, split_chars, string_of, text_before, text_contains, text_ends_with,
    text_starts_with, text_take, to_lowered, trimmed, words_of, Separator,
};
use clawhive_core::token_set::TokenSet;

fn date(year: i32, month: u32, day: u32) -> CalendarDate {
    CalendarDate { year, month, day }
}

fn set(items: &[&str]) -> TokenSet {
    let mut s = TokenSet::new();
    for item in items {
        s = s.with(item.to_string());
    }
    s
}

#[test]
fn dates_are_read_and_written() {
    assert_eq!(parse_full_date("2024-02-29"), Some(date(2024, 2, 29)));
    assert_eq!(parse_full_date("2023-02-29"), None);
    assert_eq!(parse_full_date("2024-02"), None);
    assert_eq!(date_label(date(2026, 3, 9)), "2026-03-09");
    assert!(date(2026, 3, 9).is_earlier(date(2026, 4, 1)));
    assert!(!date(2026, 3, 9).is_earlier(date(2026, 3, 9)));
}

#[test]
fn occurred_dates_come_in_two_forms() {
    assert_eq!(
        parse_fact_occurred_date("2026-03-15T10:00:00Z"),
        Some(date(2026, 3, 15))
    );
    assert_eq!(parse_fact_occurred_date("2026-03-15"), Some(date(2026, 3, 15)));
    assert_eq!(parse_fact_occurred_date("spring"), None);
}

#[test]
fn boundaries_of_a_month() {
    assert_eq!(parse_time_boundary("2024-02", true), Some(date(2024, 2, 1)));
    assert_eq!(parse_time_boundary("2024-02", false), Some(date(2024, 2, 29)));
    assert_eq!(parse_time_boundary("2023-02", false), Some(date(2023, 2, 28)));
    assert_eq!(parse_time_boundary("2026-12", false), Some(date(2026, 12, 31)));
    assert_eq!(parse_time_boundary("2026-03-15", true), Some(date(2026, 3, 15)));
    assert_eq!(parse_time_boundary("2026-13", true), None);
    assert_eq!(parse_time_boundary("2026", true), None);
    assert_eq!(
        boundary_from(Some(date(2026, 1, 2)), "ignored", true),
        Some(date(2026, 1, 2))
    );
    assert_eq!(boundary_from(None, "2026-04", false), Some(date(2026, 4, 30)));
}

#[test]
fn texts_are_taken_apart() {
    assert_eq!(trimmed(" \u{3000}a b\n"), "a b");
    assert_eq!(words_of(" a  b "), vec!["a", "b"]);
    assert_eq!(lines_of("a\r\nb\n\nc"), vec!["a", "b", "", "c"]);
    assert!(lines_of("").is_empty());
    assert_eq!(
        split_chars(&chars_of("a,b,,"), Separator::Char(',')),
        vec!["a", "b", "", ""]
    );
    assert_eq!(
        split_chars(&chars_of("a-é_1"), Separator::NonAlphanumeric),
        vec!["a", "é", "1"]
    );
    assert_eq!(join(&["a".to_string(), "b".to_string()], ", "), "a, b");
    assert_eq!(text_take("héllo", 2), "hé");
    assert_eq!(byte_len("é好a😀"), 10);
    assert_eq!(decimal_of(0), "0");
    assert_eq!(decimal_of(1_234_567_890), "1234567890");
    assert_eq!(replace_chars(&chars_of("aXbXc"), "X", "--"), "a--b--c");
    assert_eq!(find_first(&chars_of("abcb"), 'b'), Some(1));
    assert_eq!(find_last(&chars_of("abcb"), 'b'), Some(3));
    assert_eq!(string_of(&['a', 'b']), "ab");
}

#[test]
fn texts_are_compared() {
    assert!(same_text("a", "a") && !same_text("a", "b"));
    assert!(text_starts_with("abc", "ab") && !text_starts_with("abc", "b"));
    assert!(text_ends_with("abc", "bc") && !text_ends_with("abc", "b"));
    assert!(text_contains("abc", "b") && !text_contains("abc", "d"));
    assert!(text_contains("abc", ""));
    assert!(text_before("a", "b") && text_before("a", "aa") && !text_before("b", "a"));
    assert_eq!(to_lowered("AbÉ"), "abÉ");
}

#[test]
fn sets_hold_each_text_once_and_in_order() {
    let s = set(&["b", "a", "b"]);
    assert_eq!(s.len(), 2);
    assert_eq!(s.sorted(), vec!["a", "b"]);
    assert!(s.contains("a") && !s.contains("c"));
    assert_eq!(s.common_count(&set(&["a", "c"])), 1);
    assert_eq!(s.union(&set(&["c"])).sorted(), vec!["a", "b", "c"]);
    assert!(set(&["a"]).without("a").is_empty());
}

#[test]
fn keys_order_positions_stably() {
    assert_eq!(order_by_key(&[3, 1, 2, 1]), vec![1, 3, 2, 0]);
    assert!(order_by_key(&[]).is_empty());
}
