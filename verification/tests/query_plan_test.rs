use recoll_next::search::date::{days_from_civil, parse_date};
use recoll_next::search::query::{escape_regex, query_overflows, tokenize_input, QueryFilter, QueryPlan};

fn chars(s: &str) -> Vec<char> {
    s.chars().collect()
}

#[test]
fn tokenize_keeps_quoted_phrases() {
    assert_eq!(
        tokenize_input("foo \"hello world\" bar"),
        vec!["foo".to_string(), "\"hello world\"".to_string(), "bar".to_string()]
    );
    assert_eq!(tokenize_input("a\"b c"), vec!["a".to_string(), "\"b c".to_string()]);
    assert_eq!(tokenize_input("   "), Vec::<String>::new());
    assert_eq!(tokenize_input("x\t\ny"), vec!["x".to_string(), "y".to_string()]);
}

#[test]
fn plan_splits_text_and_filters() {
    let plan = QueryPlan::parse("code ext:rs");
    assert_eq!(plan.text, "code");
    assert_eq!(plan.filters, vec![QueryFilter::Extension("rs".to_string())]);

    let plan = QueryPlan::parse("code path:/project");
    assert_eq!(plan.filters, vec![QueryFilter::PathPattern("\\/project.*".to_string())]);

    let plan = QueryPlan::parse("data size:>1024");
    assert_eq!(plan.text, "data");
    assert_eq!(plan.filters, vec![QueryFilter::SizeAbove(1024)]);

    let plan = QueryPlan::parse("content modified:>2024-01-01");
    assert_eq!(plan.filters, vec![QueryFilter::ModifiedSince(1704067200)]);

    let plan = QueryPlan::parse("rust AND fast");
    assert_eq!(plan.text, "rust AND fast");
    assert!(plan.filters.is_empty());

    let plan = QueryPlan::parse("\"hello world\"");
    assert_eq!(plan.text, "\"hello world\"");
}

#[test]
fn unreadable_size_and_date_filters_are_dropped() {
    let plan = QueryPlan::parse("a size:1024 modified:<2024-01-01 size:>x b");
    assert_eq!(plan.text, "a b");
    assert!(plan.filters.is_empty());
}

#[test]
fn escape_regex_escapes_metacharacters() {
    assert_eq!(escape_regex(&chars("a.b/c(d)")), chars("a\\.b\\/c\\(d\\)"));
    assert_eq!(escape_regex(&chars("plain")), chars("plain"));
}

#[test]
fn days_from_civil_known_dates() {
    assert_eq!(days_from_civil(1970, 1, 1), 0);
    assert_eq!(days_from_civil(2024, 1, 1), 19723);
    assert_eq!(days_from_civil(2023, 6, 1), 19509);
    assert_eq!(days_from_civil(2000, 3, 1), 11017);
    assert_eq!(days_from_civil(1969, 12, 31), -1);
}

#[test]
fn parse_date_reads_dates() {
    assert_eq!(parse_date(&chars("2024-01-01")), Some(1704067200));
    assert_eq!(parse_date(&chars("2023-06-01")), Some(1685577600));
    assert_eq!(parse_date(&chars("2024-01")), None);
    assert_eq!(parse_date(&chars("2024-x-01")), None);
    assert_eq!(parse_date(&chars("+2024-01-01")), Some(1704067200));
}

#[test]
fn overflowing_dates_are_detected() {
    assert!(query_overflows("a modified:>2024-03-00"));
    assert!(!query_overflows("a modified:>2024-03-01"));
}

#[test]
fn filters_admit_documents_by_their_bounds() {
    let plan = QueryPlan::parse("data size:>1024 modified:>2024-01-01 ext:pdf path:/home/a.b");
    let f = &plan.filters;
    assert_eq!(f.len(), 4);
    assert!(!f[0].admits("pdf", "/x", 1024, 0));
    assert!(f[0].admits("pdf", "/x", 1025, 0));
    assert!(f[1].admits("", "", 0, 1704067200));
    assert!(!f[1].admits("", "", 0, 1704067199));
    assert!(f[2].admits("pdf", "", 0, 0));
    assert!(!f[2].admits("PDF", "", 0, 0));
    assert!(f[3].admits("", "/home/a.b/c.txt", 0, 0));
    assert!(f[3].admits("", "/home/a.b", 0, 0));
    assert!(!f[3].admits("", "/home/aXb/c.txt", 0, 0));
    assert!(!f[3].admits("", "/home/a.b/x\ny", 0, 0));
    assert!(!f[3].admits("", "/other", 0, 0));
}

#[test]
fn path_pattern_of_another_form_admits_nothing() {
    let f = QueryFilter::PathPattern("abc".to_string());
    assert!(!f.admits("", "abc", 0, 0));
    let g = QueryFilter::PathPattern("a.b.*".to_string());
    assert!(!g.admits("", "a.b", 0, 0));
}

#[test]
fn unicode_spaces_separate_tokens() {
    assert_eq!(
        tokenize_input("a\u{3000}b\u{a0}c\u{2003}d"),
        vec!["a".to_string(), "b".to_string(), "c".to_string(), "d".to_string()]
    );
}
