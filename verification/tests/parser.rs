use tasktrack::tags::{parse_task_description, Parsed};
use tasktrack::task::{DateTime, Priority};

fn chars_of(s: &str) -> Vec<char> {
    s.chars().collect()
}

fn text_of(v: &[char]) -> String {
    v.iter().collect()
}

fn parse(s: &str) -> Parsed {
    parse_task_description(&chars_of(s))
}

#[test]
fn parse_all_three_tags() {
    let p = parse("Buy milk #home #P2 #2025-07-05_10:00");
    assert_eq!(text_of(&p.clean), "Buy milk");
    assert_eq!(p.category.as_ref().map(|c| text_of(c)), Some("home".to_string()));
    assert_eq!(p.priority, Some(Priority::Medium));
    assert_eq!(
        p.due_time,
        Some(DateTime { year: 2025, month: 7, day: 5, hour: 10, minute: 0 })
    );
}

#[test]
fn parse_priority_only() {
    let p = parse("Call mom #p1");
    assert_eq!(text_of(&p.clean), "Call mom");
    assert_eq!(p.priority, Some(Priority::High));
    assert!(p.category.is_none());
    assert!(p.due_time.is_none());
}

#[test]
fn parse_tags_in_any_order() {
    let p = parse("#2025-12-31_23:59 pay rent #p3 #bills");
    assert_eq!(text_of(&p.clean), "pay rent");
    assert_eq!(p.priority, Some(Priority::Low));
    assert_eq!(p.category.as_ref().map(|c| text_of(c)), Some("bills".to_string()));
    assert_eq!(
        p.due_time,
        Some(DateTime { year: 2025, month: 12, day: 31, hour: 23, minute: 59 })
    );
}

#[test]
fn reserved_word_is_never_a_category() {
    // after the first priority tag is consumed, the next candidate token is
    // `#high`: a reserved keyword, so no category is extracted at all
    let p = parse("x #p2 #high #home");
    assert_eq!(p.priority, Some(Priority::Medium));
    assert!(p.category.is_none());
    assert_eq!(text_of(&p.clean), "x  #high #home".trim());
}

#[test]
fn priority_keywords_case_insensitive() {
    assert_eq!(parse("a #HIGH").priority, Some(Priority::High));
    assert_eq!(parse("a #Medium").priority, Some(Priority::Medium));
    assert_eq!(parse("a #LoW").priority, Some(Priority::Low));
    assert_eq!(parse("a #P3").priority, Some(Priority::Low));
}

#[test]
fn category_is_lowercased() {
    let p = parse("a #HomeOffice_2");
    assert_eq!(p.category.as_ref().map(|c| text_of(c)), Some("homeoffice_2".to_string()));
}

#[test]
fn only_first_tag_of_each_kind_is_consumed() {
    let p = parse("a #p1 #p2 b");
    assert_eq!(p.priority, Some(Priority::High));
    // the second priority keyword is then hit by the category step, where it
    // is reserved, so it stays in the text
    assert!(p.category.is_none());
    assert_eq!(text_of(&p.clean), "a  #p2 b");
}

#[test]
fn malformed_date_is_left_in_place() {
    let p = parse("a #2025-13-05_10:00");
    assert!(p.due_time.is_none());
    // the token is not a word tag either (it holds `-` and `:`), so it stays
    assert_eq!(text_of(&p.clean), "a #2025-13-05_10:00");
}

#[test]
fn date_must_be_a_whole_token() {
    let p = parse("a #2025-07-05_10:00x");
    assert!(p.due_time.is_none());
}

#[test]
fn leap_year_date_accepted() {
    let p = parse("a #2024-02-29_00:00");
    assert_eq!(
        p.due_time,
        Some(DateTime { year: 2024, month: 2, day: 29, hour: 0, minute: 0 })
    );
    let q = parse("a #2025-02-29_00:00");
    assert!(q.due_time.is_none());
}

#[test]
fn no_tags_at_all() {
    let p = parse("  just words  ");
    assert_eq!(text_of(&p.clean), "just words");
    assert!(p.priority.is_none());
    assert!(p.category.is_none());
    assert!(p.due_time.is_none());
}

#[test]
fn embedded_hash_is_not_a_tag() {
    let p = parse("a x#home y");
    assert!(p.category.is_none());
    assert_eq!(text_of(&p.clean), "a x#home y");
}
