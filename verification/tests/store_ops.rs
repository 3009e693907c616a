use tasktrack::store::{DueFilter, FilterState, TaskStore};
use tasktrack::task::{Date, Priority, TaskStatus};

fn cvec(s: &str) -> Vec<char> {
    s.chars().collect()
}

fn string_of(v: &[char]) -> String {
    v.iter().collect()
}

#[test]
fn add_task_gives_fresh_ids_and_grows_by_one() {
    let mut store = TaskStore::new();
    let mut ids: Vec<u128> = Vec::new();
    for k in 0..20 {
        let before = store.tasks.len();
        let id = store.add_task(&cvec(&format!("task number {}", k)));
        assert_eq!(store.tasks.len(), before + 1);
        assert!(!ids.contains(&id));
        ids.push(id);
    }
}

#[test]
fn add_task_defaults() {
    let mut store = TaskStore::new();
    let id = store.add_task(&cvec("plain task"));
    let t = &store.tasks[0];
    assert_eq!(t.id, id);
    assert_eq!(t.status, TaskStatus::Todo);
    assert_eq!(t.priority, Priority::Medium);
    assert!(t.category.is_none());
    assert!(t.due_time.is_none());
    assert_eq!(string_of(&t.description), "plain task");
}

#[test]
fn status_cycles_back_after_three_advances() {
    let mut store = TaskStore::new();
    let id = store.add_task(&cvec("cycle me"));
    assert_eq!(store.tasks[0].status, TaskStatus::Todo);
    store.advance_task_status(id);
    assert_eq!(store.tasks[0].status, TaskStatus::Doing);
    store.advance_task_status(id);
    assert_eq!(store.tasks[0].status, TaskStatus::Done);
    store.advance_task_status(id);
    assert_eq!(store.tasks[0].status, TaskStatus::Todo);
}

#[test]
fn update_status_sets_directly() {
    let mut store = TaskStore::new();
    let id = store.add_task(&cvec("a"));
    store.update_task_status(id, TaskStatus::Done);
    assert_eq!(store.tasks[0].status, TaskStatus::Done);
    store.update_task_status(9999, TaskStatus::Doing);
    assert_eq!(store.tasks[0].status, TaskStatus::Done);
}

#[test]
fn update_description_preserves_priority_without_tag() {
    let mut store = TaskStore::new();
    let id = store.add_task(&cvec("old text #p1"));
    assert_eq!(store.tasks[0].priority, Priority::High);
    store.update_task_description(id, &cvec("new text, no tag"));
    assert_eq!(store.tasks[0].priority, Priority::High);
    assert_eq!(string_of(&store.tasks[0].description), "new text, no tag");
}

#[test]
fn update_description_overwrites_priority_with_tag() {
    let mut store = TaskStore::new();
    let id = store.add_task(&cvec("old text #p1"));
    store.update_task_description(id, &cvec("new text #low"));
    assert_eq!(store.tasks[0].priority, Priority::Low);
}

#[test]
fn delete_removes_only_that_task() {
    let mut store = TaskStore::new();
    let a = store.add_task(&cvec("a"));
    let b = store.add_task(&cvec("b"));
    store.delete_task(a);
    assert_eq!(store.tasks.len(), 1);
    assert_eq!(store.tasks[0].id, b);
    store.delete_task(a);
    assert_eq!(store.tasks.len(), 1);
}

#[test]
fn query_category_substring_case_insensitive() {
    let mut store = TaskStore::new();
    store.add_task(&cvec("milk #home"));
    store.add_task(&cvec("report #work"));
    let f = FilterState { category_filter: Some(cvec("ho")), due_date_filter: DueFilter::Unset };
    let r = store.query(&f);
    assert_eq!(r.len(), 1);
    assert_eq!(string_of(&r[0].description), "milk");
    let g = FilterState { category_filter: Some(cvec("HO")), due_date_filter: DueFilter::Unset };
    assert_eq!(store.query(&g).len(), 1);
}

#[test]
fn query_no_due_filter_excludes_dated_tasks() {
    let mut store = TaskStore::new();
    store.add_task(&cvec("dated #home #2025-07-05_10:00"));
    store.add_task(&cvec("open-ended #home"));
    let f = FilterState { category_filter: None, due_date_filter: DueFilter::NoDue };
    let r = store.query(&f);
    assert_eq!(r.len(), 1);
    assert_eq!(string_of(&r[0].description), "open-ended");
}

#[test]
fn query_specific_date() {
    let mut store = TaskStore::new();
    store.add_task(&cvec("a #2025-07-05_10:00"));
    store.add_task(&cvec("b #2025-07-06_10:00"));
    store.add_task(&cvec("c"));
    let f = FilterState {
        category_filter: None,
        due_date_filter: DueFilter::OnDate(Date { year: 2025, month: 7, day: 5 }),
    };
    let r = store.query(&f);
    assert_eq!(r.len(), 1);
    assert_eq!(string_of(&r[0].description), "a");
}

#[test]
fn categories_are_distinct_and_sorted() {
    let mut store = TaskStore::new();
    store.add_task(&cvec("a #work"));
    store.add_task(&cvec("b #home"));
    store.add_task(&cvec("c #home"));
    store.add_task(&cvec("d #admin"));
    store.add_task(&cvec("e"));
    let cats: Vec<String> = store.get_unique_categories().iter().map(|c| string_of(c)).collect();
    assert_eq!(cats, vec!["admin".to_string(), "home".to_string(), "work".to_string()]);
}
