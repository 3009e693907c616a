use tasktrack::store::{StoreError, TaskStore};
use tasktrack::task::Priority;

fn cs(s: &str) -> Vec<char> {
    s.chars().collect()
}

fn s_of(v: &[char]) -> String {
    v.iter().collect()
}

#[test]
fn save_then_load_restores_every_field() {
    let mut store = TaskStore::new();
    let a = store.add_task(&cs("Buy milk #home #P2 #2025-07-05_10:00"));
    let b = store.add_task(&cs("Call mom #p1"));
    store.add_task(&cs("plain"));
    store.update_task_status(a, tasktrack::task::TaskStatus::Doing);
    store.update_task_status(b, tasktrack::task::TaskStatus::Done);
    let text = store.save_tasks();

    let mut other = TaskStore::new();
    assert!(other.load_tasks(Some(&text)).is_ok());
    assert_eq!(other.tasks.len(), store.tasks.len());
    for (x, y) in store.tasks.iter().zip(other.tasks.iter()) {
        assert_eq!(x.id, y.id);
        assert_eq!(x.description, y.description);
        assert_eq!(x.status, y.status);
        assert_eq!(x.category, y.category);
        assert_eq!(x.due_time, y.due_time);
        assert_eq!(x.priority, y.priority);
    }
}

#[test]
fn roundtrip_with_awkward_description() {
    let mut store = TaskStore::new();
    store.add_task(&cs("say \"hi\" and a\\b and a\ttab #home"));
    let text = store.save_tasks();
    let mut other = TaskStore::new();
    assert!(other.load_tasks(Some(&text)).is_ok());
    assert_eq!(other.tasks[0].description, store.tasks[0].description);
}

#[test]
fn empty_collection_roundtrips() {
    let store = TaskStore::new();
    let text = store.save_tasks();
    assert_eq!(s_of(&text), "[]");
    let mut other = TaskStore::new();
    other.add_task(&cs("stale"));
    assert!(other.load_tasks(Some(&text)).is_ok());
    assert_eq!(other.tasks.len(), 0);
}

#[test]
fn missing_storage_means_empty_collection() {
    let mut store = TaskStore::new();
    store.add_task(&cs("stale"));
    assert!(store.load_tasks(None).is_ok());
    assert_eq!(store.tasks.len(), 0);
}

#[test]
fn legacy_schema_loads_with_priority_low() {
    let mut store = TaskStore::new();
    store.add_task(&cs("one #home #p1"));
    store.add_task(&cs("two"));
    let text = s_of(&store.save_tasks());
    // a file from before the priority field existed: the same records
    // without their priority entries
    let legacy = text
        .replace(",\n    \"priority\": \"High\"", "")
        .replace(",\n    \"priority\": \"Medium\"", "");
    assert!(!legacy.contains("priority"));
    let mut other = TaskStore::new();
    assert!(other.load_tasks(Some(&cs(&legacy))).is_ok());
    assert_eq!(other.tasks.len(), 2);
    for t in &other.tasks {
        assert_eq!(t.priority, Priority::Low);
    }
    assert_eq!(other.tasks[0].description, store.tasks[0].description);
    assert_eq!(other.tasks[0].id, store.tasks[0].id);
    assert_eq!(other.tasks[0].category, store.tasks[0].category);
}

#[test]
fn corrupt_text_reports_error_and_empties() {
    let mut store = TaskStore::new();
    store.add_task(&cs("stale"));
    let r = store.load_tasks(Some(&cs("{ not an array }")));
    assert_eq!(r, Err(StoreError::StorageCorrupt));
    assert_eq!(store.tasks.len(), 0);
}

#[test]
fn truncated_text_is_corrupt() {
    let mut store = TaskStore::new();
    store.add_task(&cs("a #home"));
    let text = store.save_tasks();
    let cut: Vec<char> = text[..text.len() - 3].to_vec();
    let mut other = TaskStore::new();
    assert_eq!(other.load_tasks(Some(&cut)), Err(StoreError::StorageCorrupt));
}

#[test]
fn saved_text_shape() {
    let mut store = TaskStore::new();
    store.add_task(&cs("milk #home #2025-07-05_10:00"));
    let text = s_of(&store.save_tasks());
    assert!(text.starts_with("[\n  {\n    \"id\": \""));
    assert!(text.contains("\"description\": \"milk\""));
    assert!(text.contains("\"status\": \"Todo\""));
    assert!(text.contains("\"category\": \"home\""));
    assert!(text.contains("\"due_time\": \"2025-07-05T10:00:00\""));
    assert!(text.contains("\"priority\": \"Medium\""));
    assert!(text.ends_with("\n  }\n]"));
}

#[test]
fn absent_fields_saved_as_null() {
    let mut store = TaskStore::new();
    store.add_task(&cs("bare"));
    let text = s_of(&store.save_tasks());
    assert!(text.contains("\"category\": null"));
    assert!(text.contains("\"due_time\": null"));
}

#[test]
fn id_is_serialized_in_uuid_form() {
    let mut store = TaskStore::new();
    let id = store.add_task(&cs("x"));
    let text = s_of(&store.save_tasks());
    let hex: String = format!("{:032x}", id);
    let grouped = format!(
        "{}-{}-{}-{}-{}",
        &hex[0..8],
        &hex[8..12],
        &hex[12..16],
        &hex[16..20],
        &hex[20..32]
    );
    assert!(text.contains(&grouped));
}
