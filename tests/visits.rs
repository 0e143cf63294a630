use pathranger::visits::{DirectoryRecord, VisitStore};

fn paths_of(records: &[DirectoryRecord]) -> Vec<String> {
    records.iter().map(|r| r.path.clone()).collect()
}

#[test]
fn two_visits_make_one_record() {
    let mut store = VisitStore::new();
    store.record_visit("/home/u/proj", true, 100);
    let rec = store.record_visit("/home/u/proj", true, 250).unwrap();
    assert_eq!(store.len(), 1);
    assert_eq!(rec.visit_count, 2);
    assert_eq!(rec.last_visited, 250);
    let top = store.top(10);
    assert_eq!(top.len(), 1);
    assert_eq!(top[0].path, "/home/u/proj");
    assert_eq!(top[0].visit_count, 2);
    assert_eq!(top[0].last_visited, 250);
}

#[test]
fn top_one_is_most_visited_in_either_order() {
    let mut first = VisitStore::new();
    first.upsert_visit("/a", 1);
    first.upsert_visit("/b", 2);
    first.upsert_visit("/b", 3);
    let top = first.top(1);
    assert_eq!(paths_of(&top), vec!["/b".to_string()]);

    let mut second = VisitStore::new();
    second.upsert_visit("/b", 1);
    second.upsert_visit("/b", 2);
    second.upsert_visit("/a", 3);
    let top = second.top(1);
    assert_eq!(paths_of(&top), vec!["/b".to_string()]);
}

#[test]
fn top_breaks_ties_by_path() {
    let mut store = VisitStore::new();
    store.upsert_visit("/y", 5);
    store.upsert_visit("/x", 6);
    store.upsert_visit("/z", 7);
    store.upsert_visit("/z", 8);
    let top = store.top(10);
    assert_eq!(paths_of(&top), vec!["/z", "/x", "/y"]);
    assert_eq!(top[0].visit_count, 2);
}

#[test]
fn recent_orders_by_last_visit() {
    let mut store = VisitStore::new();
    store.upsert_visit("/a", 30);
    store.upsert_visit("/b", 10);
    store.upsert_visit("/c", 20);
    store.upsert_visit("/b", 40);
    let recent = store.recent(2);
    assert_eq!(paths_of(&recent), vec!["/b", "/a"]);
    assert_eq!(recent[0].last_visited, 40);
    assert_eq!(store.recent(0).len(), 0);
    assert_eq!(paths_of(&store.recent(10)), vec!["/b", "/a", "/c"]);
}

#[test]
fn recent_breaks_ties_by_path() {
    let mut store = VisitStore::new();
    store.upsert_visit("/q", 7);
    store.upsert_visit("/p", 7);
    assert_eq!(paths_of(&store.recent(2)), vec!["/p", "/q"]);
}

#[test]
fn visit_to_missing_directory_is_ignored() {
    let mut store = VisitStore::new();
    assert!(store.record_visit("/nope", false, 5).is_none());
    assert_eq!(store.len(), 0);
    assert!(store.all_paths().is_empty());
}

#[test]
fn visit_count_holds_at_maximum() {
    let mut store = VisitStore::new();
    let rec = DirectoryRecord { path: "/m".to_string(), visit_count: u64::MAX, last_visited: 1 };
    assert!(store.load_record(rec));
    let after = store.upsert_visit("/m", 2);
    assert_eq!(after.visit_count, u64::MAX);
    assert_eq!(after.last_visited, 2);
}

#[test]
fn load_record_replaces_and_refuses_zero_counts() {
    let mut store = VisitStore::new();
    assert!(store.load_record(DirectoryRecord {
        path: "/p".to_string(),
        visit_count: 3,
        last_visited: 10,
    }));
    assert!(store.load_record(DirectoryRecord {
        path: "/p".to_string(),
        visit_count: 7,
        last_visited: 11,
    }));
    assert!(!store.load_record(DirectoryRecord {
        path: "/q".to_string(),
        visit_count: 0,
        last_visited: 12,
    }));
    assert_eq!(store.len(), 1);
    let top = store.top(5);
    assert_eq!(top[0].visit_count, 7);
    assert_eq!(top[0].last_visited, 11);
}

#[test]
fn all_paths_in_storage_order() {
    let mut store = VisitStore::new();
    store.upsert_visit("/one", 1);
    store.upsert_visit("/two", 2);
    store.upsert_visit("/one", 3);
    assert_eq!(store.all_paths(), vec!["/one".to_string(), "/two".to_string()]);
}

#[test]
fn visit_now_stamps_a_time() {
    let mut store = VisitStore::new();
    let rec = store.record_visit_now("/t", true).unwrap();
    assert_eq!(rec.visit_count, 1);
    assert!(rec.last_visited > 0);
    assert!(store.record_visit_now("/u", false).is_none());
    assert_eq!(store.len(), 1);
}
