use pathranger::error::NavError;
use pathranger::tags::TagRegistry;
use pathranger::visits::VisitStore;

#[test]
fn retargeting_a_tag_keeps_one_record() {
    let mut tags = TagRegistry::new();
    assert!(!tags.set_tag("work", "/home/u/work", 1));
    assert!(tags.set_tag("work", "/home/u/work2", 2));
    assert_eq!(tags.len(), 1);
    let all = tags.list_tags();
    assert_eq!(all.len(), 1);
    assert_eq!(all[0].name, "work");
    assert_eq!(all[0].path, "/home/u/work2");
    assert_eq!(all[0].created_at, 2);
    assert_eq!(tags.resolve_tag("work"), Ok("/home/u/work2".to_string()));
}

#[test]
fn resolving_an_unset_tag_is_not_found() {
    let mut tags = TagRegistry::new();
    assert_eq!(tags.resolve_tag("nope"), Err(NavError::NotFound));
    tags.set_tag("other", "/o", 1);
    assert_eq!(tags.resolve_tag("nope"), Err(NavError::NotFound));
}

#[test]
fn untag_of_absent_name_is_a_no_op() {
    let mut tags = TagRegistry::new();
    tags.set_tag("keep", "/k", 1);
    assert_eq!(tags.remove_tag("gone"), 0);
    assert_eq!(tags.len(), 1);
    assert_eq!(tags.remove_tag("keep"), 1);
    assert_eq!(tags.len(), 0);
    assert_eq!(tags.remove_tag("keep"), 0);
}

#[test]
fn mark_on_missing_directory_is_invalid_target() {
    let mut tags = TagRegistry::new();
    let mut visits = VisitStore::new();
    assert_eq!(tags.mark(&mut visits, "w", "/does/not/exist", false, 9), Err(NavError::InvalidTarget));
    assert_eq!(tags.len(), 0);
    assert_eq!(visits.len(), 0);
    assert_eq!(tags.resolve_tag("w"), Err(NavError::NotFound));
}

#[test]
fn mark_sets_tag_and_records_visit() {
    let mut tags = TagRegistry::new();
    let mut visits = VisitStore::new();
    assert_eq!(tags.mark(&mut visits, "w", "/srv/w", true, 9), Ok(false));
    assert_eq!(tags.mark(&mut visits, "w", "/srv/w", true, 12), Ok(true));
    assert_eq!(tags.resolve_tag("w"), Ok("/srv/w".to_string()));
    let top = visits.top(1);
    assert_eq!(top[0].path, "/srv/w");
    assert_eq!(top[0].visit_count, 2);
    assert_eq!(top[0].last_visited, 12);
    assert_eq!(tags.mark_now(&mut visits, "v", "/srv/v", true), Ok(false));
    assert_eq!(visits.len(), 2);
    assert_eq!(tags.mark_now(&mut visits, "x", "/srv/x", false), Err(NavError::InvalidTarget));
}

#[test]
fn tags_listed_by_name() {
    let mut tags = TagRegistry::new();
    tags.set_tag("zeta", "/z", 1);
    tags.set_tag("alpha", "/a", 2);
    tags.set_tag("mid", "/m", 3);
    tags.set_tag("Beta", "/b", 4);
    tags.set_tag("al", "/al", 5);
    let names: Vec<String> = tags.list_tags().iter().map(|t| t.name.clone()).collect();
    assert_eq!(names, vec!["Beta", "al", "alpha", "mid", "zeta"]);
    tags.remove_tag("mid");
    let names: Vec<String> = tags.list_tags().iter().map(|t| t.name.clone()).collect();
    assert_eq!(names, vec!["Beta", "al", "alpha", "zeta"]);
}
