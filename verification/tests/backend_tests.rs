use smorgasbord::backend::Entry;
use smorgasbord::backend::SeenPaths;
use smorgasbord::backend::Status;
use smorgasbord::backend::StatusUpdate;
use smorgasbord::backend::Update;
use smorgasbord::backend::Write;
use smorgasbord::path::Path;
use smorgasbord::tabs::Filter;
use smorgasbord::value::Value;

fn entry(path: &str, value: Value) -> Entry {
    Entry { path: Path::parse(path).unwrap(), value }
}

#[test]
fn first_sighting_is_a_creation_then_updates() {
    let mut seen = SeenPaths::new();
    let p = Path::parse("/a/b").unwrap();
    let q = Path::parse("/a/c").unwrap();
    assert!(seen.insert_check(&p));
    assert!(!seen.insert_check(&p));
    assert!(seen.insert_check(&q));
    assert!(!seen.insert_check(&p));
    assert!(!seen.insert_check(&q));
}

#[test]
fn update_files_entries_by_novelty() {
    let mut update = Update::new();
    update.push(entry("/new", Value::Integer(1)), true);
    update.push(entry("/old", Value::Integer(2)), false);
    update.push(entry("/new2", Value::Integer(3)), true);
    assert_eq!(update.to_create.len(), 2);
    assert_eq!(update.to_update.len(), 1);
    assert_eq!(update.to_create[0].path.format(), "/new");
    assert_eq!(update.to_update[0].path.format(), "/old");
}

#[test]
fn status_follows_connectivity_changes() {
    let mut status = Status::default();
    assert!(!status.is_connected);
    status.update(StatusUpdate::IsConnectedChange(true));
    assert!(status.is_connected);
    status.update(StatusUpdate::IsConnectedChange(false));
    assert!(!status.is_connected);
}

#[test]
fn writes_carry_entries_or_a_filter() {
    let w = Write::one(entry("/a", Value::Integer(1)));
    assert_eq!(w.entries().len(), 1);
    assert!(w.try_filter().is_none());

    let w = Write::filter(Filter::OneOf(vec![Path::parse("/a").unwrap()]));
    assert_eq!(w.entries().len(), 0);
    match w.try_filter() {
        Some(Filter::OneOf(paths)) => assert_eq!(paths.len(), 1),
        other => panic!("expected the one-of filter back, got {:?}", other),
    }

    let w = Write::default();
    assert_eq!(w.entries().len(), 0);
    assert!(w.try_filter().is_none());

    let w = Write::one(entry("/a", Value::Integer(1)));
    let entries = w.into_entries();
    assert_eq!(entries.len(), 1);
    assert_eq!(entries[0].path.format(), "/a");
}
