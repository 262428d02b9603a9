use smorgasbord::backend::Entry;
use smorgasbord::path::from_nt_path;
use smorgasbord::path::Path;
use smorgasbord::tree::Error;
use smorgasbord::tree::Tree;
use smorgasbord::value::Value;
use smorgasbord::widgets::Builder;
use smorgasbord::widgets::Kind;

fn standard_tree() -> Tree {
    Tree::new(vec![Builder::Simple, Builder::Chooser, Builder::Tabs])
}

fn entry(path: &str, value: Value) -> Entry {
    Entry { path: Path::parse(path).unwrap(), value }
}

#[test]
fn create_materializes_the_whole_chain() {
    let mut tree = standard_tree();
    let topic = from_nt_path("/Smartdashboard/auto/options".to_string()).unwrap();
    tree.create_entry(Entry { path: topic.clone(), value: Value::Integer(7) })
        .unwrap();
    let widget = tree.get(&topic).expect("a widget at the new leaf");
    assert_eq!(widget.title.format(), "/Smartdashboard/auto/options");
    match &widget.value {
        Kind::Simple(s) => assert_eq!(s.value, Value::Integer(7)),
        other => panic!("expected a plain widget, got {:?}", other),
    }
    assert!(tree.get(&Path::parse("/Smartdashboard/auto").unwrap()).is_none());
    assert!(tree.get(&Path::parse("/Smartdashboard/other").unwrap()).is_none());
}

#[test]
fn update_stores_the_latest_write() {
    let mut tree = standard_tree();
    tree.create_entry(entry("/a/b", Value::Integer(1))).unwrap();
    tree.create_entry(entry("/a/c", Value::Integer(9))).unwrap();
    tree.update_entry(entry("/a/b", Value::Integer(2))).unwrap();
    match &tree.get(&Path::parse("/a/b").unwrap()).unwrap().value {
        Kind::Simple(s) => assert_eq!(s.value, Value::Integer(2)),
        other => panic!("expected a plain widget, got {:?}", other),
    }
    match &tree.get(&Path::parse("/a/c").unwrap()).unwrap().value {
        Kind::Simple(s) => assert_eq!(s.value, Value::Integer(9)),
        other => panic!("expected a plain widget, got {:?}", other),
    }
}

#[test]
fn update_of_missing_ancestor_is_no_such_entry() {
    let mut tree = standard_tree();
    tree.create_entry(entry("/a/b", Value::Integer(1))).unwrap();
    let before = tree.widgets().len();
    let result = tree.update_entry(entry("/a/missing/deep", Value::Integer(2)));
    assert_eq!(result, Err(Error::NoSuchEntry));
    assert_eq!(tree.widgets().len(), before);
    match &tree.get(&Path::parse("/a/b").unwrap()).unwrap().value {
        Kind::Simple(s) => assert_eq!(s.value, Value::Integer(1)),
        other => panic!("expected a plain widget, got {:?}", other),
    }
}

#[test]
fn create_below_a_leaf_is_rejected() {
    let mut tree = standard_tree();
    tree.create_entry(entry("/a/b", Value::Integer(1))).unwrap();
    let result = tree.create_entry(entry("/a/b/c", Value::Integer(2)));
    assert_eq!(result, Err(Error::ExpectedBranch));
}

#[test]
fn create_at_a_branch_is_rejected() {
    let mut tree = standard_tree();
    tree.create_entry(entry("/a/b", Value::Integer(1))).unwrap();
    let result = tree.create_entry(entry("/a", Value::Integer(2)));
    assert_eq!(result, Err(Error::ExpectedValue));
}

#[test]
fn update_of_a_branch_is_rejected() {
    let mut tree = standard_tree();
    tree.create_entry(entry("/a/b", Value::Integer(1))).unwrap();
    assert_eq!(
        tree.update_entry(entry("/a", Value::Integer(2))),
        Err(Error::ExpectedValue)
    );
    assert_eq!(
        tree.update_entry(entry("/a/b/c", Value::Integer(2))),
        Err(Error::ExpectedBranch)
    );
}

#[test]
fn dotted_keys_get_no_plain_widget() {
    let mut tree = standard_tree();
    tree.create_entry(entry("/x/.type", Value::Text("other".to_string())))
        .unwrap();
    assert!(tree.get(&Path::parse("/x/.type").unwrap()).is_none());
}

#[test]
fn widgets_lists_in_traversal_order() {
    let mut tree = standard_tree();
    tree.create_entry(entry("/a/one", Value::Integer(1))).unwrap();
    tree.create_entry(entry("/a/two", Value::Integer(2))).unwrap();
    let titles: Vec<String> = tree.widgets().iter().map(|w| w.title.format()).collect();
    assert_eq!(titles, vec!["/a/one".to_string(), "/a/two".to_string()]);
}
