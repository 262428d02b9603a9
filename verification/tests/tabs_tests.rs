use smorgasbord::backend::Entry;
use smorgasbord::path::Path;
use smorgasbord::tabs::Error;
use smorgasbord::tabs::Tabs;
use smorgasbord::tree::Node;
use smorgasbord::tree::Nodes;
use smorgasbord::tree::TValue;
use smorgasbord::tabs::Filter;
use smorgasbord::tree::Tree;
use smorgasbord::value::Value;
use smorgasbord::widgets::Builder;
use smorgasbord::widgets::Kind;
use smorgasbord::widgets::Widget;

fn text(s: &str) -> Value {
    Value::Text(s.to_string())
}

fn text_array(items: &[&str]) -> Value {
    Value::Array(items.iter().map(|s| text(s)).collect())
}

fn entry(path: &str, value: Value) -> Entry {
    Entry { path: Path::parse(path).unwrap(), value }
}

fn tabs_tree() -> Tree {
    let mut tree = Tree::new(vec![Builder::Simple, Builder::Chooser, Builder::Tabs]);
    tree.create_entry(entry("/tabs/.type", text("Tabs"))).unwrap();
    tree.create_entry(entry(
        "/tabs/drivetrain",
        text_array(&["/left encoder", "/right encoder"]),
    ))
    .unwrap();
    tree.create_entry(entry("/tabs/arm", text_array(&["/arm encoder"]))).unwrap();
    // A refreshing update brings the widget, materialized when the
    // subtree was still filling in, up to the full tab list.
    tree.update_entry(entry("/tabs/.type", text("Tabs"))).unwrap();
    tree
}

#[test]
fn tabs_subtree_becomes_a_tab_group() {
    let tree = tabs_tree();
    let widget = tree.get(&Path::parse("/tabs").unwrap()).expect("a tab group");
    match &widget.value {
        Kind::Tabs(t) => {
            let names: Vec<&str> = t.options.iter().map(|o| o.option.as_str()).collect();
            assert_eq!(names, vec!["drivetrain", "arm"]);
            assert_eq!(t.selected, None);
            assert_eq!(t.options[0].widgets.len(), 2);
            assert_eq!(t.options[0].widgets[0].format(), "/left encoder");
        }
        other => panic!("expected a tab group, got {:?}", other),
    }
}

#[test]
fn tab_edit_asks_for_that_tabs_widgets() {
    let mut tree = tabs_tree();
    let tabs_path = Path::parse("/tabs").unwrap();
    let write = tree.edit_widget(&tabs_path, "drivetrain").unwrap();
    assert_eq!(write.entries().len(), 0);
    match write.try_filter() {
        Some(Filter::OneOf(paths)) => {
            let shown: Vec<String> = paths.iter().map(|p| p.format()).collect();
            assert_eq!(
                shown,
                vec![
                    "/left encoder".to_string(),
                    "/right encoder".to_string(),
                    "/tabs".to_string(),
                ]
            );
        }
        other => panic!("expected a one-of filter, got {:?}", other),
    }
}

#[test]
fn general_edit_hides_every_claimed_widget() {
    let mut tree = tabs_tree();
    let tabs_path = Path::parse("/tabs").unwrap();
    tree.edit_widget(&tabs_path, "drivetrain").unwrap();
    let write = tree.edit_widget(&tabs_path, "General").unwrap();
    match write.try_filter() {
        Some(Filter::NoneOf(paths)) => {
            let hidden: Vec<String> = paths.iter().map(|p| p.format()).collect();
            assert_eq!(
                hidden,
                vec![
                    "/left encoder".to_string(),
                    "/right encoder".to_string(),
                    "/arm encoder".to_string(),
                ]
            );
        }
        other => panic!("expected a none-of filter, got {:?}", other),
    }
}

#[test]
fn unknown_tab_text_does_nothing() {
    let mut tree = tabs_tree();
    let tabs_path = Path::parse("/tabs").unwrap();
    let write = tree.edit_widget(&tabs_path, "nonsense").unwrap();
    assert_eq!(write.entries().len(), 0);
    assert!(write.try_filter().is_none());
}

fn widget_titled(name: &str) -> Widget {
    Widget::new(
        Path::parse(name).unwrap(),
        Kind::Simple(smorgasbord::simple::Simple { value: Value::Integer(0) }),
    )
}

#[test]
fn filters_decide_visibility_by_title() {
    let shown = Filter::OneOf(vec![Path::parse("/a").unwrap()]);
    assert!(shown.contains(&widget_titled("/a")));
    assert!(!shown.contains(&widget_titled("/b")));

    let hidden = Filter::NoneOf(vec![Path::parse("/a").unwrap()]);
    assert!(!hidden.contains(&widget_titled("/a")));
    assert!(hidden.contains(&widget_titled("/b")));

    let default = Filter::default();
    assert!(default.contains(&widget_titled("/anything")));
}

fn leaf_node(key: &str, value: Value) -> smorgasbord::tree::Node {
    smorgasbord::tree::Node {
        key: smorgasbord::path::Key::new(key.to_string()),
        widgets: Vec::new(),
        pending: Vec::new(),
        value: smorgasbord::tree::TValue::Leaf(value),
    }
}

#[test]
fn tab_group_errors_name_the_first_gap() {
    let bare = TValue::Leaf(Value::Integer(1));
    assert!(matches!(Tabs::try_from(&bare), Err(Error::WantedNodes)));

    let no_type = TValue::Branch(Nodes { nodes: vec![leaf_node("a", Value::Integer(1))] });
    assert!(matches!(Tabs::try_from(&no_type), Err(Error::MissingType)));

    let bad_type = TValue::Branch(Nodes { nodes: vec![leaf_node(".type", Value::Integer(1))] });
    assert!(matches!(Tabs::try_from(&bad_type), Err(Error::TypeNotString)));

    let other_type = TValue::Branch(Nodes { nodes: vec![leaf_node(".type", text("String Chooser"))] });
    assert!(matches!(Tabs::try_from(&other_type), Err(Error::IncorrectType(_))));

    let branch_tab = TValue::Branch(Nodes {
        nodes: vec![
            leaf_node(".type", text("Tabs")),
            Node {
                key: smorgasbord::path::Key::new("drivetrain".to_string()),
                widgets: Vec::new(),
                pending: Vec::new(),
                value: TValue::Branch(Nodes { nodes: Vec::new() }),
            },
        ],
    });
    assert!(matches!(Tabs::try_from(&branch_tab), Err(Error::WantedValue)));

    let not_strings = TValue::Branch(Nodes {
        nodes: vec![
            leaf_node(".type", text("Tabs")),
            leaf_node("drivetrain", Value::Integer(1)),
        ],
    });
    assert!(matches!(Tabs::try_from(&not_strings), Err(Error::OptionNotStringArray)));

    let bad_paths = TValue::Branch(Nodes {
        nodes: vec![
            leaf_node(".type", text("Tabs")),
            leaf_node("drivetrain", text_array(&["not a path"])),
        ],
    });
    assert!(matches!(Tabs::try_from(&bad_paths), Err(Error::PathParse(_))));
}
