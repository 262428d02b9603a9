use smorgasbord::backend::Entry;
use smorgasbord::chooser::Error;
use smorgasbord::chooser::SendableChooser;
use smorgasbord::path::Path;
use smorgasbord::tree::Node;
use smorgasbord::tree::Nodes;
use smorgasbord::tree::TValue;
use smorgasbord::tree::Tree;
use smorgasbord::value::Value;
use smorgasbord::widgets::Builder;
use smorgasbord::widgets::Kind;

fn leaf_node(key: &str, value: Value) -> Node {
    Node {
        key: smorgasbord::path::Key::new(key.to_string()),
        widgets: Vec::new(),
        pending: Vec::new(),
        value: TValue::Leaf(value),
    }
}

fn text(s: &str) -> Value {
    Value::Text(s.to_string())
}

fn text_array(items: &[&str]) -> Value {
    Value::Array(items.iter().map(|s| text(s)).collect())
}

fn chooser_subtree(with_selected: Option<&str>) -> TValue {
    let mut nodes = vec![
        leaf_node(".type", text("String Chooser")),
        leaf_node("options", text_array(&["Left", "Right"])),
        leaf_node("default", text("Left")),
    ];
    if let Some(sel) = with_selected {
        nodes.push(leaf_node("selected", text(sel)));
    }
    TValue::Branch(Nodes { nodes })
}

#[test]
fn chooser_without_selection_falls_back_to_default() {
    let chooser = SendableChooser::try_from(&chooser_subtree(None)).unwrap();
    assert_eq!(chooser.active, None);
    assert_eq!(chooser.default_index, 0);
    assert_eq!(chooser.options, vec!["Left".to_string(), "Right".to_string()]);
    assert!(!chooser.is_finished);
    assert_eq!(chooser.selection_index(), 0);
}

#[test]
fn chooser_with_selection_reports_it() {
    let chooser = SendableChooser::try_from(&chooser_subtree(Some("Right"))).unwrap();
    assert_eq!(chooser.active, Some(1));
    assert_eq!(chooser.selection_index(), 1);
}

#[test]
fn chooser_with_unknown_selection_counts_as_none() {
    let chooser = SendableChooser::try_from(&chooser_subtree(Some("Middle"))).unwrap();
    assert_eq!(chooser.active, None);
    assert_eq!(chooser.selection_index(), 0);
}

#[test]
fn chooser_errors_name_the_first_gap() {
    let bare = TValue::Leaf(Value::Integer(1));
    assert!(matches!(
        SendableChooser::try_from(&bare),
        Err(Error::WantedNodes)
    ));

    let no_type = TValue::Branch(Nodes {
        nodes: vec![leaf_node("options", text_array(&["a"]))],
    });
    assert!(matches!(
        SendableChooser::try_from(&no_type),
        Err(Error::MissingType)
    ));

    let bad_type = TValue::Branch(Nodes { nodes: vec![leaf_node(".type", Value::Integer(3))] });
    assert!(matches!(
        SendableChooser::try_from(&bad_type),
        Err(Error::TypeNotString)
    ));

    let other_type = TValue::Branch(Nodes { nodes: vec![leaf_node(".type", text("Tabs"))] });
    assert!(matches!(
        SendableChooser::try_from(&other_type),
        Err(Error::IncorrectType(_))
    ));

    let no_options = TValue::Branch(Nodes { nodes: vec![leaf_node(".type", text("String Chooser"))] });
    assert!(matches!(
        SendableChooser::try_from(&no_options),
        Err(Error::MissingOptions)
    ));

    let no_default = TValue::Branch(Nodes {
        nodes: vec![
            leaf_node(".type", text("String Chooser")),
            leaf_node("options", text_array(&["a"])),
        ],
    });
    assert!(matches!(
        SendableChooser::try_from(&no_default),
        Err(Error::MissingDefault)
    ));

    let bad_default = TValue::Branch(Nodes {
        nodes: vec![
            leaf_node(".type", text("String Chooser")),
            leaf_node("options", text_array(&["a"])),
            leaf_node("default", text("zzz")),
        ],
    });
    assert!(matches!(
        SendableChooser::try_from(&bad_default),
        Err(Error::IllegalSelection)
    ));
}

fn entry(path: &str, value: Value) -> Entry {
    Entry { path: Path::parse(path).unwrap(), value }
}

#[test]
fn partial_chooser_completes_when_options_arrive() {
    let mut tree = Tree::new(vec![Builder::Simple, Builder::Chooser, Builder::Tabs]);
    tree.create_entry(entry("/auto/.type", text("String Chooser"))).unwrap();
    tree.create_entry(entry("/auto/default", text("Left"))).unwrap();
    tree.create_entry(entry("/auto/options", Value::Integer(0))).unwrap();
    let auto = Path::parse("/auto").unwrap();
    assert!(tree.get(&auto).is_none(), "still missing usable options");

    tree.update_entry(entry("/auto/options", text_array(&["Left", "Right"]))).unwrap();
    let widget = tree.get(&auto).expect("the chooser is complete now");
    match &widget.value {
        Kind::Chooser(c) => {
            assert_eq!(c.options, vec!["Left".to_string(), "Right".to_string()]);
            assert_eq!(c.active, None);
            assert_eq!(c.default_index, 0);
        }
        other => panic!("expected a chooser, got {:?}", other),
    }
}

#[test]
fn chooser_edit_publishes_the_selection() {
    let mut tree = Tree::new(vec![Builder::Simple, Builder::Chooser, Builder::Tabs]);
    tree.create_entry(entry("/auto/.type", text("String Chooser"))).unwrap();
    tree.create_entry(entry("/auto/options", text_array(&["Left", "Right"]))).unwrap();
    tree.create_entry(entry("/auto/default", text("Left"))).unwrap();
    let auto = Path::parse("/auto").unwrap();
    assert!(tree.get(&auto).is_some());

    let write = tree.edit_widget(&auto, "Right").unwrap();
    let entries = write.entries();
    assert_eq!(entries.len(), 1);
    assert_eq!(entries[0].path.format(), "/auto/selected");
    assert_eq!(entries[0].value, text("Right"));
    assert!(write.try_filter().is_none());

    let write = tree.edit_widget(&auto, "nonsense").unwrap();
    assert_eq!(write.entries().len(), 0);
}

#[test]
fn chooser_widget_hides_its_field_widgets() {
    let mut tree = Tree::new(vec![Builder::Simple, Builder::Chooser, Builder::Tabs]);
    tree.create_entry(entry("/auto/.type", text("String Chooser"))).unwrap();
    tree.create_entry(entry("/auto/options", text_array(&["Left"]))).unwrap();
    tree.create_entry(entry("/auto/default", text("Left"))).unwrap();
    let titles: Vec<String> = tree.widgets().iter().map(|w| w.title.format()).collect();
    assert_eq!(titles, vec!["/auto".to_string()]);
}

#[test]
fn deep_partial_chooser_completes_when_options_arrive() {
    let mut tree = Tree::new(vec![Builder::Simple, Builder::Chooser, Builder::Tabs]);
    tree.create_entry(entry("/dash/auto/.type", text("String Chooser"))).unwrap();
    tree.create_entry(entry("/dash/auto/default", text("Mid"))).unwrap();
    tree.create_entry(entry("/dash/auto/options", Value::Integer(0))).unwrap();
    let auto = Path::parse("/dash/auto").unwrap();
    assert!(tree.get(&auto).is_none(), "still missing usable options");

    tree.update_entry(entry("/dash/auto/options", text_array(&["Low", "Mid"]))).unwrap();
    let widget = tree.get(&auto).expect("the nested chooser is complete now");
    match &widget.value {
        Kind::Chooser(c) => {
            assert_eq!(c.options, vec!["Low".to_string(), "Mid".to_string()]);
            assert_eq!(c.active, None);
            assert_eq!(c.default_index, 1);
        }
        other => panic!("expected a chooser, got {:?}", other),
    }
}
