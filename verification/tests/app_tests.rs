use smorgasbord::app::App;
use smorgasbord::app::Edit;
use smorgasbord::app::Input;
use smorgasbord::app::State;
use smorgasbord::backend::Backend;
use smorgasbord::backend::Entry;
use smorgasbord::backend::SeenPaths;
use smorgasbord::backend::Status;
use smorgasbord::backend::Update;
use smorgasbord::packing::GridPosition;
use smorgasbord::path::Path;
use smorgasbord::value::Value;
use smorgasbord::widgets::Size;

/// A backend that serves queued entries and records what is written.
struct ScriptedBackend {
    inbox: Vec<Entry>,
    seen: SeenPaths,
    written: Vec<Entry>,
}

impl ScriptedBackend {
    fn new() -> ScriptedBackend {
        ScriptedBackend { inbox: Vec::new(), seen: SeenPaths::new(), written: Vec::new() }
    }

    fn queue(&mut self, path: &str, value: Value) {
        self.inbox.push(Entry { path: Path::parse(path).unwrap(), value });
    }
}

impl Backend for ScriptedBackend {
    fn update(&mut self) -> Update {
        let mut update = Update::new();
        while !self.inbox.is_empty() {
            let entry = self.inbox.remove(0);
            let is_new = self.seen.insert_check(&entry.path);
            update.push(entry, is_new);
        }
        update
    }

    fn write(&mut self, entries: Vec<Entry>) {
        self.written.extend(entries);
    }

    fn status(&self) -> Status {
        Status { is_connected: true }
    }
}

fn text(s: &str) -> Value {
    Value::Text(s.to_string())
}

fn text_array(items: &[&str]) -> Value {
    Value::Array(items.iter().map(|s| text(s)).collect())
}

fn size(width: usize, height: usize) -> Size {
    Size { width, height }
}

#[test]
fn a_tick_packs_arriving_widgets() {
    let mut backend = ScriptedBackend::new();
    backend.queue("/counter", Value::Integer(1));
    backend.queue("/gyro", Value::Integer(2));
    let mut app = App::new(size(4, 4), backend);
    app.update(None).unwrap();
    assert!(app.packing.anchor_of(&Path::parse("/counter").unwrap()).is_some());
    assert!(app.packing.anchor_of(&Path::parse("/gyro").unwrap()).is_some());
}

#[test]
fn quit_comes_only_from_the_browse_state() {
    let backend = ScriptedBackend::new();
    let mut app = App::new(size(2, 2), backend);
    assert_eq!(app.update(Some(Input::Char('x'))).unwrap(), false);
    assert_eq!(app.update(Some(Input::Char('q'))).unwrap(), true);
}

#[test]
fn arrows_move_the_cursor_inside_the_grid() {
    let backend = ScriptedBackend::new();
    let mut app = App::new(size(3, 2), backend);
    app.update(Some(Input::Left)).unwrap();
    assert_eq!(app.cursor, GridPosition { x: 0, y: 0 });
    app.update(Some(Input::Right)).unwrap();
    app.update(Some(Input::Right)).unwrap();
    app.update(Some(Input::Right)).unwrap();
    assert_eq!(app.cursor, GridPosition { x: 2, y: 0 });
    app.update(Some(Input::Down)).unwrap();
    app.update(Some(Input::Down)).unwrap();
    assert_eq!(app.cursor, GridPosition { x: 2, y: 1 });
    app.update(Some(Input::Up)).unwrap();
    assert_eq!(app.cursor, GridPosition { x: 2, y: 0 });
}

#[test]
fn enter_opens_an_editor_on_an_anchored_widget() {
    let mut backend = ScriptedBackend::new();
    backend.queue("/auto/.type", text("String Chooser"));
    backend.queue("/auto/options", text_array(&["Left", "Right"]));
    backend.queue("/auto/default", text("Left"));
    let mut app = App::new(size(2, 2), backend);
    app.update(None).unwrap();
    assert!(app.packing.anchor_of(&Path::parse("/auto").unwrap()).is_some());
    app.update(Some(Input::Enter)).unwrap();
    match &app.state {
        State::Edit(e) => {
            assert_eq!(e.editting, GridPosition { x: 0, y: 0 });
            assert_eq!(e.text, "");
            assert_eq!(e.prompt, "Enter an option");
        }
        State::View => panic!("expected an edit in progress"),
    }
}

#[test]
fn escape_abandons_the_edit() {
    let mut backend = ScriptedBackend::new();
    backend.queue("/auto/.type", text("String Chooser"));
    backend.queue("/auto/options", text_array(&["Left", "Right"]));
    backend.queue("/auto/default", text("Left"));
    let mut app = App::new(size(2, 2), backend);
    app.update(None).unwrap();
    app.update(Some(Input::Enter)).unwrap();
    app.update(Some(Input::Esc)).unwrap();
    assert!(matches!(app.state, State::View));
}

#[test]
fn typed_text_reaches_the_widget_and_the_backend() {
    let mut backend = ScriptedBackend::new();
    backend.queue("/auto/.type", text("String Chooser"));
    backend.queue("/auto/options", text_array(&["Left", "Right"]));
    backend.queue("/auto/default", text("Left"));
    let mut app = App::new(size(2, 2), backend);
    app.update(None).unwrap();
    app.update(Some(Input::Enter)).unwrap();
    for c in "Rightx".chars() {
        app.update(Some(Input::Char(c))).unwrap();
    }
    app.update(Some(Input::Backspace)).unwrap();
    app.update(Some(Input::Enter)).unwrap();
    let written = &app.network_table.written;
    assert_eq!(written.len(), 1);
    assert_eq!(written[0].path.format(), "/auto/selected");
    assert_eq!(written[0].value, text("Right"));
    assert!(matches!(app.state, State::View));
}

#[test]
fn committing_a_tab_restricts_the_visible_widgets() {
    let mut backend = ScriptedBackend::new();
    backend.queue("/tabs/.type", text("Tabs"));
    backend.queue("/tabs/drivetrain", text_array(&["/left encoder"]));
    backend.queue("/left encoder", Value::Integer(0));
    backend.queue("/stray", Value::Integer(1));
    let mut app = App::new(size(4, 4), backend);
    app.update(None).unwrap();
    assert!(app.packing.anchor_of(&Path::parse("/stray").unwrap()).is_some());
    // A second sighting of the type key refreshes the tab group with
    // its full tab list.
    app.network_table.queue("/tabs/.type", text("Tabs"));
    app.update(None).unwrap();

    let tabs_pos = app.packing.anchor_of(&Path::parse("/tabs").unwrap()).unwrap();
    app.state = State::Edit(Edit {
        editting: tabs_pos,
        text: "drivetrain".to_string(),
        prompt: String::new(),
    });
    app.update(Some(Input::Enter)).unwrap();

    assert!(app.packing.anchor_of(&Path::parse("/left encoder").unwrap()).is_some());
    assert!(app.packing.anchor_of(&Path::parse("/tabs").unwrap()).is_some());
    assert!(app.packing.anchor_of(&Path::parse("/stray").unwrap()).is_none());
    assert!(matches!(app.state, State::View));
}

#[test]
fn rejected_entries_do_not_stop_a_tick() {
    let mut backend = ScriptedBackend::new();
    backend.queue("/a", Value::Integer(1));
    backend.queue("/a/b", Value::Integer(2));
    backend.queue("/c", Value::Integer(3));
    let mut app = App::new(size(4, 4), backend);
    app.update(None).unwrap();
    assert!(app.packing.anchor_of(&Path::parse("/a").unwrap()).is_some());
    assert!(app.packing.anchor_of(&Path::parse("/a/b").unwrap()).is_none());
    assert!(app.packing.anchor_of(&Path::parse("/c").unwrap()).is_some());
}

#[test]
fn an_out_of_grid_cursor_is_reported_and_reset() {
    let backend = ScriptedBackend::new();
    let mut app = App::new(size(2, 2), backend);
    app.cursor = GridPosition { x: 9, y: 0 };
    assert_eq!(app.update(None), Err(smorgasbord::app::Error::InvalidCursor));
    assert_eq!(app.cursor, GridPosition { x: 0, y: 0 });
}

#[test]
fn an_unanchored_edit_cell_is_a_runaway() {
    let backend = ScriptedBackend::new();
    let mut app = App::new(size(2, 2), backend);
    app.state = State::Edit(Edit {
        editting: GridPosition { x: 1, y: 1 },
        text: String::new(),
        prompt: String::new(),
    });
    assert_eq!(
        app.update(Some(Input::Enter)),
        Err(smorgasbord::app::Error::RunawayWidget)
    );
}
