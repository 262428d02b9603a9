use smorgasbord::packing::GridPosition;
use smorgasbord::packing::Packing;
use smorgasbord::path::Key;
use smorgasbord::path::Path;
use smorgasbord::widgets::Size;

fn path_of(name: &str) -> Path {
    Path::of(Key::new(name.to_string()))
}

fn size(width: usize, height: usize) -> Size {
    Size { width, height }
}

fn anchors_of(p: &Packing) -> Vec<(String, usize, usize)> {
    p.anchors()
        .iter()
        .map(|e| (e.path.format(), e.position.x, e.position.y))
        .collect()
}

#[test]
fn widest_widget_claims_space_first() {
    let mut packing = Packing::new(size(4, 2));
    packing.add_all(vec![
        (path_of("a"), size(1, 1)),
        (path_of("b"), size(1, 1)),
        (path_of("c"), size(2, 1)),
    ]);
    assert_eq!(
        packing.anchor_of(&path_of("c")),
        Some(GridPosition { x: 0, y: 0 })
    );
    assert_eq!(
        packing.anchor_of(&path_of("a")),
        Some(GridPosition { x: 2, y: 0 })
    );
    assert_eq!(
        packing.anchor_of(&path_of("b")),
        Some(GridPosition { x: 3, y: 0 })
    );
}

#[test]
fn add_all_twice_changes_nothing() {
    let widgets = vec![
        (path_of("a"), size(1, 1)),
        (path_of("b"), size(2, 2)),
        (path_of("c"), size(1, 2)),
    ];
    let mut packing = Packing::new(size(4, 3));
    packing.add_all(widgets.clone());
    let first = anchors_of(&packing);
    packing.add_all(widgets);
    assert_eq!(anchors_of(&packing), first);
}

#[test]
fn anchored_widget_never_moves() {
    let mut packing = Packing::new(size(3, 3));
    packing.add(path_of("a"), size(1, 1));
    assert_eq!(
        packing.anchor_of(&path_of("a")),
        Some(GridPosition { x: 0, y: 0 })
    );
    packing.add(path_of("a"), size(2, 2));
    assert_eq!(
        packing.anchor_of(&path_of("a")),
        Some(GridPosition { x: 0, y: 0 })
    );
    assert_eq!(packing.anchors().len(), 1);
}

#[test]
fn footprints_never_overlap() {
    let mut packing = Packing::new(size(3, 3));
    packing.add_all(vec![
        (path_of("a"), size(2, 2)),
        (path_of("b"), size(2, 1)),
        (path_of("c"), size(1, 1)),
        (path_of("d"), size(3, 1)),
    ]);
    let mut owned = vec![vec![0usize; 3]; 3];
    for e in packing.anchors() {
        for dy in 0..e.size.height {
            for dx in 0..e.size.width {
                owned[e.position.y + dy][e.position.x + dx] += 1;
            }
        }
    }
    for row in owned {
        for cell in row {
            assert!(cell <= 1, "two widgets own one cell");
        }
    }
}

#[test]
fn a_widget_that_fits_nowhere_is_dropped() {
    let mut packing = Packing::new(size(2, 1));
    packing.add(path_of("big"), size(2, 2));
    assert_eq!(packing.anchor_of(&path_of("big")), None);
    packing.add(path_of("a"), size(1, 1));
    packing.add(path_of("b"), size(1, 1));
    packing.add(path_of("late"), size(1, 1));
    assert_eq!(packing.anchor_of(&path_of("late")), None);
}

#[test]
fn get_widget_at_resolves_covered_cells() {
    let mut packing = Packing::new(size(4, 2));
    packing.add(path_of("wide"), size(2, 2));
    packing.add(path_of("small"), size(1, 1));
    let under = packing.get_widget_at(GridPosition { x: 1, y: 1 }).unwrap();
    assert_eq!(under.format(), "/wide");
    let under = packing.get_widget_at(GridPosition { x: 2, y: 0 }).unwrap();
    assert_eq!(under.format(), "/small");
    assert!(packing.get_widget_at(GridPosition { x: 3, y: 1 }).is_none());
}

#[test]
fn clear_frees_the_grid() {
    let mut packing = Packing::new(size(2, 2));
    packing.add(path_of("a"), size(2, 2));
    packing.clear();
    assert!(packing.anchor_of(&path_of("a")).is_none());
    packing.add(path_of("b"), size(2, 2));
    assert_eq!(
        packing.anchor_of(&path_of("b")),
        Some(GridPosition { x: 0, y: 0 })
    );
    assert_eq!(packing.get_width(), 2);
    assert_eq!(packing.get_height(), 2);
}

#[test]
fn equal_areas_keep_their_given_order() {
    let mut packing = Packing::new(size(4, 1));
    packing.add_all(vec![
        (path_of("first"), size(1, 1)),
        (path_of("second"), size(1, 1)),
    ]);
    assert_eq!(
        packing.anchor_of(&path_of("first")),
        Some(GridPosition { x: 0, y: 0 })
    );
    assert_eq!(
        packing.anchor_of(&path_of("second")),
        Some(GridPosition { x: 1, y: 0 })
    );
}
