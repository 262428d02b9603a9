//! The grid packing engine: assigns each visible widget a stable,
//! non-overlapping rectangular region in a fixed-size grid.
//!
//! A widget is anchored at most once; while it stays anchored it never
//! moves.  New widgets are placed at the first position, in row-major
//! order, whose footprint is free; a widget that does not fit is simply
//! not placed and will be considered again on a later pass.

use vstd::prelude::*;

use crate::path::Path;
use crate::path::keys_view;
use crate::widgets::Size;

verus! {

broadcast use vstd::seq::group_seq_axioms, vstd::seq_lib::group_seq_lib_default;

/// A cell coordinate in the grid: `x` counts columns, `y` rows.
#[derive(Clone, Copy, Debug, Default, PartialEq, Eq, Structural)]
pub struct GridPosition {
    pub x: usize,
    pub y: usize,
}

/// One anchored widget: its title, its anchor cell, and the footprint it
/// owns from there.
#[derive(Debug)]
pub struct PackEntry {
    pub path: Path,
    pub position: GridPosition,
    pub size: Size,
}

/// The mathematical shape of an anchored widget.
#[verifier::ext_equal]
pub struct EntryV {
    pub path: Seq<Seq<char>>,
    pub x: int,
    pub y: int,
    pub w: int,
    pub h: int,
}

impl View for PackEntry {
    type V = EntryV;

    open spec fn view(&self) -> EntryV {
        EntryV {
            path: self.path@,
            x: self.position.x as int,
            y: self.position.y as int,
            w: self.size.width as int,
            h: self.size.height as int,
        }
    }
}

/// The mathematical shape of the whole grid assignment.
#[verifier::ext_equal]
pub struct PackingV {
    pub width: int,
    pub height: int,
    pub entries: Seq<EntryV>,
    pub occupied: Seq<bool>,
}

/// Whether an anchored widget's footprint covers the cell `(x, y)`.
pub open spec fn covers(e: EntryV, x: int, y: int) -> bool {
    e.x <= x < e.x + e.w && e.y <= y < e.y + e.h
}

/// Whether two footprints share a cell.
pub open spec fn overlap(a: EntryV, b: EntryV) -> bool {
    exists|x: int, y: int| covers(a, x, y) && #[trigger] covers(b, x, y)
}

/// The bitmap index of the cell `(x, y)`.
pub open spec fn cell_index(p: PackingV, x: int, y: int) -> int {
    x + y * p.width
}

/// Whether a path is already anchored.
pub open spec fn has_path(p: PackingV, path: Seq<Seq<char>>) -> bool {
    exists|i: int| 0 <= i < p.entries.len() && (#[trigger] p.entries[i]).path == path
}

impl PackingV {
    /// The packing is internally consistent: every entry lies inside the
    /// grid, entries never overlap, a path is anchored at most once, and
    /// the bitmap marks exactly the covered cells.
    pub open spec fn wf(self) -> bool {
        &&& self.width >= 1
        &&& self.height >= 1
        &&& self.occupied.len() == self.width * self.height
        &&& forall|i: int| 0 <= i < self.entries.len() ==> {
            let e = #[trigger] self.entries[i];
            1 <= e.w && 1 <= e.h && 0 <= e.x && 0 <= e.y && e.x + e.w <= self.width
                && e.y + e.h <= self.height
        }
        &&& forall|i: int, j: int| 0 <= i < self.entries.len() && 0 <= j
            < self.entries.len() && i != j ==> !overlap(
            #[trigger] self.entries[i],
            #[trigger] self.entries[j],
        )
        &&& forall|i: int, j: int| 0 <= i < self.entries.len() && 0 <= j
            < self.entries.len() && i != j ==> (#[trigger] self.entries[i]).path != (
        #[trigger] self.entries[j]).path
        &&& forall|x: int, y: int| 0 <= x < self.width && 0 <= y < self.height ==> (
        #[trigger] self.occupied[cell_index(self, x, y)] == exists|i: int| 0 <= i
            < self.entries.len() && covers(#[trigger] self.entries[i], x, y))
    }
}

/// A cell index derived from in-range coordinates is in range.
pub proof fn lemma_cell_index_bound(w: int, h: int, x: int, y: int)
    requires
        0 <= x < w,
        0 <= y < h,
    ensures
        0 <= y * w,
        0 <= x + y * w < w * h,
{
    assert(0 <= y * w && 0 <= x + y * w < w * h) by (nonlinear_arith)
        requires
            0 <= x < w,
            0 <= y < h,
    ;
}

/// Whether the footprint of width `w` and height `h` anchored at
/// `(x, y)` lies inside the grid with every covered cell free.
pub open spec fn fits_v(p: PackingV, x: int, y: int, w: int, h: int) -> bool {
    &&& 0 <= x && 0 <= y
    &&& x + w <= p.width
    &&& y + h <= p.height
    &&& forall|cx: int, cy: int| x <= cx < x + w && y <= cy < y + h ==> !(
    #[trigger] p.occupied[cell_index(p, cx, cy)])
}

/// The first position, scanning cells in row-major order from linear
/// index `k`, where the footprint fits; `None` if there is none.
pub open spec fn first_fit_from(p: PackingV, w: int, h: int, k: int) -> Option<(int, int)>
    decreases p.width * p.height - k,
{
    if k < 0 || k >= p.width * p.height || p.width <= 0 {
        None
    } else {
        let x = k % p.width;
        let y = k / p.width;
        if fits_v(p, x, y, w, h) {
            Some((x, y))
        } else {
            first_fit_from(p, w, h, k + 1)
        }
    }
}

/// The packing after anchoring a widget at `(x, y)`: the entry is
/// appended and its footprint's cells are marked occupied.
pub open spec fn place(
    p: PackingV,
    path: Seq<Seq<char>>,
    x: int,
    y: int,
    w: int,
    h: int,
) -> PackingV {
    PackingV {
        width: p.width,
        height: p.height,
        entries: p.entries.push(EntryV { path, x, y, w, h }),
        occupied: Seq::new(
            p.occupied.len(),
            |c: int|
                if exists|cx: int, cy: int|
                    x <= cx < x + w && y <= cy < y + h && c == #[trigger] cell_index(
                        p,
                        cx,
                        cy,
                    ) {
                    true
                } else {
                    p.occupied[c]
                },
        ),
    }
}

/// What adding a widget does: nothing if the path is already anchored,
/// otherwise the widget is placed at the first fitting position in
/// row-major order, or dropped if no position fits.
pub open spec fn spec_add(p: PackingV, path: Seq<Seq<char>>, w: int, h: int) -> PackingV {
    if has_path(p, path) {
        p
    } else {
        match first_fit_from(p, w, h, 0) {
            None => p,
            Some(pos) => place(p, path, pos.0, pos.1, w, h),
        }
    }
}

/// Whether the footprint fits at the position with the given row-major
/// linear index.
pub open spec fn fits_at_lin(p: PackingV, w: int, h: int, j: int) -> bool {
    fits_v(p, j % p.width, j / p.width, w, h)
}

/// A found first fit really fits, and the scan skipped nothing: every
/// earlier in-range position does not fit.
pub proof fn lemma_first_fit_props(p: PackingV, w: int, h: int, k: int)
    requires
        p.width >= 1,
        0 <= k,
    ensures
        match first_fit_from(p, w, h, k) {
            Some(pos) => {
                let lin = pos.0 + pos.1 * p.width;
                &&& fits_v(p, pos.0, pos.1, w, h)
                &&& 0 <= pos.0 < p.width
                &&& 0 <= pos.1 < p.height
                &&& k <= lin
                &&& forall|j: int| k <= j < lin ==> !fits_at_lin(p, w, h, j)
            },
            None => forall|j: int| k <= j < p.width * p.height ==> !fits_at_lin(p, w, h, j),
        },
    decreases p.width * p.height - k,
{
    if k < 0 || k >= p.width * p.height {
    } else {
        let x = k % p.width;
        let y = k / p.width;
        vstd::arithmetic::div_mod::lemma_fundamental_div_mod(k, p.width);
        vstd::arithmetic::div_mod::lemma_mod_division_less_than_divisor(k, p.width);
        vstd::arithmetic::div_mod::lemma_div_pos_is_pos(k, p.width);
        assert(0 <= x < p.width);
        assert(k == x + y * p.width);
        assert(0 <= y < p.height) by (nonlinear_arith)
            requires
                k == x + y * p.width,
                0 <= k < p.width * p.height,
                0 <= x < p.width,
                0 <= y,
        ;
        if fits_v(p, x, y, w, h) {
            assert(first_fit_from(p, w, h, k) == Some((x, y)));
        } else {
            lemma_first_fit_props(p, w, h, k + 1);
            assert(!fits_at_lin(p, w, h, k));
            assert forall|j: int| k <= j < k + 1 implies !fits_at_lin(p, w, h, j) by {
                assert(j == k);
            }
            match first_fit_from(p, w, h, k + 1) {
                Some(pos) => {
                    assert(first_fit_from(p, w, h, k) == Some(pos));
                }
                None => {}
            }
        }
    }
}

/// Distinct in-range coordinates give distinct cell indices.
pub proof fn lemma_cell_index_injective(w: int, h: int, x1: int, y1: int, x2: int, y2: int)
    requires
        0 <= x1 < w,
        0 <= y1 < h,
        0 <= x2 < w,
        0 <= y2 < h,
        x1 + y1 * w == x2 + y2 * w,
    ensures
        x1 == x2 && y1 == y2,
{
    assert(x1 == x2 && y1 == y2) by (nonlinear_arith)
        requires
            0 <= x1 < w,
            0 <= y1 < h,
            0 <= x2 < w,
            0 <= y2 < h,
            x1 + y1 * w == x2 + y2 * w,
    ;
}

/// The same grid with every anchor forgotten and every cell free.
pub open spec fn spec_cleared(p: PackingV) -> PackingV {
    PackingV {
        width: p.width,
        height: p.height,
        entries: Seq::empty(),
        occupied: Seq::new(p.occupied.len(), |c: int| false),
    }
}

/// The title anchored over the cell `(x, y)`, if one covers it.  Under
/// well-formedness at most one entry covers a cell, so the choice is
/// the covering entry's.
pub open spec fn spec_widget_under(p: PackingV, x: int, y: int) -> Option<Seq<Seq<char>>> {
    if exists|i: int| 0 <= i < p.entries.len() && covers(#[trigger] p.entries[i], x, y) {
        let i = choose|i: int| 0 <= i < p.entries.len() && covers(
            #[trigger] p.entries[i],
            x,
            y,
        );
        Some(p.entries[i].path)
    } else {
        None
    }
}

/// In a well-formed packing, any entry covering a cell is the one
/// `spec_widget_under` names.
pub proof fn lemma_widget_under_unique(p: PackingV, x: int, y: int, i: int)
    requires
        p.wf(),
        0 <= i < p.entries.len(),
        covers(p.entries[i], x, y),
    ensures
        spec_widget_under(p, x, y) == Some(p.entries[i].path),
{
    let j = choose|j: int| 0 <= j < p.entries.len() && covers(#[trigger] p.entries[j], x, y);
    if i != j {
        assert(overlap(p.entries[i], p.entries[j])) by {
            assert(covers(p.entries[i], x, y) && covers(p.entries[j], x, y));
        }
        assert(false);
    }
}

/// A widget to be anchored: its title and footprint.
#[verifier::ext_equal]
pub struct ItemV {
    pub path: Seq<Seq<char>>,
    pub w: int,
    pub h: int,
}

/// An item's footprint area.
pub open spec fn area(it: ItemV) -> int {
    it.w * it.h
}

/// The views of a widget list handed to `add_all`.
pub open spec fn items_view(s: Seq<(Path, Size)>) -> Seq<ItemV> {
    s.map_values(
        |it: (Path, Size)|
            ItemV { path: it.0@, w: it.1.width as int, h: it.1.height as int },
    )
}

/// Inserting into a list sorted by descending area: the item goes in
/// front of the first strictly smaller entry, so earlier items keep
/// their place among equals.
pub open spec fn insert_sorted(it: ItemV, s: Seq<ItemV>) -> Seq<ItemV>
    decreases s.len(),
{
    if s.len() == 0 {
        seq![it]
    } else if area(s[0]) > area(it) {
        seq![s[0]] + insert_sorted(it, s.drop_first())
    } else {
        seq![it] + s
    }
}

/// Insertion sort of the rest, then the first item inserted: a stable
/// sort by descending area.
pub open spec fn sort_into(pre: Seq<ItemV>, acc: Seq<ItemV>) -> Seq<ItemV>
    decreases pre.len(),
{
    if pre.len() == 0 {
        acc
    } else {
        insert_sorted(pre[0], sort_into(pre.drop_first(), acc))
    }
}

/// The widget list ordered by descending footprint area; items of equal
/// area keep their relative order.
pub open spec fn spec_sort(s: Seq<ItemV>) -> Seq<ItemV> {
    sort_into(s, Seq::empty())
}

/// The packing after anchoring each listed widget in turn.
pub open spec fn spec_add_all(p: PackingV, items: Seq<ItemV>) -> PackingV
    decreases items.len(),
{
    if items.len() == 0 {
        p
    } else {
        spec_add_all(
            spec_add(p, items[0].path, items[0].w, items[0].h),
            items.drop_first(),
        )
    }
}

/// `q` is `p` with possibly more widgets anchored: same grid, the same
/// entries in the same order first, and no cell freed.
pub open spec fn extends(q: PackingV, p: PackingV) -> bool {
    &&& q.width == p.width
    &&& q.height == p.height
    &&& q.occupied.len() == p.occupied.len()
    &&& forall|c: int| 0 <= c < p.occupied.len() && p.occupied[c] ==> q.occupied[c]
    &&& p.entries.is_prefix_of(q.entries)
}

/// One add only extends the packing.
pub proof fn lemma_spec_add_extends(p: PackingV, path: Seq<Seq<char>>, w: int, h: int)
    ensures
        extends(spec_add(p, path, w, h), p),
{
    let q = spec_add(p, path, w, h);
    if !has_path(p, path) {
        match first_fit_from(p, w, h, 0) {
            None => {}
            Some(pos) => {
                assert(p.entries.is_prefix_of(q.entries)) by {
                    assert(p.entries =~= q.entries.take(p.entries.len() as int));
                }
            }
        }
    }
}

/// A whole pass only extends the packing.
pub proof fn lemma_spec_add_all_extends(p: PackingV, items: Seq<ItemV>)
    ensures
        extends(spec_add_all(p, items), p),
    decreases items.len(),
{
    if items.len() == 0 {
        assert(p.entries.is_prefix_of(p.entries)) by {
            assert(p.entries =~= p.entries.take(p.entries.len() as int));
        }
    } else {
        let p1 = spec_add(p, items[0].path, items[0].w, items[0].h);
        lemma_spec_add_extends(p, items[0].path, items[0].w, items[0].h);
        lemma_spec_add_all_extends(p1, items.drop_first());
        let q = spec_add_all(p, items);
        assert(extends(q, p1) && extends(p1, p));
        assert(p.entries.is_prefix_of(q.entries)) by {
            assert(p.entries.len() <= p1.entries.len() <= q.entries.len());
            assert forall|i: int| 0 <= i < p.entries.len() implies p.entries[i]
                == q.entries[i] by {
                assert(p.entries[i] == p1.entries[i]);
            }
            assert(p.entries =~= q.entries.take(p.entries.len() as int));
        }
    }
}

/// An anchored path stays anchored as the packing extends.
pub proof fn lemma_extends_has_path(q: PackingV, p: PackingV, path: Seq<Seq<char>>)
    requires
        extends(q, p),
        has_path(p, path),
    ensures
        has_path(q, path),
{
    let i = choose|i: int| 0 <= i < p.entries.len() && (#[trigger] p.entries[i]).path
        == path;
    assert(q.entries[i] == p.entries[i]);
}

/// A footprint that fits in the extended packing fits in the base.
pub proof fn lemma_fits_antitone(q: PackingV, p: PackingV, x: int, y: int, w: int, h: int)
    requires
        extends(q, p),
        fits_v(q, x, y, w, h),
        p.occupied.len() == p.width * p.height,
    ensures
        fits_v(p, x, y, w, h),
{
    assert forall|cx: int, cy: int| x <= cx < x + w && y <= cy < y + h implies !(
    #[trigger] p.occupied[cell_index(p, cx, cy)]) by {
        lemma_cell_index_bound(p.width, p.height, cx, cy);
        assert(!q.occupied[cell_index(q, cx, cy)]);
        assert(cell_index(p, cx, cy) == cell_index(q, cx, cy));
    }
}

/// The widget is settled in `q`: anchored there, or it finds no place.
pub open spec fn settled(q: PackingV, it: ItemV) -> bool {
    has_path(q, it.path) || first_fit_from(q, it.w, it.h, 0) is None
}

/// Adding a settled widget changes nothing.
pub proof fn lemma_settled_add_noop(q: PackingV, it: ItemV)
    requires
        settled(q, it),
    ensures
        spec_add(q, it.path, it.w, it.h) == q,
{
}

/// After one add the widget is settled, and a no-op add leaves a
/// no-fit grid a no-fit grid.
pub proof fn lemma_add_settles(p: PackingV, it: ItemV)
    ensures
        settled(spec_add(p, it.path, it.w, it.h), it) || (spec_add(p, it.path, it.w, it.h)
            == p && first_fit_from(p, it.w, it.h, 0) is None),
{
    let q = spec_add(p, it.path, it.w, it.h);
    if has_path(p, it.path) {
        lemma_spec_add_extends(p, it.path, it.w, it.h);
        lemma_extends_has_path(q, p, it.path);
    } else {
        match first_fit_from(p, it.w, it.h, 0) {
            None => {}
            Some(pos) => {
                let n = p.entries.len() as int;
                assert(q.entries[n].path == it.path);
            }
        }
    }
}

/// A widget stays settled as the packing extends.
pub proof fn lemma_settled_extends(q2: PackingV, q1: PackingV, it: ItemV)
    requires
        extends(q2, q1),
        settled(q1, it),
        q1.width >= 1,
        q1.occupied.len() == q1.width * q1.height,
    ensures
        settled(q2, it),
{
    if has_path(q1, it.path) {
        lemma_extends_has_path(q2, q1, it.path);
    } else {
        match first_fit_from(q2, it.w, it.h, 0) {
            None => {}
            Some(pos) => {
                lemma_first_fit_props(q2, it.w, it.h, 0);
                lemma_fits_antitone(q2, q1, pos.0, pos.1, it.w, it.h);
                lemma_first_fit_props(q1, it.w, it.h, 0);
                let lin = pos.0 + pos.1 * q1.width;
                lemma_cell_index_bound(q1.width, q1.height, pos.0, pos.1);
                vstd::arithmetic::div_mod::lemma_fundamental_div_mod(lin, q1.width);
                vstd::arithmetic::div_mod::lemma_mod_division_less_than_divisor(
                    lin,
                    q1.width,
                );
                assert(lin % q1.width == pos.0 && lin / q1.width == pos.1) by (
                nonlinear_arith)
                    requires
                        0 <= pos.0 < q1.width,
                        0 <= pos.1,
                        lin == pos.0 + pos.1 * q1.width,
                        lin == q1.width * (lin / q1.width) + lin % q1.width,
                        0 <= lin % q1.width < q1.width,
                ;
                assert(fits_at_lin(q1, it.w, it.h, lin));
                assert(false);
            }
        }
    }
}

/// After a pass, every widget of the list is settled.
pub proof fn lemma_pass_settles(p: PackingV, items: Seq<ItemV>)
    requires
        p.width >= 1,
        p.occupied.len() == p.width * p.height,
    ensures
        forall|i: int| 0 <= i < items.len() ==> settled(
            spec_add_all(p, items),
            #[trigger] items[i],
        ),
    decreases items.len(),
{
    if items.len() > 0 {
        let it = items[0];
        let p1 = spec_add(p, it.path, it.w, it.h);
        let q = spec_add_all(p, items);
        assert(q == spec_add_all(p1, items.drop_first()));
        lemma_spec_add_all_extends(p1, items.drop_first());
        lemma_add_settles(p, it);
        lemma_spec_add_extends(p, it.path, it.w, it.h);
        if settled(p1, it) {
            lemma_settled_extends(q, p1, it);
        } else {
            assert(p1 == p && first_fit_from(p, it.w, it.h, 0) is None);
            lemma_settled_extends(q, p1, it);
        }
        lemma_pass_settles(p1, items.drop_first());
        assert forall|i: int| 0 <= i < items.len() implies settled(q, #[trigger] items[i]) by {
            if i > 0 {
                assert(items.drop_first()[i - 1] == items[i]);
            }
        }
    }
}

/// A pass over settled widgets changes nothing.
pub proof fn lemma_settled_pass_noop(q: PackingV, items: Seq<ItemV>)
    requires
        forall|i: int| 0 <= i < items.len() ==> settled(q, #[trigger] items[i]),
    ensures
        spec_add_all(q, items) == q,
    decreases items.len(),
{
    if items.len() > 0 {
        lemma_settled_add_noop(q, items[0]);
        assert forall|i: int| 0 <= i < items.drop_first().len() implies settled(
            q,
            #[trigger] items.drop_first()[i],
        ) by {
            assert(items.drop_first()[i] == items[i + 1]);
        }
        lemma_settled_pass_noop(q, items.drop_first());
    }
}

/// Anchoring the same widget list twice is the same as anchoring it
/// once: the second pass finds every path either anchored or still
/// without a place, and changes nothing.
pub proof fn lemma_add_all_idempotent(p: PackingV, items: Seq<ItemV>)
    requires
        p.width >= 1,
        p.occupied.len() == p.width * p.height,
    ensures
        spec_add_all(spec_add_all(p, items), items) == spec_add_all(p, items),
{
    lemma_pass_settles(p, items);
    lemma_settled_pass_noop(spec_add_all(p, items), items);
}

/// A usable widget footprint: at least one cell each way, with an area
/// the machine can compute.
pub open spec fn ok_item(it: ItemV) -> bool {
    1 <= it.w && 1 <= it.h && it.w * it.h <= usize::MAX
}

/// Inserting skips exactly the strictly larger prefix.
proof fn lemma_insert_sorted_skip(it: ItemV, s: Seq<ItemV>, j: int)
    requires
        0 <= j <= s.len(),
        forall|i: int| 0 <= i < j ==> area(#[trigger] s[i]) > area(it),
    ensures
        insert_sorted(it, s) == s.take(j) + insert_sorted(it, s.skip(j)),
    decreases j,
{
    if j == 0 {
        assert(s.take(0) =~= Seq::<ItemV>::empty());
        assert(s.skip(0) =~= s);
        assert(s.take(0) + insert_sorted(it, s) =~= insert_sorted(it, s));
    } else {
        assert(area(s[0]) > area(it));
        assert(insert_sorted(it, s) == seq![s[0]] + insert_sorted(it, s.drop_first()));
        assert forall|i: int| 0 <= i < j - 1 implies area(#[trigger] s.drop_first()[i])
            > area(it) by {
            assert(s.drop_first()[i] == s[i + 1]);
        }
        lemma_insert_sorted_skip(it, s.drop_first(), j - 1);
        assert(s.drop_first().take(j - 1) =~= s.take(j).drop_first());
        assert(s.drop_first().skip(j - 1) =~= s.skip(j));
        assert(seq![s[0]] + (s.drop_first().take(j - 1) + insert_sorted(it, s.skip(j)))
            =~= s.take(j) + insert_sorted(it, s.skip(j)));
    }
}

/// Two distinct anchored widgets never own a common cell: their
/// footprints are disjoint.
pub proof fn lemma_no_overlap(p: PackingV, i: int, j: int)
    requires
        p.wf(),
        0 <= i < p.entries.len(),
        0 <= j < p.entries.len(),
        i != j,
    ensures
        !overlap(p.entries[i], p.entries[j]),
{
}

/// Placing a fitting widget under a fresh path preserves
/// well-formedness; in particular the new footprint overlaps no
/// existing one.
proof fn lemma_place_wf(p: PackingV, path: Seq<Seq<char>>, x: int, y: int, w: int, h: int)
    requires
        p.wf(),
        1 <= w,
        1 <= h,
        fits_v(p, x, y, w, h),
        !has_path(p, path),
    ensures
        place(p, path, x, y, w, h).wf(),
{
    let q = place(p, path, x, y, w, h);
    let ne = EntryV { path, x, y, w, h };
    let n = p.entries.len() as int;
    assert(q.entries.len() == n + 1);
    assert(q.entries[n] == ne);
    assert(forall|i: int| 0 <= i < n ==> q.entries[i] == p.entries[i]);

    assert forall|i: int| 0 <= i < n implies !overlap(q.entries[i], ne) && !overlap(
        ne,
        q.entries[i],
    ) by {
        let e = p.entries[i];
        if overlap(e, ne) {
            let (sx, sy): (int, int) = choose|sx: int, sy: int|
                covers(e, sx, sy) && #[trigger] covers(ne, sx, sy);
            assert(0 <= sx < p.width && 0 <= sy < p.height);
            assert(p.occupied[cell_index(p, sx, sy)]);
            assert(!p.occupied[cell_index(p, sx, sy)]);
        }
        if overlap(ne, e) {
            let (sx, sy): (int, int) = choose|sx: int, sy: int|
                covers(ne, sx, sy) && #[trigger] covers(e, sx, sy);
            assert(0 <= sx < p.width && 0 <= sy < p.height);
            assert(p.occupied[cell_index(p, sx, sy)]);
            assert(!p.occupied[cell_index(p, sx, sy)]);
        }
    }

    assert forall|i: int| 0 <= i < n implies (#[trigger] q.entries[i]).path != ne.path by {
        if q.entries[i].path == path {
            assert(has_path(p, path));
        }
    }

    assert forall|gx: int, gy: int| 0 <= gx < q.width && 0 <= gy < q.height implies (
    #[trigger] q.occupied[cell_index(q, gx, gy)] == exists|i: int| 0 <= i < q.entries.len()
        && covers(#[trigger] q.entries[i], gx, gy)) by {
        let c = cell_index(p, gx, gy);
        lemma_cell_index_bound(p.width, p.height, gx, gy);
        if exists|qx: int, qy: int| x <= qx < x + w && y <= qy < y + h && c
            == #[trigger] cell_index(p, qx, qy) {
            let (qx, qy): (int, int) = choose|qx: int, qy: int|
                x <= qx < x + w && y <= qy < y + h && c == #[trigger] cell_index(p, qx, qy);
            lemma_cell_index_injective(p.width, p.height, qx, qy, gx, gy);
            assert(covers(ne, gx, gy));
            assert(q.occupied[c]);
            assert(covers(q.entries[n], gx, gy));
        } else {
            assert(q.occupied[c] == p.occupied[c]);
            assert(!covers(ne, gx, gy));
            if p.occupied[c] {
                let i = choose|i: int| 0 <= i < p.entries.len() && covers(
                    #[trigger] p.entries[i],
                    gx,
                    gy,
                );
                assert(covers(q.entries[i], gx, gy));
            } else {
                if exists|i: int| 0 <= i < q.entries.len() && covers(
                    #[trigger] q.entries[i],
                    gx,
                    gy,
                ) {
                    let i = choose|i: int| 0 <= i < q.entries.len() && covers(
                        #[trigger] q.entries[i],
                        gx,
                        gy,
                    );
                    if i < n {
                        assert(covers(p.entries[i], gx, gy));
                        assert(p.occupied[c]);
                    } else {
                        assert(covers(ne, gx, gy));
                    }
                }
            }
        }
    }
}

/// Adding a widget preserves well-formedness.
pub proof fn lemma_spec_add_wf(p: PackingV, path: Seq<Seq<char>>, w: int, h: int)
    requires
        p.wf(),
        1 <= w,
        1 <= h,
    ensures
        spec_add(p, path, w, h).wf(),
{
    if !has_path(p, path) {
        lemma_first_fit_props(p, w, h, 0);
        match first_fit_from(p, w, h, 0) {
            None => {}
            Some(pos) => {
                lemma_place_wf(p, path, pos.0, pos.1, w, h);
            }
        }
    }
}

/// The grid assignment: an occupancy bitmap over the grid plus the list
/// of anchored widgets, in the order they were anchored.
#[derive(Debug)]
pub struct Packing {
    size: Size,
    entries: Vec<PackEntry>,
    occupied: Vec<bool>,
}

impl View for Packing {
    type V = PackingV;

    closed spec fn view(&self) -> PackingV {
        PackingV {
            width: self.size.width as int,
            height: self.size.height as int,
            entries: self.entries@.map_values(|e: PackEntry| e@),
            occupied: self.occupied@,
        }
    }
}

impl Packing {
    /// An empty grid of the given dimensions.
    pub fn new(size: Size) -> (r: Packing)
        requires
            1 <= size.width,
            1 <= size.height,
            size.width * size.height <= usize::MAX,
        ensures
            r@.wf(),
            r@.width == size.width,
            r@.height == size.height,
            r@.entries == Seq::<EntryV>::empty(),
    {
        let cells = size.width * size.height;
        let mut occupied: Vec<bool> = Vec::new();
        let mut i: usize = 0;
        while i < cells
            invariant
                i <= cells,
                occupied@.len() == i,
                forall|j: int| 0 <= j < i ==> !occupied@[j],
            decreases cells - i,
        {
            occupied.push(false);
            i = i + 1;
        }
        let r = Packing { size, entries: Vec::new(), occupied };
        proof {
            assert(r@.entries =~= Seq::<EntryV>::empty());
            assert forall|x: int, y: int| 0 <= x < r@.width && 0 <= y < r@.height implies (
            r@.occupied[cell_index(r@, x, y)] == exists|i: int| 0 <= i < r@.entries.len()
                && covers(#[trigger] r@.entries[i], x, y)) by {
                lemma_cell_index_bound(r@.width, r@.height, x, y);
            }
        }
        r
    }

    /// The grid width in cells.
    pub fn get_width(&self) -> (r: usize)
        ensures
            r == self@.width,
    {
        self.size.width
    }

    /// The grid height in cells.
    pub fn get_height(&self) -> (r: usize)
        ensures
            r == self@.height,
    {
        self.size.height
    }

    /// The index of the entry anchoring this path, if any.
    fn find_entry(&self, path: &Path) -> (r: Option<usize>)
        ensures
            match r {
                Some(i) => 0 <= i < self@.entries.len() && self@.entries[i as int].path
                    == path@,
                None => !has_path(self@, path@),
            },
    {
        let mut i: usize = 0;
        while i < self.entries.len()
            invariant
                i <= self.entries@.len(),
                self@.entries.len() == self.entries@.len(),
                forall|j: int| 0 <= j < i ==> (#[trigger] self@.entries[j]).path != path@,
            decreases self.entries@.len() - i,
        {
            if self.entries[i].path == *path {
                return Some(i);
            }
            i = i + 1;
        }
        None
    }

    /// Whether the footprint anchored at `position` lies inside the
    /// grid with every covered cell free.
    fn fits(&self, position: GridPosition, size: Size) -> (r: bool)
        requires
            self@.wf(),
        ensures
            r == fits_v(
                self@,
                position.x as int,
                position.y as int,
                size.width as int,
                size.height as int,
            ),
    {
        let x = position.x;
        let y = position.y;
        let w = size.width;
        let h = size.height;
        if w > self.size.width || x > self.size.width - w {
            return false;
        }
        if h > self.size.height || y > self.size.height - h {
            return false;
        }
        let total = self.occupied.len();
        let mut cy: usize = y;
        while cy < y + h
            invariant
                self@.wf(),
                total == self@.occupied.len(),
                y <= cy <= y + h,
                x + w <= self@.width,
                y + h <= self@.height,
                w == size.width && h == size.height,
                x == position.x && y == position.y,
                forall|qx: int, qy: int| x <= qx < x + w && y <= qy < cy ==> !(
                #[trigger] self@.occupied[cell_index(self@, qx, qy)]),
            decreases y + h - cy,
        {
            let mut cx: usize = x;
            while cx < x + w
                invariant
                    self@.wf(),
                    total == self@.occupied.len(),
                    y <= cy < y + h,
                    x <= cx <= x + w,
                    x + w <= self@.width,
                    y + h <= self@.height,
                    w == size.width && h == size.height,
                    x == position.x && y == position.y,
                    forall|qx: int, qy: int| x <= qx < x + w && y <= qy < cy ==> !(
                    #[trigger] self@.occupied[cell_index(self@, qx, qy)]),
                    forall|qx: int| x <= qx < cx ==> !(#[trigger] self@.occupied[
                        cell_index(self@, qx, cy as int)
                    ]),
                decreases x + w - cx,
            {
                proof {
                    lemma_cell_index_bound(self@.width, self@.height, cx as int, cy as int);
                }
                let idx = cx + cy * self.size.width;
                if self.occupied[idx] {
                    proof {
                        assert(self@.occupied[cell_index(self@, cx as int, cy as int)]);
                    }
                    return false;
                }
                cx = cx + 1;
            }
            cy = cy + 1;
        }
        true
    }

    /// Anchors a widget whose footprint is known to fit: marks its
    /// cells occupied and records the entry.
    fn insert(&mut self, path: Path, position: GridPosition, size: Size)
        requires
            old(self)@.wf(),
            fits_v(
                old(self)@,
                position.x as int,
                position.y as int,
                size.width as int,
                size.height as int,
            ),
        ensures
            final(self)@ == place(
                old(self)@,
                path@,
                position.x as int,
                position.y as int,
                size.width as int,
                size.height as int,
            ),
    {
        let ghost p0 = self@;
        let x = position.x;
        let y = position.y;
        let w = size.width;
        let h = size.height;
        let total = self.occupied.len();
        let mut cy: usize = y;
        while cy < y + h
            invariant
                total == p0.occupied.len(),
                y <= cy <= y + h,
                x + w <= p0.width,
                y + h <= p0.height,
                p0.width >= 1 && p0.height >= 1,
                w == size.width && h == size.height,
                x == position.x && y == position.y,
                self@.width == p0.width,
                self@.height == p0.height,
                self@.entries == p0.entries,
                self@.occupied.len() == p0.occupied.len(),
                p0.occupied.len() == p0.width * p0.height,
                forall|c: int| 0 <= c < p0.occupied.len() ==> #[trigger] self@.occupied[c]
                    == if exists|qx: int, qy: int|
                    x <= qx < x + w && y <= qy < cy && c == #[trigger] cell_index(
                        p0,
                        qx,
                        qy,
                    ) {
                    true
                } else {
                    p0.occupied[c]
                },
            decreases y + h - cy,
        {
            let mut cx: usize = x;
            while cx < x + w
                invariant
                    total == p0.occupied.len(),
                    y <= cy < y + h,
                    x <= cx <= x + w,
                    x + w <= p0.width,
                    y + h <= p0.height,
                    p0.width >= 1 && p0.height >= 1,
                    w == size.width && h == size.height,
                    x == position.x && y == position.y,
                    self@.width == p0.width,
                    self@.height == p0.height,
                    self@.entries == p0.entries,
                    self@.occupied.len() == p0.occupied.len(),
                    p0.occupied.len() == p0.width * p0.height,
                    forall|c: int| 0 <= c < p0.occupied.len() ==> #[trigger] self@.occupied[c]
                        == if exists|qx: int, qy: int|
                        x <= qx < x + w && (y <= qy < cy || (qy == cy && x <= qx < cx)) && c
                            == #[trigger] cell_index(p0, qx, qy) {
                        true
                    } else {
                        p0.occupied[c]
                    },
                decreases x + w - cx,
            {
                proof {
                    lemma_cell_index_bound(p0.width, p0.height, cx as int, cy as int);
                }
                let idx = cx + cy * self.size.width;
                let ghost prev = self@.occupied;
                self.occupied[idx] = true;
                proof {
                    assert forall|c: int| 0 <= c < p0.occupied.len() implies #[trigger] self@.occupied[c]
                        == if exists|qx: int, qy: int|
                        x <= qx < x + w && (y <= qy < cy || (qy == cy && x <= qx < cx + 1))
                            && c == #[trigger] cell_index(p0, qx, qy) {
                        true
                    } else {
                        p0.occupied[c]
                    } by {
                        if c == idx {
                            assert(cell_index(p0, cx as int, cy as int) == c);
                        } else {
                            assert(self@.occupied[c] == prev[c]);
                            if exists|qx: int, qy: int|
                                x <= qx < x + w && (y <= qy < cy || (qy == cy && x <= qx
                                    < cx + 1)) && c == #[trigger] cell_index(p0, qx, qy) {
                                let (qx, qy): (int, int) = choose|qx: int, qy: int|
                                    x <= qx < x + w && (y <= qy < cy || (qy == cy && x <= qx
                                        < cx + 1)) && c == #[trigger] cell_index(p0, qx, qy);
                                lemma_cell_index_bound(p0.width, p0.height, qx, qy);
                                if qy == cy && qx == cx {
                                    assert(c == idx);
                                } else {
                                    assert(x <= qx < x + w && (y <= qy < cy || (qy == cy && x
                                        <= qx < cx)));
                                }
                            }
                        }
                    }
                }
                cx = cx + 1;
            }
        cy = cy + 1;
        }
        self.entries.push(PackEntry { path, position, size });
        proof {
            let target = place(
                p0,
                path@,
                position.x as int,
                position.y as int,
                size.width as int,
                size.height as int,
            );
            assert(self@.entries =~= target.entries);
            assert forall|c: int| 0 <= c < p0.occupied.len() implies self@.occupied[c]
                == target.occupied[c] by {
                assert(self@.occupied[c] == if exists|qx: int, qy: int|
                    x <= qx < x + w && (y <= qy < y + h) && c == #[trigger] cell_index(
                        p0,
                        qx,
                        qy,
                    ) {
                    true
                } else {
                    p0.occupied[c]
                });
            }
            assert(self@.occupied =~= target.occupied);
            assert(self@ =~= target);
        }
    }

    /// Anchors the widget if its path is new and some position fits:
    /// the first free position in row-major order.  An already anchored
    /// path, and a widget that fits nowhere, leave the grid unchanged.
    pub fn add(&mut self, path: Path, size: Size)
        requires
            old(self)@.wf(),
            1 <= size.width,
            1 <= size.height,
        ensures
            final(self)@ == spec_add(
                old(self)@,
                path@,
                size.width as int,
                size.height as int,
            ),
            final(self)@.wf(),
    {
        let ghost p0 = self@;
        proof {
            lemma_first_fit_props(p0, size.width as int, size.height as int, 0);
        }
        if self.find_entry(&path).is_some() {
            proof {
                lemma_spec_add_wf(p0, path@, size.width as int, size.height as int);
            }
            return;
        }
        let cells = self.occupied.len();
        let mut k: usize = 0;
        while k < cells
            invariant
                self@ == p0,
                p0 == old(self)@,
                p0.wf(),
                1 <= size.width,
                1 <= size.height,
                0 <= k <= cells,
                cells == p0.width * p0.height,
                !has_path(p0, path@),
                first_fit_from(p0, size.width as int, size.height as int, 0)
                    == first_fit_from(p0, size.width as int, size.height as int, k as int),
            decreases cells - k,
        {
            let x = k % self.size.width;
            let y = k / self.size.width;
            proof {
                assert(self.size.width as int == p0.width);
                vstd::arithmetic::div_mod::lemma_fundamental_div_mod(k as int, p0.width);
                vstd::arithmetic::div_mod::lemma_mod_division_less_than_divisor(
                    k as int,
                    p0.width,
                );
                vstd::arithmetic::div_mod::lemma_div_pos_is_pos(k as int, p0.width);
                assert((k as int) == (x as int) + (y as int) * p0.width && 0 <= (y as int)
                    && (y as int) < p0.height) by (nonlinear_arith)
                    requires
                        (k as int) == p0.width * ((k as int) / p0.width) + ((k as int)
                            % p0.width),
                        (x as int) == (k as int) % p0.width,
                        (y as int) == (k as int) / p0.width,
                        0 <= (k as int) < p0.width * p0.height,
                        0 <= (x as int) < p0.width,
                        0 <= (y as int),
                        0 < p0.width,
                ;
            }
            let pos = GridPosition { x, y };
            if self.fits(pos, size) {
                proof {
                    assert(first_fit_from(
                        p0,
                        size.width as int,
                        size.height as int,
                        k as int,
                    ) == Some((x as int, y as int)));
                    lemma_spec_add_wf(p0, path@, size.width as int, size.height as int);
                }
                self.insert(path, pos, size);
                return;
            }
            k = k + 1;
        }
        proof {
            assert(first_fit_from(p0, size.width as int, size.height as int, cells as int)
                is None);
            lemma_spec_add_wf(p0, path@, size.width as int, size.height as int);
        }
    }

    /// Forgets every anchor and frees every cell; the grid keeps its
    /// size.  Used when the visible widget population changes wholesale.
    pub fn clear(&mut self)
        requires
            old(self)@.wf(),
        ensures
            final(self)@.wf(),
            final(self)@ == spec_cleared(old(self)@),
    {
        self.entries = Vec::new();
        let cells = self.occupied.len();
        let mut occupied: Vec<bool> = Vec::new();
        let mut i: usize = 0;
        while i < cells
            invariant
                i <= cells,
                occupied@.len() == i,
                forall|j: int| 0 <= j < i ==> !occupied@[j],
            decreases cells - i,
        {
            occupied.push(false);
            i = i + 1;
        }
        self.occupied = occupied;
        proof {
            assert(self@.entries =~= Seq::<EntryV>::empty());
            assert forall|x: int, y: int| 0 <= x < self@.width && 0 <= y
                < self@.height implies (self@.occupied[cell_index(self@, x, y)] == exists|
                i: int,
            | 0 <= i < self@.entries.len() && covers(#[trigger] self@.entries[i], x, y)) by {
                lemma_cell_index_bound(self@.width, self@.height, x, y);
            }
            assert(self@ =~= spec_cleared(old(self)@));
        }
    }

    /// Anchors every listed widget whose path is new, largest footprint
    /// first: the list is ordered by descending area (a stable order,
    /// so equal areas keep their given order) and each widget is placed
    /// at the first position that fits, if any.  A path that is already
    /// anchored is left exactly where it was.
    pub fn add_all(&mut self, widgets: Vec<(Path, Size)>)
        requires
            old(self)@.wf(),
            forall|i: int| 0 <= i < widgets@.len() ==> ok_item(
                #[trigger] items_view(widgets@)[i],
            ),
        ensures
            final(self)@.wf(),
            final(self)@ == spec_add_all(old(self)@, spec_sort(items_view(widgets@))),
    {
        let ghost orig = items_view(widgets@);
        let mut remaining = widgets;
        let mut sorted: Vec<(Path, Size)> = Vec::new();
        proof {
            assert(items_view(remaining@) =~= orig.take(orig.len() as int));
            assert(orig.skip(orig.len() as int) =~= Seq::<ItemV>::empty());
        }
        while remaining.len() > 0
            invariant
                remaining@.len() <= orig.len(),
                items_view(remaining@) == orig.take(remaining@.len() as int),
                items_view(sorted@) == sort_into(
                    orig.skip(remaining@.len() as int),
                    Seq::empty(),
                ),
                forall|i: int| 0 <= i < orig.len() ==> ok_item(#[trigger] orig[i]),
                forall|i: int| 0 <= i < sorted@.len() ==> ok_item(
                    #[trigger] items_view(sorted@)[i],
                ),
            decreases remaining@.len(),
        {
            let ghost m = remaining@.len() as int;
            let ghost remv = remaining@;
            let item = remaining.pop().unwrap();
            proof {
                assert(items_view(remaining@) =~= orig.take(m - 1));
                assert(items_view(remv)[m - 1] == ItemV {
                    path: item.0@,
                    w: item.1.width as int,
                    h: item.1.height as int,
                });
                assert(items_view(remv)[m - 1] == orig.take(m)[m - 1]);
                assert(orig.take(m)[m - 1] == orig[m - 1]);
                assert(orig.skip(m - 1)[0] == orig[m - 1]);
                assert(orig.skip(m - 1).drop_first() =~= orig.skip(m));
            }
            insert_item(&mut sorted, item);
            proof {
                assert(items_view(sorted@) == sort_into(orig.skip(m - 1), Seq::empty()));
            }
        }
        proof {
            assert(items_view(remaining@) =~= Seq::<ItemV>::empty());
        }
        proof {
            assert(orig.skip(0) =~= orig);
            assert(items_view(sorted@) == spec_sort(orig));
        }
        let ghost p0 = self@;
        let ghost target = spec_add_all(p0, spec_sort(orig));
        let mut queue = sorted;
        while queue.len() > 0
            invariant
                self@.wf(),
                p0 == old(self)@,
                spec_add_all(self@, items_view(queue@)) == target,
                forall|i: int| 0 <= i < queue@.len() ==> ok_item(
                    #[trigger] items_view(queue@)[i],
                ),
            decreases queue@.len(),
        {
            let ghost qv = items_view(queue@);
            let (path, size) = queue.remove(0);
            proof {
                assert(items_view(queue@) =~= qv.drop_first());
                assert(qv[0] == ItemV {
                    path: path@,
                    w: size.width as int,
                    h: size.height as int,
                });
                assert(ok_item(qv[0]));
                assert forall|i: int| 0 <= i < queue@.len() implies ok_item(
                    #[trigger] items_view(queue@)[i],
                ) by {
                    assert(items_view(queue@)[i] == qv[i + 1]);
                }
            }
            self.add(path, size);
        }
        proof {
            assert(items_view(queue@) =~= Seq::<ItemV>::empty());
        }
    }

    /// The path of the widget whose footprint covers the given cell, if
    /// one does.
    pub fn get_widget_at(&self, position: GridPosition) -> (r: Option<&Path>)
        requires
            self@.wf(),
        ensures
            match r {
                Some(path) => spec_widget_under(self@, position.x as int, position.y as int)
                    == Some(path@),
                None => spec_widget_under(self@, position.x as int, position.y as int)
                    is None,
            },
    {
        let mut i: usize = 0;
        while i < self.entries.len()
            invariant
                self@.wf(),
                i <= self.entries@.len(),
                self@.entries.len() == self.entries@.len(),
                forall|j: int| 0 <= j < i ==> !covers(
                    #[trigger] self@.entries[j],
                    position.x as int,
                    position.y as int,
                ),
            decreases self.entries@.len() - i,
        {
            let e = &self.entries[i];
            if e.position.x <= position.x && position.x - e.position.x < e.size.width
                && e.position.y <= position.y && position.y - e.position.y
                < e.size.height {
                proof {
                    assert(covers(
                        self@.entries[i as int],
                        position.x as int,
                        position.y as int,
                    ));
                    lemma_widget_under_unique(
                        self@,
                        position.x as int,
                        position.y as int,
                        i as int,
                    );
                }
                return Some(&e.path);
            }
            i = i + 1;
        }
        None
    }

    /// The anchor cell of the widget with the given title, if it is
    /// anchored.
    pub fn anchor_of(&self, path: &Path) -> (r: Option<GridPosition>)
        ensures
            match r {
                Some(pos) => exists|i: int| 0 <= i < self@.entries.len() && {
                    let e = #[trigger] self@.entries[i];
                    e.path == path@ && e.x == pos.x && e.y == pos.y
                },
                None => !has_path(self@, path@),
            },
    {
        match self.find_entry(path) {
            Some(i) => {
                let pos = self.entries[i].position;
                proof {
                    assert(self@.entries[i as int].x == pos.x);
                }
                Some(pos)
            }
            None => None,
        }
    }

    /// The anchored widgets, in the order they were anchored.
    pub fn anchors(&self) -> (r: &Vec<PackEntry>)
        ensures
            r@.map_values(|e: PackEntry| e@) == self@.entries,
    {
        &self.entries
    }
}

/// Inserts a widget into a list ordered by descending footprint area,
/// in front of the first strictly smaller entry.
fn insert_item(out: &mut Vec<(Path, Size)>, item: (Path, Size))
    requires
        ok_item(ItemV { path: item.0@, w: item.1.width as int, h: item.1.height as int }),
        forall|i: int| 0 <= i < old(out)@.len() ==> ok_item(
            #[trigger] items_view(old(out)@)[i],
        ),
    ensures
        items_view(final(out)@) == insert_sorted(
            ItemV { path: item.0@, w: item.1.width as int, h: item.1.height as int },
            items_view(old(out)@),
        ),
        forall|i: int| 0 <= i < final(out)@.len() ==> ok_item(
            #[trigger] items_view(final(out)@)[i],
        ),
{
    let ghost it = ItemV { path: item.0@, w: item.1.width as int, h: item.1.height as int };
    let ghost s = items_view(old(out)@);
    let a = item.1.width * item.1.height;
    let mut j: usize = 0;
    let mut found = false;
    while !found && j < out.len()
        invariant
            out@ == old(out)@,
            j <= out@.len(),
            a == area(it),
            it == (ItemV {
                path: item.0@,
                w: item.1.width as int,
                h: item.1.height as int,
            }),
            s == items_view(out@),
            forall|i: int| 0 <= i < out@.len() ==> ok_item(#[trigger] items_view(out@)[i]),
            forall|i: int| 0 <= i < j ==> area(#[trigger] s[i]) > area(it),
            found ==> j < s.len() && !(area(s[j as int]) > area(it)),
        decreases out@.len() - j, (if found { 0int } else { 1int }),
    {
        let e = &out[j];
        proof {
            assert(items_view(out@)[j as int] == ItemV {
                path: e.0@,
                w: e.1.width as int,
                h: e.1.height as int,
            });
            assert(ok_item(items_view(out@)[j as int]));
        }
        let ea = e.1.width * e.1.height;
        if ea <= a {
            found = true;
        } else {
            j = j + 1;
        }
    }
    proof {
        lemma_insert_sorted_skip(it, s, j as int);
        if j < s.len() {
            assert(!(area(s[j as int]) > area(it)));
            assert(insert_sorted(it, s.skip(j as int)) == seq![it] + s.skip(j as int));
        } else {
            assert(s.skip(j as int) =~= Seq::<ItemV>::empty());
        }
    }
    out.insert(j, item);
    proof {
        assert(items_view(out@) =~= s.take(j as int) + insert_sorted(it, s.skip(j as int)));
        assert forall|i: int| 0 <= i < out@.len() implies ok_item(
            #[trigger] items_view(out@)[i],
        ) by {
            if i < j {
                assert(items_view(out@)[i] == s[i]);
            } else if i == j {
                assert(items_view(out@)[i] == it);
            } else {
                assert(items_view(out@)[i] == s[i - 1]);
            }
        }
    }
}

} // verus!
