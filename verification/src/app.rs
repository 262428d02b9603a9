//! The application state machine: browsing the grid, editing the
//! widget under the cursor, and the per-tick pipeline that drains the
//! backend, feeds the mirror, and re-packs the visible widgets.
//!
//! Raw terminal events are decoded outside this crate into the plain
//! [`Input`] values the machine consumes.

use vstd::prelude::*;

use crate::backend::Backend;
use crate::backend::Update;
use crate::packing::GridPosition;
use crate::packing::ItemV;
use crate::packing::Packing;
use crate::packing::ok_item;
use crate::packing::items_view;
use crate::packing::spec_widget_under;
use crate::path::Path;
use crate::tabs::Filter;
use crate::tabs::FilterV;
use crate::tabs::spec_contains;
use crate::tree::Tree;
use crate::tree::widget_at;
use crate::tree::spec_replace_widget;
use crate::widgets::spec_edit_kind;
use crate::widgets::spec_edit_write;
use crate::packing::spec_cleared;
use crate::widgets::Builder;
use crate::widgets::Size;
use crate::widgets::WidgetV;
use crate::widgets::spec_size;

verus! {

/// The widgets the filter lets through, as the packing items the
/// re-pack hands over: each keeps its title and declared footprint, in
/// the given order.
pub open spec fn visible_items(ws: Seq<WidgetV>, f: FilterV) -> Seq<ItemV>
    decreases ws.len(),
{
    if ws.len() == 0 {
        Seq::empty()
    } else {
        let rest = visible_items(ws.drop_first(), f);
        if spec_contains(f, ws[0].title) {
            seq![
                ItemV {
                    path: ws[0].title,
                    w: spec_size(ws[0].kind).width as int,
                    h: spec_size(ws[0].kind).height as int,
                },
            ] + rest
        } else {
            rest
        }
    }
}

/// A decoded key event, as the shell hands it to the machine.
#[derive(Clone, Copy, Debug, PartialEq, Eq, Structural)]
pub enum Input {
    Char(char),
    Left,
    Right,
    Up,
    Down,
    Enter,
    Backspace,
    Esc,
}

/// An edit in progress: the cell being edited, the text typed so far,
/// and the prompt to show.
#[derive(Debug)]
pub struct Edit {
    pub editting: GridPosition,
    pub text: String,
    pub prompt: String,
}

/// Browsing, or editing the widget under a cell.
#[derive(Debug)]
pub enum State {
    View,
    Edit(Edit),
}

/// A tick that could not proceed.
#[derive(Clone, Copy, Debug, PartialEq, Eq, Structural)]
pub enum Error {
    /// The cursor stood outside the grid; it was reset.
    InvalidCursor,
    /// The widget being edited is no longer anchored at its cell.
    RunawayWidget,
}

/// The application: the grid assignment, the backend handle, the
/// mirror, the cursor, the interaction state, and the active filter.
pub struct App<B> {
    pub packing: Packing,
    pub network_table: B,
    pub widget_tree: Tree,
    pub cursor: GridPosition,
    pub state: State,
    pub filter: Filter,
}

impl<B: Backend> App<B> {
    /// The mirror, the grid, the filter and the backend handle of
    /// `post` are those of `pre`: a key was handled without touching
    /// the collaborators.
    pub open spec fn untouched(pre: App<B>, post: App<B>) -> bool {
        &&& post.widget_tree@ == pre.widget_tree@
        &&& post.packing@ == pre.packing@
        &&& post.filter == pre.filter
        &&& post.network_table == pre.network_table
    }

    /// The machine's own invariant: mirror and grid well-formed, the
    /// cursor and any edited cell inside the grid.
    pub open spec fn wf(self) -> bool {
        &&& self.widget_tree.wf()
        &&& self.packing@.wf()
        &&& (self.cursor.x as int) < self.packing@.width
        &&& (self.cursor.y as int) < self.packing@.height
        &&& match self.state {
            State::Edit(ref e) => (e.editting.x as int) < self.packing@.width && (
            e.editting.y as int) < self.packing@.height,
            State::View => true,
        }
    }

    /// A fresh application over the given backend: an empty mirror
    /// with the plain-value, chooser and tab-group builders, an empty
    /// grid, the cursor at the origin, and no filter.
    pub fn new(size: Size, network_table: B) -> (r: App<B>)
        requires
            1 <= size.width,
            1 <= size.height,
            size.width * size.height <= usize::MAX,
        ensures
            r.wf(),
            r.state is View,
            r.cursor == (GridPosition { x: 0, y: 0 }),
            r.packing@.width == size.width,
            r.packing@.height == size.height,
            r.packing@.entries == Seq::<crate::packing::EntryV>::empty(),
            r.widget_tree@.nodes == Seq::<crate::tree::NodeV>::empty(),
            r.widget_tree@.builders == seq![Builder::Simple, Builder::Chooser, Builder::Tabs],
            r.filter@ == crate::tabs::FilterV::NoneOf(Seq::<Seq<Seq<char>>>::empty()),
    {
        let mut builders: Vec<Builder> = Vec::new();
        builders.push(Builder::Simple);
        builders.push(Builder::Chooser);
        builders.push(Builder::Tabs);
        proof {
            assert(builders@ =~= seq![Builder::Simple, Builder::Chooser, Builder::Tabs]);
        }
        let widget_tree = Tree::new(builders);
        App {
            packing: Packing::new(size),
            network_table,
            widget_tree,
            cursor: GridPosition { x: 0, y: 0 },
            state: State::View,
            filter: Filter::default(),
        }
    }

    /// One tick.  A key event, if any, is interpreted first: in the
    /// browsing state the arrows move the cursor inside the grid, a
    /// quit letter ends the loop, and entering on an anchored widget
    /// opens the editor; in the editing state characters extend the
    /// text, backspace shortens it, escape abandons the edit, and
    /// entering commits the text to the widget, sends the resulting
    /// write to the backend, and adopts its filter if it carries one.
    /// Then, always (except after escape), the backend is drained, the
    /// drained entries feed the mirror (entries the mirror rejects are
    /// dropped), and the visible widgets are re-packed.
    pub fn update(&mut self, event: Option<Input>) -> (r: Result<bool, Error>)
        requires
            old(self).wf(),
        ensures
            final(self).wf(),
            final(self).packing@.width == old(self).packing@.width,
            final(self).packing@.height == old(self).packing@.height,
            (match r {
                Ok(quit) => quit == (old(self).state is View && event == Some(
                    Input::Char('q'),
                )),
                Err(_) => true,
            }),
            ({
                let was_view = old(self).state is View;
                let esc = event == Some(Input::Esc);
                (was_view && esc) ==> final(self).state is View
            }),
            ({
                let c = old(self).cursor;
                let moved = final(self).cursor;
                &&& (old(self).state is View && event == Some(Input::Left) && r is Ok)
                    ==> moved.y == c.y && moved.x as int == (if c.x > 0 {
                    c.x - 1
                } else {
                    0int
                })
                &&& (old(self).state is View && event == Some(Input::Right) && r is Ok)
                    ==> moved.y == c.y && moved.x as int == (if c.x + 1
                    < old(self).packing@.width {
                    c.x + 1
                } else {
                    c.x as int
                })
                &&& (old(self).state is View && event == Some(Input::Up) && r is Ok)
                    ==> moved.x == c.x && moved.y as int == (if c.y > 0 {
                    c.y - 1
                } else {
                    0int
                })
                &&& (old(self).state is View && event == Some(Input::Down) && r is Ok)
                    ==> moved.x == c.x && moved.y as int == (if c.y + 1
                    < old(self).packing@.height {
                    c.y + 1
                } else {
                    c.y as int
                })
            }),
            ({
                let typed = match event {
                    Some(Input::Char(c)) => Some(c),
                    _ => None,
                };
                let before = old(self).state;
                let after = final(self).state;
                (before is Edit && typed is Some && r is Ok) ==> (after is View || (
                after matches State::Edit(e2) && e2.editting == before->Edit_0.editting
                    && e2.text@ == before->Edit_0.text@.push(typed->0)))
            }),
            ({
                let after = final(self).state;
                (old(self).state is Edit && event == Some(Input::Esc) && r is Ok)
                    ==> after is View
            }),
            ({
                let cond = old(self).state is Edit && event is Some && ({
                    let e = old(self).state->Edit_0;
                    let t = spec_widget_under(
                        old(self).packing@,
                        e.editting.x as int,
                        e.editting.y as int,
                    );
                    t is None || (event == Some(Input::Enter) && widget_at(
                        old(self).widget_tree@.nodes,
                        t->0,
                    ) is None)
                });
                (r is Err) <==> cond
            }),
            r is Err ==> App::untouched(*old(self), *final(self)) && final(self).state
                == old(self).state && final(self).cursor == old(self).cursor,
            (r == Ok::<bool, Error>(true)) ==> App::untouched(*old(self), *final(self))
                && final(self).state == old(self).state,
            (old(self).state is Edit && event == Some(Input::Esc) && r is Ok)
                ==> App::untouched(*old(self), *final(self)),
            ({
                let e = old(self).state->Edit_0;
                let t = spec_widget_under(
                    old(self).packing@,
                    e.editting.x as int,
                    e.editting.y as int,
                );
                let old_nodes = old(self).widget_tree@.nodes;
                let old_filter = old(self).filter@;
                let new_filter = final(self).filter@;
                (old(self).state is Edit && event == Some(Input::Enter) && r is Ok) ==> {
                    let w = widget_at(old_nodes, t->0)->0;
                    let write = spec_edit_write(w.kind, w.title, e.text@);
                    new_filter == (match write.filter {
                        Some(f) => f,
                        None => old_filter,
                    })
                }
            }),
            ({
                let enter_commit = old(self).state is Edit && event == Some(Input::Enter);
                let base = if enter_commit && r is Ok {
                    let e = old(self).state->Edit_0;
                    let t = spec_widget_under(
                        old(self).packing@,
                        e.editting.x as int,
                        e.editting.y as int,
                    );
                    let w = widget_at(old(self).widget_tree@.nodes, t->0)->0;
                    let write = spec_edit_write(w.kind, w.title, e.text@);
                    if write.filter is Some {
                        spec_cleared(old(self).packing@)
                    } else {
                        old(self).packing@
                    }
                } else {
                    old(self).packing@
                };
                let items = visible_items(
                    crate::tree::spec_widgets(final(self).widget_tree@.nodes),
                    final(self).filter@,
                );
                let repack = r == Ok::<bool, Error>(false) && !(old(self).state is Edit
                    && event == Some(Input::Esc));
                repack ==> final(self).packing@ == crate::packing::spec_add_all(
                    base,
                    crate::packing::spec_sort(items),
                )
            }),
    {
        if self.cursor.x >= self.packing.get_width() || self.cursor.y
            >= self.packing.get_height() {
            self.cursor = GridPosition { x: 0, y: 0 };
            return Err(Error::InvalidCursor);
        }
        let mut quit = false;
        let mut skip_tick = false;
        match event {
            None => {}
            Some(input) => {
                let editing = match &self.state {
                    State::View => false,
                    State::Edit(_) => true,
                };
                if !editing {
                    match input {
                        Input::Char(c) => {
                            if c == 'q' {
                                quit = true;
                            }
                        }
                        Input::Left => {
                            if self.cursor.x > 0 {
                                self.cursor.x = self.cursor.x - 1;
                            }
                        }
                        Input::Right => {
                            if self.cursor.x + 1 < self.packing.get_width() {
                                self.cursor.x = self.cursor.x + 1;
                            }
                        }
                        Input::Up => {
                            if self.cursor.y > 0 {
                                self.cursor.y = self.cursor.y - 1;
                            }
                        }
                        Input::Down => {
                            if self.cursor.y + 1 < self.packing.get_height() {
                                self.cursor.y = self.cursor.y + 1;
                            }
                        }
                        Input::Enter => {
                            self.try_edit();
                        }
                        _ => {}
                    }
                } else {
                    let outcome = self.handle_edit_key(input);
                    match outcome {
                        Err(e) => {
                            return Err(e);
                        }
                        Ok(stop) => {
                            skip_tick = stop;
                        }
                    }
                }
            }
        }
        if quit {
            return Ok(true);
        }
        if skip_tick {
            return Ok(false);
        }
        self.tick();
        Ok(false)
    }

    /// Opens the editor on the widget anchored under the cursor, if
    /// any: its edit flag is cleared and its prompt captured.
    fn try_edit(&mut self)
        requires
            old(self).wf(),
            old(self).state is View,
        ensures
            final(self).wf(),
            final(self).cursor == old(self).cursor,
            final(self).packing@ == old(self).packing@,
            final(self).filter == old(self).filter,
            final(self).widget_tree@.builders == old(self).widget_tree@.builders,
            final(self).network_table == old(self).network_table,
    {
        let target = match self.packing.get_widget_at(self.cursor) {
            Some(path) => Some(path.clone()),
            None => None,
        };
        match target {
            Some(path) => {
                let prompt = match self.widget_tree.get(&path) {
                    Some(w) => w.prompt(),
                    None => String::new(),
                };
                self.widget_tree.reset_widget(&path);
                self.state = State::Edit(
                    Edit { editting: self.cursor, text: String::new(), prompt },
                );
            }
            None => {}
        }
    }

    /// Handles one key while editing.  The result says whether the
    /// tick is skipped (after abandoning the edit).  It fails, leaving
    /// everything as it was, exactly when no anchored widget covers the
    /// edited cell, or the covering title has no materialized widget to
    /// take a committed edit.
    fn handle_edit_key(&mut self, input: Input) -> (r: Result<bool, Error>)
        requires
            old(self).wf(),
            old(self).state is Edit,
        ensures
            final(self).wf(),
            final(self).cursor == old(self).cursor,
            final(self).packing@.width == old(self).packing@.width,
            final(self).packing@.height == old(self).packing@.height,
            ({
                let e = old(self).state->Edit_0;
                let t = spec_widget_under(
                    old(self).packing@,
                    e.editting.x as int,
                    e.editting.y as int,
                );
                r is Err <==> (t is None || (input == Input::Enter && widget_at(
                    old(self).widget_tree@.nodes,
                    t->0,
                ) is None))
            }),
            r is Err ==> App::untouched(*old(self), *final(self)) && final(self).state
                == old(self).state,
            (r == Ok::<bool, Error>(true)) <==> (r is Ok && input == Input::Esc),
            (r is Ok && input == Input::Esc) ==> App::untouched(*old(self), *final(self))
                && final(self).state is View,
            ({
                let e = old(self).state->Edit_0;
                let t = spec_widget_under(
                    old(self).packing@,
                    e.editting.x as int,
                    e.editting.y as int,
                );
                let old_nodes = old(self).widget_tree@.nodes;
                let old_builders = old(self).widget_tree@.builders;
                let old_filter = old(self).filter@;
                let old_packing = old(self).packing@;
                let new_tree = final(self).widget_tree@;
                let new_filter = final(self).filter@;
                let new_packing = final(self).packing@;
                let after = final(self).state;
                (r is Ok && input == Input::Enter) ==> {
                    let w = widget_at(old_nodes, t->0)->0;
                    let write = spec_edit_write(w.kind, w.title, e.text@);
                    &&& new_tree.nodes == spec_replace_widget(
                        old_nodes,
                        t->0,
                        spec_edit_kind(w.kind, e.text@),
                    )
                    &&& new_tree.builders == old_builders
                    &&& new_filter == (match write.filter {
                        Some(f) => f,
                        None => old_filter,
                    })
                    &&& (write.filter is Some ==> new_packing == spec_cleared(old_packing))
                    &&& (write.filter is None ==> new_packing == old_packing)
                    &&& (after is View || (after matches State::Edit(e2) && e2.editting
                        == e.editting && e2.text@ == Seq::<char>::empty()))
                }
            }),
            (r is Ok && !(input == Input::Esc) && !(input == Input::Enter))
                ==> App::untouched(*old(self), *final(self)),
            ({
                let before = old(self).state;
                let after = final(self).state;
                match input {
                    Input::Char(c) => r is Ok ==> (after is View || (after matches
                        State::Edit(e2) && e2.editting == before->Edit_0.editting
                        && e2.text@ == before->Edit_0.text@.push(c))),
                    Input::Backspace => r is Ok ==> (after is View || (after matches
                        State::Edit(e2) && e2.editting == before->Edit_0.editting && ({
                        let tx = before->Edit_0.text@;
                        e2.text@ == (if tx.len() == 0 {
                            tx
                        } else {
                            tx.take(tx.len() - 1)
                        })
                    }))),
                    Input::Left | Input::Right | Input::Up | Input::Down => r is Ok ==> (
                    after is View || (after matches State::Edit(e2) && e2.editting
                        == before->Edit_0.editting && e2.text@ == before->Edit_0.text@)),
                    _ => true,
                }
            }),
    {
        let editting = match &self.state {
            State::Edit(e) => e.editting,
            State::View => GridPosition { x: 0, y: 0 },
        };
        let target = match self.packing.get_widget_at(editting) {
            Some(path) => path.clone(),
            None => {
                return Err(Error::RunawayWidget);
            }
        };
        match input {
            Input::Esc => {
                self.state = State::View;
                return Ok(true);
            }
            Input::Enter => {
                let text = match &self.state {
                    State::Edit(e) => e.text.clone(),
                    State::View => String::new(),
                };
                match self.widget_tree.edit_widget(&target, text.as_str()) {
                    None => {
                        return Err(Error::RunawayWidget);
                    }
                    Some(write) => {
                        let filter = write.try_filter();
                        self.network_table.write(write.into_entries());
                        match filter {
                            Some(f) => {
                                self.packing.clear();
                                self.filter = f;
                            }
                            None => {}
                        }
                        match &mut self.state {
                            State::Edit(e) => {
                                e.text = String::new();
                            }
                            State::View => {}
                        }
                    }
                }
            }
            Input::Char(c) => {
                match &mut self.state {
                    State::Edit(e) => {
                        crate::path::push_char(&mut e.text, c);
                    }
                    State::View => {}
                }
            }
            Input::Backspace => {
                match &mut self.state {
                    State::Edit(e) => {
                        crate::path::pop_char(&mut e.text);
                    }
                    State::View => {}
                }
            }
            _ => {}
        }
        let finished = match self.widget_tree.get(&target) {
            Some(w) => w.is_finished(),
            None => false,
        };
        if finished {
            self.state = State::View;
        }
        Ok(false)
    }

    /// The always-run part of a tick: drain the backend, feed the
    /// mirror, re-pack the visible widgets.
    fn tick(&mut self)
        requires
            old(self).wf(),
        ensures
            final(self).wf(),
            final(self).cursor == old(self).cursor,
            final(self).state == old(self).state,
            final(self).filter == old(self).filter,
            final(self).widget_tree@.builders == old(self).widget_tree@.builders,
            final(self).packing@.width == old(self).packing@.width,
            final(self).packing@.height == old(self).packing@.height,
            final(self).packing@ == crate::packing::spec_add_all(
                old(self).packing@,
                crate::packing::spec_sort(
                    visible_items(
                        crate::tree::spec_widgets(final(self).widget_tree@.nodes),
                        final(self).filter@,
                    ),
                ),
            ),
    {
        let Update { mut to_update, mut to_create } = self.network_table.update();
        while to_update.len() > 0
            invariant
                self.wf(),
                self.cursor == old(self).cursor,
                self.state == old(self).state,
                self.filter == old(self).filter,
                self.widget_tree@.builders == old(self).widget_tree@.builders,
                self.packing@ == old(self).packing@,
            decreases to_update@.len(),
        {
            let entry = to_update.remove(0);
            let outcome = self.widget_tree.update_entry(entry);
            match outcome {
                Ok(_) => {}
                Err(_) => {}
            }
        }
        while to_create.len() > 0
            invariant
                self.wf(),
                self.cursor == old(self).cursor,
                self.state == old(self).state,
                self.filter == old(self).filter,
                self.widget_tree@.builders == old(self).widget_tree@.builders,
                self.packing@ == old(self).packing@,
            decreases to_create@.len(),
        {
            let entry = to_create.remove(0);
            let outcome = self.widget_tree.create_entry(entry);
            match outcome {
                Ok(_) => {}
                Err(_) => {}
            }
        }
        let all = self.widget_tree.widgets();
        let ghost wsv = crate::widgets::widgets_view(all@);
        let mut visible: Vec<(Path, Size)> = Vec::new();
        let mut i: usize = 0;
        proof {
            assert(wsv.skip(0) =~= wsv);
            assert(items_view(visible@) =~= Seq::<ItemV>::empty());
        }
        while i < all.len()
            invariant
                self.wf(),
                self.cursor == old(self).cursor,
                self.state == old(self).state,
                self.filter == old(self).filter,
                self.widget_tree@.builders == old(self).widget_tree@.builders,
                self.packing@ == old(self).packing@,
                i <= all@.len(),
                wsv == crate::widgets::widgets_view(all@),
                wsv.len() == all@.len(),
                wsv == crate::tree::spec_widgets(self.widget_tree@.nodes),
                visible_items(wsv, self.filter@) == items_view(visible@) + visible_items(
                    wsv.skip(i as int),
                    self.filter@,
                ),
                forall|j: int| 0 <= j < visible@.len() ==> ok_item(
                    #[trigger] items_view(visible@)[j],
                ),
            decreases all@.len() - i,
        {
            let ghost suffix = wsv.skip(i as int);
            proof {
                assert(suffix[0] == wsv[i as int]);
                assert(suffix.drop_first() =~= wsv.skip(i + 1));
                assert(wsv[i as int] == all@[i as int]@);
            }
            let w = &all[i];
            let shown = self.filter.contains(w);
            proof {
                assert(shown == spec_contains(self.filter@, wsv[i as int].title));
            }
            if shown {
                let size = w.size();
                proof {
                    assert(size.width >= 1 && size.height >= 1 && size.width * size.height
                        <= 2);
                }
                let ghost before = visible@;
                visible.push((w.title.clone(), size));
                proof {
                    let item = ItemV {
                        path: wsv[i as int].title,
                        w: spec_size(wsv[i as int].kind).width as int,
                        h: spec_size(wsv[i as int].kind).height as int,
                    };
                    assert(items_view(visible@) =~= items_view(before).push(item));
                    assert(visible_items(suffix, self.filter@) == seq![item]
                        + visible_items(wsv.skip(i + 1), self.filter@));
                    assert(items_view(before) + (seq![item] + visible_items(
                        wsv.skip(i + 1),
                        self.filter@,
                    )) =~= items_view(visible@) + visible_items(
                        wsv.skip(i + 1),
                        self.filter@,
                    ));
                    assert forall|j: int| 0 <= j < visible@.len() implies ok_item(
                        #[trigger] items_view(visible@)[j],
                    ) by {
                        if j < before.len() {
                            assert(items_view(visible@)[j] == items_view(before)[j]);
                        } else {
                            assert(items_view(visible@)[j] == (ItemV {
                                path: visible@[j].0@,
                                w: visible@[j].1.width as int,
                                h: visible@[j].1.height as int,
                            }));
                        }
                    }
                }
            } else {
                proof {
                    assert(visible_items(suffix, self.filter@) == visible_items(
                        wsv.skip(i + 1),
                        self.filter@,
                    ));
                }
            }
            i = i + 1;
        }
        proof {
            assert(wsv.skip(all@.len() as int) =~= Seq::<WidgetV>::empty());
            assert(items_view(visible@) + Seq::<ItemV>::empty() =~= items_view(visible@));
        }
        let ghost packing_before = self.packing@;
        let ghost items = items_view(visible@);
        self.packing.add_all(visible);
        proof {
            crate::packing::lemma_spec_add_all_extends(
                packing_before,
                crate::packing::spec_sort(items),
            );
        }
    }

    /// The last known connectivity state, for the shell to show.
    pub fn status(&self) -> crate::backend::Status {
        self.network_table.status()
    }
}

} // verus!
