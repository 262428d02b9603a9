//! The widget types: what a recognized subtree turns into, how a
//! widget answers edits, and the builders that recognize subtrees.

use vstd::prelude::*;

use crate::backend::Write;
use crate::backend::WriteV;
use crate::backend::EntryV;
use crate::chooser::ChooserV;
use crate::chooser::SendableChooser;
use crate::chooser::spec_chooser;
use crate::chooser::chooser_wf;
use crate::chooser::first_index;
use crate::path::Key;
use crate::path::Path;
use crate::simple::Simple;
use crate::tabs::Tabs;
use crate::tabs::TabsV;
use crate::tabs::spec_tabs;
use crate::tabs::tabs_wf;
use crate::tabs::tab_index;
use crate::tabs::all_tab_paths;
use crate::tabs::FilterV;
use crate::tree::TValue;
use crate::tree::TValueV;
use crate::value::ValueV;

verus! {

/// A widget's footprint on the grid, in cells.
#[derive(Clone, Copy, Debug, PartialEq, Eq, Structural)]
pub struct Size {
    pub width: usize,
    pub height: usize,
}

/// How a widget is drawn relative to the cursor.
#[derive(Clone, Copy, Debug, PartialEq, Eq, Structural)]
pub enum State {
    Unhighlighted,
    Highlighted,
    Selected,
}

/// The behavior a widget carries: one of the closed set of kinds.
#[derive(Debug)]
pub enum Kind {
    Simple(Simple),
    Chooser(SendableChooser),
    Tabs(Tabs),
}

/// The mathematical shape of a widget's kind.
#[verifier::ext_equal]
pub enum KindV {
    Simple(ValueV),
    Chooser(ChooserV),
    Tabs(TabsV),
}

impl View for Kind {
    type V = KindV;

    open spec fn view(&self) -> KindV {
        match self {
            Kind::Simple(s) => KindV::Simple(s@),
            Kind::Chooser(c) => KindV::Chooser(c@),
            Kind::Tabs(t) => KindV::Tabs(t@),
        }
    }
}

impl Clone for Kind {
    fn clone(&self) -> (r: Kind)
        ensures
            r@ == self@,
    {
        match self {
            Kind::Simple(s) => Kind::Simple(s.clone()),
            Kind::Chooser(c) => Kind::Chooser(c.clone()),
            Kind::Tabs(t) => Kind::Tabs(t.clone()),
        }
    }
}

/// A kind whose indices point where they should.
pub open spec fn kind_wf(k: KindV) -> bool {
    match k {
        KindV::Simple(_) => true,
        KindV::Chooser(c) => chooser_wf(c),
        KindV::Tabs(t) => tabs_wf(t),
    }
}

/// A materialized widget: the path of the subtree it came from, and
/// its kind.
#[derive(Debug)]
pub struct Widget {
    pub title: Path,
    pub value: Kind,
}

/// The mathematical shape of a widget.
#[verifier::ext_equal]
pub struct WidgetV {
    pub title: Seq<Seq<char>>,
    pub kind: KindV,
}

impl View for Widget {
    type V = WidgetV;

    open spec fn view(&self) -> WidgetV {
        WidgetV { title: self.title@, kind: self.value@ }
    }
}

impl Clone for Widget {
    fn clone(&self) -> (r: Widget)
        ensures
            r@ == self@,
    {
        let r = Widget { title: self.title.clone(), value: self.value.clone() };
        proof {
            assert(r@ =~= self@);
        }
        r
    }
}

/// A recognizer: looks at a node's subtree and may produce a widget
/// kind.
#[derive(Clone, Copy, Debug, PartialEq, Eq, Structural)]
pub enum Builder {
    Simple,
    Chooser,
    Tabs,
}

/// What a builder found.
#[derive(Debug)]
pub enum BuildResult {
    /// The subtree is recognized; this is its widget kind.
    Complete(Kind),
    /// The subtree looks like it is trying to be this shape but is
    /// missing something; retry after the next update.
    Partial(PartialError),
    /// The subtree cannot become this shape; never retry.
    NoMatch,
}

/// Why a builder returned a partial result.
#[derive(Debug)]
pub enum PartialError {
    Chooser(crate::chooser::Error),
    Tabs(crate::tabs::Error),
}

/// The mathematical shape of a partial-result reason.
#[verifier::ext_equal]
pub enum PartialErrorV {
    Chooser(crate::chooser::ErrorV),
    Tabs(crate::tabs::ErrorV),
}

/// The mathematical shape of a builder's finding.
#[verifier::ext_equal]
pub enum BuildResultV {
    Complete(KindV),
    Partial(PartialErrorV),
    NoMatch,
}

impl View for PartialError {
    type V = PartialErrorV;

    open spec fn view(&self) -> PartialErrorV {
        match self {
            PartialError::Chooser(e) => PartialErrorV::Chooser(e@),
            PartialError::Tabs(e) => PartialErrorV::Tabs(e@),
        }
    }
}

impl View for BuildResult {
    type V = BuildResultV;

    open spec fn view(&self) -> BuildResultV {
        match self {
            BuildResult::Complete(k) => BuildResultV::Complete(k@),
            BuildResult::Partial(e) => BuildResultV::Partial(e@),
            BuildResult::NoMatch => BuildResultV::NoMatch,
        }
    }
}

/// What each builder finds in a subtree.  The plain builder takes any
/// leaf whose key does not start with a dot.  The chooser builder
/// takes a recognized chooser, keeps trying on a malformed branch, and
/// gives up on a leaf.  The tab-group builder takes a recognized tab
/// group, keeps trying when only a tab's widget list is malformed, and
/// gives up otherwise.
pub open spec fn spec_create_kind(b: Builder, key: Seq<char>, v: TValueV) -> BuildResultV {
    match b {
        Builder::Simple => match v {
            TValueV::Leaf(lv) => if key.len() > 0 && key[0] == '.' {
                BuildResultV::NoMatch
            } else {
                BuildResultV::Complete(KindV::Simple(lv))
            },
            TValueV::Branch(_) => BuildResultV::NoMatch,
        },
        Builder::Chooser => match spec_chooser(v) {
            Ok(c) => BuildResultV::Complete(KindV::Chooser(c)),
            Err(crate::chooser::ErrorV::WantedNodes) => BuildResultV::NoMatch,
            Err(e) => BuildResultV::Partial(PartialErrorV::Chooser(e)),
        },
        Builder::Tabs => match spec_tabs(v) {
            Ok(t) => BuildResultV::Complete(KindV::Tabs(t)),
            Err(crate::tabs::ErrorV::OptionNotStringArray) => BuildResultV::Partial(
                PartialErrorV::Tabs(crate::tabs::ErrorV::OptionNotStringArray),
            ),
            Err(crate::tabs::ErrorV::PathParse(e)) => BuildResultV::Partial(
                PartialErrorV::Tabs(crate::tabs::ErrorV::PathParse(e)),
            ),
            Err(_) => BuildResultV::NoMatch,
        },
    }
}

/// A completed kind is well-formed.
pub proof fn lemma_spec_create_kind_wf(b: Builder, key: Seq<char>, v: TValueV)
    ensures
        spec_create_kind(b, key, v) matches BuildResultV::Complete(k) ==> kind_wf(k),
{
    match b {
        Builder::Simple => {}
        Builder::Chooser => {
            crate::chooser::lemma_spec_chooser_wf(v);
        }
        Builder::Tabs => {}
    }
}

impl Builder {
    /// Tries to recognize the subtree under `key`.
    pub fn create_kind(&self, key: &Key, value: &TValue) -> (r: BuildResult)
        ensures
            r@ == spec_create_kind(*self, key@, value@),
            r@ matches BuildResultV::Complete(k) ==> kind_wf(k),
    {
        proof {
            lemma_spec_create_kind_wf(*self, key@, value@);
        }
        match self {
            Builder::Simple => match value {
                TValue::Leaf(lv) => {
                    if key.starts_with('.') {
                        BuildResult::NoMatch
                    } else {
                        BuildResult::Complete(Kind::Simple(Simple { value: lv.duplicate() }))
                    }
                }
                TValue::Branch(_) => BuildResult::NoMatch,
            },
            Builder::Chooser => match SendableChooser::try_from(value) {
                Ok(c) => BuildResult::Complete(Kind::Chooser(c)),
                Err(crate::chooser::Error::WantedNodes) => BuildResult::NoMatch,
                Err(e) => BuildResult::Partial(PartialError::Chooser(e)),
            },
            Builder::Tabs => match Tabs::try_from(value) {
                Ok(t) => BuildResult::Complete(Kind::Tabs(t)),
                Err(e) => match e {
                    crate::tabs::Error::OptionNotStringArray => BuildResult::Partial(
                        PartialError::Tabs(e),
                    ),
                    crate::tabs::Error::PathParse(_) => BuildResult::Partial(
                        PartialError::Tabs(e),
                    ),
                    _ => BuildResult::NoMatch,
                },
            },
        }
    }
}

/// What refreshing a kind from its subtree does: each kind re-reads
/// the subtree its own way and keeps its edit state.
pub open spec fn spec_update_nt(k: KindV, v: TValueV) -> KindV {
    match k {
        KindV::Simple(s) => match v {
            TValueV::Leaf(lv) => KindV::Simple(lv),
            TValueV::Branch(_) => KindV::Simple(s),
        },
        KindV::Chooser(c) => match spec_chooser(v) {
            Ok(n) => KindV::Chooser(ChooserV { finished: c.finished, ..n }),
            Err(_) => KindV::Chooser(c),
        },
        KindV::Tabs(t) => KindV::Tabs(crate::tabs::spec_tabs_refresh(t, v)),
    }
}



impl Widget {
    /// A widget titled by the path of the subtree it came from.
    pub fn new(title: Path, value: Kind) -> (r: Widget)
        ensures
            r@ == (WidgetV { title: title@, kind: value@ }),
    {
        Widget { title, value }
    }

    /// Clears the edit-in-progress flag.
    pub fn reset(&mut self)
        requires
            kind_wf(old(self)@.kind),
        ensures
            final(self)@.title == old(self)@.title,
            kind_wf(final(self)@.kind),
            final(self)@.kind == match old(self)@.kind {
                KindV::Simple(s) => KindV::Simple(s),
                KindV::Chooser(c) => KindV::Chooser(ChooserV { finished: false, ..c }),
                KindV::Tabs(t) => KindV::Tabs(TabsV { finished: false, ..t }),
            },
    {
        match &mut self.value {
            Kind::Simple(_) => {
                proof {
                    assert(self@.kind =~= old(self)@.kind);
                }
            }
            Kind::Chooser(c) => {
                c.is_finished = false;
                proof {
                    assert(self@.kind->Chooser_0 =~= (ChooserV {
                        finished: false,
                        ..old(self)@.kind->Chooser_0
                    }));
                }
            }
            Kind::Tabs(t) => {
                t.is_finished = false;
                proof {
                    assert(self@.kind->Tabs_0 =~= (TabsV {
                        finished: false,
                        ..old(self)@.kind->Tabs_0
                    }));
                }
            }
        }
    }

    /// The prompt shown when this widget is being edited.
    pub fn prompt(&self) -> (r: String)
        ensures
            r@ == spec_prompt(self@.kind),
    {
        match &self.value {
            Kind::Simple(_) => "Simple widgets are constant".to_owned(),
            Kind::Chooser(_) => "Enter an option".to_owned(),
            Kind::Tabs(_) => "Enter an option".to_owned(),
        }
    }

    /// Hands a committed edit to the widget's kind and returns the
    /// write it asks for.
    pub fn update(&mut self, text: &str) -> (r: Write)
        requires
            kind_wf(old(self)@.kind),
        ensures
            final(self)@.title == old(self)@.title,
            kind_wf(final(self)@.kind),
            match old(self)@.kind {
                KindV::Simple(s) => final(self)@.kind == old(self)@.kind && r@.entries
                    == Seq::<EntryV>::empty() && r@.filter is None,
                KindV::Chooser(c) => match first_index(c.options, text@) {
                    Some(i) => {
                        &&& final(self)@.kind == KindV::Chooser(
                            ChooserV { active: Some(i), finished: true, ..c },
                        )
                        &&& r@.entries == seq![
                            EntryV {
                                path: old(self)@.title.push("selected"@),
                                value: ValueV::Text(text@),
                            },
                        ]
                        &&& r@.filter is None
                    },
                    None => final(self)@.kind == old(self)@.kind && r@.entries == Seq::<
                        EntryV,
                    >::empty() && r@.filter is None,
                },
                KindV::Tabs(t) => match tab_index(t.options, text@) {
                    Some(i) => {
                        &&& final(self)@.kind == KindV::Tabs(
                            TabsV { selected: Some(i), finished: true, ..t },
                        )
                        &&& r@.entries == Seq::<EntryV>::empty()
                        &&& r@.filter == Some(
                            FilterV::OneOf(t.options[i].widgets.push(old(self)@.title)),
                        )
                    },
                    None => if text@ == "General"@ {
                        &&& final(self)@.kind == KindV::Tabs(
                            TabsV { selected: None, finished: true, ..t },
                        )
                        &&& r@.entries == Seq::<EntryV>::empty()
                        &&& r@.filter == Some(FilterV::NoneOf(all_tab_paths(t.options)))
                    } else {
                        final(self)@.kind == old(self)@.kind && r@.entries == Seq::<
                            EntryV,
                        >::empty() && r@.filter is None
                    },
                },
            },
    {
        let title = &self.title;
        match &mut self.value {
            Kind::Simple(s) => s.update(title, text),
            Kind::Chooser(c) => {
                let r = c.update(title, text);
                proof {
                    crate::chooser::lemma_first_index(
                        old(self)@.kind->Chooser_0.options,
                        text@,
                    );
                }
                r
            }
            Kind::Tabs(t) => t.update(title, text),
        }
    }

    /// Refreshes the widget in place from the subtree it came from.
    /// A tab group additionally drops a selection its new tabs no
    /// longer cover.
    pub fn update_nt(&mut self, _key: &Key, value: &TValue)
        requires
            kind_wf(old(self)@.kind),
        ensures
            final(self)@.title == old(self)@.title,
            kind_wf(final(self)@.kind),
            final(self)@.kind == spec_update_nt(old(self)@.kind, value@),
    {
        match &mut self.value {
            Kind::Simple(s) => s.update_nt(value),
            Kind::Chooser(c) => {
                c.update_nt(value);
                proof {
                    crate::chooser::lemma_spec_chooser_wf(value@);
                }
            }
            Kind::Tabs(t) => t.update_nt(value),
        }
    }

    /// Whether the widget considers its edit finished.
    pub fn is_finished(&self) -> (r: bool)
        ensures
            r == match self@.kind {
                KindV::Simple(_) => true,
                KindV::Chooser(c) => c.finished,
                KindV::Tabs(t) => t.finished,
            },
    {
        match &self.value {
            Kind::Simple(_) => true,
            Kind::Chooser(c) => c.is_finished,
            Kind::Tabs(t) => t.is_finished,
        }
    }

    /// The widget's declared footprint.
    pub fn size(&self) -> (r: Size)
        ensures
            r == spec_size(self@.kind),
    {
        match &self.value {
            Kind::Simple(_) => Size { width: 1, height: 1 },
            Kind::Chooser(_) => Size { width: 1, height: 2 },
            Kind::Tabs(_) => Size { width: 1, height: 2 },
        }
    }
}

/// What a committed edit does to a kind: a chooser or tab group whose
/// text names an option selects it and marks the edit finished;
/// anything else changes nothing.
pub open spec fn spec_edit_kind(k: KindV, text: Seq<char>) -> KindV {
    match k {
        KindV::Simple(s) => KindV::Simple(s),
        KindV::Chooser(c) => match first_index(c.options, text) {
            Some(i) => KindV::Chooser(ChooserV { active: Some(i), finished: true, ..c }),
            None => KindV::Chooser(c),
        },
        KindV::Tabs(t) => match tab_index(t.options, text) {
            Some(i) => KindV::Tabs(TabsV { selected: Some(i), finished: true, ..t }),
            None => if text == "General"@ {
                KindV::Tabs(TabsV { selected: None, finished: true, ..t })
            } else {
                KindV::Tabs(t)
            },
        },
    }
}

/// The write a committed edit asks for: a chooser publishes the chosen
/// option under its `selected` key; a tab group asks for a filter; an
/// unrecognized text asks for nothing.
pub open spec fn spec_edit_write(k: KindV, title: Seq<Seq<char>>, text: Seq<char>) -> WriteV {
    match k {
        KindV::Simple(_) => WriteV { entries: Seq::empty(), filter: None },
        KindV::Chooser(c) => match first_index(c.options, text) {
            Some(_) => WriteV {
                entries: seq![
                    EntryV { path: title.push("selected"@), value: ValueV::Text(text) },
                ],
                filter: None,
            },
            None => WriteV { entries: Seq::empty(), filter: None },
        },
        KindV::Tabs(t) => match tab_index(t.options, text) {
            Some(i) => WriteV {
                entries: Seq::empty(),
                filter: Some(FilterV::OneOf(t.options[i].widgets.push(title))),
            },
            None => if text == "General"@ {
                WriteV {
                    entries: Seq::empty(),
                    filter: Some(FilterV::NoneOf(all_tab_paths(t.options))),
                }
            } else {
                WriteV { entries: Seq::empty(), filter: None }
            },
        },
    }
}

/// What clearing the edit flag does to a kind.
pub open spec fn spec_reset_kind(k: KindV) -> KindV {
    match k {
        KindV::Simple(s) => KindV::Simple(s),
        KindV::Chooser(c) => KindV::Chooser(ChooserV { finished: false, ..c }),
        KindV::Tabs(t) => KindV::Tabs(TabsV { finished: false, ..t }),
    }
}

/// The views of a sequence of widgets, elementwise.
pub open spec fn widgets_view(s: Seq<Widget>) -> Seq<WidgetV> {
    s.map_values(|w: Widget| w@)
}

/// Each kind's prompt: a plain value cannot be edited; a chooser and a
/// tab group ask for one of their options.
pub open spec fn spec_prompt(k: KindV) -> Seq<char> {
    match k {
        KindV::Simple(_) => "Simple widgets are constant"@,
        KindV::Chooser(_) => "Enter an option"@,
        KindV::Tabs(_) => "Enter an option"@,
    }
}

/// Each kind's footprint: a plain value takes one cell, a chooser and
/// a tab group a column of two.
pub open spec fn spec_size(k: KindV) -> Size {
    match k {
        KindV::Simple(_) => Size { width: 1, height: 1 },
        KindV::Chooser(_) => Size { width: 1, height: 2 },
        KindV::Tabs(_) => Size { width: 1, height: 2 },
    }
}

} // verus!
