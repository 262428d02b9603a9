//! The tab-group widget: a subtree that names, per tab, the widgets
//! belonging to it.  An edit does not touch the table; it asks the
//! application to restrict the visible widget set.

use vstd::prelude::*;

use crate::backend::Write;
use crate::path::Path;
use crate::path::PathErrorV;
use crate::path::spec_parse;
use crate::path::spec_parse_error;
use crate::path::str_eq;
use crate::tree::TValue;
use crate::tree::TValueV;
use crate::tree::NodeV;
use crate::tree::child_leaf;
use crate::tree::nodes_seq_view;
use crate::tree::lemma_nodes_seq_view;
use crate::value::ValueV;
use crate::value::is_text_array;
use crate::value::text_array;

verus! {

broadcast use vstd::seq::group_seq_axioms, vstd::seq_lib::group_seq_lib_default;

/// The sentinel value of the `.type` field that marks a tab-group
/// subtree.
pub open spec fn tabs_sentinel() -> Seq<char> {
    "Tabs"@
}

/// The views of a sequence of paths, elementwise.
pub open spec fn paths_view(s: Seq<Path>) -> Seq<Seq<Seq<char>>> {
    s.map_values(|p: Path| p@)
}

/// One tab: its name and the titles of the widgets it shows.
#[derive(Debug)]
pub struct Tab {
    pub option: String,
    pub widgets: Vec<Path>,
}

/// The mathematical shape of a tab.
#[verifier::ext_equal]
pub struct TabV {
    pub name: Seq<char>,
    pub widgets: Seq<Seq<Seq<char>>>,
}

impl View for Tab {
    type V = TabV;

    open spec fn view(&self) -> TabV {
        TabV { name: self.option@, widgets: paths_view(self.widgets@) }
    }
}

impl Clone for Tab {
    fn clone(&self) -> (r: Tab)
        ensures
            r@ == self@,
    {
        let mut widgets: Vec<Path> = Vec::new();
        let mut i: usize = 0;
        while i < self.widgets.len()
            invariant
                i <= self.widgets@.len(),
                widgets@.len() == i,
                forall|j: int| 0 <= j < i ==> widgets@[j]@ == self.widgets@[j]@,
            decreases self.widgets@.len() - i,
        {
            widgets.push(self.widgets[i].clone());
            i = i + 1;
        }
        let r = Tab { option: self.option.clone(), widgets };
        proof {
            assert(r@.widgets =~= self@.widgets);
            assert(r@ =~= self@);
        }
        r
    }
}

/// A restriction of the visible widget set: show only the listed
/// titles, or hide the listed titles.
#[derive(Debug)]
pub enum Filter {
    NoneOf(Vec<Path>),
    OneOf(Vec<Path>),
}

/// The mathematical shape of a filter.
#[verifier::ext_equal]
pub enum FilterV {
    NoneOf(Seq<Seq<Seq<char>>>),
    OneOf(Seq<Seq<Seq<char>>>),
}

impl View for Filter {
    type V = FilterV;

    open spec fn view(&self) -> FilterV {
        match self {
            Filter::NoneOf(ps) => FilterV::NoneOf(paths_view(ps@)),
            Filter::OneOf(ps) => FilterV::OneOf(paths_view(ps@)),
        }
    }
}

fn clone_paths(paths: &Vec<Path>) -> (r: Vec<Path>)
    ensures
        paths_view(r@) == paths_view(paths@),
{
    let mut out: Vec<Path> = Vec::new();
    let mut i: usize = 0;
    while i < paths.len()
        invariant
            i <= paths@.len(),
            out@.len() == i,
            forall|j: int| 0 <= j < i ==> out@[j]@ == paths@[j]@,
        decreases paths@.len() - i,
    {
        out.push(paths[i].clone());
        i = i + 1;
    }
    proof {
        assert(paths_view(out@) =~= paths_view(paths@));
    }
    out
}

impl Clone for Filter {
    fn clone(&self) -> (r: Filter)
        ensures
            r@ == self@,
    {
        match self {
            Filter::NoneOf(ps) => Filter::NoneOf(clone_paths(ps)),
            Filter::OneOf(ps) => Filter::OneOf(clone_paths(ps)),
        }
    }
}

impl Default for Filter {
    /// The filter that hides nothing.
    fn default() -> (r: Filter)
        ensures
            r@ == FilterV::NoneOf(Seq::<Seq<Seq<char>>>::empty()),
    {
        let r = Filter::NoneOf(Vec::new());
        proof {
            assert(paths_view(Seq::<Path>::empty()) =~= Seq::<Seq<Seq<char>>>::empty());
        }
        r
    }
}

/// Whether a widget with the given title is visible under the filter.
pub open spec fn spec_contains(f: FilterV, title: Seq<Seq<char>>) -> bool {
    match f {
        FilterV::NoneOf(ps) => !ps.contains(title),
        FilterV::OneOf(ps) => ps.contains(title),
    }
}

fn paths_contain(paths: &Vec<Path>, title: &Path) -> (r: bool)
    ensures
        r == paths_view(paths@).contains(title@),
{
    let mut i: usize = 0;
    while i < paths.len()
        invariant
            i <= paths@.len(),
            forall|j: int| 0 <= j < i ==> paths_view(paths@)[j] != title@,
        decreases paths@.len() - i,
    {
        if paths[i] == *title {
            proof {
                assert(paths_view(paths@)[i as int] == title@);
            }
            return true;
        }
        i = i + 1;
    }
    proof {
        if paths_view(paths@).contains(title@) {
            let j = choose|j: int| 0 <= j < paths_view(paths@).len() && paths_view(
                paths@,
            )[j] == title@;
            assert(false);
        }
    }
    false
}

impl Filter {
    /// Whether a widget with the given title is visible.
    pub fn contains(&self, widget: &crate::widgets::Widget) -> (r: bool)
        ensures
            r == spec_contains(self@, widget.title@),
    {
        match self {
            Filter::NoneOf(ps) => !paths_contain(ps, &widget.title),
            Filter::OneOf(ps) => paths_contain(ps, &widget.title),
        }
    }
}

/// A tab group: its tabs in subtree order, which one is selected (none
/// means the general view), and whether an edit has just been
/// committed.
#[derive(Debug)]
pub struct Tabs {
    pub options: Vec<Tab>,
    pub selected: Option<usize>,
    pub is_finished: bool,
}

/// The mathematical shape of a tab group.
#[verifier::ext_equal]
pub struct TabsV {
    pub options: Seq<TabV>,
    pub selected: Option<int>,
    pub finished: bool,
}

impl View for Tabs {
    type V = TabsV;

    open spec fn view(&self) -> TabsV {
        TabsV {
            options: self.options@.map_values(|t: Tab| t@),
            selected: match self.selected {
                Some(i) => Some(i as int),
                None => None,
            },
            finished: self.is_finished,
        }
    }
}

impl Clone for Tabs {
    fn clone(&self) -> (r: Tabs)
        ensures
            r@ == self@,
    {
        let mut options: Vec<Tab> = Vec::new();
        let mut i: usize = 0;
        while i < self.options.len()
            invariant
                i <= self.options@.len(),
                options@.len() == i,
                forall|j: int| 0 <= j < i ==> options@[j]@ == self.options@[j]@,
            decreases self.options@.len() - i,
        {
            options.push(self.options[i].clone());
            i = i + 1;
        }
        let r = Tabs { options, selected: self.selected, is_finished: self.is_finished };
        proof {
            assert(r@.options =~= self@.options);
            assert(r@ =~= self@);
        }
        r
    }
}

/// A tab group whose selection points into its tab list.
pub open spec fn tabs_wf(t: TabsV) -> bool {
    match t.selected {
        Some(i) => 0 <= i < t.options.len(),
        None => true,
    }
}

/// A subtree that is not (yet) a well-formed tab group.
#[derive(Debug)]
pub enum Error {
    /// The node is a bare leaf: this can never become a tab group.
    WantedNodes,
    /// There is no `.type` leaf yet.
    MissingType,
    /// The `.type` leaf is not a string.
    TypeNotString,
    /// The `.type` string names something else; it is carried back.
    IncorrectType(String),
    /// A tab child is a branch, not a leaf.
    WantedValue,
    /// A tab child's leaf is not a string array.
    OptionNotStringArray,
    /// A tab child lists a string that is not a path.
    PathParse(crate::path::PathError),
}

/// The mathematical shape of a tab-group error.
#[verifier::ext_equal]
pub enum ErrorV {
    WantedNodes,
    MissingType,
    TypeNotString,
    IncorrectType(Seq<char>),
    WantedValue,
    OptionNotStringArray,
    PathParse(PathErrorV),
}

impl View for Error {
    type V = ErrorV;

    open spec fn view(&self) -> ErrorV {
        match self {
            Error::WantedNodes => ErrorV::WantedNodes,
            Error::MissingType => ErrorV::MissingType,
            Error::TypeNotString => ErrorV::TypeNotString,
            Error::IncorrectType(s) => ErrorV::IncorrectType(s@),
            Error::WantedValue => ErrorV::WantedValue,
            Error::OptionNotStringArray => ErrorV::OptionNotStringArray,
            Error::PathParse(e) => ErrorV::PathParse(e@),
        }
    }
}

/// The paths named by a tab's string list, or the first parse failure.
pub open spec fn spec_parse_paths(strs: Seq<Seq<char>>) -> Result<
    Seq<Seq<Seq<char>>>,
    PathErrorV,
>
    decreases strs.len(),
{
    if strs.len() == 0 {
        Ok(Seq::empty())
    } else {
        match spec_parse(strs[0]) {
            None => Err(spec_parse_error(strs[0])),
            Some(p) => match spec_parse_paths(strs.drop_first()) {
                Err(e) => Err(e),
                Ok(ps) => Ok(seq![p] + ps),
            },
        }
    }
}

/// The tabs read from the child nodes, in order: children whose key
/// starts with a dot are skipped; every other child must be a
/// string-array leaf of widget paths.
pub open spec fn spec_tab_rows(ns: Seq<NodeV>) -> Result<Seq<TabV>, ErrorV>
    decreases ns.len(),
{
    if ns.len() == 0 {
        Ok(Seq::empty())
    } else if ns[0].key.len() > 0 && ns[0].key[0] == '.' {
        spec_tab_rows(ns.drop_first())
    } else {
        match ns[0].value {
            TValueV::Branch(_) => Err(ErrorV::WantedValue),
            TValueV::Leaf(v) => if !is_text_array(v) {
                Err(ErrorV::OptionNotStringArray)
            } else {
                match spec_parse_paths(text_array(v)) {
                    Err(e) => Err(ErrorV::PathParse(e)),
                    Ok(paths) => match spec_tab_rows(ns.drop_first()) {
                        Err(e) => Err(e),
                        Ok(tabs) => Ok(
                            seq![TabV { name: ns[0].key, widgets: paths }] + tabs,
                        ),
                    },
                }
            },
        }
    }
}

/// What the tab-group recognizer finds in a subtree: the tabs, or the
/// first thing wrong, checked in this order: the node must be a
/// branch; `.type` must be a string leaf naming the tab-group
/// sentinel; then the children are read as tabs.
pub open spec fn spec_tabs(v: TValueV) -> Result<TabsV, ErrorV> {
    match v {
        TValueV::Leaf(_) => Err(ErrorV::WantedNodes),
        TValueV::Branch(ns) => match child_leaf(ns, ".type"@) {
            None => Err(ErrorV::MissingType),
            Some(tv) => match tv {
                ValueV::Text(t) => if t != tabs_sentinel() {
                    Err(ErrorV::IncorrectType(t))
                } else {
                    match spec_tab_rows(ns) {
                        Err(e) => Err(e),
                        Ok(tabs) => Ok(
                            TabsV { options: tabs, selected: None, finished: false },
                        ),
                    }
                },
                _ => Err(ErrorV::TypeNotString),
            },
        },
    }
}

/// The index of the first tab with the given name, if any.
pub open spec fn tab_index(opts: Seq<TabV>, name: Seq<char>) -> Option<int>
    decreases opts.len(),
{
    if opts.len() == 0 {
        None
    } else if opts[0].name == name {
        Some(0int)
    } else {
        match tab_index(opts.drop_first(), name) {
            Some(i) => Some(i + 1),
            None => None,
        }
    }
}

/// `tab_index` finds the first tab with the name.
pub proof fn lemma_tab_index(opts: Seq<TabV>, name: Seq<char>)
    ensures
        match tab_index(opts, name) {
            Some(i) => 0 <= i < opts.len() && opts[i].name == name && forall|j: int| 0 <= j
                < i ==> opts[j].name != name,
            None => forall|j: int| 0 <= j < opts.len() ==> opts[j].name != name,
        },
    decreases opts.len(),
{
    if opts.len() > 0 {
        lemma_tab_index(opts.drop_first(), name);
        assert forall|j: int| 0 < j < opts.len() implies opts[j] == opts.drop_first()[j
            - 1] by {}
    }
}

/// The titles of every tab's widgets, in tab order.
pub open spec fn all_tab_paths(opts: Seq<TabV>) -> Seq<Seq<Seq<char>>>
    decreases opts.len(),
{
    if opts.len() == 0 {
        Seq::empty()
    } else {
        opts[0].widgets + all_tab_paths(opts.drop_first())
    }
}

/// The filter a tab group asks for: with a tab selected, only that
/// tab's widgets; with none, everything but the widgets claimed by
/// some tab.
pub open spec fn spec_filter(t: TabsV) -> FilterV {
    match t.selected {
        Some(i) => FilterV::OneOf(t.options[i].widgets),
        None => FilterV::NoneOf(all_tab_paths(t.options)),
    }
}

impl Tabs {
    /// The filter this tab group currently asks for.
    pub fn filter(&self) -> (r: Filter)
        requires
            tabs_wf(self@),
        ensures
            r@ == spec_filter(self@),
    {
        match self.selected {
            Some(index) => {
                proof {
                    assert(self@.options[index as int] == self.options@[index as int]@);
                }
                let paths = clone_paths(&self.options[index].widgets);
                Filter::OneOf(paths)
            }
            None => {
                let mut paths: Vec<Path> = Vec::new();
                let mut i: usize = 0;
                proof {
                    assert(paths_view(paths@) =~= Seq::<Seq<Seq<char>>>::empty());
                    assert(all_tab_paths(self@.options.skip(0)) == all_tab_paths(
                        self@.options,
                    )) by {
                        assert(self@.options.skip(0) =~= self@.options);
                    }
                }
                while i < self.options.len()
                    invariant
                        i <= self.options@.len(),
                        self@.options.len() == self.options@.len(),
                        forall|j: int| 0 <= j < self.options@.len() ==> self@.options[j]
                            == self.options@[j]@,
                        all_tab_paths(self@.options) == paths_view(paths@) + all_tab_paths(
                            self@.options.skip(i as int),
                        ),
                    decreases self.options@.len() - i,
                {
                    let ghost before = paths@;
                    let tab = &self.options[i];
                    let mut k: usize = 0;
                    while k < tab.widgets.len()
                        invariant
                            k <= tab.widgets@.len(),
                            paths@.len() == before.len() + k,
                            forall|j: int| 0 <= j < before.len() ==> paths@[j]@
                                == before[j]@,
                            forall|j: int| 0 <= j < k ==> paths@[before.len() + j]@
                                == tab.widgets@[j]@,
                        decreases tab.widgets@.len() - k,
                    {
                        paths.push(tab.widgets[k].clone());
                        k = k + 1;
                    }
                    proof {
                        assert(paths_view(paths@) =~= paths_view(before) + self@.options[
                            i as int
                        ].widgets);
                        assert(self@.options.skip(i as int)[0] == self@.options[i as int]);
                        assert(self@.options.skip(i as int).drop_first()
                            =~= self@.options.skip(i + 1));
                        assert(all_tab_paths(self@.options.skip(i as int))
                            == self@.options[i as int].widgets + all_tab_paths(
                            self@.options.skip(i + 1),
                        ));
                        assert(paths_view(before) + (self@.options[i as int].widgets
                            + all_tab_paths(self@.options.skip(i + 1))) =~= paths_view(
                            paths@,
                        ) + all_tab_paths(self@.options.skip(i + 1)));
                    }
                    i = i + 1;
                }
                proof {
                    assert(self@.options.skip(self.options@.len() as int) =~= Seq::<
                        TabV,
                    >::empty());
                    assert(paths_view(paths@) + Seq::<Seq<Seq<char>>>::empty()
                        =~= paths_view(paths@));
                }
                Filter::NoneOf(paths)
            }
        }
    }

    /// Answers a committed edit.  Text naming a tab selects it and
    /// asks for that tab's widgets plus this widget itself; the
    /// general name clears the selection and asks to hide every
    /// claimed widget; any other text does nothing.
    pub fn update(&mut self, path: &Path, text: &str) -> (r: Write)
        requires
            tabs_wf(old(self)@),
        ensures
            tabs_wf(final(self)@),
            final(self)@.options == old(self)@.options,
            match tab_index(old(self)@.options, text@) {
                Some(i) => {
                    &&& final(self)@.selected == Some(i)
                    &&& final(self)@.finished
                    &&& r@.entries == Seq::<crate::backend::EntryV>::empty()
                    &&& r@.filter == Some(
                        FilterV::OneOf(old(self)@.options[i].widgets.push(path@)),
                    )
                },
                None => if text@ == "General"@ {
                    &&& final(self)@.selected is None
                    &&& final(self)@.finished
                    &&& r@.entries == Seq::<crate::backend::EntryV>::empty()
                    &&& r@.filter == Some(
                        FilterV::NoneOf(all_tab_paths(old(self)@.options)),
                    )
                } else {
                    final(self)@ == old(self)@ && r@.entries == Seq::<
                        crate::backend::EntryV,
                    >::empty() && r@.filter is None
                },
            },
    {
        let found = find_tab(&self.options, text);
        match found {
            Some(index) => {
                proof {
                    lemma_tab_index(old(self)@.options, text@);
                    assert(old(self)@.options.len() == self.options@.len());
                }
                self.is_finished = true;
                self.selected = Some(index);
                proof {
                    assert(self@.options[index as int] == self.options@[index as int]@);
                }
                let mut paths = clone_paths(&self.options[index].widgets);
                let ghost before = paths_view(paths@);
                paths.push(path.clone());
                proof {
                    assert(paths_view(paths@) =~= before.push(path@));
                    assert(self@ =~= (TabsV {
                        selected: Some(index as int),
                        finished: true,
                        ..old(self)@
                    }));
                }
                Write::filter(Filter::OneOf(paths))
            }
            None => {
                if str_eq(text, "General") {
                    self.is_finished = true;
                    self.selected = None;
                    proof {
                        reveal_strlit("General");
                        assert(self@ =~= (TabsV {
                            selected: None,
                            finished: true,
                            ..old(self)@
                        }));
                    }
                    let f = self.filter();
                    Write::filter(f)
                } else {
                    proof {
                        reveal_strlit("General");
                        assert(self@ =~= old(self)@);
                    }
                    Write::default()
                }
            }
        }
    }

    /// Refreshes the widget from its subtree after an update: a
    /// subtree that reads as a tab group replaces the tabs; one that
    /// does not leaves the widget as it was.  The selection is kept
    /// while it still points at a tab, and dropped otherwise; the
    /// edit-in-progress flag is kept.
    pub fn update_nt(&mut self, value: &TValue)
        requires
            tabs_wf(old(self)@),
        ensures
            tabs_wf(final(self)@),
            final(self)@ == spec_tabs_refresh(old(self)@, value@),
    {
        match Tabs::try_from(value) {
            Ok(updated) => {
                self.options = updated.options;
                match self.selected {
                    Some(i) => {
                        if i >= self.options.len() {
                            self.selected = None;
                        }
                    }
                    None => {}
                }
                proof {
                    assert(self@ =~= spec_tabs_refresh(old(self)@, value@));
                }
            }
            Err(_) => {
                proof {
                    assert(self@ =~= old(self)@);
                }
            }
        }
    }
}

/// What refreshing a tab group from its subtree does: a recognized tab
/// group replaces the tabs, keeping the selection while it still
/// points at a tab and the edit flag always; anything else changes
/// nothing.
pub open spec fn spec_tabs_refresh(t: TabsV, v: TValueV) -> TabsV {
    match spec_tabs(v) {
        Ok(n) => TabsV {
            options: n.options,
            selected: match t.selected {
                Some(i) => if i < n.options.len() {
                    Some(i)
                } else {
                    None
                },
                None => None,
            },
            finished: t.finished,
        },
        Err(_) => t,
    }
}

impl Tabs {
    /// Recognizes a tab-group subtree.
    pub fn try_from(value: &TValue) -> (r: Result<Tabs, Error>)
        ensures
            match r {
                Ok(t) => spec_tabs(value@) == Ok::<TabsV, ErrorV>(t@) && tabs_wf(t@),
                Err(e) => spec_tabs(value@) == Err::<TabsV, ErrorV>(e@),
            },
    {
        let nodes = match value.try_get_nodes() {
            Some(ns) => ns,
            None => {
                return Err(Error::WantedNodes);
            }
        };
        let type_value = match nodes.try_get_value(".type") {
            Some(v) => v,
            None => {
                return Err(Error::MissingType);
            }
        };
        let kind_text = match type_value.try_to_string() {
            Some(s) => s,
            None => {
                return Err(Error::TypeNotString);
            }
        };
        if !str_eq(kind_text.as_str(), "Tabs") {
            return Err(Error::IncorrectType(kind_text));
        }
        let ghost nsv = nodes@;
        let list = nodes.iter_nodes();
        proof {
            lemma_nodes_seq_view(list@);
            assert(nsv.skip(0) =~= nsv);
        }
        let mut options: Vec<Tab> = Vec::new();
        let mut i: usize = 0;
        while i < list.len()
            invariant
                i <= list@.len(),
                nsv == nodes_seq_view(list@),
                nsv.len() == list@.len(),
                forall|j: int| 0 <= j < list@.len() ==> nsv[j] == list@[j]@,
                spec_tab_rows(nsv) == match spec_tab_rows(nsv.skip(i as int)) {
                    Ok(rest) => Ok(options@.map_values(|t: Tab| t@) + rest),
                    Err(e) => Err::<Seq<TabV>, ErrorV>(e),
                },
                spec_tabs(value@) == match spec_tab_rows(nsv) {
                    Ok(rows) => Ok(TabsV { options: rows, selected: None, finished: false }),
                    Err(e) => Err::<TabsV, ErrorV>(e),
                },
            decreases list@.len() - i,
        {
            let ghost suffix = nsv.skip(i as int);
            proof {
                assert(suffix[0] == nsv[i as int]);
                assert(suffix.drop_first() =~= nsv.skip(i + 1));
            }
            let node = &list[i];
            if node.key.starts_with('.') {
                proof {
                    assert(spec_tab_rows(suffix) == spec_tab_rows(nsv.skip(i + 1)));
                }
            } else {
                let leaf = match node.value.try_get_value() {
                    Some(v) => v,
                    None => {
                        proof {
                            assert(spec_tab_rows(suffix) == Err::<Seq<TabV>, ErrorV>(
                                ErrorV::WantedValue,
                            ));
                        }
                        return Err(Error::WantedValue);
                    }
                };
                let strs = match leaf.try_to_string_array() {
                    Some(a) => a,
                    None => {
                        proof {
                            assert(spec_tab_rows(suffix) == Err::<Seq<TabV>, ErrorV>(
                                ErrorV::OptionNotStringArray,
                            ));
                        }
                        return Err(Error::OptionNotStringArray);
                    }
                };
                proof {
                    assert(strs@.map_values(|s: String| s@) =~= text_array(
                        nsv[i as int].value->Leaf_0,
                    ));
                }
                let widgets = match parse_path_list(&strs) {
                    Ok(ps) => ps,
                    Err(e) => {
                        proof {
                            assert(spec_tab_rows(suffix) == Err::<Seq<TabV>, ErrorV>(
                                ErrorV::PathParse(e@),
                            ));
                        }
                        return Err(Error::PathParse(e));
                    }
                };
                let ghost before = options@;
                let tab = Tab { option: node.key.as_str().to_owned(), widgets };
                proof {
                    assert(tab@ == (TabV {
                        name: nsv[i as int].key,
                        widgets: spec_parse_paths(text_array(
                            nsv[i as int].value->Leaf_0,
                        ))->Ok_0,
                    }));
                }
                options.push(tab);
                proof {
                    assert(options@.map_values(|t: Tab| t@) =~= before.map_values(
                        |t: Tab| t@,
                    ).push(options@[before.len() as int]@));
                    match spec_tab_rows(nsv.skip(i + 1)) {
                        Ok(rest) => {
                            assert(before.map_values(|t: Tab| t@) + (seq![
                                TabV {
                                    name: nsv[i as int].key,
                                    widgets: spec_parse_paths(text_array(
                                        nsv[i as int].value->Leaf_0,
                                    ))->Ok_0,
                                },
                            ] + rest) =~= options@.map_values(|t: Tab| t@) + rest);
                        }
                        Err(_) => {}
                    }
                }
            }
            i = i + 1;
        }
        proof {
            assert(nsv.skip(list@.len() as int) =~= Seq::<NodeV>::empty());
            match spec_tab_rows(nsv) {
                Ok(rows) => {
                    assert(options@.map_values(|t: Tab| t@) + Seq::<TabV>::empty()
                        =~= options@.map_values(|t: Tab| t@));
                }
                Err(_) => {
                    assert(false);
                }
            }
        }
        let r = Tabs { options, selected: None, is_finished: false };
        proof {
            assert(spec_tabs(value@) == Ok::<TabsV, ErrorV>(r@));
        }
        Ok(r)
    }
}

/// Parses each string of a tab's widget list as a path.
fn parse_path_list(strs: &Vec<String>) -> (r: Result<Vec<Path>, crate::path::PathError>)
    ensures
        match r {
            Ok(ps) => spec_parse_paths(strs@.map_values(|s: String| s@)) == Ok::<
                Seq<Seq<Seq<char>>>,
                PathErrorV,
            >(paths_view(ps@)),
            Err(e) => spec_parse_paths(strs@.map_values(|s: String| s@)) == Err::<Seq<Seq<Seq<char>>>, PathErrorV>(e@),
        },
{
    let ghost sv = strs@.map_values(|s: String| s@);
    let mut out: Vec<Path> = Vec::new();
    let mut i: usize = 0;
    proof {
        assert(sv.skip(0) =~= sv);
    }
    while i < strs.len()
        invariant
            i <= strs@.len(),
            sv == strs@.map_values(|s: String| s@),
            sv.len() == strs@.len(),
            spec_parse_paths(sv) == match spec_parse_paths(sv.skip(i as int)) {
                Ok(rest) => Ok(paths_view(out@) + rest),
                Err(e) => Err::<Seq<Seq<Seq<char>>>, PathErrorV>(e),
            },
        decreases strs@.len() - i,
    {
        let ghost suffix = sv.skip(i as int);
        proof {
            assert(suffix[0] == sv[i as int]);
            assert(suffix.drop_first() =~= sv.skip(i + 1));
        }
        match Path::parse(strs[i].as_str()) {
            Ok(p) => {
                let ghost before = out@;
                out.push(p);
                proof {
                    assert(spec_parse(sv[i as int]) == Some(out@[before.len() as int]@));
                    assert(paths_view(out@) =~= paths_view(before).push(out@[
                        before.len() as int
                    ]@));
                    match spec_parse_paths(sv.skip(i + 1)) {
                        Ok(rest) => {
                            assert(paths_view(before) + (seq![out@[before.len() as int]@]
                                + rest) =~= paths_view(out@) + rest);
                        }
                        Err(_) => {}
                    }
                }
            }
            Err(e) => {
                proof {
                    match e@ {
                        PathErrorV::Empty => {
                            assert(sv[i as int].len() == 0);
                        }
                        PathErrorV::ExpectedSlash(_) => {}
                    }
                    assert(spec_parse(sv[i as int]) is None);
                    assert(spec_parse_error(sv[i as int]) == e@);
                    assert(spec_parse_paths(suffix) == Err::<
                        Seq<Seq<Seq<char>>>,
                        PathErrorV,
                    >(e@));
                }
                return Err(e);
            }
        }
        i = i + 1;
    }
    proof {
        assert(sv.skip(strs@.len() as int) =~= Seq::<Seq<char>>::empty());
        assert(paths_view(out@) + Seq::<Seq<Seq<char>>>::empty() =~= paths_view(out@));
    }
    Ok(out)
}

/// Finds the first tab named by the given text.
fn find_tab(options: &Vec<Tab>, text: &str) -> (r: Option<usize>)
    ensures
        match r {
            Some(i) => tab_index(options@.map_values(|t: Tab| t@), text@) == Some(i as int),
            None => tab_index(options@.map_values(|t: Tab| t@), text@) is None,
        },
{
    let ghost opts = options@.map_values(|t: Tab| t@);
    proof {
        lemma_tab_index(opts, text@);
    }
    let mut i: usize = 0;
    while i < options.len()
        invariant
            i <= options@.len(),
            opts == options@.map_values(|t: Tab| t@),
            opts.len() == options@.len(),
            forall|j: int| 0 <= j < i ==> opts[j].name != text@,
        decreases options@.len() - i,
    {
        if str_eq(options[i].option.as_str(), text) {
            proof {
                lemma_tab_index(opts, text@);
                assert(opts[i as int].name == text@);
            }
            return Some(i);
        }
        i = i + 1;
    }
    None
}

} // verus!
