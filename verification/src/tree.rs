//! The path-indexed mirror of the remote table, and the builders that
//! turn recognized subtrees into widgets.
//!
//! A node is keyed by a single key and holds either a leaf wire value
//! or a branch of child nodes with unique keys.  A node's shape only
//! changes through an explicit entry: an entry that disagrees with the
//! existing shape is rejected, never coerced.

use vstd::prelude::*;

use crate::backend::Entry;
use crate::path::Key;
use crate::path::Path;
use crate::value::Value;
use crate::value::ValueV;
use crate::widgets::Builder;
use crate::widgets::KindV;
use crate::widgets::WidgetV;

verus! {

broadcast use vstd::seq::group_seq_axioms, vstd::seq_lib::group_seq_lib_default, vstd::std_specs::vec::group_vec_axioms;

/// What a tree node holds: a terminal wire value, or named children.
pub enum TValue {
    Leaf(Value),
    Branch(Nodes),
}

/// An ordered collection of child nodes with unique keys.
pub struct Nodes {
    pub nodes: Vec<Node>,
}

/// One node of the mirror: its key, the widgets materialized for its
/// subtree, the builders still waiting for the subtree to fill in, and
/// its value.
pub struct Node {
    pub key: Key,
    pub widgets: Vec<crate::widgets::Widget>,
    pub pending: Vec<Builder>,
    pub value: TValue,
}

/// The mathematical shape of a node's value.
pub enum TValueV {
    Leaf(ValueV),
    Branch(Seq<NodeV>),
}

/// The mathematical shape of a node.
#[verifier::ext_equal]
pub struct NodeV {
    pub key: Seq<char>,
    pub widgets: Seq<WidgetV>,
    pub pending: Seq<Builder>,
    pub value: TValueV,
}

impl View for TValue {
    type V = TValueV;

    open spec fn view(&self) -> TValueV
        decreases self,
    {
        match self {
            TValue::Leaf(v) => TValueV::Leaf(v@),
            TValue::Branch(ns) => TValueV::Branch(nodes_seq_view(ns.nodes@)),
        }
    }
}

impl View for Nodes {
    type V = Seq<NodeV>;

    open spec fn view(&self) -> Seq<NodeV> {
        nodes_seq_view(self.nodes@)
    }
}

impl View for Node {
    type V = NodeV;

    open spec fn view(&self) -> NodeV
        decreases self,
    {
        NodeV {
            key: self.key@,
            widgets: crate::widgets::widgets_view(self.widgets@),
            pending: self.pending@,
            value: self.value@,
        }
    }
}

/// The views of a sequence of nodes, elementwise.
pub open spec fn nodes_seq_view(s: Seq<Node>) -> Seq<NodeV>
    decreases s,
{
    if s.len() == 0 {
        Seq::empty()
    } else {
        seq![s[0]@] + nodes_seq_view(s.drop_first())
    }
}

/// `nodes_seq_view` is the elementwise view.
pub proof fn lemma_nodes_seq_view(s: Seq<Node>)
    ensures
        nodes_seq_view(s).len() == s.len(),
        forall|i: int| 0 <= i < s.len() ==> nodes_seq_view(s)[i] == s[i]@,
    decreases s,
{
    assert(s.len() == 0 ==> nodes_seq_view(s) == Seq::<NodeV>::empty());
    assert(s.len() > 0 ==> nodes_seq_view(s) == seq![s[0]@] + nodes_seq_view(
        s.drop_first(),
    ));
    if s.len() > 0 {
        lemma_nodes_seq_view(s.drop_first());
        assert forall|i: int| 0 <= i < s.len() implies nodes_seq_view(s)[i] == s[i]@ by {
            if i > 0 {
                assert(s.drop_first()[i - 1] == s[i]);
            }
        }
    }
}

/// The first child with the given key, if any.
pub open spec fn find_child(ns: Seq<NodeV>, key: Seq<char>) -> Option<NodeV>
    decreases ns.len(),
{
    if ns.len() == 0 {
        None
    } else if ns[0].key == key {
        Some(ns[0])
    } else {
        find_child(ns.drop_first(), key)
    }
}

/// The leaf value of the child with the given key: `None` when there
/// is no such child or it is a branch.
pub open spec fn child_leaf(ns: Seq<NodeV>, key: Seq<char>) -> Option<ValueV> {
    match find_child(ns, key) {
        Some(n) => match n.value {
            TValueV::Leaf(v) => Some(v),
            TValueV::Branch(_) => None,
        },
        None => None,
    }
}

/// The index of the first child with the given key, if any.
pub open spec fn find_index(ns: Seq<NodeV>, key: Seq<char>) -> Option<int>
    decreases ns.len(),
{
    if ns.len() == 0 {
        None
    } else if ns[0].key == key {
        Some(0int)
    } else {
        match find_index(ns.drop_first(), key) {
            Some(i) => Some(i + 1),
            None => None,
        }
    }
}

/// `find_index` finds the first child with the key, and `find_child`
/// is the child it points at.
pub proof fn lemma_find_index(ns: Seq<NodeV>, key: Seq<char>)
    ensures
        match find_index(ns, key) {
            Some(i) => 0 <= i < ns.len() && ns[i].key == key && find_child(ns, key)
                == Some(ns[i]) && forall|j: int| 0 <= j < i ==> ns[j].key != key,
            None => find_child(ns, key) is None && forall|j: int| 0 <= j < ns.len()
                ==> ns[j].key != key,
        },
    decreases ns.len(),
{
    if ns.len() > 0 {
        lemma_find_index(ns.drop_first(), key);
        assert forall|j: int| 0 < j < ns.len() implies ns[j] == ns.drop_first()[j - 1] by {}
    }
}

/// A rejected entry: its path disagrees with the tree's shape.
#[derive(Clone, Copy, Debug, PartialEq, Eq, Structural)]
pub enum Error {
    /// The path stops at an existing branch.
    ExpectedValue,
    /// The path descends below an existing leaf.
    ExpectedBranch,
    /// The path names a node that does not exist (updates only).
    NoSuchEntry,
}

/// What running the still-pending builders over a node's subtree
/// yields: the widgets of the builders that now succeed, and the
/// builders still worth retrying.  A builder that can never match the
/// subtree is dropped.
pub open spec fn spec_run_builders(
    key: Seq<char>,
    v: TValueV,
    title: Seq<Seq<char>>,
    pending: Seq<Builder>,
) -> (Seq<WidgetV>, Seq<Builder>)
    decreases pending.len(),
{
    if pending.len() == 0 {
        (Seq::empty(), Seq::empty())
    } else {
        let rest = spec_run_builders(key, v, title, pending.drop_first());
        match crate::widgets::spec_create_kind(pending[0], key, v) {
            crate::widgets::BuildResultV::Complete(k) => (
                seq![WidgetV { title, kind: k }] + rest.0,
                rest.1,
            ),
            crate::widgets::BuildResultV::Partial(_) => (
                rest.0,
                seq![pending[0]] + rest.1,
            ),
            crate::widgets::BuildResultV::NoMatch => rest,
        }
    }
}

/// A node's subtree with every widget below it forgotten; values and
/// pending builders stay.
pub open spec fn spec_strip_tvalue(v: TValueV) -> TValueV
    decreases v,
{
    match v {
        TValueV::Leaf(x) => TValueV::Leaf(x),
        TValueV::Branch(ns) => TValueV::Branch(spec_strip_nodes(ns)),
    }
}

/// Every node of the sequence with its widgets forgotten, recursively.
pub open spec fn spec_strip_nodes(ns: Seq<NodeV>) -> Seq<NodeV>
    decreases ns,
{
    if ns.len() == 0 {
        Seq::empty()
    } else {
        seq![
            NodeV {
                key: ns[0].key,
                widgets: Seq::empty(),
                pending: ns[0].pending,
                value: spec_strip_tvalue(ns[0].value),
            },
        ] + spec_strip_nodes(ns.drop_first())
    }
}

/// A node after its value changed: the given widgets stand, the
/// pending builders are retried, and a fresh completion hides every
/// widget below.
pub open spec fn spec_node_after(
    key: Seq<char>,
    widgets0: Seq<WidgetV>,
    v2: TValueV,
    title: Seq<Seq<char>>,
    pending_src: Seq<Builder>,
) -> NodeV {
    let run = spec_run_builders(key, v2, title, pending_src);
    let v3 = if run.0.len() > 0 {
        spec_strip_tvalue(v2)
    } else {
        v2
    };
    NodeV { key, widgets: widgets0 + run.0, pending: run.1, value: v3 }
}

/// A freshly created chain of nodes for a new path: a leaf at the end,
/// branches above it, every builder tried at every new node.
pub open spec fn spec_from_entry(
    prefix: Seq<Seq<char>>,
    first: Seq<char>,
    rest: Seq<Seq<char>>,
    v: ValueV,
    builders: Seq<Builder>,
) -> NodeV
    decreases rest.len(), 3int,
{
    let title = prefix.push(first);
    let inner: TValueV = if rest.len() == 0 {
        TValueV::Leaf(v)
    } else {
        TValueV::Branch(
            seq![spec_from_entry(title, rest[0], rest.drop_first(), v, builders)],
        )
    };
    spec_node_after(first, Seq::empty(), inner, title, builders)
}

/// Creation at the node level: the entry is applied below, then every
/// builder is re-run against the node's new subtree.
pub open spec fn spec_create_node(
    n: NodeV,
    prefix: Seq<Seq<char>>,
    rest: Seq<Seq<char>>,
    v: ValueV,
    builders: Seq<Builder>,
) -> Result<NodeV, Error>
    decreases rest.len(), 2int,
{
    let title = prefix.push(n.key);
    match spec_create_tvalue(n.value, title, rest, v, builders) {
        Err(e) => Err(e),
        Ok(v2) => Ok(spec_node_after(n.key, n.widgets, v2, title, builders)),
    }
}

/// Creation below a node: a leaf may be overwritten in place, a branch
/// descends, and a shape mismatch is rejected.
pub open spec fn spec_create_tvalue(
    tv: TValueV,
    prefix: Seq<Seq<char>>,
    rest: Seq<Seq<char>>,
    v: ValueV,
    builders: Seq<Builder>,
) -> Result<TValueV, Error>
    decreases rest.len(), 1int,
{
    match tv {
        TValueV::Leaf(_) => if rest.len() == 0 {
            Ok(TValueV::Leaf(v))
        } else {
            Err(Error::ExpectedBranch)
        },
        TValueV::Branch(ns) => if rest.len() == 0 {
            Err(Error::ExpectedValue)
        } else {
            match spec_create_nodes(ns, prefix, rest[0], rest.drop_first(), v, builders) {
                Ok(ns2) => Ok(TValueV::Branch(ns2)),
                Err(e) => Err(e),
            }
        },
    }
}

/// Creation in a node list: an existing child takes the entry; a
/// missing child is created along with everything below it.
pub open spec fn spec_create_nodes(
    ns: Seq<NodeV>,
    prefix: Seq<Seq<char>>,
    first: Seq<char>,
    rest: Seq<Seq<char>>,
    v: ValueV,
    builders: Seq<Builder>,
) -> Result<Seq<NodeV>, Error>
    decreases rest.len(), 4int,
{
    match find_index(ns, first) {
        Some(i) => match spec_create_node(ns[i], prefix, rest, v, builders) {
            Ok(n2) => Ok(ns.update(i, n2)),
            Err(e) => Err(e),
        },
        None => Ok(ns.push(spec_from_entry(prefix, first, rest, v, builders))),
    }
}

/// One widget refreshed in place from the node's new subtree.
pub open spec fn spec_refresh_widget(w: WidgetV, v2: TValueV) -> WidgetV {
    WidgetV { title: w.title, kind: crate::widgets::spec_update_nt(w.kind, v2) }
}

/// Update at the node level: the entry is applied below, the existing
/// widgets are refreshed in place, and the still-pending builders are
/// retried.
pub open spec fn spec_update_node(
    n: NodeV,
    prefix: Seq<Seq<char>>,
    rest: Seq<Seq<char>>,
    v: ValueV,
    builders: Seq<Builder>,
) -> Result<NodeV, Error>
    decreases rest.len(), 2int,
{
    let title = prefix.push(n.key);
    match spec_update_tvalue(n.value, title, rest, v, builders) {
        Err(e) => Err(e),
        Ok(v2) => {
            let refreshed = n.widgets.map_values(|w: WidgetV| spec_refresh_widget(w, v2));
            Ok(spec_node_after(n.key, refreshed, v2, title, n.pending))
        },
    }
}

/// Update below a node: a leaf is overwritten in place, a branch
/// descends, and a shape mismatch is rejected.
pub open spec fn spec_update_tvalue(
    tv: TValueV,
    prefix: Seq<Seq<char>>,
    rest: Seq<Seq<char>>,
    v: ValueV,
    builders: Seq<Builder>,
) -> Result<TValueV, Error>
    decreases rest.len(), 1int,
{
    match tv {
        TValueV::Leaf(_) => if rest.len() == 0 {
            Ok(TValueV::Leaf(v))
        } else {
            Err(Error::ExpectedBranch)
        },
        TValueV::Branch(ns) => if rest.len() == 0 {
            Err(Error::ExpectedValue)
        } else {
            match spec_update_nodes(ns, prefix, rest[0], rest.drop_first(), v, builders) {
                Ok(ns2) => Ok(TValueV::Branch(ns2)),
                Err(e) => Err(e),
            }
        },
    }
}

/// Update in a node list: the entry goes to the existing child, and a
/// missing child is a rejection.
pub open spec fn spec_update_nodes(
    ns: Seq<NodeV>,
    prefix: Seq<Seq<char>>,
    first: Seq<char>,
    rest: Seq<Seq<char>>,
    v: ValueV,
    builders: Seq<Builder>,
) -> Result<Seq<NodeV>, Error>
    decreases rest.len(), 4int,
{
    match find_index(ns, first) {
        Some(i) => match spec_update_node(ns[i], prefix, rest, v, builders) {
            Ok(n2) => Ok(ns.update(i, n2)),
            Err(e) => Err(e),
        },
        None => Err(Error::NoSuchEntry),
    }
}

/// All widgets materialized in the node list, in traversal order: a
/// node's own widgets, then its subtree's.
pub open spec fn spec_widgets(ns: Seq<NodeV>) -> Seq<WidgetV>
    decreases ns,
{
    if ns.len() == 0 {
        Seq::empty()
    } else {
        ns[0].widgets + (match ns[0].value {
            TValueV::Leaf(_) => Seq::<WidgetV>::empty(),
            TValueV::Branch(ms) => spec_widgets(ms),
        }) + spec_widgets(ns.drop_first())
    }
}

/// The node a non-empty path leads to, if every step exists.
pub open spec fn spec_find_node(ns: Seq<NodeV>, path: Seq<Seq<char>>) -> Option<NodeV>
    decreases path.len(),
{
    if path.len() == 0 {
        None
    } else {
        match find_child(ns, path[0]) {
            None => None,
            Some(n) => if path.len() == 1 {
                Some(n)
            } else {
                match n.value {
                    TValueV::Branch(ms) => spec_find_node(ms, path.drop_first()),
                    TValueV::Leaf(_) => None,
                }
            },
        }
    }
}

/// The leaf value a non-empty path leads to, if it names a leaf.
pub open spec fn leaf_at(ns: Seq<NodeV>, path: Seq<Seq<char>>) -> Option<ValueV> {
    match spec_find_node(ns, path) {
        Some(n) => match n.value {
            TValueV::Leaf(v) => Some(v),
            TValueV::Branch(_) => None,
        },
        None => None,
    }
}

/// Every widget of the node is well-formed, here and below.
pub open spec fn spec_wf_node(n: NodeV) -> bool
    decreases n,
{
    (forall|i: int| 0 <= i < n.widgets.len() ==> crate::widgets::kind_wf(
        #[trigger] n.widgets[i].kind,
    )) && spec_wf_tvalue(n.value)
}

/// Every widget under the value is well-formed.
pub open spec fn spec_wf_tvalue(v: TValueV) -> bool
    decreases v,
{
    match v {
        TValueV::Leaf(_) => true,
        TValueV::Branch(ms) => spec_wf_nodes(ms),
    }
}

/// Every widget in the node list is well-formed.
pub open spec fn spec_wf_nodes(ns: Seq<NodeV>) -> bool
    decreases ns,
{
    if ns.len() == 0 {
        true
    } else {
        spec_wf_node(ns[0]) && spec_wf_nodes(ns.drop_first())
    }
}

/// Node-list well-formedness works elementwise.
pub proof fn lemma_wf_nodes_elem(ns: Seq<NodeV>)
    ensures
        spec_wf_nodes(ns) == (forall|i: int| 0 <= i < ns.len() ==> spec_wf_node(
            #[trigger] ns[i],
        )),
    decreases ns,
{
    if ns.len() > 0 {
        lemma_wf_nodes_elem(ns.drop_first());
        assert forall|j: int| 0 < j < ns.len() implies ns.drop_first()[j - 1] == ns[j] by {}
        if spec_wf_node(ns[0]) && (forall|i: int| 0 <= i < ns.drop_first().len()
            ==> spec_wf_node(#[trigger] ns.drop_first()[i])) {
            assert forall|i: int| 0 <= i < ns.len() implies spec_wf_node(
                #[trigger] ns[i],
            ) by {
                if i > 0 {
                    assert(ns.drop_first()[i - 1] == ns[i]);
                }
            }
        }
    }
}

/// A stripped subtree is well-formed: it has no widgets at all.
pub proof fn lemma_strip_wf(v: TValueV)
    ensures
        spec_wf_tvalue(spec_strip_tvalue(v)),
    decreases v,
{
    match v {
        TValueV::Leaf(_) => {}
        TValueV::Branch(ns) => {
            lemma_strip_nodes_wf(ns);
        }
    }
}

/// A stripped node list is well-formed.
pub proof fn lemma_strip_nodes_wf(ns: Seq<NodeV>)
    ensures
        spec_wf_nodes(spec_strip_nodes(ns)),
    decreases ns,
{
    if ns.len() > 0 {
        lemma_strip_wf(ns[0].value);
        lemma_strip_nodes_wf(ns.drop_first());
        let r = spec_strip_nodes(ns);
        assert(r.drop_first() =~= spec_strip_nodes(ns.drop_first()));
        assert(spec_wf_node(r[0]));
    }
}

impl Nodes {
    /// The leaf value stored under the given key, if that child exists
    /// and is a leaf.
    pub fn try_get_value(&self, key: &str) -> (r: Option<&Value>)
        ensures
            match r {
                Some(v) => child_leaf(self@, key@) == Some(v@),
                None => child_leaf(self@, key@) is None,
            },
    {
        proof {
            lemma_nodes_seq_view(self.nodes@);
            assert(self@.skip(0) =~= self@);
        }
        let mut i: usize = 0;
        while i < self.nodes.len()
            invariant
                i <= self.nodes@.len(),
                self@ == nodes_seq_view(self.nodes@),
                nodes_seq_view(self.nodes@).len() == self.nodes@.len(),
                forall|j: int| 0 <= j < self.nodes@.len() ==> nodes_seq_view(
                    self.nodes@,
                )[j] == self.nodes@[j]@,
                find_child(self@, key@) == find_child(self@.skip(i as int), key@),
            decreases self.nodes@.len() - i,
        {
            proof {
                assert(self@.skip(i as int)[0] == self@[i as int]);
                assert(self@.skip(i as int).drop_first() =~= self@.skip(i + 1));
            }
            let node = &self.nodes[i];
            if node.key.equals_str(key) {
                proof {
                    assert(self@[i as int].key == key@);
                    assert(find_child(self@, key@) == Some(self@[i as int]));
                }
                match &node.value {
                    TValue::Leaf(v) => {
                        return Some(v);
                    }
                    TValue::Branch(_) => {
                        return None;
                    }
                }
            }
            i = i + 1;
        }
        proof {
            assert(self@.skip(self.nodes@.len() as int) =~= Seq::<NodeV>::empty());
        }
        None
    }

    /// The nodes, for callers that walk the tree.
    pub fn iter_nodes(&self) -> (r: &Vec<Node>)
        ensures
            nodes_seq_view(r@) == self@,
    {
        &self.nodes
    }
}

/// A copy of the first `end` keys, used as a widget title.
fn clone_prefix(keys: &Vec<Key>, end: usize) -> (r: Vec<Key>)
    requires
        end <= keys@.len(),
    ensures
        crate::path::keys_view(r@) == crate::path::keys_view(keys@).take(end as int),
{
    let mut out: Vec<Key> = Vec::new();
    let mut i: usize = 0;
    while i < end
        invariant
            i <= end <= keys@.len(),
            out@.len() == i,
            forall|j: int| 0 <= j < i ==> out@[j]@ == keys@[j]@,
        decreases end - i,
    {
        out.push(keys[i].clone());
        i = i + 1;
    }
    proof {
        assert(crate::path::keys_view(out@) =~= crate::path::keys_view(keys@).take(
            end as int,
        ));
    }
    out
}

/// Runs the pending builders against a node's subtree.
fn run_builders(
    key: &Key,
    value: &TValue,
    title_keys: &Vec<Key>,
    pending: &Vec<Builder>,
) -> (r: (Vec<crate::widgets::Widget>, Vec<Builder>))
    requires
        crate::path::keys_view(title_keys@).len() > 0,
    ensures
        crate::widgets::widgets_view(r.0@) == spec_run_builders(
            key@,
            value@,
            crate::path::keys_view(title_keys@),
            pending@,
        ).0,
        r.1@ == spec_run_builders(
            key@,
            value@,
            crate::path::keys_view(title_keys@),
            pending@,
        ).1,
        forall|i: int| 0 <= i < r.0@.len() ==> crate::widgets::kind_wf(
            #[trigger] crate::widgets::widgets_view(r.0@)[i].kind,
        ),
{
    let ghost title = crate::path::keys_view(title_keys@);
    let mut widgets: Vec<crate::widgets::Widget> = Vec::new();
    let mut partials: Vec<Builder> = Vec::new();
    let mut i: usize = 0;
    proof {
        assert(pending@.skip(0) =~= pending@);
        assert(crate::widgets::widgets_view(widgets@) =~= Seq::<WidgetV>::empty());
    }
    while i < pending.len()
        invariant
            i <= pending@.len(),
            title == crate::path::keys_view(title_keys@),
            title.len() > 0,
            spec_run_builders(key@, value@, title, pending@).0
                == crate::widgets::widgets_view(widgets@) + spec_run_builders(
                key@,
                value@,
                title,
                pending@.skip(i as int),
            ).0,
            spec_run_builders(key@, value@, title, pending@).1 == partials@
                + spec_run_builders(key@, value@, title, pending@.skip(i as int)).1,
            forall|j: int| 0 <= j < widgets@.len() ==> crate::widgets::kind_wf(
                #[trigger] crate::widgets::widgets_view(widgets@)[j].kind,
            ),
        decreases pending@.len() - i,
    {
        let ghost suffix = pending@.skip(i as int);
        proof {
            assert(suffix[0] == pending@[i as int]);
            assert(suffix.drop_first() =~= pending@.skip(i + 1));
        }
        let b = pending[i];
        match b.create_kind(key, value) {
            crate::widgets::BuildResult::Complete(kind) => {
                let title_vec = clone_prefix(title_keys, title_keys.len());
                let path = match Path::from_vec(title_vec) {
                    Ok(p) => p,
                    Err(_) => {
                        proof {
                            assert(crate::path::keys_view(title_keys@).take(
                                title_keys@.len() as int,
                            ) =~= title);
                            assert(false);
                        }
                        Path::of(key.clone())
                    }
                };
                proof {
                    assert(crate::path::keys_view(title_keys@).take(
                        title_keys@.len() as int,
                    ) =~= title);
                }
                let ghost before = widgets@;
                widgets.push(crate::widgets::Widget::new(path, kind));
                proof {
                    assert(crate::widgets::widgets_view(widgets@)
                        =~= crate::widgets::widgets_view(before).push(widgets@[
                        before.len() as int
                    ]@));
                    assert(crate::widgets::widgets_view(before) + (seq![
                        WidgetV {
                            title,
                            kind: crate::widgets::spec_create_kind(b, key@, value@)
                                ->Complete_0,
                        },
                    ] + spec_run_builders(key@, value@, title, pending@.skip(i + 1)).0)
                        =~= crate::widgets::widgets_view(widgets@) + spec_run_builders(
                        key@,
                        value@,
                        title,
                        pending@.skip(i + 1),
                    ).0);
                }
            }
            crate::widgets::BuildResult::Partial(_) => {
                let ghost before = partials@;
                partials.push(b);
                proof {
                    assert(before + (seq![b] + spec_run_builders(
                        key@,
                        value@,
                        title,
                        pending@.skip(i + 1),
                    ).1) =~= partials@ + spec_run_builders(
                        key@,
                        value@,
                        title,
                        pending@.skip(i + 1),
                    ).1);
                }
            }
            crate::widgets::BuildResult::NoMatch => {}
        }
        i = i + 1;
    }
    proof {
        assert(pending@.skip(pending@.len() as int) =~= Seq::<Builder>::empty());
        assert(crate::widgets::widgets_view(widgets@) + Seq::<WidgetV>::empty()
            =~= crate::widgets::widgets_view(widgets@));
        assert(partials@ + Seq::<Builder>::empty() =~= partials@);
    }
    (widgets, partials)
}

/// Forgets every widget in the subtree, keeping values and pending
/// builders.
fn strip_tvalue(v: TValue) -> (r: TValue)
    ensures
        r@ == spec_strip_tvalue(v@),
    decreases v,
{
    match v {
        TValue::Leaf(x) => TValue::Leaf(x),
        TValue::Branch(ns) => {
            let ghost whole = ns.nodes@;
            let mut src = ns.nodes;
            let total = src.len();
            let mut out: Vec<Node> = Vec::new();
            let mut i: usize = 0;
            proof {
                lemma_nodes_seq_view(whole);
            }
            while src.len() > 0
                invariant
                    v is Branch,
                    v->Branch_0.nodes@ == whole,
                    whole.len() == total,
                    i + src@.len() == whole.len(),
                    forall|j: int| 0 <= j < src@.len() ==> src@[j] == whole[i + j],
                    out@.len() == i,
                    forall|j: int| 0 <= j < i ==> out@[j]@ == (NodeV {
                        key: whole[j]@.key,
                        widgets: Seq::empty(),
                        pending: whole[j]@.pending,
                        value: spec_strip_tvalue(whole[j]@.value),
                    }),
                decreases src@.len(),
            {
                let node = src.remove(0);
                proof {
                    assert(node == whole[i as int]);
                    assert(decreases_to!(v => v->Branch_0));
                    assert(decreases_to!(v->Branch_0 => v->Branch_0.nodes));
                    assert(decreases_to!(v->Branch_0.nodes => whole));
                    assert(decreases_to!(whole => whole[i as int]));
                    assert(decreases_to!(whole[i as int] => whole[i as int].value));
                }
                let Node { key, widgets, pending, value } = node;
                let stripped = strip_tvalue(value);
                let ghost before = out@;
                out.push(Node { key, widgets: Vec::new(), pending, value: stripped });
                proof {
                    assert(crate::widgets::widgets_view(Seq::<
                        crate::widgets::Widget,
                    >::empty()) =~= Seq::<WidgetV>::empty());
                    assert(out@[i as int]@ =~= (NodeV {
                        key: whole[i as int]@.key,
                        widgets: Seq::empty(),
                        pending: whole[i as int]@.pending,
                        value: spec_strip_tvalue(whole[i as int]@.value),
                    }));
                    assert forall|j: int| 0 <= j < src@.len() implies src@[j] == whole[(i
                        + 1) + j] by {}
                }
                i = i + 1;
            }
            proof {
                lemma_nodes_seq_view(out@);
                lemma_nodes_seq_view(whole);
                lemma_strip_nodes_elem(nodes_seq_view(whole));
                assert(nodes_seq_view(out@) =~= spec_strip_nodes(nodes_seq_view(whole)));
            }
            TValue::Branch(Nodes { nodes: out })
        }
    }
}

/// `spec_strip_nodes` works elementwise.
proof fn lemma_strip_nodes_elem(ns: Seq<NodeV>)
    ensures
        spec_strip_nodes(ns).len() == ns.len(),
        forall|j: int| 0 <= j < ns.len() ==> spec_strip_nodes(ns)[j] == (NodeV {
            key: ns[j].key,
            widgets: Seq::empty(),
            pending: ns[j].pending,
            value: spec_strip_tvalue(ns[j].value),
        }),
    decreases ns,
{
    if ns.len() > 0 {
        lemma_strip_nodes_elem(ns.drop_first());
        assert forall|j: int| 0 < j < ns.len() implies ns.drop_first()[j - 1] == ns[j] by {}
    }
}

impl TValue {
    /// The children, when this value is a branch.
    pub fn try_get_nodes(&self) -> (r: Option<&Nodes>)
        ensures
            match r {
                Some(ns) => self@ == TValueV::Branch(ns@),
                None => !(self@ is Branch),
            },
    {
        match self {
            TValue::Branch(ns) => Some(ns),
            TValue::Leaf(_) => None,
        }
    }

    /// The wire value, when this value is a leaf.
    pub fn try_get_value(&self) -> (r: Option<&Value>)
        ensures
            match r {
                Some(v) => self@ == TValueV::Leaf(v@),
                None => !(self@ is Leaf),
            },
    {
        match self {
            TValue::Leaf(v) => Some(v),
            TValue::Branch(_) => None,
        }
    }
}

/// A copy of a builder list.
fn clone_builders(builders: &Vec<Builder>) -> (r: Vec<Builder>)
    ensures
        r@ == builders@,
{
    let mut out: Vec<Builder> = Vec::new();
    let mut i: usize = 0;
    while i < builders.len()
        invariant
            i <= builders@.len(),
            out@.len() == i,
            forall|j: int| 0 <= j < i ==> out@[j] == builders@[j],
        decreases builders@.len() - i,
    {
        out.push(builders[i]);
        i = i + 1;
    }
    proof {
        assert(out@ =~= builders@);
    }
    out
}

/// Finds the position of the child with the given key.
fn find_key_index(ns: &Vec<Node>, key: &Key) -> (r: Option<usize>)
    ensures
        match r {
            Some(i) => find_index(nodes_seq_view(ns@), key@) == Some(i as int),
            None => find_index(nodes_seq_view(ns@), key@) is None,
        },
{
    proof {
        lemma_nodes_seq_view(ns@);
        lemma_find_index(nodes_seq_view(ns@), key@);
    }
    let mut i: usize = 0;
    while i < ns.len()
        invariant
            i <= ns@.len(),
            nodes_seq_view(ns@).len() == ns@.len(),
            forall|j: int| 0 <= j < ns@.len() ==> nodes_seq_view(ns@)[j] == ns@[j]@,
            forall|j: int| 0 <= j < i ==> nodes_seq_view(ns@)[j].key != key@,
        decreases ns@.len() - i,
    {
        if ns[i].key == *key {
            proof {
                lemma_find_index(nodes_seq_view(ns@), key@);
                assert(nodes_seq_view(ns@)[i as int].key == key@);
            }
            return Some(i);
        }
        i = i + 1;
    }
    None
}

/// Re-runs builders on a node whose value just changed, hiding the
/// widgets below it when one completes.
fn finish_node(node: &mut Node, keys: &Vec<Key>, end: usize, pending: &Vec<Builder>)
    requires
        end <= keys@.len(),
        1 <= end,
    ensures
        final(node)@ == spec_node_after(
            old(node)@.key,
            old(node)@.widgets,
            old(node)@.value,
            crate::path::keys_view(keys@).take(end as int),
            pending@,
        ),
        (forall|i: int| 0 <= i < old(node)@.widgets.len() ==> crate::widgets::kind_wf(
            #[trigger] old(node)@.widgets[i].kind,
        )) && spec_wf_tvalue(old(node)@.value) ==> spec_wf_node(final(node)@),
{
    let ghost title = crate::path::keys_view(keys@).take(end as int);
    let title_vec = clone_prefix(keys, end);
    let run = run_builders(&node.key, &node.value, &title_vec, pending);
    let (ws, ps) = run;
    if ws.len() > 0 {
        let mut tmp = TValue::Leaf(Value::Nil);
        core::mem::swap(&mut node.value, &mut tmp);
        let mut stripped = strip_tvalue(tmp);
        core::mem::swap(&mut node.value, &mut stripped);
        proof {
            lemma_strip_wf(old(node)@.value);
        }
    }
    let ghost before_widgets = node.widgets@;
    let mut ws_vec = ws;
    let ghost ws_view = crate::widgets::widgets_view(ws_vec@);
    node.widgets.append(&mut ws_vec);
    node.pending = ps;
    proof {
        assert(crate::widgets::widgets_view(node.widgets@)
            =~= crate::widgets::widgets_view(before_widgets) + ws_view);
        assert(node@ =~= spec_node_after(
            old(node)@.key,
            old(node)@.widgets,
            old(node)@.value,
            title,
            pending@,
        ));
        assert forall|i: int|
            (forall|j: int| 0 <= j < old(node)@.widgets.len()
                ==> crate::widgets::kind_wf(#[trigger] old(node)@.widgets[j].kind)) && 0
                <= i < node@.widgets.len() implies crate::widgets::kind_wf(
            #[trigger] node@.widgets[i].kind,
        ) by {
            if i < old(node)@.widgets.len() {
                assert(node@.widgets[i] == old(node)@.widgets[i]);
            } else {
                assert(node@.widgets[i] == ws_view[i - old(node)@.widgets.len()]);
            }
        }
    }
}

/// A freshly created chain of nodes for a new path suffix.
fn from_entry(keys: &Vec<Key>, depth: usize, value: Value, builders: &Vec<Builder>) -> (r:
    Node)
    requires
        depth < keys@.len(),
    ensures
        r@ == spec_from_entry(
            crate::path::keys_view(keys@).take(depth as int),
            crate::path::keys_view(keys@)[depth as int],
            crate::path::keys_view(keys@).skip(depth as int + 1),
            value@,
            builders@,
        ),
        spec_wf_node(r@),
    decreases keys@.len() - depth, 2int,
{
    let ghost kv = crate::path::keys_view(keys@);
    let klen = keys.len();
    let inner: TValue = if depth + 1 == klen {
        TValue::Leaf(value)
    } else {
        let child = from_entry(keys, depth + 1, value, builders);
        let mut vec: Vec<Node> = Vec::new();
        vec.push(child);
        proof {
            assert(vec@.drop_first() =~= Seq::<Node>::empty());
            assert(nodes_seq_view(Seq::<Node>::empty()) == Seq::<NodeV>::empty());
            assert(nodes_seq_view(vec@) =~= seq![vec@[0]@]);
            assert(kv.take(depth as int + 1) =~= kv.take(depth as int).push(
                kv[depth as int],
            ));
            assert(kv.skip(depth as int + 1)[0] == kv[depth as int + 1]);
            assert(kv.skip(depth as int + 1).drop_first() =~= kv.skip(depth as int + 2));
        }
        TValue::Branch(Nodes { nodes: vec })
    };
    let mut node = Node {
        key: keys[depth].clone(),
        widgets: Vec::new(),
        pending: Vec::new(),
        value: inner,
    };
    proof {
        assert(crate::widgets::widgets_view(node.widgets@) =~= Seq::<WidgetV>::empty());
        assert(kv.take(depth as int + 1) =~= kv.take(depth as int).push(kv[depth as int]));
        assert(spec_wf_tvalue(node@.value)) by {
            match node@.value {
                TValueV::Leaf(_) => {}
                TValueV::Branch(ms) => {
                    lemma_wf_nodes_elem(ms);
                }
            }
        }
    }
    finish_node(&mut node, keys, depth + 1, builders);
    node
}

/// Applies an entry below a node: overwrite a leaf in place, descend
/// into a branch, reject a shape mismatch.
fn create_in_tvalue(
    tv: &mut TValue,
    keys: &Vec<Key>,
    depth: usize,
    value: Value,
    builders: &Vec<Builder>,
) -> (r: Result<(), Error>)
    requires
        depth <= keys@.len(),
        spec_wf_tvalue(old(tv)@),
    ensures
        r is Ok ==> spec_wf_tvalue(final(tv)@),
        match r {
            Ok(_) => spec_create_tvalue(
                old(tv)@,
                crate::path::keys_view(keys@).take(depth as int),
                crate::path::keys_view(keys@).skip(depth as int),
                value@,
                builders@,
            ) == Ok::<TValueV, Error>(final(tv)@),
            Err(e) => spec_create_tvalue(
                old(tv)@,
                crate::path::keys_view(keys@).take(depth as int),
                crate::path::keys_view(keys@).skip(depth as int),
                value@,
                builders@,
            ) == Err::<TValueV, Error>(e) && final(tv)@ == old(tv)@,
        },
    decreases keys@.len() - depth, 4int,
{
    let ghost kv = crate::path::keys_view(keys@);
    proof {
        assert(kv.skip(depth as int).len() == kv.len() - depth);
    }
    match tv {
        TValue::Leaf(_) => {
            if depth == keys.len() {
                *tv = TValue::Leaf(value);
                Ok(())
            } else {
                Err(Error::ExpectedBranch)
            }
        }
        TValue::Branch(ns) => {
            if depth == keys.len() {
                Err(Error::ExpectedValue)
            } else {
                proof {
                    assert(kv.skip(depth as int)[0] == kv[depth as int]);
                    assert(kv.skip(depth as int).drop_first() =~= kv.skip(
                        depth as int + 1,
                    ));
                }
                match create_in_nodes(ns, keys, depth, value, builders) {
                    Ok(_) => Ok(()),
                    Err(e) => Err(e),
                }
            }
        }
    }
}

/// Applies an entry to the child named at this depth, creating it and
/// everything below it if it does not exist yet.
fn create_in_nodes(
    ns: &mut Nodes,
    keys: &Vec<Key>,
    depth: usize,
    value: Value,
    builders: &Vec<Builder>,
) -> (r: Result<(), Error>)
    requires
        depth < keys@.len(),
        spec_wf_nodes(old(ns)@),
    ensures
        r is Ok ==> spec_wf_nodes(final(ns)@),
        match r {
            Ok(_) => spec_create_nodes(
                old(ns)@,
                crate::path::keys_view(keys@).take(depth as int),
                crate::path::keys_view(keys@)[depth as int],
                crate::path::keys_view(keys@).skip(depth as int + 1),
                value@,
                builders@,
            ) == Ok::<Seq<NodeV>, Error>(final(ns)@),
            Err(e) => spec_create_nodes(
                old(ns)@,
                crate::path::keys_view(keys@).take(depth as int),
                crate::path::keys_view(keys@)[depth as int],
                crate::path::keys_view(keys@).skip(depth as int + 1),
                value@,
                builders@,
            ) == Err::<Seq<NodeV>, Error>(e) && final(ns)@ == old(ns)@,
        },
    decreases keys@.len() - depth, 3int,
{
    let ghost kv = crate::path::keys_view(keys@);
    let found = find_key_index(&ns.nodes, &keys[depth]);
    match found {
        Some(i) => {
            proof {
                lemma_find_index(ns@, kv[depth as int]);
                lemma_nodes_seq_view(ns.nodes@);
            }
            proof {
                lemma_wf_nodes_elem(nodes_seq_view(ns.nodes@));
            }
            let ghost before = ns.nodes@;
            let node = &mut ns.nodes[i];
            let r = create_in_node(node, keys, depth, value, builders);
            proof {
                lemma_nodes_seq_view(ns.nodes@);
                assert(ns.nodes@ =~= before.update(i as int, ns.nodes@[i as int]));
                assert forall|j: int| 0 <= j < ns.nodes@.len() && j != i implies ns.nodes@[j]
                    == before[j] by {}
            }
            match r {
                Ok(_) => {
                    proof {
                        assert(nodes_seq_view(ns.nodes@) =~= nodes_seq_view(before).update(
                            i as int,
                            ns.nodes@[i as int]@,
                        ));
                        lemma_wf_nodes_elem(nodes_seq_view(ns.nodes@));
                        assert forall|j: int| 0 <= j < nodes_seq_view(ns.nodes@).len()
                            implies spec_wf_node(
                            #[trigger] nodes_seq_view(ns.nodes@)[j],
                        ) by {
                            if j != i {
                                assert(nodes_seq_view(ns.nodes@)[j] == nodes_seq_view(
                                    before,
                                )[j]);
                            }
                        }
                    }
                    Ok(())
                }
                Err(e) => {
                    proof {
                        assert(nodes_seq_view(ns.nodes@) =~= nodes_seq_view(before));
                    }
                    Err(e)
                }
            }
        }
        None => {
            let node = from_entry(keys, depth, value, builders);
            let ghost before = ns.nodes@;
            ns.nodes.push(node);
            proof {
                lemma_nodes_seq_view(ns.nodes@);
                lemma_nodes_seq_view(before);
                assert(nodes_seq_view(ns.nodes@) =~= nodes_seq_view(before).push(
                    ns.nodes@[before.len() as int]@,
                ));
                lemma_wf_nodes_elem(nodes_seq_view(before));
                lemma_wf_nodes_elem(nodes_seq_view(ns.nodes@));
                assert forall|j: int| 0 <= j < nodes_seq_view(ns.nodes@).len()
                    implies spec_wf_node(#[trigger] nodes_seq_view(ns.nodes@)[j]) by {
                    if j < before.len() {
                        assert(nodes_seq_view(ns.nodes@)[j] == nodes_seq_view(before)[j]);
                    }
                }
            }
            Ok(())
        }
    }
}

/// Applies an entry at a node whose key matched: the entry goes below,
/// then every builder is re-run against the node's new subtree.
fn create_in_node(
    node: &mut Node,
    keys: &Vec<Key>,
    depth: usize,
    value: Value,
    builders: &Vec<Builder>,
) -> (r: Result<(), Error>)
    requires
        depth < keys@.len(),
        old(node)@.key == crate::path::keys_view(keys@)[depth as int],
        spec_wf_node(old(node)@),
    ensures
        r is Ok ==> spec_wf_node(final(node)@),
        match r {
            Ok(_) => spec_create_node(
                old(node)@,
                crate::path::keys_view(keys@).take(depth as int),
                crate::path::keys_view(keys@).skip(depth as int + 1),
                value@,
                builders@,
            ) == Ok::<NodeV, Error>(final(node)@),
            Err(e) => spec_create_node(
                old(node)@,
                crate::path::keys_view(keys@).take(depth as int),
                crate::path::keys_view(keys@).skip(depth as int + 1),
                value@,
                builders@,
            ) == Err::<NodeV, Error>(e) && final(node)@ == old(node)@,
        },
    decreases keys@.len() - depth, 2int,
{
    let ghost kv = crate::path::keys_view(keys@);
    let klen = keys.len();
    proof {
        assert(depth < klen);
        assert(kv.take(depth as int + 1) =~= kv.take(depth as int).push(kv[depth as int]));
    }
    let r = create_in_tvalue(&mut node.value, keys, depth + 1, value, builders);
    match r {
        Err(e) => {
            proof {
                assert(node@ =~= old(node)@);
            }
            Err(e)
        }
        Ok(_) => {
            let pending_all = clone_builders(builders);
            finish_node(node, keys, depth + 1, &pending_all);
            Ok(())
        }
    }
}

/// Applies an update below a node: overwrite a leaf in place, descend
/// into a branch, reject a shape mismatch.
fn update_in_tvalue(
    tv: &mut TValue,
    keys: &Vec<Key>,
    depth: usize,
    value: Value,
    builders: &Vec<Builder>,
) -> (r: Result<(), Error>)
    requires
        depth <= keys@.len(),
        spec_wf_tvalue(old(tv)@),
    ensures
        r is Ok ==> spec_wf_tvalue(final(tv)@),
        match r {
            Ok(_) => spec_update_tvalue(
                old(tv)@,
                crate::path::keys_view(keys@).take(depth as int),
                crate::path::keys_view(keys@).skip(depth as int),
                value@,
                builders@,
            ) == Ok::<TValueV, Error>(final(tv)@),
            Err(e) => spec_update_tvalue(
                old(tv)@,
                crate::path::keys_view(keys@).take(depth as int),
                crate::path::keys_view(keys@).skip(depth as int),
                value@,
                builders@,
            ) == Err::<TValueV, Error>(e) && final(tv)@ == old(tv)@,
        },
    decreases keys@.len() - depth, 4int,
{
    let ghost kv = crate::path::keys_view(keys@);
    proof {
        assert(kv.skip(depth as int).len() == kv.len() - depth);
    }
    match tv {
        TValue::Leaf(_) => {
            if depth == keys.len() {
                *tv = TValue::Leaf(value);
                Ok(())
            } else {
                Err(Error::ExpectedBranch)
            }
        }
        TValue::Branch(ns) => {
            if depth == keys.len() {
                Err(Error::ExpectedValue)
            } else {
                proof {
                    assert(kv.skip(depth as int)[0] == kv[depth as int]);
                    assert(kv.skip(depth as int).drop_first() =~= kv.skip(
                        depth as int + 1,
                    ));
                }
                match update_in_nodes(ns, keys, depth, value, builders) {
                    Ok(_) => Ok(()),
                    Err(e) => Err(e),
                }
            }
        }
    }
}

/// Applies an update to the child named at this depth; a missing
/// child rejects the entry.
fn update_in_nodes(
    ns: &mut Nodes,
    keys: &Vec<Key>,
    depth: usize,
    value: Value,
    builders: &Vec<Builder>,
) -> (r: Result<(), Error>)
    requires
        depth < keys@.len(),
        spec_wf_nodes(old(ns)@),
    ensures
        r is Ok ==> spec_wf_nodes(final(ns)@),
        match r {
            Ok(_) => spec_update_nodes(
                old(ns)@,
                crate::path::keys_view(keys@).take(depth as int),
                crate::path::keys_view(keys@)[depth as int],
                crate::path::keys_view(keys@).skip(depth as int + 1),
                value@,
                builders@,
            ) == Ok::<Seq<NodeV>, Error>(final(ns)@),
            Err(e) => spec_update_nodes(
                old(ns)@,
                crate::path::keys_view(keys@).take(depth as int),
                crate::path::keys_view(keys@)[depth as int],
                crate::path::keys_view(keys@).skip(depth as int + 1),
                value@,
                builders@,
            ) == Err::<Seq<NodeV>, Error>(e) && final(ns)@ == old(ns)@,
        },
    decreases keys@.len() - depth, 3int,
{
    let ghost kv = crate::path::keys_view(keys@);
    let found = find_key_index(&ns.nodes, &keys[depth]);
    match found {
        Some(i) => {
            proof {
                lemma_find_index(ns@, kv[depth as int]);
                lemma_nodes_seq_view(ns.nodes@);
            }
            proof {
                lemma_wf_nodes_elem(nodes_seq_view(ns.nodes@));
            }
            let ghost before = ns.nodes@;
            let node = &mut ns.nodes[i];
            let r = update_in_node(node, keys, depth, value, builders);
            proof {
                lemma_nodes_seq_view(ns.nodes@);
                assert(ns.nodes@ =~= before.update(i as int, ns.nodes@[i as int]));
                assert forall|j: int| 0 <= j < ns.nodes@.len() && j != i implies ns.nodes@[j]
                    == before[j] by {}
            }
            match r {
                Ok(_) => {
                    proof {
                        assert(nodes_seq_view(ns.nodes@) =~= nodes_seq_view(before).update(
                            i as int,
                            ns.nodes@[i as int]@,
                        ));
                        lemma_wf_nodes_elem(nodes_seq_view(ns.nodes@));
                        assert forall|j: int| 0 <= j < nodes_seq_view(ns.nodes@).len()
                            implies spec_wf_node(
                            #[trigger] nodes_seq_view(ns.nodes@)[j],
                        ) by {
                            if j != i {
                                assert(nodes_seq_view(ns.nodes@)[j] == nodes_seq_view(
                                    before,
                                )[j]);
                            }
                        }
                    }
                    Ok(())
                }
                Err(e) => {
                    proof {
                        assert(nodes_seq_view(ns.nodes@) =~= nodes_seq_view(before));
                    }
                    Err(e)
                }
            }
        }
        None => Err(Error::NoSuchEntry),
    }
}

/// Applies an update at a node whose key matched: the entry goes
/// below, the node's widgets are refreshed in place, and the builders
/// still pending on this node are retried.
fn update_in_node(
    node: &mut Node,
    keys: &Vec<Key>,
    depth: usize,
    value: Value,
    builders: &Vec<Builder>,
) -> (r: Result<(), Error>)
    requires
        depth < keys@.len(),
        old(node)@.key == crate::path::keys_view(keys@)[depth as int],
        spec_wf_node(old(node)@),
    ensures
        r is Ok ==> spec_wf_node(final(node)@),
        match r {
            Ok(_) => spec_update_node(
                old(node)@,
                crate::path::keys_view(keys@).take(depth as int),
                crate::path::keys_view(keys@).skip(depth as int + 1),
                value@,
                builders@,
            ) == Ok::<NodeV, Error>(final(node)@),
            Err(e) => spec_update_node(
                old(node)@,
                crate::path::keys_view(keys@).take(depth as int),
                crate::path::keys_view(keys@).skip(depth as int + 1),
                value@,
                builders@,
            ) == Err::<NodeV, Error>(e) && final(node)@ == old(node)@,
        },
    decreases keys@.len() - depth, 2int,
{
    let ghost kv = crate::path::keys_view(keys@);
    let klen = keys.len();
    proof {
        assert(depth < klen);
        assert(kv.take(depth as int + 1) =~= kv.take(depth as int).push(kv[depth as int]));
    }
    let r = update_in_tvalue(&mut node.value, keys, depth + 1, value, builders);
    match r {
        Err(e) => {
            proof {
                assert(node@ =~= old(node)@);
            }
            Err(e)
        }
        Ok(_) => {
            let ghost v2 = node.value@;
            let ghost widgets0 = old(node)@.widgets;
            let mut i: usize = 0;
            while i < node.widgets.len()
                invariant
                    i <= node.widgets@.len(),
                    node.key == old(node).key,
                    node.pending@ == old(node)@.pending,
                    node.value@ == v2,
                    crate::widgets::widgets_view(node.widgets@).len() == widgets0.len(),
                    forall|j: int| 0 <= j < i
                        ==> crate::widgets::widgets_view(node.widgets@)[j]
                        == spec_refresh_widget(widgets0[j], v2),
                    forall|j: int| i <= j < widgets0.len()
                        ==> crate::widgets::widgets_view(node.widgets@)[j] == widgets0[j],
                    forall|j: int| 0 <= j < widgets0.len() ==> crate::widgets::kind_wf(
                        #[trigger] crate::widgets::widgets_view(node.widgets@)[j].kind,
                    ),
                decreases node.widgets@.len() - i,
            {
                let ghost before = node.widgets@;
                let w = &mut node.widgets[i];
                w.update_nt(&node.key, &node.value);
                proof {
                    assert(node.widgets@ =~= before.update(i as int, node.widgets@[
                        i as int
                    ]));
                    assert forall|j: int| 0 <= j < node.widgets@.len() && j
                        != i implies node.widgets@[j] == before[j] by {}
                    assert(crate::widgets::widgets_view(node.widgets@)[i as int]
                        =~= spec_refresh_widget(widgets0[i as int], v2));
                    assert forall|j: int| 0 <= j < i + 1
                        implies crate::widgets::widgets_view(node.widgets@)[j]
                        == spec_refresh_widget(widgets0[j], v2) by {
                        if j < i {
                            assert(node.widgets@[j] == before[j]);
                            assert(crate::widgets::widgets_view(before)[j]
                                == spec_refresh_widget(widgets0[j], v2));
                        }
                    }
                    assert forall|j: int| i + 1 <= j < widgets0.len()
                        implies crate::widgets::widgets_view(node.widgets@)[j]
                        == widgets0[j] by {
                        assert(node.widgets@[j] == before[j]);
                        assert(crate::widgets::widgets_view(before)[j] == widgets0[j]);
                    }
                    assert forall|j: int| 0 <= j < widgets0.len()
                        implies crate::widgets::kind_wf(
                        #[trigger] crate::widgets::widgets_view(node.widgets@)[j].kind,
                    ) by {
                        if j != i {
                            assert(node.widgets@[j] == before[j]);
                            assert(crate::widgets::kind_wf(
                                crate::widgets::widgets_view(before)[j].kind,
                            ));
                        }
                    }
                }
                i = i + 1;
            }
            proof {
                assert(crate::widgets::widgets_view(node.widgets@) =~= widgets0.map_values(
                    |w: WidgetV| spec_refresh_widget(w, v2),
                ));
            }
            finish_node(node, keys, depth + 1, &clone_builders(&node.pending));
            Ok(())
        }
    }
}

/// The first widget of the node the path leads to, if any.
pub open spec fn widget_at(ns: Seq<NodeV>, path: Seq<Seq<char>>) -> Option<WidgetV> {
    match spec_find_node(ns, path) {
        Some(n) => if n.widgets.len() > 0 {
            Some(n.widgets[0])
        } else {
            None
        },
        None => None,
    }
}

/// The node list with the first widget of the node at `path` given the
/// new kind; without such a widget nothing changes.
pub open spec fn spec_replace_widget(
    ns: Seq<NodeV>,
    path: Seq<Seq<char>>,
    k2: KindV,
) -> Seq<NodeV>
    decreases path.len(),
{
    if path.len() == 0 {
        ns
    } else {
        match find_index(ns, path[0]) {
            None => ns,
            Some(i) => if path.len() == 1 {
                if ns[i].widgets.len() > 0 {
                    ns.update(
                        i,
                        NodeV {
                            widgets: ns[i].widgets.update(
                                0,
                                WidgetV { title: ns[i].widgets[0].title, kind: k2 },
                            ),
                            ..ns[i]
                        },
                    )
                } else {
                    ns
                }
            } else {
                match ns[i].value {
                    TValueV::Branch(ms) => ns.update(
                        i,
                        NodeV {
                            value: TValueV::Branch(
                                spec_replace_widget(ms, path.drop_first(), k2),
                            ),
                            ..ns[i]
                        },
                    ),
                    TValueV::Leaf(_) => ns,
                }
            },
        }
    }
}

/// Collects every widget of the subtree, in traversal order.
fn collect_widgets(ns: &Nodes, out: &mut Vec<crate::widgets::Widget>)
    ensures
        crate::widgets::widgets_view(final(out)@) == crate::widgets::widgets_view(
            old(out)@,
        ) + spec_widgets(ns@),
    decreases *ns,
{
    proof {
        lemma_nodes_seq_view(ns.nodes@);
    }
    let mut i: usize = 0;
    while i < ns.nodes.len()
        invariant
            i <= ns.nodes@.len(),
            ns@.len() == ns.nodes@.len(),
            forall|j: int| 0 <= j < ns.nodes@.len() ==> ns@[j] == ns.nodes@[j]@,
            crate::widgets::widgets_view(out@) == crate::widgets::widgets_view(
                old(out)@,
            ) + spec_widgets_upto(ns@, i as int),
        decreases ns.nodes@.len() - i,
    {
        let node = &ns.nodes[i];
        let ghost before = out@;
        let mut k: usize = 0;
        while k < node.widgets.len()
            invariant
                k <= node.widgets@.len(),
                node == ns.nodes@[i as int],
                crate::widgets::widgets_view(out@) == crate::widgets::widgets_view(before)
                    + crate::widgets::widgets_view(node.widgets@).take(k as int),
            decreases node.widgets@.len() - k,
        {
            let ghost mid = out@;
            out.push(node.widgets[k].clone());
            proof {
                assert(crate::widgets::widgets_view(out@)
                    =~= crate::widgets::widgets_view(mid).push(node.widgets@[k as int]@));
                assert(crate::widgets::widgets_view(node.widgets@).take(k + 1)
                    =~= crate::widgets::widgets_view(node.widgets@).take(k as int).push(
                    node.widgets@[k as int]@,
                ));
                assert(crate::widgets::widgets_view(before)
                    + crate::widgets::widgets_view(node.widgets@).take(k as int).push(
                    node.widgets@[k as int]@,
                ) =~= (crate::widgets::widgets_view(before)
                    + crate::widgets::widgets_view(node.widgets@).take(k as int)).push(
                    node.widgets@[k as int]@,
                ));
            }
            k = k + 1;
        }
        proof {
            assert(crate::widgets::widgets_view(node.widgets@).take(
                node.widgets@.len() as int,
            ) =~= crate::widgets::widgets_view(node.widgets@));
        }
        match &node.value {
            TValue::Branch(ms) => {
                proof {
                    assert(decreases_to!(*ns => ns.nodes));
                    assert(decreases_to!(ns.nodes => ns.nodes@));
                    assert(decreases_to!(ns.nodes@ => ns.nodes@[i as int]));
                    assert(decreases_to!(ns.nodes@[i as int] => ns.nodes@[
                        i as int
                    ].value));
                }
                collect_widgets(ms, out);
            }
            TValue::Leaf(_) => {}
        }
        proof {
            assert(crate::widgets::widgets_view(out@) =~= crate::widgets::widgets_view(
                old(out)@,
            ) + spec_widgets_upto(ns@, i + 1)) by {
                lemma_spec_widgets_upto(ns@, i as int);
            }
        }
        i = i + 1;
    }
    proof {
        lemma_spec_widgets_upto_all(ns@);
    }
}

/// The widgets of the first `i` nodes, in traversal order.
pub open spec fn spec_widgets_upto(ns: Seq<NodeV>, i: int) -> Seq<WidgetV>
    decreases i,
{
    if i <= 0 {
        Seq::empty()
    } else {
        spec_widgets_upto(ns, i - 1) + ns[i - 1].widgets + (match ns[i - 1].value {
            TValueV::Leaf(_) => Seq::<WidgetV>::empty(),
            TValueV::Branch(ms) => spec_widgets(ms),
        })
    }
}

/// One step of the per-node widget accumulation.
proof fn lemma_spec_widgets_upto(ns: Seq<NodeV>, i: int)
    requires
        0 <= i,
    ensures
        spec_widgets_upto(ns, i + 1) == spec_widgets_upto(ns, i) + ns[i].widgets + (
        match ns[i].value {
            TValueV::Leaf(_) => Seq::<WidgetV>::empty(),
            TValueV::Branch(ms) => spec_widgets(ms),
        }),
{
}

/// Accumulating over every node gives the traversal order.
proof fn lemma_spec_widgets_upto_all(ns: Seq<NodeV>)
    ensures
        spec_widgets_upto(ns, ns.len() as int) == spec_widgets(ns),
    decreases ns.len(),
{
    lemma_spec_widgets_prefix(ns, ns.len() as int);
    assert(ns.skip(ns.len() as int) =~= Seq::<NodeV>::empty());
    assert(spec_widgets_upto(ns, ns.len() as int) + Seq::<WidgetV>::empty()
        =~= spec_widgets_upto(ns, ns.len() as int));
}

/// The whole traversal is the first `i` nodes' widgets followed by the
/// rest's.
proof fn lemma_spec_widgets_prefix(ns: Seq<NodeV>, i: int)
    requires
        0 <= i <= ns.len(),
    ensures
        spec_widgets(ns) == spec_widgets_upto(ns, i) + spec_widgets(ns.skip(i)),
    decreases i,
{
    if i == 0 {
        assert(ns.skip(0) =~= ns);
        assert(spec_widgets_upto(ns, 0) + spec_widgets(ns) =~= spec_widgets(ns));
    } else {
        lemma_spec_widgets_prefix(ns, i - 1);
        let tail = ns.skip(i - 1);
        assert(tail[0] == ns[i - 1]);
        assert(tail.drop_first() =~= ns.skip(i));
        assert(spec_widgets(tail) == tail[0].widgets + (match tail[0].value {
            TValueV::Leaf(_) => Seq::<WidgetV>::empty(),
            TValueV::Branch(ms) => spec_widgets(ms),
        }) + spec_widgets(tail.drop_first()));
        assert(spec_widgets_upto(ns, i - 1) + (ns[i - 1].widgets + (match ns[i - 1].value {
            TValueV::Leaf(_) => Seq::<WidgetV>::empty(),
            TValueV::Branch(ms) => spec_widgets(ms),
        }) + spec_widgets(ns.skip(i))) =~= spec_widgets_upto(ns, i) + spec_widgets(
            ns.skip(i),
        ));
    }
}

/// Looks up the widget titled by the path suffix from `depth` on.
fn get_in_nodes<'a>(ns: &'a Nodes, keys: &Vec<Key>, depth: usize) -> (r: Option<
    &'a crate::widgets::Widget,
>)
    requires
        depth < keys@.len(),
    ensures
        match r {
            Some(w) => widget_at(ns@, crate::path::keys_view(keys@).skip(depth as int))
                == Some(w@),
            None => widget_at(ns@, crate::path::keys_view(keys@).skip(depth as int))
                is None,
        },
    decreases keys@.len() - depth,
{
    let ghost kv = crate::path::keys_view(keys@);
    let ghost suffix = kv.skip(depth as int);
    proof {
        assert(suffix[0] == kv[depth as int]);
        assert(suffix.drop_first() =~= kv.skip(depth as int + 1));
        lemma_nodes_seq_view(ns.nodes@);
    }
    let klen = keys.len();
    let found = find_key_index(&ns.nodes, &keys[depth]);
    match found {
        Some(i) => {
            proof {
                lemma_find_index(ns@, kv[depth as int]);
                assert(depth < klen);
            }
            let node = &ns.nodes[i];
            proof {
                assert(node@ == ns@[i as int]);
                assert(find_child(ns@, suffix[0]) == Some(ns@[i as int]));
            }
            if depth + 1 == klen {
                proof {
                    assert(suffix.len() == 1);
                    assert(spec_find_node(ns@, suffix) == Some(ns@[i as int]));
                }
                if node.widgets.len() > 0 {
                    proof {
                        assert(widget_at(ns@, suffix) == Some(node.widgets@[0]@));
                    }
                    Some(&node.widgets[0])
                } else {
                    None
                }
            } else {
                proof {
                    assert(suffix.len() > 1);
                }
                match &node.value {
                    TValue::Branch(ms) => {
                        proof {
                            assert(ns@[i as int].value == TValueV::Branch(ms@));
                            assert(spec_find_node(ns@, suffix) == spec_find_node(
                                ms@,
                                suffix.drop_first(),
                            ));
                        }
                        get_in_nodes(ms, keys, depth + 1)
                    }
                    TValue::Leaf(_) => None,
                }
            }
        }
        None => {
            proof {
                lemma_find_index(ns@, kv[depth as int]);
            }
            None
        }
    }
}

/// Applies a committed edit to the widget titled by the path suffix.
fn edit_in_nodes(ns: &mut Nodes, keys: &Vec<Key>, depth: usize, text: &str) -> (r: Option<
    crate::backend::Write,
>)
    requires
        depth < keys@.len(),
        spec_wf_nodes(old(ns)@),
    ensures
        spec_wf_nodes(final(ns)@),
        match widget_at(old(ns)@, crate::path::keys_view(keys@).skip(depth as int)) {
            Some(w) => r matches Some(write) && write@ == crate::widgets::spec_edit_write(
                w.kind,
                w.title,
                text@,
            ) && final(ns)@ == spec_replace_widget(
                old(ns)@,
                crate::path::keys_view(keys@).skip(depth as int),
                crate::widgets::spec_edit_kind(w.kind, text@),
            ),
            None => r is None && final(ns)@ == old(ns)@,
        },
    decreases keys@.len() - depth,
{
    let ghost kv = crate::path::keys_view(keys@);
    let ghost suffix = kv.skip(depth as int);
    proof {
        assert(suffix[0] == kv[depth as int]);
        assert(suffix.drop_first() =~= kv.skip(depth as int + 1));
        lemma_nodes_seq_view(ns.nodes@);
        lemma_wf_nodes_elem(old(ns)@);
    }
    let klen = keys.len();
    let found = find_key_index(&ns.nodes, &keys[depth]);
    match found {
        Some(i) => {
            proof {
                lemma_find_index(ns@, kv[depth as int]);
            }
            let ghost before = ns.nodes@;
            let node = &mut ns.nodes[i];
            let r: Option<crate::backend::Write>;
            if depth + 1 == klen {
                if node.widgets.len() > 0 {
                    let ghost wbefore = node.widgets@;
                    let w = &mut node.widgets[0];
                    let write = w.update(text);
                    proof {
                        assert(node.widgets@ =~= wbefore.update(0, node.widgets@[0]));
                        assert(crate::widgets::widgets_view(node.widgets@)
                            =~= crate::widgets::widgets_view(wbefore).update(
                            0,
                            node.widgets@[0]@,
                        ));
                    }
                    r = Some(write);
                } else {
                    r = None;
                }
            } else {
                match &mut node.value {
                    TValue::Branch(ms) => {
                        r = edit_in_nodes(ms, keys, depth + 1, text);
                    }
                    TValue::Leaf(_) => {
                        r = None;
                    }
                }
            }
            proof {
                lemma_nodes_seq_view(ns.nodes@);
                assert(ns.nodes@ =~= before.update(i as int, ns.nodes@[i as int]));
                assert forall|j: int| 0 <= j < ns.nodes@.len() && j != i implies ns.nodes@[j]
                    == before[j] by {}
                assert(nodes_seq_view(ns.nodes@) =~= nodes_seq_view(before).update(
                    i as int,
                    ns.nodes@[i as int]@,
                ));
                match widget_at(old(ns)@, suffix) {
                    Some(w) => {
                        assert(nodes_seq_view(ns.nodes@) =~= spec_replace_widget(
                            old(ns)@,
                            suffix,
                            crate::widgets::spec_edit_kind(w.kind, text@),
                        ));
                    }
                    None => {
                        assert(nodes_seq_view(ns.nodes@) =~= nodes_seq_view(before));
                    }
                }
                lemma_wf_nodes_elem(nodes_seq_view(ns.nodes@));
                assert forall|j: int| 0 <= j < nodes_seq_view(ns.nodes@).len()
                    implies spec_wf_node(#[trigger] nodes_seq_view(ns.nodes@)[j]) by {
                    if j != i {
                        assert(nodes_seq_view(ns.nodes@)[j] == nodes_seq_view(before)[j]);
                    }
                }
            }
            r
        }
        None => {
            proof {
                lemma_find_index(ns@, kv[depth as int]);
            }
            None
        }
    }
}

/// Clears the edit flag of the widget titled by the path suffix.
fn reset_in_nodes(ns: &mut Nodes, keys: &Vec<Key>, depth: usize)
    requires
        depth < keys@.len(),
        spec_wf_nodes(old(ns)@),
    ensures
        spec_wf_nodes(final(ns)@),
        match widget_at(old(ns)@, crate::path::keys_view(keys@).skip(depth as int)) {
            Some(w) => final(ns)@ == spec_replace_widget(
                old(ns)@,
                crate::path::keys_view(keys@).skip(depth as int),
                crate::widgets::spec_reset_kind(w.kind),
            ),
            None => final(ns)@ == old(ns)@,
        },
    decreases keys@.len() - depth,
{
    let ghost kv = crate::path::keys_view(keys@);
    let ghost suffix = kv.skip(depth as int);
    proof {
        assert(suffix[0] == kv[depth as int]);
        assert(suffix.drop_first() =~= kv.skip(depth as int + 1));
        lemma_nodes_seq_view(ns.nodes@);
        lemma_wf_nodes_elem(old(ns)@);
    }
    let klen = keys.len();
    let found = find_key_index(&ns.nodes, &keys[depth]);
    match found {
        Some(i) => {
            proof {
                lemma_find_index(ns@, kv[depth as int]);
            }
            let ghost before = ns.nodes@;
            let node = &mut ns.nodes[i];
            if depth + 1 == klen {
                if node.widgets.len() > 0 {
                    let ghost wbefore = node.widgets@;
                    let w = &mut node.widgets[0];
                    w.reset();
                    proof {
                        assert(node.widgets@ =~= wbefore.update(0, node.widgets@[0]));
                        assert(crate::widgets::widgets_view(node.widgets@)
                            =~= crate::widgets::widgets_view(wbefore).update(
                            0,
                            node.widgets@[0]@,
                        ));
                        assert(node.widgets@[0]@.kind =~= crate::widgets::spec_reset_kind(
                            wbefore[0]@.kind,
                        ));
                    }
                }
            } else {
                match &mut node.value {
                    TValue::Branch(ms) => {
                        reset_in_nodes(ms, keys, depth + 1);
                    }
                    TValue::Leaf(_) => {}
                }
            }
            proof {
                lemma_nodes_seq_view(ns.nodes@);
                assert(ns.nodes@ =~= before.update(i as int, ns.nodes@[i as int]));
                assert forall|j: int| 0 <= j < ns.nodes@.len() && j != i implies ns.nodes@[j]
                    == before[j] by {}
                assert(nodes_seq_view(ns.nodes@) =~= nodes_seq_view(before).update(
                    i as int,
                    ns.nodes@[i as int]@,
                ));
                match widget_at(old(ns)@, suffix) {
                    Some(w) => {
                        assert(nodes_seq_view(ns.nodes@) =~= spec_replace_widget(
                            old(ns)@,
                            suffix,
                            crate::widgets::spec_reset_kind(w.kind),
                        ));
                    }
                    None => {
                        assert(nodes_seq_view(ns.nodes@) =~= nodes_seq_view(before));
                    }
                }
                lemma_wf_nodes_elem(nodes_seq_view(ns.nodes@));
                assert forall|j: int| 0 <= j < nodes_seq_view(ns.nodes@).len()
                    implies spec_wf_node(#[trigger] nodes_seq_view(ns.nodes@)[j]) by {
                    if j != i {
                        assert(nodes_seq_view(ns.nodes@)[j] == nodes_seq_view(before)[j]);
                    }
                }
            }
        }
        None => {
            proof {
                lemma_find_index(ns@, kv[depth as int]);
            }
        }
    }
}

/// The path-indexed mirror with its registered builders.
pub struct Tree {
    builders: Vec<Builder>,
    nodes: Nodes,
}

/// The mathematical shape of the mirror.
#[verifier::ext_equal]
pub struct TreeV {
    pub builders: Seq<Builder>,
    pub nodes: Seq<NodeV>,
}

impl View for Tree {
    type V = TreeV;

    closed spec fn view(&self) -> TreeV {
        TreeV { builders: self.builders@, nodes: self.nodes@ }
    }
}

impl Tree {
    /// Every widget in the mirror is well-formed.
    pub open spec fn wf(self) -> bool {
        spec_wf_nodes(self@.nodes)
    }

    /// An empty mirror with the given builders, tried in order.
    pub fn new(builders: Vec<Builder>) -> (r: Tree)
        ensures
            r@.builders == builders@,
            r@.nodes == Seq::<NodeV>::empty(),
            r.wf(),
    {
        let r = Tree { builders, nodes: Nodes { nodes: Vec::new() } };
        proof {
            assert(r@.nodes =~= Seq::<NodeV>::empty());
        }
        r
    }

    /// Applies an entry that may create nodes: missing nodes along the
    /// path come into being, an existing leaf at the full path is
    /// overwritten, and a path that runs into an existing leaf early
    /// or stops at a branch is rejected unchanged.
    pub fn create_entry(&mut self, entry: Entry) -> (r: Result<(), Error>)
        requires
            old(self).wf(),
        ensures
            final(self).wf(),
            final(self)@.builders == old(self)@.builders,
            match r {
                Ok(_) => spec_create_nodes(
                    old(self)@.nodes,
                    Seq::empty(),
                    entry.path@[0],
                    entry.path@.drop_first(),
                    entry.value@,
                    old(self)@.builders,
                ) == Ok::<Seq<NodeV>, Error>(final(self)@.nodes),
                Err(e) => spec_create_nodes(
                    old(self)@.nodes,
                    Seq::empty(),
                    entry.path@[0],
                    entry.path@.drop_first(),
                    entry.value@,
                    old(self)@.builders,
                ) == Err::<Seq<NodeV>, Error>(e) && final(self)@ == old(self)@,
            },
    {
        let Entry { path, value } = entry;
        let ghost pv = path@;
        let keys = path.into_vec();
        proof {
            assert(crate::path::keys_view(keys@).take(0) =~= Seq::<Seq<char>>::empty());
            assert(crate::path::keys_view(keys@).skip(1) =~= pv.drop_first());
            assert(crate::path::keys_view(keys@)[0] == pv[0]);
        }
        let r = create_in_nodes(&mut self.nodes, &keys, 0, value, &self.builders);
        proof {
            if r is Err {
                assert(self@ =~= old(self)@);
            }
        }
        r
    }

    /// Applies an entry to an existing leaf: every node on the path
    /// must already exist, and a missing node or a shape mismatch is
    /// rejected unchanged.
    pub fn update_entry(&mut self, entry: Entry) -> (r: Result<(), Error>)
        requires
            old(self).wf(),
        ensures
            final(self).wf(),
            final(self)@.builders == old(self)@.builders,
            match r {
                Ok(_) => spec_update_nodes(
                    old(self)@.nodes,
                    Seq::empty(),
                    entry.path@[0],
                    entry.path@.drop_first(),
                    entry.value@,
                    old(self)@.builders,
                ) == Ok::<Seq<NodeV>, Error>(final(self)@.nodes),
                Err(e) => spec_update_nodes(
                    old(self)@.nodes,
                    Seq::empty(),
                    entry.path@[0],
                    entry.path@.drop_first(),
                    entry.value@,
                    old(self)@.builders,
                ) == Err::<Seq<NodeV>, Error>(e) && final(self)@ == old(self)@,
            },
    {
        let Entry { path, value } = entry;
        let ghost pv = path@;
        let keys = path.into_vec();
        proof {
            assert(crate::path::keys_view(keys@).take(0) =~= Seq::<Seq<char>>::empty());
            assert(crate::path::keys_view(keys@).skip(1) =~= pv.drop_first());
            assert(crate::path::keys_view(keys@)[0] == pv[0]);
        }
        let r = update_in_nodes(&mut self.nodes, &keys, 0, value, &self.builders);
        proof {
            if r is Err {
                assert(self@ =~= old(self)@);
            }
        }
        r
    }

    /// The widget whose title is the given path, if one is
    /// materialized there.
    pub fn get(&self, path: &Path) -> (r: Option<&crate::widgets::Widget>)
        ensures
            match r {
                Some(w) => widget_at(self@.nodes, path@) == Some(w@),
                None => widget_at(self@.nodes, path@) is None,
            },
    {
        let keys = path.clone().into_vec();
        proof {
            assert(crate::path::keys_view(keys@).skip(0) =~= crate::path::keys_view(
                keys@,
            ));
        }
        get_in_nodes(&self.nodes, &keys, 0)
    }

    /// Hands a committed edit to the widget under the given path.  The
    /// widget answers per its kind; without a widget there nothing
    /// happens.
    pub fn edit_widget(&mut self, path: &Path, text: &str) -> (r: Option<
        crate::backend::Write,
    >)
        requires
            old(self).wf(),
        ensures
            final(self).wf(),
            final(self)@.builders == old(self)@.builders,
            match widget_at(old(self)@.nodes, path@) {
                Some(w) => {
                    &&& r matches Some(write) && write@ == crate::widgets::spec_edit_write(
                        w.kind,
                        w.title,
                        text@,
                    )
                    &&& final(self)@.nodes == spec_replace_widget(
                        old(self)@.nodes,
                        path@,
                        crate::widgets::spec_edit_kind(w.kind, text@),
                    )
                },
                None => r is None && final(self)@ == old(self)@,
            },
    {
        let keys = path.clone().into_vec();
        proof {
            assert(crate::path::keys_view(keys@).skip(0) =~= crate::path::keys_view(
                keys@,
            ));
        }
        let r = edit_in_nodes(&mut self.nodes, &keys, 0, text);
        proof {
            if r is None {
                assert(self@ =~= old(self)@);
            }
        }
        r
    }

    /// Clears the edit flag of the widget under the given path, if one
    /// is materialized there.
    pub fn reset_widget(&mut self, path: &Path)
        requires
            old(self).wf(),
        ensures
            final(self).wf(),
            final(self)@.builders == old(self)@.builders,
            match widget_at(old(self)@.nodes, path@) {
                Some(w) => final(self)@.nodes == spec_replace_widget(
                    old(self)@.nodes,
                    path@,
                    crate::widgets::spec_reset_kind(w.kind),
                ),
                None => final(self)@ == old(self)@,
            },
    {
        let keys = path.clone().into_vec();
        proof {
            assert(crate::path::keys_view(keys@).skip(0) =~= crate::path::keys_view(
                keys@,
            ));
        }
        reset_in_nodes(&mut self.nodes, &keys, 0);
        proof {
            if widget_at(old(self)@.nodes, path@) is None {
                assert(self@ =~= old(self)@);
            }
        }
    }

    /// Every materialized widget, in traversal order.
    pub fn widgets(&self) -> (r: Vec<crate::widgets::Widget>)
        ensures
            crate::widgets::widgets_view(r@) == spec_widgets(self@.nodes),
    {
        let mut out: Vec<crate::widgets::Widget> = Vec::new();
        proof {
            assert(crate::widgets::widgets_view(out@) =~= Seq::<WidgetV>::empty());
        }
        collect_widgets(&self.nodes, &mut out);
        proof {
            assert(Seq::<WidgetV>::empty() + spec_widgets(self@.nodes) =~= spec_widgets(
                self@.nodes,
            ));
        }
        out
    }
}

/// The leaf value a path suffix leads to below a node's value: the
/// value itself for the empty suffix.
pub open spec fn tv_leaf_at(tv: TValueV, path: Seq<Seq<char>>) -> Option<ValueV> {
    if path.len() == 0 {
        match tv {
            TValueV::Leaf(v) => Some(v),
            TValueV::Branch(_) => None,
        }
    } else {
        match tv {
            TValueV::Branch(ns) => leaf_at(ns, path),
            TValueV::Leaf(_) => None,
        }
    }
}

/// Stripping widgets moves no child: lookups find the same shapes.
proof fn lemma_find_child_strip(ns: Seq<NodeV>, k: Seq<char>)
    ensures
        match find_child(ns, k) {
            Some(n) => find_child(spec_strip_nodes(ns), k) == Some(
                NodeV {
                    key: n.key,
                    widgets: Seq::empty(),
                    pending: n.pending,
                    value: spec_strip_tvalue(n.value),
                },
            ),
            None => find_child(spec_strip_nodes(ns), k) is None,
        },
    decreases ns.len(),
{
    if ns.len() > 0 {
        let st = spec_strip_nodes(ns);
        assert(st[0] == NodeV {
            key: ns[0].key,
            widgets: Seq::empty(),
            pending: ns[0].pending,
            value: spec_strip_tvalue(ns[0].value),
        });
        assert(st.drop_first() =~= spec_strip_nodes(ns.drop_first()));
        if ns[0].key != k {
            lemma_find_child_strip(ns.drop_first(), k);
        }
    }
}

/// Stripping widgets changes no stored value.
proof fn lemma_strip_leaf_at(v: TValueV, q: Seq<Seq<char>>)
    ensures
        tv_leaf_at(spec_strip_tvalue(v), q) == tv_leaf_at(v, q),
    decreases q.len(), v,
{
    if q.len() == 0 {
    } else {
        match v {
            TValueV::Leaf(_) => {}
            TValueV::Branch(ns) => {
                lemma_find_child_strip(ns, q[0]);
                match find_child(ns, q[0]) {
                    None => {}
                    Some(n) => {
                        if q.len() == 1 {
                        } else {
                            match n.value {
                                TValueV::Branch(ms) => {
                                    lemma_strip_leaf_at(
                                        TValueV::Branch(ms),
                                        q.drop_first(),
                                    );
                                }
                                TValueV::Leaf(_) => {}
                            }
                        }
                    }
                }
            }
        }
    }
}

/// A freshly created chain stores the entry's value at its full path
/// and nothing anywhere else.
proof fn lemma_from_entry_leaf(
    prefix: Seq<Seq<char>>,
    first: Seq<char>,
    rest: Seq<Seq<char>>,
    v: ValueV,
    builders: Seq<Builder>,
    q: Seq<Seq<char>>,
)
    ensures
        ({
            let n = spec_from_entry(prefix, first, rest, v, builders);
            tv_leaf_at(n.value, q) == if q == rest {
                Some(v)
            } else {
                None::<ValueV>
            }
        }),
    decreases rest.len(),
{
    let n = spec_from_entry(prefix, first, rest, v, builders);
    let title = prefix.push(first);
    let inner: TValueV = if rest.len() == 0 {
        TValueV::Leaf(v)
    } else {
        TValueV::Branch(
            seq![spec_from_entry(title, rest[0], rest.drop_first(), v, builders)],
        )
    };
    let run = spec_run_builders(first, inner, title, builders);
    if run.0.len() > 0 {
        lemma_strip_leaf_at(inner, q);
        assert(n.value == spec_strip_tvalue(inner));
    } else {
        assert(n.value == inner);
    }
    if rest.len() == 0 {
        if q.len() == 0 {
            assert(q =~= rest);
        } else {
        }
    } else {
        let child = spec_from_entry(title, rest[0], rest.drop_first(), v, builders);
        let cs = seq![child];
        if q.len() == 0 {
            assert(q != rest);
        } else {
            assert(child.key == rest[0]);
            assert(cs.drop_first() =~= Seq::<NodeV>::empty());
            if q[0] == rest[0] {
                assert(find_child(cs, q[0]) == Some(child));
                lemma_from_entry_leaf(
                    title,
                    rest[0],
                    rest.drop_first(),
                    v,
                    builders,
                    q.drop_first(),
                );
                if q.len() == 1 {
                    assert(q.drop_first() =~= Seq::<Seq<char>>::empty());
                    assert(leaf_at(cs, q) == (match child.value {
                        TValueV::Leaf(x) => Some(x),
                        TValueV::Branch(_) => None,
                    }));
                    assert(tv_leaf_at(child.value, q.drop_first()) == (if q.drop_first()
                        == rest.drop_first() {
                        Some(v)
                    } else {
                        None::<ValueV>
                    }));
                    if q == rest {
                        assert(q.drop_first() == rest.drop_first());
                    } else {
                        if q.drop_first() == rest.drop_first() {
                            assert(q.len() == rest.len());
                            assert forall|ii: int| 0 <= ii < q.len() implies q[ii]
                                == rest[ii] by {
                                if ii > 0 {
                                    assert(q[ii] == q.drop_first()[ii - 1]);
                                    assert(rest[ii] == rest.drop_first()[ii - 1]);
                                }
                            }
                            assert(q =~= rest);
                            assert(false);
                        }
                    }
                } else {
                    match child.value {
                        TValueV::Branch(ms) => {
                            assert(tv_leaf_at(child.value, q.drop_first()) == leaf_at(
                                ms,
                                q.drop_first(),
                            ));
                            assert(spec_find_node(cs, q) == spec_find_node(
                                ms,
                                q.drop_first(),
                            ));
                            assert(leaf_at(cs, q) == tv_leaf_at(
                                child.value,
                                q.drop_first(),
                            ));
                        }
                        TValueV::Leaf(_) => {
                            assert(tv_leaf_at(child.value, q.drop_first()) is None);
                            assert(leaf_at(cs, q) is None);
                        }
                    }
                    assert(tv_leaf_at(inner, q) == leaf_at(cs, q));
                    if q == rest {
                        assert(q.drop_first() == rest.drop_first());
                    } else {
                        if q.drop_first() == rest.drop_first() {
                            assert(q.len() == rest.len());
                            assert forall|ii: int| 0 <= ii < q.len() implies q[ii]
                                == rest[ii] by {
                                if ii > 0 {
                                    assert(q[ii] == q.drop_first()[ii - 1]);
                                    assert(rest[ii] == rest.drop_first()[ii - 1]);
                                }
                            }
                            assert(q =~= rest);
                            assert(false);
                        }
                    }
                }
            } else {
                assert(find_child(Seq::<NodeV>::empty(), q[0]) is None);
                assert(find_child(cs, q[0]) is None);
                assert(leaf_at(cs, q) is None);
                assert(q != rest);
            }
        }
    }
    assert(tv_leaf_at(n.value, q) == tv_leaf_at(inner, q));
    assert(tv_leaf_at(inner, q) == (if q == rest {
        Some(v)
    } else {
        None::<ValueV>
    }));
}

/// What creation does to the stored values: it succeeds exactly when
/// no leaf blocks the path and the full path is not an existing
/// branch, and then the entry's value stands at the full path while
/// every other path keeps its value.
proof fn lemma_create_tvalue_leaf(
    tv: TValueV,
    prefix: Seq<Seq<char>>,
    rest: Seq<Seq<char>>,
    v: ValueV,
    builders: Seq<Builder>,
    q: Seq<Seq<char>>,
)
    ensures
        match spec_create_tvalue(tv, prefix, rest, v, builders) {
            Ok(v2) => tv_leaf_at(v2, q) == if q == rest {
                Some(v)
            } else {
                tv_leaf_at(tv, q)
            },
            Err(_) => true,
        },
    decreases rest.len(), 1int, q.len(),
{
    match spec_create_tvalue(tv, prefix, rest, v, builders) {
        Err(_) => {}
        Ok(v2) => {
            match tv {
                TValueV::Leaf(_) => {
                    assert(rest.len() == 0);
                    assert(v2 == TValueV::Leaf(v));
                    if q.len() == 0 {
                        assert(q =~= rest);
                    }
                }
                TValueV::Branch(ns) => {
                    assert(rest.len() > 0);
                    let ns2 = spec_create_nodes(
                        ns,
                        prefix,
                        rest[0],
                        rest.drop_first(),
                        v,
                        builders,
                    )->Ok_0;
                    assert(v2 == TValueV::Branch(ns2));
                    if q.len() == 0 {
                        assert(q != rest);
                    } else {
                        lemma_create_nodes_leaf(
                            ns,
                            prefix,
                            rest[0],
                            rest.drop_first(),
                            v,
                            builders,
                            q,
                        );
                        assert(seq![rest[0]] + rest.drop_first() =~= rest);
                    }
                }
            }
        }
    }
}

/// What creation does to a node list's stored values, path by path.
proof fn lemma_create_nodes_leaf(
    ns: Seq<NodeV>,
    prefix: Seq<Seq<char>>,
    first: Seq<char>,
    rest: Seq<Seq<char>>,
    v: ValueV,
    builders: Seq<Builder>,
    q: Seq<Seq<char>>,
)
    requires
        q.len() > 0,
    ensures
        match spec_create_nodes(ns, prefix, first, rest, v, builders) {
            Ok(ns2) => leaf_at(ns2, q) == if q == seq![first] + rest {
                Some(v)
            } else {
                leaf_at(ns, q)
            },
            Err(_) => true,
        },
    decreases rest.len(), 3int, q.len(),
{
    let full = seq![first] + rest;
    assert(full[0] == first);
    assert(full.drop_first() =~= rest);
    match spec_create_nodes(ns, prefix, first, rest, v, builders) {
        Err(_) => {}
        Ok(ns2) => {
            match find_index(ns, first) {
                Some(i) => {
                    lemma_find_index(ns, first);
                    let n2 = spec_create_node(ns[i], prefix, rest, v, builders)->Ok_0;
                    assert(ns2 == ns.update(i, n2));
                    lemma_create_node_leaf(ns[i], prefix, rest, v, builders);
                    assert(n2.key == ns[i].key);
                    lemma_find_child_update(ns, i, n2, q[0]);
                    if q[0] == first {
                        assert(find_child(ns2, q[0]) == Some(n2));
                        assert(find_child(ns, q[0]) == Some(ns[i]));
                        lemma_create_node_leaf_at(
                            ns[i],
                            prefix,
                            rest,
                            v,
                            builders,
                            q.drop_first(),
                        );
                        lemma_leaf_at_unfold(ns2, q);
                        lemma_leaf_at_unfold(ns, q);
                        if q == full {
                            assert(q.drop_first() == rest);
                        } else {
                            if q.drop_first() == rest {
                                assert(q =~= full);
                                assert(false);
                            }
                        }
                    } else {
                        assert(find_child(ns2, q[0]) == find_child(ns, q[0]));
                        lemma_leaf_at_unfold(ns2, q);
                        lemma_leaf_at_unfold(ns, q);
                        assert(q != full);
                    }
                }
                None => {
                    lemma_find_index(ns, first);
                    let newn = spec_from_entry(prefix, first, rest, v, builders);
                    assert(ns2 == ns.push(newn));
                    assert(newn.key == first);
                    lemma_find_child_push(ns, newn, q[0]);
                    if q[0] == first {
                        assert(find_child(ns, q[0]) is None);
                        assert(find_child(ns2, q[0]) == Some(newn));
                        lemma_from_entry_leaf(prefix, first, rest, v, builders,
                            q.drop_first());
                        lemma_leaf_at_unfold(ns2, q);
                        lemma_leaf_at_unfold(ns, q);
                        if q == full {
                            assert(q.drop_first() == rest);
                        } else {
                            if q.drop_first() == rest {
                                assert(q =~= full);
                                assert(false);
                            }
                        }
                    } else {
                        assert(find_child(ns2, q[0]) == find_child(ns, q[0]));
                        lemma_leaf_at_unfold(ns2, q);
                        lemma_leaf_at_unfold(ns, q);
                        assert(q != full);
                    }
                }
            }
        }
    }
}

/// `leaf_at` unfolds through the first step of the path.
proof fn lemma_leaf_at_unfold(ns: Seq<NodeV>, q: Seq<Seq<char>>)
    requires
        q.len() > 0,
    ensures
        leaf_at(ns, q) == (match find_child(ns, q[0]) {
            None => None::<ValueV>,
            Some(n) => if q.len() == 1 {
                match n.value {
                    TValueV::Leaf(x) => Some(x),
                    TValueV::Branch(_) => None,
                }
            } else {
                match n.value {
                    TValueV::Branch(ms) => leaf_at(ms, q.drop_first()),
                    TValueV::Leaf(_) => None,
                }
            },
        }),
{
    match find_child(ns, q[0]) {
        None => {}
        Some(n) => {
            if q.len() > 1 {
                match n.value {
                    TValueV::Branch(ms) => {
                        assert(spec_find_node(ns, q) == spec_find_node(
                            ms,
                            q.drop_first(),
                        ));
                    }
                    TValueV::Leaf(_) => {}
                }
            }
        }
    }
}

/// Updating one element moves no other child under `find_child`.
proof fn lemma_find_child_update(ns: Seq<NodeV>, i: int, n2: NodeV, k: Seq<char>)
    requires
        0 <= i < ns.len(),
        n2.key == ns[i].key,
        find_index(ns, ns[i].key) == Some(i),
    ensures
        find_child(ns.update(i, n2), k) == if k == ns[i].key {
            Some(n2)
        } else {
            find_child(ns, k)
        },
    decreases ns.len(),
{
    lemma_find_index(ns, ns[i].key);
    let ns2 = ns.update(i, n2);
    if ns.len() > 0 {
        if i == 0 {
            assert(ns2[0] == n2);
            if k == ns[0].key {
            } else {
                assert(ns2.drop_first() =~= ns.drop_first());
            }
        } else {
            assert(ns2[0] == ns[0]);
            assert(ns2.drop_first() =~= ns.drop_first().update(i - 1, n2));
            if k == ns[0].key {
            } else {
                assert(find_index(ns.drop_first(), ns[i].key) == Some(i - 1)) by {
                    lemma_find_index(ns.drop_first(), ns[i].key);
                    assert(ns.drop_first()[i - 1] == ns[i]);
                    lemma_find_index_shift(ns, ns[i].key);
                }
                assert(ns.drop_first()[i - 1] == ns[i]);
                lemma_find_child_update(ns.drop_first(), i - 1, n2, k);
            }
        }
    }
}

/// The first occurrence after dropping the head shifts by one.
proof fn lemma_find_index_shift(ns: Seq<NodeV>, k: Seq<char>)
    requires
        ns.len() > 0,
        ns[0].key != k,
    ensures
        find_index(ns, k) == (match find_index(ns.drop_first(), k) {
            Some(i) => Some(i + 1),
            None => None::<int>,
        }),
{
}

/// A pushed node is found only when nothing earlier has its key.
proof fn lemma_find_child_push(ns: Seq<NodeV>, n2: NodeV, k: Seq<char>)
    ensures
        find_child(ns.push(n2), k) == (match find_child(ns, k) {
            Some(n) => Some(n),
            None => if k == n2.key {
                Some(n2)
            } else {
                None
            },
        }),
    decreases ns.len(),
{
    let ns2 = ns.push(n2);
    if ns.len() == 0 {
        assert(ns2[0] == n2);
        assert(ns2.drop_first() =~= Seq::<NodeV>::empty());
    } else {
        assert(ns2[0] == ns[0]);
        assert(ns2.drop_first() =~= ns.drop_first().push(n2));
        if ns[0].key != k {
            lemma_find_child_push(ns.drop_first(), n2, k);
        }
    }
}

/// What creation does below one node, path by path.
proof fn lemma_create_node_leaf(
    n: NodeV,
    prefix: Seq<Seq<char>>,
    rest: Seq<Seq<char>>,
    v: ValueV,
    builders: Seq<Builder>,
)
    ensures
        match spec_create_node(n, prefix, rest, v, builders) {
            Ok(n2) => n2.key == n.key,
            Err(_) => true,
        },
{
}

/// The values below a node after a creation through it.
proof fn lemma_create_node_leaf_at(
    n: NodeV,
    prefix: Seq<Seq<char>>,
    rest: Seq<Seq<char>>,
    v: ValueV,
    builders: Seq<Builder>,
    q: Seq<Seq<char>>,
)
    ensures
        match spec_create_node(n, prefix, rest, v, builders) {
            Ok(n2) => tv_leaf_at(n2.value, q) == if q == rest {
                Some(v)
            } else {
                tv_leaf_at(n.value, q)
            },
            Err(_) => true,
        },
    decreases rest.len(), 2int, q.len(),
{
    let title = prefix.push(n.key);
    match spec_create_tvalue(n.value, title, rest, v, builders) {
        Err(_) => {}
        Ok(v2) => {
            let n2 = spec_node_after(n.key, n.widgets, v2, title, builders);
            let run = spec_run_builders(n.key, v2, title, builders);
            lemma_create_tvalue_leaf(n.value, title, rest, v, builders, q);
            if run.0.len() > 0 {
                lemma_strip_leaf_at(v2, q);
                assert(n2.value == spec_strip_tvalue(v2));
            } else {
                assert(n2.value == v2);
            }
        }
    }
}

/// What an update does to the stored values below one node.
pub proof fn lemma_update_node_leaf_at(
    n: NodeV,
    prefix: Seq<Seq<char>>,
    rest: Seq<Seq<char>>,
    v: ValueV,
    builders: Seq<Builder>,
    q: Seq<Seq<char>>,
)
    ensures
        match spec_update_node(n, prefix, rest, v, builders) {
            Ok(n2) => n2.key == n.key && (tv_leaf_at(n2.value, q) == if q == rest {
                Some(v)
            } else {
                tv_leaf_at(n.value, q)
            }),
            Err(_) => true,
        },
    decreases rest.len(), 2int, q.len(),
{
    let title = prefix.push(n.key);
    match spec_update_tvalue(n.value, title, rest, v, builders) {
        Err(_) => {}
        Ok(v2) => {
            let refreshed = n.widgets.map_values(|w: WidgetV| spec_refresh_widget(w, v2));
            let n2 = spec_node_after(n.key, refreshed, v2, title, n.pending);
            let run = spec_run_builders(n.key, v2, title, n.pending);
            lemma_update_tvalue_leaf(n.value, title, rest, v, builders, q);
            if run.0.len() > 0 {
                lemma_strip_leaf_at(v2, q);
                assert(n2.value == spec_strip_tvalue(v2));
            } else {
                assert(n2.value == v2);
            }
        }
    }
}

/// What an update does to the stored values below a value.
pub proof fn lemma_update_tvalue_leaf(
    tv: TValueV,
    prefix: Seq<Seq<char>>,
    rest: Seq<Seq<char>>,
    v: ValueV,
    builders: Seq<Builder>,
    q: Seq<Seq<char>>,
)
    ensures
        match spec_update_tvalue(tv, prefix, rest, v, builders) {
            Ok(v2) => tv_leaf_at(v2, q) == if q == rest {
                Some(v)
            } else {
                tv_leaf_at(tv, q)
            },
            Err(_) => true,
        },
    decreases rest.len(), 1int, q.len(),
{
    match spec_update_tvalue(tv, prefix, rest, v, builders) {
        Err(_) => {}
        Ok(v2) => {
            match tv {
                TValueV::Leaf(_) => {
                    assert(rest.len() == 0);
                    assert(v2 == TValueV::Leaf(v));
                    if q.len() == 0 {
                        assert(q =~= rest);
                    }
                }
                TValueV::Branch(ns) => {
                    assert(rest.len() > 0);
                    let ns2 = spec_update_nodes(
                        ns,
                        prefix,
                        rest[0],
                        rest.drop_first(),
                        v,
                        builders,
                    )->Ok_0;
                    assert(v2 == TValueV::Branch(ns2));
                    if q.len() == 0 {
                        assert(q != rest);
                    } else {
                        lemma_update_nodes_leaf(
                            ns,
                            prefix,
                            rest[0],
                            rest.drop_first(),
                            v,
                            builders,
                            q,
                        );
                        assert(seq![rest[0]] + rest.drop_first() =~= rest);
                    }
                }
            }
        }
    }
}

/// What an update does to a node list's stored values: the updated
/// path carries the latest write, every other path keeps its value.
pub proof fn lemma_update_nodes_leaf(
    ns: Seq<NodeV>,
    prefix: Seq<Seq<char>>,
    first: Seq<char>,
    rest: Seq<Seq<char>>,
    v: ValueV,
    builders: Seq<Builder>,
    q: Seq<Seq<char>>,
)
    requires
        q.len() > 0,
    ensures
        match spec_update_nodes(ns, prefix, first, rest, v, builders) {
            Ok(ns2) => leaf_at(ns2, q) == if q == seq![first] + rest {
                Some(v)
            } else {
                leaf_at(ns, q)
            },
            Err(_) => true,
        },
    decreases rest.len(), 3int, q.len(),
{
    let full = seq![first] + rest;
    assert(full[0] == first);
    assert(full.drop_first() =~= rest);
    match spec_update_nodes(ns, prefix, first, rest, v, builders) {
        Err(_) => {}
        Ok(ns2) => {
            match find_index(ns, first) {
                Some(i) => {
                    lemma_find_index(ns, first);
                    let n2 = spec_update_node(ns[i], prefix, rest, v, builders)->Ok_0;
                    assert(ns2 == ns.update(i, n2));
                    lemma_update_node_leaf_at(ns[i], prefix, rest, v, builders,
                        q.drop_first());
                    assert(n2.key == ns[i].key);
                    lemma_find_child_update(ns, i, n2, q[0]);
                    if q[0] == first {
                        assert(find_child(ns2, q[0]) == Some(n2));
                        assert(find_child(ns, q[0]) == Some(ns[i]));
                        lemma_leaf_at_unfold(ns2, q);
                        lemma_leaf_at_unfold(ns, q);
                        if q == full {
                            assert(q.drop_first() == rest);
                        } else {
                            if q.drop_first() == rest {
                                assert(q =~= full);
                                assert(false);
                            }
                        }
                    } else {
                        assert(find_child(ns2, q[0]) == find_child(ns, q[0]));
                        lemma_leaf_at_unfold(ns2, q);
                        lemma_leaf_at_unfold(ns, q);
                        assert(q != full);
                    }
                }
                None => {}
            }
        }
    }
}

/// The path descends below an existing leaf: a shape conflict no
/// creation may coerce.
pub open spec fn blocked_by_leaf(ns: Seq<NodeV>, path: Seq<Seq<char>>) -> bool
    decreases path.len(),
{
    if path.len() == 0 {
        false
    } else {
        match find_child(ns, path[0]) {
            None => false,
            Some(n) => if path.len() == 1 {
                false
            } else {
                match n.value {
                    TValueV::Leaf(_) => true,
                    TValueV::Branch(ms) => blocked_by_leaf(ms, path.drop_first()),
                }
            },
        }
    }
}

/// The full path names an existing branch.
pub open spec fn branch_at(ns: Seq<NodeV>, path: Seq<Seq<char>>) -> bool {
    spec_find_node(ns, path) matches Some(n) && n.value is Branch
}

/// A creation succeeds exactly when no existing leaf blocks the path
/// and the full path is not an existing branch; a blocking leaf is
/// reported as such, a branch at the full path likewise.
pub proof fn lemma_create_ok_iff(
    ns: Seq<NodeV>,
    prefix: Seq<Seq<char>>,
    first: Seq<char>,
    rest: Seq<Seq<char>>,
    v: ValueV,
    builders: Seq<Builder>,
)
    ensures
        ({
            let full = seq![first] + rest;
            let r = spec_create_nodes(ns, prefix, first, rest, v, builders);
            &&& (r is Ok <==> !blocked_by_leaf(ns, full) && !branch_at(ns, full))
            &&& (blocked_by_leaf(ns, full) ==> r == Err::<Seq<NodeV>, Error>(
                Error::ExpectedBranch,
            ))
            &&& (!blocked_by_leaf(ns, full) && branch_at(ns, full) ==> r == Err::<
                Seq<NodeV>,
                Error,
            >(Error::ExpectedValue))
        }),
    decreases rest.len(), 3int,
{
    let full = seq![first] + rest;
    assert(full[0] == first);
    assert(full.drop_first() =~= rest);
    lemma_find_index(ns, first);
    lemma_find_node_unfold(ns, full);
    match find_index(ns, first) {
        None => {
            assert(find_child(ns, first) is None);
        }
        Some(i) => {
            let n = ns[i];
            let title = prefix.push(n.key);
            match n.value {
                TValueV::Leaf(_) => {
                    if rest.len() == 0 {
                        assert(full.len() == 1);
                        assert(spec_find_node(ns, full) == Some(n));
                    }
                }
                TValueV::Branch(ms) => {
                    if rest.len() == 0 {
                        assert(full.len() == 1);
                        assert(spec_find_node(ns, full) == Some(n));
                    } else {
                        assert(seq![rest[0]] + rest.drop_first() =~= rest);
                        lemma_create_ok_iff(
                            ms,
                            title,
                            rest[0],
                            rest.drop_first(),
                            v,
                            builders,
                        );
                    }
                }
            }
        }
    }
}

/// An update succeeds exactly when the full path already names a leaf.
pub proof fn lemma_update_ok_iff(
    ns: Seq<NodeV>,
    prefix: Seq<Seq<char>>,
    first: Seq<char>,
    rest: Seq<Seq<char>>,
    v: ValueV,
    builders: Seq<Builder>,
)
    ensures
        spec_update_nodes(ns, prefix, first, rest, v, builders) is Ok <==> leaf_at(
            ns,
            seq![first] + rest,
        ) is Some,
    decreases rest.len(), 3int,
{
    let full = seq![first] + rest;
    assert(full[0] == first);
    assert(full.drop_first() =~= rest);
    lemma_find_index(ns, first);
    lemma_leaf_at_unfold(ns, full);
    match find_index(ns, first) {
        None => {}
        Some(i) => {
            let n = ns[i];
            let title = prefix.push(n.key);
            match n.value {
                TValueV::Leaf(_) => {
                    if rest.len() == 0 {
                        assert(full.len() == 1);
                    }
                }
                TValueV::Branch(ms) => {
                    if rest.len() == 0 {
                        assert(full.len() == 1);
                    } else {
                        lemma_update_ok_iff(
                            ms,
                            title,
                            rest[0],
                            rest.drop_first(),
                            v,
                            builders,
                        );
                        assert(seq![rest[0]] + rest.drop_first() =~= rest);
                    }
                }
            }
        }
    }
}

/// The traversal runs into a missing child before any shape conflict.
pub open spec fn walk_misses(ns: Seq<NodeV>, path: Seq<Seq<char>>) -> bool
    decreases path.len(),
{
    if path.len() == 0 {
        false
    } else {
        match find_child(ns, path[0]) {
            None => true,
            Some(n) => if path.len() == 1 {
                false
            } else {
                match n.value {
                    TValueV::Branch(ms) => walk_misses(ms, path.drop_first()),
                    TValueV::Leaf(_) => false,
                }
            },
        }
    }
}

/// An update whose path runs into a missing node is rejected as such,
/// and (by the update contract) leaves the mirror unchanged.
pub proof fn lemma_update_missing_ancestor(
    ns: Seq<NodeV>,
    prefix: Seq<Seq<char>>,
    first: Seq<char>,
    rest: Seq<Seq<char>>,
    v: ValueV,
    builders: Seq<Builder>,
)
    requires
        walk_misses(ns, seq![first] + rest),
    ensures
        spec_update_nodes(ns, prefix, first, rest, v, builders) == Err::<
            Seq<NodeV>,
            Error,
        >(Error::NoSuchEntry),
    decreases rest.len(),
{
    let full = seq![first] + rest;
    assert(full[0] == first);
    assert(full.drop_first() =~= rest);
    lemma_find_index(ns, first);
    match find_index(ns, first) {
        None => {}
        Some(i) => {
            let n = ns[i];
            let title = prefix.push(n.key);
            assert(full.len() > 1);
            match n.value {
                TValueV::Branch(ms) => {
                    assert(seq![rest[0]] + rest.drop_first() =~= rest);
                    lemma_update_missing_ancestor(
                        ms,
                        title,
                        rest[0],
                        rest.drop_first(),
                        v,
                        builders,
                    );
                }
                TValueV::Leaf(_) => {
                    assert(false);
                }
            }
        }
    }
}

/// Creating an entry and then updating the same path with another
/// value leaves that path holding the latest write and every other
/// path holding what it held before either call.
pub proof fn lemma_create_then_update(
    ns: Seq<NodeV>,
    prefix: Seq<Seq<char>>,
    first: Seq<char>,
    rest: Seq<Seq<char>>,
    v1: ValueV,
    v2: ValueV,
    builders: Seq<Builder>,
    q: Seq<Seq<char>>,
)
    requires
        q.len() > 0,
        spec_create_nodes(ns, prefix, first, rest, v1, builders) is Ok,
        ({
            let ns1 = spec_create_nodes(ns, prefix, first, rest, v1, builders)->Ok_0;
            spec_update_nodes(ns1, prefix, first, rest, v2, builders) is Ok
        }),
    ensures
        ({
            let ns1 = spec_create_nodes(ns, prefix, first, rest, v1, builders)->Ok_0;
            let ns2 = spec_update_nodes(ns1, prefix, first, rest, v2, builders)->Ok_0;
            leaf_at(ns2, q) == if q == seq![first] + rest {
                Some(v2)
            } else {
                leaf_at(ns, q)
            }
        }),
{
    let ns1 = spec_create_nodes(ns, prefix, first, rest, v1, builders)->Ok_0;
    lemma_create_nodes_leaf(ns, prefix, first, rest, v1, builders, q);
    lemma_update_nodes_leaf(ns1, prefix, first, rest, v2, builders, q);
}

/// The widgets of the node a path leads to; an absent node shows none.
pub open spec fn node_widgets_at(ns: Seq<NodeV>, q: Seq<Seq<char>>) -> Seq<WidgetV> {
    match spec_find_node(ns, q) {
        Some(n) => n.widgets,
        None => Seq::empty(),
    }
}

/// No still-pending builder completes anywhere along the updated
/// path, so no widget below it is hidden by a fresh recognition.
pub open spec fn nc_update_nodes(
    ns: Seq<NodeV>,
    prefix: Seq<Seq<char>>,
    first: Seq<char>,
    rest: Seq<Seq<char>>,
    v: ValueV,
    builders: Seq<Builder>,
) -> bool
    decreases rest.len(), 3int,
{
    match find_index(ns, first) {
        None => true,
        Some(i) => nc_update_node(ns[i], prefix, rest, v, builders),
    }
}

/// The node's own pending builders stay pending or drop out, and the
/// same holds below.
pub open spec fn nc_update_node(
    n: NodeV,
    prefix: Seq<Seq<char>>,
    rest: Seq<Seq<char>>,
    v: ValueV,
    builders: Seq<Builder>,
) -> bool
    decreases rest.len(), 2int,
{
    let title = prefix.push(n.key);
    match spec_update_tvalue(n.value, title, rest, v, builders) {
        Err(_) => true,
        Ok(v2) => spec_run_builders(n.key, v2, title, n.pending).0.len() == 0
            && nc_update_tvalue(n.value, title, rest, v, builders),
    }
}

/// As `nc_update_nodes`, below a node's value.
pub open spec fn nc_update_tvalue(
    tv: TValueV,
    prefix: Seq<Seq<char>>,
    rest: Seq<Seq<char>>,
    v: ValueV,
    builders: Seq<Builder>,
) -> bool
    decreases rest.len(), 1int,
{
    match tv {
        TValueV::Leaf(_) => true,
        TValueV::Branch(ns) => if rest.len() == 0 {
            true
        } else {
            nc_update_nodes(ns, prefix, rest[0], rest.drop_first(), v, builders)
        },
    }
}

/// `spec_find_node` unfolds through the first step of the path.
proof fn lemma_find_node_unfold(ns: Seq<NodeV>, q: Seq<Seq<char>>)
    requires
        q.len() > 0,
    ensures
        spec_find_node(ns, q) == (match find_child(ns, q[0]) {
            None => None::<NodeV>,
            Some(n) => if q.len() == 1 {
                Some(n)
            } else {
                match n.value {
                    TValueV::Branch(ms) => spec_find_node(ms, q.drop_first()),
                    TValueV::Leaf(_) => None,
                }
            },
        }),
{
}

/// An update that completes no pending builder leaves the widgets of
/// every path that is not a prefix of the updated path exactly as they
/// were: only the updated path's ancestors refresh their widgets.
pub proof fn lemma_update_keeps_unrelated_widgets(
    ns: Seq<NodeV>,
    prefix: Seq<Seq<char>>,
    first: Seq<char>,
    rest: Seq<Seq<char>>,
    v: ValueV,
    builders: Seq<Builder>,
    q: Seq<Seq<char>>,
)
    requires
        spec_update_nodes(ns, prefix, first, rest, v, builders) is Ok,
        nc_update_nodes(ns, prefix, first, rest, v, builders),
        !q.is_prefix_of(seq![first] + rest),
    ensures
        node_widgets_at(
            spec_update_nodes(ns, prefix, first, rest, v, builders)->Ok_0,
            q,
        ) == node_widgets_at(ns, q),
    decreases rest.len(), 3int,
{
    broadcast use vstd::seq_lib::group_seq_properties;

    let full = seq![first] + rest;
    assert(full[0] == first);
    assert(full.drop_first() =~= rest);
    let ns2 = spec_update_nodes(ns, prefix, first, rest, v, builders)->Ok_0;
    if q.len() == 0 {
        assert(q.is_prefix_of(full)) by {
            assert(q =~= full.take(0));
        }
        assert(false);
    }
    lemma_find_index(ns, first);
    let i = find_index(ns, first)->0;
    let n = ns[i];
    let title = prefix.push(n.key);
    let v2 = spec_update_tvalue(n.value, title, rest, v, builders)->Ok_0;
    let refreshed = n.widgets.map_values(|w: WidgetV| spec_refresh_widget(w, v2));
    let n2 = spec_node_after(n.key, refreshed, v2, title, n.pending);
    assert(ns2 == ns.update(i, n2));
    assert(n2.value == v2);
    lemma_find_child_update(ns, i, n2, q[0]);
    lemma_find_node_unfold(ns, q);
    lemma_find_node_unfold(ns2, q);
    if q[0] != first {
        assert(find_child(ns2, q[0]) == find_child(ns, q[0]));
        match find_child(ns, q[0]) {
            None => {}
            Some(m) => {
                if q.len() > 1 {
                    assert(spec_find_node(ns2, q) == spec_find_node(ns, q));
                }
            }
        }
    } else {
        assert(find_child(ns2, q[0]) == Some(n2));
        assert(find_child(ns, q[0]) == Some(n));
        if q.len() == 1 {
            assert(q =~= full.take(1));
            assert(q.is_prefix_of(full));
            assert(false);
        }
        if rest.len() == 0 {
            match n.value {
                TValueV::Leaf(_) => {
                    assert(v2 == TValueV::Leaf(v));
                    assert(spec_find_node(ns2, q) is None);
                    assert(spec_find_node(ns, q) is None);
                }
                TValueV::Branch(_) => {
                    assert(false);
                }
            }
        } else {
            match n.value {
                TValueV::Leaf(_) => {
                    assert(false);
                }
                TValueV::Branch(ms) => {
                    let ms2 = spec_update_nodes(
                        ms,
                        title,
                        rest[0],
                        rest.drop_first(),
                        v,
                        builders,
                    )->Ok_0;
                    assert(v2 == TValueV::Branch(ms2));
                    assert(seq![rest[0]] + rest.drop_first() =~= rest);
                    assert(!q.drop_first().is_prefix_of(rest)) by {
                        if q.drop_first().is_prefix_of(rest) {
                            assert(q.drop_first() =~= rest.take(q.len() - 1));
                            assert(q =~= full.take(q.len() as int)) by {
                                assert forall|ii: int| 0 <= ii < q.len() implies q[ii]
                                    == full[ii] by {
                                    if ii > 0 {
                                        assert(q[ii] == q.drop_first()[ii - 1]);
                                        assert(q.drop_first()[ii - 1] == rest[ii - 1]);
                                        assert(full[ii] == rest[ii - 1]);
                                    }
                                }
                            }
                            assert(q.is_prefix_of(full));
                            assert(false);
                        }
                    }
                    lemma_update_keeps_unrelated_widgets(
                        ms,
                        title,
                        rest[0],
                        rest.drop_first(),
                        v,
                        builders,
                        q.drop_first(),
                    );
                    assert(spec_find_node(ns2, q) == spec_find_node(ms2, q.drop_first()));
                    assert(spec_find_node(ns, q) == spec_find_node(ms, q.drop_first()));
                }
            }
        }
    }
}

/// A pending builder that now recognizes the subtree contributes its
/// widget.
pub proof fn lemma_run_builders_complete(
    key: Seq<char>,
    v: TValueV,
    title: Seq<Seq<char>>,
    pending: Seq<Builder>,
    b: Builder,
)
    requires
        pending.contains(b),
        crate::widgets::spec_create_kind(b, key, v) is Complete,
    ensures
        spec_run_builders(key, v, title, pending).0.contains(
            WidgetV {
                title,
                kind: crate::widgets::spec_create_kind(b, key, v)->Complete_0,
            },
        ),
    decreases pending.len(),
{
    let run = spec_run_builders(key, v, title, pending);
    let w = WidgetV { title, kind: crate::widgets::spec_create_kind(b, key, v)->Complete_0 };
    if pending[0] == b {
        assert(run.0[0] == w);
        assert(run.0.contains(w));
    } else {
        let j = choose|j: int| 0 <= j < pending.len() && pending[j] == b;
        assert(pending.drop_first()[j - 1] == b);
        assert(pending.drop_first().contains(b));
        lemma_run_builders_complete(key, v, title, pending.drop_first(), b);
        let rest = spec_run_builders(key, v, title, pending.drop_first());
        let k = choose|k: int| 0 <= k < rest.0.len() && rest.0[k] == w;
        match crate::widgets::spec_create_kind(pending[0], key, v) {
            crate::widgets::BuildResultV::Complete(_) => {
                assert(run.0[k + 1] == w);
                assert(run.0.contains(w));
            }
            crate::widgets::BuildResultV::Partial(_) => {
                assert(run.0[k] == w);
                assert(run.0.contains(w));
            }
            crate::widgets::BuildResultV::NoMatch => {
                assert(run.0[k] == w);
                assert(run.0.contains(w));
            }
        }
    }
}

/// Stripping widgets does not change what the chooser recognizer sees:
/// it reads leaves only.
pub proof fn lemma_chooser_strip(v: TValueV)
    ensures
        crate::chooser::spec_chooser(spec_strip_tvalue(v)) == crate::chooser::spec_chooser(
            v,
        ),
{
    match v {
        TValueV::Leaf(_) => {}
        TValueV::Branch(ns) => {
            lemma_find_child_strip(ns, ".type"@);
            lemma_find_child_strip(ns, "options"@);
            lemma_find_child_strip(ns, "selected"@);
            lemma_find_child_strip(ns, "default"@);
            assert(child_leaf(spec_strip_nodes(ns), ".type"@) == child_leaf(ns, ".type"@));
            assert(child_leaf(spec_strip_nodes(ns), "options"@) == child_leaf(
                ns,
                "options"@,
            ));
            assert(child_leaf(spec_strip_nodes(ns), "selected"@) == child_leaf(
                ns,
                "selected"@,
            ));
            assert(child_leaf(spec_strip_nodes(ns), "default"@) == child_leaf(
                ns,
                "default"@,
            ));
        }
    }
}

/// A node whose chooser builder was still pending materializes a
/// chooser widget as soon as an update below it makes the subtree a
/// well-formed chooser.
pub proof fn lemma_chooser_completes_on_update(
    ns: Seq<NodeV>,
    prefix: Seq<Seq<char>>,
    first: Seq<char>,
    rest: Seq<Seq<char>>,
    v: ValueV,
    builders: Seq<Builder>,
)
    requires
        spec_update_nodes(ns, prefix, first, rest, v, builders) is Ok,
        find_index(ns, first) matches Some(i) && ns[i].pending.contains(Builder::Chooser),
        ({
            let ns2 = spec_update_nodes(ns, prefix, first, rest, v, builders)->Ok_0;
            let i = find_index(ns, first)->0;
            crate::chooser::spec_chooser(ns2[i].value) is Ok
        }),
    ensures
        ({
            let ns2 = spec_update_nodes(ns, prefix, first, rest, v, builders)->Ok_0;
            let i = find_index(ns, first)->0;
            ns2[i].widgets.contains(
                WidgetV {
                    title: prefix.push(first),
                    kind: crate::widgets::KindV::Chooser(
                        crate::chooser::spec_chooser(ns2[i].value)->Ok_0,
                    ),
                },
            )
        }),
{
    let ns2 = spec_update_nodes(ns, prefix, first, rest, v, builders)->Ok_0;
    let i = find_index(ns, first)->0;
    lemma_find_index(ns, first);
    let n = ns[i];
    let title = prefix.push(n.key);
    let v2 = spec_update_tvalue(n.value, title, rest, v, builders)->Ok_0;
    let refreshed = n.widgets.map_values(|w: WidgetV| spec_refresh_widget(w, v2));
    let n2 = spec_node_after(n.key, refreshed, v2, title, n.pending);
    assert(ns2 == ns.update(i, n2));
    assert(ns2[i] == n2);
    let run = spec_run_builders(n.key, v2, title, n.pending);
    if run.0.len() > 0 {
        lemma_chooser_strip(v2);
        assert(n2.value == spec_strip_tvalue(v2));
    } else {
        assert(n2.value == v2);
    }
    assert(crate::chooser::spec_chooser(v2) == crate::chooser::spec_chooser(n2.value));
    assert(crate::widgets::spec_create_kind(Builder::Chooser, n.key, v2)
        == crate::widgets::BuildResultV::Complete(
        crate::widgets::KindV::Chooser(crate::chooser::spec_chooser(v2)->Ok_0),
    ));
    lemma_run_builders_complete(n.key, v2, title, n.pending, Builder::Chooser);
    let w = WidgetV {
        title,
        kind: crate::widgets::KindV::Chooser(crate::chooser::spec_chooser(v2)->Ok_0),
    };
    let k = choose|k: int| 0 <= k < run.0.len() && run.0[k] == w;
    assert(n2.widgets == refreshed + run.0);
    assert(n2.widgets[refreshed.len() + k] == w);
    assert(n2.widgets.contains(w));
}

/// No still-pending builder completes at any node strictly shallower
/// than depth `k` on the updated path.  A completion there would hide
/// every widget below it, including one materializing at depth `k`.
pub open spec fn nc_update_above(
    ns: Seq<NodeV>,
    prefix: Seq<Seq<char>>,
    first: Seq<char>,
    rest: Seq<Seq<char>>,
    v: ValueV,
    builders: Seq<Builder>,
    k: int,
) -> bool
    decreases k,
{
    if k <= 1 {
        true
    } else {
        match find_index(ns, first) {
            None => true,
            Some(i) => {
                let n = ns[i];
                let title = prefix.push(n.key);
                match spec_update_tvalue(n.value, title, rest, v, builders) {
                    Err(_) => true,
                    Ok(v2) => spec_run_builders(n.key, v2, title, n.pending).0.len() == 0
                        && (match n.value {
                        TValueV::Branch(ms) => if rest.len() > 0 {
                            nc_update_above(
                                ms,
                                title,
                                rest[0],
                                rest.drop_first(),
                                v,
                                builders,
                                k - 1,
                            )
                        } else {
                            true
                        },
                        TValueV::Leaf(_) => true,
                    }),
                }
            },
        }
    }
}

/// The general form of the chooser-completion law: a node at any depth
/// `k` along the updated path whose chooser builder was still pending
/// materializes a chooser widget as soon as the update makes its
/// subtree a well-formed chooser, provided no node above it on the
/// path completes in the same step (such a completion would hide it).
pub proof fn lemma_chooser_completes_on_update_deep(
    ns: Seq<NodeV>,
    prefix: Seq<Seq<char>>,
    first: Seq<char>,
    rest: Seq<Seq<char>>,
    v: ValueV,
    builders: Seq<Builder>,
    k: int,
)
    requires
        spec_update_nodes(ns, prefix, first, rest, v, builders) is Ok,
        1 <= k <= (seq![first] + rest).len(),
        ({
            let ap = (seq![first] + rest).take(k);
            spec_find_node(ns, ap) matches Some(x) && x.pending.contains(Builder::Chooser)
        }),
        ({
            let ns2 = spec_update_nodes(ns, prefix, first, rest, v, builders)->Ok_0;
            let ap = (seq![first] + rest).take(k);
            spec_find_node(ns2, ap) matches Some(x2) && crate::chooser::spec_chooser(
                x2.value,
            ) is Ok
        }),
        nc_update_above(ns, prefix, first, rest, v, builders, k),
    ensures
        ({
            let ns2 = spec_update_nodes(ns, prefix, first, rest, v, builders)->Ok_0;
            let ap = (seq![first] + rest).take(k);
            let x2 = spec_find_node(ns2, ap)->0;
            x2.widgets.contains(
                WidgetV {
                    title: prefix + ap,
                    kind: crate::widgets::KindV::Chooser(
                        crate::chooser::spec_chooser(x2.value)->Ok_0,
                    ),
                },
            )
        }),
    decreases k,
{
    let full = seq![first] + rest;
    let ap = full.take(k);
    assert(full[0] == first);
    assert(full.drop_first() =~= rest);
    assert(ap[0] == first);
    let ns2 = spec_update_nodes(ns, prefix, first, rest, v, builders)->Ok_0;
    lemma_find_index(ns, first);
    let i = find_index(ns, first)->0;
    let n = ns[i];
    let title = prefix.push(n.key);
    let v2 = spec_update_tvalue(n.value, title, rest, v, builders)->Ok_0;
    let refreshed = n.widgets.map_values(|w: WidgetV| spec_refresh_widget(w, v2));
    let n2 = spec_node_after(n.key, refreshed, v2, title, n.pending);
    assert(ns2 == ns.update(i, n2));
    lemma_find_child_update(ns, i, n2, first);
    lemma_find_node_unfold(ns, ap);
    lemma_find_node_unfold(ns2, ap);
    assert(find_child(ns, first) == Some(n));
    assert(find_child(ns2, first) == Some(n2));
    if k == 1 {
        assert(ap =~= seq![first]);
        assert(spec_find_node(ns, ap) == Some(n));
        assert(spec_find_node(ns2, ap) == Some(n2));
        lemma_chooser_completes_on_update(ns, prefix, first, rest, v, builders);
        assert(prefix + ap =~= prefix.push(first));
    } else {
        assert(rest.len() >= 1);
        let run = spec_run_builders(n.key, v2, title, n.pending);
        assert(run.0.len() == 0);
        assert(n2.value == v2);
        match n.value {
            TValueV::Leaf(_) => {
                assert(spec_find_node(ns, ap) is None);
                assert(false);
            }
            TValueV::Branch(ms) => {
                let ms2 = spec_update_nodes(
                    ms,
                    title,
                    rest[0],
                    rest.drop_first(),
                    v,
                    builders,
                )->Ok_0;
                assert(v2 == TValueV::Branch(ms2));
                assert(seq![rest[0]] + rest.drop_first() =~= rest);
                let ap2 = rest.take(k - 1);
                assert(ap.drop_first() =~= ap2);
                assert(spec_find_node(ns, ap) == spec_find_node(ms, ap2));
                assert(spec_find_node(ns2, ap) == spec_find_node(ms2, ap2));
                lemma_chooser_completes_on_update_deep(
                    ms,
                    title,
                    rest[0],
                    rest.drop_first(),
                    v,
                    builders,
                    k - 1,
                );
                assert(title + ap2 =~= prefix + ap);
            }
        }
    }
}

} // verus!
