//! The values exchanged with the backend: entries, batched updates,
//! connectivity status, and outgoing writes; plus the bookkeeping that
//! tells a first sighting of a path from a repeat.
//!
//! The backend itself — the task that owns the network connection —
//! lives outside this crate and exchanges these plain values with it.

use vstd::prelude::*;

use crate::path::Path;
use crate::tabs::Filter;
use crate::tabs::FilterV;
use crate::value::Value;
use crate::value::ValueV;

verus! {

broadcast use vstd::seq::group_seq_axioms, vstd::seq_lib::group_seq_lib_default;

/// One observed or desired table cell: a path and its value.
#[derive(Debug)]
pub struct Entry {
    pub path: Path,
    pub value: Value,
}

/// The mathematical shape of an entry.
#[verifier::ext_equal]
pub struct EntryV {
    pub path: Seq<Seq<char>>,
    pub value: ValueV,
}

impl View for Entry {
    type V = EntryV;

    open spec fn view(&self) -> EntryV {
        EntryV { path: self.path@, value: self.value@ }
    }
}

impl Clone for Entry {
    fn clone(&self) -> (r: Entry)
        ensures
            r@ == self@,
    {
        Entry { path: self.path.clone(), value: self.value.duplicate() }
    }
}

/// The views of a sequence of entries, elementwise.
pub open spec fn entries_view(s: Seq<Entry>) -> Seq<EntryV> {
    s.map_values(|e: Entry| e@)
}

/// A batch of drained entries, split into paths seen before and paths
/// sighted for the first time.
pub struct Update {
    pub to_update: Vec<Entry>,
    pub to_create: Vec<Entry>,
}

impl Update {
    /// An empty batch.
    pub fn new() -> (r: Update)
        ensures
            entries_view(r.to_update@) == Seq::<EntryV>::empty(),
            entries_view(r.to_create@) == Seq::<EntryV>::empty(),
    {
        let r = Update { to_update: Vec::new(), to_create: Vec::new() };
        proof {
            assert(entries_view(r.to_update@) =~= Seq::<EntryV>::empty());
            assert(entries_view(r.to_create@) =~= Seq::<EntryV>::empty());
        }
        r
    }

    /// Files one drained entry: a first sighting is a creation, a
    /// repeat is an update.
    pub fn push(&mut self, entry: Entry, is_new: bool)
        ensures
            is_new ==> entries_view(final(self).to_create@) == entries_view(
                old(self).to_create@,
            ).push(entry@) && final(self).to_update@ == old(self).to_update@,
            !is_new ==> entries_view(final(self).to_update@) == entries_view(
                old(self).to_update@,
            ).push(entry@) && final(self).to_create@ == old(self).to_create@,
    {
        let ghost e = entry@;
        if is_new {
            let ghost before = self.to_create@;
            self.to_create.push(entry);
            proof {
                assert(entries_view(self.to_create@) =~= entries_view(before).push(e));
            }
        } else {
            let ghost before = self.to_update@;
            self.to_update.push(entry);
            proof {
                assert(entries_view(self.to_update@) =~= entries_view(before).push(e));
            }
        }
    }
}

/// The last known connectivity state.
#[derive(Clone, Copy, Debug, PartialEq, Eq, Structural)]
pub struct Status {
    pub is_connected: bool,
}

impl Default for Status {
    /// Before anything is heard from the backend, it counts as
    /// disconnected.
    fn default() -> (r: Status)
        ensures
            !r.is_connected,
    {
        Status { is_connected: false }
    }
}

/// A change of connectivity state.
#[derive(Clone, Copy, Debug, PartialEq, Eq, Structural)]
pub enum StatusUpdate {
    IsConnectedChange(bool),
}

impl Status {
    /// Applies a connectivity change.
    pub fn update(&mut self, update: StatusUpdate)
        ensures
            final(self).is_connected == match update {
                StatusUpdate::IsConnectedChange(b) => b,
            },
    {
        match update {
            StatusUpdate::IsConnectedChange(is_connected) => {
                self.is_connected = is_connected;
            }
        }
    }
}

/// A batch of outgoing entries, with an optional request to restrict
/// the visible widget set.
#[derive(Debug)]
pub struct Write {
    entries: Vec<Entry>,
    filter: Option<Filter>,
}

/// The mathematical shape of a write.
#[verifier::ext_equal]
pub struct WriteV {
    pub entries: Seq<EntryV>,
    pub filter: Option<FilterV>,
}

impl View for Write {
    type V = WriteV;

    closed spec fn view(&self) -> WriteV {
        WriteV {
            entries: entries_view(self.entries@),
            filter: match self.filter {
                Some(f) => Some(f@),
                None => None,
            },
        }
    }
}

impl Default for Write {
    /// A write that carries nothing.
    fn default() -> (r: Write)
        ensures
            r@.entries == Seq::<EntryV>::empty(),
            r@.filter is None,
    {
        let r = Write { entries: Vec::new(), filter: None };
        proof {
            assert(r@.entries =~= Seq::<EntryV>::empty());
        }
        r
    }
}

impl Write {
    /// A write of a single entry.
    pub fn one(entry: Entry) -> (r: Write)
        ensures
            r@.entries == seq![entry@],
            r@.filter is None,
    {
        let ghost e = entry@;
        let mut entries: Vec<Entry> = Vec::new();
        entries.push(entry);
        let r = Write { entries, filter: None };
        proof {
            assert(r@.entries =~= seq![e]);
        }
        r
    }

    /// A write that only changes the visible widget set.
    pub fn filter(filter: Filter) -> (r: Write)
        ensures
            r@.entries == Seq::<EntryV>::empty(),
            r@.filter == Some(filter@),
    {
        let r = Write { entries: Vec::new(), filter: Some(filter) };
        proof {
            assert(r@.entries =~= Seq::<EntryV>::empty());
        }
        r
    }

    /// The entries to be sent.
    pub fn entries(&self) -> (r: &Vec<Entry>)
        ensures
            entries_view(r@) == self@.entries,
    {
        &self.entries
    }

    /// Takes the entries out, leaving the filter behind.
    pub fn into_entries(self) -> (r: Vec<Entry>)
        ensures
            entries_view(r@) == self@.entries,
    {
        let Write { entries, filter } = self;
        entries
    }

    /// The filter directive, if the write carries one.
    pub fn try_filter(&self) -> (r: Option<Filter>)
        ensures
            match r {
                Some(f) => self@.filter == Some(f@),
                None => self@.filter is None,
            },
    {
        match &self.filter {
            Some(f) => Some(f.clone()),
            None => None,
        }
    }
}

/// What a backend looks like to the application loop: a non-blocking
/// drain of inbound entries, a fire-and-forget write, and the last
/// known connectivity state.  Implementations live outside this crate;
/// nothing is assumed about them.
pub trait Backend {
    fn update(&mut self) -> Update;

    fn write(&mut self, entries: Vec<Entry>);

    fn status(&self) -> Status;
}

/// The paths this façade has already seen, for telling creations from
/// updates.
#[derive(Debug)]
pub struct SeenPaths {
    paths: Vec<Path>,
}

impl View for SeenPaths {
    type V = Seq<Seq<Seq<char>>>;

    closed spec fn view(&self) -> Seq<Seq<Seq<char>>> {
        self.paths@.map_values(|p: Path| p@)
    }
}

impl SeenPaths {
    /// No path seen yet.
    pub fn new() -> (r: SeenPaths)
        ensures
            r@ == Seq::<Seq<Seq<char>>>::empty(),
    {
        let r = SeenPaths { paths: Vec::new() };
        proof {
            assert(r@ =~= Seq::<Seq<Seq<char>>>::empty());
        }
        r
    }

    /// Records a sighting.  The result says whether the path is new;
    /// a new path is remembered.
    pub fn insert_check(&mut self, path: &Path) -> (is_new: bool)
        ensures
            is_new == !old(self)@.contains(path@),
            is_new ==> final(self)@ == old(self)@.push(path@),
            !is_new ==> final(self)@ == old(self)@,
    {
        let mut i: usize = 0;
        while i < self.paths.len()
            invariant
                i <= self.paths@.len(),
                self@ == old(self)@,
                self@.len() == self.paths@.len(),
                forall|j: int| 0 <= j < self.paths@.len() ==> self@[j] == self.paths@[j]@,
                forall|j: int| 0 <= j < i ==> self@[j] != path@,
            decreases self.paths@.len() - i,
        {
            if self.paths[i] == *path {
                proof {
                    assert(self@[i as int] == path@);
                    assert(old(self)@.contains(path@));
                }
                return false;
            }
            i = i + 1;
        }
        proof {
            if old(self)@.contains(path@) {
                let j = choose|j: int| 0 <= j < old(self)@.len() && old(self)@[j] == path@;
                assert(false);
            }
        }
        let ghost before = self@;
        self.paths.push(path.clone());
        proof {
            assert(self@ =~= before.push(path@));
        }
        true
    }
}

} // verus!
