//! The chooser widget: a subtree published by the remote peer that
//! offers a list of options, a default, and optionally a current
//! selection; an edit publishes the chosen option back.

use vstd::prelude::*;

use crate::backend::Entry;
use crate::backend::EntryV;
use crate::backend::Write;
use crate::path::Key;
use crate::path::Path;
use crate::path::str_eq;
use crate::tree::TValue;
use crate::tree::TValueV;
use crate::tree::child_leaf;
use crate::value::Value;
use crate::value::ValueV;
use crate::value::is_text_array;
use crate::value::text_array;
use vstd::string::StringExecFns;

verus! {

broadcast use vstd::seq::group_seq_axioms, vstd::seq_lib::group_seq_lib_default;

/// The sentinel value of the `.type` field that marks a chooser
/// subtree.
pub open spec fn chooser_sentinel() -> Seq<char> {
    "String Chooser"@
}

/// A chooser: its options, the index the peer reports as selected (if
/// any), the index of the declared default, and whether an edit has
/// just been committed.
#[derive(Debug)]
pub struct SendableChooser {
    pub options: Vec<String>,
    pub active: Option<usize>,
    pub default_index: usize,
    pub is_finished: bool,
}

/// The mathematical shape of a chooser.
#[verifier::ext_equal]
pub struct ChooserV {
    pub options: Seq<Seq<char>>,
    pub active: Option<int>,
    pub default_index: int,
    pub finished: bool,
}

impl View for SendableChooser {
    type V = ChooserV;

    open spec fn view(&self) -> ChooserV {
        ChooserV {
            options: self.options@.map_values(|s: String| s@),
            active: match self.active {
                Some(i) => Some(i as int),
                None => None,
            },
            default_index: self.default_index as int,
            finished: self.is_finished,
        }
    }
}

impl Clone for SendableChooser {
    fn clone(&self) -> (r: SendableChooser)
        ensures
            r@ == self@,
    {
        let mut options: Vec<String> = Vec::new();
        let mut i: usize = 0;
        while i < self.options.len()
            invariant
                i <= self.options@.len(),
                options@.len() == i,
                forall|j: int| 0 <= j < i ==> options@[j] == self.options@[j],
            decreases self.options@.len() - i,
        {
            options.push(self.options[i].clone());
            i = i + 1;
        }
        let r = SendableChooser {
            options,
            active: self.active,
            default_index: self.default_index,
            is_finished: self.is_finished,
        };
        proof {
            assert(r@.options =~= self@.options);
            assert(r@ =~= self@);
        }
        r
    }
}

/// A subtree that is not (yet) a well-formed chooser.
#[derive(Debug)]
pub enum Error {
    /// The node is a bare leaf: this can never become a chooser.
    WantedNodes,
    /// There is no `.type` leaf yet.
    MissingType,
    /// The `.type` leaf is not a string.
    TypeNotString,
    /// The `.type` string names something else; it is carried back.
    IncorrectType(String),
    /// There is no string-array `options` leaf yet.
    MissingOptions,
    /// There is no string `default` leaf yet.
    MissingDefault,
    /// The declared default is not one of the options.
    IllegalSelection,
}

/// The mathematical shape of a chooser error.
#[verifier::ext_equal]
pub enum ErrorV {
    WantedNodes,
    MissingType,
    TypeNotString,
    IncorrectType(Seq<char>),
    MissingOptions,
    MissingDefault,
    IllegalSelection,
}

impl View for Error {
    type V = ErrorV;

    open spec fn view(&self) -> ErrorV {
        match self {
            Error::WantedNodes => ErrorV::WantedNodes,
            Error::MissingType => ErrorV::MissingType,
            Error::TypeNotString => ErrorV::TypeNotString,
            Error::IncorrectType(s) => ErrorV::IncorrectType(s@),
            Error::MissingOptions => ErrorV::MissingOptions,
            Error::MissingDefault => ErrorV::MissingDefault,
            Error::IllegalSelection => ErrorV::IllegalSelection,
        }
    }
}

/// The position of the first occurrence of `name`, if it occurs.
pub open spec fn first_index(opts: Seq<Seq<char>>, name: Seq<char>) -> Option<int>
    decreases opts.len(),
{
    if opts.len() == 0 {
        None
    } else if opts[0] == name {
        Some(0int)
    } else {
        match first_index(opts.drop_first(), name) {
            Some(i) => Some(i + 1),
            None => None,
        }
    }
}

/// `first_index` finds the first occurrence.
pub proof fn lemma_first_index(opts: Seq<Seq<char>>, name: Seq<char>)
    ensures
        match first_index(opts, name) {
            Some(i) => 0 <= i < opts.len() && opts[i] == name && forall|j: int| 0 <= j < i
                ==> opts[j] != name,
            None => forall|j: int| 0 <= j < opts.len() ==> opts[j] != name,
        },
    decreases opts.len(),
{
    if opts.len() > 0 {
        lemma_first_index(opts.drop_first(), name);
        if opts[0] != name {
            assert forall|j: int| 0 <= j < opts.len() && j > 0 implies opts[j]
                == opts.drop_first()[j - 1] by {}
        }
    }
}

/// What the chooser recognizer finds in a subtree: a chooser, or the
/// first thing wrong with it, checked in this order: the node must be
/// a branch; `.type` must be a string leaf naming the chooser
/// sentinel; `options` must be a string-array leaf; `default` must be
/// a string leaf naming one of the options.  A `selected` string leaf
/// is optional; a selection that is not an option counts as none.
pub open spec fn spec_chooser(v: TValueV) -> Result<ChooserV, ErrorV> {
    match v {
        TValueV::Leaf(_) => Err(ErrorV::WantedNodes),
        TValueV::Branch(ns) => match child_leaf(ns, ".type"@) {
            None => Err(ErrorV::MissingType),
            Some(tv) => match tv {
                ValueV::Text(t) => if t != chooser_sentinel() {
                    Err(ErrorV::IncorrectType(t))
                } else {
                    match child_leaf(ns, "options"@) {
                        Some(ov) => if !is_text_array(ov) {
                            Err(ErrorV::MissingOptions)
                        } else {
                            let opts = text_array(ov);
                            let active = match child_leaf(ns, "selected"@) {
                                Some(ValueV::Text(s)) => first_index(opts, s),
                                _ => None,
                            };
                            match child_leaf(ns, "default"@) {
                                Some(ValueV::Text(d)) => match first_index(opts, d) {
                                    Some(di) => Ok(
                                        ChooserV {
                                            options: opts,
                                            active,
                                            default_index: di,
                                            finished: false,
                                        },
                                    ),
                                    None => Err(ErrorV::IllegalSelection),
                                },
                                _ => Err(ErrorV::MissingDefault),
                            }
                        },
                        None => Err(ErrorV::MissingOptions),
                    }
                },
                _ => Err(ErrorV::TypeNotString),
            },
        },
    }
}

/// A chooser whose indices point into its option list.
pub open spec fn chooser_wf(c: ChooserV) -> bool {
    &&& 0 <= c.default_index < c.options.len()
    &&& match c.active {
        Some(i) => 0 <= i < c.options.len(),
        None => true,
    }
}

/// A recognized chooser is well-formed.
pub proof fn lemma_spec_chooser_wf(v: TValueV)
    ensures
        spec_chooser(v) matches Ok(c) ==> chooser_wf(c),
{
    if spec_chooser(v) is Ok {
        match v {
            TValueV::Branch(ns) => {
                match child_leaf(ns, "options"@) {
                    Some(ov) => {
                        let opts = text_array(ov);
                        match child_leaf(ns, "default"@) {
                            Some(ValueV::Text(d)) => {
                                lemma_first_index(opts, d);
                            }
                            _ => {}
                        }
                        match child_leaf(ns, "selected"@) {
                            Some(ValueV::Text(s)) => {
                                lemma_first_index(opts, s);
                            }
                            _ => {}
                        }
                    }
                    None => {}
                }
            }
            TValueV::Leaf(_) => {}
        }
    }
}

/// A chooser subtree with a sound type, options and default but no
/// reported selection is recognized, with no active index: the
/// selection shown falls back to the declared default.
pub proof fn lemma_chooser_defaults(ns: Seq<crate::tree::NodeV>)
    requires
        child_leaf(ns, ".type"@) == Some(ValueV::Text(chooser_sentinel())),
        child_leaf(ns, "options"@) matches Some(ov) && is_text_array(ov),
        child_leaf(ns, "selected"@) is None,
        ({
            let opts = text_array(child_leaf(ns, "options"@)->0);
            child_leaf(ns, "default"@) matches Some(ValueV::Text(d)) && first_index(
                opts,
                d,
            ) is Some
        }),
    ensures
        spec_chooser(TValueV::Branch(ns)) matches Ok(c) && c.active is None && c.finished
            == false,
{
}

/// Finds the first option equal to the given text.
fn find_option(options: &Vec<String>, text: &str) -> (r: Option<usize>)
    ensures
        match r {
            Some(i) => first_index(options@.map_values(|s: String| s@), text@) == Some(
                i as int,
            ),
            None => first_index(options@.map_values(|s: String| s@), text@) is None,
        },
{
    let ghost opts = options@.map_values(|s: String| s@);
    proof {
        lemma_first_index(opts, text@);
    }
    let mut i: usize = 0;
    while i < options.len()
        invariant
            i <= options@.len(),
            opts == options@.map_values(|s: String| s@),
            opts.len() == options@.len(),
            forall|j: int| 0 <= j < i ==> opts[j] != text@,
        decreases options@.len() - i,
    {
        if str_eq(options[i].as_str(), text) {
            proof {
                lemma_first_index(opts, text@);
                assert(opts[i as int] == text@);
            }
            return Some(i);
        }
        i = i + 1;
    }
    None
}

impl SendableChooser {
    /// Recognizes a chooser subtree.
    pub fn try_from(value: &TValue) -> (r: Result<SendableChooser, Error>)
        ensures
            match r {
                Ok(c) => spec_chooser(value@) == Ok::<ChooserV, ErrorV>(c@),
                Err(e) => spec_chooser(value@) == Err::<ChooserV, ErrorV>(e@),
            },
    {
        let nodes = match value.try_get_nodes() {
            Some(ns) => ns,
            None => {
                return Err(Error::WantedNodes);
            }
        };
        let type_value = match nodes.try_get_value(".type") {
            Some(v) => v,
            None => {
                return Err(Error::MissingType);
            }
        };
        let kind_text = match type_value.try_to_string() {
            Some(s) => s,
            None => {
                return Err(Error::TypeNotString);
            }
        };
        if !str_eq(kind_text.as_str(), "String Chooser") {
            return Err(Error::IncorrectType(kind_text));
        }
        let options = match nodes.try_get_value("options") {
            Some(v) => match v.try_to_string_array() {
                Some(a) => a,
                None => {
                    return Err(Error::MissingOptions);
                }
            },
            None => {
                return Err(Error::MissingOptions);
            }
        };
        let ghost opts = options@.map_values(|s: String| s@);
        proof {
            assert(opts =~= text_array(child_leaf(value@->Branch_0, "options"@)->0));
        }
        let active = match nodes.try_get_value("selected") {
            Some(v) => match v.try_to_string() {
                Some(s) => find_option(&options, s.as_str()),
                None => None,
            },
            None => None,
        };
        let default_index = match nodes.try_get_value("default") {
            Some(v) => match v.try_to_string() {
                Some(s) => match find_option(&options, s.as_str()) {
                    Some(i) => i,
                    None => {
                        return Err(Error::IllegalSelection);
                    }
                },
                None => {
                    return Err(Error::MissingDefault);
                }
            },
            None => {
                return Err(Error::MissingDefault);
            }
        };
        let r = SendableChooser { options, active, default_index, is_finished: false };
        proof {
            assert(spec_chooser(value@) == Ok::<ChooserV, ErrorV>(r@));
        }
        Ok(r)
    }

    /// The index of the option shown as selected: the reported
    /// selection when there is one, else the declared default.
    pub fn selection_index(&self) -> (r: usize)
        ensures
            r as int == match self@.active {
                Some(i) => i,
                None => self@.default_index,
            },
    {
        match self.active {
            Some(i) => i,
            None => self.default_index,
        }
    }

    /// Answers a committed edit.  Text naming an option selects it and
    /// publishes it under the widget's `selected` key; any other text
    /// does nothing.
    pub fn update(&mut self, path: &Path, text: &str) -> (r: Write)
        ensures
            match first_index(old(self)@.options, text@) {
                Some(i) => {
                    &&& final(self)@ == (ChooserV {
                        active: Some(i),
                        finished: true,
                        ..old(self)@
                    })
                    &&& r@.entries == seq![
                        EntryV {
                            path: path@.push("selected"@),
                            value: ValueV::Text(text@),
                        },
                    ]
                    &&& r@.filter is None
                },
                None => final(self)@ == old(self)@ && r@.entries == Seq::<
                    EntryV,
                >::empty() && r@.filter is None,
            },
    {
        match find_option(&self.options, text) {
            Some(i) => {
                self.active = Some(i);
                self.is_finished = true;
                let mut target = path.clone();
                proof {
                    reveal_strlit("selected");
                }
                target.push(Key::new(String::from_str("selected")));
                let entry = Entry { path: target, value: Value::Text(String::from_str(text)) };
                proof {
                    assert(self@ =~= (ChooserV {
                        active: Some(i as int),
                        finished: true,
                        ..old(self)@
                    }));
                }
                Write::one(entry)
            }
            None => {
                proof {
                    assert(self@ =~= old(self)@);
                }
                Write::default()
            }
        }
    }

    /// Refreshes the widget from its subtree after an update: a
    /// subtree that reads as a chooser replaces the options and
    /// indices; one that does not leaves the widget as it was.  The
    /// edit-in-progress flag is kept either way.
    pub fn update_nt(&mut self, value: &TValue)
        ensures
            match spec_chooser(value@) {
                Ok(c) => final(self)@ == (ChooserV {
                    finished: old(self)@.finished,
                    ..c
                }),
                Err(_) => final(self)@ == old(self)@,
            },
    {
        match SendableChooser::try_from(value) {
            Ok(updated) => {
                self.options = updated.options;
                self.default_index = updated.default_index;
                self.active = updated.active;
                proof {
                    assert(self@ =~= (ChooserV {
                        finished: old(self)@.finished,
                        ..spec_chooser(value@)->Ok_0
                    }));
                }
            }
            Err(_) => {
                proof {
                    assert(self@ =~= old(self)@);
                }
            }
        }
    }
}

} // verus!
