//! The plain-value widget: a pass-through display of a single leaf.

use vstd::prelude::*;

use crate::backend::Write;
use crate::path::Path;
use crate::tree::TValue;
use crate::tree::TValueV;
use crate::value::Value;
use crate::value::ValueV;

verus! {

/// A widget showing a single scalar as published.
#[derive(Debug)]
pub struct Simple {
    pub value: Value,
}

impl View for Simple {
    type V = ValueV;

    open spec fn view(&self) -> ValueV {
        self.value@
    }
}

impl Clone for Simple {
    fn clone(&self) -> (r: Simple)
        ensures
            r@ == self@,
    {
        Simple { value: self.value.duplicate() }
    }
}

impl Simple {
    /// A plain display is never editable: the write is empty.
    pub fn update(&mut self, _path: &Path, _text: &str) -> (r: Write)
        ensures
            final(self)@ == old(self)@,
            r@.entries == Seq::<crate::backend::EntryV>::empty(),
            r@.filter is None,
    {
        Write::default()
    }

    /// Refreshes the display from its subtree: a leaf replaces the
    /// shown value, anything else leaves it.
    pub fn update_nt(&mut self, value: &TValue)
        ensures
            final(self)@ == match value@ {
                TValueV::Leaf(v) => v,
                TValueV::Branch(_) => old(self)@,
            },
    {
        match value {
            TValue::Leaf(v) => {
                self.value = v.duplicate();
            }
            TValue::Branch(_) => {}
        }
    }
}

} // verus!
