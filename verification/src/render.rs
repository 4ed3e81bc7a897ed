//! Edge classification for graph rendering.
//!
//! The host renders program graphs; the library only fixes the closed set of
//! edge kinds and the attribute text each kind carries, so every rendering
//! agrees on them.

use vstd::prelude::*;

verus! {

/// The kind of a program-graph edge.
#[derive(Debug, Copy, Clone, PartialEq, Eq, Structural, PartialOrd, Ord, Hash)]
pub enum EdgeKind {
    Value,
    Effect,
    Control,
}

impl EdgeKind {
    /// The attribute string a rendered edge of this kind carries.
    pub fn color_attribute(&self) -> (r: &'static str)
        ensures
            *self is Control ==> r@ == "color = black"@,
            *self is Effect ==> r@ == "color = cornflowerblue"@,
            *self is Value ==> r@ == "color = forestgreen"@,
    {
        match self {
            EdgeKind::Control => "color = black",
            EdgeKind::Effect => "color = cornflowerblue",
            EdgeKind::Value => "color = forestgreen",
        }
    }
}

} // verus!
