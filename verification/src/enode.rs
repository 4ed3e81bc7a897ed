//! E-node shapes: a closed tagged variant over the operator kinds.  Operand
//! slots always reference e-class ids, never raw e-node ids; equality is
//! structural.  Each structural variant carries its own payload struct so that
//! adding an operator is a single-site change.

use vstd::prelude::*;
use crate::ids::EClassId;

verus! {

/// A binary addition over two e-classes.
#[derive(Debug, Clone, Copy, PartialEq, Eq, Structural, PartialOrd, Ord, Hash)]
pub struct Add {
    pub lhs: EClassId,
    pub rhs: EClassId,
}

impl Add {
    pub fn new(lhs: EClassId, rhs: EClassId) -> (r: Self)
        ensures
            r.lhs == lhs,
            r.rhs == rhs,
    {
        Add { lhs, rhs }
    }

    /// Get the [`Add`]'s left hand side
    pub fn lhs(&self) -> (r: EClassId)
        ensures
            r == self.lhs,
    {
        self.lhs
    }

    /// Get the [`Add`]'s right hand side
    pub fn rhs(&self) -> (r: EClassId)
        ensures
            r == self.rhs,
    {
        self.rhs
    }
}

/// A binary subtraction over two e-classes.
#[derive(Debug, Clone, Copy, PartialEq, Eq, Structural, PartialOrd, Ord, Hash)]
pub struct Sub {
    pub lhs: EClassId,
    pub rhs: EClassId,
}

impl Sub {
    pub fn new(lhs: EClassId, rhs: EClassId) -> (r: Self)
        ensures
            r.lhs == lhs,
            r.rhs == rhs,
    {
        Sub { lhs, rhs }
    }

    /// Get the [`Sub`]'s left hand side
    pub fn lhs(&self) -> (r: EClassId)
        ensures
            r == self.lhs,
    {
        self.lhs
    }

    /// Get the [`Sub`]'s right hand side
    pub fn rhs(&self) -> (r: EClassId)
        ensures
            r == self.rhs,
    {
        self.rhs
    }
}

/// One e-node: an operator application whose operand slots reference
/// e-classes.  `Constant` is a leaf and contributes no operand slots.
#[derive(Debug, Clone, Copy, PartialEq, Eq, Structural, PartialOrd, Ord, Hash)]
pub enum ENode {
    Add(Add),
    Sub(Sub),
    Constant,
}

impl ENode {
    /// Returns `true` if the enode is [`Add`].
    pub fn is_add(&self) -> (r: bool)
        ensures
            r == self is Add,
    {
        matches!(self, ENode::Add(..))
    }

    /// Returns `true` if the enode is [`Sub`].
    pub fn is_sub(&self) -> (r: bool)
        ensures
            r == self is Sub,
    {
        matches!(self, ENode::Sub(..))
    }

    pub fn as_add(&self) -> (r: Option<Add>)
        ensures
            match r {
                Some(add) => self == ENode::Add(add),
                None => !(self is Add),
            },
    {
        if let ENode::Add(add) = self {
            Some(*add)
        } else {
            None
        }
    }

    pub fn as_sub(&self) -> (r: Option<Sub>)
        ensures
            match r {
                Some(sub) => self == ENode::Sub(sub),
                None => !(self is Sub),
            },
    {
        if let ENode::Sub(sub) = self {
            Some(*sub)
        } else {
            None
        }
    }
}

} // verus!
