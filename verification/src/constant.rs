//! Constant values of the surrounding IR.
//!
//! Two carriers suffice for the host's lowering: an unsigned byte and a
//! boolean.  Arithmetic is defined only between byte constants and only
//! where it does not wrap; callers must establish both.

use vstd::prelude::*;

verus! {

#[derive(Debug, Clone, Copy, PartialEq, Eq, Structural, PartialOrd, Ord, Hash)]
pub enum Constant {
    Uint8(u8),
    Bool(bool),
}

impl Constant {
    pub fn as_bool(&self) -> (r: Option<bool>)
        ensures
            match r {
                Some(b) => self == Constant::Bool(b),
                None => !(self is Bool),
            },
    {
        if let Constant::Bool(b) = *self {
            Some(b)
        } else {
            None
        }
    }

    pub fn is_zero(&self) -> (r: bool)
        ensures
            r == (self == Constant::Uint8(0)),
    {
        matches!(self, Constant::Uint8(0))
    }

    /// Sum of two byte constants.
    pub fn add(&self, rhs: &Constant) -> (r: Constant)
        requires
            self is Uint8,
            rhs is Uint8,
            self->Uint8_0 + rhs->Uint8_0 <= u8::MAX,
        ensures
            r == Constant::Uint8((self->Uint8_0 + rhs->Uint8_0) as u8),
    {
        match (self, rhs) {
            (Constant::Uint8(left), Constant::Uint8(right)) => Constant::Uint8(left + right),
            _ => Constant::Uint8(0),
        }
    }

    /// Difference of two byte constants.
    pub fn sub(&self, rhs: &Constant) -> (r: Constant)
        requires
            self is Uint8,
            rhs is Uint8,
            self->Uint8_0 >= rhs->Uint8_0,
        ensures
            r == Constant::Uint8((self->Uint8_0 - rhs->Uint8_0) as u8),
    {
        match (self, rhs) {
            (Constant::Uint8(left), Constant::Uint8(right)) => Constant::Uint8(left - right),
            _ => Constant::Uint8(0),
        }
    }
}

} // verus!
