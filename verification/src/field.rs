use vstd::prelude::*;

use crate::mode::Mode;

verus! {

/// A base-field element as the circuit layer presents it here: the plain
/// value it wraps, together with its visibility mode. Field arithmetic
/// itself belongs to the finite-field library outside this core.
#[derive(Clone, Copy, Debug, PartialEq, Eq, Structural)]
pub struct Field {
    pub mode: Mode,
    pub value: u128,
}

impl Field {
    /// A field element with the given mode and value.
    pub fn new(mode: Mode, value: u128) -> (r: Field)
        ensures
            r.mode == mode,
            r.value == value,
    {
        Field { mode, value }
    }

    /// The multiplicative identity, as a constant.
    pub fn one() -> (r: Field)
        ensures
            r.mode == Mode::Constant,
            r.value == 1,
    {
        Field::new(Mode::Constant, 1)
    }

    /// The plain value the element wraps.
    pub fn to_value(&self) -> (r: u128)
        ensures
            r == self.value,
    {
        self.value
    }
}

} // verus!
