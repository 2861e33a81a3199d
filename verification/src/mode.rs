use vstd::prelude::*;

verus! {

/// Circuit visibility of a literal: known at compile time (`Constant`),
/// a public input of the proof (`Public`), or a private witness (`Private`).
#[derive(Clone, Copy, Debug, PartialEq, Eq, Structural)]
pub enum Mode {
    Constant,
    Public,
    Private,
}

/// The adopted policy for the visibility of an instruction result, given the
/// visibilities of its two operands: the result is constant exactly when both
/// operands are constant, and private as soon as either operand is private.
/// Every arithmetic instruction combines modes through this one function, so
/// a different policy needs a change in one place only.
pub open spec fn combine_modes(a: Mode, b: Mode) -> Mode {
    if a == Mode::Constant && b == Mode::Constant {
        Mode::Constant
    } else if a == Mode::Private || b == Mode::Private {
        Mode::Private
    } else {
        Mode::Public
    }
}

impl Mode {
    /// Combines two operand modes into the result mode, per `combine_modes`.
    pub fn combine(self, other: Mode) -> (r: Mode)
        ensures
            r == combine_modes(self, other),
    {
        match (self, other) {
            (Mode::Constant, Mode::Constant) => Mode::Constant,
            (Mode::Private, _) => Mode::Private,
            (_, Mode::Private) => Mode::Private,
            _ => Mode::Public,
        }
    }
}

} // verus!
