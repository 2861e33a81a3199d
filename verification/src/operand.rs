use vstd::prelude::*;

use crate::fault::{Fault, FaultV};
use crate::literal::{Literal, LiteralV};
use crate::registers::{load_v, Register, Registers, SlotV};
use crate::value::{Value, ValueV};

verus! {

/// An instruction operand: a reference to a register, or an inline literal.
#[derive(Debug, PartialEq, Eq)]
pub enum Operand {
    Register(Register),
    Literal(Literal),
}

/// Mathematical model of an `Operand`.
pub enum OperandV {
    Register(u64),
    Literal(LiteralV),
}

impl View for Operand {
    type V = OperandV;

    open spec fn view(&self) -> OperandV {
        match self {
            Operand::Register(r) => OperandV::Register(r.locator),
            Operand::Literal(l) => OperandV::Literal(l@),
        }
    }
}

impl OperandV {
    /// Structural validity of an operand.
    pub open spec fn wf(self) -> bool {
        match self {
            OperandV::Register(_) => true,
            OperandV::Literal(l) => l.wf(),
        }
    }
}

/// What resolving an operand yields on a given register-file state: an
/// inline literal is returned unchanged, a register reference is loaded from
/// the file.
pub open spec fn resolve_v(regs: Map<u64, SlotV>, op: OperandV) -> Result<ValueV, FaultV> {
    match op {
        OperandV::Literal(l) => Ok(ValueV::Literal(l)),
        OperandV::Register(r) => load_v(regs, r),
    }
}

impl Operand {
    /// Whether the operand is structurally valid, per `OperandV::wf`.
    pub fn is_well_formed(&self) -> (r: bool)
        ensures
            r == self@.wf(),
    {
        match self {
            Operand::Register(_) => true,
            Operand::Literal(l) => l.is_well_formed(),
        }
    }

    /// Deep copy; the copy models the same operand.
    pub fn duplicate(&self) -> (r: Operand)
        ensures
            r@ == self@,
    {
        match self {
            Operand::Register(reg) => Operand::Register(*reg),
            Operand::Literal(l) => Operand::Literal(l.duplicate()),
        }
    }

    /// Resolves the operand against the register file, per `resolve_v`.
    /// Resolution never mutates the file, and faults only through the file's
    /// own undefined-register fault.
    pub fn resolve(&self, registers: &Registers) -> (res: Result<Value, Fault>)
        ensures
            match res {
                Ok(v) => resolve_v(registers@, self@) == Ok::<ValueV, FaultV>(v@),
                Err(f) => resolve_v(registers@, self@) == Err::<ValueV, FaultV>(f@),
            },
    {
        match self {
            Operand::Literal(l) => Ok(Value::Literal(l.duplicate())),
            Operand::Register(r) => registers.load(r),
        }
    }
}

} // verus!
