use vstd::prelude::*;

use crate::fault::{Fault, FaultV};
use crate::literal::{Literal, LiteralV};
use crate::mode::combine_modes;
use crate::operand::{resolve_v, Operand, OperandV};
use crate::registers::{Register, Registers, SlotV};
use crate::value::{Value, ValueV};

verus! {

/// A binary operation: two operands and the destination register its result
/// lands in. The textual grammar and the binary layout are shared verbatim
/// by every binary instruction; only the opcode token differs.
#[derive(Debug, PartialEq, Eq)]
pub struct BinaryOperation {
    pub first: Operand,
    pub second: Operand,
    pub destination: Register,
}

/// Mathematical model of a `BinaryOperation`.
pub struct BinaryOperationV {
    pub first: OperandV,
    pub second: OperandV,
    pub destination: u64,
}

impl View for BinaryOperation {
    type V = BinaryOperationV;

    open spec fn view(&self) -> BinaryOperationV {
        BinaryOperationV {
            first: self.first@,
            second: self.second@,
            destination: self.destination.locator,
        }
    }
}

impl BinaryOperationV {
    /// Structural validity of the operation.
    pub open spec fn wf(self) -> bool {
        self.first.wf() && self.second.wf()
    }
}

impl BinaryOperation {
    /// Whether both operands are structurally valid, per
    /// `BinaryOperationV::wf`.
    pub fn is_well_formed(&self) -> (r: bool)
        ensures
            r == self@.wf(),
    {
        self.first.is_well_formed() && self.second.is_well_formed()
    }

    /// Builds the operation from its parts.
    pub fn new(first: Operand, second: Operand, destination: Register) -> (r:
        BinaryOperation)
        ensures
            r@.first == first@,
            r@.second == second@,
            r@.destination == destination.locator,
    {
        BinaryOperation { first, second, destination }
    }
}

/// Requires a resolved value to be a scalar literal; a composite value is a
/// fault naming the composite's identifier.
pub open spec fn as_literal_v(v: ValueV) -> Result<LiteralV, FaultV> {
    match v {
        ValueV::Literal(l) => Ok(l),
        ValueV::Composite(name, _) => Err(FaultV::CompositeOperand(name)),
    }
}

/// Wrapped subtraction on literals: defined exactly when both literals are
/// integers of one and the same width, as the difference modulo that width,
/// reinterpreted in the operands' signedness. The result mode follows
/// `combine_modes`.
pub open spec fn literal_sub_wrapped(a: LiteralV, b: LiteralV) -> Option<LiteralV> {
    match (a, b) {
        (LiteralV::I8(x, ma), LiteralV::I8(y, mb)) => Some(
            LiteralV::I8(vstd::wrapping::i8_specs::wrapping_sub(x, y), combine_modes(ma, mb)),
        ),
        (LiteralV::I16(x, ma), LiteralV::I16(y, mb)) => Some(
            LiteralV::I16(vstd::wrapping::i16_specs::wrapping_sub(x, y), combine_modes(ma, mb)),
        ),
        (LiteralV::I32(x, ma), LiteralV::I32(y, mb)) => Some(
            LiteralV::I32(vstd::wrapping::i32_specs::wrapping_sub(x, y), combine_modes(ma, mb)),
        ),
        (LiteralV::I64(x, ma), LiteralV::I64(y, mb)) => Some(
            LiteralV::I64(vstd::wrapping::i64_specs::wrapping_sub(x, y), combine_modes(ma, mb)),
        ),
        (LiteralV::I128(x, ma), LiteralV::I128(y, mb)) => Some(
            LiteralV::I128(vstd::wrapping::i128_specs::wrapping_sub(x, y), combine_modes(ma, mb)),
        ),
        (LiteralV::U8(x, ma), LiteralV::U8(y, mb)) => Some(
            LiteralV::U8(vstd::wrapping::u8_specs::wrapping_sub(x, y), combine_modes(ma, mb)),
        ),
        (LiteralV::U16(x, ma), LiteralV::U16(y, mb)) => Some(
            LiteralV::U16(vstd::wrapping::u16_specs::wrapping_sub(x, y), combine_modes(ma, mb)),
        ),
        (LiteralV::U32(x, ma), LiteralV::U32(y, mb)) => Some(
            LiteralV::U32(vstd::wrapping::u32_specs::wrapping_sub(x, y), combine_modes(ma, mb)),
        ),
        (LiteralV::U64(x, ma), LiteralV::U64(y, mb)) => Some(
            LiteralV::U64(vstd::wrapping::u64_specs::wrapping_sub(x, y), combine_modes(ma, mb)),
        ),
        (LiteralV::U128(x, ma), LiteralV::U128(y, mb)) => Some(
            LiteralV::U128(vstd::wrapping::u128_specs::wrapping_sub(x, y), combine_modes(ma, mb)),
        ),
        _ => None,
    }
}

/// The outcome of evaluating wrapped subtraction on a register-file state,
/// step by step in evaluation order: resolve the first operand, require it
/// scalar, resolve the second, require it scalar, subtract with wraparound,
/// then require the destination to be defined. The first failing step's
/// fault is the outcome; otherwise the destination and the result literal.
pub open spec fn eval_outcome(op: BinaryOperationV, regs: Map<u64, SlotV>) -> Result<
    (u64, LiteralV),
    FaultV,
> {
    match resolve_v(regs, op.first) {
        Err(f) => Err(f),
        Ok(v1) => match as_literal_v(v1) {
            Err(f) => Err(f),
            Ok(a) => match resolve_v(regs, op.second) {
                Err(f) => Err(f),
                Ok(v2) => match as_literal_v(v2) {
                    Err(f) => Err(f),
                    Ok(b) => match literal_sub_wrapped(a, b) {
                        None => Err(FaultV::InvalidOperandType),
                        Some(lit) => if regs.contains_key(op.destination) {
                            Ok((op.destination, lit))
                        } else {
                            Err(FaultV::UndefinedRegister(op.destination))
                        },
                    },
                },
            },
        },
    }
}

/// Subtracts `second` from `first`, wrapping around on underflow, and
/// storing the outcome in `destination`.
#[derive(Debug, PartialEq, Eq)]
pub struct SubWrapped {
    pub operation: BinaryOperation,
}

impl View for SubWrapped {
    type V = BinaryOperationV;

    open spec fn view(&self) -> BinaryOperationV {
        self.operation@
    }
}

impl SubWrapped {
    /// Builds the instruction from its operation.
    pub fn new(operation: BinaryOperation) -> (r: SubWrapped)
        ensures
            r@ == operation@,
    {
        SubWrapped { operation }
    }

    /// Returns the opcode as a string.
    pub fn opcode() -> (r: &'static str)
        ensures
            r@ == "sub.w"@,
    {
        "sub.w"
    }

    /// Returns the operands of the instruction.
    pub fn operands(&self) -> (r: Vec<Operand>)
        ensures
            r@.len() == 2,
            r@[0]@ == self@.first,
            r@[1]@ == self@.second,
    {
        let mut out: Vec<Operand> = Vec::new();
        out.push(self.operation.first.duplicate());
        out.push(self.operation.second.duplicate());
        out
    }

    /// Returns the destination register of the instruction.
    pub fn destination(&self) -> (r: &Register)
        ensures
            r.locator == self@.destination,
    {
        &self.operation.destination
    }

    /// Evaluates the instruction on the register file, per `eval_outcome`:
    /// on success the result literal is assigned to the destination register
    /// and nothing else changes; on a fault the file is left untouched, with
    /// no partial write.
    pub fn evaluate(&self, registers: &mut Registers) -> (res: Result<(), Fault>)
        ensures
            match eval_outcome(self@, old(registers)@) {
                Ok((d, lit)) => {
                    &&& res is Ok
                    &&& final(registers)@ == old(registers)@.insert(
                        d,
                        SlotV::Assigned(ValueV::Literal(lit)),
                    )
                },
                Err(fv) => {
                    &&& match res {
                        Ok(_) => false,
                        Err(f) => f@ == fv,
                    }
                    &&& final(registers)@ == old(registers)@
                },
            },
    {
        let v1 = match self.operation.first.resolve(registers) {
            Ok(v) => v,
            Err(f) => {
                return Err(f);
            },
        };
        let a = match v1 {
            Value::Literal(l) => l,
            Value::Composite(name, _) => {
                return Err(Fault::CompositeOperand(name));
            },
        };
        let v2 = match self.operation.second.resolve(registers) {
            Ok(v) => v,
            Err(f) => {
                return Err(f);
            },
        };
        let b = match v2 {
            Value::Literal(l) => l,
            Value::Composite(name, _) => {
                return Err(Fault::CompositeOperand(name));
            },
        };
        let result = match (a, b) {
            (Literal::I8(x, ma), Literal::I8(y, mb)) => Literal::I8(
                x.wrapping_sub(y),
                ma.combine(mb),
            ),
            (Literal::I16(x, ma), Literal::I16(y, mb)) => Literal::I16(
                x.wrapping_sub(y),
                ma.combine(mb),
            ),
            (Literal::I32(x, ma), Literal::I32(y, mb)) => Literal::I32(
                x.wrapping_sub(y),
                ma.combine(mb),
            ),
            (Literal::I64(x, ma), Literal::I64(y, mb)) => Literal::I64(
                x.wrapping_sub(y),
                ma.combine(mb),
            ),
            (Literal::I128(x, ma), Literal::I128(y, mb)) => Literal::I128(
                x.wrapping_sub(y),
                ma.combine(mb),
            ),
            (Literal::U8(x, ma), Literal::U8(y, mb)) => Literal::U8(
                x.wrapping_sub(y),
                ma.combine(mb),
            ),
            (Literal::U16(x, ma), Literal::U16(y, mb)) => Literal::U16(
                x.wrapping_sub(y),
                ma.combine(mb),
            ),
            (Literal::U32(x, ma), Literal::U32(y, mb)) => Literal::U32(
                x.wrapping_sub(y),
                ma.combine(mb),
            ),
            (Literal::U64(x, ma), Literal::U64(y, mb)) => Literal::U64(
                x.wrapping_sub(y),
                ma.combine(mb),
            ),
            (Literal::U128(x, ma), Literal::U128(y, mb)) => Literal::U128(
                x.wrapping_sub(y),
                ma.combine(mb),
            ),
            _ => {
                return Err(Fault::InvalidOperandType);
            },
        };
        match registers.assign(&self.operation.destination, Value::Literal(result)) {
            Ok(()) => Ok(()),
            Err(f) => Err(f),
        }
    }
}

/// Wraparound exactness: for every integer width, subtracting one from the
/// width's minimum value wraps to its maximum value, in the same kind, under
/// any operand modes.
pub proof fn lemma_wraparound_exactness(ma: crate::mode::Mode, mb: crate::mode::Mode)
    ensures
        literal_sub_wrapped(LiteralV::I8(i8::MIN, ma), LiteralV::I8(1, mb)) == Some(
            LiteralV::I8(i8::MAX, combine_modes(ma, mb)),
        ),
        literal_sub_wrapped(LiteralV::I16(i16::MIN, ma), LiteralV::I16(1, mb)) == Some(
            LiteralV::I16(i16::MAX, combine_modes(ma, mb)),
        ),
        literal_sub_wrapped(LiteralV::I32(i32::MIN, ma), LiteralV::I32(1, mb)) == Some(
            LiteralV::I32(i32::MAX, combine_modes(ma, mb)),
        ),
        literal_sub_wrapped(LiteralV::I64(i64::MIN, ma), LiteralV::I64(1, mb)) == Some(
            LiteralV::I64(i64::MAX, combine_modes(ma, mb)),
        ),
        literal_sub_wrapped(LiteralV::I128(i128::MIN, ma), LiteralV::I128(1, mb)) == Some(
            LiteralV::I128(i128::MAX, combine_modes(ma, mb)),
        ),
        literal_sub_wrapped(LiteralV::U8(u8::MIN, ma), LiteralV::U8(1, mb)) == Some(
            LiteralV::U8(u8::MAX, combine_modes(ma, mb)),
        ),
        literal_sub_wrapped(LiteralV::U16(u16::MIN, ma), LiteralV::U16(1, mb)) == Some(
            LiteralV::U16(u16::MAX, combine_modes(ma, mb)),
        ),
        literal_sub_wrapped(LiteralV::U32(u32::MIN, ma), LiteralV::U32(1, mb)) == Some(
            LiteralV::U32(u32::MAX, combine_modes(ma, mb)),
        ),
        literal_sub_wrapped(LiteralV::U64(u64::MIN, ma), LiteralV::U64(1, mb)) == Some(
            LiteralV::U64(u64::MAX, combine_modes(ma, mb)),
        ),
        literal_sub_wrapped(LiteralV::U128(u128::MIN, ma), LiteralV::U128(1, mb)) == Some(
            LiteralV::U128(u128::MAX, combine_modes(ma, mb)),
        ),
{
}

/// Type-fault coverage: wrapped subtraction is undefined as soon as either
/// operand literal is an address, a boolean or a string (the evaluation then
/// faults with the invalid-operand-type fault, whose message names the
/// opcode), and requiring a composite value to be scalar faults with the
/// fault that names the composite's identifier.
pub proof fn lemma_type_fault_coverage(
    a: LiteralV,
    b: LiteralV,
    name: Seq<u8>,
    members: Seq<LiteralV>,
)
    ensures
        (a is Address || a is Boolean || a is Str) ==> literal_sub_wrapped(a, b) is None,
        (b is Address || b is Boolean || b is Str) ==> literal_sub_wrapped(a, b) is None,
        as_literal_v(ValueV::Composite(name, members)) == Err::<LiteralV, FaultV>(
            FaultV::CompositeOperand(name),
        ),
{
}

} // verus!
