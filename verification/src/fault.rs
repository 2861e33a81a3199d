use vstd::prelude::*;
use vstd::string::StringExecFns;

use crate::value::Identifier;

verus! {

/// A terminal evaluation failure. Faults are never retried or continued
/// past: the caller must abort the whole instruction-sequence evaluation (or
/// the parse or decode pass) when one is raised. Each variant carries the
/// context needed to diagnose the offending instruction.
#[derive(Debug, PartialEq, Eq)]
pub enum Fault {
    /// A load or assign touched a register that was never defined, or a load
    /// touched one that was never assigned.
    UndefinedRegister(u64),
    /// A define touched a register that was already defined.
    DuplicateDefinition(u64),
    /// An operand that had to be a scalar resolved to a composite value; the
    /// composite's name is carried.
    CompositeOperand(Identifier),
    /// The operand literals are not both integers of one and the same width.
    InvalidOperandType,
    /// The instruction text broke the grammar.
    Parse,
    /// The instruction bytes broke the binary codec.
    Decode,
}

/// Mathematical model of a `Fault`.
pub enum FaultV {
    UndefinedRegister(u64),
    DuplicateDefinition(u64),
    CompositeOperand(Seq<u8>),
    InvalidOperandType,
    Parse,
    Decode,
}

impl View for Fault {
    type V = FaultV;

    open spec fn view(&self) -> FaultV {
        match self {
            Fault::UndefinedRegister(r) => FaultV::UndefinedRegister(*r),
            Fault::DuplicateDefinition(r) => FaultV::DuplicateDefinition(*r),
            Fault::CompositeOperand(id) => FaultV::CompositeOperand(id@),
            Fault::InvalidOperandType => FaultV::InvalidOperandType,
            Fault::Parse => FaultV::Parse,
            Fault::Decode => FaultV::Decode,
        }
    }
}

/// The descriptive message of a fault: it names the offending register, the
/// composite's identifier, or the opcode, so an ill-typed instruction can be
/// diagnosed without re-running.
pub open spec fn fault_message(f: FaultV) -> Seq<char> {
    match f {
        FaultV::UndefinedRegister(r) => "register r"@ + crate::text::ascii_str(
            crate::text::dec_nat(r as nat),
        ) + " is not defined"@,
        FaultV::DuplicateDefinition(r) => "register r"@ + crate::text::ascii_str(
            crate::text::dec_nat(r as nat),
        ) + " is already defined"@,
        FaultV::CompositeOperand(name) => crate::text::ascii_str(name) + " is not a literal"@,
        FaultV::InvalidOperandType => "Invalid 'sub.w' instruction"@,
        FaultV::Parse => "invalid instruction text"@,
        FaultV::Decode => "invalid instruction bytes"@,
    }
}

impl Fault {
    /// Renders the fault's message, per `fault_message`.
    pub fn message(&self) -> (r: String)
        ensures
            r@ == fault_message(self@),
    {
        match self {
            Fault::UndefinedRegister(l) => {
                let mut s = String::from_str("register r");
                let mut digits: Vec<u8> = Vec::new();
                crate::text::push_dec_u128(&mut digits, *l as u128);
                proof {
                    crate::text::lemma_dec_nat_ascii(*l as nat);
                }
                let num = crate::text::ascii_to_string(digits);
                s.append(num.as_str());
                s.append(" is not defined");
                s
            },
            Fault::DuplicateDefinition(l) => {
                let mut s = String::from_str("register r");
                let mut digits: Vec<u8> = Vec::new();
                crate::text::push_dec_u128(&mut digits, *l as u128);
                proof {
                    crate::text::lemma_dec_nat_ascii(*l as nat);
                }
                let num = crate::text::ascii_to_string(digits);
                s.append(num.as_str());
                s.append(" is already defined");
                s
            },
            Fault::CompositeOperand(id) => {
                proof {
                    use_type_invariant(id);
                }
                let name = crate::literal::copy_bytes(id.bytes());
                let mut s = crate::text::ascii_to_string(name);
                s.append(" is not a literal");
                s
            },
            Fault::InvalidOperandType => String::from_str("Invalid 'sub.w' instruction"),
            Fault::Parse => String::from_str("invalid instruction text"),
            Fault::Decode => String::from_str("invalid instruction bytes"),
        }
    }
}

} // verus!
