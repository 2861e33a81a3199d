use vstd::prelude::*;

use crate::codec::operation_enc;
use crate::fault::{Fault, FaultV};
use crate::literal::{bytes_eq, LiteralV};
use crate::registers::{Registers, SlotV};
use crate::sub_wrapped::{eval_outcome, BinaryOperationV, SubWrapped};
use crate::text::{ascii_str, instruction_bytes, operation_bytes, operation_to_bytes};
use crate::value::ValueV;

verus! {

/// The closed enumeration over every concrete operation variant; the stream
/// a program loader holds is a sequence of these, each dispatched to its own
/// evaluation.
#[derive(Debug, PartialEq, Eq)]
pub enum Instruction {
    SubWrapped(SubWrapped),
}

/// Mathematical model of an `Instruction`.
pub enum InstructionV {
    SubWrapped(BinaryOperationV),
}

impl View for Instruction {
    type V = InstructionV;

    open spec fn view(&self) -> InstructionV {
        match self {
            Instruction::SubWrapped(i) => InstructionV::SubWrapped(i@),
        }
    }
}

impl InstructionV {
    /// Structural validity of the instruction.
    pub open spec fn wf(self) -> bool {
        match self {
            InstructionV::SubWrapped(op) => op.wf(),
        }
    }
}

/// The outcome of evaluating an instruction on a register-file state.
pub open spec fn instruction_outcome(
    i: InstructionV,
    regs: Map<u64, SlotV>,
) -> Result<(u64, LiteralV), FaultV> {
    match i {
        InstructionV::SubWrapped(op) => eval_outcome(op, regs),
    }
}

/// The canonical text of an instruction, opcode token included.
pub open spec fn instruction_text(i: InstructionV) -> Seq<u8> {
    match i {
        InstructionV::SubWrapped(op) => instruction_bytes(op),
    }
}

/// The encoding of an instruction: the opcode discriminant, then the
/// operation payload.
pub open spec fn instruction_enc(i: InstructionV) -> Seq<u8> {
    match i {
        InstructionV::SubWrapped(op) => seq![0u8] + operation_enc(op),
    }
}

impl Instruction {
    /// Evaluates the instruction on the register file, per
    /// `instruction_outcome`: on success the result literal is assigned to
    /// the destination register and nothing else changes; on a fault the
    /// file is left untouched, with no partial write.
    pub fn evaluate(&self, registers: &mut Registers) -> (res: Result<(), Fault>)
        ensures
            match instruction_outcome(self@, old(registers)@) {
                Ok((d, lit)) => {
                    &&& res is Ok
                    &&& final(registers)@ == old(registers)@.insert(
                        d,
                        SlotV::Assigned(ValueV::Literal(lit)),
                    )
                },
                Err(fv) => {
                    &&& match res {
                        Ok(_) => false,
                        Err(f) => f@ == fv,
                    }
                    &&& final(registers)@ == old(registers)@
                },
            },
    {
        match self {
            Instruction::SubWrapped(i) => i.evaluate(registers),
        }
    }

    /// Renders the instruction in its canonical text form, opcode included.
    pub fn to_text(&self) -> (r: String)
        requires
            self@.wf(),
        ensures
            r@ == ascii_str(instruction_text(self@)),
    {
        match self {
            Instruction::SubWrapped(i) => {
                let mut out: Vec<u8> = Vec::new();
                out.push(115);
                out.push(117);
                out.push(98);
                out.push(46);
                out.push(119);
                out.push(32);
                let body = operation_to_bytes(&i.operation);
                crate::text::push_all(&mut out, &body);
                proof {
                    assert(out@ =~= instruction_text(self@));
                    crate::text::lemma_operation_bytes_ascii(i@);
                }
                crate::text::ascii_to_string(out)
            },
        }
    }

    /// Parses an instruction from its canonical text, opcode included. On
    /// success the input is exactly the canonical rendering of a well-formed
    /// instruction; every other input is a parse fault.
    pub fn from_text(s: &str) -> (r: Result<Instruction, Fault>)
        ensures
            match r {
                Ok(i) => i@.wf() && s@ == ascii_str(instruction_text(i@)),
                Err(f) => f@ == FaultV::Parse,
            },
            forall|iv: InstructionV| iv.wf() && s@ == ascii_str(instruction_text(iv)) ==> r is Ok,
    {
        let ghost hint: Option<InstructionV> = if exists|iv: InstructionV|
            iv.wf() && s@ == ascii_str(instruction_text(iv)) {
            Some(choose|iv: InstructionV| iv.wf() && s@ == ascii_str(instruction_text(iv)))
        } else {
            None
        };
        let ghost ophint: Option<BinaryOperationV> = match hint {
            Some(InstructionV::SubWrapped(op)) => Some(op),
            None => None,
        };
        proof {
            match hint {
                Some(iv) => {
                    match iv {
                        InstructionV::SubWrapped(op) => {
                            crate::text::lemma_operation_bytes_ascii(op);
                            assert forall|j: int| 0 <= j < instruction_text(iv).len()
                                implies #[trigger] instruction_text(iv)[j] < 128 by {
                                if j >= 6 {
                                    assert(instruction_text(iv)[j] == operation_bytes(op)[j - 6]);
                                }
                            }
                            crate::parse::lemma_ascii_str_low(instruction_text(iv));
                        },
                    }
                },
                None => {},
            }
        }
        let bytes = match crate::parse::ascii_bytes_of(s) {
            Some(v) => v,
            None => {
                return Err(Fault::Parse);
            },
        };
        proof {
            match hint {
                Some(iv) => {
                    crate::parse::lemma_ascii_str_inj(bytes@, instruction_text(iv));
                    match iv {
                        InstructionV::SubWrapped(op) => {
                            let tok = seq![115u8, 117, 98, 46, 119, 32];
                            assert(bytes@ == tok + operation_bytes(op));
                            assert forall|j: int| 0 <= j < 6 implies #[trigger] bytes@[j]
                                == tok[j] by {
                                assert((tok + operation_bytes(op))[j] == tok[j]);
                            }
                            assert(bytes@.subrange(6, 6 + operation_bytes(op).len() as int)
                                =~= operation_bytes(op)) by {
                                assert forall|j: int| 0 <= j < operation_bytes(op).len()
                                    implies bytes@[6 + j] == #[trigger] operation_bytes(op)[j] by {
                                    assert((tok + operation_bytes(op))[6 + j] == operation_bytes(
                                        op,
                                    )[j]);
                                }
                            }
                        },
                    }
                },
                None => {},
            }
        }
        if bytes.len() < 6 {
            return Err(Fault::Parse);
        }
        if !(bytes[0] == 115 && bytes[1] == 117 && bytes[2] == 98 && bytes[3] == 46 && bytes[4]
            == 119 && bytes[5] == 32) {
            return Err(Fault::Parse);
        }
        let mut pos: usize = 6;
        let op = match crate::parse::parse_operation(&bytes, &mut pos, Ghost(ophint)) {
            Some(op) => op,
            None => {
                return Err(Fault::Parse);
            },
        };
        if pos != bytes.len() {
            return Err(Fault::Parse);
        }
        if !op.is_well_formed() {
            return Err(Fault::Parse);
        }
        let mut shown: Vec<u8> = Vec::new();
        shown.push(115);
        shown.push(117);
        shown.push(98);
        shown.push(46);
        shown.push(119);
        shown.push(32);
        let body = operation_to_bytes(&op);
        crate::text::push_all(&mut shown, &body);
        proof {
            match hint {
                Some(iv) => {
                    assert(shown@ =~= bytes@);
                },
                None => {},
            }
        }
        if !bytes_eq(&shown, &bytes) {
            return Err(Fault::Parse);
        }
        let inst = Instruction::SubWrapped(SubWrapped::new(op));
        proof {
            assert(instruction_text(inst@) =~= shown@);
        }
        Ok(inst)
    }

    /// Encodes the instruction: the opcode discriminant, then the operation
    /// payload.
    pub fn to_bytes_le(&self) -> (r: Vec<u8>)
        ensures
            r@ == instruction_enc(self@),
    {
        match self {
            Instruction::SubWrapped(i) => {
                let mut out: Vec<u8> = Vec::new();
                out.push(0);
                let body = i.to_bytes_le();
                crate::text::push_all(&mut out, &body);
                proof {
                    assert(out@ =~= instruction_enc(self@));
                }
                out
            },
        }
    }

    /// Decodes an instruction, opcode discriminant included. On success the
    /// input is exactly the encoding of a well-formed instruction; every
    /// other input is a decode fault.
    pub fn from_bytes_le(bytes: &Vec<u8>) -> (r: Result<Instruction, Fault>)
        ensures
            match r {
                Ok(i) => i@.wf() && bytes@ == instruction_enc(i@),
                Err(f) => f@ == FaultV::Decode,
            },
            forall|iv: InstructionV| iv.wf() && bytes@ == instruction_enc(iv) ==> r is Ok,
    {
        proof {
            assert forall|iv: InstructionV| iv.wf() && bytes@ == instruction_enc(iv)
                implies bytes@.len() >= 1 && bytes@[0] == 0 by {
                match iv {
                    InstructionV::SubWrapped(op) => {
                        assert(instruction_enc(iv) == seq![0u8] + operation_enc(op));
                        assert(instruction_enc(iv)[0] == 0);
                    },
                }
            }
        }
        if bytes.len() < 1 {
            return Err(Fault::Decode);
        }
        if bytes[0] != 0 {
            return Err(Fault::Decode);
        }
        let mut body: Vec<u8> = Vec::new();
        let mut k: usize = 1;
        while k < bytes.len()
            invariant
                1 <= k <= bytes@.len(),
                body@ == bytes@.subrange(1, k as int),
            decreases bytes@.len() - k,
        {
            body.push(bytes[k]);
            k = k + 1;
            proof {
                assert(body@ =~= bytes@.subrange(1, k as int));
            }
        }
        proof {
            assert forall|iv: InstructionV| iv.wf() && bytes@ == instruction_enc(iv)
                implies exists|op: BinaryOperationV| op.wf() && body@ == operation_enc(op) by {
                match iv {
                    InstructionV::SubWrapped(op) => {
                        assert(body@ =~= operation_enc(op)) by {
                            assert forall|j: int| 0 <= j < operation_enc(op).len()
                                implies body@[j] == operation_enc(op)[j] by {
                                assert((seq![0u8] + operation_enc(op))[1 + j] == operation_enc(
                                    op,
                                )[j]);
                            }
                        }
                        assert(op.wf() && body@ == operation_enc(op));
                    },
                }
            }
        }
        let inner = match SubWrapped::from_bytes_le(&body) {
            Ok(i) => i,
            Err(_) => {
                return Err(Fault::Decode);
            },
        };
        let inst = Instruction::SubWrapped(inner);
        proof {
            assert(bytes@ =~= instruction_enc(inst@));
        }
        Ok(inst)
    }
}

/// The envelope codec is unambiguous: two well-formed instructions with one
/// and the same encoding are one and the same instruction. Together with
/// the contract of `from_bytes_le` this gives the round trip: decoding the
/// encoding of a well-formed instruction can only return that instruction.
pub proof fn lemma_instruction_enc_injective(a: InstructionV, b: InstructionV)
    requires
        a.wf(),
        b.wf(),
        instruction_enc(a) == instruction_enc(b),
    ensures
        a == b,
{
    match (a, b) {
        (InstructionV::SubWrapped(oa), InstructionV::SubWrapped(ob)) => {
            assert(instruction_enc(a) == seq![0u8] + operation_enc(oa));
            assert(instruction_enc(b) == seq![0u8] + operation_enc(ob));
            assert(operation_enc(oa).len() == operation_enc(ob).len());
            assert forall|i: int| 0 <= i < operation_enc(oa).len() implies #[trigger] operation_enc(
                oa,
            )[i] == operation_enc(ob)[i] by {
                assert((seq![0u8] + operation_enc(oa))[1 + i] == operation_enc(oa)[i]);
                assert((seq![0u8] + operation_enc(ob))[1 + i] == operation_enc(ob)[i]);
            }
            assert(operation_enc(oa) =~= operation_enc(ob));
            crate::codec::lemma_operation_enc_injective(oa, ob);
        },
    }
}

impl SubWrapped {
    /// Wraps the operation into the instruction envelope.
    pub fn into_instruction(self) -> (r: Instruction)
        ensures
            r@ == InstructionV::SubWrapped(self@),
    {
        Instruction::SubWrapped(self)
    }
}

} // verus!
