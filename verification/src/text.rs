use vstd::prelude::*;

use crate::literal::{Literal, LiteralV};
use crate::mode::Mode;
use crate::operand::{Operand, OperandV};
use crate::registers::Register;
use crate::sub_wrapped::{BinaryOperation, BinaryOperationV, SubWrapped};

verus! {

/// The canonical decimal numeral of a natural number, as ASCII bytes: no
/// sign, no leading zeros.
pub open spec fn dec_nat(n: nat) -> Seq<u8>
    decreases n,
{
    if n < 10 {
        seq![(48 + n) as u8]
    } else {
        dec_nat(n / 10).push((48 + n % 10) as u8)
    }
}

/// The canonical decimal numeral of an integer: a minus sign (45) before the
/// magnitude when negative.
pub open spec fn dec_int(v: int) -> Seq<u8> {
    if v < 0 {
        seq![45u8] + dec_nat((-v) as nat)
    } else {
        dec_nat(v as nat)
    }
}

/// The textual form of a mode: `constant`, `public` or `private`.
pub open spec fn mode_bytes(m: Mode) -> Seq<u8> {
    match m {
        Mode::Constant => seq![99u8, 111, 110, 115, 116, 97, 110, 116],
        Mode::Public => seq![112u8, 117, 98, 108, 105, 99],
        Mode::Private => seq![112u8, 114, 105, 118, 97, 116, 101],
    }
}

/// The kind suffix of each literal kind that carries one.
pub open spec fn suffix_bytes(l: LiteralV) -> Seq<u8> {
    match l {
        LiteralV::Field(_, _) => seq![102u8, 105, 101, 108, 100],
        LiteralV::Group(_, _) => seq![103u8, 114, 111, 117, 112],
        LiteralV::I8(_, _) => seq![105u8, 56],
        LiteralV::I16(_, _) => seq![105u8, 49, 54],
        LiteralV::I32(_, _) => seq![105u8, 51, 50],
        LiteralV::I64(_, _) => seq![105u8, 54, 52],
        LiteralV::I128(_, _) => seq![105u8, 49, 50, 56],
        LiteralV::U8(_, _) => seq![117u8, 56],
        LiteralV::U16(_, _) => seq![117u8, 49, 54],
        LiteralV::U32(_, _) => seq![117u8, 51, 50],
        LiteralV::U64(_, _) => seq![117u8, 54, 52],
        LiteralV::U128(_, _) => seq![117u8, 49, 50, 56],
        _ => seq![],
    }
}

/// The value-and-suffix part of a literal's canonical text, before the
/// `.<mode>` tail.
pub open spec fn literal_core_bytes(l: LiteralV) -> Seq<u8> {
    match l {
        LiteralV::Boolean(b, _) => if b {
            seq![116u8, 114, 117, 101]
        } else {
            seq![102u8, 97, 108, 115, 101]
        },
        LiteralV::Address(a, _) => a,
        LiteralV::Field(v, _) => dec_nat(v as nat) + suffix_bytes(l),
        LiteralV::Group(v, _) => dec_nat(v as nat) + suffix_bytes(l),
        LiteralV::I8(v, _) => dec_int(v as int) + suffix_bytes(l),
        LiteralV::I16(v, _) => dec_int(v as int) + suffix_bytes(l),
        LiteralV::I32(v, _) => dec_int(v as int) + suffix_bytes(l),
        LiteralV::I64(v, _) => dec_int(v as int) + suffix_bytes(l),
        LiteralV::I128(v, _) => dec_int(v as int) + suffix_bytes(l),
        LiteralV::U8(v, _) => dec_nat(v as nat) + suffix_bytes(l),
        LiteralV::U16(v, _) => dec_nat(v as nat) + suffix_bytes(l),
        LiteralV::U32(v, _) => dec_nat(v as nat) + suffix_bytes(l),
        LiteralV::U64(v, _) => dec_nat(v as nat) + suffix_bytes(l),
        LiteralV::U128(v, _) => dec_nat(v as nat) + suffix_bytes(l),
        LiteralV::Str(s, _) => seq![34u8] + s + seq![34u8],
    }
}

/// The canonical text of a literal, as ASCII bytes:
/// `<value><kind-suffix>.<mode>`.
pub open spec fn literal_bytes(l: LiteralV) -> Seq<u8> {
    literal_core_bytes(l) + seq![46u8] + mode_bytes(l.mode())
}

/// The canonical text of a register: `r` then the locator in decimal.
pub open spec fn register_bytes(locator: u64) -> Seq<u8> {
    seq![114u8] + dec_nat(locator as nat)
}

/// The canonical text of an operand.
pub open spec fn operand_bytes(op: OperandV) -> Seq<u8> {
    match op {
        OperandV::Register(r) => register_bytes(r),
        OperandV::Literal(l) => literal_bytes(l),
    }
}

/// The canonical text of a binary operation, without its opcode:
/// `<operand1> <operand2> into <destination>`.
pub open spec fn operation_bytes(op: BinaryOperationV) -> Seq<u8> {
    operand_bytes(op.first) + seq![32u8] + operand_bytes(op.second) + seq![
        32u8,
        105,
        110,
        116,
        111,
        32,
    ] + register_bytes(op.destination)
}

/// The canonical text of the whole instruction:
/// `sub.w <operand1> <operand2> into <destination>`.
pub open spec fn instruction_bytes(op: BinaryOperationV) -> Seq<u8> {
    seq![115u8, 117, 98, 46, 119, 32] + operation_bytes(op)
}

/// ASCII bytes read as the characters with the same codes.
pub open spec fn ascii_str(s: Seq<u8>) -> Seq<char> {
    s.map_values(|b: u8| b as char)
}

/// Every byte of a decimal numeral is an ASCII digit.
pub proof fn lemma_dec_nat_ascii(n: nat)
    ensures
        forall|i: int| 0 <= i < dec_nat(n).len() ==> 48 <= #[trigger] dec_nat(n)[i] <= 57,
    decreases n,
{
    if n >= 10 {
        lemma_dec_nat_ascii(n / 10);
        assert(dec_nat(n) == dec_nat(n / 10).push((48 + n % 10) as u8));
        assert forall|i: int| 0 <= i < dec_nat(n).len() implies 48 <= #[trigger] dec_nat(n)[i]
            <= 57 by {
            if i < dec_nat(n / 10).len() {
                assert(dec_nat(n)[i] == dec_nat(n / 10)[i]);
            }
        }
    }
}

/// Every byte of a literal's canonical text is ASCII, for a well-formed
/// literal.
pub proof fn lemma_literal_bytes_ascii(l: LiteralV)
    requires
        l.wf(),
    ensures
        forall|i: int| 0 <= i < literal_bytes(l).len() ==> #[trigger] literal_bytes(l)[i] < 128,
{
    match l {
        LiteralV::Field(v, _) => lemma_dec_nat_ascii(v as nat),
        LiteralV::Group(v, _) => lemma_dec_nat_ascii(v as nat),
        LiteralV::I8(v, _) => lemma_dec_nat_ascii(if v < 0 { (-v) as nat } else { v as nat }),
        LiteralV::I16(v, _) => lemma_dec_nat_ascii(if v < 0 { (-v) as nat } else { v as nat }),
        LiteralV::I32(v, _) => lemma_dec_nat_ascii(if v < 0 { (-v) as nat } else { v as nat }),
        LiteralV::I64(v, _) => lemma_dec_nat_ascii(if v < 0 { (-v) as nat } else { v as nat }),
        LiteralV::I128(v, _) => lemma_dec_nat_ascii(
            if v < 0 { (-(v as int)) as nat } else { v as nat },
        ),
        LiteralV::U8(v, _) => lemma_dec_nat_ascii(v as nat),
        LiteralV::U16(v, _) => lemma_dec_nat_ascii(v as nat),
        LiteralV::U32(v, _) => lemma_dec_nat_ascii(v as nat),
        LiteralV::U64(v, _) => lemma_dec_nat_ascii(v as nat),
        LiteralV::U128(v, _) => lemma_dec_nat_ascii(v as nat),
        _ => {},
    }
}

/// Every byte of an operation's canonical text is ASCII, for a well-formed
/// operation.
pub proof fn lemma_operation_bytes_ascii(op: BinaryOperationV)
    requires
        op.wf(),
    ensures
        forall|i: int| 0 <= i < operation_bytes(op).len() ==> #[trigger] operation_bytes(op)[i]
            < 128,
{
    lemma_operand_bytes_ascii(op.first);
    lemma_operand_bytes_ascii(op.second);
    lemma_dec_nat_ascii(op.destination as nat);
}

/// Every byte of an operand's canonical text is ASCII, for a well-formed
/// operand.
pub proof fn lemma_operand_bytes_ascii(op: OperandV)
    requires
        op.wf(),
    ensures
        forall|i: int| 0 <= i < operand_bytes(op).len() ==> #[trigger] operand_bytes(op)[i] < 128,
{
    match op {
        OperandV::Register(r) => lemma_dec_nat_ascii(r as nat),
        OperandV::Literal(l) => lemma_literal_bytes_ascii(l),
    }
}

/// Relies on `String::from_utf8`: a vector of ASCII bytes decodes to the
/// string whose characters have exactly those codes (ASCII is valid UTF-8,
/// one byte per character).
#[verifier::external_body]
pub(crate) fn ascii_to_string(bytes: Vec<u8>) -> (r: String)
    requires
        forall|i: int| 0 <= i < bytes@.len() ==> bytes@[i] < 128,
    ensures
        r@ == ascii_str(bytes@),
{
    match String::from_utf8(bytes) {
        Ok(s) => s,
        Err(_) => String::new(),
    }
}

/// Appends the canonical decimal numeral of `n`.
pub(crate) fn push_dec_u128(out: &mut Vec<u8>, n: u128)
    ensures
        final(out)@ == old(out)@ + dec_nat(n as nat),
{
    if n == 0 {
        out.push(48);
        proof {
            assert(final(out)@ =~= old(out)@ + dec_nat(0));
        }
        return;
    }
    let mut rev: Vec<u8> = Vec::new();
    let mut m: u128 = n;
    proof {
        assert(dec_nat(n as nat) =~= dec_nat(m as nat) + rev@.reverse());
    }
    while m > 0
        invariant
            if m > 0 {
                dec_nat(n as nat) == dec_nat(m as nat) + rev@.reverse()
            } else {
                dec_nat(n as nat) == rev@.reverse()
            },
        decreases m,
    {
        let ghost prev_rev = rev@;
        let ghost mprev = m;
        let d: u8 = (m % 10) as u8 + 48;
        rev.push(d);
        m = m / 10;
        proof {
            assert(rev@.reverse() =~= seq![d] + prev_rev.reverse());
            if mprev >= 10 {
                assert(dec_nat(mprev as nat) == dec_nat(mprev as nat / 10).push(
                    (48 + mprev as nat % 10) as u8,
                ));
                assert(dec_nat(mprev as nat / 10).push((48 + mprev as nat % 10) as u8)
                    =~= dec_nat(m as nat) + seq![d]);
                assert(dec_nat(m as nat) + seq![d] + prev_rev.reverse() =~= dec_nat(m as nat)
                    + rev@.reverse());
            } else {
                assert(dec_nat(mprev as nat) =~= seq![d]);
                assert(seq![d] + prev_rev.reverse() =~= rev@.reverse());
            }
        }
    }
    while rev.len() > 0
        invariant
            out@ + rev@.reverse() == old(out)@ + dec_nat(n as nat),
        decreases rev@.len(),
    {
        let ghost prev_rev = rev@;
        let b = match rev.pop() {
            Some(b) => b,
            None => 48,
        };
        out.push(b);
        proof {
            assert(prev_rev.reverse() =~= seq![b] + rev@.reverse());
            assert(out@ + rev@.reverse() =~= old(out)@ + dec_nat(n as nat));
        }
    }
    proof {
        assert(out@ =~= out@ + rev@.reverse());
    }
}

/// Appends the canonical decimal numeral of `v`, minus sign included.
pub(crate) fn push_dec_i128(out: &mut Vec<u8>, v: i128)
    ensures
        final(out)@ == old(out)@ + dec_int(v as int),
{
    if v >= 0 {
        push_dec_u128(out, v as u128);
    } else {
        out.push(45);
        let ghost mid = out@;
        let m: u128 = ((-(v + 1)) as u128) + 1;
        proof {
            assert(m as nat == (-(v as int)) as nat);
        }
        push_dec_u128(out, m);
        proof {
            assert(out@ =~= old(out)@ + dec_int(v as int));
        }
    }
}

/// Appends the textual form of a mode.
pub(crate) fn push_mode(out: &mut Vec<u8>, m: Mode)
    ensures
        final(out)@ == old(out)@ + mode_bytes(m),
{
    match m {
        Mode::Constant => {
            out.push(99);
            out.push(111);
            out.push(110);
            out.push(115);
            out.push(116);
            out.push(97);
            out.push(110);
            out.push(116);
        },
        Mode::Public => {
            out.push(112);
            out.push(117);
            out.push(98);
            out.push(108);
            out.push(105);
            out.push(99);
        },
        Mode::Private => {
            out.push(112);
            out.push(114);
            out.push(105);
            out.push(118);
            out.push(97);
            out.push(116);
            out.push(101);
        },
    }
    proof {
        assert(out@ =~= old(out)@ + mode_bytes(m));
    }
}

/// Appends the bytes of another vector.
pub(crate) fn push_all(out: &mut Vec<u8>, more: &Vec<u8>)
    ensures
        final(out)@ == old(out)@ + more@,
{
    let mut i: usize = 0;
    while i < more.len()
        invariant
            i <= more@.len(),
            out@ == old(out)@ + more@.subrange(0, i as int),
        decreases more@.len() - i,
    {
        out.push(more[i]);
        i = i + 1;
        proof {
            assert(out@ =~= old(out)@ + more@.subrange(0, i as int));
        }
    }
    proof {
        assert(out@ =~= old(out)@ + more@);
    }
}

/// Appends the value-and-suffix part of a literal's canonical text.
#[verifier::rlimit(60)]
pub(crate) fn push_literal_core(out: &mut Vec<u8>, l: &Literal)
    ensures
        final(out)@ == old(out)@ + literal_core_bytes(l@),
{
    match l {
        Literal::Boolean(b, m) => {
            if *b {
                out.push(116);
                out.push(114);
                out.push(117);
                out.push(101);
            } else {
                out.push(102);
                out.push(97);
                out.push(108);
                out.push(115);
                out.push(101);
            }
            proof {
                assert(out@ =~= old(out)@ + literal_core_bytes(l@));
            }
        },
        Literal::Address(a, m) => {
            push_all(out, a);
            proof {
                assert(out@ =~= old(out)@ + literal_core_bytes(l@));
            }
        },
        Literal::Field(v, m) => {
            push_dec_u128(out, *v);
            out.push(102);
            out.push(105);
            out.push(101);
            out.push(108);
            out.push(100);
            proof {
                assert(out@ =~= old(out)@ + literal_core_bytes(l@));
            }
        },
        Literal::Group(v, m) => {
            push_dec_u128(out, *v);
            out.push(103);
            out.push(114);
            out.push(111);
            out.push(117);
            out.push(112);
            proof {
                assert(out@ =~= old(out)@ + literal_core_bytes(l@));
            }
        },
        Literal::I8(v, m) => {
            push_dec_i128(out, *v as i128);
            out.push(105);
            out.push(56);
            proof {
                assert(out@ =~= old(out)@ + literal_core_bytes(l@));
            }
        },
        Literal::I16(v, m) => {
            push_dec_i128(out, *v as i128);
            out.push(105);
            out.push(49);
            out.push(54);
            proof {
                assert(out@ =~= old(out)@ + literal_core_bytes(l@));
            }
        },
        Literal::I32(v, m) => {
            push_dec_i128(out, *v as i128);
            out.push(105);
            out.push(51);
            out.push(50);
            proof {
                assert(out@ =~= old(out)@ + literal_core_bytes(l@));
            }
        },
        Literal::I64(v, m) => {
            push_dec_i128(out, *v as i128);
            out.push(105);
            out.push(54);
            out.push(52);
            proof {
                assert(out@ =~= old(out)@ + literal_core_bytes(l@));
            }
        },
        Literal::I128(v, m) => {
            push_dec_i128(out, *v);
            out.push(105);
            out.push(49);
            out.push(50);
            out.push(56);
            proof {
                assert(out@ =~= old(out)@ + literal_core_bytes(l@));
            }
        },
        Literal::U8(v, m) => {
            push_dec_u128(out, *v as u128);
            out.push(117);
            out.push(56);
            proof {
                assert(out@ =~= old(out)@ + literal_core_bytes(l@));
            }
        },
        Literal::U16(v, m) => {
            push_dec_u128(out, *v as u128);
            out.push(117);
            out.push(49);
            out.push(54);
            proof {
                assert(out@ =~= old(out)@ + literal_core_bytes(l@));
            }
        },
        Literal::U32(v, m) => {
            push_dec_u128(out, *v as u128);
            out.push(117);
            out.push(51);
            out.push(50);
            proof {
                assert(out@ =~= old(out)@ + literal_core_bytes(l@));
            }
        },
        Literal::U64(v, m) => {
            push_dec_u128(out, *v as u128);
            out.push(117);
            out.push(54);
            out.push(52);
            proof {
                assert(out@ =~= old(out)@ + literal_core_bytes(l@));
            }
        },
        Literal::U128(v, m) => {
            push_dec_u128(out, *v);
            out.push(117);
            out.push(49);
            out.push(50);
            out.push(56);
            proof {
                assert(out@ =~= old(out)@ + literal_core_bytes(l@));
            }
        },
        Literal::Str(s, m) => {
            out.push(34);
            push_all(out, s);
            out.push(34);
            proof {
                assert(out@ =~= old(out)@ + literal_core_bytes(l@));
            }
        },
    }
}

/// Appends the canonical text of a literal.
pub(crate) fn push_literal(out: &mut Vec<u8>, l: &Literal)
    ensures
        final(out)@ == old(out)@ + literal_bytes(l@),
{
    push_literal_core(out, l);
    out.push(46);
    push_mode(out, l.mode_of());
    proof {
        assert(out@ =~= old(out)@ + literal_bytes(l@));
    }
}

/// Appends the canonical text of a register.
pub(crate) fn push_register(out: &mut Vec<u8>, r: &Register)
    ensures
        final(out)@ == old(out)@ + register_bytes(r.locator),
{
    out.push(114);
    push_dec_u128(out, r.locator as u128);
    proof {
        assert(out@ =~= old(out)@ + register_bytes(r.locator));
    }
}

/// Appends the canonical text of an operand.
pub(crate) fn push_operand(out: &mut Vec<u8>, op: &Operand)
    ensures
        final(out)@ == old(out)@ + operand_bytes(op@),
{
    match op {
        Operand::Register(r) => push_register(out, r),
        Operand::Literal(l) => push_literal(out, l),
    }
}

/// The canonical text of an operation, without its opcode, as bytes.
pub(crate) fn operation_to_bytes(op: &BinaryOperation) -> (r: Vec<u8>)
    ensures
        r@ == operation_bytes(op@),
{
    let mut out: Vec<u8> = Vec::new();
    push_operand(&mut out, &op.first);
    out.push(32);
    push_operand(&mut out, &op.second);
    out.push(32);
    out.push(105);
    out.push(110);
    out.push(116);
    out.push(111);
    out.push(32);
    push_register(&mut out, &op.destination);
    proof {
        assert(out@ =~= operation_bytes(op@));
    }
    out
}

impl Literal {
    /// Renders the literal in its canonical text form; display is the exact
    /// inverse of parse.
    pub fn to_text(&self) -> (r: String)
        requires
            self@.wf(),
        ensures
            r@ == ascii_str(literal_bytes(self@)),
    {
        let mut out: Vec<u8> = Vec::new();
        push_literal(&mut out, self);
        proof {
            lemma_literal_bytes_ascii(self@);
        }
        ascii_to_string(out)
    }
}

impl SubWrapped {
    /// Renders the operation part of the instruction, without the opcode:
    /// `<operand1> <operand2> into <destination>`.
    pub fn to_text(&self) -> (r: String)
        requires
            self@.wf(),
        ensures
            r@ == ascii_str(operation_bytes(self@)),
    {
        let out = operation_to_bytes(&self.operation);
        proof {
            lemma_operation_bytes_ascii(self@);
        }
        ascii_to_string(out)
    }
}

} // verus!
