use vstd::prelude::*;

use crate::fault::{Fault, FaultV};
use crate::literal::{bytes_eq, Literal, LiteralV};
use crate::mode::Mode;
use crate::registers::Register;
use crate::sub_wrapped::{BinaryOperation, BinaryOperationV, SubWrapped};

verus! {

/// The little-endian bytes of `n`, over a fixed width; higher bytes are
/// dropped when `n` does not fit.
pub open spec fn le_bytes(n: nat, width: nat) -> Seq<u8>
    decreases width,
{
    if width == 0 {
        seq![]
    } else {
        seq![(n % 256) as u8] + le_bytes(n / 256, (width - 1) as nat)
    }
}

/// The one-byte discriminant of a mode.
pub open spec fn mode_byte(m: Mode) -> u8 {
    match m {
        Mode::Constant => 0,
        Mode::Public => 1,
        Mode::Private => 2,
    }
}

/// The one-byte discriminant of a literal kind.
pub open spec fn kind_byte(l: LiteralV) -> u8 {
    match l {
        LiteralV::Boolean(_, _) => 0,
        LiteralV::Address(_, _) => 1,
        LiteralV::Field(_, _) => 2,
        LiteralV::Group(_, _) => 3,
        LiteralV::I8(_, _) => 4,
        LiteralV::I16(_, _) => 5,
        LiteralV::I32(_, _) => 6,
        LiteralV::I64(_, _) => 7,
        LiteralV::I128(_, _) => 8,
        LiteralV::U8(_, _) => 9,
        LiteralV::U16(_, _) => 10,
        LiteralV::U32(_, _) => 11,
        LiteralV::U64(_, _) => 12,
        LiteralV::U128(_, _) => 13,
        LiteralV::Str(_, _) => 14,
    }
}

/// The payload bytes of a literal: a fixed-width little-endian value for the
/// numeric kinds (signed values in two's complement), the raw 63 bytes of an
/// address, and a two-byte length prefix before the bytes of a string.
pub open spec fn literal_payload(l: LiteralV) -> Seq<u8> {
    match l {
        LiteralV::Boolean(b, _) => seq![if b { 1u8 } else { 0u8 }],
        LiteralV::Address(a, _) => a,
        LiteralV::Field(v, _) => le_bytes(v as nat, 16),
        LiteralV::Group(v, _) => le_bytes(v as nat, 16),
        LiteralV::I8(v, _) => le_bytes((v as u8) as nat, 1),
        LiteralV::I16(v, _) => le_bytes((v as u16) as nat, 2),
        LiteralV::I32(v, _) => le_bytes((v as u32) as nat, 4),
        LiteralV::I64(v, _) => le_bytes((v as u64) as nat, 8),
        LiteralV::I128(v, _) => le_bytes((v as u128) as nat, 16),
        LiteralV::U8(v, _) => le_bytes(v as nat, 1),
        LiteralV::U16(v, _) => le_bytes(v as nat, 2),
        LiteralV::U32(v, _) => le_bytes(v as nat, 4),
        LiteralV::U64(v, _) => le_bytes(v as nat, 8),
        LiteralV::U128(v, _) => le_bytes(v as nat, 16),
        LiteralV::Str(s, _) => le_bytes(s.len(), 2) + s,
    }
}

/// The encoding of a literal: kind discriminant, payload, mode discriminant.
pub open spec fn literal_enc(l: LiteralV) -> Seq<u8> {
    seq![kind_byte(l)] + literal_payload(l) + seq![mode_byte(l.mode())]
}

/// The encoding of a register: its locator over eight little-endian bytes.
pub open spec fn register_enc(locator: u64) -> Seq<u8> {
    le_bytes(locator as nat, 8)
}

/// The encoding of an operand: a tag byte, then the register or literal.
pub open spec fn operand_enc(op: crate::operand::OperandV) -> Seq<u8> {
    match op {
        crate::operand::OperandV::Register(r) => seq![0u8] + register_enc(r),
        crate::operand::OperandV::Literal(l) => seq![1u8] + literal_enc(l),
    }
}

/// The encoding of a binary operation: the operands in declaration order,
/// then the destination register. No opcode tag is stored here; the tag
/// lives in the enclosing instruction envelope.
pub open spec fn operation_enc(op: BinaryOperationV) -> Seq<u8> {
    operand_enc(op.first) + operand_enc(op.second) + register_enc(op.destination)
}

/// Appends the little-endian bytes of `n` over `width` bytes.
pub(crate) fn push_le_bytes(out: &mut Vec<u8>, n: u128, width: usize)
    ensures
        final(out)@ == old(out)@ + le_bytes(n as nat, width as nat),
{
    let mut m: u128 = n;
    let mut k: usize = 0;
    proof {
        assert(old(out)@ + le_bytes(n as nat, width as nat) =~= out@ + le_bytes(
            n as nat,
            (width - k) as nat,
        ));
    }
    while k < width
        invariant
            k <= width,
            old(out)@ + le_bytes(n as nat, width as nat) == out@ + le_bytes(
                m as nat,
                (width - k) as nat,
            ),
        decreases width - k,
    {
        let ghost mprev = m as nat;
        let ghost wprev = (width - k) as nat;
        out.push((m % 256) as u8);
        m = m / 256;
        k = k + 1;
        proof {
            assert(le_bytes(mprev, wprev) == seq![(mprev % 256) as u8] + le_bytes(
                mprev / 256,
                (wprev - 1) as nat,
            ));
            assert(old(out)@ + le_bytes(n as nat, width as nat) =~= out@ + le_bytes(
                m as nat,
                (width - k) as nat,
            ));
        }
    }
    proof {
        assert(le_bytes(m as nat, 0) =~= Seq::<u8>::empty());
        assert(out@ =~= old(out)@ + le_bytes(n as nat, width as nat));
    }
}

/// Appends the one-byte discriminant of a mode.
pub(crate) fn push_mode_byte(out: &mut Vec<u8>, m: Mode)
    ensures
        final(out)@ == old(out)@ + seq![mode_byte(m)],
{
    match m {
        Mode::Constant => out.push(0),
        Mode::Public => out.push(1),
        Mode::Private => out.push(2),
    }
    proof {
        assert(out@ =~= old(out)@ + seq![mode_byte(m)]);
    }
}

/// Appends the encoding of a literal.
#[verifier::rlimit(100)]
pub(crate) fn push_literal_enc(out: &mut Vec<u8>, l: &Literal)
    ensures
        final(out)@ == old(out)@ + literal_enc(l@),
{
    match l {
        Literal::Boolean(b, m) => {
            out.push(0);
            out.push(if *b { 1 } else { 0 });
            push_mode_byte(out, *m);
            proof {
                assert(out@ =~= old(out)@ + literal_enc(l@));
            }
        },
        Literal::Address(a, m) => {
            out.push(1);
            crate::text::push_all(out, a);
            push_mode_byte(out, *m);
            proof {
                assert(out@ =~= old(out)@ + literal_enc(l@));
            }
        },
        Literal::Field(v, m) => {
            out.push(2);
            push_le_bytes(out, *v, 16);
            push_mode_byte(out, *m);
            proof {
                assert(out@ =~= old(out)@ + literal_enc(l@));
            }
        },
        Literal::Group(v, m) => {
            out.push(3);
            push_le_bytes(out, *v, 16);
            push_mode_byte(out, *m);
            proof {
                assert(out@ =~= old(out)@ + literal_enc(l@));
            }
        },
        Literal::Str(s, m) => {
            out.push(14);
            push_le_bytes(out, s.len() as u128, 2);
            crate::text::push_all(out, s);
            push_mode_byte(out, *m);
            proof {
                assert(out@ =~= old(out)@ + literal_enc(l@));
            }
        },
        _ => push_int_enc(out, l),
    }
}

/// Appends the encoding of an integer literal.
#[verifier::rlimit(60)]
fn push_int_enc(out: &mut Vec<u8>, l: &Literal)
    requires
        l@ is I8 || l@ is I16 || l@ is I32 || l@ is I64 || l@ is I128 || l@ is U8 || l@ is U16
            || l@ is U32 || l@ is U64 || l@ is U128,
    ensures
        final(out)@ == old(out)@ + literal_enc(l@),
{
    match l {
        Literal::I8(v, m) => {
            out.push(4);
            push_le_bytes(out, (*v as u8) as u128, 1);
            push_mode_byte(out, *m);
            proof {
                assert(out@ =~= old(out)@ + literal_enc(l@));
            }
        },
        Literal::I16(v, m) => {
            out.push(5);
            push_le_bytes(out, (*v as u16) as u128, 2);
            push_mode_byte(out, *m);
            proof {
                assert(out@ =~= old(out)@ + literal_enc(l@));
            }
        },
        Literal::I32(v, m) => {
            out.push(6);
            push_le_bytes(out, (*v as u32) as u128, 4);
            push_mode_byte(out, *m);
            proof {
                assert(out@ =~= old(out)@ + literal_enc(l@));
            }
        },
        Literal::I64(v, m) => {
            out.push(7);
            push_le_bytes(out, (*v as u64) as u128, 8);
            push_mode_byte(out, *m);
            proof {
                assert(out@ =~= old(out)@ + literal_enc(l@));
            }
        },
        Literal::I128(v, m) => {
            out.push(8);
            push_le_bytes(out, *v as u128, 16);
            push_mode_byte(out, *m);
            proof {
                assert(out@ =~= old(out)@ + literal_enc(l@));
            }
        },
        Literal::U8(v, m) => {
            out.push(9);
            push_le_bytes(out, *v as u128, 1);
            push_mode_byte(out, *m);
            proof {
                assert(out@ =~= old(out)@ + literal_enc(l@));
            }
        },
        Literal::U16(v, m) => {
            out.push(10);
            push_le_bytes(out, *v as u128, 2);
            push_mode_byte(out, *m);
            proof {
                assert(out@ =~= old(out)@ + literal_enc(l@));
            }
        },
        Literal::U32(v, m) => {
            out.push(11);
            push_le_bytes(out, *v as u128, 4);
            push_mode_byte(out, *m);
            proof {
                assert(out@ =~= old(out)@ + literal_enc(l@));
            }
        },
        Literal::U64(v, m) => {
            out.push(12);
            push_le_bytes(out, *v as u128, 8);
            push_mode_byte(out, *m);
            proof {
                assert(out@ =~= old(out)@ + literal_enc(l@));
            }
        },
        Literal::U128(v, m) => {
            out.push(13);
            push_le_bytes(out, *v, 16);
            push_mode_byte(out, *m);
            proof {
                assert(out@ =~= old(out)@ + literal_enc(l@));
            }
        },        _ => {
            proof {
                assert(false);
            }
        },
    }
}


/// Appends the encoding of a register.
pub(crate) fn push_register_enc(out: &mut Vec<u8>, r: &Register)
    ensures
        final(out)@ == old(out)@ + register_enc(r.locator),
{
    push_le_bytes(out, r.locator as u128, 8);
}

/// Appends the encoding of an operand.
pub(crate) fn push_operand_enc(out: &mut Vec<u8>, op: &crate::operand::Operand)
    ensures
        final(out)@ == old(out)@ + operand_enc(op@),
{
    match op {
        crate::operand::Operand::Register(r) => {
            out.push(0);
            push_register_enc(out, r);
        },
        crate::operand::Operand::Literal(l) => {
            out.push(1);
            push_literal_enc(out, l);
        },
    }
    proof {
        assert(out@ =~= old(out)@ + operand_enc(op@));
    }
}

/// A byte sequence sits inside `bytes` at position `pos`.
pub open spec fn enc_at(bytes: Seq<u8>, pos: int, enc: Seq<u8>) -> bool {
    &&& 0 <= pos
    &&& pos + enc.len() <= bytes.len()
    &&& bytes.subrange(pos, pos + enc.len()) == enc
}

pub(crate) proof fn lemma_enc_at_bytes(bytes: Seq<u8>, pos: int, enc: Seq<u8>)
    requires
        enc_at(bytes, pos, enc),
    ensures
        forall|j: int| 0 <= j < enc.len() ==> bytes[pos + j] == #[trigger] enc[j],
{
    assert forall|j: int| 0 <= j < enc.len() implies bytes[pos + j] == #[trigger] enc[j] by {
        assert(bytes.subrange(pos, pos + enc.len())[j] == enc[j]);
    }
}

/// Splits "a concatenation sits here" into its two halves.
pub(crate) proof fn lemma_enc_at_concat(bytes: Seq<u8>, pos: int, a: Seq<u8>, b: Seq<u8>)
    requires
        enc_at(bytes, pos, a + b),
    ensures
        enc_at(bytes, pos, a),
        enc_at(bytes, pos + a.len(), b),
{
    lemma_enc_at_bytes(bytes, pos, a + b);
    assert(bytes.subrange(pos, pos + a.len()) =~= a) by {
        assert forall|j: int| 0 <= j < a.len() implies bytes[pos + j] == a[j] by {
            assert((a + b)[j] == a[j]);
            assert(bytes[pos + j] == (a + b)[j]);
        }
    }
    assert(bytes.subrange(pos + a.len(), pos + a.len() + b.len()) =~= b) by {
        assert forall|j: int| 0 <= j < b.len() implies bytes[pos + a.len() + j] == b[j] by {
            assert((a + b)[a.len() + j] == b[j]);
            assert(bytes[pos + (a.len() + j)] == (a + b)[a.len() + j]);
        }
    }
}

/// How a literal's encoding decomposes in place: the kind byte at `pos`,
/// the payload after it, the mode byte last.
proof fn lemma_literal_enc_at(bytes: Seq<u8>, pos: int, l: LiteralV)
    requires
        enc_at(bytes, pos, literal_enc(l)),
    ensures
        literal_enc(l).len() == 2 + literal_payload(l).len(),
        bytes[pos] == kind_byte(l),
        enc_at(bytes, pos + 1, literal_payload(l)),
        bytes[pos + 1 + literal_payload(l).len()] == mode_byte(l.mode()),
{
    lemma_enc_at_concat(
        bytes,
        pos,
        seq![kind_byte(l)] + literal_payload(l),
        seq![mode_byte(l.mode())],
    );
    lemma_enc_at_concat(bytes, pos, seq![kind_byte(l)], literal_payload(l));
    lemma_enc_at_bytes(bytes, pos, seq![kind_byte(l)]);
    lemma_enc_at_bytes(
        bytes,
        pos + 1 + literal_payload(l).len(),
        seq![mode_byte(l.mode())],
    );
    assert(bytes[pos + 0] == seq![kind_byte(l)][0]);
    assert(bytes[pos + 1 + literal_payload(l).len() as int + 0] == seq![mode_byte(l.mode())][0]);
}

proof fn lemma_pow256_pos(a: nat)
    ensures
        1 <= pow256(a),
    decreases a,
{
    if a > 0 {
        lemma_pow256_pos((a - 1) as nat);
    }
}

proof fn lemma_pow256_mono(a: nat, b: nat)
    requires
        a <= b,
    ensures
        pow256(a) <= pow256(b),
    decreases b,
{
    if a < b {
        lemma_pow256_mono(a, (b - 1) as nat);
        lemma_pow256_pos((b - 1) as nat);
    }
}

/// Reads `width` little-endian bytes into their value; succeeds exactly
/// when that many bytes remain, and then returns the one value those bytes
/// spell.
fn read_le(bytes: &Vec<u8>, pos: &mut usize, width: usize) -> (r: Option<u128>)
    requires
        *old(pos) <= bytes@.len(),
        width <= 16,
    ensures
        *final(pos) <= bytes@.len(),
        *old(pos) <= *final(pos),
        r is Some <==> *old(pos) + width <= bytes@.len(),
        match r {
            Some(v) => {
                &&& *final(pos) == *old(pos) + width
                &&& (v as nat) < pow256(width as nat)
                &&& le_bytes(v as nat, width as nat) == bytes@.subrange(
                    *old(pos) as int,
                    (*old(pos) + width) as int,
                )
            },
            None => *final(pos) == *old(pos),
        },
{
    let n = bytes.len();
    if width > n || *pos > n - width {
        return None;
    }
    let start = *pos;
    let mut acc: u128 = 0;
    let mut k: usize = width;
    proof {
        lemma_pow256_pos(0);
        assert(le_bytes(0, 0) =~= bytes@.subrange(
            (start + width) as int,
            (start + width) as int,
        ));
    }
    while k > 0
        invariant
            k <= width <= 16,
            start + width <= bytes@.len(),
            bytes@.len() <= usize::MAX,
            (acc as nat) < pow256((width - k) as nat),
            le_bytes(acc as nat, (width - k) as nat) == bytes@.subrange(
                (start + k) as int,
                (start + width) as int,
            ),
        decreases k,
    {
        let ghost accp = acc as nat;
        let ghost wk = (width - k) as nat;
        k = k - 1;
        let b = bytes[start + k];
        proof {
            lemma_pow256_values();
            lemma_pow256_mono(wk + 1, 16);
            assert(accp * 256 + (b as nat) < pow256(wk + 1)) by (nonlinear_arith)
                requires
                    accp < pow256(wk),
                    (b as nat) < 256,
                    pow256(wk + 1) == 256 * pow256(wk),
            ;
        }
        acc = acc * 256 + (b as u128);
        proof {
            assert((acc as nat) % 256 == b as nat && (acc as nat) / 256 == accp) by (
            nonlinear_arith)
                requires
                    acc as nat == accp * 256 + b as nat,
                    (b as nat) < 256,
            ;
            assert(le_bytes(acc as nat, (width - k) as nat) =~= bytes@.subrange(
                (start + k) as int,
                (start + width) as int,
            ));
        }
    }
    *pos = start + width;
    Some(acc)
}

/// Reads `count` raw bytes; succeeds exactly when that many remain.
fn read_bytes(bytes: &Vec<u8>, pos: &mut usize, count: usize) -> (r: Option<Vec<u8>>)
    requires
        *old(pos) <= bytes@.len(),
    ensures
        *final(pos) <= bytes@.len(),
        *old(pos) <= *final(pos),
        r is Some <==> *old(pos) + count <= bytes@.len(),
        match r {
            Some(v) => *final(pos) == *old(pos) + count && v@ == bytes@.subrange(
                *old(pos) as int,
                (*old(pos) + count) as int,
            ),
            None => *final(pos) == *old(pos),
        },
{
    let n = bytes.len();
    if count > n || *pos > n - count {
        return None;
    }
    let start = *pos;
    let mut out: Vec<u8> = Vec::new();
    let mut k: usize = 0;
    proof {
        assert(out@ =~= bytes@.subrange(start as int, (start + k) as int));
    }
    while k < count
        invariant
            k <= count,
            start + count <= bytes@.len(),
            bytes@.len() <= usize::MAX,
            out@ == bytes@.subrange(start as int, (start + k) as int),
        decreases count - k,
    {
        out.push(bytes[start + k]);
        k = k + 1;
        proof {
            assert(out@ =~= bytes@.subrange(start as int, (start + k) as int));
        }
    }
    *pos = start + count;
    Some(out)
}

/// Reads a mode discriminant byte; succeeds exactly on the three defined
/// discriminants.
fn read_mode(bytes: &Vec<u8>, pos: &mut usize) -> (r: Option<Mode>)
    requires
        *old(pos) <= bytes@.len(),
    ensures
        *final(pos) <= bytes@.len(),
        *old(pos) <= *final(pos),
        match r {
            Some(m) => {
                &&& *final(pos) == *old(pos) + 1
                &&& *old(pos) < bytes@.len()
                &&& bytes@[*old(pos) as int] == mode_byte(m)
            },
            None => true,
        },
        (*old(pos) < bytes@.len() && bytes@[*old(pos) as int] <= 2) ==> r is Some,
{
    if *pos >= bytes.len() {
        return None;
    }
    let b = bytes[*pos];
    *pos = *pos + 1;
    if b == 0 {
        Some(Mode::Constant)
    } else if b == 1 {
        Some(Mode::Public)
    } else if b == 2 {
        Some(Mode::Private)
    } else {
        None
    }
}

/// Reads one encoded literal. The ghost hint carries the literal whose
/// encoding is known to sit here, when the caller knows one: decoding is
/// then guaranteed to consume exactly that encoding and return that
/// literal.
#[verifier::rlimit(100)]
fn decode_literal(bytes: &Vec<u8>, pos: &mut usize, Ghost(hint): Ghost<Option<LiteralV>>) -> (r:
    Option<Literal>)
    requires
        *old(pos) <= bytes@.len(),
        match hint {
            Some(l) => l.wf() && enc_at(bytes@, *old(pos) as int, literal_enc(l)),
            None => true,
        },
    ensures
        *final(pos) <= bytes@.len(),
        *old(pos) <= *final(pos),
        match hint {
            Some(l) => match r {
                Some(x) => x@ == l && *final(pos) == *old(pos) + literal_enc(l).len(),
                None => false,
            },
            None => true,
        },
{
    let ghost p0 = *pos as int;
    proof {
        match hint {
            Some(l) => {
                lemma_literal_enc_at(bytes@, p0, l);
                lemma_enc_at_bytes(bytes@, p0 + 1, literal_payload(l));
                lemma_pow256_values();
                if let LiteralV::Str(s, _) = l {
                    lemma_enc_at_concat(bytes@, p0 + 1, le_bytes(s.len(), 2), s);
                }
                match l {
                    LiteralV::Field(v, _) => lemma_le_bytes_len(v as nat, 16),
                    LiteralV::Group(v, _) => lemma_le_bytes_len(v as nat, 16),
                    LiteralV::I8(v, _) => lemma_le_bytes_len((v as u8) as nat, 1),
                    LiteralV::I16(v, _) => lemma_le_bytes_len((v as u16) as nat, 2),
                    LiteralV::I32(v, _) => lemma_le_bytes_len((v as u32) as nat, 4),
                    LiteralV::I64(v, _) => lemma_le_bytes_len((v as u64) as nat, 8),
                    LiteralV::I128(v, _) => lemma_le_bytes_len((v as u128) as nat, 16),
                    LiteralV::U8(v, _) => lemma_le_bytes_len(v as nat, 1),
                    LiteralV::U16(v, _) => lemma_le_bytes_len(v as nat, 2),
                    LiteralV::U32(v, _) => lemma_le_bytes_len(v as nat, 4),
                    LiteralV::U64(v, _) => lemma_le_bytes_len(v as nat, 8),
                    LiteralV::U128(v, _) => lemma_le_bytes_len(v as nat, 16),
                    LiteralV::Str(s, _) => lemma_le_bytes_len(s.len(), 2),
                    _ => {},
                }
            },
            None => {},
        }
    }
    if *pos >= bytes.len() {
        return None;
    }
    let kind = bytes[*pos];
    *pos = *pos + 1;
    if kind == 0 {
        proof {
            match hint {
                Some(l) => {
                    assert(l is Boolean);
                    if let LiteralV::Boolean(bv, _) = l {
                        assert(bytes@[p0 + 1 + 0] == literal_payload(l)[0]);
                        assert(literal_payload(l)[0] == (if bv {
                            1u8
                        } else {
                            0u8
                        }));
                    }
                },
                None => {},
            }
        }
        if *pos >= bytes.len() {
            return None;
        }
        let b = bytes[*pos];
        *pos = *pos + 1;
        let v = if b == 0 {
            false
        } else if b == 1 {
            true
        } else {
            return None;
        };
        return match read_mode(bytes, pos) {
            Some(m) => Some(Literal::Boolean(v, m)),
            None => None,
        };
    }
    if kind == 1 {
        proof {
            match hint {
                Some(l) => {
                    assert(l is Address);
                },
                None => {},
            }
        }
        let a = match read_bytes(bytes, pos, 63) {
            Some(a) => a,
            None => {
                return None;
            },
        };
        return match read_mode(bytes, pos) {
            Some(m) => {
                proof {
                    match hint {
                        Some(l) => {
                            if let LiteralV::Address(av, _) = l {
                                assert(a@ =~= av);
                            }
                        },
                        None => {},
                    }
                }
                Some(Literal::Address(a, m))
            },
            None => None,
        };
    }
    if kind == 14 {
        proof {
            match hint {
                Some(l) => {
                    assert(l is Str);
                },
                None => {},
            }
        }
        let len = match read_le(bytes, pos, 2) {
            Some(v) => v,
            None => {
                return None;
            },
        };
        proof {
            match hint {
                Some(l) => {
                    if let LiteralV::Str(sv, _) = l {
                        assert(le_bytes(len as nat, 2) =~= le_bytes(sv.len(), 2));
                        lemma_le_bytes_inj(len as nat, sv.len(), 2);
                    }
                },
                None => {},
            }
        }
        let s = match read_bytes(bytes, pos, len as usize) {
            Some(s) => s,
            None => {
                return None;
            },
        };
        return match read_mode(bytes, pos) {
            Some(m) => {
                proof {
                    match hint {
                        Some(l) => {
                            if let LiteralV::Str(sv, _) = l {
                                assert(s@ =~= sv);
                            }
                        },
                        None => {},
                    }
                }
                Some(Literal::Str(s, m))
            },
            None => None,
        };
    }
    let width: usize = if kind == 4 || kind == 9 {
        1
    } else if kind == 5 || kind == 10 {
        2
    } else if kind == 6 || kind == 11 {
        4
    } else if kind == 7 || kind == 12 {
        8
    } else if kind == 2 || kind == 3 || kind == 8 || kind == 13 {
        16
    } else {
        return None;
    };
    let v = match read_le(bytes, pos, width) {
        Some(v) => v,
        None => {
            return None;
        },
    };
    proof {
        match hint {
            Some(l) => {
                match l {
                    LiteralV::Field(n, _) => {
                        assert(le_bytes(v as nat, 16) =~= le_bytes(n as nat, 16));
                        lemma_le_bytes_inj(v as nat, n as nat, 16);
                    },
                    LiteralV::Group(n, _) => {
                        assert(le_bytes(v as nat, 16) =~= le_bytes(n as nat, 16));
                        lemma_le_bytes_inj(v as nat, n as nat, 16);
                    },
                    LiteralV::I8(n, _) => {
                        assert(le_bytes(v as nat, 1) =~= le_bytes((n as u8) as nat, 1));
                        lemma_le_bytes_inj(v as nat, (n as u8) as nat, 1);
                        assert((v as u8) as i8 == n) by (bit_vector)
                            requires
                                v == (n as u8) as u128,
                        ;
                    },
                    LiteralV::I16(n, _) => {
                        assert(le_bytes(v as nat, 2) =~= le_bytes((n as u16) as nat, 2));
                        lemma_le_bytes_inj(v as nat, (n as u16) as nat, 2);
                        assert((v as u16) as i16 == n) by (bit_vector)
                            requires
                                v == (n as u16) as u128,
                        ;
                    },
                    LiteralV::I32(n, _) => {
                        assert(le_bytes(v as nat, 4) =~= le_bytes((n as u32) as nat, 4));
                        lemma_le_bytes_inj(v as nat, (n as u32) as nat, 4);
                        assert((v as u32) as i32 == n) by (bit_vector)
                            requires
                                v == (n as u32) as u128,
                        ;
                    },
                    LiteralV::I64(n, _) => {
                        assert(le_bytes(v as nat, 8) =~= le_bytes((n as u64) as nat, 8));
                        lemma_le_bytes_inj(v as nat, (n as u64) as nat, 8);
                        assert((v as u64) as i64 == n) by (bit_vector)
                            requires
                                v == (n as u64) as u128,
                        ;
                    },
                    LiteralV::I128(n, _) => {
                        assert(le_bytes(v as nat, 16) =~= le_bytes((n as u128) as nat, 16));
                        lemma_le_bytes_inj(v as nat, (n as u128) as nat, 16);
                        assert(v as i128 == n) by (bit_vector)
                            requires
                                v == n as u128,
                        ;
                    },
                    LiteralV::U8(n, _) => {
                        assert(le_bytes(v as nat, 1) =~= le_bytes(n as nat, 1));
                        lemma_le_bytes_inj(v as nat, n as nat, 1);
                    },
                    LiteralV::U16(n, _) => {
                        assert(le_bytes(v as nat, 2) =~= le_bytes(n as nat, 2));
                        lemma_le_bytes_inj(v as nat, n as nat, 2);
                    },
                    LiteralV::U32(n, _) => {
                        assert(le_bytes(v as nat, 4) =~= le_bytes(n as nat, 4));
                        lemma_le_bytes_inj(v as nat, n as nat, 4);
                    },
                    LiteralV::U64(n, _) => {
                        assert(le_bytes(v as nat, 8) =~= le_bytes(n as nat, 8));
                        lemma_le_bytes_inj(v as nat, n as nat, 8);
                    },
                    LiteralV::U128(n, _) => {
                        assert(le_bytes(v as nat, 16) =~= le_bytes(n as nat, 16));
                        lemma_le_bytes_inj(v as nat, n as nat, 16);
                    },
                    _ => {},
                }
            },
            None => {},
        }
    }
    let m = match read_mode(bytes, pos) {
        Some(m) => m,
        None => {
            return None;
        },
    };
    if kind == 2 {
        Some(Literal::Field(v, m))
    } else if kind == 3 {
        Some(Literal::Group(v, m))
    } else if kind == 4 {
        Some(Literal::I8((v as u8) as i8, m))
    } else if kind == 5 {
        Some(Literal::I16((v as u16) as i16, m))
    } else if kind == 6 {
        Some(Literal::I32((v as u32) as i32, m))
    } else if kind == 7 {
        Some(Literal::I64((v as u64) as i64, m))
    } else if kind == 8 {
        Some(Literal::I128(v as i128, m))
    } else if kind == 9 {
        Some(Literal::U8(v as u8, m))
    } else if kind == 10 {
        Some(Literal::U16(v as u16, m))
    } else if kind == 11 {
        Some(Literal::U32(v as u32, m))
    } else if kind == 12 {
        Some(Literal::U64(v as u64, m))
    } else {
        Some(Literal::U128(v, m))
    }
}

/// Reads one encoded operand, with the same hint convention as
/// `decode_literal`.
fn decode_operand(
    bytes: &Vec<u8>,
    pos: &mut usize,
    Ghost(hint): Ghost<Option<crate::operand::OperandV>>,
) -> (r: Option<crate::operand::Operand>)
    requires
        *old(pos) <= bytes@.len(),
        match hint {
            Some(op) => op.wf() && enc_at(bytes@, *old(pos) as int, operand_enc(op)),
            None => true,
        },
    ensures
        *final(pos) <= bytes@.len(),
        *old(pos) <= *final(pos),
        match hint {
            Some(op) => match r {
                Some(x) => x@ == op && *final(pos) == *old(pos) + operand_enc(op).len(),
                None => false,
            },
            None => true,
        },
{
    let ghost p0 = *pos as int;
    proof {
        match hint {
            Some(op) => {
                lemma_pow256_values();
                match op {
                    crate::operand::OperandV::Register(rv) => {
                        lemma_le_bytes_len(rv as nat, 8);
                        lemma_enc_at_concat(bytes@, p0, seq![0u8], register_enc(rv));
                        lemma_enc_at_bytes(bytes@, p0, seq![0u8]);
                        assert(bytes@[p0 + 0] == seq![0u8][0]);
                    },
                    crate::operand::OperandV::Literal(l) => {
                        lemma_enc_at_concat(bytes@, p0, seq![1u8], literal_enc(l));
                        lemma_enc_at_bytes(bytes@, p0, seq![1u8]);
                        assert(bytes@[p0 + 0] == seq![1u8][0]);
                    },
                }
            },
            None => {},
        }
    }
    if *pos >= bytes.len() {
        return None;
    }
    let tag = bytes[*pos];
    *pos = *pos + 1;
    if tag == 0 {
        match read_le(bytes, pos, 8) {
            Some(v) => {
                proof {
                    match hint {
                        Some(op) => {
                            if let crate::operand::OperandV::Register(rv) = op {
                                assert(le_bytes(v as nat, 8) =~= le_bytes(rv as nat, 8));
                                lemma_le_bytes_inj(v as nat, rv as nat, 8);
                                assert(v as u64 == rv);
                            }
                        },
                        None => {},
                    }
                }
                Some(crate::operand::Operand::Register(Register::new(v as u64)))
            },
            None => None,
        }
    } else if tag == 1 {
        let ghost inner: Option<LiteralV> = match hint {
            Some(crate::operand::OperandV::Literal(l)) => Some(l),
            _ => None,
        };
        match decode_literal(bytes, pos, Ghost(inner)) {
            Some(l) => Some(crate::operand::Operand::Literal(l)),
            None => None,
        }
    } else {
        None
    }
}

/// Reads one encoded operation: operands, then the destination register,
/// with the same hint convention as `decode_literal`.
fn decode_operation(
    bytes: &Vec<u8>,
    pos: &mut usize,
    Ghost(hint): Ghost<Option<BinaryOperationV>>,
) -> (r: Option<BinaryOperation>)
    requires
        *old(pos) <= bytes@.len(),
        match hint {
            Some(op) => op.wf() && enc_at(bytes@, *old(pos) as int, operation_enc(op)),
            None => true,
        },
    ensures
        *final(pos) <= bytes@.len(),
        *old(pos) <= *final(pos),
        match hint {
            Some(op) => match r {
                Some(x) => x@ == op && *final(pos) == *old(pos) + operation_enc(op).len(),
                None => false,
            },
            None => true,
        },
{
    let ghost p0 = *pos as int;
    proof {
        match hint {
            Some(op) => {
                lemma_pow256_values();
                lemma_le_bytes_len(op.destination as nat, 8);
                lemma_enc_at_concat(
                    bytes@,
                    p0,
                    operand_enc(op.first) + operand_enc(op.second),
                    register_enc(op.destination),
                );
                lemma_enc_at_concat(bytes@, p0, operand_enc(op.first), operand_enc(op.second));
            },
            None => {},
        }
    }
    let ghost hint1: Option<crate::operand::OperandV> = match hint {
        Some(op) => Some(op.first),
        None => None,
    };
    let first = match decode_operand(bytes, pos, Ghost(hint1)) {
        Some(op) => op,
        None => {
            return None;
        },
    };
    let ghost hint2: Option<crate::operand::OperandV> = match hint {
        Some(op) => Some(op.second),
        None => None,
    };
    let second = match decode_operand(bytes, pos, Ghost(hint2)) {
        Some(op) => op,
        None => {
            return None;
        },
    };
    let destination = match read_le(bytes, pos, 8) {
        Some(v) => {
            proof {
                match hint {
                    Some(op) => {
                        assert(le_bytes(v as nat, 8) =~= le_bytes(op.destination as nat, 8));
                        lemma_le_bytes_inj(v as nat, op.destination as nat, 8);
                    },
                    None => {},
                }
            }
            Register::new(v as u64)
        },
        None => {
            return None;
        },
    };
    Some(BinaryOperation::new(first, second, destination))
}

/// Powers of 256, for bounding what a fixed width can hold.
pub open spec fn pow256(w: nat) -> nat
    decreases w,
{
    if w == 0 {
        1
    } else {
        256 * pow256((w - 1) as nat)
    }
}

proof fn lemma_pow256_values()
    ensures
        pow256(1) == 0x100,
        pow256(2) == 0x1_0000,
        pow256(4) == 0x1_0000_0000,
        pow256(8) == 0x1_0000_0000_0000_0000,
        pow256(16) == 0x1_0000_0000_0000_0000_0000_0000_0000_0000,
{
    assert(pow256(0) == 1);
    assert(pow256(1) == 0x100);
    assert(pow256(2) == 0x1_0000);
    assert(pow256(3) == 0x100_0000);
    assert(pow256(4) == 0x1_0000_0000);
    assert(pow256(5) == 0x100_0000_0000);
    assert(pow256(6) == 0x1_0000_0000_0000);
    assert(pow256(7) == 0x100_0000_0000_0000);
    assert(pow256(8) == 0x1_0000_0000_0000_0000);
    assert(pow256(9) == 0x100_0000_0000_0000_0000);
    assert(pow256(10) == 0x1_0000_0000_0000_0000_0000);
    assert(pow256(11) == 0x100_0000_0000_0000_0000_0000);
    assert(pow256(12) == 0x1_0000_0000_0000_0000_0000_0000);
    assert(pow256(13) == 0x100_0000_0000_0000_0000_0000_0000);
    assert(pow256(14) == 0x1_0000_0000_0000_0000_0000_0000_0000);
    assert(pow256(15) == 0x100_0000_0000_0000_0000_0000_0000_0000);
    assert(pow256(16) == 0x1_0000_0000_0000_0000_0000_0000_0000_0000);
}

proof fn lemma_le_bytes_len(n: nat, w: nat)
    ensures
        le_bytes(n, w).len() == w,
    decreases w,
{
    if w > 0 {
        lemma_le_bytes_len(n / 256, (w - 1) as nat);
    }
}

/// Two numbers that fit a width and share its little-endian bytes are equal.
proof fn lemma_le_bytes_inj(n1: nat, n2: nat, w: nat)
    requires
        n1 < pow256(w),
        n2 < pow256(w),
        le_bytes(n1, w) == le_bytes(n2, w),
    ensures
        n1 == n2,
    decreases w,
{
    if w == 0 {
        assert(n1 == 0 && n2 == 0);
    } else {
        lemma_le_bytes_len(n1 / 256, (w - 1) as nat);
        lemma_le_bytes_len(n2 / 256, (w - 1) as nat);
        let s1 = le_bytes(n1, w);
        let s2 = le_bytes(n2, w);
        assert(s1[0] == (n1 % 256) as u8 && s2[0] == (n2 % 256) as u8);
        assert(n1 % 256 == n2 % 256);
        assert(le_bytes(n1 / 256, (w - 1) as nat) =~= le_bytes(n2 / 256, (w - 1) as nat)) by {
            let t1 = le_bytes(n1 / 256, (w - 1) as nat);
            let t2 = le_bytes(n2 / 256, (w - 1) as nat);
            assert(forall|i: int| 0 <= i < t1.len() ==> #[trigger] t1[i] == s1[i + 1] && t2[i]
                == s2[i + 1]);
        }
        assert(n1 / 256 < pow256((w - 1) as nat) && n2 / 256 < pow256((w - 1) as nat)) by (
        nonlinear_arith)
            requires
                n1 < 256 * pow256((w - 1) as nat),
                n2 < 256 * pow256((w - 1) as nat),
        ;
        lemma_le_bytes_inj(n1 / 256, n2 / 256, (w - 1) as nat);
        assert(n1 == 256 * (n1 / 256) + n1 % 256 && n2 == 256 * (n2 / 256) + n2 % 256);
    }
}

/// How a literal's encoding decomposes: the kind byte first, the payload
/// after it, and the mode byte last.
proof fn lemma_enc_parts(l: LiteralV)
    ensures
        literal_enc(l).len() == 2 + literal_payload(l).len(),
        literal_enc(l)[0] == kind_byte(l),
        forall|i: int| 0 <= i < literal_payload(l).len() ==> literal_enc(l)[1 + i]
            == #[trigger] literal_payload(l)[i],
        literal_enc(l)[1 + literal_payload(l).len() as int] == mode_byte(l.mode()),
{
}

/// Two well-formed literals whose encodings open one and the same byte
/// sequence are the same literal: the encoding is prefix-unambiguous.
#[verifier::rlimit(100)]
#[verifier::spinoff_prover]
proof fn lemma_literal_enc_prefix(x: LiteralV, y: LiteralV, s: Seq<u8>)
    requires
        x.wf(),
        y.wf(),
        literal_enc(x).len() <= s.len(),
        literal_enc(x) == s.subrange(0, literal_enc(x).len() as int),
        literal_enc(y).len() <= s.len(),
        literal_enc(y) == s.subrange(0, literal_enc(y).len() as int),
    ensures
        x == y,
{
    lemma_enc_parts(x);
    lemma_enc_parts(y);
    lemma_pow256_values();
    assert(kind_byte(x) == s[0] && kind_byte(y) == s[0]);
    match (x, y) {
        (LiteralV::Boolean(b1, m1), LiteralV::Boolean(b2, m2)) => {
            assert(literal_enc(x) == literal_enc(y));
            assert(b1 == b2 && m1 == m2);
        },
        (LiteralV::Address(a1, m1), LiteralV::Address(a2, m2)) => {
            assert(literal_enc(x) == literal_enc(y));
            assert(a1 =~= a2);
            assert(m1 == m2);
        },
        (LiteralV::Field(v1, m1), LiteralV::Field(v2, m2)) => {
            lemma_le_bytes_len(v1 as nat, 16);
            lemma_le_bytes_len(v2 as nat, 16);
            assert(literal_enc(x) == literal_enc(y));
            assert(le_bytes(v1 as nat, 16) =~= le_bytes(v2 as nat, 16));
            lemma_le_bytes_inj(v1 as nat, v2 as nat, 16);
            assert(m1 == m2);
        },
        (LiteralV::Group(v1, m1), LiteralV::Group(v2, m2)) => {
            lemma_le_bytes_len(v1 as nat, 16);
            lemma_le_bytes_len(v2 as nat, 16);
            assert(literal_enc(x) == literal_enc(y));
            assert(le_bytes(v1 as nat, 16) =~= le_bytes(v2 as nat, 16));
            lemma_le_bytes_inj(v1 as nat, v2 as nat, 16);
            assert(m1 == m2);
        },
        (LiteralV::I8(v1, m1), LiteralV::I8(v2, m2)) => {
            lemma_le_bytes_len((v1 as u8) as nat, 1);
            lemma_le_bytes_len((v2 as u8) as nat, 1);
            assert(literal_enc(x) == literal_enc(y));
            assert(le_bytes((v1 as u8) as nat, 1) =~= le_bytes((v2 as u8) as nat, 1));
            lemma_le_bytes_inj((v1 as u8) as nat, (v2 as u8) as nat, 1);
            assert(v1 == v2) by (bit_vector)
                requires
                    v1 as u8 == v2 as u8,
            ;
            assert(m1 == m2);
        },
        (LiteralV::I16(v1, m1), LiteralV::I16(v2, m2)) => {
            lemma_le_bytes_len((v1 as u16) as nat, 2);
            lemma_le_bytes_len((v2 as u16) as nat, 2);
            assert(literal_enc(x) == literal_enc(y));
            assert(le_bytes((v1 as u16) as nat, 2) =~= le_bytes((v2 as u16) as nat, 2));
            lemma_le_bytes_inj((v1 as u16) as nat, (v2 as u16) as nat, 2);
            assert(v1 == v2) by (bit_vector)
                requires
                    v1 as u16 == v2 as u16,
            ;
            assert(m1 == m2);
        },
        (LiteralV::I32(v1, m1), LiteralV::I32(v2, m2)) => {
            lemma_le_bytes_len((v1 as u32) as nat, 4);
            lemma_le_bytes_len((v2 as u32) as nat, 4);
            assert(literal_enc(x) == literal_enc(y));
            assert(le_bytes((v1 as u32) as nat, 4) =~= le_bytes((v2 as u32) as nat, 4));
            lemma_le_bytes_inj((v1 as u32) as nat, (v2 as u32) as nat, 4);
            assert(v1 == v2) by (bit_vector)
                requires
                    v1 as u32 == v2 as u32,
            ;
            assert(m1 == m2);
        },
        (LiteralV::I64(v1, m1), LiteralV::I64(v2, m2)) => {
            lemma_le_bytes_len((v1 as u64) as nat, 8);
            lemma_le_bytes_len((v2 as u64) as nat, 8);
            assert(literal_enc(x) == literal_enc(y));
            assert(le_bytes((v1 as u64) as nat, 8) =~= le_bytes((v2 as u64) as nat, 8));
            lemma_le_bytes_inj((v1 as u64) as nat, (v2 as u64) as nat, 8);
            assert(v1 == v2) by (bit_vector)
                requires
                    v1 as u64 == v2 as u64,
            ;
            assert(m1 == m2);
        },
        (LiteralV::I128(v1, m1), LiteralV::I128(v2, m2)) => {
            lemma_le_bytes_len((v1 as u128) as nat, 16);
            lemma_le_bytes_len((v2 as u128) as nat, 16);
            assert(literal_enc(x) == literal_enc(y));
            assert(le_bytes((v1 as u128) as nat, 16) =~= le_bytes((v2 as u128) as nat, 16));
            lemma_le_bytes_inj((v1 as u128) as nat, (v2 as u128) as nat, 16);
            assert(v1 == v2) by (bit_vector)
                requires
                    v1 as u128 == v2 as u128,
            ;
            assert(m1 == m2);
        },
        (LiteralV::U8(v1, m1), LiteralV::U8(v2, m2)) => {
            lemma_le_bytes_len(v1 as nat, 1);
            lemma_le_bytes_len(v2 as nat, 1);
            assert(literal_enc(x) == literal_enc(y));
            assert(le_bytes(v1 as nat, 1) =~= le_bytes(v2 as nat, 1));
            lemma_le_bytes_inj(v1 as nat, v2 as nat, 1);
            assert(m1 == m2);
        },
        (LiteralV::U16(v1, m1), LiteralV::U16(v2, m2)) => {
            lemma_le_bytes_len(v1 as nat, 2);
            lemma_le_bytes_len(v2 as nat, 2);
            assert(literal_enc(x) == literal_enc(y));
            assert(le_bytes(v1 as nat, 2) =~= le_bytes(v2 as nat, 2));
            lemma_le_bytes_inj(v1 as nat, v2 as nat, 2);
            assert(m1 == m2);
        },
        (LiteralV::U32(v1, m1), LiteralV::U32(v2, m2)) => {
            lemma_le_bytes_len(v1 as nat, 4);
            lemma_le_bytes_len(v2 as nat, 4);
            assert(literal_enc(x) == literal_enc(y));
            assert(le_bytes(v1 as nat, 4) =~= le_bytes(v2 as nat, 4));
            lemma_le_bytes_inj(v1 as nat, v2 as nat, 4);
            assert(m1 == m2);
        },
        (LiteralV::U64(v1, m1), LiteralV::U64(v2, m2)) => {
            lemma_le_bytes_len(v1 as nat, 8);
            lemma_le_bytes_len(v2 as nat, 8);
            assert(literal_enc(x) == literal_enc(y));
            assert(le_bytes(v1 as nat, 8) =~= le_bytes(v2 as nat, 8));
            lemma_le_bytes_inj(v1 as nat, v2 as nat, 8);
            assert(m1 == m2);
        },
        (LiteralV::U128(v1, m1), LiteralV::U128(v2, m2)) => {
            lemma_le_bytes_len(v1 as nat, 16);
            lemma_le_bytes_len(v2 as nat, 16);
            assert(literal_enc(x) == literal_enc(y));
            assert(le_bytes(v1 as nat, 16) =~= le_bytes(v2 as nat, 16));
            lemma_le_bytes_inj(v1 as nat, v2 as nat, 16);
            assert(m1 == m2);
        },
        (LiteralV::Str(s1, m1), LiteralV::Str(s2, m2)) => {
            lemma_le_bytes_len(s1.len(), 2);
            lemma_le_bytes_len(s2.len(), 2);
            // the two-byte length prefix sits at the same place in both
            assert(literal_payload(x)[0] == le_bytes(s1.len(), 2)[0] && literal_payload(x)[1]
                == le_bytes(s1.len(), 2)[1]);
            assert(literal_payload(y)[0] == le_bytes(s2.len(), 2)[0] && literal_payload(y)[1]
                == le_bytes(s2.len(), 2)[1]);
            assert(literal_enc(x)[1] == s[1] && literal_enc(x)[2] == s[2]);
            assert(literal_enc(y)[1] == s[1] && literal_enc(y)[2] == s[2]);
            assert(le_bytes(s1.len(), 2) =~= le_bytes(s2.len(), 2));
            lemma_le_bytes_inj(s1.len(), s2.len(), 2);
            assert(literal_enc(x) == literal_enc(y));
            assert(s1 =~= s2) by {
                assert(forall|i: int| 0 <= i < s1.len() ==> #[trigger] s1[i] == literal_payload(
                    x,
                )[2 + i] && s2[i] == literal_payload(y)[2 + i]);
            }
            assert(m1 == m2);
        },
        _ => {
            assert(false);
        },
    }
}

/// Two well-formed operands whose encodings open one and the same byte
/// sequence are the same operand, with one and the same encoding.
proof fn lemma_operand_enc_prefix(x: crate::operand::OperandV, y: crate::operand::OperandV, s: Seq<u8>)
    requires
        x.wf(),
        y.wf(),
        operand_enc(x).len() <= s.len(),
        operand_enc(x) == s.subrange(0, operand_enc(x).len() as int),
        operand_enc(y).len() <= s.len(),
        operand_enc(y) == s.subrange(0, operand_enc(y).len() as int),
    ensures
        x == y,
{
    lemma_pow256_values();
    assert(operand_enc(x)[0] == s[0] && operand_enc(y)[0] == s[0]);
    match (x, y) {
        (crate::operand::OperandV::Register(r1), crate::operand::OperandV::Register(r2)) => {
            lemma_le_bytes_len(r1 as nat, 8);
            lemma_le_bytes_len(r2 as nat, 8);
            assert(operand_enc(x) == operand_enc(y));
            assert(le_bytes(r1 as nat, 8) =~= le_bytes(r2 as nat, 8)) by {
                assert(forall|i: int| 0 <= i < 8 ==> #[trigger] le_bytes(r1 as nat, 8)[i]
                    == operand_enc(x)[1 + i] && le_bytes(r2 as nat, 8)[i] == operand_enc(y)[1
                    + i]);
            }
            lemma_le_bytes_inj(r1 as nat, r2 as nat, 8);
        },
        (crate::operand::OperandV::Literal(l1), crate::operand::OperandV::Literal(l2)) => {
            let tail = s.subrange(1, s.len() as int);
            assert forall|i: int| 0 <= i < literal_enc(l1).len() implies #[trigger] literal_enc(
                l1,
            )[i] == s[1 + i] by {
                assert(operand_enc(x)[1 + i] == literal_enc(l1)[i]);
                assert(operand_enc(x)[1 + i] == s.subrange(0, operand_enc(x).len() as int)[1 + i]);
            }
            assert forall|i: int| 0 <= i < literal_enc(l2).len() implies #[trigger] literal_enc(
                l2,
            )[i] == s[1 + i] by {
                assert(operand_enc(y)[1 + i] == literal_enc(l2)[i]);
                assert(operand_enc(y)[1 + i] == s.subrange(0, operand_enc(y).len() as int)[1 + i]);
            }
            assert(literal_enc(l1) =~= tail.subrange(0, literal_enc(l1).len() as int));
            assert(literal_enc(l2) =~= tail.subrange(0, literal_enc(l2).len() as int));
            lemma_literal_enc_prefix(l1, l2, tail);
        },
        _ => {
            assert(false);
        },
    }
}

/// The binary codec is unambiguous: two well-formed operations with one and
/// the same encoding are one and the same operation. Together with the
/// contract of `from_bytes_le` — a successful decode returns a well-formed
/// operation whose encoding is exactly the input — this gives the round
/// trip: decoding the encoding of a well-formed operation can only return
/// that operation.
pub proof fn lemma_operation_enc_injective(a: BinaryOperationV, b: BinaryOperationV)
    requires
        a.wf(),
        b.wf(),
        operation_enc(a) == operation_enc(b),
    ensures
        a == b,
{
    let s = operation_enc(a);
    assert(operand_enc(a.first) =~= s.subrange(0, operand_enc(a.first).len() as int));
    assert(operand_enc(b.first) =~= s.subrange(0, operand_enc(b.first).len() as int));
    lemma_operand_enc_prefix(a.first, b.first, s);
    let l1 = operand_enc(a.first).len() as int;
    let tail = s.subrange(l1, s.len() as int);
    assert(operand_enc(a.second) =~= tail.subrange(0, operand_enc(a.second).len() as int));
    assert(operand_enc(b.second) =~= tail.subrange(0, operand_enc(b.second).len() as int));
    lemma_operand_enc_prefix(a.second, b.second, tail);
    lemma_pow256_values();
    lemma_le_bytes_len(a.destination as nat, 8);
    lemma_le_bytes_len(b.destination as nat, 8);
    assert(le_bytes(a.destination as nat, 8) =~= le_bytes(b.destination as nat, 8)) by {
        let l2 = operand_enc(a.second).len() as int;
        assert(forall|i: int| 0 <= i < 8 ==> #[trigger] le_bytes(a.destination as nat, 8)[i]
            == s[l1 + l2 + i] && le_bytes(b.destination as nat, 8)[i] == s[l1 + l2 + i]);
    }
    lemma_le_bytes_inj(a.destination as nat, b.destination as nat, 8);
}

impl SubWrapped {
    /// Encodes the instruction's payload: the operands in declaration
    /// order, then the destination register. The opcode discriminant is the
    /// enclosing instruction envelope's concern.
    pub fn to_bytes_le(&self) -> (r: Vec<u8>)
        ensures
            r@ == operation_enc(self@),
    {
        let mut out: Vec<u8> = Vec::new();
        push_operand_enc(&mut out, &self.operation.first);
        push_operand_enc(&mut out, &self.operation.second);
        push_register_enc(&mut out, &self.operation.destination);
        proof {
            assert(out@ =~= operation_enc(self@));
        }
        out
    }

    /// Decodes an instruction payload. On success the decoded instruction
    /// is well formed and the input is exactly its encoding, so encoding is
    /// the exact inverse of decoding; every other input is a decode fault.
    pub fn from_bytes_le(bytes: &Vec<u8>) -> (r: Result<SubWrapped, Fault>)
        ensures
            match r {
                Ok(i) => i@.wf() && bytes@ == operation_enc(i@),
                Err(f) => f@ == FaultV::Decode,
            },
            forall|op: BinaryOperationV| op.wf() && bytes@ == operation_enc(op) ==> r is Ok,
    {
        let ghost hint: Option<BinaryOperationV> = if exists|op: BinaryOperationV|
            op.wf() && bytes@ == operation_enc(op) {
            Some(choose|op: BinaryOperationV| op.wf() && bytes@ == operation_enc(op))
        } else {
            None
        };
        proof {
            match hint {
                Some(op) => {
                    assert(bytes@.subrange(0, operation_enc(op).len() as int) =~= operation_enc(
                        op,
                    ));
                },
                None => {},
            }
        }
        let mut pos: usize = 0;
        let op = match decode_operation(bytes, &mut pos, Ghost(hint)) {
            Some(op) => op,
            None => {
                return Err(Fault::Decode);
            },
        };
        if pos != bytes.len() {
            return Err(Fault::Decode);
        }
        if !op.is_well_formed() {
            return Err(Fault::Decode);
        }
        let inst = SubWrapped::new(op);
        let shown = inst.to_bytes_le();
        if !bytes_eq(&shown, bytes) {
            return Err(Fault::Decode);
        }
        Ok(inst)
    }
}

} // verus!
