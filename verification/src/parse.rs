use vstd::prelude::*;

use crate::codec::{enc_at, lemma_enc_at_bytes, lemma_enc_at_concat};
use crate::fault::{Fault, FaultV};
use crate::literal::{bytes_eq, check_bech32_byte, Literal, LiteralV};
use crate::mode::Mode;
use crate::operand::OperandV;
use crate::registers::Register;
use crate::sub_wrapped::{BinaryOperation, BinaryOperationV, SubWrapped};
use crate::text::{
    ascii_str, dec_nat, lemma_dec_nat_ascii, literal_bytes, literal_core_bytes, mode_bytes,
    operation_bytes, operation_to_bytes, push_literal, register_bytes, suffix_bytes,
};

verus! {

broadcast use vstd::string::group_string_axioms;

/// The value a run of decimal digits spells, most significant first.
pub open spec fn dec_val(s: Seq<u8>) -> int
    decreases s.len(),
{
    if s.len() == 0 {
        0
    } else {
        dec_val(s.drop_last()) * 10 + (s.last() - 48)
    }
}

/// Reading back a canonical numeral gives the number it was made from.
proof fn lemma_dec_val_of(n: nat)
    ensures
        dec_val(dec_nat(n)) == n,
    decreases n,
{
    let s = dec_nat(n);
    if n < 10 {
        assert(s == seq![(48 + n) as u8]);
        assert(s.len() == 1 && s.last() == (48 + n) as u8);
        assert(s.drop_last() =~= Seq::<u8>::empty());
        assert(dec_val(s.drop_last()) == 0);
        assert(dec_val(s) == dec_val(s.drop_last()) * 10 + (s.last() - 48));
    } else {
        lemma_dec_val_of(n / 10);
        assert(s == dec_nat(n / 10).push((48 + n % 10) as u8));
        assert(s.len() >= 1 && s.last() == (48 + n % 10) as u8);
        assert(s.drop_last() =~= dec_nat(n / 10));
        assert(dec_val(s) == dec_val(s.drop_last()) * 10 + (s.last() - 48));
    }
}

/// A canonical numeral is never empty, and opens with a zero digit only for
/// zero itself.
proof fn lemma_dec_nat_first(n: nat)
    ensures
        dec_nat(n).len() >= 1,
        n > 0 ==> dec_nat(n)[0] != 48,
    decreases n,
{
    if n >= 10 {
        lemma_dec_nat_first(n / 10);
        assert(dec_nat(n) == dec_nat(n / 10).push((48 + n % 10) as u8));
        assert(dec_nat(n)[0] == dec_nat(n / 10)[0]);
    }
}

/// The value of a digit prefix never exceeds the value of the whole run.
proof fn lemma_dec_val_prefix(s: Seq<u8>, k: int)
    requires
        0 <= k <= s.len(),
        forall|i: int| 0 <= i < s.len() ==> 48 <= #[trigger] s[i] <= 57,
    ensures
        0 <= dec_val(s.subrange(0, k)) <= dec_val(s),
    decreases s.len() - k,
{
    if k == s.len() {
        assert(s.subrange(0, k) =~= s);
        lemma_dec_val_nonneg(s);
    } else {
        lemma_dec_val_prefix(s, k + 1);
        let a = s.subrange(0, k);
        let b = s.subrange(0, k + 1);
        assert(b.drop_last() =~= a);
        assert(b.last() == s[k]);
        lemma_dec_val_nonneg(a);
        assert(dec_val(b) == dec_val(a) * 10 + (s[k] - 48));
        assert(dec_val(a) <= dec_val(a) * 10) by (nonlinear_arith)
            requires
                dec_val(a) >= 0,
        ;
    }
}

proof fn lemma_dec_val_nonneg(s: Seq<u8>)
    requires
        forall|i: int| 0 <= i < s.len() ==> 48 <= #[trigger] s[i] <= 57,
    ensures
        dec_val(s) >= 0,
    decreases s.len(),
{
    if s.len() > 0 {
        assert(forall|i: int| 0 <= i < s.drop_last().len() ==> 48 <= #[trigger] s.drop_last()[i]
            <= 57);
        lemma_dec_val_nonneg(s.drop_last());
        assert(dec_val(s.drop_last()) * 10 >= 0) by (nonlinear_arith)
            requires
                dec_val(s.drop_last()) >= 0,
        ;
    }
}

/// The first byte of a well-formed literal's canonical text, by kind: `t`
/// or `f` for a boolean, `a` for an address, a quote for a string, a digit
/// or a minus sign for the numeric kinds.
proof fn lemma_literal_first_byte(l: LiteralV)
    requires
        l.wf(),
    ensures
        literal_core_bytes(l).len() >= 1,
        literal_bytes(l)[0] == literal_core_bytes(l)[0],
        (l matches LiteralV::Boolean(bv, _) ==> literal_core_bytes(l)[0] == (if bv {
            116u8
        } else {
            102u8
        })),
        (l is Address ==> literal_core_bytes(l)[0] == 97),
        (l is Str ==> literal_core_bytes(l)[0] == 34),
        ((l is Field || l is Group || l is U8 || l is U16 || l is U32 || l is U64 || l is U128)
            ==> 48 <= literal_core_bytes(l)[0] <= 57),
        (l matches LiteralV::I8(v, _) ==> (if v < 0 {
            literal_core_bytes(l)[0] == 45
        } else {
            48 <= literal_core_bytes(l)[0] <= 57
        })),
        (l matches LiteralV::I16(v, _) ==> (if v < 0 {
            literal_core_bytes(l)[0] == 45
        } else {
            48 <= literal_core_bytes(l)[0] <= 57
        })),
        (l matches LiteralV::I32(v, _) ==> (if v < 0 {
            literal_core_bytes(l)[0] == 45
        } else {
            48 <= literal_core_bytes(l)[0] <= 57
        })),
        (l matches LiteralV::I64(v, _) ==> (if v < 0 {
            literal_core_bytes(l)[0] == 45
        } else {
            48 <= literal_core_bytes(l)[0] <= 57
        })),
        (l matches LiteralV::I128(v, _) ==> (if v < 0 {
            literal_core_bytes(l)[0] == 45
        } else {
            48 <= literal_core_bytes(l)[0] <= 57
        })),
{
    match l {
        LiteralV::Boolean(_, _) => {},
        LiteralV::Address(_, _) => {},
        LiteralV::Str(_, _) => {},
        LiteralV::Field(v, _) => {
            lemma_dec_nat_first(v as nat);
            lemma_dec_nat_ascii(v as nat);
            assert(literal_core_bytes(l)[0] == dec_nat(v as nat)[0]);
        },
        LiteralV::Group(v, _) => {
            lemma_dec_nat_first(v as nat);
            lemma_dec_nat_ascii(v as nat);
            assert(literal_core_bytes(l)[0] == dec_nat(v as nat)[0]);
        },
        LiteralV::U8(v, _) => {
            lemma_dec_nat_first(v as nat);
            lemma_dec_nat_ascii(v as nat);
            assert(literal_core_bytes(l)[0] == dec_nat(v as nat)[0]);
        },
        LiteralV::U16(v, _) => {
            lemma_dec_nat_first(v as nat);
            lemma_dec_nat_ascii(v as nat);
            assert(literal_core_bytes(l)[0] == dec_nat(v as nat)[0]);
        },
        LiteralV::U32(v, _) => {
            lemma_dec_nat_first(v as nat);
            lemma_dec_nat_ascii(v as nat);
            assert(literal_core_bytes(l)[0] == dec_nat(v as nat)[0]);
        },
        LiteralV::U64(v, _) => {
            lemma_dec_nat_first(v as nat);
            lemma_dec_nat_ascii(v as nat);
            assert(literal_core_bytes(l)[0] == dec_nat(v as nat)[0]);
        },
        LiteralV::U128(v, _) => {
            lemma_dec_nat_first(v as nat);
            lemma_dec_nat_ascii(v as nat);
            assert(literal_core_bytes(l)[0] == dec_nat(v as nat)[0]);
        },
        LiteralV::I8(v, _) => {
            lemma_signed_first(v as int);
            assert(literal_core_bytes(l)[0] == crate::text::dec_int(v as int)[0]);
        },
        LiteralV::I16(v, _) => {
            lemma_signed_first(v as int);
            assert(literal_core_bytes(l)[0] == crate::text::dec_int(v as int)[0]);
        },
        LiteralV::I32(v, _) => {
            lemma_signed_first(v as int);
            assert(literal_core_bytes(l)[0] == crate::text::dec_int(v as int)[0]);
        },
        LiteralV::I64(v, _) => {
            lemma_signed_first(v as int);
            assert(literal_core_bytes(l)[0] == crate::text::dec_int(v as int)[0]);
        },
        LiteralV::I128(v, _) => {
            lemma_signed_first(v as int);
            assert(literal_core_bytes(l)[0] == crate::text::dec_int(v as int)[0]);
        },
    }
}

proof fn lemma_signed_first(v: int)
    ensures
        crate::text::dec_int(v).len() >= 1,
        v < 0 ==> crate::text::dec_int(v)[0] == 45,
        v >= 0 ==> 48 <= crate::text::dec_int(v)[0] <= 57,
{
    if v < 0 {
        lemma_dec_nat_first((-v) as nat);
    } else {
        lemma_dec_nat_first(v as nat);
        lemma_dec_nat_ascii(v as nat);
    }
}

/// How a literal's canonical text decomposes in place: the core first, then
/// the dot, then the mode.
proof fn lemma_literal_text_at(bytes: Seq<u8>, pos: int, l: LiteralV)
    requires
        enc_at(bytes, pos, literal_bytes(l)),
    ensures
        literal_bytes(l).len() == literal_core_bytes(l).len() + 1 + mode_bytes(l.mode()).len(),
        enc_at(bytes, pos, literal_core_bytes(l)),
        enc_at(
            bytes,
            pos + literal_core_bytes(l).len(),
            seq![46u8] + mode_bytes(l.mode()),
        ),
{
    assert(literal_bytes(l) =~= literal_core_bytes(l) + (seq![46u8] + mode_bytes(l.mode())));
    assert(enc_at(bytes, pos, literal_core_bytes(l) + (seq![46u8] + mode_bytes(l.mode()))));
    lemma_enc_at_concat(
        bytes,
        pos,
        literal_core_bytes(l),
        seq![46u8] + mode_bytes(l.mode()),
    );
}

/// Whether `k` more bytes are available at `pos`.
fn has(bytes: &Vec<u8>, pos: usize, k: usize) -> (r: bool)
    ensures
        r == (pos + k <= bytes@.len()),
        bytes@.len() <= usize::MAX,
{
    let n = bytes.len();
    k <= n && pos <= n - k
}

/// Consumes one expected byte; says exactly when it does.
fn eat(bytes: &Vec<u8>, pos: &mut usize, b: u8) -> (r: bool)
    requires
        *old(pos) <= bytes@.len(),
    ensures
        *final(pos) <= bytes@.len(),
        *old(pos) <= *final(pos),
        r == (*old(pos) < bytes@.len() && bytes@[*old(pos) as int] == b),
        r ==> *final(pos) == *old(pos) + 1,
        !r ==> *final(pos) == *old(pos),
{
    if *pos < bytes.len() {
        if bytes[*pos] == b {
            *pos = *pos + 1;
            return true;
        }
    }
    false
}

/// Reads a decimal numeral: one `0`, or a nonzero digit followed by more
/// digits. Stops before the first non-digit; fails on overflow past `u128`.
/// The ghost hint carries the number whose canonical numeral is known to
/// sit here, followed by a non-digit: reading then returns exactly it.
fn parse_u128(bytes: &Vec<u8>, pos: &mut usize, Ghost(hint): Ghost<Option<u128>>) -> (r: Option<
    u128,
>)
    requires
        *old(pos) <= bytes@.len(),
        match hint {
            Some(n) => {
                &&& enc_at(bytes@, *old(pos) as int, dec_nat(n as nat))
                &&& (*old(pos) + dec_nat(n as nat).len() == bytes@.len() || !(48 <= bytes@[*old(
                    pos,
                ) + dec_nat(n as nat).len()] <= 57))
            },
            None => true,
        },
    ensures
        *final(pos) <= bytes@.len(),
        *old(pos) <= *final(pos),
        match hint {
            Some(n) => r == Some(n) && *final(pos) == *old(pos) + dec_nat(n as nat).len(),
            None => true,
        },
{
    let ghost p0 = *pos as int;
    let ghost d: Seq<u8> = match hint {
        Some(n) => dec_nat(n as nat),
        None => Seq::empty(),
    };
    proof {
        match hint {
            Some(n) => {
                lemma_dec_nat_first(n as nat);
                lemma_dec_nat_ascii(n as nat);
                lemma_dec_val_of(n as nat);
                lemma_enc_at_bytes(bytes@, p0, d);
                assert forall|j: int| 0 <= j < d.len() implies #[trigger] bytes@[p0 + j]
                    == d[j] by {
                    assert(bytes@[p0 + j] == d[j]);
                }
                assert(bytes@[p0 + 0] == d[0]);
            },
            None => {},
        }
    }
    if *pos >= bytes.len() {
        return None;
    }
    let b0 = bytes[*pos];
    if !(48 <= b0 && b0 <= 57) {
        return None;
    }
    *pos = *pos + 1;
    let mut acc: u128 = (b0 - 48) as u128;
    if acc == 0 {
        proof {
            match hint {
                Some(n) => {
                    assert(n == 0);
                    assert(dec_nat(0).len() == 1);
                },
                None => {},
            }
        }
        return Some(0);
    }
    proof {
        match hint {
            Some(n) => {
                assert(dec_nat(0) == seq![48u8]);
                assert(n > 0);
                assert(d.subrange(0, 1).drop_last() =~= Seq::<u8>::empty());
                assert(d.subrange(0, 1).last() == d[0]);
                assert(d.subrange(0, 1).drop_last() =~= Seq::<u8>::empty());
                assert(d.subrange(0, 1).len() == 1);
                assert(dec_val(Seq::<u8>::empty()) == 0);
                assert(dec_val(d.subrange(0, 1)) == dec_val(d.subrange(0, 1).drop_last()) * 10 + (
                d.subrange(0, 1).last() - 48));
                assert(dec_val(d.subrange(0, 1)) == d[0] - 48);
                assert(acc as int == d[0] - 48);
                assert(p0 + d.len() <= bytes@.len());
            },
            None => {},
        }
    }
    while *pos < bytes.len() && 48 <= bytes[*pos] && bytes[*pos] <= 57
        invariant
            *pos <= bytes@.len(),
            p0 == *old(pos) as int,
            p0 <= *pos as int,
            1 <= *pos as int - p0,
            bytes@.len() <= usize::MAX,
            match hint {
                Some(n) => {
                    &&& n > 0
                    &&& d == dec_nat(n as nat)
                    &&& dec_val(d) == n
                    &&& d.len() >= 1
                    &&& p0 + d.len() <= bytes@.len()
                    &&& (p0 + d.len() == bytes@.len() || !(48 <= bytes@[p0 + d.len()] <= 57))
                    &&& (forall|j: int| 0 <= j < d.len() ==> #[trigger] bytes@[p0 + j] == d[j])
                    &&& (forall|j: int| 0 <= j < d.len() ==> 48 <= #[trigger] d[j] <= 57)
                    &&& *pos as int - p0 <= d.len()
                    &&& acc as int == dec_val(d.subrange(0, *pos as int - p0))
                },
                None => true,
            },
        decreases bytes@.len() - *pos,
    {
        let b = bytes[*pos];
        proof {
            match hint {
                Some(n) => {
                    assert(*pos as int - p0 < d.len()) by {
                        if *pos as int - p0 == d.len() {
                            assert(48 <= bytes@[p0 + d.len()] <= 57);
                        }
                    }
                    let k = *pos as int - p0;
                    assert(bytes@[p0 + k] == d[k]);
                    assert(b == d[k]);
                    lemma_dec_val_prefix(d, k + 1);
                    assert(d.subrange(0, k + 1).drop_last() =~= d.subrange(0, k));
                    assert(d.subrange(0, k + 1).last() == d[k]);
                    assert(dec_val(d.subrange(0, k + 1)) == acc as int * 10 + (b - 48));
                },
                None => {},
            }
        }
        let dd = (b - 48) as u128;
        if acc > (u128::MAX - dd) / 10 {
            proof {
                match hint {
                    Some(n) => {
                        assert(acc as int <= ((u128::MAX - dd) as int) / 10) by (nonlinear_arith)
                            requires
                                acc as int * 10 + dd as int <= u128::MAX as int,
                                0 <= dd <= 9,
                                0 <= acc,
                        ;
                    },
                    None => {},
                }
            }
            return None;
        }
        proof {
            assert(acc * 10 + dd <= u128::MAX) by (nonlinear_arith)
                requires
                    acc <= (u128::MAX - dd) / 10,
                    dd <= 9,
            ;
        }
        acc = acc * 10 + dd;
        *pos = *pos + 1;
    }
    proof {
        match hint {
            Some(n) => {
                assert(*pos as int - p0 == d.len()) by {
                    if *pos as int - p0 < d.len() {
                        assert(bytes@[p0 + (*pos as int - p0)] == d[*pos as int - p0]);
                        assert(48 <= d[*pos as int - p0] <= 57);
                    }
                }
                assert(d.subrange(0, d.len() as int) =~= d);
            },
            None => {},
        }
    }
    Some(acc)
}

/// Reads the mode tail: `constant`, `public` or `private`, with the same
/// hint convention as `parse_u128`.
fn parse_mode(bytes: &Vec<u8>, pos: &mut usize, Ghost(hint): Ghost<Option<Mode>>) -> (r: Option<
    Mode,
>)
    requires
        *old(pos) <= bytes@.len(),
        match hint {
            Some(m) => enc_at(bytes@, *old(pos) as int, mode_bytes(m)),
            None => true,
        },
    ensures
        *final(pos) <= bytes@.len(),
        *old(pos) <= *final(pos),
        match hint {
            Some(m) => r == Some(m) && *final(pos) == *old(pos) + mode_bytes(m).len(),
            None => true,
        },
{
    let ghost p0 = *pos as int;
    proof {
        match hint {
            Some(m) => {
                lemma_enc_at_bytes(bytes@, p0, mode_bytes(m));
                assert forall|j: int| 0 <= j < mode_bytes(m).len() implies #[trigger] bytes@[p0
                    + j] == mode_bytes(m)[j] by {
                    assert(bytes@[p0 + j] == mode_bytes(m)[j]);
                }
                assert(bytes@[p0 + 0] == mode_bytes(m)[0]);
            },
            None => {},
        }
    }
    let p = *pos;
    if has(bytes, p, 8) {
        if bytes[p] == 99 && bytes[p + 1] == 111 && bytes[p + 2] == 110 && bytes[p + 3] == 115
            && bytes[p + 4] == 116 && bytes[p + 5] == 97 && bytes[p + 6] == 110 && bytes[p + 7]
            == 116 {
            *pos = p + 8;
            return Some(Mode::Constant);
        }
    }
    if has(bytes, p, 7) {
        if bytes[p] == 112 && bytes[p + 1] == 114 && bytes[p + 2] == 105 && bytes[p + 3] == 118
            && bytes[p + 4] == 97 && bytes[p + 5] == 116 && bytes[p + 6] == 101 {
            *pos = p + 7;
            return Some(Mode::Private);
        }
    }
    if has(bytes, p, 6) {
        if bytes[p] == 112 && bytes[p + 1] == 117 && bytes[p + 2] == 98 && bytes[p + 3] == 108
            && bytes[p + 4] == 105 && bytes[p + 5] == 99 {
            *pos = p + 6;
            return Some(Mode::Public);
        }
    }
    None
}

/// Reads `.` then a mode, with the same hint convention as `parse_u128`.
fn parse_mode_tail(bytes: &Vec<u8>, pos: &mut usize, Ghost(hint): Ghost<Option<Mode>>) -> (r:
    Option<Mode>)
    requires
        *old(pos) <= bytes@.len(),
        match hint {
            Some(m) => enc_at(bytes@, *old(pos) as int, seq![46u8] + mode_bytes(m)),
            None => true,
        },
    ensures
        *final(pos) <= bytes@.len(),
        *old(pos) <= *final(pos),
        match hint {
            Some(m) => r == Some(m) && *final(pos) == *old(pos) + 1 + mode_bytes(m).len(),
            None => true,
        },
{
    let ghost p0 = *pos as int;
    proof {
        match hint {
            Some(m) => {
                lemma_enc_at_concat(bytes@, p0, seq![46u8], mode_bytes(m));
                lemma_enc_at_bytes(bytes@, p0, seq![46u8]);
                assert(bytes@[p0 + 0] == seq![46u8][0]);
            },
            None => {},
        }
    }
    if !eat(bytes, pos, 46) {
        return None;
    }
    let ghost inner: Option<Mode> = hint;
    parse_mode(bytes, pos, Ghost(inner))
}

fn to_i8(n: u128, neg: bool) -> (r: Option<i8>)
    ensures
        neg ==> (if 1 <= n <= 128 {
            r matches Some(v) && v as int == -(n as int)
        } else {
            r is None
        }),
        !neg ==> (if n <= 127 {
            r matches Some(v) && v as int == n as int
        } else {
            r is None
        }),
{
    if neg {
        if 1 <= n && n <= 128 {
            Some((-(n as i128)) as i8)
        } else {
            None
        }
    } else {
        if n <= 127 {
            Some(n as i8)
        } else {
            None
        }
    }
}

fn to_i16(n: u128, neg: bool) -> (r: Option<i16>)
    ensures
        neg ==> (if 1 <= n <= 32768 {
            r matches Some(v) && v as int == -(n as int)
        } else {
            r is None
        }),
        !neg ==> (if n <= 32767 {
            r matches Some(v) && v as int == n as int
        } else {
            r is None
        }),
{
    if neg {
        if 1 <= n && n <= 32768 {
            Some((-(n as i128)) as i16)
        } else {
            None
        }
    } else {
        if n <= 32767 {
            Some(n as i16)
        } else {
            None
        }
    }
}

fn to_i32(n: u128, neg: bool) -> (r: Option<i32>)
    ensures
        neg ==> (if 1 <= n <= 2147483648 {
            r matches Some(v) && v as int == -(n as int)
        } else {
            r is None
        }),
        !neg ==> (if n <= 2147483647 {
            r matches Some(v) && v as int == n as int
        } else {
            r is None
        }),
{
    if neg {
        if 1 <= n && n <= 2147483648 {
            Some((-(n as i128)) as i32)
        } else {
            None
        }
    } else {
        if n <= 2147483647 {
            Some(n as i32)
        } else {
            None
        }
    }
}

fn to_i64(n: u128, neg: bool) -> (r: Option<i64>)
    ensures
        neg ==> (if 1 <= n <= 9223372036854775808 {
            r matches Some(v) && v as int == -(n as int)
        } else {
            r is None
        }),
        !neg ==> (if n <= 9223372036854775807 {
            r matches Some(v) && v as int == n as int
        } else {
            r is None
        }),
{
    if neg {
        if 1 <= n && n <= 9223372036854775808 {
            Some((-(n as i128)) as i64)
        } else {
            None
        }
    } else {
        if n <= 9223372036854775807 {
            Some(n as i64)
        } else {
            None
        }
    }
}

fn to_i128(n: u128, neg: bool) -> (r: Option<i128>)
    ensures
        neg ==> (if 1 <= n <= 170141183460469231731687303715884105728u128 {
            r matches Some(v) && v as int == -(n as int)
        } else {
            r is None
        }),
        !neg ==> (if n <= 170141183460469231731687303715884105727u128 {
            r matches Some(v) && v as int == n as int
        } else {
            r is None
        }),
{
    if neg {
        if n == 0 {
            None
        } else if n == 170141183460469231731687303715884105728u128 {
            Some(i128::MIN)
        } else if n < 170141183460469231731687303715884105728u128 {
            Some(-(n as i128))
        } else {
            None
        }
    } else {
        if n <= 170141183460469231731687303715884105727u128 {
            Some(n as i128)
        } else {
            None
        }
    }
}

/// The magnitude of a literal's numeric value, for the kinds that carry
/// one: what its canonical numeral spells.
pub open spec fn literal_magnitude(l: LiteralV) -> Option<u128> {
    match l {
        LiteralV::Field(v, _) => Some(v),
        LiteralV::Group(v, _) => Some(v),
        LiteralV::U8(v, _) => Some(v as u128),
        LiteralV::U16(v, _) => Some(v as u128),
        LiteralV::U32(v, _) => Some(v as u128),
        LiteralV::U64(v, _) => Some(v as u128),
        LiteralV::U128(v, _) => Some(v),
        LiteralV::I8(v, _) => Some(if v < 0 { (-(v as int)) as u128 } else { v as u128 }),
        LiteralV::I16(v, _) => Some(if v < 0 { (-(v as int)) as u128 } else { v as u128 }),
        LiteralV::I32(v, _) => Some(if v < 0 { (-(v as int)) as u128 } else { v as u128 }),
        LiteralV::I64(v, _) => Some(if v < 0 { (-(v as int)) as u128 } else { v as u128 }),
        LiteralV::I128(v, _) => Some(if v < 0 { (-(v as int)) as u128 } else { v as u128 }),
        _ => None,
    }
}

/// Whether a literal kind's canonical text opens with a minus sign.
pub open spec fn literal_negative(l: LiteralV) -> bool {
    match l {
        LiteralV::I8(v, _) => v < 0,
        LiteralV::I16(v, _) => v < 0,
        LiteralV::I32(v, _) => v < 0,
        LiteralV::I64(v, _) => v < 0,
        LiteralV::I128(v, _) => v < 0,
        _ => false,
    }
}

/// Reads a string literal, from its opening quote on; same hint convention
/// as `parse_u128`.
#[verifier::rlimit(100)]
#[verifier::loop_isolation(false)]
fn parse_string_literal(bytes: &Vec<u8>, pos: &mut usize, Ghost(hint): Ghost<Option<LiteralV>>)
    -> (r: Option<Literal>)
    requires
        *old(pos) <= bytes@.len(),
        match hint {
            Some(l) => l.wf() && l is Str && enc_at(bytes@, *old(pos) as int, literal_bytes(l)),
            None => true,
        },
    ensures
        *final(pos) <= bytes@.len(),
        *old(pos) <= *final(pos),
        match hint {
            Some(l) => match r {
                Some(x) => x@ == l && *final(pos) == *old(pos) + literal_bytes(l).len(),
                None => false,
            },
            None => true,
        },
{
    let ghost p0 = *pos as int;
    let ghost core: Seq<u8> = match hint {
        Some(l) => literal_core_bytes(l),
        None => Seq::empty(),
    };
    let ghost mode_hint: Option<Mode> = match hint {
        Some(l) => Some(l.mode()),
        None => None,
    };
    proof {
        match hint {
            Some(l) => {
                lemma_literal_text_at(bytes@, p0, l);
                lemma_enc_at_bytes(bytes@, p0, core);
                assert forall|j: int| 0 <= j < core.len() implies #[trigger] bytes@[p0 + j]
                    == core[j] by {
                    assert(bytes@[p0 + j] == core[j]);
                }
                if let LiteralV::Str(sv, _) = l {
                    assert(core =~= seq![34u8] + sv + seq![34u8]);
                    lemma_enc_at_concat(bytes@, p0, seq![34u8] + sv, seq![34u8]);
                    lemma_enc_at_concat(bytes@, p0, seq![34u8], sv);
                    assert((seq![34u8] + sv)[0] == 34);
                    assert(core[0] == 34);
                    assert(bytes@[p0 + 0] == core[0]);
                    assert(bytes@[p0 + 1 + sv.len()] == 34) by {
                        lemma_enc_at_bytes(bytes@, p0 + 1 + sv.len(), seq![34u8]);
                        assert(bytes@[(p0 + 1 + sv.len() as int) + 0] == seq![34u8][0]);
                    }
                }
            },
            None => {},
        }
    }
    if *pos >= bytes.len() {
        return None;
    }
    let p = *pos;
    if bytes[p] != 34 {
        return None;
    }
    {
        *pos = p + 1;
        let mut content: Vec<u8> = Vec::new();
        while *pos < bytes.len()
            invariant
                *pos <= bytes@.len(),
                p0 == *old(pos) as int,
                p0 < *pos as int,
                p0 == p as int,
                bytes@.len() <= usize::MAX,
                match hint {
                    Some(l) => match l {
                        LiteralV::Str(sv, _) => {
                            &&& l.wf()
                            &&& enc_at(bytes@, p0, literal_bytes(l))
                            &&& core == literal_core_bytes(l)
                            &&& enc_at(bytes@, p0 + 1, sv)
                            &&& bytes@[p0 + 1 + sv.len()] == 34
                            &&& (forall|j: int| 0 <= j < core.len() ==> #[trigger] bytes@[p0 + j]
                                == core[j])
                            &&& literal_bytes(l).len() == core.len() + 1 + mode_bytes(
                                l.mode(),
                            ).len()
                            &&& core.len() == 2 + sv.len()
                            &&& mode_hint == Some(l.mode())
                            &&& *pos as int - (p0 + 1) <= sv.len()
                            &&& content@ == sv.subrange(0, *pos as int - (p0 + 1))
                        },
                        _ => false,
                    },
                    None => true,
                },
            decreases bytes@.len() - *pos,
        {
            let b = bytes[*pos];
            proof {
                match hint {
                    Some(l) => {
                        if let LiteralV::Str(sv, _) = l {
                            lemma_enc_at_bytes(bytes@, p0 + 1, sv);
                            if *pos as int - (p0 + 1) < sv.len() {
                                assert(bytes@[p0 + 1 + (*pos as int - (p0 + 1))] == sv[*pos as int
                                    - (p0 + 1)]);
                            }
                        }
                    },
                    None => {},
                }
            }
            if b == 34 {
                *pos = *pos + 1;
                proof {
                    match hint {
                        Some(l) => {
                            if let LiteralV::Str(sv, _) = l {
                                assert(*pos as int - 1 - (p0 + 1) == sv.len()) by {
                                    if *pos as int - 1 - (p0 + 1) < sv.len() {
                                        assert(sv[*pos as int - 1 - (p0 + 1)] != 34);
                                    }
                                }
                                assert(content@ =~= sv);
                                lemma_literal_text_at(bytes@, p0, l);
                                assert(*pos as int == p0 + core.len());
                                assert(enc_at(bytes@, p0 + core.len(), seq![46u8] + mode_bytes(
                                    l.mode(),
                                )));
                            }
                        },
                        None => {},
                    }
                }
                if content.len() > 0xFFFF {
                    return None;
                }
                match parse_mode_tail(bytes, pos, Ghost(mode_hint)) {
                    Some(m) => {
                        return Some(Literal::Str(content, m));
                    },
                    None => {
                        return None;
                    },
                }
            }
            if !(32 <= b && b <= 126) || b == 92 {
                return None;
            }
            content.push(b);
            *pos = *pos + 1;
            proof {
                match hint {
                    Some(l) => {
                        if let LiteralV::Str(sv, _) = l {
                            assert(content@ =~= sv.subrange(0, *pos as int - (p0 + 1)));
                        }
                    },
                    None => {},
                }
            }
        }
        return None;
    }
    return None;
}

/// Reads an address literal; same hint convention as `parse_u128`.
#[verifier::rlimit(100)]
fn parse_address_literal(bytes: &Vec<u8>, pos: &mut usize, Ghost(hint): Ghost<Option<LiteralV>>)
    -> (r: Option<Literal>)
    requires
        *old(pos) <= bytes@.len(),
        match hint {
            Some(l) => l.wf() && l is Address && enc_at(bytes@, *old(pos) as int, literal_bytes(l)),
            None => true,
        },
    ensures
        *final(pos) <= bytes@.len(),
        *old(pos) <= *final(pos),
        match hint {
            Some(l) => match r {
                Some(x) => x@ == l && *final(pos) == *old(pos) + literal_bytes(l).len(),
                None => false,
            },
            None => true,
        },
{
    let ghost p0 = *pos as int;
    let ghost core: Seq<u8> = match hint {
        Some(l) => literal_core_bytes(l),
        None => Seq::empty(),
    };
    let ghost mode_hint: Option<Mode> = match hint {
        Some(l) => Some(l.mode()),
        None => None,
    };
    proof {
        match hint {
            Some(l) => {
                lemma_literal_text_at(bytes@, p0, l);
                lemma_enc_at_bytes(bytes@, p0, core);
                assert forall|j: int| 0 <= j < core.len() implies #[trigger] bytes@[p0 + j]
                    == core[j] by {
                    assert(bytes@[p0 + j] == core[j]);
                }
            },
            None => {},
        }
    }
    if *pos >= bytes.len() {
        return None;
    }
    let p = *pos;
    if bytes[p] != 97 {
        return None;
    }
    {
        if !(has(bytes, p, 63) && bytes[p + 1] == 108 && bytes[p + 2] == 101 && bytes[p + 3] == 111
            && bytes[p + 4] == 49) {
            return None;
        }
        let mut addr: Vec<u8> = Vec::new();
        addr.push(97);
        addr.push(108);
        addr.push(101);
        addr.push(111);
        addr.push(49);
        proof {
            match hint {
                Some(l) => {
                    if let LiteralV::Address(av, _) = l {
                        assert(addr@ =~= av.subrange(0, 5));
                    }
                },
                None => {},
            }
        }
        let base = p + 5;
        let mut i: usize = 0;
        while i < 58
            invariant
                i <= 58,
                base + 58 <= bytes@.len(),
                bytes@.len() <= usize::MAX,
                *pos == *old(pos),
                *pos <= bytes@.len(),
                p0 == *old(pos) as int,
                p0 == p as int,
                base == p + 5,
                match hint {
                    Some(l) => match l {
                        LiteralV::Address(av, _) => {
                            &&& l.wf()
                            &&& enc_at(bytes@, p0, literal_bytes(l))
                            &&& core == av
                            &&& literal_bytes(l).len() == core.len() + 1 + mode_bytes(
                                l.mode(),
                            ).len()
                            &&& (forall|j: int| 0 <= j < core.len() ==> #[trigger] bytes@[p0 + j]
                                == core[j])
                            &&& mode_hint == Some(l.mode())
                            &&& addr@ == av.subrange(0, 5 + i)
                        },
                        _ => false,
                    },
                    None => true,
                },
            decreases 58 - i,
        {
            let b = bytes[base + i];
            proof {
                match hint {
                    Some(l) => {
                        if let LiteralV::Address(av, _) = l {
                            assert(bytes@[p0 + (5 + i as int)] == core[5 + i as int]);
                            assert(crate::literal::is_bech32_byte(av[5 + i as int]));
                        }
                    },
                    None => {},
                }
            }
            if !check_bech32_byte(b) {
                return None;
            }
            addr.push(b);
            i = i + 1;
            proof {
                match hint {
                    Some(l) => {
                        if let LiteralV::Address(av, _) = l {
                            assert(bytes@[p0 + (5 + (i as int - 1))] == core[5 + (i as int - 1)]);
                            assert(addr@ =~= av.subrange(0, 5 + i));
                        }
                    },
                    None => {},
                }
            }
        }
        *pos = p + 63;
        proof {
            match hint {
                Some(l) => {
                    if let LiteralV::Address(av, _) = l {
                        assert(addr@ =~= av);
                        lemma_literal_text_at(bytes@, p0, l);
                    }
                },
                None => {},
            }
        }
        match parse_mode_tail(bytes, pos, Ghost(mode_hint)) {
            Some(m) => {
                return Some(Literal::Address(addr, m));
            },
            None => {
                return None;
            },
        }
    }
}

/// Reads a numeric literal: an optional minus sign, digits, then a kind
/// suffix; same hint convention as `parse_u128`.
#[verifier::rlimit(100)]
#[verifier::spinoff_prover]
fn parse_number_literal(bytes: &Vec<u8>, pos: &mut usize, Ghost(hint): Ghost<Option<LiteralV>>)
    -> (r: Option<Literal>)
    requires
        *old(pos) <= bytes@.len(),
        match hint {
            Some(l) => l.wf() && (l is Field || l is Group || l is I8 || l is I16 || l is I32
            || l is I64 || l is I128 || l is U8 || l is U16 || l is U32 || l is U64 || l is U128) && enc_at(bytes@, *old(pos) as int, literal_bytes(l)),
            None => true,
        },
    ensures
        *final(pos) <= bytes@.len(),
        *old(pos) <= *final(pos),
        match hint {
            Some(l) => match r {
                Some(x) => x@ == l && *final(pos) == *old(pos) + literal_bytes(l).len(),
                None => false,
            },
            None => true,
        },
{
    let ghost p0 = *pos as int;
    let ghost core: Seq<u8> = match hint {
        Some(l) => literal_core_bytes(l),
        None => Seq::empty(),
    };
    let ghost mode_hint: Option<Mode> = match hint {
        Some(l) => Some(l.mode()),
        None => None,
    };
    proof {
        match hint {
            Some(l) => {
                lemma_literal_text_at(bytes@, p0, l);
                lemma_literal_first_byte(l);
                lemma_enc_at_bytes(bytes@, p0, core);
                assert forall|j: int| 0 <= j < core.len() implies #[trigger] bytes@[p0 + j]
                    == core[j] by {
                    assert(bytes@[p0 + j] == core[j]);
                }
                assert(bytes@[p0 + 0] == core[0]);
                match l {
                    LiteralV::Field(v, _) => {
                        lemma_enc_at_concat(bytes@, p0, dec_nat(v as nat), suffix_bytes(l));
                        lemma_dec_nat_first(v as nat);
                    },
                    LiteralV::Group(v, _) => {
                        lemma_enc_at_concat(bytes@, p0, dec_nat(v as nat), suffix_bytes(l));
                        lemma_dec_nat_first(v as nat);
                    },
                    LiteralV::U8(v, _) => {
                        lemma_enc_at_concat(bytes@, p0, dec_nat(v as nat), suffix_bytes(l));
                        lemma_dec_nat_first(v as nat);
                    },
                    LiteralV::U16(v, _) => {
                        lemma_enc_at_concat(bytes@, p0, dec_nat(v as nat), suffix_bytes(l));
                        lemma_dec_nat_first(v as nat);
                    },
                    LiteralV::U32(v, _) => {
                        lemma_enc_at_concat(bytes@, p0, dec_nat(v as nat), suffix_bytes(l));
                        lemma_dec_nat_first(v as nat);
                    },
                    LiteralV::U64(v, _) => {
                        lemma_enc_at_concat(bytes@, p0, dec_nat(v as nat), suffix_bytes(l));
                        lemma_dec_nat_first(v as nat);
                    },
                    LiteralV::U128(v, _) => {
                        lemma_enc_at_concat(bytes@, p0, dec_nat(v as nat), suffix_bytes(l));
                        lemma_dec_nat_first(v as nat);
                    },
                    LiteralV::I8(v, _) => {
                        lemma_enc_at_concat(bytes@, p0, crate::text::dec_int(v as int), suffix_bytes(l));
                        if v < 0 {
                            lemma_enc_at_concat(bytes@, p0, seq![45u8], dec_nat((-(v as int)) as nat));
                            lemma_dec_nat_first((-(v as int)) as nat);
                        } else {
                            lemma_dec_nat_first(v as nat);
                        }
                    },
                    LiteralV::I16(v, _) => {
                        lemma_enc_at_concat(bytes@, p0, crate::text::dec_int(v as int), suffix_bytes(l));
                        if v < 0 {
                            lemma_enc_at_concat(bytes@, p0, seq![45u8], dec_nat((-(v as int)) as nat));
                            lemma_dec_nat_first((-(v as int)) as nat);
                        } else {
                            lemma_dec_nat_first(v as nat);
                        }
                    },
                    LiteralV::I32(v, _) => {
                        lemma_enc_at_concat(bytes@, p0, crate::text::dec_int(v as int), suffix_bytes(l));
                        if v < 0 {
                            lemma_enc_at_concat(bytes@, p0, seq![45u8], dec_nat((-(v as int)) as nat));
                            lemma_dec_nat_first((-(v as int)) as nat);
                        } else {
                            lemma_dec_nat_first(v as nat);
                        }
                    },
                    LiteralV::I64(v, _) => {
                        lemma_enc_at_concat(bytes@, p0, crate::text::dec_int(v as int), suffix_bytes(l));
                        if v < 0 {
                            lemma_enc_at_concat(bytes@, p0, seq![45u8], dec_nat((-(v as int)) as nat));
                            lemma_dec_nat_first((-(v as int)) as nat);
                        } else {
                            lemma_dec_nat_first(v as nat);
                        }
                    },
                    LiteralV::I128(v, _) => {
                        lemma_enc_at_concat(bytes@, p0, crate::text::dec_int(v as int), suffix_bytes(l));
                        if v < 0 {
                            lemma_enc_at_concat(bytes@, p0, seq![45u8], dec_nat((-(v as int)) as nat));
                            lemma_dec_nat_first((-(v as int)) as nat);
                        } else {
                            lemma_dec_nat_first(v as nat);
                        }
                    },
                    _ => {},
                }
            },
            None => {},
        }
    }
    if *pos >= bytes.len() {
        return None;
    }
    let p = *pos;
    let b0 = bytes[p];
    let mut neg = false;
    if b0 == 45 {
        neg = true;
        *pos = p + 1;
    }
    let ghost nhint: Option<u128> = match hint {
        Some(l) => literal_magnitude(l),
        None => None,
    };
    proof {
        match hint {
            Some(l) => {
                assert(neg == literal_negative(l));
                match nhint {
                    Some(n) => {
                        let dpos = p0 + (if neg { 1int } else { 0int });
                        assert(enc_at(bytes@, dpos, dec_nat(n as nat)));
                        assert(bytes@[dpos + dec_nat(n as nat).len()] == suffix_bytes(l)[0]);
                        assert(!(48 <= suffix_bytes(l)[0] <= 57));
                    },
                    None => {},
                }
            },
            None => {},
        }
    }
    let n = match parse_u128(bytes, pos, Ghost(nhint)) {
        Some(n) => n,
        None => {
            return None;
        },
    };
    if neg && n == 0 {
        return None;
    }
    if *pos >= bytes.len() {
        return None;
    }
    let ghost spos = *pos as int;
    proof {
        match hint {
            Some(l) => {
                match l {
                    LiteralV::Boolean(_, _) => {},
                    LiteralV::Address(_, _) => {},
                    LiteralV::Str(_, _) => {},
                    _ => {
                        lemma_enc_at_bytes(bytes@, spos, suffix_bytes(l));
                        assert forall|j: int| 0 <= j < suffix_bytes(l).len() implies
                            #[trigger] bytes@[spos + j] == suffix_bytes(l)[j] by {
                            assert(bytes@[spos + j] == suffix_bytes(l)[j]);
                        }
                        assert(bytes@[spos + 0] == suffix_bytes(l)[0]);
                    },
                }
            },
            None => {},
        }
    }
    let s0 = bytes[*pos];
    // field
    if s0 == 102 {
        let q = *pos;
        if !(has(bytes, q, 5) && bytes[q + 1] == 105 && bytes[q + 2] == 101 && bytes[q + 3] == 108
            && bytes[q + 4] == 100) {
            return None;
        }
        if neg {
            return None;
        }
        *pos = q + 5;
        match parse_mode_tail(bytes, pos, Ghost(mode_hint)) {
            Some(m) => {
                return Some(Literal::Field(n, m));
            },
            None => {
                return None;
            },
        }
    }
    // group
    if s0 == 103 {
        let q = *pos;
        if !(has(bytes, q, 5) && bytes[q + 1] == 114 && bytes[q + 2] == 111 && bytes[q + 3] == 117
            && bytes[q + 4] == 112) {
            return None;
        }
        if neg {
            return None;
        }
        *pos = q + 5;
        match parse_mode_tail(bytes, pos, Ghost(mode_hint)) {
            Some(m) => {
                return Some(Literal::Group(n, m));
            },
            None => {
                return None;
            },
        }
    }
    // signed widths
    if s0 == 105 {
        *pos = *pos + 1;
        if eat(bytes, pos, 56) {
            match parse_mode_tail(bytes, pos, Ghost(mode_hint)) {
                Some(m) => match to_i8(n, neg) {
                    Some(v) => {
                        return Some(Literal::I8(v, m));
                    },
                    None => {
                        return None;
                    },
                },
                None => {
                    return None;
                },
            }
        }
        if eat(bytes, pos, 49) {
            if eat(bytes, pos, 54) {
                match parse_mode_tail(bytes, pos, Ghost(mode_hint)) {
                    Some(m) => match to_i16(n, neg) {
                        Some(v) => {
                            return Some(Literal::I16(v, m));
                        },
                        None => {
                            return None;
                        },
                    },
                    None => {
                        return None;
                    },
                }
            }
            if eat(bytes, pos, 50) {
                if eat(bytes, pos, 56) {
                    match parse_mode_tail(bytes, pos, Ghost(mode_hint)) {
                        Some(m) => match to_i128(n, neg) {
                            Some(v) => {
                                return Some(Literal::I128(v, m));
                            },
                            None => {
                                return None;
                            },
                        },
                        None => {
                            return None;
                        },
                    }
                }
            }
            return None;
        }
        if eat(bytes, pos, 51) {
            if eat(bytes, pos, 50) {
                match parse_mode_tail(bytes, pos, Ghost(mode_hint)) {
                    Some(m) => match to_i32(n, neg) {
                        Some(v) => {
                            return Some(Literal::I32(v, m));
                        },
                        None => {
                            return None;
                        },
                    },
                    None => {
                        return None;
                    },
                }
            }
            return None;
        }
        if eat(bytes, pos, 54) {
            if eat(bytes, pos, 52) {
                match parse_mode_tail(bytes, pos, Ghost(mode_hint)) {
                    Some(m) => match to_i64(n, neg) {
                        Some(v) => {
                            return Some(Literal::I64(v, m));
                        },
                        None => {
                            return None;
                        },
                    },
                    None => {
                        return None;
                    },
                }
            }
            return None;
        }
        return None;
    }
    // unsigned widths
    if s0 == 117 {
        if neg {
            return None;
        }
        *pos = *pos + 1;
        if eat(bytes, pos, 56) {
            if n > 255 {
                return None;
            }
            match parse_mode_tail(bytes, pos, Ghost(mode_hint)) {
                Some(m) => {
                    return Some(Literal::U8(n as u8, m));
                },
                None => {
                    return None;
                },
            }
        }
        if eat(bytes, pos, 49) {
            if eat(bytes, pos, 54) {
                if n > 65535 {
                    return None;
                }
                match parse_mode_tail(bytes, pos, Ghost(mode_hint)) {
                    Some(m) => {
                        return Some(Literal::U16(n as u16, m));
                    },
                    None => {
                        return None;
                    },
                }
            }
            if eat(bytes, pos, 50) {
                if eat(bytes, pos, 56) {
                    match parse_mode_tail(bytes, pos, Ghost(mode_hint)) {
                        Some(m) => {
                            return Some(Literal::U128(n, m));
                        },
                        None => {
                            return None;
                        },
                    }
                }
            }
            return None;
        }
        if eat(bytes, pos, 51) {
            if eat(bytes, pos, 50) {
                if n > 4294967295 {
                    return None;
                }
                match parse_mode_tail(bytes, pos, Ghost(mode_hint)) {
                    Some(m) => {
                        return Some(Literal::U32(n as u32, m));
                    },
                    None => {
                        return None;
                    },
                }
            }
            return None;
        }
        if eat(bytes, pos, 54) {
            if eat(bytes, pos, 52) {
                if n > 18446744073709551615 {
                    return None;
                }
                match parse_mode_tail(bytes, pos, Ghost(mode_hint)) {
                    Some(m) => {
                        return Some(Literal::U64(n as u64, m));
                    },
                    None => {
                        return None;
                    },
                }
            }
            return None;
        }
        return None;
    }
    None
}

/// Reads one literal: `<value><kind-suffix>.<mode>`, with the same hint
/// convention as `parse_u128`: when the canonical text of a well-formed
/// literal is known to sit here, reading consumes exactly it and returns
/// that literal.
fn parse_literal(bytes: &Vec<u8>, pos: &mut usize, Ghost(hint): Ghost<Option<LiteralV>>) -> (r:
    Option<Literal>)
    requires
        *old(pos) <= bytes@.len(),
        match hint {
            Some(l) => l.wf() && true && enc_at(bytes@, *old(pos) as int, literal_bytes(l)),
            None => true,
        },
    ensures
        *final(pos) <= bytes@.len(),
        *old(pos) <= *final(pos),
        match hint {
            Some(l) => match r {
                Some(x) => x@ == l && *final(pos) == *old(pos) + literal_bytes(l).len(),
                None => false,
            },
            None => true,
        },
{
    let ghost p0 = *pos as int;
    proof {
        match hint {
            Some(l) => {
                lemma_literal_text_at(bytes@, p0, l);
                lemma_literal_first_byte(l);
                lemma_enc_at_bytes(bytes@, p0, literal_core_bytes(l));
                assert(bytes@[p0 + 0] == literal_core_bytes(l)[0]);
            },
            None => {},
        }
    }
    let ghost mode_hint: Option<Mode> = match hint {
        Some(l) => Some(l.mode()),
        None => None,
    };
    let p = *pos;
    if p >= bytes.len() {
        return None;
    }
    let b0 = bytes[p];
    // boolean: true / false
    if b0 == 116 {
        if !(has(bytes, p, 4) && bytes[p + 1] == 114 && bytes[p + 2] == 117 && bytes[p + 3]
            == 101) {
            return None;
        }
        proof {
            match hint {
                Some(l) => {
                    lemma_enc_at_bytes(bytes@, p0, literal_core_bytes(l));
                    assert(bytes@[p0 + 1] == literal_core_bytes(l)[1]);
                    assert(bytes@[p0 + 2] == literal_core_bytes(l)[2]);
                    assert(bytes@[p0 + 3] == literal_core_bytes(l)[3]);
                },
                None => {},
            }
        }
        *pos = p + 4;
        match parse_mode_tail(bytes, pos, Ghost(mode_hint)) {
            Some(m) => {
                return Some(Literal::Boolean(true, m));
            },
            None => {
                return None;
            },
        }
    }
    if b0 == 102 {
        if !(has(bytes, p, 5) && bytes[p + 1] == 97 && bytes[p + 2] == 108 && bytes[p + 3] == 115
            && bytes[p + 4] == 101) {
            return None;
        }
        *pos = p + 5;
        match parse_mode_tail(bytes, pos, Ghost(mode_hint)) {
            Some(m) => {
                return Some(Literal::Boolean(false, m));
            },
            None => {
                return None;
            },
        }
    }
    if b0 == 34 {
        proof {
            match hint {
                Some(l) => {
                    assert(l is Str);
                },
                None => {},
            }
        }
        return parse_string_literal(bytes, pos, Ghost(hint));
    }
    if b0 == 97 {
        proof {
            match hint {
                Some(l) => {
                    assert(l is Address);
                },
                None => {},
            }
        }
        return parse_address_literal(bytes, pos, Ghost(hint));
    }
    proof {
        match hint {
            Some(l) => {
                assert(l is Field || l is Group || l is I8 || l is I16 || l is I32 || l is I64
                    || l is I128 || l is U8 || l is U16 || l is U32 || l is U64 || l is U128);
            },
            None => {},
        }
    }
    parse_number_literal(bytes, pos, Ghost(hint))
}

/// Reads a register: `r` then its locator in decimal, with the same hint
/// convention as `parse_u128`.
fn parse_register(bytes: &Vec<u8>, pos: &mut usize, Ghost(hint): Ghost<Option<u64>>) -> (r: Option<
    Register,
>)
    requires
        *old(pos) <= bytes@.len(),
        match hint {
            Some(rv) => {
                &&& enc_at(bytes@, *old(pos) as int, register_bytes(rv))
                &&& (*old(pos) + register_bytes(rv).len() == bytes@.len() || !(48 <= bytes@[*old(
                    pos,
                ) + register_bytes(rv).len()] <= 57))
            },
            None => true,
        },
    ensures
        *final(pos) <= bytes@.len(),
        *old(pos) <= *final(pos),
        match hint {
            Some(rv) => (match r {
                Some(x) => x.locator == rv && *final(pos) == *old(pos) + register_bytes(rv).len(),
                None => false,
            }),
            None => true,
        },
{
    let ghost p0 = *pos as int;
    let ghost nhint: Option<u128> = match hint {
        Some(rv) => Some(rv as u128),
        None => None,
    };
    proof {
        match hint {
            Some(rv) => {
                lemma_enc_at_concat(bytes@, p0, seq![114u8], dec_nat(rv as nat));
                lemma_enc_at_bytes(bytes@, p0, seq![114u8]);
                assert(bytes@[p0 + 0] == seq![114u8][0]);
                lemma_dec_nat_first(rv as nat);
            },
            None => {},
        }
    }
    if !eat(bytes, pos, 114) {
        return None;
    }
    match parse_u128(bytes, pos, Ghost(nhint)) {
        Some(n) => if n <= 18446744073709551615 {
            Some(Register::new(n as u64))
        } else {
            None
        },
        None => None,
    }
}

/// Reads an operand: a register reference or an inline literal, with the
/// same hint convention as `parse_u128`.
fn parse_operand(bytes: &Vec<u8>, pos: &mut usize, Ghost(hint): Ghost<Option<OperandV>>) -> (r:
    Option<crate::operand::Operand>)
    requires
        *old(pos) <= bytes@.len(),
        match hint {
            Some(op) => {
                &&& op.wf()
                &&& enc_at(bytes@, *old(pos) as int, crate::text::operand_bytes(op))
                &&& (*old(pos) + crate::text::operand_bytes(op).len() == bytes@.len() || !(48
                    <= bytes@[*old(pos) + crate::text::operand_bytes(op).len()] <= 57))
            },
            None => true,
        },
    ensures
        *final(pos) <= bytes@.len(),
        *old(pos) <= *final(pos),
        match hint {
            Some(op) => (match r {
                Some(x) => x@ == op && *final(pos) == *old(pos) + crate::text::operand_bytes(
                    op,
                ).len(),
                None => false,
            }),
            None => true,
        },
{
    let ghost p0 = *pos as int;
    proof {
        match hint {
            Some(op) => {
                match op {
                    OperandV::Register(rv) => {
                        lemma_enc_at_bytes(bytes@, p0, register_bytes(rv));
                        assert(bytes@[p0 + 0] == register_bytes(rv)[0]);
                        assert(register_bytes(rv)[0] == 114);
                    },
                    OperandV::Literal(l) => {
                        lemma_literal_first_byte(l);
                        lemma_enc_at_bytes(bytes@, p0, literal_bytes(l));
                        assert(bytes@[p0 + 0] == literal_bytes(l)[0]);
                        assert(literal_bytes(l)[0] != 114);
                    },
                }
            },
            None => {},
        }
    }
    let ghost rhint: Option<u64> = match hint {
        Some(OperandV::Register(rv)) => Some(rv),
        _ => None,
    };
    let ghost lhint: Option<LiteralV> = match hint {
        Some(OperandV::Literal(l)) => Some(l),
        _ => None,
    };
    if *pos < bytes.len() {
        if bytes[*pos] == 114 {
            return match parse_register(bytes, pos, Ghost(rhint)) {
                Some(r) => Some(crate::operand::Operand::Register(r)),
                None => None,
            };
        }
    }
    match parse_literal(bytes, pos, Ghost(lhint)) {
        Some(l) => Some(crate::operand::Operand::Literal(l)),
        None => None,
    }
}

/// Reads a whole binary operation:
/// `<operand1> <operand2> into <destination>`, with the same hint
/// convention as `parse_u128`; the hint's text must span the whole input.
pub(crate) fn parse_operation(
    bytes: &Vec<u8>,
    pos: &mut usize,
    Ghost(hint): Ghost<Option<BinaryOperationV>>,
) -> (r: Option<BinaryOperation>)
    requires
        *old(pos) <= bytes@.len(),
        match hint {
            Some(op) => {
                &&& op.wf()
                &&& enc_at(bytes@, *old(pos) as int, operation_bytes(op))
                &&& *old(pos) + operation_bytes(op).len() == bytes@.len()
            },
            None => true,
        },
    ensures
        *final(pos) <= bytes@.len(),
        *old(pos) <= *final(pos),
        match hint {
            Some(op) => (match r {
                Some(x) => x@ == op && *final(pos) == *old(pos) + operation_bytes(op).len(),
                None => false,
            }),
            None => true,
        },
{
    let ghost p0 = *pos as int;
    let ghost sep: Seq<u8> = seq![32u8, 105, 110, 116, 111, 32];
    proof {
        match hint {
            Some(op) => {
                let a = crate::text::operand_bytes(op.first);
                let b = crate::text::operand_bytes(op.second);
                let rg = register_bytes(op.destination);
                lemma_enc_at_concat(bytes@, p0, a + seq![32u8] + b + sep, rg);
                lemma_enc_at_concat(bytes@, p0, a + seq![32u8] + b, sep);
                lemma_enc_at_concat(bytes@, p0, a + seq![32u8], b);
                lemma_enc_at_concat(bytes@, p0, a, seq![32u8]);
                lemma_enc_at_bytes(bytes@, p0 + a.len(), seq![32u8]);
                assert(bytes@[p0 + a.len() + 0] == seq![32u8][0]);
                lemma_enc_at_bytes(bytes@, p0 + a.len() + 1 + b.len(), sep);
                assert forall|j: int| 0 <= j < 6 implies #[trigger] bytes@[p0 + a.len() + 1
                    + b.len() + j] == sep[j] by {
                    assert(bytes@[(p0 + a.len() + 1 + b.len()) + j] == sep[j]);
                }
            },
            None => {},
        }
    }
    let ghost h1: Option<OperandV> = match hint {
        Some(op) => Some(op.first),
        None => None,
    };
    let first = match parse_operand(bytes, pos, Ghost(h1)) {
        Some(op) => op,
        None => {
            return None;
        },
    };
    if !eat(bytes, pos, 32) {
        return None;
    }
    let ghost h2: Option<OperandV> = match hint {
        Some(op) => Some(op.second),
        None => None,
    };
    let second = match parse_operand(bytes, pos, Ghost(h2)) {
        Some(op) => op,
        None => {
            return None;
        },
    };
    if !(eat(bytes, pos, 32) && eat(bytes, pos, 105) && eat(bytes, pos, 110) && eat(bytes, pos, 116)
        && eat(bytes, pos, 111) && eat(bytes, pos, 32)) {
        return None;
    }
    let ghost hr: Option<u64> = match hint {
        Some(op) => Some(op.destination),
        None => None,
    };
    let destination = match parse_register(bytes, pos, Ghost(hr)) {
        Some(r) => r,
        None => {
            return None;
        },
    };
    Some(BinaryOperation::new(first, second, destination))
}

/// Lifts an ASCII `&str` to its byte vector, with the view correspondence;
/// succeeds on every all-ASCII string.
pub(crate) fn ascii_bytes_of(s: &str) -> (r: Option<Vec<u8>>)
    ensures
        match r {
            Some(v) => {
                &&& v@.len() == s@.len()
                &&& ascii_str(v@) == s@
            },
            None => true,
        },
        vstd::string::is_ascii(s) ==> r is Some,
{
    if !s.is_ascii() {
        return None;
    }
    let v = s.as_bytes_vec();
    proof {
        assert(v@.len() == s@.len());
        assert(ascii_str(v@) =~= s@);
    }
    Some(v)
}

/// The characters of two byte runs agree exactly when the bytes do.
pub(crate) proof fn lemma_ascii_str_inj(a: Seq<u8>, b: Seq<u8>)
    requires
        ascii_str(a) == ascii_str(b),
    ensures
        a == b,
{
    assert(ascii_str(a).len() == a.len());
    assert(ascii_str(b).len() == b.len());
    assert(a.len() == b.len());
    assert forall|i: int| 0 <= i < a.len() implies a[i] == b[i] by {
        assert(ascii_str(a)[i] == ascii_str(b)[i]);
        assert(ascii_str(a)[i] == a[i] as char);
        assert(ascii_str(b)[i] == b[i] as char);
    }
    assert(a =~= b);
}

/// ASCII bytes lift to characters at or below `\u{7f}`.
pub(crate) proof fn lemma_ascii_str_low(t: Seq<u8>)
    requires
        forall|i: int| 0 <= i < t.len() ==> #[trigger] t[i] < 128,
    ensures
        vstd::utf8::is_ascii_chars(ascii_str(t)),
{
    assert forall|i: int| 0 <= i < ascii_str(t).len() implies '\0' <= #[trigger] ascii_str(t)[i]
        <= '\u{7f}' by {
        assert(ascii_str(t)[i] == t[i] as char);
    }
}

impl Literal {
    /// Parses a literal from its canonical text. Success comes exactly on
    /// the canonical rendering of a well-formed literal: the parsed literal
    /// then renders back to the input (display is the exact inverse of
    /// parse), and every other input is a parse fault.
    pub fn from_text(s: &str) -> (r: Result<Literal, Fault>)
        ensures
            match r {
                Ok(l) => l@.wf() && s@ == ascii_str(literal_bytes(l@)),
                Err(f) => f@ == FaultV::Parse,
            },
            forall|lv: LiteralV| lv.wf() && s@ == ascii_str(literal_bytes(lv)) ==> r is Ok,
    {
        let ghost hint: Option<LiteralV> = if exists|lv: LiteralV|
            lv.wf() && s@ == ascii_str(literal_bytes(lv)) {
            Some(choose|lv: LiteralV| lv.wf() && s@ == ascii_str(literal_bytes(lv)))
        } else {
            None
        };
        proof {
            match hint {
                Some(lv) => {
                    crate::text::lemma_literal_bytes_ascii(lv);
                    lemma_ascii_str_low(literal_bytes(lv));
                },
                None => {},
            }
        }
        let bytes = match ascii_bytes_of(s) {
            Some(v) => v,
            None => {
                return Err(Fault::Parse);
            },
        };
        proof {
            match hint {
                Some(lv) => {
                    lemma_ascii_str_inj(bytes@, literal_bytes(lv));
                    assert(bytes@.subrange(0, literal_bytes(lv).len() as int) =~= literal_bytes(
                        lv,
                    ));
                },
                None => {},
            }
        }
        let mut pos: usize = 0;
        let lit = match parse_literal(&bytes, &mut pos, Ghost(hint)) {
            Some(l) => l,
            None => {
                return Err(Fault::Parse);
            },
        };
        if pos != bytes.len() {
            return Err(Fault::Parse);
        }
        if !lit.is_well_formed() {
            return Err(Fault::Parse);
        }
        let mut shown: Vec<u8> = Vec::new();
        push_literal(&mut shown, &lit);
        if !bytes_eq(&shown, &bytes) {
            return Err(Fault::Parse);
        }
        Ok(lit)
    }
}

impl SubWrapped {
    /// Parses the operation part of the instruction, without the opcode:
    /// `<operand1> <operand2> into <destination>`. Success comes exactly on
    /// the canonical rendering of a well-formed operation: the parsed
    /// operation then renders back to the input (display is the exact
    /// inverse of parse), and every other input is a parse fault.
    pub fn from_text(s: &str) -> (r: Result<SubWrapped, Fault>)
        ensures
            match r {
                Ok(i) => i@.wf() && s@ == ascii_str(operation_bytes(i@)),
                Err(f) => f@ == FaultV::Parse,
            },
            forall|op: BinaryOperationV| op.wf() && s@ == ascii_str(operation_bytes(op)) ==> r
                is Ok,
    {
        let ghost hint: Option<BinaryOperationV> = if exists|op: BinaryOperationV|
            op.wf() && s@ == ascii_str(operation_bytes(op)) {
            Some(choose|op: BinaryOperationV| op.wf() && s@ == ascii_str(operation_bytes(op)))
        } else {
            None
        };
        proof {
            match hint {
                Some(opv) => {
                    crate::text::lemma_operation_bytes_ascii(opv);
                    lemma_ascii_str_low(operation_bytes(opv));
                },
                None => {},
            }
        }
        let bytes = match ascii_bytes_of(s) {
            Some(v) => v,
            None => {
                return Err(Fault::Parse);
            },
        };
        proof {
            match hint {
                Some(opv) => {
                    lemma_ascii_str_inj(bytes@, operation_bytes(opv));
                    assert(bytes@.subrange(0, operation_bytes(opv).len() as int)
                        =~= operation_bytes(opv));
                },
                None => {},
            }
        }
        let mut pos: usize = 0;
        let op = match parse_operation(&bytes, &mut pos, Ghost(hint)) {
            Some(op) => op,
            None => {
                return Err(Fault::Parse);
            },
        };
        if pos != bytes.len() {
            return Err(Fault::Parse);
        }
        if !op.is_well_formed() {
            return Err(Fault::Parse);
        }
        let shown = operation_to_bytes(&op);
        if !bytes_eq(&shown, &bytes) {
            return Err(Fault::Parse);
        }
        Ok(SubWrapped::new(op))
    }
}

} // verus!
