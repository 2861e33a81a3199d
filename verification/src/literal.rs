use vstd::prelude::*;

use crate::mode::Mode;

verus! {

/// A single scalar value tagged with its primitive kind and its visibility
/// mode. Address and string payloads are held as ASCII bytes; an address is
/// kept in its full textual form (`aleo1` followed by 58 data characters).
#[derive(Debug, PartialEq, Eq)]
pub enum Literal {
    Boolean(bool, Mode),
    Address(Vec<u8>, Mode),
    Field(u128, Mode),
    Group(u128, Mode),
    I8(i8, Mode),
    I16(i16, Mode),
    I32(i32, Mode),
    I64(i64, Mode),
    I128(i128, Mode),
    U8(u8, Mode),
    U16(u16, Mode),
    U32(u32, Mode),
    U64(u64, Mode),
    U128(u128, Mode),
    Str(Vec<u8>, Mode),
}

/// Mathematical model of a `Literal`: the same kinds, with byte payloads
/// abstracted to sequences.
pub enum LiteralV {
    Boolean(bool, Mode),
    Address(Seq<u8>, Mode),
    Field(u128, Mode),
    Group(u128, Mode),
    I8(i8, Mode),
    I16(i16, Mode),
    I32(i32, Mode),
    I64(i64, Mode),
    I128(i128, Mode),
    U8(u8, Mode),
    U16(u16, Mode),
    U32(u32, Mode),
    U64(u64, Mode),
    U128(u128, Mode),
    Str(Seq<u8>, Mode),
}

impl View for Literal {
    type V = LiteralV;

    open spec fn view(&self) -> LiteralV {
        match self {
            Literal::Boolean(b, m) => LiteralV::Boolean(*b, *m),
            Literal::Address(a, m) => LiteralV::Address(a@, *m),
            Literal::Field(v, m) => LiteralV::Field(*v, *m),
            Literal::Group(v, m) => LiteralV::Group(*v, *m),
            Literal::I8(v, m) => LiteralV::I8(*v, *m),
            Literal::I16(v, m) => LiteralV::I16(*v, *m),
            Literal::I32(v, m) => LiteralV::I32(*v, *m),
            Literal::I64(v, m) => LiteralV::I64(*v, *m),
            Literal::I128(v, m) => LiteralV::I128(*v, *m),
            Literal::U8(v, m) => LiteralV::U8(*v, *m),
            Literal::U16(v, m) => LiteralV::U16(*v, *m),
            Literal::U32(v, m) => LiteralV::U32(*v, *m),
            Literal::U64(v, m) => LiteralV::U64(*v, *m),
            Literal::U128(v, m) => LiteralV::U128(*v, *m),
            Literal::Str(s, m) => LiteralV::Str(s@, *m),
        }
    }
}

/// The characters bech32 uses for its data part, as ASCII codes: lowercase
/// letters and digits with `1` (49), `b` (98), `i` (105) and `o` (111) left
/// out.
pub open spec fn is_bech32_byte(b: u8) -> bool {
    &&& (48 <= b <= 57 || 97 <= b <= 122)
    &&& b != 49
    &&& b != 98
    &&& b != 105
    &&& b != 111
}

/// An address in canonical text form: the ASCII prefix `aleo1` followed by
/// exactly 58 bech32 data characters.
pub open spec fn is_address_bytes(a: Seq<u8>) -> bool {
    &&& a.len() == 63
    &&& a[0] == 97  // a
    &&& a[1] == 108  // l
    &&& a[2] == 101  // e
    &&& a[3] == 111  // o
    &&& a[4] == 49  // 1
    &&& forall|i: int| 5 <= i < 63 ==> is_bech32_byte(#[trigger] a[i])
}

/// String-literal contents: printable ASCII without the double quote (34) or
/// the backslash (92), short enough for a two-byte length prefix in the
/// binary codec.
pub open spec fn is_string_bytes(s: Seq<u8>) -> bool {
    &&& s.len() <= 0xFFFF
    &&& forall|i: int| 0 <= i < s.len() ==> {
        &&& 32 <= #[trigger] s[i] <= 126
        &&& s[i] != 34
        &&& s[i] != 92
    }
}

impl LiteralV {
    /// Structural validity: address and string payloads have their canonical
    /// shape; every other kind is valid as it stands.
    pub open spec fn wf(self) -> bool {
        match self {
            LiteralV::Address(a, _) => is_address_bytes(a),
            LiteralV::Str(s, _) => is_string_bytes(s),
            _ => true,
        }
    }

    /// The visibility mode the literal carries.
    pub open spec fn mode(self) -> Mode {
        match self {
            LiteralV::Boolean(_, m) => m,
            LiteralV::Address(_, m) => m,
            LiteralV::Field(_, m) => m,
            LiteralV::Group(_, m) => m,
            LiteralV::I8(_, m) => m,
            LiteralV::I16(_, m) => m,
            LiteralV::I32(_, m) => m,
            LiteralV::I64(_, m) => m,
            LiteralV::I128(_, m) => m,
            LiteralV::U8(_, m) => m,
            LiteralV::U16(_, m) => m,
            LiteralV::U32(_, m) => m,
            LiteralV::U64(_, m) => m,
            LiteralV::U128(_, m) => m,
            LiteralV::Str(_, m) => m,
        }
    }
}

/// Whether two byte vectors hold the same bytes.
pub fn bytes_eq(a: &Vec<u8>, b: &Vec<u8>) -> (r: bool)
    ensures
        r == (a@ == b@),
{
    if a.len() != b.len() {
        return false;
    }
    let mut i: usize = 0;
    while i < a.len()
        invariant
            i <= a@.len(),
            a@.len() == b@.len(),
            forall|j: int| 0 <= j < i ==> a@[j] == b@[j],
        decreases a@.len() - i,
    {
        if a[i] != b[i] {
            return false;
        }
        i = i + 1;
    }
    proof {
        assert(a@ =~= b@);
    }
    true
}

/// Whether a byte is one bech32 uses for its data part.
pub fn check_bech32_byte(b: u8) -> (r: bool)
    ensures
        r == is_bech32_byte(b),
{
    ((48 <= b && b <= 57) || (97 <= b && b <= 122)) && b != 49 && b != 98 && b != 105 && b != 111
}

/// Copies a byte vector element by element.
pub fn copy_bytes(v: &Vec<u8>) -> (r: Vec<u8>)
    ensures
        r@ == v@,
{
    let mut out: Vec<u8> = Vec::new();
    let mut i: usize = 0;
    while i < v.len()
        invariant
            i <= v.len(),
            out@ == v@.subrange(0, i as int),
        decreases v.len() - i,
    {
        out.push(v[i]);
        i = i + 1;
        proof {
            assert(out@ =~= v@.subrange(0, i as int));
        }
    }
    proof {
        assert(out@ =~= v@);
    }
    out
}

impl Literal {
    /// The visibility mode the literal carries.
    pub fn mode_of(&self) -> (r: Mode)
        ensures
            r == self@.mode(),
    {
        match self {
            Literal::Boolean(_, m) => *m,
            Literal::Address(_, m) => *m,
            Literal::Field(_, m) => *m,
            Literal::Group(_, m) => *m,
            Literal::I8(_, m) => *m,
            Literal::I16(_, m) => *m,
            Literal::I32(_, m) => *m,
            Literal::I64(_, m) => *m,
            Literal::I128(_, m) => *m,
            Literal::U8(_, m) => *m,
            Literal::U16(_, m) => *m,
            Literal::U32(_, m) => *m,
            Literal::U64(_, m) => *m,
            Literal::U128(_, m) => *m,
            Literal::Str(_, m) => *m,
        }
    }

    /// Whether the literal is structurally valid, per `LiteralV::wf`.
    #[verifier::loop_isolation(false)]
    pub fn is_well_formed(&self) -> (r: bool)
        ensures
            r == self@.wf(),
    {
        match self {
            Literal::Address(a, _) => {
                if a.len() != 63 {
                    return false;
                }
                if !(a[0] == 97 && a[1] == 108 && a[2] == 101 && a[3] == 111 && a[4] == 49) {
                    return false;
                }
                let mut i: usize = 5;
                while i < 63
                    invariant
                        5 <= i <= 63,
                        a@.len() == 63,
                        forall|j: int| 5 <= j < i ==> is_bech32_byte(#[trigger] a@[j]),
                    decreases 63 - i,
                {
                    if !check_bech32_byte(a[i]) {
                        proof {
                            assert(5 <= i < 63 && !is_bech32_byte(a@[i as int]));
                            assert(!is_address_bytes(a@));
                        }
                        return false;
                    }
                    i = i + 1;
                }
                true
            },
            Literal::Str(s, _) => {
                if s.len() > 0xFFFF {
                    return false;
                }
                let mut i: usize = 0;
                while i < s.len()
                    invariant
                        i <= s@.len(),
                        forall|j: int| 0 <= j < i ==> {
                            &&& 32 <= #[trigger] s@[j] <= 126
                            &&& s@[j] != 34
                            &&& s@[j] != 92
                        },
                    decreases s@.len() - i,
                {
                    let b = s[i];
                    if !(32 <= b && b <= 126) || b == 34 || b == 92 {
                        proof {
                            assert(0 <= i < s@.len());
                            assert(!(32 <= s@[i as int] <= 126 && s@[i as int] != 34
                                && s@[i as int] != 92));
                            assert(!is_string_bytes(s@));
                        }
                        return false;
                    }
                    i = i + 1;
                }
                true
            },
            _ => true,
        }
    }

    /// Deep copy; the copy models the same value.
    pub fn duplicate(&self) -> (r: Literal)
        ensures
            r@ == self@,
    {
        match self {
            Literal::Boolean(b, m) => Literal::Boolean(*b, *m),
            Literal::Address(a, m) => Literal::Address(copy_bytes(a), *m),
            Literal::Field(v, m) => Literal::Field(*v, *m),
            Literal::Group(v, m) => Literal::Group(*v, *m),
            Literal::I8(v, m) => Literal::I8(*v, *m),
            Literal::I16(v, m) => Literal::I16(*v, *m),
            Literal::I32(v, m) => Literal::I32(*v, *m),
            Literal::I64(v, m) => Literal::I64(*v, *m),
            Literal::I128(v, m) => Literal::I128(*v, *m),
            Literal::U8(v, m) => Literal::U8(*v, *m),
            Literal::U16(v, m) => Literal::U16(*v, *m),
            Literal::U32(v, m) => Literal::U32(*v, *m),
            Literal::U64(v, m) => Literal::U64(*v, *m),
            Literal::U128(v, m) => Literal::U128(*v, *m),
            Literal::Str(s, m) => Literal::Str(copy_bytes(s), *m),
        }
    }
}

} // verus!
