use vstd::prelude::*;

use crate::literal::{Literal, LiteralV};

verus! {

/// Bytes that may form an identifier: a lowercase ASCII letter first, then
/// lowercase letters, digits or underscores (95), at most 255 in all.
pub open spec fn is_identifier_bytes(s: Seq<u8>) -> bool {
    &&& 1 <= s.len() <= 255
    &&& 97 <= s[0] <= 122
    &&& forall|i: int| 0 <= i < s.len() ==> {
        ||| 97 <= #[trigger] s[i] <= 122
        ||| 48 <= s[i] <= 57
        ||| s[i] == 95
    }
}

/// A lowercase ASCII name, used for composite values.
#[derive(Debug, PartialEq, Eq)]
pub struct Identifier {
    name: Vec<u8>,
}

impl View for Identifier {
    type V = Seq<u8>;

    closed spec fn view(&self) -> Seq<u8> {
        self.name@
    }
}

impl Identifier {
    /// Every identifier that exists holds valid identifier bytes.
    #[verifier::type_invariant]
    pub open spec fn type_inv(self) -> bool {
        is_identifier_bytes(self@)
    }

    /// Builds an identifier from its bytes; rejects anything but a valid
    /// identifier shape.
    pub fn new(name: Vec<u8>) -> (r: Option<Identifier>)
        ensures
            match r {
                Some(id) => id@ == name@ && is_identifier_bytes(name@),
                None => !is_identifier_bytes(name@),
            },
    {
        if name.len() < 1 || name.len() > 255 {
            return None;
        }
        let first = name[0];
        if !(97 <= first && first <= 122) {
            return None;
        }
        let mut i: usize = 0;
        while i < name.len()
            invariant
                i <= name@.len(),
                forall|j: int| 0 <= j < i ==> {
                    ||| 97 <= #[trigger] name@[j] <= 122
                    ||| 48 <= name@[j] <= 57
                    ||| name@[j] == 95
                },
        decreases name@.len() - i,
        {
            let b = name[i];
            if !((97 <= b && b <= 122) || (48 <= b && b <= 57) || b == 95) {
                return None;
            }
            i = i + 1;
        }
        proof {
            assert(is_identifier_bytes(name@));
        }
        Some(Identifier { name })
    }

    /// Deep copy; the copy models the same name.
    pub fn duplicate(&self) -> (r: Identifier)
        ensures
            r@ == self@,
    {
        proof {
            use_type_invariant(self);
        }
        Identifier { name: crate::literal::copy_bytes(&self.name) }
    }

    /// The identifier's bytes.
    pub fn bytes(&self) -> (r: &Vec<u8>)
        ensures
            r@ == self@,
    {
        &self.name
    }
}

/// A value is exactly one of a scalar literal or a named, ordered collection
/// of literals.
#[derive(Debug, PartialEq, Eq)]
pub enum Value {
    Literal(Literal),
    Composite(Identifier, Vec<Literal>),
}

/// Mathematical model of a `Value`.
pub enum ValueV {
    Literal(LiteralV),
    Composite(Seq<u8>, Seq<LiteralV>),
}

impl View for Value {
    type V = ValueV;

    open spec fn view(&self) -> ValueV {
        match self {
            Value::Literal(l) => ValueV::Literal(l@),
            Value::Composite(id, ls) => ValueV::Composite(
                id@,
                ls@.map_values(|l: Literal| l@),
            ),
        }
    }
}

impl ValueV {
    /// Structural validity: the name is an identifier, every member literal
    /// is valid, and the member count fits the codec's two-byte prefix.
    pub open spec fn wf(self) -> bool {
        match self {
            ValueV::Literal(l) => l.wf(),
            ValueV::Composite(name, ls) => {
                &&& is_identifier_bytes(name)
                &&& ls.len() <= 0xFFFF
                &&& forall|i: int| 0 <= i < ls.len() ==> (#[trigger] ls[i]).wf()
            },
        }
    }
}

impl Value {
    /// Deep copy; the copy models the same value.
    pub fn duplicate(&self) -> (r: Value)
        ensures
            r@ == self@,
    {
        match self {
            Value::Literal(l) => Value::Literal(l.duplicate()),
            Value::Composite(id, ls) => {
                let mut out: Vec<Literal> = Vec::new();
                let mut i: usize = 0;
                while i < ls.len()
                    invariant
                        i <= ls@.len(),
                        out@.len() == i,
                        forall|j: int| 0 <= j < i ==> #[trigger] out@[j]@ == ls@[j]@,
                    decreases ls@.len() - i,
                {
                    out.push(ls[i].duplicate());
                    i = i + 1;
                }
                proof {
                    assert(out@.map_values(|l: Literal| l@) =~= ls@.map_values(
                        |l: Literal| l@,
                    ));
                }
                Value::Composite(id.duplicate(), out)
            },
        }
    }
}

} // verus!
