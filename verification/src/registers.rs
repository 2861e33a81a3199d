use std::collections::HashMap;
use vstd::prelude::*;

use crate::fault::{Fault, FaultV};
use crate::value::{Value, ValueV};

verus! {

broadcast use vstd::std_specs::hash::group_hash_axioms;

/// An opaque register identifier: `r0`, `r1`, ... The register has no
/// inherent type; its type is whatever value is currently assigned to it.
#[derive(Clone, Copy, Debug, PartialEq, Eq, Structural)]
pub struct Register {
    pub locator: u64,
}

impl Register {
    /// The register with the given locator.
    pub fn new(locator: u64) -> (r: Register)
        ensures
            r.locator == locator,
    {
        Register { locator }
    }
}

/// One slot of the register file: reserved by `define`, populated by
/// `assign`.
#[derive(Debug, PartialEq, Eq)]
pub enum Slot {
    Defined,
    Assigned(Value),
}

/// Mathematical model of a `Slot`.
pub enum SlotV {
    Defined,
    Assigned(ValueV),
}

impl View for Slot {
    type V = SlotV;

    open spec fn view(&self) -> SlotV {
        match self {
            Slot::Defined => SlotV::Defined,
            Slot::Assigned(v) => SlotV::Assigned(v@),
        }
    }
}

/// What loading a register yields on a given register-file state: the stored
/// value when the register is defined and assigned, and an
/// undefined-register fault otherwise.
pub open spec fn load_v(regs: Map<u64, SlotV>, r: u64) -> Result<ValueV, FaultV> {
    if regs.contains_key(r) {
        match regs[r] {
            SlotV::Assigned(v) => Ok(v),
            SlotV::Defined => Err(FaultV::UndefinedRegister(r)),
        }
    } else {
        Err(FaultV::UndefinedRegister(r))
    }
}

/// The register file: a mapping from register locator to its slot, scoped to
/// one instruction-sequence evaluation.
pub struct Registers {
    slots: HashMap<u64, Slot>,
}

impl View for Registers {
    type V = Map<u64, SlotV>;

    closed spec fn view(&self) -> Map<u64, SlotV> {
        Map::new(
            |k: u64| self.slots@.contains_key(k),
            |k: u64| self.slots@[k]@,
        )
    }
}

impl Registers {
    /// An empty register file.
    pub fn new() -> (r: Registers)
        ensures
            r@ == Map::<u64, SlotV>::empty(),
    {
        let slots: HashMap<u64, Slot> = HashMap::new();
        let r = Registers { slots };
        proof {
            assert(r@ =~= Map::<u64, SlotV>::empty());
        }
        r
    }

    /// Whether the register has been defined.
    pub fn is_defined(&self, r: &Register) -> (b: bool)
        ensures
            b == self@.contains_key(r.locator),
    {
        self.slots.contains_key(&r.locator)
    }

    /// Reserves the register's slot, with no value yet. Faults when the
    /// register is already defined; the file is then left unchanged.
    pub fn define(&mut self, r: &Register) -> (res: Result<(), Fault>)
        ensures
            match res {
                Ok(()) => {
                    &&& !old(self)@.contains_key(r.locator)
                    &&& final(self)@ == old(self)@.insert(r.locator, SlotV::Defined)
                },
                Err(f) => {
                    &&& old(self)@.contains_key(r.locator)
                    &&& f@ == FaultV::DuplicateDefinition(r.locator)
                    &&& final(self)@ == old(self)@
                },
            },
    {
        if self.slots.contains_key(&r.locator) {
            return Err(Fault::DuplicateDefinition(r.locator));
        }
        self.slots.insert(r.locator, Slot::Defined);
        proof {
            assert(self@ =~= old(self)@.insert(r.locator, SlotV::Defined));
        }
        Ok(())
    }

    /// Stores a value in a defined register, overwriting any prior value.
    /// Faults when the register was never defined; the file is then left
    /// unchanged.
    pub fn assign(&mut self, r: &Register, v: Value) -> (res: Result<(), Fault>)
        ensures
            match res {
                Ok(()) => {
                    &&& old(self)@.contains_key(r.locator)
                    &&& final(self)@ == old(self)@.insert(
                        r.locator,
                        SlotV::Assigned(v@),
                    )
                },
                Err(f) => {
                    &&& !old(self)@.contains_key(r.locator)
                    &&& f@ == FaultV::UndefinedRegister(r.locator)
                    &&& final(self)@ == old(self)@
                },
            },
    {
        if !self.slots.contains_key(&r.locator) {
            return Err(Fault::UndefinedRegister(r.locator));
        }
        let ghost prior = self@;
        self.slots.insert(r.locator, Slot::Assigned(v));
        proof {
            assert(self@ =~= prior.insert(r.locator, SlotV::Assigned(v@)));
        }
        Ok(())
    }

    /// Returns the stored value, by value. Faults when the register was
    /// never defined or never assigned.
    pub fn load(&self, r: &Register) -> (res: Result<Value, Fault>)
        ensures
            match res {
                Ok(v) => load_v(self@, r.locator) == Ok::<ValueV, FaultV>(v@),
                Err(f) => load_v(self@, r.locator) == Err::<ValueV, FaultV>(f@),
            },
    {
        match self.slots.get(&r.locator) {
            Some(Slot::Assigned(v)) => Ok(v.duplicate()),
            Some(Slot::Defined) => Err(Fault::UndefinedRegister(r.locator)),
            None => Err(Fault::UndefinedRegister(r.locator)),
        }
    }
}

/// Register discipline: on any register-file state, loading a register that
/// was never defined faults with the undefined-register fault; and after a
/// value is assigned to a defined register, an immediate load of that
/// register returns exactly the assigned value.
pub proof fn lemma_register_discipline(regs: Map<u64, SlotV>, r: u64, v: ValueV)
    ensures
        !regs.contains_key(r) ==> load_v(regs, r) == Err::<ValueV, FaultV>(
            FaultV::UndefinedRegister(r),
        ),
        regs.contains_key(r) ==> load_v(regs.insert(r, SlotV::Assigned(v)), r)
            == Ok::<ValueV, FaultV>(v),
{
}

} // verus!
