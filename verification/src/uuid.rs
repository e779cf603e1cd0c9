use vstd::prelude::*;

verus! {


/// Hands out the next identifier from `counter`, which moves on by one,
/// wrapping around past `u32::MAX`.
pub fn next_uuid(counter: &mut u32) -> (r: u32)
    ensures
        r == *old(counter),
        *final(counter) == (if *old(counter) == u32::MAX { 0 } else { *old(counter) + 1 }),
{
    let r = *counter;
    *counter = counter.wrapping_add(1);
    r
}

/// The identifier of a loaded module.
#[derive(Copy, Clone, Debug, PartialEq, Eq, Hash, Structural)]
pub struct ModuleID(pub u32);

impl ModuleID {
    /// A fresh identifier from `counter`.
    pub fn new(counter: &mut u32) -> (r: Self)
        ensures
            r.0 == *old(counter),
            *final(counter) == (if *old(counter) == u32::MAX { 0 } else { *old(counter) + 1 }),
    {
        ModuleID(next_uuid(counter))
    }

    /// The identifier that stands for no module.
    pub fn null() -> (r: Self)
        ensures
            r.0 == 0,
    {
        ModuleID(0)
    }
}

/// The identifier of a loaded map.
#[derive(Copy, Clone, Debug, PartialEq, Eq, Hash, Structural)]
pub struct MapID(pub u32);

impl MapID {
    /// A fresh identifier from `counter`.
    pub fn new(counter: &mut u32) -> (r: Self)
        ensures
            r.0 == *old(counter),
            *final(counter) == (if *old(counter) == u32::MAX { 0 } else { *old(counter) + 1 }),
    {
        MapID(next_uuid(counter))
    }

    /// The identifier that stands for no map.
    pub fn null() -> (r: Self)
        ensures
            r.0 == 0,
    {
        MapID(0)
    }
}

/// A source of identifiers for one process: it hands out 1, 2, 3 and so on,
/// never the null identifier 0 until it wraps around past `u32::MAX`.
pub struct IdCounter {
    next: u32,
}

impl View for IdCounter {
    type V = u32;

    /// The identifier handed out next.
    closed spec fn view(&self) -> u32 {
        self.next
    }
}

impl IdCounter {
    /// A counter whose first identifier is 1.
    pub fn new() -> (r: Self)
        ensures
            r@ == 1,
    {
        IdCounter { next: 1 }
    }

    /// Hands out the next identifier; the one after it is one more, wrapping
    /// around past `u32::MAX`.
    pub fn next_uuid(&mut self) -> (r: u32)
        ensures
            r == old(self)@,
            final(self)@ == (if old(self)@ == u32::MAX { 0 } else { old(self)@ + 1 }),
    {
        next_uuid(&mut self.next)
    }
}

} // verus!
