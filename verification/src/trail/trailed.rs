//! Values that record their old value on a trail whenever they are set.

use crate::trail::{Target, Trail, TrailEntry, TRAIL_MAX_SIZE};
use std::marker::PhantomData;
use vstd::prelude::*;

verus! {

/// A value that records every change on a trail, under its own id.
#[derive(Debug)]
pub struct Trailed<T: Copy> {
    value: T,
    id: usize,
    _phantom: PhantomData<T>,
}

impl<T: Copy> Trailed<T> {
    /// The current value.
    pub closed spec fn spec_value(&self) -> T {
        self.value
    }

    /// The id under which changes are recorded.
    pub closed spec fn spec_id(&self) -> usize {
        self.id
    }

    /// A trailed value with the given id and initial value.
    pub fn new(id: usize, initial_value: T) -> (r: Self)
        ensures
            r.spec_value() == initial_value,
            r.spec_id() == id,
    {
        Self { value: initial_value, id, _phantom: PhantomData }
    }

    /// The current value.
    pub fn get(&self) -> (r: T)
        ensures
            r == self.spec_value(),
    {
        self.value
    }

    /// The id under which changes are recorded.
    pub fn id(&self) -> (r: usize)
        ensures
            r == self.spec_id(),
    {
        self.id
    }
}

impl Trailed<u8> {
    /// Set the value, recording the old one.
    pub fn set(&mut self, trail: &mut Trail, new_value: u8)
        requires
            old(trail).spec_entries().len() < TRAIL_MAX_SIZE,
        ensures
            final(self).spec_value() == new_value,
            final(self).spec_id() == old(self).spec_id(),
            final(trail).spec_entries() == old(trail).spec_entries().push(
                TrailEntry { target: Target::Registered(old(self).spec_id()), old_value: old(self).spec_value() as u64 },
            ),
            final(trail).spec_frozen() == old(trail).spec_frozen(),
    {
        let old_value = self.value as u64;
        trail.record_change(self.id, old_value);
        self.value = new_value;
    }
}

impl Trailed<u16> {
    /// Set the value, recording the old one.
    pub fn set(&mut self, trail: &mut Trail, new_value: u16)
        requires
            old(trail).spec_entries().len() < TRAIL_MAX_SIZE,
        ensures
            final(self).spec_value() == new_value,
            final(self).spec_id() == old(self).spec_id(),
            final(trail).spec_entries() == old(trail).spec_entries().push(
                TrailEntry { target: Target::Registered(old(self).spec_id()), old_value: old(self).spec_value() as u64 },
            ),
            final(trail).spec_frozen() == old(trail).spec_frozen(),
    {
        let old_value = self.value as u64;
        trail.record_change(self.id, old_value);
        self.value = new_value;
    }
}

impl Trailed<u32> {
    /// Set the value, recording the old one.
    pub fn set(&mut self, trail: &mut Trail, new_value: u32)
        requires
            old(trail).spec_entries().len() < TRAIL_MAX_SIZE,
        ensures
            final(self).spec_value() == new_value,
            final(self).spec_id() == old(self).spec_id(),
            final(trail).spec_entries() == old(trail).spec_entries().push(
                TrailEntry { target: Target::Registered(old(self).spec_id()), old_value: old(self).spec_value() as u64 },
            ),
            final(trail).spec_frozen() == old(trail).spec_frozen(),
    {
        let old_value = self.value as u64;
        trail.record_change(self.id, old_value);
        self.value = new_value;
    }
}

impl Trailed<u64> {
    /// Set the value, recording the old one.
    pub fn set(&mut self, trail: &mut Trail, new_value: u64)
        requires
            old(trail).spec_entries().len() < TRAIL_MAX_SIZE,
        ensures
            final(self).spec_value() == new_value,
            final(self).spec_id() == old(self).spec_id(),
            final(trail).spec_entries() == old(trail).spec_entries().push(
                TrailEntry { target: Target::Registered(old(self).spec_id()), old_value: old(self).spec_value() },
            ),
            final(trail).spec_frozen() == old(trail).spec_frozen(),
    {
        let old_value = self.value;
        trail.record_change(self.id, old_value);
        self.value = new_value;
    }

    /// Set the value only if it differs, recording the old one; returns whether it changed.
    pub fn maybe_set(&mut self, trail: &mut Trail, new_value: u64) -> (r: bool)
        requires
            old(trail).spec_entries().len() < TRAIL_MAX_SIZE,
        ensures
            r == (old(self).spec_value() != new_value),
            final(self).spec_value() == new_value,
            final(self).spec_id() == old(self).spec_id(),
            r ==> final(trail).spec_entries() == old(trail).spec_entries().push(
                TrailEntry { target: Target::Registered(old(self).spec_id()), old_value: old(self).spec_value() },
            ),
            !r ==> final(trail).spec_entries() == old(trail).spec_entries(),
            final(trail).spec_frozen() == old(trail).spec_frozen(),
    {
        if self.value != new_value {
            self.set(trail, new_value);
            true
        } else {
            false
        }
    }
}

impl Trailed<bool> {
    /// Set the value, recording the old one (1 for true, 0 for false).
    pub fn set(&mut self, trail: &mut Trail, new_value: bool)
        requires
            old(trail).spec_entries().len() < TRAIL_MAX_SIZE,
        ensures
            final(self).spec_value() == new_value,
            final(self).spec_id() == old(self).spec_id(),
            final(trail).spec_entries() == old(trail).spec_entries().push(
                TrailEntry { target: Target::Registered(old(self).spec_id()), old_value: if old(self).spec_value() { 1u64 } else { 0u64 } },
            ),
            final(trail).spec_frozen() == old(trail).spec_frozen(),
    {
        let old_value: u64 = if self.value { 1 } else { 0 };
        trail.record_change(self.id, old_value);
        self.value = new_value;
    }
}

impl Trailed<usize> {
    /// Set the value, recording the old one.
    pub fn set(&mut self, trail: &mut Trail, new_value: usize)
        requires
            old(trail).spec_entries().len() < TRAIL_MAX_SIZE,
        ensures
            final(self).spec_value() == new_value,
            final(self).spec_id() == old(self).spec_id(),
            final(trail).spec_entries() == old(trail).spec_entries().push(
                TrailEntry { target: Target::Registered(old(self).spec_id()), old_value: old(self).spec_value() as u64 },
            ),
            final(trail).spec_frozen() == old(trail).spec_frozen(),
    {
        let old_value = self.value as u64;
        trail.record_change(self.id, old_value);
        self.value = new_value;
    }
}

/// Hands out distinct ids for trailed values, counting up from 0.
#[derive(Debug)]
pub struct TrailedRegistry {
    next_id: usize,
}

impl TrailedRegistry {
    /// The id the next registration receives.
    pub closed spec fn spec_next_id(&self) -> usize {
        self.next_id
    }

    /// A registry starting at id 0.
    pub fn new() -> (r: Self)
        ensures
            r.spec_next_id() == 0,
    {
        Self { next_id: 0 }
    }

    /// Register a value: it receives the next id.
    pub fn register<T: Copy>(&mut self, initial_value: T) -> (r: Trailed<T>)
        requires
            old(self).spec_next_id() < usize::MAX,
        ensures
            r.spec_id() == old(self).spec_next_id(),
            r.spec_value() == initial_value,
            final(self).spec_next_id() == old(self).spec_next_id() + 1,
    {
        let id = self.next_id;
        self.next_id = self.next_id + 1;
        Trailed::new(id, initial_value)
    }

    /// The id the next registration receives.
    pub fn next_id(&self) -> (r: usize)
        ensures
            r == self.spec_next_id(),
    {
        self.next_id
    }
}

impl Default for TrailedRegistry {
    fn default() -> (r: Self)
        ensures
            r.spec_next_id() == 0,
    {
        Self::new()
    }
}

/// Restoring a value from the word recorded on the trail.
pub trait TrailRestore {
    /// Restore the value from a recorded word.
    fn restore(&mut self, old_value: u64);
}

impl TrailRestore for Trailed<u8> {
    fn restore(&mut self, old_value: u64)
        ensures
            final(self).spec_value() == old_value as u8,
            final(self).spec_id() == old(self).spec_id(),
    {
        self.value = old_value as u8;
    }
}

impl TrailRestore for Trailed<u16> {
    fn restore(&mut self, old_value: u64)
        ensures
            final(self).spec_value() == old_value as u16,
            final(self).spec_id() == old(self).spec_id(),
    {
        self.value = old_value as u16;
    }
}

impl TrailRestore for Trailed<u32> {
    fn restore(&mut self, old_value: u64)
        ensures
            final(self).spec_value() == old_value as u32,
            final(self).spec_id() == old(self).spec_id(),
    {
        self.value = old_value as u32;
    }
}

impl TrailRestore for Trailed<u64> {
    fn restore(&mut self, old_value: u64)
        ensures
            final(self).spec_value() == old_value,
            final(self).spec_id() == old(self).spec_id(),
    {
        self.value = old_value;
    }
}

impl TrailRestore for Trailed<bool> {
    fn restore(&mut self, old_value: u64)
        ensures
            final(self).spec_value() == (old_value != 0),
            final(self).spec_id() == old(self).spec_id(),
    {
        self.value = old_value != 0;
    }
}

impl TrailRestore for Trailed<usize> {
    fn restore(&mut self, old_value: u64)
        ensures
            final(self).spec_value() == old_value as usize,
            final(self).spec_id() == old(self).spec_id(),
    {
        self.value = old_value as usize;
    }
}

} // verus!
