use vstd::prelude::*;

use crate::control::{Key, Keyboard};
use crate::DeltaTime;

verus! {

/// The singleton-per-type table of global values the systems share: one
/// slot per resource type, filled at world-initialisation time. Reading a
/// slot that was never filled is a wiring bug, ruled out by contract
/// rather than reported at run time.
#[derive(Clone, Copy, PartialEq, Eq, Structural, Debug)]
pub struct ResourceTable {
    delta: Option<DeltaTime>,
    keyboard: Option<Keyboard>,
}

impl ResourceTable {
    /// The elapsed-time slot.
    pub closed spec fn spec_delta(&self) -> Option<DeltaTime> {
        self.delta
    }

    /// The keyboard-state slot.
    pub closed spec fn spec_keyboard(&self) -> Option<Keyboard> {
        self.keyboard
    }

    /// A table with no resource registered.
    pub fn new() -> (r: ResourceTable)
        ensures
            r.spec_delta() is None,
            r.spec_keyboard() is None,
    {
        ResourceTable { delta: None, keyboard: None }
    }

    /// Stores the elapsed-time resource, replacing any previous value.
    pub fn insert_delta(&mut self, d: DeltaTime)
        ensures
            final(self).spec_delta() == Some(d),
            final(self).spec_keyboard() == old(self).spec_keyboard(),
    {
        self.delta = Some(d);
    }

    /// Stores the keyboard resource, replacing any previous value.
    pub fn insert_keyboard(&mut self, k: Keyboard)
        ensures
            final(self).spec_keyboard() == Some(k),
            final(self).spec_delta() == old(self).spec_delta(),
    {
        self.keyboard = Some(k);
    }

    /// Read accessor for the elapsed time of the current tick.
    pub fn read_delta(&self) -> (r: DeltaTime)
        requires
            self.spec_delta() is Some,
        ensures
            Some(r) == self.spec_delta(),
    {
        match &self.delta {
            Some(d) => *d,
            None => vstd::pervasive::unreached(),
        }
    }

    /// Read accessor for the keyboard state.
    pub fn read_keyboard(&self) -> (r: Keyboard)
        requires
            self.spec_keyboard() is Some,
        ensures
            Some(r) == self.spec_keyboard(),
    {
        match &self.keyboard {
            Some(k) => *k,
            None => vstd::pervasive::unreached(),
        }
    }

    /// Write accessor the host uses for key-down and key-up events.
    pub fn set_key(&mut self, key: Key, down: bool)
        requires
            old(self).spec_keyboard() is Some,
        ensures
            final(self).spec_delta() == old(self).spec_delta(),
            final(self).spec_keyboard() is Some,
            final(self).spec_keyboard()->0.spec_pressed(key) == down,
            forall|k: Key| k != key
                ==> final(self).spec_keyboard()->0.spec_pressed(k)
                    == old(self).spec_keyboard()->0.spec_pressed(k),
    {
        match &mut self.keyboard {
            Some(k) => k.set_pressed(key, down),
            None => vstd::pervasive::unreached(),
        }
    }
}

} // verus!
