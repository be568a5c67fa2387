//! The plain AND element.

use vstd::prelude::*;
use crate::elements::gate::{GateView, Logic};
use crate::elements::wire::{Signals, Wire};
use crate::elements::Conduct;

verus! {

/// An element that always computes AND. Unlike a gate it is not evaluated
/// when it is made: its output line keeps its value until the first
/// evaluation.
#[derive(Clone, Copy, Debug)]
pub struct Key {
    in_1: Wire,
    in_2: Wire,
    out: Wire,
}

impl View for Key {
    type V = GateView;

    closed spec fn view(&self) -> GateView {
        GateView { in_1: self.in_1@, in_2: self.in_2@, out: self.out@, act: Logic::And }
    }
}

impl Key {
    /// An AND element on the given lines. No line is read or written.
    pub fn new(in_1: Wire, in_2: Wire, out: Wire) -> (key: Key)
        ensures
            key@ == (GateView { in_1: in_1@, in_2: in_2@, out: out@, act: Logic::And }),
    {
        Key { in_1, in_2, out }
    }

    /// Makes `wire` the first input.
    pub fn wire_in_1(&mut self, wire: Wire)
        ensures
            final(self)@ == (GateView { in_1: wire@, ..old(self)@ }),
    {
        self.in_1 = wire;
    }

    /// Makes `wire` the second input.
    pub fn wire_in_2(&mut self, wire: Wire)
        ensures
            final(self)@ == (GateView { in_2: wire@, ..old(self)@ }),
    {
        self.in_2 = wire;
    }

    /// Makes `wire` the output.
    pub fn wire_out(&mut self, wire: Wire)
        ensures
            final(self)@ == (GateView { out: wire@, ..old(self)@ }),
    {
        self.out = wire;
    }

    /// The output line.
    pub fn get_out(&self) -> (wire: Wire)
        ensures
            wire@ == self@.out,
    {
        self.out
    }
}

impl Conduct for Key {
    open spec fn wired(&self, count: nat) -> bool {
        self@.wired(count)
    }

    open spec fn after(&self, before: Seq<bool>) -> Seq<bool> {
        self@.drive(before)
    }

    open spec fn becomes(&self, next: &Self) -> bool {
        next@ == self@
    }

    fn conduct(&mut self, signals: &mut Signals) {
        let in_1 = self.in_1.get(signals);
        let in_2 = self.in_2.get(signals);
        let out = in_1 && in_2;
        self.out.set(signals, out);
    }
}

} // verus!
