//! The building blocks of a circuit.

use vstd::prelude::*;
use crate::elements::wire::Signals;

pub mod bus;
pub mod complex;
pub mod frame;
pub mod gate;
pub mod key;
pub mod model;
pub mod oscillator;
pub mod pending;
pub mod rewire;
pub mod schedule;
pub mod settle;
pub mod text;
pub mod wire;

verus! {

/// An element that can be evaluated: one call is one step of the element on
/// the lines it is wired to. A step may change what the element keeps for
/// itself, as a clock's count; gates and composites keep nothing.
pub trait Conduct {
    /// Whether every line that the element is wired to is among the first
    /// `count` lines of a store.
    spec fn wired(&self, count: nat) -> bool;

    /// The values of all lines after one evaluation on `before`.
    spec fn after(&self, before: Seq<bool>) -> Seq<bool>;

    /// Whether `next` is the element as one evaluation leaves it.
    spec fn becomes(&self, next: &Self) -> bool;

    /// Evaluates the element once on the lines of `signals`.
    fn conduct(&mut self, signals: &mut Signals)
        requires
            old(self).wired(old(signals)@.len()),
        ensures
            final(signals)@ == old(self).after(old(signals)@),
            final(signals)@.len() == old(signals)@.len(),
            old(self).becomes(final(self)),
    ;
}

} // verus!
