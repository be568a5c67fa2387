//! The clock generator.

use vstd::prelude::*;
use crate::elements::wire::{Signals, Wire};
use crate::elements::Conduct;

verus! {

/// A clock as plain data: its output line, the number of evaluations
/// between two flips, and how many evaluations it has seen since the last
/// flip.
pub struct OscillatorView {
    pub out: int,
    pub half_period: nat,
    pub counter: nat,
}

impl OscillatorView {
    /// The clock is counting: its counter is below its half-period.
    pub open spec fn counting(self) -> bool {
        self.counter < self.half_period
    }

    /// Whether this evaluation is the one that flips the output.
    pub open spec fn flips(self) -> bool {
        self.counter + 1 == self.half_period
    }

    /// The clock after one evaluation.
    pub open spec fn tick(self) -> OscillatorView {
        OscillatorView {
            counter: if self.flips() { 0 } else { self.counter + 1 },
            ..self
        }
    }

    /// The values of the lines after one evaluation on `before`.
    pub open spec fn drive(self, before: Seq<bool>) -> Seq<bool> {
        if self.flips() {
            before.update(self.out, !before[self.out])
        } else {
            before
        }
    }

    /// The clock after `n` evaluations.
    pub open spec fn tick_n(self, n: nat) -> OscillatorView
        decreases n,
    {
        if n == 0 {
            self
        } else {
            self.tick_n((n - 1) as nat).tick()
        }
    }

    /// The values of the lines after `n` evaluations on `before`.
    pub open spec fn drive_n(self, before: Seq<bool>, n: nat) -> Seq<bool>
        decreases n,
    {
        if n == 0 {
            before
        } else {
            self.tick_n((n - 1) as nat).drive(self.drive_n(before, (n - 1) as nat))
        }
    }
}

/// A clock that has just flipped, or has not been evaluated yet, leaves
/// every line as it is for all evaluations but the last of a half-period,
/// and flips its output line, and nothing else, with the last.
pub proof fn lemma_half_period(clock: OscillatorView, before: Seq<bool>, n: nat)
    requires
        clock.counter == 0,
        n <= clock.half_period,
        0 <= clock.out < before.len(),
    ensures
        n < clock.half_period ==> clock.tick_n(n).counter == n && clock.drive_n(before, n) == before,
        n == clock.half_period && n > 0 ==> clock.tick_n(n) == clock && clock.drive_n(before, n)
            == before.update(clock.out, !before[clock.out]),
        clock.tick_n(n).out == clock.out,
        clock.tick_n(n).half_period == clock.half_period,
    decreases n,
{
    if n > 0 {
        lemma_half_period(clock, before, (n - 1) as nat);
    }
}

/// A clock: it flips its output line once every `half_period` evaluations.
/// It has no inputs, and only its own evaluation changes its count.
#[derive(Debug)]
pub struct Oscillator {
    out: Wire,
    half_period: usize,
    counter: usize,
}

impl View for Oscillator {
    type V = OscillatorView;

    closed spec fn view(&self) -> OscillatorView {
        OscillatorView {
            out: self.out@,
            half_period: self.half_period as nat,
            counter: self.counter as nat,
        }
    }
}

impl Oscillator {
    #[verifier::type_invariant]
    spec fn counting(self) -> bool {
        self.counter < self.half_period
    }

    /// A clock on `out` that flips every `half_period` evaluations, or every
    /// evaluation where `half_period` is zero. The output line is set to
    /// `false`.
    pub fn new(signals: &mut Signals, out: Wire, half_period: usize) -> (clock: Oscillator)
        requires
            old(signals).has(out),
        ensures
            clock@ == (OscillatorView {
                out: out@,
                half_period: if half_period == 0 { 1 } else { half_period as nat },
                counter: 0,
            }),
            final(signals)@ == old(signals)@.update(out@, false),
    {
        let half_period: usize = if half_period == 0 { 1 } else { half_period };
        out.set(signals, false);
        Oscillator { out, half_period, counter: 0 }
    }

    /// The output line.
    pub fn get_out(&self) -> (wire: Wire)
        ensures
            wire@ == self@.out,
    {
        self.out
    }

    /// Makes `wire` the output. The count goes on.
    pub fn wire_out(&mut self, wire: Wire)
        ensures
            final(self)@ == (OscillatorView { out: wire@, ..old(self)@ }),
    {
        proof {
            use_type_invariant(&*self);
        }
        self.out = wire;
    }

}

impl Clone for Oscillator {
    /// A clock on the same line with the same half-period and the same
    /// count. From here on the two count each for itself.
    fn clone(&self) -> (copy: Oscillator)
        ensures
            copy@ == self@,
    {
        proof {
            use_type_invariant(self);
        }
        Oscillator { out: self.out, half_period: self.half_period, counter: self.counter }
    }
}

impl Conduct for Oscillator {
    open spec fn wired(&self, count: nat) -> bool {
        0 <= self@.out < count
    }

    open spec fn after(&self, before: Seq<bool>) -> Seq<bool> {
        self@.drive(before)
    }

    open spec fn becomes(&self, next: &Self) -> bool {
        next@ == self@.tick()
    }

    /// One evaluation: the counter goes up by one; when it reaches the
    /// half-period it goes back to zero and the output line is flipped.
    fn conduct(&mut self, signals: &mut Signals)
        ensures
            old(self)@.counting(),
            final(self)@.counting(),
    {
        proof {
            use_type_invariant(&*self);
        }
        if self.counter + 1 == self.half_period {
            self.counter = 0;
            let value = self.out.get(signals);
            self.out.set(signals, !value);
        } else {
            self.counter = self.counter + 1;
        }
    }
}

} // verus!
