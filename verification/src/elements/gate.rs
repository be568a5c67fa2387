//! Primitive gates.

use vstd::prelude::*;
use crate::elements::text::{boundary_string, boundary_text};
use crate::elements::wire::{all_below, lines_of, Signals, Wire};
use crate::elements::Conduct;

verus! {

/// The boolean function that a gate computes.
#[derive(Clone, Copy, Debug, PartialEq, Eq, Structural)]
pub enum Logic {
    And,
    Or,
    Xor,
    Not,
    Nor,
    Nand,
}

impl Logic {
    /// The function's value on inputs `a` and `b`. `Not` looks at `a` only.
    pub open spec fn apply(self, a: bool, b: bool) -> bool {
        match self {
            Logic::And => a && b,
            Logic::Or => a || b,
            Logic::Xor => a != b,
            Logic::Not => !a,
            Logic::Nor => !(a || b),
            Logic::Nand => !(a && b),
        }
    }

    /// The name of the function, in lower case.
    pub open spec fn label(self) -> Seq<char> {
        match self {
            Logic::And => "and"@,
            Logic::Or => "or"@,
            Logic::Xor => "xor"@,
            Logic::Not => "not"@,
            Logic::Nor => "nor"@,
            Logic::Nand => "nand"@,
        }
    }

    /// The name of the function, in lower case.
    pub fn name(self) -> (name: &'static str)
        ensures
            name@ == self.label(),
    {
        match self {
            Logic::And => "and",
            Logic::Or => "or",
            Logic::Xor => "xor",
            Logic::Not => "not",
            Logic::Nor => "nor",
            Logic::Nand => "nand",
        }
    }

    /// Computes the function on `a` and `b`.
    pub fn compute(self, a: bool, b: bool) -> (out: bool)
        ensures
            out == self.apply(a, b),
    {
        match self {
            Logic::And => a && b,
            Logic::Or => a || b,
            Logic::Xor => a != b,
            Logic::Not => !a,
            Logic::Nor => !(a || b),
            Logic::Nand => !(a && b),
        }
    }
}

/// A gate as plain data: the identities of its lines, and its function.
pub struct GateView {
    pub in_1: int,
    pub in_2: int,
    pub out: int,
    pub act: Logic,
}

impl GateView {
    /// The input lines: one for `Not`, two for every other function.
    pub open spec fn inputs(self) -> Seq<int> {
        if self.act == Logic::Not {
            seq![self.in_1]
        } else {
            seq![self.in_1, self.in_2]
        }
    }

    /// Whether `line` is an input line.
    pub open spec fn reads(self, line: int) -> bool {
        self.in_1 == line || (self.act != Logic::Not && self.in_2 == line)
    }

    /// Whether the input lines and the output line are among the first
    /// `count` lines.
    pub open spec fn wired(self, count: nat) -> bool {
        &&& 0 <= self.in_1 < count
        &&& self.act != Logic::Not ==> 0 <= self.in_2 < count
        &&& 0 <= self.out < count
    }

    /// The values after one evaluation on `before`: the output
    /// line holds the function of the two input lines, the rest is unchanged.
    pub open spec fn drive(self, before: Seq<bool>) -> Seq<bool> {
        before.update(self.out, self.act.apply(before[self.in_1], before[self.in_2]))
    }
}

/// A gate: a boolean function of one or two input lines, written to one
/// output line at each evaluation. It keeps nothing between
/// evaluations. A NOT gate has one input line, every other gate two.
#[derive(Clone, Copy, Debug)]
pub struct Gate {
    in_1: Wire,
    in_2: Wire,
    out: Wire,
    act: Logic,
}

impl View for Gate {
    type V = GateView;

    closed spec fn view(&self) -> GateView {
        GateView { in_1: self.in_1@, in_2: self.in_2@, out: self.out@, act: self.act }
    }
}

impl Gate {
    /// A gate with the given lines and function, evaluated once.
    fn build(signals: &mut Signals, in_1: Wire, in_2: Wire, out: Wire, act: Logic) -> (gate: Gate)
        requires
            old(signals).has(in_1),
            old(signals).has(in_2),
            old(signals).has(out),
            act == Logic::Not ==> in_2 == in_1,
        ensures
            gate@ == (GateView { in_1: in_1@, in_2: in_2@, out: out@, act }),
            final(signals)@ == gate@.drive(old(signals)@),
    {
        let mut gate = Gate { in_1, in_2, out, act };
        gate.conduct(signals);
        gate
    }

    /// An AND gate on the given lines. The output line is written at once.
    pub fn and(signals: &mut Signals, in_1: Wire, in_2: Wire, out: Wire) -> (gate: Gate)
        requires
            old(signals).has(in_1),
            old(signals).has(in_2),
            old(signals).has(out),
        ensures
            gate@ == (GateView { in_1: in_1@, in_2: in_2@, out: out@, act: Logic::And }),
            final(signals)@ == gate@.drive(old(signals)@),
    {
        Gate::build(signals, in_1, in_2, out, Logic::And)
    }

    /// An OR gate on the given lines. The output line is written at once.
    pub fn or(signals: &mut Signals, in_1: Wire, in_2: Wire, out: Wire) -> (gate: Gate)
        requires
            old(signals).has(in_1),
            old(signals).has(in_2),
            old(signals).has(out),
        ensures
            gate@ == (GateView { in_1: in_1@, in_2: in_2@, out: out@, act: Logic::Or }),
            final(signals)@ == gate@.drive(old(signals)@),
    {
        Gate::build(signals, in_1, in_2, out, Logic::Or)
    }

    /// An XOR gate on the given lines. The output line is written at once.
    pub fn xor(signals: &mut Signals, in_1: Wire, in_2: Wire, out: Wire) -> (gate: Gate)
        requires
            old(signals).has(in_1),
            old(signals).has(in_2),
            old(signals).has(out),
        ensures
            gate@ == (GateView { in_1: in_1@, in_2: in_2@, out: out@, act: Logic::Xor }),
            final(signals)@ == gate@.drive(old(signals)@),
    {
        Gate::build(signals, in_1, in_2, out, Logic::Xor)
    }

    /// A NOT gate from `in_1` to `out`. It has one input line: its second
    /// slot holds the same line and is never looked at. No line is made.
    /// The output line is written at once.
    pub fn not(signals: &mut Signals, in_1: Wire, out: Wire) -> (gate: Gate)
        requires
            old(signals).has(in_1),
            old(signals).has(out),
        ensures
            gate@ == (GateView { in_1: in_1@, in_2: in_1@, out: out@, act: Logic::Not }),
            gate@.inputs() == seq![in_1@],
            final(signals)@ == old(signals)@.update(out@, !old(signals)@[in_1@]),
            final(signals)@ == gate@.drive(old(signals)@),
    {
        Gate::build(signals, in_1, in_1, out, Logic::Not)
    }

    /// A NOR gate on the given lines. The output line is written at once.
    pub fn nor(signals: &mut Signals, in_1: Wire, in_2: Wire, out: Wire) -> (gate: Gate)
        requires
            old(signals).has(in_1),
            old(signals).has(in_2),
            old(signals).has(out),
        ensures
            gate@ == (GateView { in_1: in_1@, in_2: in_2@, out: out@, act: Logic::Nor }),
            final(signals)@ == gate@.drive(old(signals)@),
    {
        Gate::build(signals, in_1, in_2, out, Logic::Nor)
    }

    /// A NAND gate on the given lines. The output line is written at once.
    pub fn nand(signals: &mut Signals, in_1: Wire, in_2: Wire, out: Wire) -> (gate: Gate)
        requires
            old(signals).has(in_1),
            old(signals).has(in_2),
            old(signals).has(out),
        ensures
            gate@ == (GateView { in_1: in_1@, in_2: in_2@, out: out@, act: Logic::Nand }),
            final(signals)@ == gate@.drive(old(signals)@),
    {
        Gate::build(signals, in_1, in_2, out, Logic::Nand)
    }

    /// Makes `wire` the first input. The function stays.
    pub fn wire_in_1(&mut self, wire: Wire)
        ensures
            final(self)@ == (GateView { in_1: wire@, ..old(self)@ }),
    {
        self.in_1 = wire;
    }

    /// Makes `wire` the second input. The function stays. A NOT gate
    /// keeps the line in its second slot and goes on not looking at it.
    pub fn wire_in_2(&mut self, wire: Wire)
        ensures
            final(self)@ == (GateView { in_2: wire@, ..old(self)@ }),
    {
        self.in_2 = wire;
    }

    /// Makes `wire` the output. The function stays.
    pub fn wire_out(&mut self, wire: Wire)
        ensures
            final(self)@ == (GateView { out: wire@, ..old(self)@ }),
    {
        self.out = wire;
    }

    /// The first input line.
    pub fn get_in_1(&self) -> (wire: Wire)
        ensures
            wire@ == self@.in_1,
    {
        self.in_1
    }

    /// The line in the second input slot. For a NOT gate this is no input
    /// line.
    pub fn get_in_2(&self) -> (wire: Wire)
        ensures
            wire@ == self@.in_2,
    {
        self.in_2
    }

    /// The output line.
    pub fn get_out(&self) -> (wire: Wire)
        ensures
            wire@ == self@.out,
    {
        self.out
    }

    /// The input lines: one for a NOT gate, two for every other gate.
    pub fn inputs(&self) -> (wires: Vec<Wire>)
        ensures
            lines_of(wires@) == self@.inputs(),
    {
        let mut wires: Vec<Wire> = Vec::new();
        wires.push(self.in_1);
        match self.act {
            Logic::Not => {},
            _ => {
                wires.push(self.in_2);
            },
        }
        assert(lines_of(wires@) =~= self@.inputs());
        wires
    }

    /// The name of the function, then what the input lines hold, then
    /// what the output line holds.
    pub fn render(&self, signals: &Signals) -> (text: String)
        requires
            self@.wired(signals@.len()),
        ensures
            text@ == boundary_text(self@.act.label(), self@.inputs(), seq![self@.out], signals@),
    {
        let inputs = self.inputs();
        let outputs = [self.out];
        assert(lines_of(outputs@) =~= seq![self@.out]);
        assert(all_below(self@.inputs(), signals@.len())) by {
            assert forall|i: int| 0 <= i < self@.inputs().len() implies 0 <= #[trigger] self@.inputs()[i]
                < signals@.len() by {}
        }
        boundary_string(self.act.name(), inputs.as_slice(), outputs.as_slice(), signals)
    }

    /// Reads the input lines and writes the function of what they hold to
    /// the output line.
    pub(crate) fn run(&self, signals: &mut Signals)
        requires
            self@.wired(old(signals)@.len()),
        ensures
            final(signals)@ == self@.drive(old(signals)@),
            final(signals)@.len() == old(signals)@.len(),
    {
        let in_1 = self.in_1.get(signals);
        let in_2 = match self.act {
            Logic::Not => in_1,
            _ => self.in_2.get(signals),
        };
        self.out.set(signals, self.act.compute(in_1, in_2));
    }

    /// The function computed.
    pub fn logic(&self) -> (act: Logic)
        ensures
            act == self@.act,
    {
        self.act
    }
}

impl Conduct for Gate {
    open spec fn wired(&self, count: nat) -> bool {
        self@.wired(count)
    }

    open spec fn after(&self, before: Seq<bool>) -> Seq<bool> {
        self@.drive(before)
    }

    open spec fn becomes(&self, next: &Self) -> bool {
        next@ == self@
    }

    fn conduct(&mut self, signals: &mut Signals) {
        self.run(signals)
    }
}

} // verus!
