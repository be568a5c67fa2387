//! Signal lines and the store that holds their values.

use vstd::prelude::*;

verus! {

/// The values of every signal line created so far.
///
/// A line is one cell of this store. Whoever holds a line's [`Wire`] and the
/// store can read and write the cell, so a line is shared by every element
/// that was given its handle. The model of the store is the sequence of the
/// values, indexed by the identity of the line.
pub struct Signals {
    values: Vec<bool>,
}

/// A handle to one signal line. Its model is the identity of the line: two
/// handles name the same line exactly when their identities are equal,
/// whatever the lines hold.
#[derive(Clone, Copy, Debug, PartialEq, Eq, Structural)]
pub struct Wire {
    id: usize,
}

impl View for Signals {
    type V = Seq<bool>;

    closed spec fn view(&self) -> Seq<bool> {
        self.values@
    }
}

impl View for Wire {
    type V = int;

    closed spec fn view(&self) -> int {
        self.id as int
    }
}

/// The identities of a sequence of handles, in order.
pub open spec fn lines_of(wires: Seq<Wire>) -> Seq<int> {
    Seq::new(wires.len(), |i: int| wires[i]@)
}

/// Whether every identity in `lines` names one of the first `count` lines.
pub open spec fn all_below(lines: Seq<int>, count: nat) -> bool {
    forall|i: int| 0 <= i < lines.len() ==> 0 <= #[trigger] lines[i] < count
}

impl Signals {
    /// A store with no lines.
    pub fn new() -> (signals: Signals)
        ensures
            signals@ == Seq::<bool>::empty(),
    {
        Signals { values: Vec::new() }
    }

    /// Whether `wire` names a line of this store.
    pub open spec fn has(&self, wire: Wire) -> bool {
        0 <= wire@ < self@.len()
    }

    /// The number of lines created so far.
    pub fn len(&self) -> (count: usize)
        ensures
            count == self@.len(),
    {
        self.values.len()
    }
}

impl Wire {
    /// Creates a line that holds `false`. Its identity is the number of lines
    /// that the store had, so it differs from that of every earlier line.
    pub fn new(signals: &mut Signals) -> (wire: Wire)
        ensures
            wire@ == old(signals)@.len(),
            final(signals)@ == old(signals)@.push(false),
    {
        let id: usize = signals.values.len();
        signals.values.push(false);
        Wire { id }
    }

    /// Puts `value` on the line; every other line keeps its value.
    pub fn set(&self, signals: &mut Signals, value: bool)
        requires
            old(signals).has(*self),
        ensures
            final(signals)@ == old(signals)@.update(self@, value),
    {
        signals.values[self.id] = value;
    }

    /// The value on the line.
    pub fn get(&self, signals: &Signals) -> (value: bool)
        requires
            signals.has(*self),
        ensures
            value == signals@[self@],
    {
        signals.values[self.id]
    }

    /// The identity of the line.
    pub fn id(&self) -> (id: usize)
        ensures
            id == self@,
    {
        self.id
    }
}

/// Handles are equal exactly when they name the same line.
pub proof fn lemma_same_line(a: Wire, b: Wire)
    ensures
        a == b <==> a@ == b@,
{
}

} // verus!
