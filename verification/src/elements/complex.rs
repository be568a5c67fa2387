//! Composite elements.

use vstd::prelude::*;
use vstd::set_lib::lemma_int_range;
use vstd::string::StringExecFns;
use crate::elements::bus::Bus;
use crate::elements::gate::{Gate, Logic};
use crate::elements::model::{
    element_wired, lemma_deepest_bounds, lemma_drive_len, members_text, settle, sweep, ComplexView,
    ElementView,
};
use crate::elements::pending::{held, Pending};
use crate::elements::rewire::{
    lemma_replace_fuel, lemma_rewire_children, lemma_rewire_slots_depth, lemma_rewire_slots_len,
    replace_line, rewire, rewire_children, rewire_slots, Side,
};
use crate::elements::schedule::{
    capped, lemma_emit_shrinks, linearize, positions, producer, resolve, schedule, sound, waiting,
    Linear,
};
use crate::elements::text::{append_decimal, append_ids, boundary_string, boundary_text};
use crate::elements::wire::{all_below, lines_of, Signals, Wire};
use crate::elements::Conduct;

verus! {

/// A circuit made of gates and of other composites, with a declared
/// boundary: the lines on which it takes its inputs and those on which it
/// gives its outputs. Its children are kept as they were added. Beside
/// them it keeps the order in which one pass evaluates them, as
/// positions, and the number of passes that one evaluation makes; both
/// are derived anew, from the children as they were added, whenever a
/// child is added or a boundary line is replaced.
#[derive(Debug)]
pub struct Complex {
    input: Vec<Wire>,
    output: Vec<Wire>,
    gates: Vec<Element>,
    order: Vec<usize>,
    tp: &'static str,
    iters_per_tick: usize,
}

/// A list of positions as numbers.
pub open spec fn places(order: Seq<usize>) -> Seq<int> {
    Seq::new(order.len(), |i: int| order[i] as int)
}

/// A child of a composite: a gate or another composite.
#[derive(Debug)]
pub enum Element {
    Gate(Gate),
    Complex(Complex),
}

/// The models of the first `n` elements of `s`, in order.
spec fn models(s: Seq<Element>, n: nat) -> Seq<ElementView>
    decreases s, n,
{
    if n == 0 || n > s.len() {
        Seq::empty()
    } else {
        models(s, (n - 1) as nat).push(s[n - 1]@)
    }
}

impl View for Element {
    type V = ElementView;

    closed spec fn view(&self) -> ElementView
        decreases self, 0nat,
    {
        match self {
            Element::Gate(g) => ElementView::Gate(g@),
            Element::Complex(c) => ElementView::Complex(c@),
        }
    }
}

impl View for Complex {
    type V = ComplexView;

    closed spec fn view(&self) -> ComplexView
        decreases self, 0nat,
    {
        ComplexView {
            inputs: lines_of(self.input@),
            outputs: lines_of(self.output@),
            children: models(self.gates@, self.gates@.len()),
            order: places(self.order@),
            name: self.tp@,
            passes: self.iters_per_tick as nat,
        }
    }
}

/// The models of a list of elements are the models of its elements.
proof fn lemma_models(s: Seq<Element>, n: nat)
    requires
        n <= s.len(),
    ensures
        models(s, n).len() == n,
        forall|i: int| 0 <= i < n ==> #[trigger] models(s, n)[i] == s[i]@,
    decreases n,
{
    if n > 0 {
        lemma_models(s, (n - 1) as nat);
        assert(models(s, n) == models(s, (n - 1) as nat).push(s[n - 1]@));
    } else {
        assert(models(s, n) == Seq::<ElementView>::empty());
    }
}

impl Element {
    /// The lines that the element reads, as the composite around it sees
    /// them.
    pub fn input(&self) -> (wires: Vec<Wire>)
        ensures
            lines_of(wires@) == self@.input_lines(),
    {
        match self {
            Element::Gate(gate) => gate.inputs(),
            Element::Complex(complex) => {
                let wires = copy_of(&complex.input);
                wires
            },
        }
    }

    /// The lines that the element writes, as the composite around it sees
    /// them.
    pub fn output(&self) -> (wires: Vec<Wire>)
        ensures
            lines_of(wires@) == self@.output_lines(),
    {
        match self {
            Element::Gate(gate) => {
                let mut wires: Vec<Wire> = Vec::new();
                wires.push(gate.get_out());
                assert(lines_of(wires@) =~= self@.output_lines());
                wires
            },
            Element::Complex(complex) => {
                let wires = copy_of(&complex.output);
                wires
            },
        }
    }

    /// The element as text: its kind, what its input lines hold, and what
    /// its output lines hold.
    pub fn render(&self, signals: &Signals) -> (text: String)
        requires
            all_below(self@.input_lines(), signals@.len()),
            all_below(self@.output_lines(), signals@.len()),
        ensures
            text@ == boundary_text(
                self@.kind(),
                self@.input_lines(),
                self@.output_lines(),
                signals@,
            ),
    {
        match self {
            Element::Gate(gate) => {
                assert(0 <= self@.input_lines()[0] < signals@.len());
                assert(0 <= self@.output_lines()[0] < signals@.len());
                if gate.logic() != Logic::Not {
                    assert(0 <= self@.input_lines()[1] < signals@.len());
                }
                gate.render(signals)
            },
            Element::Complex(complex) => complex.render(signals),
        }
    }

    /// Wires the element to `to` wherever it is wired to `from` on the
    /// given side: a gate in its slots, a composite at each position of its
    /// boundary.
    fn rewire(&mut self, side: Side, from: Wire, to: Wire, Ghost(fuel): Ghost<nat>)
        requires
            old(self)@.depth() < fuel || old(self)@ is Gate,
        ensures
            final(self)@ == rewire(old(self)@, side, from@, to@, fuel),
        decreases old(self)@.depth(), 2nat,
    {
        match self {
            Element::Gate(gate) => {
                match side {
                    Side::Input => {
                        if gate.get_in_1().id() == from.id() {
                            gate.wire_in_1(to);
                        }
                        if gate.get_in_2().id() == from.id() {
                            gate.wire_in_2(to);
                        }
                    },
                    Side::Output => {
                        if gate.get_out().id() == from.id() {
                            gate.wire_out(to);
                        }
                    },
                }
            },
            Element::Complex(complex) => {
                let ghost start = complex@;
                assert(old(self)@ == ElementView::Complex(start));
                let slots = match side {
                    Side::Input => copy_of(&complex.input),
                    Side::Output => copy_of(&complex.output),
                };
                let ghost lines = start.slots(side);
                let ghost inner = (fuel - 1) as nat;
                let mut i: usize = 0;
                while i < slots.len()
                    invariant
                        i <= slots.len(),
                        lines_of(slots@) == lines,
                        lines == start.slots(side),
                        old(self)@ == ElementView::Complex(start),
                        start.depth() <= inner,
                        complex@ == rewire_slots(start, lines, side, from@, to@, inner, i as nat),
                    decreases slots.len() - i,
                {
                    proof {
                        lemma_rewire_slots_depth(start, lines, side, from@, to@, inner, i as nat);
                        lemma_rewire_slots_len(start, lines, side, from@, to@, inner, i as nat);
                    }
                    if slots[i].id() == from.id() {
                        proof {
                            lemma_replace_fuel(complex@, side, i as int, to@, complex@.depth(), inner);
                        }
                        complex.replace(side, i, to);
                    }
                    assert(lines[i as int] == slots@[i as int]@);
                    i = i + 1;
                }
            },
        }
    }

    /// Evaluates the element once.
    fn run(&self, signals: &mut Signals)
        requires
            self@.wired(old(signals)@.len()),
        ensures
            final(signals)@ == self@.drive(old(signals)@),
            final(signals)@.len() == old(signals)@.len(),
        decreases self, 0nat,
    {
        proof {
            lemma_drive_len(self@, signals@);
        }
        match self {
            Element::Gate(gate) => gate.run(signals),
            Element::Complex(complex) => complex.run(signals),
        }
    }
}

/// Whether `wire` is one of `wires`.
fn has_line(wires: &Vec<Wire>, wire: Wire) -> (found: bool)
    ensures
        found == lines_of(wires@).contains(wire@),
{
    let mut i: usize = 0;
    while i < wires.len()
        invariant
            i <= wires.len(),
            forall|j: int| 0 <= j < i ==> lines_of(wires@)[j] != wire@,
        decreases wires.len() - i,
    {
        if wires[i].id() == wire.id() {
            assert(lines_of(wires@)[i as int] == wire@);
            return true;
        }
        i = i + 1;
    }
    false
}

/// The first position whose child waits in `pending` and writes `wire`.
fn find_producer(
    pending: &Pending,
    wire: Wire,
    n: usize,
    Ghost(children): Ghost<Seq<ElementView>>,
    Ghost(set): Ghost<Set<int>>,
) -> (found: Option<usize>)
    requires
        n == children.len(),
        held(*pending) == waiting(children, set),
    ensures
        match found {
            Some(k) => producer(children, set, wire@, 0) == Some(k as int),
            None => producer(children, set, wire@, 0) == None::<int>,
        },
{
    let mut k: usize = 0;
    while k < n
        invariant
            k <= n,
            n == children.len(),
            held(*pending) == waiting(children, set),
            producer(children, set, wire@, 0) == producer(children, set, wire@, k as int),
        decreases n - k,
    {
        assert(waiting(children, set).contains_key(k as int) == set.contains(k as int));
        match pending.get(k) {
            Some(lines) => {
                assert(waiting(children, set)[k as int] == children[k as int].output_lines());
                if has_line(lines, wire) {
                    return Some(k);
                }
            },
            None => {},
        }
        k = k + 1;
    }
    None
}

/// Puts the position `key` behind `order`, after the waiting children
/// that the input lines of the child there lead to. Nothing happens where
/// that child does not wait.
fn emit(
    boundary: &Vec<Wire>,
    gates: &Vec<Element>,
    order: &mut Vec<usize>,
    pending: &mut Pending,
    passes: &mut usize,
    key: usize,
    Ghost(children): Ghost<Seq<ElementView>>,
    Ghost(st): Ghost<Linear>,
)
    requires
        gates@.len() == children.len(),
        forall|k: int| 0 <= k < children.len() ==> (#[trigger] gates@[k])@ == children[k],
        sound(st, children.len()),
        held(*old(pending)) == waiting(children, st.pending),
        places(old(order)@) == st.order,
        *old(passes) == capped(st.passes),
    ensures
        ({
            let next = crate::elements::schedule::emit(lines_of(boundary@), children, st, key as int);
            &&& held(*final(pending)) == waiting(children, next.pending)
            &&& places(final(order)@) == next.order
            &&& *final(passes) == capped(next.passes)
        }),
    decreases st.pending.len(), 0nat,
{
    let ghost lines_in = lines_of(boundary@);
    let n: usize = gates.len();
    proof {
        assert(waiting(children, st.pending).contains_key(key as int) == st.pending.contains(
            key as int,
        ));
        if st.pending.contains(key as int) {
            assert(positions(children.len()).contains(key as int));
        }
    }
    match pending.remove(key) {
        Some(_) => {},
        None => {
            return ;
        },
    }
    let ghost taken = Linear { pending: st.pending.remove(key as int), ..st };
    assert(held(*pending) =~= waiting(children, taken.pending));
    assert(gates@[key as int]@ == children[key as int]);
    let inputs = gates[key].input();
    let ghost lines = children[key as int].input_lines();
    let ghost mut cur = taken;
    let mut i: usize = 0;
    while i < inputs.len()
        invariant
            i <= inputs.len(),
            n == children.len(),
            gates@.len() == children.len(),
            forall|k: int| 0 <= k < children.len() ==> (#[trigger] gates@[k])@ == children[k],
            lines_of(inputs@) == lines,
            lines_in == lines_of(boundary@),
            sound(cur, children.len()),
            cur.pending.len() < st.pending.len(),
            held(*pending) == waiting(children, cur.pending),
            places(order@) == cur.order,
            *passes == capped(cur.passes),
            resolve(lines_in, children, taken, lines, 0) == resolve(
                lines_in,
                children,
                cur,
                lines,
                i as nat,
            ),
        decreases inputs.len() - i,
    {
        let wire = inputs[i];
        assert(lines[i as int] == wire@);
        if has_line(boundary, wire) {
        } else {
            match find_producer(pending, wire, n, Ghost(children), Ghost(cur.pending)) {
                Some(k) => {
                    proof {
                        lemma_emit_shrinks(lines_in, children, cur, k as int);
                    }
                    emit(boundary, gates, order, pending, passes, k, Ghost(children), Ghost(cur));
                    proof {
                        cur = crate::elements::schedule::emit(lines_in, children, cur, k as int);
                    }
                },
                None => {
                    if *passes < usize::MAX {
                        *passes = *passes + 1;
                    }
                    proof {
                        cur = Linear { passes: cur.passes + 1, ..cur };
                    }
                },
            }
        }
        i = i + 1;
    }
    order.push(key);
    assert(places(order@) =~= cur.order.push(key as int));
}

/// A copy of a list of handles.
fn copy_of(wires: &Vec<Wire>) -> (copy: Vec<Wire>)
    ensures
        copy@ == wires@,
{
    let mut copy: Vec<Wire> = Vec::new();
    let mut i: usize = 0;
    while i < wires.len()
        invariant
            i <= wires.len(),
            copy@ == wires@.subrange(0, i as int),
        decreases wires.len() - i,
    {
        copy.push(wires[i]);
        i = i + 1;
        assert(copy@ =~= wires@.subrange(0, i as int));
    }
    assert(copy@ =~= wires@);
    copy
}

impl Complex {
    /// A composite named `tp` with no lines and no children. One evaluation
    /// of it makes one pass.
    pub fn new(tp: &'static str) -> (complex: Complex)
        ensures
            complex@ == (ComplexView {
                inputs: Seq::empty(),
                outputs: Seq::empty(),
                children: Seq::empty(),
                order: Seq::empty(),
                name: tp@,
                passes: 1,
            }),
    {
        let complex = Complex {
            input: Vec::new(),
            output: Vec::new(),
            gates: Vec::new(),
            order: Vec::new(),
            tp,
            iters_per_tick: 1,
        };
        proof {
            lemma_models(complex.gates@, 0);
            assert(complex@.inputs =~= Seq::<int>::empty());
            assert(complex@.outputs =~= Seq::<int>::empty());
            assert(complex@.children =~= Seq::<ElementView>::empty());
            assert(complex@.order =~= Seq::<int>::empty());
        }
        complex
    }

    /// Declares `wire` as the next input line and returns its position.
    /// The order of evaluation stays as it is.
    pub fn add_input(&mut self, wire: Wire) -> (id: usize)
        ensures
            id == old(self)@.inputs.len(),
            final(self)@ == (ComplexView { inputs: old(self)@.inputs.push(wire@), ..old(self)@ }),
    {
        let id: usize = self.input.len();
        self.input.push(wire);
        assert(self@.inputs =~= old(self)@.inputs.push(wire@));
        id
    }

    /// Declares the lines of `bus` as the next input lines, in their order.
    pub fn add_input_bus(&mut self, bus: Bus)
        ensures
            final(self)@ == (ComplexView { inputs: old(self)@.inputs + bus@, ..old(self)@ }),
    {
        let wires = bus.wires();
        let mut i: usize = 0;
        while i < wires.len()
            invariant
                i <= wires.len(),
                lines_of(wires@) == bus@,
                self@ == (ComplexView {
                    inputs: old(self)@.inputs + bus@.subrange(0, i as int),
                    ..old(self)@
                }),
            decreases wires.len() - i,
        {
            self.add_input(wires[i]);
            i = i + 1;
            assert(self@.inputs =~= old(self)@.inputs + bus@.subrange(0, i as int));
        }
        assert(bus@.subrange(0, i as int) =~= bus@);
    }

    /// Declares `wire` as the next output line and returns its position.
    /// The order of evaluation stays as it is.
    pub fn add_output(&mut self, wire: Wire) -> (id: usize)
        ensures
            id == old(self)@.outputs.len(),
            final(self)@ == (ComplexView { outputs: old(self)@.outputs.push(wire@), ..old(self)@ }),
    {
        let id: usize = self.output.len();
        self.output.push(wire);
        assert(self@.outputs =~= old(self)@.outputs.push(wire@));
        id
    }

    /// Declares the lines of `bus` as the next output lines, in their
    /// order.
    pub fn add_output_bus(&mut self, bus: Bus)
        ensures
            final(self)@ == (ComplexView { outputs: old(self)@.outputs + bus@, ..old(self)@ }),
    {
        let wires = bus.wires();
        let mut i: usize = 0;
        while i < wires.len()
            invariant
                i <= wires.len(),
                lines_of(wires@) == bus@,
                self@ == (ComplexView {
                    outputs: old(self)@.outputs + bus@.subrange(0, i as int),
                    ..old(self)@
                }),
            decreases wires.len() - i,
        {
            self.add_output(wires[i]);
            i = i + 1;
            assert(self@.outputs =~= old(self)@.outputs + bus@.subrange(0, i as int));
        }
        assert(bus@.subrange(0, i as int) =~= bus@);
    }

    /// The child that was added at position `id`, to be read or changed in
    /// place. The order and the passes are not derived anew for what is
    /// changed through it.
    pub fn get_element(&mut self, id: usize) -> (element: &mut Element)
        requires
            id < old(self)@.children.len(),
        ensures
            (*element)@ == old(self)@.children[id as int],
            final(self)@ == (ComplexView {
                children: old(self)@.children.update(id as int, (*final(element))@),
                ..old(self)@
            }),
    {
        proof {
            lemma_models(self.gates@, self.gates@.len());
        }
        self.slot(id)
    }

    /// The child at position `id`, to be changed in place.
    fn slot(&mut self, id: usize) -> (element: &mut Element)
        requires
            id < old(self).gates@.len(),
        ensures
            *element == old(self).gates@[id as int],
            final(self).input == old(self).input,
            final(self).output == old(self).output,
            final(self).tp == old(self).tp,
            final(self).order == old(self).order,
            final(self).iters_per_tick == old(self).iters_per_tick,
            final(self).gates@ == old(self).gates@.update(id as int, *final(element)),
            models(final(self).gates@, final(self).gates@.len()) == models(
                old(self).gates@,
                old(self).gates@.len(),
            ).update(id as int, (*final(element))@),
    {
        proof {
            let before = self.gates@;
            lemma_models(before, before.len());
            assert forall|after: Seq<Element>|
                after.len() == before.len() && (forall|j: int|
                    0 <= j < before.len() && j != id ==> after[j] == before[j]) implies #[trigger] models(
                after,
                after.len(),
            ) == models(before, before.len()).update(id as int, after[id as int]@) by {
                lemma_models(after, after.len());
                assert(models(after, after.len()) =~= models(before, before.len()).update(
                    id as int,
                    after[id as int]@,
                ));
            }
        }
        &mut self.gates[id]
    }

    /// The declared input line at position `wire_id`.
    pub fn get_in(&self, wire_id: usize) -> (wire: Wire)
        requires
            wire_id < self@.inputs.len(),
        ensures
            wire@ == self@.inputs[wire_id as int],
    {
        self.input[wire_id]
    }

    /// The declared output line at position `wire_id`.
    pub fn get_out(&self, wire_id: usize) -> (wire: Wire)
        requires
            wire_id < self@.outputs.len(),
        ensures
            wire@ == self@.outputs[wire_id as int],
    {
        self.output[wire_id]
    }

    /// The `len` declared input lines from position `offset` on, as a
    /// group.
    pub fn get_in_bus(&self, offset: usize, len: usize) -> (bus: Bus)
        requires
            offset + len <= self@.inputs.len(),
        ensures
            bus@ == self@.inputs.subrange(offset as int, offset + len),
    {
        let bus = Bus::with_wires(slice_of(&self.input, offset, len));
        assert(bus@ =~= self@.inputs.subrange(offset as int, offset + len));
        bus
    }

    /// The `len` declared output lines from position `offset` on, as a
    /// group.
    pub fn get_out_bus(&self, offset: usize, len: usize) -> (bus: Bus)
        requires
            offset + len <= self@.outputs.len(),
        ensures
            bus@ == self@.outputs.subrange(offset as int, offset + len),
    {
        let bus = Bus::with_wires(slice_of(&self.output, offset, len));
        assert(bus@ =~= self@.outputs.subrange(offset as int, offset + len));
        bus
    }

    /// Adds `key` as the last child, then derives the order of evaluation
    /// and the passes anew. Returns the position at which `key` was added,
    /// which is where it stays.
    pub fn add_gate(&mut self, key: Gate) -> (id: usize)
        ensures
            id == old(self)@.children.len(),
            final(self)@ == (ComplexView {
                children: old(self)@.children.push(ElementView::Gate(key@)),
                ..old(self)@
            }).compiled(),
    {
        proof {
            lemma_models(self.gates@, self.gates@.len());
        }
        let id: usize = self.gates.len();
        self.gates.push(Element::Gate(key));
        proof {
            lemma_models(self.gates@, self.gates@.len());
            assert(self@.children =~= old(self)@.children.push(ElementView::Gate(key@)));
        }
        self.compile();
        id
    }

    /// Adds `complex` as the last child, then derives the order of
    /// evaluation and the passes anew. Returns the position at which
    /// `complex` was added, which is where it stays.
    pub fn add_complex(&mut self, complex: Complex) -> (id: usize)
        ensures
            id == old(self)@.children.len(),
            final(self)@ == (ComplexView {
                children: old(self)@.children.push(ElementView::Complex(complex@)),
                ..old(self)@
            }).compiled(),
    {
        proof {
            lemma_models(self.gates@, self.gates@.len());
        }
        let id: usize = self.gates.len();
        self.gates.push(Element::Complex(complex));
        proof {
            lemma_models(self.gates@, self.gates@.len());
            assert(self@.children =~= old(self)@.children.push(ElementView::Complex(complex@)));
        }
        self.compile();
        id
    }

    /// Puts `wire` in the place of the declared input line at position
    /// `wire_id`. Every child that is wired to the old line is wired to
    /// `wire`: a gate in its input slots, a composite by the same
    /// replacement at each position of its own inputs that holds the old
    /// line. Then the order of evaluation and the passes are derived anew.
    pub fn set_in(&mut self, wire_id: usize, wire: Wire)
        requires
            wire_id < old(self)@.inputs.len(),
        ensures
            final(self)@ == old(self)@.with_input(wire_id as int, wire@),
    {
        self.replace(Side::Input, wire_id, wire)
    }

    /// Puts `wire` in the place of the declared output line at position
    /// `wire_id`. Every child that is wired to the old line is wired to
    /// `wire`: a gate in its output slot, a composite by the same
    /// replacement at each position of its own outputs that holds the old
    /// line. Then the order of evaluation and the passes are derived anew.
    pub fn set_out(&mut self, wire_id: usize, wire: Wire)
        requires
            wire_id < old(self)@.outputs.len(),
        ensures
            final(self)@ == old(self)@.with_output(wire_id as int, wire@),
    {
        self.replace(Side::Output, wire_id, wire)
    }

    /// Puts `wire` in the place of the line at position `k` of one side of
    /// the boundary, rewires the children, and derives the order anew.
    fn replace(&mut self, side: Side, k: usize, wire: Wire)
        requires
            k < old(self)@.slots(side).len(),
        ensures
            final(self)@ == replace_line(old(self)@, side, k as int, wire@, old(self)@.depth()),
        decreases old(self)@.depth(), 1nat,
    {
        let ghost start = self@;
        let ghost fuel = start.depth();
        let from: Wire = match side {
            Side::Input => self.input[k],
            Side::Output => self.output[k],
        };
        assert(from@ == start.slots(side)[k as int]);
        proof {
            lemma_models(self.gates@, self.gates@.len());
        }
        let n: usize = self.gates.len();
        let mut j: usize = 0;
        while j < n
            invariant
                j <= n,
                n == self.gates@.len(),
                n == start.children.len(),
                start == old(self)@,
                fuel == start.depth(),
                self@.inputs == start.inputs,
                self@.outputs == start.outputs,
                self@.name == start.name,
                self@.passes == start.passes,
                self@.order == start.order,
                self.input@ == old(self).input@,
                self.output@ == old(self).output@,
                forall|i: int| 0 <= i < j ==> (#[trigger] self.gates@[i])@ == rewire(
                    start.children[i],
                    side,
                    from@,
                    wire@,
                    fuel,
                ),
                forall|i: int| j <= i < n ==> (#[trigger] self.gates@[i])@ == start.children[i],
            decreases n - j,
        {
            proof {
                lemma_deepest_bounds(start.children, n as nat, j as int);
            }
            self.gates[j].rewire(side, from, wire, Ghost(fuel));
            j = j + 1;
        }
        match side {
            Side::Input => {
                self.input[k] = wire;
            },
            Side::Output => {
                self.output[k] = wire;
            },
        }
        proof {
            lemma_models(self.gates@, self.gates@.len());
            lemma_rewire_children(start.children, side, from@, wire@, fuel, n as nat);
            assert(self@.children =~= rewire_children(
                start.children,
                side,
                from@,
                wire@,
                fuel,
                n as nat,
            ));
            assert(self@.slots(side) =~= start.slots(side).update(k as int, wire@));
            assert(self@ == (ComplexView {
                children: self@.children,
                ..start.with_slots(side, start.slots(side).update(k as int, wire@))
            }));
        }
        self.compile();
    }

    /// Derives the order of evaluation and the number of passes from the
    /// input lines and the children as they were added. The children stay
    /// where they are.
    pub fn compile(&mut self)
        ensures
            final(self)@ == old(self)@.compiled(),
    {
        proof {
            lemma_models(self.gates@, self.gates@.len());
        }
        let ghost children = self@.children;
        let ghost boundary = self@.inputs;
        let n: usize = self.gates.len();
        let mut outputs: Vec<Vec<Wire>> = Vec::new();
        let mut at: usize = 0;
        while at < n
            invariant
                at <= n,
                n == self.gates@.len(),
                n == children.len(),
                forall|k: int| 0 <= k < children.len() ==> (#[trigger] self.gates@[k])@ == children[k],
                outputs@.len() == at,
                forall|k: int|
                    0 <= k < at ==> lines_of((#[trigger] outputs@[k])@) == children[k].output_lines(),
            decreases n - at,
        {
            let lines = self.gates[at].output();
            outputs.push(lines);
            at = at + 1;
        }
        let mut pending = Pending::gather(outputs);
        let mut order: Vec<usize> = Vec::new();
        let mut passes: usize = 1;
        let ghost mut st = Linear { pending: positions(n as nat), order: Seq::empty(), passes: 1 };
        proof {
            lemma_int_range(0, n as int);
            assert(held(pending) =~= waiting(children, st.pending));
            assert(places(order@) =~= st.order);
        }
        let mut key: usize = 0;
        while key < n
            invariant
                key <= n,
                n == children.len(),
                n == self.gates@.len(),
                forall|k: int| 0 <= k < children.len() ==> (#[trigger] self.gates@[k])@ == children[k],
                boundary == lines_of(self.input@),
                self@ == old(self)@,
                sound(st, children.len()),
                held(pending) == waiting(children, st.pending),
                places(order@) == st.order,
                passes == capped(st.passes),
                schedule(boundary, children) == linearize(boundary, children, st, key as int),
            decreases n - key,
        {
            proof {
                lemma_emit_shrinks(boundary, children, st, key as int);
            }
            emit(
                &self.input,
                &self.gates,
                &mut order,
                &mut pending,
                &mut passes,
                key,
                Ghost(children),
                Ghost(st),
            );
            proof {
                st = crate::elements::schedule::emit(boundary, children, st, key as int);
            }
            key = key + 1;
        }
        self.order = order;
        self.iters_per_tick = passes;
    }

    /// The positions of the children in the order in which a pass
    /// evaluates them.
    pub fn order(&self) -> (order: Vec<usize>)
        ensures
            places(order@) == self@.order,
    {
        let mut order: Vec<usize> = Vec::new();
        let mut i: usize = 0;
        while i < self.order.len()
            invariant
                i <= self.order.len(),
                order@ == self.order@.subrange(0, i as int),
            decreases self.order.len() - i,
        {
            order.push(self.order[i]);
            i = i + 1;
            assert(order@ =~= self.order@.subrange(0, i as int));
        }
        assert(order@ =~= self.order@);
        order
    }

    /// The composite as text: its name, what its declared input lines
    /// hold, and what its declared output lines hold.
    pub fn render(&self, signals: &Signals) -> (text: String)
        requires
            all_below(self@.inputs, signals@.len()),
            all_below(self@.outputs, signals@.len()),
        ensures
            text@ == boundary_text(self@.name, self@.inputs, self@.outputs, signals@),
    {
        boundary_string(self.tp, self.input.as_slice(), self.output.as_slice(), signals)
    }

    /// The composite as text, with what is inside: the children in the
    /// order of evaluation, the identities of the declared lines, the
    /// number of passes, and the composite itself.
    pub fn dump(&self, signals: &Signals) -> (text: String)
        requires
            self@.wired(signals@.len()),
        ensures
            text@ == self@.dump_text(signals@),
    {
        proof {
            lemma_models(self.gates@, self.gates@.len());
        }
        let ghost children = self@.children;
        let ghost order = self@.order;
        let mut text = String::from_str("[\n");
        let ghost start = text@;
        let mut i: usize = 0;
        assert(text@ =~= start + members_text(children, order, signals@, 0));
        while i < self.order.len()
            invariant
                i <= self.order.len(),
                children == self@.children,
                order == self@.order,
                order == places(self.order@),
                children.len() == self.gates@.len(),
                forall|j: int| 0 <= j < children.len() ==> children[j] == self.gates@[j]@,
                self@.wired(signals@.len()),
                text@ == start + members_text(children, order, signals@, i as nat),
            decreases self.order.len() - i,
        {
            let at: usize = self.order[i];
            assert(order[i as int] == at);
            if at < self.gates.len() {
                let ghost child = children[at as int];
                assert(element_wired(child, signals@.len()));
                proof {
                    match child {
                        ElementView::Gate(g) => {
                            assert(child.output_lines()[0] == g.out);
                            assert forall|j: int| 0 <= j < child.input_lines().len() implies 0
                                <= #[trigger] child.input_lines()[j] < signals@.len() by {}
                        },
                        ElementView::Complex(c) => {},
                    }
                }
                let line = self.gates[at].render(signals);
                text.append(line.as_str());
            }
            i = i + 1;
            assert(text@ =~= start + members_text(children, order, signals@, i as nat));
        }
        text.append("]\n");
        append_ids(&mut text, "IN:", self.input.as_slice());
        append_ids(&mut text, "OUT:", self.output.as_slice());
        text.append("ITERS:");
        append_decimal(&mut text, self.iters_per_tick);
        text.append("\n");
        let own = self.render(signals);
        text.append(own.as_str());
        text
    }

    /// The number of passes that one evaluation makes.
    pub fn passes(&self) -> (passes: usize)
        ensures
            passes == self@.passes,
    {
        self.iters_per_tick
    }

    /// Evaluates the composite once: the children that the order names,
    /// one after the other, as many times over as the composite has
    /// passes.
    fn run(&self, signals: &mut Signals)
        requires
            self@.wired(old(signals)@.len()),
        ensures
            final(signals)@ == self@.drive(old(signals)@),
            final(signals)@.len() == old(signals)@.len(),
        decreases self, 1nat,
    {
        proof {
            lemma_models(self.gates@, self.gates@.len());
        }
        let ghost children = self@.children;
        let ghost order = self@.order;
        let mut pass: usize = 0;
        while pass < self.iters_per_tick
            invariant
                pass <= self.iters_per_tick,
                children == self@.children,
                order == self@.order,
                order == places(self.order@),
                children.len() == self.gates@.len(),
                forall|i: int| 0 <= i < children.len() ==> children[i] == self.gates@[i]@,
                self@.wired(signals@.len()),
                signals@ == settle(children, order, pass as nat, old(signals)@),
                signals@.len() == old(signals)@.len(),
            decreases self.iters_per_tick - pass,
        {
            let ghost start = signals@;
            let mut i: usize = 0;
            while i < self.order.len()
                invariant
                    i <= self.order.len(),
                    children == self@.children,
                    order == self@.order,
                    order == places(self.order@),
                    children.len() == self.gates@.len(),
                    forall|i: int| 0 <= i < children.len() ==> children[i] == self.gates@[i]@,
                    self@.wired(signals@.len()),
                    signals@ == sweep(children, order, i as nat, start),
                    signals@.len() == start.len(),
                decreases self.order.len() - i,
            {
                let at: usize = self.order[i];
                assert(order[i as int] == at);
                if at < self.gates.len() {
                    assert(element_wired(children[at as int], signals@.len()));
                    self.gates[at].run(signals);
                }
                i = i + 1;
            }
            pass = pass + 1;
        }
    }
}

/// A copy of `len` handles of `wires`, from position `offset` on.
fn slice_of(wires: &Vec<Wire>, offset: usize, len: usize) -> (copy: Vec<Wire>)
    requires
        offset + len <= wires@.len(),
    ensures
        copy@ == wires@.subrange(offset as int, offset + len),
{
    let mut copy: Vec<Wire> = Vec::new();
    let mut i: usize = 0;
    while i < len
        invariant
            i <= len,
            offset + len <= wires.len(),
            copy@ == wires@.subrange(offset as int, offset + i),
        decreases len - i,
    {
        copy.push(wires[offset + i]);
        i = i + 1;
        assert(copy@ =~= wires@.subrange(offset as int, offset + i));
    }
    copy
}

impl Conduct for Element {
    open spec fn wired(&self, count: nat) -> bool {
        self@.wired(count)
    }

    open spec fn after(&self, before: Seq<bool>) -> Seq<bool> {
        self@.drive(before)
    }

    open spec fn becomes(&self, next: &Self) -> bool {
        next@ == self@
    }

    fn conduct(&mut self, signals: &mut Signals) {
        self.run(signals)
    }
}

impl Conduct for Complex {
    open spec fn wired(&self, count: nat) -> bool {
        self@.wired(count)
    }

    open spec fn after(&self, before: Seq<bool>) -> Seq<bool> {
        self@.drive(before)
    }

    open spec fn becomes(&self, next: &Self) -> bool {
        next@ == self@
    }

    fn conduct(&mut self, signals: &mut Signals) {
        self.run(signals)
    }
}

} // verus!
