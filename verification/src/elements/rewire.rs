//! Replacing a line of a composite's boundary, down through the composites
//! nested in it.
//!
//! The children that are wired to the old line are wired to the new one:
//! a gate in the matching slots, a composite by the same replacement at
//! each position of its own boundary that holds the old line. A composite
//! whose boundary does not hold the old line is left alone, whatever is
//! inside it.

use vstd::prelude::*;
use crate::elements::frame::{
    agree_except, element_reads, element_writes, lemma_unread_line, lemma_unwritten_line,
};
use crate::elements::gate::GateView;
use crate::elements::model::{
    deepest, element_depth, element_wired, lemma_deepest_bounds, ComplexView, ElementView,
};
use crate::elements::schedule::lemma_compiled_wired;
use crate::elements::wire::all_below;

verus! {

/// The two sides of a boundary.
#[derive(Clone, Copy, Debug, PartialEq, Eq, Structural)]
pub enum Side {
    Input,
    Output,
}

impl GateView {
    /// This gate with `to` in place of `from`, in both input slots or in the
    /// output slot.
    pub open spec fn rewired(self, side: Side, from: int, to: int) -> GateView {
        match side {
            Side::Input => GateView {
                in_1: if self.in_1 == from { to } else { self.in_1 },
                in_2: if self.in_2 == from { to } else { self.in_2 },
                ..self
            },
            Side::Output => GateView { out: if self.out == from { to } else { self.out }, ..self },
        }
    }
}

impl ComplexView {
    /// The declared lines of one side.
    pub open spec fn slots(self, side: Side) -> Seq<int> {
        match side {
            Side::Input => self.inputs,
            Side::Output => self.outputs,
        }
    }

    /// The composite with `lines` declared on one side.
    pub open spec fn with_slots(self, side: Side, lines: Seq<int>) -> ComplexView {
        match side {
            Side::Input => ComplexView { inputs: lines, ..self },
            Side::Output => ComplexView { outputs: lines, ..self },
        }
    }

    /// The composite after `to` took the place of the declared input line
    /// at position `k`.
    pub open spec fn with_input(self, k: int, to: int) -> ComplexView {
        replace_line(self, Side::Input, k, to, self.depth())
    }

    /// The composite after `to` took the place of the declared output line
    /// at position `k`.
    pub open spec fn with_output(self, k: int, to: int) -> ComplexView {
        replace_line(self, Side::Output, k, to, self.depth())
    }
}

/// The composite after `to` took the place of the line at position `k` of
/// one side: the children are rewired from the old line to `to`, the slot
/// gets `to`, and the order and the passes are derived anew. `fuel` bounds
/// how deep the replacement goes; the depth of `c` is enough.
pub open spec fn replace_line(c: ComplexView, side: Side, k: int, to: int, fuel: nat) -> ComplexView
    decreases fuel, 2nat, 0nat,
{
    let from = c.slots(side)[k];
    let children = rewire_children(c.children, side, from, to, fuel, c.children.len());
    (ComplexView { children, ..c.with_slots(side, c.slots(side).update(k, to)) }).compiled()
}

/// The first `n` of `children`, each rewired from `from` to `to`.
pub open spec fn rewire_children(
    children: Seq<ElementView>,
    side: Side,
    from: int,
    to: int,
    fuel: nat,
    n: nat,
) -> Seq<ElementView>
    decreases fuel, 1nat, n,
{
    if n == 0 || n > children.len() {
        Seq::empty()
    } else {
        rewire_children(children, side, from, to, fuel, (n - 1) as nat).push(
            rewire(children[n - 1], side, from, to, fuel),
        )
    }
}

/// The element rewired from `from` to `to`: a gate in its matching slots,
/// a composite at each position of its boundary that holds `from`.
pub open spec fn rewire(e: ElementView, side: Side, from: int, to: int, fuel: nat) -> ElementView
    decreases fuel, 0nat, 0nat,
{
    match e {
        ElementView::Gate(g) => ElementView::Gate(g.rewired(side, from, to)),
        ElementView::Complex(c) => if fuel == 0 {
            e
        } else {
            ElementView::Complex(
                rewire_slots(c, c.slots(side), side, from, to, (fuel - 1) as nat, c.slots(side).len()),
            )
        },
    }
}

/// The composite after the replacement by `to` was made, one position
/// after the other, at each of the first `n` positions at which `slots`
/// holds `from`.
pub open spec fn rewire_slots(
    c: ComplexView,
    slots: Seq<int>,
    side: Side,
    from: int,
    to: int,
    fuel: nat,
    n: nat,
) -> ComplexView
    decreases fuel, 3nat, n,
{
    if n == 0 || n > slots.len() {
        c
    } else {
        let before = rewire_slots(c, slots, side, from, to, fuel, (n - 1) as nat);
        if slots[n - 1] == from {
            replace_line(before, side, n - 1, to, fuel)
        } else {
            before
        }
    }
}

/// Deriving the order anew makes a composite no deeper.
pub proof fn lemma_compiled_depth(c: ComplexView)
    ensures
        c.compiled().depth() <= c.depth(),
{
}

/// Where each of the first `n` of `after` is no deeper than the child of
/// `before` at its position, the deepest of them is no deeper either.
pub proof fn lemma_deepest_pointwise(before: Seq<ElementView>, after: Seq<ElementView>, n: nat)
    requires
        n <= before.len(),
        n <= after.len(),
        forall|i: int| 0 <= i < n ==> element_depth(#[trigger] after[i]) <= element_depth(before[i]),
    ensures
        deepest(after, n) <= deepest(before, n),
    decreases n,
{
    if n > 0 {
        lemma_deepest_pointwise(before, after, (n - 1) as nat);
    }
}

/// The rewired children are as many as were asked for, each the rewired
/// child at its position.
pub proof fn lemma_rewire_children(
    children: Seq<ElementView>,
    side: Side,
    from: int,
    to: int,
    fuel: nat,
    n: nat,
)
    requires
        n <= children.len(),
    ensures
        rewire_children(children, side, from, to, fuel, n).len() == n,
        forall|i: int|
            0 <= i < n ==> #[trigger] rewire_children(children, side, from, to, fuel, n)[i] == rewire(
                children[i],
                side,
                from,
                to,
                fuel,
            ),
    decreases n,
{
    if n > 0 {
        lemma_rewire_children(children, side, from, to, fuel, (n - 1) as nat);
    }
}

/// A replacement makes a composite no deeper.
pub proof fn lemma_replace_depth(c: ComplexView, side: Side, k: int, to: int, fuel: nat)
    ensures
        replace_line(c, side, k, to, fuel).depth() <= c.depth(),
    decreases fuel, 2nat, 0nat,
{
    let from = c.slots(side)[k];
    let n = c.children.len();
    let children = rewire_children(c.children, side, from, to, fuel, n);
    lemma_rewire_children(c.children, side, from, to, fuel, n);
    assert forall|i: int| 0 <= i < n implies element_depth(#[trigger] children[i]) <= element_depth(
        c.children[i],
    ) by {
        lemma_rewire_depth(c.children[i], side, from, to, fuel);
    }
    lemma_deepest_pointwise(c.children, children, n);
    let moved = ComplexView { children, ..c.with_slots(side, c.slots(side).update(k, to)) };
    lemma_compiled_depth(moved);
}

/// Rewiring makes an element no deeper.
pub proof fn lemma_rewire_depth(e: ElementView, side: Side, from: int, to: int, fuel: nat)
    ensures
        element_depth(rewire(e, side, from, to, fuel)) <= element_depth(e),
    decreases fuel, 0nat, 0nat,
{
    match e {
        ElementView::Gate(g) => {},
        ElementView::Complex(c) => {
            if fuel > 0 {
                lemma_rewire_slots_depth(
                    c,
                    c.slots(side),
                    side,
                    from,
                    to,
                    (fuel - 1) as nat,
                    c.slots(side).len(),
                );
            }
        },
    }
}

/// Replacements at several positions make a composite no deeper.
pub proof fn lemma_rewire_slots_depth(
    c: ComplexView,
    slots: Seq<int>,
    side: Side,
    from: int,
    to: int,
    fuel: nat,
    n: nat,
)
    ensures
        rewire_slots(c, slots, side, from, to, fuel, n).depth() <= c.depth(),
    decreases fuel, 3nat, n,
{
    if n == 0 || n > slots.len() {
    } else {
        lemma_rewire_slots_depth(c, slots, side, from, to, fuel, (n - 1) as nat);
        let before = rewire_slots(c, slots, side, from, to, fuel, (n - 1) as nat);
        if slots[n - 1] == from {
            lemma_replace_depth(before, side, n - 1, to, fuel);
        }
    }
}

/// With fuel for its depth, a replacement comes out the same whatever the
/// fuel.
pub proof fn lemma_replace_fuel(c: ComplexView, side: Side, k: int, to: int, fuel: nat, more: nat)
    requires
        c.depth() <= fuel,
        c.depth() <= more,
    ensures
        replace_line(c, side, k, to, fuel) == replace_line(c, side, k, to, more),
    decreases fuel, 2nat, 0nat,
{
    let from = c.slots(side)[k];
    let n = c.children.len();
    let one = rewire_children(c.children, side, from, to, fuel, n);
    let two = rewire_children(c.children, side, from, to, more, n);
    lemma_rewire_children(c.children, side, from, to, fuel, n);
    lemma_rewire_children(c.children, side, from, to, more, n);
    assert forall|i: int| 0 <= i < n implies one[i] == two[i] by {
        lemma_deepest_bounds(c.children, n, i);
        lemma_rewire_fuel(c.children[i], side, from, to, fuel, more);
    }
    assert(one =~= two);
}

/// With fuel for its depth, an element is rewired the same whatever the
/// fuel.
pub proof fn lemma_rewire_fuel(e: ElementView, side: Side, from: int, to: int, fuel: nat, more: nat)
    requires
        element_depth(e) < fuel || (e is Gate),
        element_depth(e) < more || (e is Gate),
    ensures
        rewire(e, side, from, to, fuel) == rewire(e, side, from, to, more),
    decreases fuel, 0nat, 0nat,
{
    match e {
        ElementView::Gate(g) => {},
        ElementView::Complex(c) => {
            lemma_rewire_slots_fuel(
                c,
                c.slots(side),
                side,
                from,
                to,
                (fuel - 1) as nat,
                (more - 1) as nat,
                c.slots(side).len(),
            );
        },
    }
}

/// With fuel for the composite's depth, replacements at several positions
/// come out the same whatever the fuel.
pub proof fn lemma_rewire_slots_fuel(
    c: ComplexView,
    slots: Seq<int>,
    side: Side,
    from: int,
    to: int,
    fuel: nat,
    more: nat,
    n: nat,
)
    requires
        c.depth() <= fuel,
        c.depth() <= more,
    ensures
        rewire_slots(c, slots, side, from, to, fuel, n) == rewire_slots(c, slots, side, from, to, more, n),
    decreases fuel, 3nat, n,
{
    if n == 0 || n > slots.len() {
    } else {
        lemma_rewire_slots_fuel(c, slots, side, from, to, fuel, more, (n - 1) as nat);
        let before = rewire_slots(c, slots, side, from, to, fuel, (n - 1) as nat);
        lemma_rewire_slots_depth(c, slots, side, from, to, fuel, (n - 1) as nat);
        if slots[n - 1] == from {
            lemma_replace_fuel(before, side, n - 1, to, fuel, more);
        }
    }
}

/// A replacement changes the boundary at one position of one side, and
/// nothing else of it.
pub proof fn lemma_replace_slots(c: ComplexView, side: Side, k: int, to: int, fuel: nat)
    ensures
        replace_line(c, side, k, to, fuel).slots(side) == c.slots(side).update(k, to),
        replace_line(c, side, k, to, fuel).name == c.name,
        side == Side::Input ==> replace_line(c, side, k, to, fuel).outputs == c.outputs,
        side == Side::Output ==> replace_line(c, side, k, to, fuel).inputs == c.inputs,
{
}

/// Replacements at several positions leave the boundary as long as it
/// was.
pub proof fn lemma_rewire_slots_len(
    c: ComplexView,
    slots: Seq<int>,
    side: Side,
    from: int,
    to: int,
    fuel: nat,
    n: nat,
)
    requires
        slots.len() == c.slots(side).len(),
    ensures
        rewire_slots(c, slots, side, from, to, fuel, n).slots(side).len() == c.slots(side).len(),
    decreases n,
{
    if n == 0 || n > slots.len() {
    } else {
        lemma_rewire_slots_len(c, slots, side, from, to, fuel, (n - 1) as nat);
        let before = rewire_slots(c, slots, side, from, to, fuel, (n - 1) as nat);
        if slots[n - 1] == from {
            lemma_replace_slots(before, side, n - 1, to, fuel);
        }
    }
}

/// Whether some gate in `e`, at any depth, is wired to `line` on the
/// given side: reads it, for the input side, or writes it, for the output
/// side.
pub open spec fn uses(e: ElementView, side: Side, line: int) -> bool {
    match side {
        Side::Input => element_reads(e, line),
        Side::Output => element_writes(e, line),
    }
}

/// Whether `line` is declared wherever it is used: every composite nested
/// in `e` that uses `line` on the given side, at any depth, declares it
/// on that side of its boundary.
pub open spec fn handed_down(e: ElementView, side: Side, line: int) -> bool
    decreases e,
{
    match e {
        ElementView::Gate(_) => true,
        ElementView::Complex(c) => forall|i: int|
            0 <= i < c.children.len() ==> {
                &&& handed_down(#[trigger] c.children[i], side, line)
                &&& match c.children[i] {
                    ElementView::Gate(_) => true,
                    ElementView::Complex(inner) => uses(c.children[i], side, line) ==> inner.slots(
                        side,
                    ).contains(line),
                }
            },
    }
}

/// Whether none of `children` uses `line` on the given side.
pub open spec fn none_uses(children: Seq<ElementView>, side: Side, line: int) -> bool {
    forall|i: int| 0 <= i < children.len() ==> !uses(#[trigger] children[i], side, line)
}

/// A composite uses the lines that its children use.
pub proof fn lemma_child_uses(c: ComplexView, i: int, side: Side, line: int)
    requires
        0 <= i < c.children.len(),
        uses(c.children[i], side, line),
    ensures
        uses(ElementView::Complex(c), side, line),
{
    let e = ElementView::Complex(c);
    let kids = e->Complex_0.children;
    assert(kids == c.children);
    match side {
        Side::Input => {
            assert(element_reads(kids[i], line));
            assert(element_reads(e, line));
        },
        Side::Output => {
            assert(element_writes(kids[i], line));
            assert(element_writes(e, line));
        },
    }
}

/// A composite uses a line exactly where one of its children does.
pub proof fn lemma_uses_children(c: ComplexView, side: Side, line: int)
    ensures
        uses(ElementView::Complex(c), side, line) <==> !none_uses(c.children, side, line),
{
    let e = ElementView::Complex(c);
    if uses(e, side, line) {
        match side {
            Side::Input => {
                let i = choose|i: int|
                    0 <= i < c.children.len() && element_reads(#[trigger] c.children[i], line);
                assert(uses(c.children[i], side, line));
            },
            Side::Output => {
                let i = choose|i: int|
                    0 <= i < c.children.len() && element_writes(#[trigger] c.children[i], line);
                assert(uses(c.children[i], side, line));
            },
        }
    }
    if !uses(e, side, line) {
        assert forall|i: int| 0 <= i < c.children.len() implies !uses(
            #[trigger] c.children[i],
            side,
            line,
        ) by {
            match side {
                Side::Input => {
                    if element_reads(c.children[i], line) {
                        lemma_child_uses(c, i, side, line);
                    }
                },
                Side::Output => {
                    if element_writes(c.children[i], line) {
                        lemma_child_uses(c, i, side, line);
                    }
                },
            }
        }
    }
}

/// A line that nothing uses is declared wherever it is used.
pub proof fn lemma_unused_handed_down(e: ElementView, side: Side, line: int)
    requires
        !uses(e, side, line),
    ensures
        handed_down(e, side, line),
    decreases e,
{
    match e {
        ElementView::Gate(_) => {},
        ElementView::Complex(c) => {
            lemma_uses_children(c, side, line);
            assert forall|i: int| 0 <= i < c.children.len() implies {
                &&& handed_down(#[trigger] c.children[i], side, line)
                &&& !uses(c.children[i], side, line)
            } by {
                lemma_unused_handed_down(c.children[i], side, line);
            }
        },
    }
}

/// After a replacement of a boundary line that was declared wherever it
/// was used, no gate in the composite uses the old line on that side.
pub proof fn lemma_replace_unuses(c: ComplexView, side: Side, k: int, to: int, fuel: nat)
    requires
        0 <= k < c.slots(side).len(),
        c.slots(side)[k] != to,
        handed_down(ElementView::Complex(c), side, c.slots(side)[k]),
        c.depth() <= fuel,
    ensures
        !uses(ElementView::Complex(replace_line(c, side, k, to, fuel)), side, c.slots(side)[k]),
    decreases fuel, 2nat, 0nat,
{
    let from = c.slots(side)[k];
    let n = c.children.len();
    let children = rewire_children(c.children, side, from, to, fuel, n);
    lemma_rewire_children(c.children, side, from, to, fuel, n);
    assert forall|i: int| 0 <= i < n implies !uses(#[trigger] children[i], side, from) by {
        lemma_deepest_bounds(c.children, n, i);
        lemma_rewire_unuses(c.children[i], side, from, to, fuel);
    }
    lemma_uses_children(replace_line(c, side, k, to, fuel), side, from);
}

/// A rewired element does not use the old line on that side, if the line
/// was declared wherever it was used.
pub proof fn lemma_rewire_unuses(e: ElementView, side: Side, from: int, to: int, fuel: nat)
    requires
        from != to,
        handed_down(e, side, from),
        match e {
            ElementView::Gate(_) => true,
            ElementView::Complex(inner) => {
                &&& element_depth(e) < fuel
                &&& uses(e, side, from) ==> inner.slots(side).contains(from)
            },
        },
    ensures
        !uses(rewire(e, side, from, to, fuel), side, from),
    decreases fuel, 0nat, 0nat,
{
    match e {
        ElementView::Gate(g) => {},
        ElementView::Complex(c) => {
            let slots = c.slots(side);
            lemma_rewire_slots_unuses(c, side, from, to, (fuel - 1) as nat, slots.len());
            if !slots.contains(from) {
                assert forall|j: int| 0 <= j < slots.len() implies slots[j] != from by {}
            } else {
                let j = choose|j: int| 0 <= j < slots.len() && slots[j] == from;
                assert(slots[j] == from);
            }
        },
    }
}

/// After the replacements at the first `n` positions that hold the old
/// line, a composite in which the line was declared wherever it was used
/// does not use it on that side, if there was such a position; it is as
/// it was, if there was none. The positions from `n` on hold what they
/// held.
pub proof fn lemma_rewire_slots_unuses(c: ComplexView, side: Side, from: int, to: int, fuel: nat, n: nat)
    requires
        from != to,
        handed_down(ElementView::Complex(c), side, from),
        c.depth() <= fuel,
        n <= c.slots(side).len(),
    ensures
        ({
            let after = rewire_slots(c, c.slots(side), side, from, to, fuel, n);
            &&& after.slots(side).len() == c.slots(side).len()
            &&& forall|j: int| n <= j < c.slots(side).len() ==> after.slots(side)[j] == c.slots(side)[j]
            &&& (forall|j: int| 0 <= j < n ==> c.slots(side)[j] != from) ==> after == c
            &&& (exists|j: int| 0 <= j < n && c.slots(side)[j] == from) ==> !uses(
                ElementView::Complex(after),
                side,
                from,
            )
        }),
    decreases fuel, 3nat, n,
{
    let slots = c.slots(side);
    if n > 0 {
        lemma_rewire_slots_unuses(c, side, from, to, fuel, (n - 1) as nat);
        let before = rewire_slots(c, slots, side, from, to, fuel, (n - 1) as nat);
        lemma_rewire_slots_depth(c, slots, side, from, to, fuel, (n - 1) as nat);
        if slots[n - 1] == from {
            if exists|j: int| 0 <= j < n - 1 && slots[j] == from {
                lemma_unused_handed_down(ElementView::Complex(before), side, from);
            } else {
                assert(before == c);
            }
            lemma_replace_unuses(before, side, n - 1, to, fuel);
            lemma_replace_slots(before, side, n - 1, to, fuel);
        } else {
            if exists|j: int| 0 <= j < n && slots[j] == from {
                let j = choose|j: int| 0 <= j < n && slots[j] == from;
                assert(0 <= j < n - 1 && slots[j] == from);
            }
        }
    }
}

/// Replacing a declared input line reaches every gate that read the old
/// line, at any depth, provided the line was declared as an input
/// wherever it was read; what the old line holds is then of no account to
/// the composite: from values that differ on the old line only, an
/// evaluation gives values that differ on the old line only.
pub proof fn lemma_input_replaced(c: ComplexView, k: int, to: int, a: Seq<bool>, b: Seq<bool>)
    requires
        0 <= k < c.inputs.len(),
        c.inputs[k] != to,
        0 <= to < a.len(),
        c.wired(a.len()),
        handed_down(ElementView::Complex(c), Side::Input, c.inputs[k]),
        agree_except(a, b, c.inputs[k]),
    ensures
        !element_reads(ElementView::Complex(c.with_input(k, to)), c.inputs[k]),
        c.with_input(k, to).inputs == c.inputs.update(k, to),
        c.with_input(k, to).wired(a.len()),
        agree_except(c.with_input(k, to).drive(a), c.with_input(k, to).drive(b), c.inputs[k]),
{
    lemma_replace_unuses(c, Side::Input, k, to, c.depth());
    lemma_replace_slots(c, Side::Input, k, to, c.depth());
    lemma_replace_wired(c, Side::Input, k, to, c.depth(), a.len());
    lemma_unread_line(ElementView::Complex(c.with_input(k, to)), a, b, c.inputs[k]);
}

/// Replacing a declared output line reaches every gate that wrote the
/// old line, at any depth, provided the line was declared as an output
/// wherever it was written; the composite then leaves the old line as it
/// finds it.
pub proof fn lemma_output_replaced(c: ComplexView, k: int, to: int, values: Seq<bool>)
    requires
        0 <= k < c.outputs.len(),
        c.outputs[k] != to,
        0 <= to < values.len(),
        c.wired(values.len()),
        handed_down(ElementView::Complex(c), Side::Output, c.outputs[k]),
    ensures
        !element_writes(ElementView::Complex(c.with_output(k, to)), c.outputs[k]),
        c.with_output(k, to).outputs == c.outputs.update(k, to),
        c.with_output(k, to).wired(values.len()),
        c.with_output(k, to).drive(values)[c.outputs[k]] == values[c.outputs[k]],
{
    lemma_replace_unuses(c, Side::Output, k, to, c.depth());
    lemma_replace_slots(c, Side::Output, k, to, c.depth());
    lemma_replace_wired(c, Side::Output, k, to, c.depth(), values.len());
    assert(0 <= c.outputs[k] < values.len());
    lemma_unwritten_line(ElementView::Complex(c.with_output(k, to)), values, c.outputs[k]);
}

/// A composite that was wired within the first `count` lines still is
/// after a replacement by one of these lines.
pub proof fn lemma_replace_wired(c: ComplexView, side: Side, k: int, to: int, fuel: nat, count: nat)
    requires
        c.wired(count),
        0 <= k < c.slots(side).len(),
        0 <= to < count,
    ensures
        replace_line(c, side, k, to, fuel).wired(count),
    decreases fuel, 2nat, 0nat,
{
    let from = c.slots(side)[k];
    let n = c.children.len();
    let children = rewire_children(c.children, side, from, to, fuel, n);
    lemma_rewire_children(c.children, side, from, to, fuel, n);
    assert forall|i: int| 0 <= i < n implies element_wired(#[trigger] children[i], count) by {
        lemma_rewire_wired(c.children[i], side, from, to, fuel, count);
    }
    let slots = c.slots(side).update(k, to);
    assert(all_below(slots, count)) by {
        assert forall|i: int| 0 <= i < slots.len() implies 0 <= #[trigger] slots[i] < count by {
            if i != k {
                assert(slots[i] == c.slots(side)[i]);
            }
        }
    }
    let moved = ComplexView { children, ..c.with_slots(side, slots) };
    assert(moved.wired(count));
    lemma_compiled_wired(moved, count);
}

/// An element that was wired within the first `count` lines still is
/// after it was rewired to one of these lines.
pub proof fn lemma_rewire_wired(e: ElementView, side: Side, from: int, to: int, fuel: nat, count: nat)
    requires
        element_wired(e, count),
        0 <= to < count,
    ensures
        element_wired(rewire(e, side, from, to, fuel), count),
    decreases fuel, 0nat, 0nat,
{
    match e {
        ElementView::Gate(g) => {},
        ElementView::Complex(c) => {
            if fuel > 0 {
                lemma_rewire_slots_wired(
                    c,
                    c.slots(side),
                    side,
                    from,
                    to,
                    (fuel - 1) as nat,
                    c.slots(side).len(),
                    count,
                );
            }
        },
    }
}

/// A composite that was wired within the first `count` lines still is
/// after replacements, at several positions, by one of these lines.
pub proof fn lemma_rewire_slots_wired(
    c: ComplexView,
    slots: Seq<int>,
    side: Side,
    from: int,
    to: int,
    fuel: nat,
    n: nat,
    count: nat,
)
    requires
        c.wired(count),
        slots.len() == c.slots(side).len(),
        0 <= to < count,
    ensures
        rewire_slots(c, slots, side, from, to, fuel, n).wired(count),
    decreases fuel, 3nat, n,
{
    if n == 0 || n > slots.len() {
    } else {
        lemma_rewire_slots_wired(c, slots, side, from, to, fuel, (n - 1) as nat, count);
        lemma_rewire_slots_len(c, slots, side, from, to, fuel, (n - 1) as nat);
        let before = rewire_slots(c, slots, side, from, to, fuel, (n - 1) as nat);
        if slots[n - 1] == from {
            lemma_replace_wired(before, side, n - 1, to, fuel, count);
        }
    }
}

} // verus!
