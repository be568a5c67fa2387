//! Circuits as plain data, and what one evaluation does to the lines.

use vstd::prelude::*;
use crate::elements::gate::GateView;
use crate::elements::text::{boundary_text, decimal_text, ids_text};
use crate::elements::wire::all_below;

verus! {

/// A child of a composite as plain data.
pub enum ElementView {
    Gate(GateView),
    Complex(ComplexView),
}

/// A composite as plain data: the identities of its declared input and
/// output lines, its children in the order in which they were added, the
/// positions of the children in the order in which a pass evaluates them,
/// its name, and the number of passes that one evaluation makes.
pub struct ComplexView {
    pub inputs: Seq<int>,
    pub outputs: Seq<int>,
    pub children: Seq<ElementView>,
    pub order: Seq<int>,
    pub name: Seq<char>,
    pub passes: nat,
}

impl ElementView {
    /// The lines that the element reads, as the composite around it sees
    /// them: the one or two inputs of a gate, the declared inputs of a
    /// composite.
    pub open spec fn input_lines(self) -> Seq<int> {
        match self {
            ElementView::Gate(g) => g.inputs(),
            ElementView::Complex(c) => c.inputs,
        }
    }

    /// The lines that the element writes, as the composite around it sees
    /// them: the output of a gate, the declared outputs of a composite.
    pub open spec fn output_lines(self) -> Seq<int> {
        match self {
            ElementView::Gate(g) => seq![g.out],
            ElementView::Complex(c) => c.outputs,
        }
    }

    /// The kind of the element: the name of a gate's function, the name
    /// of a composite.
    pub open spec fn kind(self) -> Seq<char> {
        match self {
            ElementView::Gate(g) => g.act.label(),
            ElementView::Complex(c) => c.name,
        }
    }

    /// Whether every line in the element, at any depth, is among the first
    /// `count` lines.
    pub open spec fn wired(self, count: nat) -> bool {
        element_wired(self, count)
    }

    /// The values of the lines after one evaluation of the element.
    pub open spec fn drive(self, before: Seq<bool>) -> Seq<bool> {
        element_drive(self, before)
    }

    /// How deep composites are nested in the element: 0 for a gate.
    pub open spec fn depth(self) -> nat {
        element_depth(self)
    }
}

impl ComplexView {
    /// Whether every line in the composite, at any depth, is among the
    /// first `count` lines.
    pub open spec fn wired(self, count: nat) -> bool {
        element_wired(ElementView::Complex(self), count)
    }

    /// The values of the lines after one evaluation of the composite: as
    /// many passes as the composite asks for, each pass evaluating the
    /// children that the order names, one after the other.
    pub open spec fn drive(self, before: Seq<bool>) -> Seq<bool> {
        settle(self.children, self.order, self.passes, before)
    }

    /// The composite as text, with what is inside: between brackets the
    /// children in the order of evaluation, each as its kind and the values
    /// on its boundary; then the identities of the declared input and
    /// output lines; then the number of passes; then the composite itself
    /// as its name and the values on its boundary.
    pub open spec fn dump_text(self, values: Seq<bool>) -> Seq<char> {
        "[\n"@ + members_text(self.children, self.order, values, self.order.len()) + "]\n"@ + ids_text(
            "IN:"@,
            self.inputs,
            self.inputs.len(),
        ) + ids_text("OUT:"@, self.outputs, self.outputs.len()) + "ITERS:"@ + decimal_text(self.passes)
            + "\n"@ + boundary_text(self.name, self.inputs, self.outputs, values)
    }

    /// How deep composites are nested in this one: 1 where every child is a
    /// gate.
    pub open spec fn depth(self) -> nat {
        element_depth(ElementView::Complex(self))
    }
}

/// The children at the first `n` positions that `order` names, as text,
/// each as its kind and the values on its boundary. An entry of `order`
/// that is no position of a child is passed over.
pub open spec fn members_text(
    children: Seq<ElementView>,
    order: Seq<int>,
    values: Seq<bool>,
    n: nat,
) -> Seq<char>
    decreases n,
{
    if n == 0 || n > order.len() {
        Seq::empty()
    } else {
        let before = members_text(children, order, values, (n - 1) as nat);
        let at = order[n - 1];
        if 0 <= at < children.len() {
            before + boundary_text(
                children[at].kind(),
                children[at].input_lines(),
                children[at].output_lines(),
                values,
            )
        } else {
            before
        }
    }
}

/// Whether every line in `e`, at any depth, is among the first `count`
/// lines.
pub open spec fn element_wired(e: ElementView, count: nat) -> bool
    decreases e,
{
    match e {
        ElementView::Gate(g) => g.wired(count),
        ElementView::Complex(c) => {
            &&& all_below(c.inputs, count)
            &&& all_below(c.outputs, count)
            &&& forall|i: int|
                0 <= i < c.children.len() ==> element_wired(#[trigger] c.children[i], count)
        },
    }
}

/// The values after one evaluation of `e` on `before`.
pub open spec fn element_drive(e: ElementView, before: Seq<bool>) -> Seq<bool>
    decreases e, 0nat, 0nat,
{
    match e {
        ElementView::Gate(g) => g.drive(before),
        ElementView::Complex(c) => settle(c.children, c.order, c.passes, before),
    }
}

/// The values after the children at the first `n` positions that `order`
/// names were evaluated once each, one after the other, starting from
/// `before`. An entry of `order` that is no position of a child is passed
/// over.
pub open spec fn sweep(children: Seq<ElementView>, order: Seq<int>, n: nat, before: Seq<bool>) -> Seq<
    bool,
>
    decreases children, 0nat, n,
{
    if n == 0 || n > order.len() {
        before
    } else {
        let so_far = sweep(children, order, (n - 1) as nat, before);
        let at = order[n - 1];
        if 0 <= at < children.len() {
            element_drive(children[at], so_far)
        } else {
            so_far
        }
    }
}

/// The values after `passes` passes over the children that `order`
/// names, starting from `before`.
pub open spec fn settle(
    children: Seq<ElementView>,
    order: Seq<int>,
    passes: nat,
    before: Seq<bool>,
) -> Seq<bool>
    decreases children, 1nat, passes,
{
    if passes == 0 {
        before
    } else {
        sweep(children, order, order.len(), settle(children, order, (passes - 1) as nat, before))
    }
}

/// How deep composites are nested in `e`.
pub open spec fn element_depth(e: ElementView) -> nat
    decreases e, 0nat,
{
    match e {
        ElementView::Gate(_) => 0,
        ElementView::Complex(c) => 1 + deepest(c.children, c.children.len()),
    }
}

/// The greatest depth among the first `n` of `children`.
pub open spec fn deepest(children: Seq<ElementView>, n: nat) -> nat
    decreases children, n,
{
    if n == 0 || n > children.len() {
        0
    } else {
        let before = deepest(children, (n - 1) as nat);
        let last = element_depth(children[n - 1]);
        if last > before {
            last
        } else {
            before
        }
    }
}

/// Each of the first `n` children is at most as deep as the deepest of
/// them.
pub proof fn lemma_deepest_bounds(children: Seq<ElementView>, n: nat, i: int)
    requires
        0 <= i < n <= children.len(),
    ensures
        element_depth(children[i]) <= deepest(children, n),
    decreases n,
{
    if i < n - 1 {
        lemma_deepest_bounds(children, (n - 1) as nat, i);
    }
}

/// An evaluation of a wired element makes no line and drops none.
pub proof fn lemma_drive_len(e: ElementView, before: Seq<bool>)
    requires
        element_wired(e, before.len()),
    ensures
        element_drive(e, before).len() == before.len(),
    decreases e, 0nat, 0nat,
{
    match e {
        ElementView::Gate(g) => {},
        ElementView::Complex(c) => {
            lemma_settle_len(c.children, c.order, c.passes, before);
        },
    }
}

/// A sweep over wired children makes no line and drops none.
pub proof fn lemma_sweep_len(children: Seq<ElementView>, order: Seq<int>, n: nat, before: Seq<bool>)
    requires
        forall|i: int| 0 <= i < children.len() ==> element_wired(#[trigger] children[i], before.len()),
    ensures
        sweep(children, order, n, before).len() == before.len(),
    decreases children, 0nat, n,
{
    if n > 0 && n <= order.len() {
        lemma_sweep_len(children, order, (n - 1) as nat, before);
        let at = order[n - 1];
        if 0 <= at < children.len() {
            lemma_drive_len(children[at], sweep(children, order, (n - 1) as nat, before));
        }
    }
}

/// Passes over wired children make no line and drop none.
pub proof fn lemma_settle_len(children: Seq<ElementView>, order: Seq<int>, passes: nat, before: Seq<bool>)
    requires
        forall|i: int| 0 <= i < children.len() ==> element_wired(#[trigger] children[i], before.len()),
    ensures
        settle(children, order, passes, before).len() == before.len(),
    decreases children, 1nat, passes,
{
    if passes > 0 {
        lemma_settle_len(children, order, (passes - 1) as nat, before);
        lemma_sweep_len(children, order, order.len(), settle(children, order, (passes - 1) as nat, before));
    }
}

/// An element that is wired in a store is wired in every larger store.
pub proof fn lemma_wired_grows(e: ElementView, count: nat, more: nat)
    requires
        element_wired(e, count),
        count <= more,
    ensures
        element_wired(e, more),
    decreases e,
{
    match e {
        ElementView::Gate(g) => {},
        ElementView::Complex(c) => {
            assert forall|i: int| 0 <= i < c.children.len() implies element_wired(
                #[trigger] c.children[i],
                more,
            ) by {
                lemma_wired_grows(c.children[i], count, more);
            }
        },
    }
}

} // verus!
