//! When one evaluation is enough: composites in which every child is
//! evaluated behind the children that write its inputs, so that a second
//! evaluation finds nothing left to do.

use vstd::prelude::*;
use crate::elements::frame::{
    all_wired, element_reads, element_writes, lemma_unwritten_line, lemma_unwritten_sweep,
};
use crate::elements::model::{
    element_drive, element_wired, lemma_drive_len, lemma_sweep_len, settle, sweep, ComplexView,
    ElementView,
};
use crate::elements::schedule::{
    acyclic, driven, fed, forward, lemma_schedule_acyclic_forward, lemma_schedule_covers,
    lemma_schedule_forward, lemma_schedule_in_range, lemma_schedule_permutes, supplied,
};

verus! {

/// Whether `e` takes `line` from outside: it reads the line and does not
/// write it.
pub open spec fn needs(e: ElementView, line: int) -> bool {
    element_reads(e, line) && !element_writes(e, line)
}

/// Whether `order` names positions of `children` only, and each of them.
pub open spec fn complete(children: Seq<ElementView>, order: Seq<int>) -> bool {
    &&& forall|p: int| 0 <= p < order.len() ==> 0 <= #[trigger] order[p] < children.len()
    &&& forall|k: int| 0 <= k < children.len() ==> order.contains(k)
}

/// Whether no child writes a line that a child which is evaluated before
/// it takes from outside.
pub open spec fn in_turn(children: Seq<ElementView>, order: Seq<int>) -> bool {
    forall|p: int, q: int, line: int|
        #![trigger needs(children[order[p]], line), element_writes(children[order[q]], line)]
        0 <= p < q < order.len() && needs(children[order[p]], line) ==> !element_writes(
            children[order[q]],
            line,
        )
}

/// Whether `e` is free of feedback at every depth: no gate reads its own
/// output, every composite makes at least one pass over all of its
/// children, and in every composite no child writes a line that a child
/// which is evaluated before it takes from outside.
pub open spec fn clean(e: ElementView) -> bool
    decreases e,
{
    match e {
        ElementView::Gate(g) => !g.reads(g.out),
        ElementView::Complex(c) => {
            &&& c.passes >= 1
            &&& complete(c.children, c.order)
            &&& in_turn(c.children, c.order)
            &&& forall|p: int| 0 <= p < c.children.len() ==> clean(#[trigger] c.children[p])
        },
    }
}

/// Whether `a` and `b` hold the same on every line that `e` takes from
/// outside.
pub open spec fn same_on_needs(e: ElementView, a: Seq<bool>, b: Seq<bool>) -> bool {
    forall|line: int| 0 <= line < a.len() && needs(e, line) ==> a[line] == b[line]
}

/// Whether `a` and `b` hold the same on every line that `e` writes.
pub open spec fn same_on_writes(e: ElementView, a: Seq<bool>, b: Seq<bool>) -> bool {
    forall|line: int| 0 <= line < a.len() && element_writes(e, line) ==> a[line] == b[line]
}

/// Whether one of the children at the first `p` positions of `order`
/// writes `line`.
pub open spec fn written_before(children: Seq<ElementView>, order: Seq<int>, p: int, line: int) -> bool {
    exists|q: int|
        0 <= q < p && q < order.len() && element_writes(#[trigger] children[order[q]], line)
}

/// A sweep over the children at the first `p` positions of the order
/// leaves a line that none of them writes as it was.
pub proof fn lemma_unwritten_prefix(
    children: Seq<ElementView>,
    order: Seq<int>,
    p: nat,
    before: Seq<bool>,
    line: int,
)
    requires
        p <= order.len(),
        all_wired(children, before.len()),
        0 <= line < before.len(),
        !written_before(children, order, p as int, line),
    ensures
        sweep(children, order, p, before)[line] == before[line],
    decreases p,
{
    if p > 0 {
        assert(!written_before(children, order, p - 1, line)) by {
            if written_before(children, order, p - 1, line) {
                let q = choose|q: int|
                    0 <= q < p - 1 && q < order.len() && element_writes(
                        #[trigger] children[order[q]],
                        line,
                    );
                assert(element_writes(children[order[q]], line));
            }
        }
        lemma_unwritten_prefix(children, order, (p - 1) as nat, before, line);
        lemma_sweep_len(children, order, (p - 1) as nat, before);
        let at = order[p - 1];
        if 0 <= at < children.len() {
            assert(!element_writes(children[order[p - 1]], line));
            lemma_unwritten_line(children[at], sweep(children, order, (p - 1) as nat, before), line);
        }
    }
}

/// What an element without feedback writes depends on nothing but what
/// it takes from outside.
pub proof fn lemma_clean_function(e: ElementView, a: Seq<bool>, b: Seq<bool>)
    requires
        clean(e),
        element_wired(e, a.len()),
        a.len() == b.len(),
        same_on_needs(e, a, b),
    ensures
        same_on_writes(e, element_drive(e, a), element_drive(e, b)),
        element_drive(e, a).len() == a.len(),
        element_drive(e, b).len() == a.len(),
    decreases e, 1nat, 0nat,
{
    lemma_drive_len(e, a);
    lemma_drive_len(e, b);
    match e {
        ElementView::Gate(g) => {
            assert(needs(e, g.in_1));
            if g.act != crate::elements::gate::Logic::Not {
                assert(needs(e, g.in_2));
            }
        },
        ElementView::Complex(c) => {
            let n = c.order.len();
            lemma_clean_passes(c, c.passes, a);
            lemma_clean_passes(c, c.passes, b);
            lemma_clean_sweep(c, n, a, b);
            assert forall|line: int|
                0 <= line < a.len() && element_writes(e, line) implies element_drive(e, a)[line]
                == element_drive(e, b)[line] by {
                let k = choose|k: int|
                    0 <= k < c.children.len() && element_writes(#[trigger] c.children[k], line);
                assert(c.order.contains(k));
                let q = choose|q: int| 0 <= q < c.order.len() && c.order[q] == k;
                assert(element_writes(c.children[c.order[q]], line));
                assert(written_before(c.children, c.order, n as int, line));
            }
        },
    }
}

/// After the children at the first `p` positions of the order of a
/// composite without feedback were evaluated, what they have written
/// depends on nothing but what the composite takes from outside.
pub proof fn lemma_clean_sweep(c: ComplexView, p: nat, a: Seq<bool>, b: Seq<bool>)
    requires
        clean(ElementView::Complex(c)),
        element_wired(ElementView::Complex(c), a.len()),
        a.len() == b.len(),
        same_on_needs(ElementView::Complex(c), a, b),
        p <= c.order.len(),
    ensures
        sweep(c.children, c.order, p, a).len() == a.len(),
        sweep(c.children, c.order, p, b).len() == a.len(),
        forall|line: int|
            0 <= line < a.len() && written_before(c.children, c.order, p as int, line) ==> sweep(
                c.children,
                c.order,
                p,
                a,
            )[line] == sweep(c.children, c.order, p, b)[line],
    decreases ElementView::Complex(c), 0nat, p,
{
    let e = ElementView::Complex(c);
    let children = c.children;
    let order = c.order;
    lemma_sweep_len(children, order, p, a);
    lemma_sweep_len(children, order, p, b);
    if p > 0 {
        let at = order[p - 1];
        assert(0 <= at < children.len());
        let k = children[at];
        let a1 = sweep(children, order, (p - 1) as nat, a);
        let b1 = sweep(children, order, (p - 1) as nat, b);
        lemma_clean_sweep(c, (p - 1) as nat, a, b);
        assert forall|line: int| 0 <= line < a1.len() && needs(k, line) implies a1[line]
            == b1[line] by {
            if !written_before(children, order, p - 1, line) {
                lemma_unwritten_prefix(children, order, (p - 1) as nat, a, line);
                lemma_unwritten_prefix(children, order, (p - 1) as nat, b, line);
                assert(element_reads(children[at], line));
                assert(element_reads(e, line));
                assert(!element_writes(e, line)) by {
                    if element_writes(e, line) {
                        let m = choose|m: int|
                            0 <= m < children.len() && element_writes(#[trigger] children[m], line);
                        assert(order.contains(m));
                        let q = choose|q: int| 0 <= q < order.len() && order[q] == m;
                        assert(element_writes(children[order[q]], line));
                        if q < p - 1 {
                            assert(written_before(children, order, p - 1, line));
                        } else if q > p - 1 {
                            assert(needs(children[order[p - 1]], line));
                            assert(!element_writes(children[order[q]], line));
                        }
                    }
                }
                assert(needs(e, line));
            }
        }
        assert(same_on_needs(k, a1, b1));
        lemma_clean_function(k, a1, b1);
        assert forall|line: int|
            0 <= line < a.len() && written_before(children, order, p as int, line) implies sweep(
            children,
            order,
            p,
            a,
        )[line] == sweep(children, order, p, b)[line] by {
            if !element_writes(k, line) {
                lemma_unwritten_line(k, a1, line);
                lemma_unwritten_line(k, b1, line);
                let q = choose|q: int|
                    0 <= q < p && q < order.len() && element_writes(#[trigger] children[order[q]], line);
                assert(element_writes(children[order[q]], line));
                assert(q < p - 1);
                assert(written_before(children, order, p - 1, line));
            }
        }
    }
}

/// One pass settles a composite without feedback: a second pass leaves
/// every line as the first one left it.
pub proof fn lemma_clean_pass_settles(c: ComplexView, values: Seq<bool>)
    requires
        clean(ElementView::Complex(c)),
        element_wired(ElementView::Complex(c), values.len()),
    ensures
        sweep(c.children, c.order, c.order.len(), sweep(c.children, c.order, c.order.len(), values))
            == sweep(c.children, c.order, c.order.len(), values),
    decreases ElementView::Complex(c), 0nat, c.order.len() + 1,
{
    let e = ElementView::Complex(c);
    let kids = e->Complex_0.children;
    let n = c.order.len();
    let once = sweep(c.children, c.order, n, values);
    let twice = sweep(c.children, c.order, n, once);
    lemma_sweep_len(c.children, c.order, n, values);
    lemma_sweep_len(c.children, c.order, n, once);
    assert forall|line: int| 0 <= line < values.len() && needs(e, line) implies values[line]
        == once[line] by {
        lemma_unwritten_sweep(c.children, c.order, n, values, line);
    }
    lemma_clean_sweep(c, n, values, once);
    assert forall|line: int| 0 <= line < once.len() implies twice[line] == once[line] by {
        if element_writes(e, line) {
            let k = choose|k: int| 0 <= k < kids.len() && element_writes(#[trigger] kids[k], line);
            assert(c.order.contains(k));
            let q = choose|q: int| 0 <= q < c.order.len() && c.order[q] == k;
            assert(element_writes(c.children[c.order[q]], line));
            assert(written_before(c.children, c.order, n as int, line));
        } else {
            lemma_unwritten_sweep(c.children, c.order, n, once, line);
        }
    }
    assert(twice =~= once);
}

/// In a composite without feedback, any number of passes leaves what
/// the first pass left.
pub proof fn lemma_clean_passes(c: ComplexView, passes: nat, values: Seq<bool>)
    requires
        clean(ElementView::Complex(c)),
        element_wired(ElementView::Complex(c), values.len()),
        passes >= 1,
    ensures
        settle(c.children, c.order, passes, values) == sweep(c.children, c.order, c.order.len(), values),
    decreases ElementView::Complex(c), 0nat, c.order.len() + 2 + passes,
{
    if passes == 1 {
        assert(settle(c.children, c.order, 0, values) == values);
    } else {
        lemma_clean_passes(c, (passes - 1) as nat, values);
        lemma_clean_pass_settles(c, values);
    }
}

/// One evaluation settles an element without feedback: a second
/// evaluation leaves every line as the first one left it.
pub proof fn lemma_clean_settles(e: ElementView, values: Seq<bool>)
    requires
        clean(e),
        element_wired(e, values.len()),
    ensures
        element_drive(e, element_drive(e, values)) == element_drive(e, values),
{
    let once = element_drive(e, values);
    lemma_drive_len(e, values);
    assert forall|line: int| 0 <= line < values.len() && needs(e, line) implies values[line]
        == once[line] by {
        lemma_unwritten_line(e, values, line);
    }
    lemma_clean_function(e, values, once);
    let twice = element_drive(e, once);
    assert forall|line: int| 0 <= line < once.len() implies twice[line] == once[line] by {
        if !element_writes(e, line) {
            lemma_unwritten_line(e, once, line);
        }
    }
    assert(twice =~= once);
}

/// Where the derivation gives a composite one pass, and where the wiring
/// has no loop and leaves no input line without a writer, the derived
/// order is forward: each child is evaluated behind a child that writes
/// its input line, for each of its input lines that is not on the
/// boundary. The derived order names each child once, and at least one
/// pass is made.
pub proof fn lemma_compiled_forward(c: ComplexView)
    ensures
        c.compiled().passes == 1 ==> forward(c.inputs, c.children, c.compiled().order),
        acyclic(c.inputs, c.children) && driven(c.inputs, c.children) ==> forward(
            c.inputs,
            c.children,
            c.compiled().order,
        ),
        complete(c.children, c.compiled().order),
        c.compiled().order.no_duplicates(),
        c.compiled().passes >= 1,
{
    lemma_schedule_forward(c.inputs, c.children);
    lemma_schedule_permutes(c.inputs, c.children);
    lemma_schedule_covers(c.inputs, c.children);
    lemma_schedule_in_range(c.inputs, c.children);
    if acyclic(c.inputs, c.children) && driven(c.inputs, c.children) {
        lemma_schedule_acyclic_forward(c.inputs, c.children);
    }
}

/// Whether the boundary of `c` says what is inside: each line that `c`
/// takes from outside is a declared input, and each declared output is
/// written inside.
pub open spec fn declares(c: ComplexView) -> bool {
    &&& forall|line: int| needs(ElementView::Complex(c), line) ==> c.inputs.contains(line)
    &&& forall|line: int| c.outputs.contains(line) ==> element_writes(ElementView::Complex(c), line)
}

/// Whether `c` is put together so that one pass can do: it makes at
/// least one pass, its order names each child once and is forward, no
/// child writes a declared input line, no line is written by two
/// children, and each composite among the children is put together in
/// the same way and has a boundary that says what is inside.
pub open spec fn proper(c: ComplexView) -> bool
    decreases c,
{
    &&& c.passes >= 1
    &&& complete(c.children, c.order)
    &&& c.order.no_duplicates()
    &&& forward(c.inputs, c.children, c.order)
    &&& forall|i: int, line: int|
        #![trigger element_writes(c.children[i], line)]
        0 <= i < c.children.len() && c.inputs.contains(line) ==> !element_writes(c.children[i], line)
    &&& forall|p: int, q: int, line: int|
        #![trigger element_writes(c.children[p], line), element_writes(c.children[q], line)]
        0 <= p < c.children.len() && 0 <= q < c.children.len() && p != q && element_writes(
            c.children[p],
            line,
        ) ==> !element_writes(c.children[q], line)
    &&& forall|i: int|
        0 <= i < c.children.len() ==> match #[trigger] c.children[i] {
            ElementView::Gate(_) => true,
            ElementView::Complex(inner) => proper(inner) && declares(inner),
        }
}

/// In a composite that is put together so that one pass can do, a child
/// writes the lines that the composite sees as its outputs.
pub proof fn lemma_outputs_written(c: ComplexView, i: int, line: int)
    requires
        proper(c),
        0 <= i < c.children.len(),
        c.children[i].output_lines().contains(line),
    ensures
        element_writes(c.children[i], line),
{
    match c.children[i] {
        ElementView::Gate(g) => {
            let at = choose|at: int| 0 <= at < 1 && c.children[i].output_lines()[at] == line;
            assert(c.children[i].output_lines()[at] == g.out);
        },
        ElementView::Complex(inner) => {},
    }
}

/// In a composite that is put together so that one pass can do, a line
/// that a child sees as its input is written by no child that is
/// evaluated with or behind that child.
pub proof fn lemma_input_not_written_later(c: ComplexView, p: int, j: int, q: int)
    requires
        proper(c),
        0 <= p <= q < c.order.len(),
        0 <= j < c.children[c.order[p]].input_lines().len(),
    ensures
        !element_writes(c.children[c.order[q]], c.children[c.order[p]].input_lines()[j]),
{
    let line = c.children[c.order[p]].input_lines()[j];
    assert(fed(c.inputs, c.children, c.order, p));
    assert(supplied(c.inputs, c.children, c.order, p, line));
    assert(0 <= c.order[q] < c.children.len());
    if !c.inputs.contains(line) {
        let r = choose|r: int|
            0 <= r < p && r < c.order.len() && (#[trigger] c.children[c.order[r]]).output_lines().contains(
                line,
            );
        assert(0 <= c.order[r] < c.children.len());
        lemma_outputs_written(c, c.order[r], line);
        assert(c.order[r] != c.order[q]);
    }
}

/// A composite that is put together so that one pass can do is free of
/// feedback.
pub proof fn lemma_proper_clean(c: ComplexView)
    requires
        proper(c),
    ensures
        clean(ElementView::Complex(c)),
    decreases c,
{
    let children = c.children;
    let order = c.order;
    assert forall|k: int| 0 <= k < children.len() implies clean(#[trigger] children[k]) by {
        match children[k] {
            ElementView::Gate(g) => {
                assert(order.contains(k));
                let p = choose|p: int| 0 <= p < order.len() && order[p] == k;
                assert(children[order[p]].input_lines()[0] == g.in_1);
                lemma_input_not_written_later(c, p, 0, p);
                if g.act != crate::elements::gate::Logic::Not {
                    assert(children[order[p]].input_lines()[1] == g.in_2);
                    lemma_input_not_written_later(c, p, 1, p);
                }
            },
            ElementView::Complex(inner) => {
                lemma_proper_clean(inner);
            },
        }
    }
    assert forall|p: int, q: int, line: int|
        #![trigger needs(children[order[p]], line), element_writes(children[order[q]], line)]
        0 <= p < q < order.len() && needs(children[order[p]], line) implies !element_writes(
        children[order[q]],
        line,
    ) by {
        assert(0 <= order[p] < children.len());
        match children[order[p]] {
            ElementView::Gate(g) => {
                assert(children[order[p]].input_lines()[0] == g.in_1);
                if g.in_1 == line {
                    lemma_input_not_written_later(c, p, 0, q);
                } else {
                    assert(children[order[p]].input_lines()[1] == g.in_2);
                    lemma_input_not_written_later(c, p, 1, q);
                }
            },
            ElementView::Complex(inner) => {
                assert(inner.inputs.contains(line));
                let j = choose|j: int| 0 <= j < inner.inputs.len() && inner.inputs[j] == line;
                lemma_input_not_written_later(c, p, j, q);
            },
        }
    }
}

/// A composite that is put together so that one pass can do is settled
/// by one pass, whatever the number of passes it makes: every further
/// pass, and so every further evaluation, leaves every line as the first
/// pass left it. This holds in particular of a composite in which the
/// derivation found no feedback edge, whose order is forward.
pub proof fn lemma_single_pass_settles(c: ComplexView, values: Seq<bool>)
    requires
        proper(c),
        c.wired(values.len()),
    ensures
        c.drive(values) == sweep(c.children, c.order, c.order.len(), values),
        c.drive(c.drive(values)) == c.drive(values),
{
    lemma_proper_clean(c);
    lemma_clean_passes(c, c.passes, values);
    lemma_clean_settles(ElementView::Complex(c), values);
}

} // verus!
