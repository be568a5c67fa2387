//! Which lines an evaluation depends on, and which it can change.

use vstd::prelude::*;
use crate::elements::model::{
    element_drive, element_wired, lemma_drive_len, lemma_settle_len, lemma_sweep_len, settle, sweep,
    ElementView,
};

verus! {

/// Whether some gate in `e`, at any depth, has `line` as an input.
pub open spec fn element_reads(e: ElementView, line: int) -> bool
    decreases e,
{
    match e {
        ElementView::Gate(g) => g.reads(line),
        ElementView::Complex(c) => exists|i: int|
            0 <= i < c.children.len() && element_reads(#[trigger] c.children[i], line),
    }
}

/// Whether some gate in `e`, at any depth, has `line` as its output.
pub open spec fn element_writes(e: ElementView, line: int) -> bool
    decreases e,
{
    match e {
        ElementView::Gate(g) => g.out == line,
        ElementView::Complex(c) => exists|i: int|
            0 <= i < c.children.len() && element_writes(#[trigger] c.children[i], line),
    }
}

/// Whether some child among `children` reads `line`.
pub open spec fn any_reads(children: Seq<ElementView>, line: int) -> bool {
    exists|i: int| 0 <= i < children.len() && element_reads(#[trigger] children[i], line)
}

/// Whether some child among `children` writes `line`.
pub open spec fn any_writes(children: Seq<ElementView>, line: int) -> bool {
    exists|i: int| 0 <= i < children.len() && element_writes(#[trigger] children[i], line)
}

/// Whether every child among `children` is wired within the first `count`
/// lines.
pub open spec fn all_wired(children: Seq<ElementView>, count: nat) -> bool {
    forall|i: int| 0 <= i < children.len() ==> element_wired(#[trigger] children[i], count)
}

/// Whether `a` and `b` hold the same value on every line but `line`.
pub open spec fn agree_except(a: Seq<bool>, b: Seq<bool>, line: int) -> bool {
    &&& a.len() == b.len()
    &&& forall|j: int| 0 <= j < a.len() && j != line ==> a[j] == b[j]
}

/// An element that does not read a line behaves the same whatever the
/// line holds: from values that differ on that line only, one evaluation
/// gives values that differ on that line only.
pub proof fn lemma_unread_line(e: ElementView, a: Seq<bool>, b: Seq<bool>, line: int)
    requires
        element_wired(e, a.len()),
        agree_except(a, b, line),
        !element_reads(e, line),
    ensures
        agree_except(element_drive(e, a), element_drive(e, b), line),
    decreases e, 0nat, 0nat,
{
    match e {
        ElementView::Gate(g) => {},
        ElementView::Complex(c) => {
            lemma_unread_settle(c.children, c.order, c.passes, a, b, line);
        },
    }
}

/// Children that do not read a line behave the same, over a sweep,
/// whatever the line holds.
pub proof fn lemma_unread_sweep(
    children: Seq<ElementView>,
    order: Seq<int>,
    n: nat,
    a: Seq<bool>,
    b: Seq<bool>,
    line: int,
)
    requires
        all_wired(children, a.len()),
        agree_except(a, b, line),
        !any_reads(children, line),
    ensures
        agree_except(sweep(children, order, n, a), sweep(children, order, n, b), line),
    decreases children, 0nat, n,
{
    if n > 0 && n <= order.len() {
        lemma_unread_sweep(children, order, (n - 1) as nat, a, b, line);
        lemma_sweep_len(children, order, (n - 1) as nat, a);
        let at = order[n - 1];
        if 0 <= at < children.len() {
            assert(!element_reads(children[at], line));
            lemma_unread_line(
                children[at],
                sweep(children, order, (n - 1) as nat, a),
                sweep(children, order, (n - 1) as nat, b),
                line,
            );
        }
    }
}

/// Children that do not read a line behave the same, over any number of
/// passes, whatever the line holds.
pub proof fn lemma_unread_settle(
    children: Seq<ElementView>,
    order: Seq<int>,
    passes: nat,
    a: Seq<bool>,
    b: Seq<bool>,
    line: int,
)
    requires
        all_wired(children, a.len()),
        agree_except(a, b, line),
        !any_reads(children, line),
    ensures
        agree_except(settle(children, order, passes, a), settle(children, order, passes, b), line),
    decreases children, 1nat, passes,
{
    if passes > 0 {
        lemma_unread_settle(children, order, (passes - 1) as nat, a, b, line);
        lemma_settle_len(children, order, (passes - 1) as nat, a);
        lemma_unread_sweep(
            children,
            order,
            order.len(),
            settle(children, order, (passes - 1) as nat, a),
            settle(children, order, (passes - 1) as nat, b),
            line,
        );
    }
}

/// An element leaves a line that it does not write as it was.
pub proof fn lemma_unwritten_line(e: ElementView, before: Seq<bool>, line: int)
    requires
        element_wired(e, before.len()),
        0 <= line < before.len(),
        !element_writes(e, line),
    ensures
        element_drive(e, before)[line] == before[line],
    decreases e, 0nat, 0nat,
{
    match e {
        ElementView::Gate(g) => {},
        ElementView::Complex(c) => {
            lemma_unwritten_settle(c.children, c.order, c.passes, before, line);
        },
    }
}

/// A sweep leaves a line that no child writes as it was.
pub proof fn lemma_unwritten_sweep(
    children: Seq<ElementView>,
    order: Seq<int>,
    n: nat,
    before: Seq<bool>,
    line: int,
)
    requires
        all_wired(children, before.len()),
        0 <= line < before.len(),
        !any_writes(children, line),
    ensures
        sweep(children, order, n, before)[line] == before[line],
    decreases children, 0nat, n,
{
    if n > 0 && n <= order.len() {
        lemma_unwritten_sweep(children, order, (n - 1) as nat, before, line);
        lemma_sweep_len(children, order, (n - 1) as nat, before);
        let at = order[n - 1];
        if 0 <= at < children.len() {
            assert(!element_writes(children[at], line));
            lemma_unwritten_line(children[at], sweep(children, order, (n - 1) as nat, before), line);
        }
    }
}

/// Passes leave a line that no child writes as it was.
pub proof fn lemma_unwritten_settle(
    children: Seq<ElementView>,
    order: Seq<int>,
    passes: nat,
    before: Seq<bool>,
    line: int,
)
    requires
        all_wired(children, before.len()),
        0 <= line < before.len(),
        !any_writes(children, line),
    ensures
        settle(children, order, passes, before)[line] == before[line],
    decreases children, 1nat, passes,
{
    if passes > 0 {
        lemma_unwritten_settle(children, order, (passes - 1) as nat, before, line);
        lemma_settle_len(children, order, (passes - 1) as nat, before);
        lemma_unwritten_sweep(
            children,
            order,
            order.len(),
            settle(children, order, (passes - 1) as nat, before),
            line,
        );
    }
}

/// Lines are wires by identity, not by value: a line that an element is
/// not wired to has no part in its evaluation. Whatever is put on such a
/// line, before or after, the element gives every other line the same
/// value, and the line keeps what was put on it.
pub proof fn lemma_other_line(e: ElementView, before: Seq<bool>, line: int, value: bool)
    requires
        element_wired(e, before.len()),
        0 <= line < before.len(),
        !element_reads(e, line),
        !element_writes(e, line),
    ensures
        element_drive(e, before.update(line, value)) == element_drive(e, before).update(line, value),
{
    let changed = before.update(line, value);
    lemma_unread_line(e, before, changed, line);
    lemma_unwritten_line(e, changed, line);
    lemma_drive_len(e, before);
    lemma_drive_len(e, changed);
    assert(element_drive(e, changed) =~= element_drive(e, before).update(line, value));
}

/// An element is wired to none of the lines that were made after it was
/// wired.
pub proof fn lemma_later_line(e: ElementView, count: nat, line: int)
    requires
        element_wired(e, count),
        line >= count,
    ensures
        !element_reads(e, line),
        !element_writes(e, line),
    decreases e,
{
    match e {
        ElementView::Gate(g) => {},
        ElementView::Complex(c) => {
            assert forall|i: int| 0 <= i < c.children.len() implies !element_reads(
                #[trigger] c.children[i],
                line,
            ) && !element_writes(c.children[i], line) by {
                lemma_later_line(c.children[i], count, line);
            }
        },
    }
}

/// Whether `a` and `b` hold the same on every line that `e` reads or
/// writes.
pub open spec fn same_on_lines(e: ElementView, a: Seq<bool>, b: Seq<bool>) -> bool {
    &&& a.len() == b.len()
    &&& forall|line: int|
        0 <= line < a.len() && (element_reads(e, line) || element_writes(e, line)) ==> a[line]
            == b[line]
}

/// What an evaluation leaves on the lines of an element is determined by
/// what it found on them: from values that are the same on every line of
/// the element, it gives values that are the same on every line of the
/// element.
pub proof fn lemma_determined(e: ElementView, a: Seq<bool>, b: Seq<bool>)
    requires
        element_wired(e, a.len()),
        same_on_lines(e, a, b),
    ensures
        same_on_lines(e, element_drive(e, a), element_drive(e, b)),
    decreases e, 1nat, 0nat,
{
    lemma_drive_len(e, a);
    lemma_drive_len(e, b);
    match e {
        ElementView::Gate(g) => {},
        ElementView::Complex(c) => {
            lemma_determined_settle(e, c.passes, a, b);
        },
    }
}

/// What a sweep over children of a composite leaves on the lines of the
/// composite is determined by what it found on them.
pub proof fn lemma_determined_sweep(e: ElementView, n: nat, a: Seq<bool>, b: Seq<bool>)
    requires
        e is Complex,
        element_wired(e, a.len()),
        same_on_lines(e, a, b),
    ensures
        same_on_lines(
            e,
            sweep(e->Complex_0.children, e->Complex_0.order, n, a),
            sweep(e->Complex_0.children, e->Complex_0.order, n, b),
        ),
        sweep(e->Complex_0.children, e->Complex_0.order, n, a).len() == a.len(),
    decreases e, 0nat, n,
{
    let children = e->Complex_0.children;
    let order = e->Complex_0.order;
    lemma_sweep_len(children, order, n, a);
    lemma_sweep_len(children, order, n, b);
    if n > 0 && n <= order.len() {
        let a1 = sweep(children, order, (n - 1) as nat, a);
        let b1 = sweep(children, order, (n - 1) as nat, b);
        lemma_determined_sweep(e, (n - 1) as nat, a, b);
        lemma_sweep_len(children, order, (n - 1) as nat, b);
        let at = order[n - 1];
        if 0 <= at < children.len() {
            let k = children[at];
            assert(same_on_lines(k, a1, b1)) by {
                assert forall|line: int|
                    0 <= line < a1.len() && (element_reads(k, line) || element_writes(
                        k,
                        line,
                    )) implies a1[line] == b1[line] by {
                    assert(element_reads(e, line) || element_writes(e, line));
                }
            }
            lemma_determined(k, a1, b1);
            assert forall|line: int|
                0 <= line < a.len() && (element_reads(e, line) || element_writes(
                    e,
                    line,
                )) implies element_drive(k, a1)[line] == element_drive(k, b1)[line] by {
                if !(element_reads(k, line) || element_writes(k, line)) {
                    lemma_unwritten_line(k, a1, line);
                    lemma_unwritten_line(k, b1, line);
                }
            }
        }
    }
}

/// What passes over the children of a composite leave on the lines of
/// the composite is determined by what they found on them.
pub proof fn lemma_determined_settle(e: ElementView, passes: nat, a: Seq<bool>, b: Seq<bool>)
    requires
        e is Complex,
        element_wired(e, a.len()),
        same_on_lines(e, a, b),
    ensures
        same_on_lines(
            e,
            settle(e->Complex_0.children, e->Complex_0.order, passes, a),
            settle(e->Complex_0.children, e->Complex_0.order, passes, b),
        ),
        settle(e->Complex_0.children, e->Complex_0.order, passes, a).len() == a.len(),
    decreases e, 0nat, e->Complex_0.order.len() + 1 + passes,
{
    let children = e->Complex_0.children;
    let order = e->Complex_0.order;
    lemma_settle_len(children, order, passes, a);
    lemma_settle_len(children, order, passes, b);
    if passes > 0 {
        lemma_determined_settle(e, (passes - 1) as nat, a, b);
        lemma_settle_len(children, order, (passes - 1) as nat, b);
        lemma_determined_sweep(
            e,
            order.len(),
            settle(children, order, (passes - 1) as nat, a),
            settle(children, order, (passes - 1) as nat, b),
        );
    }
}

/// Once an evaluation leaves every line as it was, so does every further
/// one: the lines have settled.
pub proof fn lemma_settled_stays(e: ElementView, values: Seq<bool>, n: nat)
    requires
        element_drive(e, values) == values,
    ensures
        repeated(e, n, values) == values,
    decreases n,
{
    if n > 0 {
        lemma_settled_stays(e, values, (n - 1) as nat);
    }
}

/// The values after `n` evaluations of `e`, starting from `before`.
pub open spec fn repeated(e: ElementView, n: nat, before: Seq<bool>) -> Seq<bool>
    decreases n,
{
    if n == 0 {
        before
    } else {
        element_drive(e, repeated(e, (n - 1) as nat, before))
    }
}

} // verus!
