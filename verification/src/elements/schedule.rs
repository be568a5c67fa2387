//! The order in which a composite evaluates its children, and the number
//! of passes it makes, as derived from the wiring.
//!
//! A child depends on another where it reads a line that the other writes.
//! The children are taken in their order; before a child is put into the
//! order, each of its input lines that is not an input of the composite is
//! looked up among the children that are still waiting, and the first of
//! them that writes the line is put into the order before it, in the same
//! way. An input line for which no waiting child is found is a feedback
//! edge: it costs one more pass.

use vstd::prelude::*;
use vstd::set_lib::*;
use crate::elements::model::{ComplexView, ElementView};

verus! {

/// How far the derivation has got.
pub struct Linear {
    /// The positions of the children that are still waiting.
    pub pending: Set<int>,
    /// The positions of the children that were put into the order, in that
    /// order.
    pub order: Seq<int>,
    /// One more than the number of feedback edges met.
    pub passes: nat,
}

/// The positions `0 .. n`.
pub open spec fn positions(n: nat) -> Set<int> {
    set_int_range(0, n as int)
}

/// For each of the positions `pending`, the lines that the child there
/// writes, as the composite sees them.
pub open spec fn waiting(children: Seq<ElementView>, pending: Set<int>) -> Map<int, Seq<int>> {
    Map::new(|k: int| pending.contains(k), |k: int| children[k].output_lines())
}

/// The first position from `from` on whose child is waiting and writes
/// `line`.
pub open spec fn producer(children: Seq<ElementView>, pending: Set<int>, line: int, from: int) -> Option<int>
    decreases children.len() - from,
{
    if from < 0 || from >= children.len() {
        None
    } else if pending.contains(from) && children[from].output_lines().contains(line) {
        Some(from)
    } else {
        producer(children, pending, line, from + 1)
    }
}

/// Puts the child at `key` into the order, behind the waiting children
/// that its input lines lead to. Nothing happens where that child is not
/// waiting.
pub open spec fn emit(boundary: Seq<int>, children: Seq<ElementView>, st: Linear, key: int) -> Linear
    decreases st.pending.len(), 0nat,
{
    if !st.pending.finite() || !st.pending.contains(key) || key < 0 || key >= children.len() {
        st
    } else {
        let taken = Linear { pending: st.pending.remove(key), ..st };
        let done = resolve(boundary, children, taken, children[key].input_lines(), 0);
        Linear { order: done.order.push(key), ..done }
    }
}

/// Goes through `inputs` from position `i` on. A line of the boundary is
/// passed over; for another line the first waiting child that writes it is
/// put into the order; where there is none, one pass is added.
pub open spec fn resolve(
    boundary: Seq<int>,
    children: Seq<ElementView>,
    st: Linear,
    inputs: Seq<int>,
    i: nat,
) -> Linear
    decreases st.pending.len(), 1 + inputs.len() - i,
{
    if i >= inputs.len() {
        st
    } else if boundary.contains(inputs[i as int]) {
        resolve(boundary, children, st, inputs, i + 1)
    } else {
        match producer(children, st.pending, inputs[i as int], 0) {
            Some(key) => {
                let next = emit(boundary, children, st, key);
                if next.pending.len() <= st.pending.len() {
                    resolve(boundary, children, next, inputs, i + 1)
                } else {
                    st
                }
            },
            None => resolve(
                boundary,
                children,
                Linear { passes: st.passes + 1, ..st },
                inputs,
                i + 1,
            ),
        }
    }
}

/// Puts the children from position `from` on into the order, one after
/// the other.
pub open spec fn linearize(boundary: Seq<int>, children: Seq<ElementView>, st: Linear, from: int) -> Linear
    decreases children.len() - from,
{
    if from < 0 || from >= children.len() {
        st
    } else {
        linearize(boundary, children, emit(boundary, children, st, from), from + 1)
    }
}

/// The order and the passes derived for `children` in a composite with
/// the input lines `boundary`.
pub open spec fn schedule(boundary: Seq<int>, children: Seq<ElementView>) -> Linear {
    linearize(
        boundary,
        children,
        Linear { pending: positions(children.len()), order: Seq::empty(), passes: 1 },
        0,
    )
}

/// A number of passes as a composite keeps it: it stops growing at the
/// largest number that the machine counts to.
pub open spec fn capped(passes: nat) -> nat {
    if passes > usize::MAX {
        usize::MAX as nat
    } else {
        passes
    }
}

impl ComplexView {
    /// The composite with the order and the number of passes derived from
    /// its input lines and its children as they were added. What the order
    /// and the passes were before plays no part.
    pub open spec fn compiled(self) -> ComplexView {
        let st = schedule(self.inputs, self.children);
        ComplexView { order: st.order, passes: capped(st.passes), ..self }
    }
}

/// Deriving the order once more changes nothing.
pub proof fn lemma_compiled_again(c: ComplexView)
    ensures
        c.compiled().compiled() == c.compiled(),
{
}

/// Whether `st` can arise for `n` children: finitely many wait, all at
/// positions below `n`, and the order names positions below `n`.
pub open spec fn sound(st: Linear, n: nat) -> bool {
    &&& st.pending.finite()
    &&& st.pending.subset_of(positions(n))
    &&& forall|i: int| 0 <= i < st.order.len() ==> 0 <= #[trigger] st.order[i] < n
}

/// Putting a child into the order takes positions out of the waiting ones
/// and adds none; the order and the passes only grow.
pub proof fn lemma_emit_shrinks(boundary: Seq<int>, children: Seq<ElementView>, st: Linear, key: int)
    requires
        sound(st, children.len()),
    ensures
        sound(emit(boundary, children, st, key), children.len()),
        emit(boundary, children, st, key).pending.subset_of(st.pending),
        emit(boundary, children, st, key).pending.len() <= st.pending.len(),
        !emit(boundary, children, st, key).pending.contains(key),
        st.order.is_prefix_of(emit(boundary, children, st, key).order),
        st.passes <= emit(boundary, children, st, key).passes,
    decreases st.pending.len(), 0nat,
{
    if st.pending.contains(key) && 0 <= key < children.len() {
        let taken = Linear { pending: st.pending.remove(key), ..st };
        let inputs = children[key].input_lines();
        lemma_resolve_shrinks(boundary, children, taken, inputs, 0);
        let done = resolve(boundary, children, taken, inputs, 0);
        lemma_len_subset(done.pending, st.pending);
    } else {
        assert(!st.pending.contains(key)) by {
            if st.pending.contains(key) {
                assert(positions(children.len()).contains(key));
            }
        }
    }
}

/// Going through input lines takes positions out of the waiting ones and
/// adds none; the order and the passes only grow.
pub proof fn lemma_resolve_shrinks(
    boundary: Seq<int>,
    children: Seq<ElementView>,
    st: Linear,
    inputs: Seq<int>,
    i: nat,
)
    requires
        sound(st, children.len()),
    ensures
        sound(resolve(boundary, children, st, inputs, i), children.len()),
        resolve(boundary, children, st, inputs, i).pending.subset_of(st.pending),
        resolve(boundary, children, st, inputs, i).pending.len() <= st.pending.len(),
        st.order.is_prefix_of(resolve(boundary, children, st, inputs, i).order),
        st.passes <= resolve(boundary, children, st, inputs, i).passes,
    decreases st.pending.len(), 1 + inputs.len() - i,
{
    if i >= inputs.len() {
    } else if boundary.contains(inputs[i as int]) {
        lemma_resolve_shrinks(boundary, children, st, inputs, i + 1);
    } else {
        match producer(children, st.pending, inputs[i as int], 0) {
            Some(key) => {
                lemma_emit_shrinks(boundary, children, st, key);
                let next = emit(boundary, children, st, key);
                lemma_resolve_shrinks(boundary, children, next, inputs, i + 1);
                let last = resolve(boundary, children, next, inputs, i + 1);
                lemma_len_subset(last.pending, st.pending);
            },
            None => {
                lemma_resolve_shrinks(
                    boundary,
                    children,
                    Linear { passes: st.passes + 1, ..st },
                    inputs,
                    i + 1,
                );
            },
        }
    }
}

/// Going on from a sound state gives a sound state.
pub proof fn lemma_linearize_sound(boundary: Seq<int>, children: Seq<ElementView>, st: Linear, from: int)
    requires
        sound(st, children.len()),
    ensures
        sound(linearize(boundary, children, st, from), children.len()),
        st.passes <= linearize(boundary, children, st, from).passes,
    decreases children.len() - from,
{
    if 0 <= from < children.len() {
        lemma_emit_shrinks(boundary, children, st, from);
        lemma_linearize_sound(boundary, children, emit(boundary, children, st, from), from + 1);
    }
}

/// The derived order names positions of the children, and at least one
/// pass is made.
pub proof fn lemma_schedule_in_range(boundary: Seq<int>, children: Seq<ElementView>)
    ensures
        forall|i: int|
            0 <= i < schedule(boundary, children).order.len() ==> 0 <= #[trigger] schedule(
                boundary,
                children,
            ).order[i] < children.len(),
        schedule(boundary, children).passes >= 1,
{
    lemma_int_range(0, children.len() as int);
    lemma_linearize_sound(
        boundary,
        children,
        Linear { pending: positions(children.len()), order: Seq::empty(), passes: 1 },
        0,
    );
}

/// Whether `st` is sound and its order holds no position twice and none
/// that still waits.
pub open spec fn tidy(st: Linear, n: nat) -> bool {
    &&& sound(st, n)
    &&& st.order.no_duplicates()
    &&& forall|i: int| 0 <= i < st.order.len() ==> !st.pending.contains(#[trigger] st.order[i])
}

/// Whether `next` comes from `st` by putting waiting positions behind the
/// order: as many as have stopped waiting.
pub open spec fn grown(st: Linear, next: Linear) -> bool {
    &&& st.order.is_prefix_of(next.order)
    &&& next.pending.subset_of(st.pending)
    &&& next.order.len() + next.pending.len() == st.order.len() + st.pending.len()
    &&& forall|i: int|
        st.order.len() <= i < next.order.len() ==> st.pending.contains(#[trigger] next.order[i])
}

/// What `producer` finds waits, writes the line, and is the first
/// position that does.
pub proof fn lemma_producer(children: Seq<ElementView>, pending: Set<int>, line: int, from: int)
    requires
        0 <= from,
    ensures
        match producer(children, pending, line, from) {
            Some(key) => {
                &&& from <= key < children.len()
                &&& pending.contains(key)
                &&& children[key].output_lines().contains(line)
                &&& forall|k: int|
                    from <= k < key ==> !(pending.contains(k) && children[k].output_lines().contains(
                        line,
                    ))
            },
            None => forall|k: int|
                from <= k < children.len() ==> !(pending.contains(k) && children[k].output_lines().contains(
                    line,
                )),
        },
    decreases children.len() - from,
{
    if from < children.len() && !(pending.contains(from) && children[from].output_lines().contains(
        line,
    )) {
        lemma_producer(children, pending, line, from + 1);
    }
}

/// Putting a child into the order keeps the state tidy, and puts a child
/// that waited at the end of the order.
pub proof fn lemma_emit_tidy(boundary: Seq<int>, children: Seq<ElementView>, st: Linear, key: int)
    requires
        tidy(st, children.len()),
    ensures
        tidy(emit(boundary, children, st, key), children.len()),
        grown(st, emit(boundary, children, st, key)),
        st.pending.contains(key) ==> emit(boundary, children, st, key).order.len() > 0 && emit(
            boundary,
            children,
            st,
            key,
        ).order.last() == key,
    decreases st.pending.len(), 0nat,
{
    if st.pending.contains(key) {
        assert(positions(children.len()).contains(key));
        let taken = Linear { pending: st.pending.remove(key), ..st };
        let inputs = children[key].input_lines();
        lemma_resolve_tidy(boundary, children, taken, inputs, 0);
        let done = resolve(boundary, children, taken, inputs, 0);
        let last = Linear { order: done.order.push(key), ..done };
        assert(emit(boundary, children, st, key) == last);
        assert forall|i: int| 0 <= i < done.order.len() implies done.order[i] != key by {
            if i < st.order.len() {
                assert(done.order[i] == st.order[i]);
            } else {
                assert(taken.pending.contains(done.order[i]));
            }
        }
        assert(last.order.no_duplicates());
        assert forall|i: int| 0 <= i < last.order.len() implies !last.pending.contains(
            #[trigger] last.order[i],
        ) by {
            if i < done.order.len() {
                assert(last.order[i] == done.order[i]);
            }
        }
        assert forall|i: int| st.order.len() <= i < last.order.len() implies st.pending.contains(
            #[trigger] last.order[i],
        ) by {
            if i < done.order.len() {
                assert(last.order[i] == done.order[i]);
                assert(taken.pending.contains(done.order[i]));
            }
        }
    }
}

/// Going through input lines keeps the state tidy.
pub proof fn lemma_resolve_tidy(
    boundary: Seq<int>,
    children: Seq<ElementView>,
    st: Linear,
    inputs: Seq<int>,
    i: nat,
)
    requires
        tidy(st, children.len()),
    ensures
        tidy(resolve(boundary, children, st, inputs, i), children.len()),
        grown(st, resolve(boundary, children, st, inputs, i)),
    decreases st.pending.len(), 1 + inputs.len() - i,
{
    if i >= inputs.len() {
    } else if boundary.contains(inputs[i as int]) {
        lemma_resolve_tidy(boundary, children, st, inputs, i + 1);
    } else {
        match producer(children, st.pending, inputs[i as int], 0) {
            Some(key) => {
                lemma_emit_tidy(boundary, children, st, key);
                lemma_emit_shrinks(boundary, children, st, key);
                let next = emit(boundary, children, st, key);
                lemma_resolve_tidy(boundary, children, next, inputs, i + 1);
                let last = resolve(boundary, children, next, inputs, i + 1);
                assert forall|j: int| st.order.len() <= j < last.order.len() implies st.pending.contains(
                    #[trigger] last.order[j],
                ) by {
                    if j < next.order.len() {
                        assert(last.order[j] == next.order[j]);
                    } else {
                        assert(next.pending.contains(last.order[j]));
                    }
                }
            },
            None => {
                lemma_resolve_tidy(
                    boundary,
                    children,
                    Linear { passes: st.passes + 1, ..st },
                    inputs,
                    i + 1,
                );
            },
        }
    }
}

/// Going on from a tidy state gives a tidy state in which none of the
/// positions from `from` on waits.
pub proof fn lemma_linearize_tidy(boundary: Seq<int>, children: Seq<ElementView>, st: Linear, from: int)
    requires
        tidy(st, children.len()),
        0 <= from,
    ensures
        tidy(linearize(boundary, children, st, from), children.len()),
        grown(st, linearize(boundary, children, st, from)),
        forall|k: int| from <= k < children.len() ==> !linearize(boundary, children, st, from).pending.contains(k),
    decreases children.len() - from,
{
    if from < children.len() {
        lemma_emit_tidy(boundary, children, st, from);
        lemma_emit_shrinks(boundary, children, st, from);
        let next = emit(boundary, children, st, from);
        lemma_linearize_tidy(boundary, children, next, from + 1);
        let last = linearize(boundary, children, next, from + 1);
        assert forall|j: int| st.order.len() <= j < last.order.len() implies st.pending.contains(
            #[trigger] last.order[j],
        ) by {
            if j < next.order.len() {
                assert(last.order[j] == next.order[j]);
            } else {
                assert(next.pending.contains(last.order[j]));
            }
        }
    }
}

/// The derived order is a rearrangement of the children: it has as many
/// entries as there are children, each entry is the position of a child,
/// and no position comes twice. So every child is evaluated once in a
/// pass.
pub proof fn lemma_schedule_permutes(boundary: Seq<int>, children: Seq<ElementView>)
    ensures
        schedule(boundary, children).order.len() == children.len(),
        schedule(boundary, children).order.no_duplicates(),
        forall|i: int|
            0 <= i < children.len() ==> 0 <= #[trigger] schedule(boundary, children).order[i]
                < children.len(),
        schedule(boundary, children).pending == Set::<int>::empty(),
        forall|k: int| 0 <= k < children.len() ==> schedule(boundary, children).order.contains(k),
{
    lemma_schedule_covers(boundary, children);
    let n = children.len();
    let start = Linear { pending: positions(n), order: Seq::empty(), passes: 1 };
    lemma_int_range(0, n as int);
    lemma_linearize_tidy(boundary, children, start, 0);
    let last = schedule(boundary, children);
    assert(last.pending =~= Set::<int>::empty()) by {
        assert forall|k: int| !last.pending.contains(k) by {
            if last.pending.contains(k) {
                assert(positions(n).contains(k));
            }
        }
    }
}

/// A composite without children has an empty order and makes one pass.
pub proof fn lemma_schedule_empty(boundary: Seq<int>)
    ensures
        schedule(boundary, Seq::<ElementView>::empty()).order == Seq::<int>::empty(),
        schedule(boundary, Seq::<ElementView>::empty()).passes == 1,
{
}

/// Whether `line` is a line of the boundary or is written by one of the
/// first `upto` children that `order` names.
pub open spec fn supplied(
    boundary: Seq<int>,
    children: Seq<ElementView>,
    order: Seq<int>,
    upto: int,
    line: int,
) -> bool {
    boundary.contains(line) || exists|q: int|
        0 <= q < upto && q < order.len() && (#[trigger] children[order[q]]).output_lines().contains(line)
}

/// Whether the child that `order` names at `p` finds each of its input
/// lines on the boundary or written by a child that comes before it.
pub open spec fn fed(boundary: Seq<int>, children: Seq<ElementView>, order: Seq<int>, p: int) -> bool {
    forall|j: int|
        0 <= j < children[order[p]].input_lines().len() ==> supplied(
            boundary,
            children,
            order,
            p,
            #[trigger] children[order[p]].input_lines()[j],
        )
}

/// Whether every child that `order` names finds each of its input lines
/// on the boundary or written by a child that comes before it.
pub open spec fn forward(boundary: Seq<int>, children: Seq<ElementView>, order: Seq<int>) -> bool {
    forall|p: int| 0 <= p < order.len() ==> fed(boundary, children, order, p)
}

/// What is supplied within an order is supplied within every order that
/// goes on from it.
pub proof fn lemma_supplied_extends(
    boundary: Seq<int>,
    children: Seq<ElementView>,
    order: Seq<int>,
    longer: Seq<int>,
    upto: int,
    more: int,
    line: int,
)
    requires
        order.is_prefix_of(longer),
        upto <= more,
        supplied(boundary, children, order, upto, line),
    ensures
        supplied(boundary, children, longer, more, line),
{
    if !boundary.contains(line) {
        let q = choose|q: int|
            0 <= q < upto && q < order.len() && (#[trigger] children[order[q]]).output_lines().contains(line);
        assert(longer[q] == order[q]);
        assert(children[longer[q]].output_lines().contains(line));
    }
}

/// An order that is forward stays so where it is a prefix of a longer one,
/// as far as it went.
pub proof fn lemma_fed_extends(
    boundary: Seq<int>,
    children: Seq<ElementView>,
    order: Seq<int>,
    longer: Seq<int>,
    p: int,
)
    requires
        order.is_prefix_of(longer),
        0 <= p < order.len(),
        fed(boundary, children, order, p),
    ensures
        fed(boundary, children, longer, p),
{
    assert(longer[p] == order[p]);
    assert forall|j: int| 0 <= j < children[longer[p]].input_lines().len() implies supplied(
        boundary,
        children,
        longer,
        p,
        #[trigger] children[longer[p]].input_lines()[j],
    ) by {
        lemma_supplied_extends(
            boundary,
            children,
            order,
            longer,
            p,
            p,
            children[order[p]].input_lines()[j],
        );
    }
}

/// As long as no feedback edge was met, putting a child into the order
/// keeps the order forward.
pub proof fn lemma_emit_forward(boundary: Seq<int>, children: Seq<ElementView>, st: Linear, key: int)
    requires
        tidy(st, children.len()),
        st.passes >= 1,
        st.passes == 1 ==> forward(boundary, children, st.order),
    ensures
        emit(boundary, children, st, key).passes == 1 ==> forward(
            boundary,
            children,
            emit(boundary, children, st, key).order,
        ),
    decreases st.pending.len(), 0nat,
{
    if st.pending.contains(key) {
        assert(positions(children.len()).contains(key));
        let taken = Linear { pending: st.pending.remove(key), ..st };
        let inputs = children[key].input_lines();
        lemma_resolve_forward(boundary, children, taken, inputs, 0);
        lemma_resolve_tidy(boundary, children, taken, inputs, 0);
        let done = resolve(boundary, children, taken, inputs, 0);
        let last = Linear { order: done.order.push(key), ..done };
        assert(emit(boundary, children, st, key) == last);
        if last.passes == 1 {
            assert forall|p: int| 0 <= p < last.order.len() implies fed(
                boundary,
                children,
                last.order,
                p,
            ) by {
                if p < done.order.len() {
                    lemma_fed_extends(boundary, children, done.order, last.order, p);
                } else {
                    assert(last.order[p] == key);
                    assert forall|j: int| 0 <= j < inputs.len() implies supplied(
                        boundary,
                        children,
                        last.order,
                        p,
                        #[trigger] inputs[j],
                    ) by {
                        lemma_supplied_extends(
                            boundary,
                            children,
                            done.order,
                            last.order,
                            done.order.len() as int,
                            p,
                            inputs[j],
                        );
                    }
                }
            }
        }
    }
}

/// As long as no feedback edge was met, going through input lines keeps
/// the order forward and sees to it that each of the lines is supplied.
pub proof fn lemma_resolve_forward(
    boundary: Seq<int>,
    children: Seq<ElementView>,
    st: Linear,
    inputs: Seq<int>,
    i: nat,
)
    requires
        tidy(st, children.len()),
        st.passes >= 1,
        i <= inputs.len(),
        st.passes == 1 ==> forward(boundary, children, st.order),
        st.passes == 1 ==> forall|j: int|
            0 <= j < i ==> supplied(boundary, children, st.order, st.order.len() as int, #[trigger] inputs[j]),
    ensures
        resolve(boundary, children, st, inputs, i).passes == 1 ==> forward(
            boundary,
            children,
            resolve(boundary, children, st, inputs, i).order,
        ),
        resolve(boundary, children, st, inputs, i).passes == 1 ==> forall|j: int|
            0 <= j < inputs.len() ==> supplied(
                boundary,
                children,
                resolve(boundary, children, st, inputs, i).order,
                resolve(boundary, children, st, inputs, i).order.len() as int,
                #[trigger] inputs[j],
            ),
    decreases st.pending.len(), 1 + inputs.len() - i,
{
    if i >= inputs.len() {
    } else if boundary.contains(inputs[i as int]) {
        lemma_resolve_forward(boundary, children, st, inputs, i + 1);
    } else {
        let line = inputs[i as int];
        match producer(children, st.pending, line, 0) {
            Some(key) => {
                lemma_producer(children, st.pending, line, 0);
                lemma_emit_tidy(boundary, children, st, key);
                lemma_emit_shrinks(boundary, children, st, key);
                lemma_emit_forward(boundary, children, st, key);
                let next = emit(boundary, children, st, key);
                if next.passes == 1 {
                    assert forall|j: int| 0 <= j < i + 1 implies supplied(
                        boundary,
                        children,
                        next.order,
                        next.order.len() as int,
                        #[trigger] inputs[j],
                    ) by {
                        if j < i {
                            lemma_supplied_extends(
                                boundary,
                                children,
                                st.order,
                                next.order,
                                st.order.len() as int,
                                next.order.len() as int,
                                inputs[j],
                            );
                        } else {
                            let q = next.order.len() - 1;
                            assert(next.order[q] == key);
                            assert(children[next.order[q]].output_lines().contains(line));
                        }
                    }
                }
                lemma_resolve_forward(boundary, children, next, inputs, i + 1);
            },
            None => {
                let next = Linear { passes: st.passes + 1, ..st };
                lemma_resolve_forward(boundary, children, next, inputs, i + 1);
                lemma_resolve_shrinks(boundary, children, next, inputs, i + 1);
            },
        }
    }
}

/// As long as no feedback edge was met, going on keeps the order forward.
pub proof fn lemma_linearize_forward(boundary: Seq<int>, children: Seq<ElementView>, st: Linear, from: int)
    requires
        tidy(st, children.len()),
        st.passes >= 1,
        st.passes == 1 ==> forward(boundary, children, st.order),
    ensures
        linearize(boundary, children, st, from).passes == 1 ==> forward(
            boundary,
            children,
            linearize(boundary, children, st, from).order,
        ),
    decreases children.len() - from,
{
    if 0 <= from < children.len() {
        lemma_emit_tidy(boundary, children, st, from);
        lemma_emit_shrinks(boundary, children, st, from);
        lemma_emit_forward(boundary, children, st, from);
        lemma_linearize_forward(boundary, children, emit(boundary, children, st, from), from + 1);
    }
}

/// Where the derivation met no feedback edge, so that one pass is made,
/// the order is forward: each child comes behind a child that writes its
/// input line, for each of its input lines that is not on the boundary.
pub proof fn lemma_schedule_forward(boundary: Seq<int>, children: Seq<ElementView>)
    ensures
        schedule(boundary, children).passes == 1 ==> forward(
            boundary,
            children,
            schedule(boundary, children).order,
        ),
{
    let start = Linear { pending: positions(children.len()), order: Seq::empty(), passes: 1 };
    lemma_int_range(0, children.len() as int);
    lemma_linearize_forward(boundary, children, start, 0);
}

/// Deriving the order anew leaves every line where it was: a composite
/// that was wired within the first `count` lines still is.
pub proof fn lemma_compiled_wired(c: ComplexView, count: nat)
    requires
        c.wired(count),
    ensures
        c.compiled().wired(count),
{
}

/// Whether no child reads a line, other than a line of the boundary,
/// that a child behind it writes.
pub open spec fn in_place(boundary: Seq<int>, children: Seq<ElementView>) -> bool {
    forall|p: int, q: int, j: int|
        #![trigger children[q].output_lines().contains(children[p].input_lines()[j])]
        0 <= p < q < children.len() && 0 <= j < children[p].input_lines().len() && !boundary.contains(
            children[p].input_lines()[j],
        ) ==> !children[q].output_lines().contains(children[p].input_lines()[j])
}

/// Where no waiting child writes any of the input lines, going through
/// them puts no child into the order.
pub proof fn lemma_resolve_in_place(
    boundary: Seq<int>,
    children: Seq<ElementView>,
    st: Linear,
    inputs: Seq<int>,
    i: nat,
)
    requires
        forall|q: int, j: int|
            #![trigger children[q].output_lines().contains(inputs[j])]
            st.pending.contains(q) && i <= j < inputs.len() && !boundary.contains(inputs[j])
                ==> !children[q].output_lines().contains(inputs[j]),
    ensures
        resolve(boundary, children, st, inputs, i).pending == st.pending,
        resolve(boundary, children, st, inputs, i).order == st.order,
    decreases inputs.len() - i,
{
    if i >= inputs.len() {
    } else if boundary.contains(inputs[i as int]) {
        lemma_resolve_in_place(boundary, children, st, inputs, i + 1);
    } else {
        lemma_producer(children, st.pending, inputs[i as int], 0);
        match producer(children, st.pending, inputs[i as int], 0) {
            Some(key) => {
                assert(children[key].output_lines().contains(inputs[i as int]));
            },
            None => {
                lemma_resolve_in_place(
                    boundary,
                    children,
                    Linear { passes: st.passes + 1, ..st },
                    inputs,
                    i + 1,
                );
            },
        }
    }
}

/// Where no child reads what a child behind it writes, going on from the
/// child at `from`, with the children before it in the order as they
/// stand, puts the rest into the order as they stand.
pub proof fn lemma_linearize_in_place(
    boundary: Seq<int>,
    children: Seq<ElementView>,
    st: Linear,
    from: int,
)
    requires
        in_place(boundary, children),
        0 <= from <= children.len(),
        st.pending == set_int_range(from, children.len() as int),
        st.order == Seq::new(from as nat, |i: int| i),
    ensures
        linearize(boundary, children, st, from).order == Seq::new(children.len(), |i: int| i),
    decreases children.len() - from,
{
    let n = children.len() as int;
    if from < n {
        lemma_int_range(from, n);
        let taken = Linear { pending: st.pending.remove(from), ..st };
        let inputs = children[from].input_lines();
        assert forall|q: int, j: int|
            #![trigger children[q].output_lines().contains(inputs[j])]
            taken.pending.contains(q) && 0 <= j < inputs.len() && !boundary.contains(
                inputs[j],
            ) implies !children[q].output_lines().contains(inputs[j]) by {
            assert(from < q < n);
            assert(!children[q].output_lines().contains(children[from].input_lines()[j]));
        }
        lemma_resolve_in_place(boundary, children, taken, inputs, 0);
        let done = resolve(boundary, children, taken, inputs, 0);
        let next = emit(boundary, children, st, from);
        assert(next == Linear { order: done.order.push(from), ..done });
        assert(next.pending =~= set_int_range(from + 1, n));
        assert(next.order =~= Seq::new((from + 1) as nat, |i: int| i));
        lemma_linearize_in_place(boundary, children, next, from + 1);
    } else {
        assert(st.order =~= Seq::new(children.len(), |i: int| i));
    }
}

/// The derivation moves no child without need: where no child reads a
/// line, other than a line of the boundary, that a child behind it
/// writes, the children keep the order in which they stand.
pub proof fn lemma_schedule_keeps_order(boundary: Seq<int>, children: Seq<ElementView>)
    requires
        in_place(boundary, children),
    ensures
        schedule(boundary, children).order == Seq::new(children.len(), |i: int| i),
{
    let start = Linear { pending: positions(children.len()), order: Seq::empty(), passes: 1 };
    assert(start.order =~= Seq::new(0, |i: int| i));
    lemma_linearize_in_place(boundary, children, start, 0);
}

/// Whether the child at `x` depends on the child at `y`: it reads a line,
/// other than a line of the boundary, that the child at `y` writes.
pub open spec fn depends(boundary: Seq<int>, children: Seq<ElementView>, x: int, y: int) -> bool {
    exists|j: int|
        0 <= j < children[x].input_lines().len() && !boundary.contains(
            children[x].input_lines()[j],
        ) && children[y].output_lines().contains(#[trigger] children[x].input_lines()[j])
}

/// Whether each child on `path` depends on the next one.
pub open spec fn chain(boundary: Seq<int>, children: Seq<ElementView>, path: Seq<int>) -> bool {
    forall|i: int|
        0 <= i < path.len() - 1 ==> depends(boundary, children, #[trigger] path[i], path[i + 1])
}

/// Whether the child at `y` depends on the child at `x` through one or
/// more steps.
pub open spec fn leads(boundary: Seq<int>, children: Seq<ElementView>, y: int, x: int) -> bool {
    exists|path: Seq<int>|
        #![trigger chain(boundary, children, path)]
        path.len() >= 2 && path[0] == y && path.last() == x && chain(boundary, children, path)
}

/// Whether every child that writes `line` is the child at `x` or depends
/// on it through one or more steps, so that a child which reads `line`
/// at `x` closes a loop with each of them.
pub open spec fn looped(boundary: Seq<int>, children: Seq<ElementView>, x: int, line: int) -> bool {
    forall|y: int|
        0 <= y < children.len() && (#[trigger] children[y]).output_lines().contains(line) ==> y == x
            || leads(boundary, children, y, x)
}

/// Whether `line`, read by the child at `x`, is seen to: it is a line of
/// the boundary, or one of the first `upto` children in the order writes
/// it, or whatever writes it lies on a loop through `x`.
pub open spec fn served(
    boundary: Seq<int>,
    children: Seq<ElementView>,
    order: Seq<int>,
    upto: int,
    x: int,
    line: int,
) -> bool {
    supplied(boundary, children, order, upto, line) || looped(boundary, children, x, line)
}

/// Whether the order is as forward as the wiring allows: each child comes
/// behind a child that writes its input line, for each of its input lines
/// that is not on the boundary, unless whatever writes the line lies on a
/// loop through that child.
pub open spec fn topological(boundary: Seq<int>, children: Seq<ElementView>, order: Seq<int>) -> bool {
    forall|p: int, j: int|
        #![trigger children[order[p]].input_lines()[j]]
        0 <= p < order.len() && 0 <= j < children[order[p]].input_lines().len() ==> served(
            boundary,
            children,
            order,
            p,
            order[p],
            children[order[p]].input_lines()[j],
        )
}

/// Whether each position below `n` waits, is in the order, or is on
/// `stack`.
pub open spec fn covered(st: Linear, stack: Seq<int>, n: nat) -> bool {
    forall|k: int|
        0 <= k < n ==> st.pending.contains(k) || st.order.contains(k) || #[trigger] stack.contains(k)
}

/// What is seen to within an order is seen to within every order that
/// goes on from it.
pub proof fn lemma_served_extends(
    boundary: Seq<int>,
    children: Seq<ElementView>,
    order: Seq<int>,
    longer: Seq<int>,
    upto: int,
    more: int,
    x: int,
    line: int,
)
    requires
        order.is_prefix_of(longer),
        upto <= more,
        served(boundary, children, order, upto, x, line),
    ensures
        served(boundary, children, longer, more, x, line),
{
    if supplied(boundary, children, order, upto, line) {
        lemma_supplied_extends(boundary, children, order, longer, upto, more, line);
    }
}

/// An order that is as forward as the wiring allows stays so where a
/// child is put behind it whose input lines are seen to.
pub proof fn lemma_topological_push(
    boundary: Seq<int>,
    children: Seq<ElementView>,
    order: Seq<int>,
    key: int,
)
    requires
        topological(boundary, children, order),
        forall|j: int|
            0 <= j < children[key].input_lines().len() ==> served(
                boundary,
                children,
                order,
                order.len() as int,
                key,
                #[trigger] children[key].input_lines()[j],
            ),
    ensures
        topological(boundary, children, order.push(key)),
{
    let longer = order.push(key);
    assert forall|p: int, j: int|
        #![trigger children[longer[p]].input_lines()[j]]
        0 <= p < longer.len() && 0 <= j < children[longer[p]].input_lines().len() implies served(
        boundary,
        children,
        longer,
        p,
        longer[p],
        children[longer[p]].input_lines()[j],
    ) by {
        if p < order.len() {
            assert(longer[p] == order[p]);
            let line = children[order[p]].input_lines()[j];
            assert(served(boundary, children, order, p, order[p], line));
            lemma_served_extends(boundary, children, order, longer, p, p, order[p], line);
        } else {
            let line = children[key].input_lines()[j];
            assert(served(boundary, children, order, order.len() as int, key, line));
            lemma_served_extends(boundary, children, order, longer, order.len() as int, p, key, line);
        }
    }
}

/// Putting a child into the order keeps the order as forward as the
/// wiring allows. `stack` holds the children that are being put into the
/// order at this moment, each reached from the one before it.
pub proof fn lemma_emit_topological(
    boundary: Seq<int>,
    children: Seq<ElementView>,
    st: Linear,
    key: int,
    stack: Seq<int>,
)
    requires
        tidy(st, children.len()),
        covered(st, stack, children.len()),
        chain(boundary, children, stack),
        topological(boundary, children, st.order),
        stack.len() > 0 && st.pending.contains(key) ==> depends(boundary, children, stack.last(), key),
    ensures
        topological(boundary, children, emit(boundary, children, st, key).order),
        covered(emit(boundary, children, st, key), stack, children.len()),
    decreases st.pending.len(), 0nat,
{
    if st.pending.contains(key) {
        assert(positions(children.len()).contains(key));
        let taken = Linear { pending: st.pending.remove(key), ..st };
        let inputs = children[key].input_lines();
        let deeper = stack.push(key);
        assert(chain(boundary, children, deeper)) by {
            assert forall|i: int| 0 <= i < deeper.len() - 1 implies depends(
                boundary,
                children,
                #[trigger] deeper[i],
                deeper[i + 1],
            ) by {
                if i < stack.len() - 1 {
                    assert(depends(boundary, children, stack[i], stack[i + 1]));
                }
            }
        }
        assert(covered(taken, deeper, children.len())) by {
            assert forall|k: int| 0 <= k < children.len() implies taken.pending.contains(k)
                || taken.order.contains(k) || #[trigger] deeper.contains(k) by {
                if k == key {
                    assert(deeper[stack.len() as int] == key);
                } else if stack.contains(k) {
                    let i = choose|i: int| 0 <= i < stack.len() && stack[i] == k;
                    assert(deeper[i] == k);
                }
            }
        }
        lemma_resolve_topological(boundary, children, taken, inputs, 0, deeper);
        let done = resolve(boundary, children, taken, inputs, 0);
        let last = Linear { order: done.order.push(key), ..done };
        assert(emit(boundary, children, st, key) == last);
        lemma_topological_push(boundary, children, done.order, key);
        assert forall|k: int| 0 <= k < children.len() implies last.pending.contains(k)
            || last.order.contains(k) || #[trigger] stack.contains(k) by {
            if k == key {
                assert(last.order[done.order.len() as int] == key);
            } else if done.order.contains(k) {
                let i = choose|i: int| 0 <= i < done.order.len() && done.order[i] == k;
                assert(last.order[i] == k);
            } else if deeper.contains(k) {
                let i = choose|i: int| 0 <= i < deeper.len() && deeper[i] == k;
                assert(stack[i] == k);
            }
        }
    }
}

/// Going through the input lines of the child on top of `stack` keeps the
/// order as forward as the wiring allows, and sees to each of the lines.
pub proof fn lemma_resolve_topological(
    boundary: Seq<int>,
    children: Seq<ElementView>,
    st: Linear,
    inputs: Seq<int>,
    i: nat,
    stack: Seq<int>,
)
    requires
        tidy(st, children.len()),
        stack.len() > 0,
        0 <= stack.last() < children.len(),
        inputs == children[stack.last()].input_lines(),
        i <= inputs.len(),
        covered(st, stack, children.len()),
        chain(boundary, children, stack),
        topological(boundary, children, st.order),
        forall|j: int|
            0 <= j < i ==> served(
                boundary,
                children,
                st.order,
                st.order.len() as int,
                stack.last(),
                #[trigger] inputs[j],
            ),
    ensures
        topological(boundary, children, resolve(boundary, children, st, inputs, i).order),
        covered(resolve(boundary, children, st, inputs, i), stack, children.len()),
        forall|j: int|
            0 <= j < inputs.len() ==> served(
                boundary,
                children,
                resolve(boundary, children, st, inputs, i).order,
                resolve(boundary, children, st, inputs, i).order.len() as int,
                stack.last(),
                #[trigger] inputs[j],
            ),
    decreases st.pending.len(), 1 + inputs.len() - i,
{
    let x = stack.last();
    if i >= inputs.len() {
    } else if boundary.contains(inputs[i as int]) {
        lemma_resolve_topological(boundary, children, st, inputs, i + 1, stack);
    } else {
        let line = inputs[i as int];
        lemma_producer(children, st.pending, line, 0);
        match producer(children, st.pending, line, 0) {
            Some(key) => {
                assert(depends(boundary, children, x, key)) by {
                    assert(children[key].output_lines().contains(children[x].input_lines()[i as int]));
                }
                lemma_emit_tidy(boundary, children, st, key);
                lemma_emit_shrinks(boundary, children, st, key);
                lemma_emit_topological(boundary, children, st, key, stack);
                let next = emit(boundary, children, st, key);
                assert forall|j: int| 0 <= j < i + 1 implies served(
                    boundary,
                    children,
                    next.order,
                    next.order.len() as int,
                    x,
                    #[trigger] inputs[j],
                ) by {
                    if j < i {
                        lemma_served_extends(
                            boundary,
                            children,
                            st.order,
                            next.order,
                            st.order.len() as int,
                            next.order.len() as int,
                            x,
                            inputs[j],
                        );
                    } else {
                        let q = next.order.len() - 1;
                        assert(next.order[q] == key);
                        assert(children[next.order[q]].output_lines().contains(line));
                    }
                }
                lemma_resolve_topological(boundary, children, next, inputs, i + 1, stack);
            },
            None => {
                let next = Linear { passes: st.passes + 1, ..st };
                assert(served(boundary, children, st.order, st.order.len() as int, x, line)) by {
                    if !supplied(boundary, children, st.order, st.order.len() as int, line) {
                        assert forall|y: int|
                            0 <= y < children.len() && (#[trigger] children[y]).output_lines().contains(
                                line,
                            ) implies y == x || leads(boundary, children, y, x) by {
                            assert(!st.pending.contains(y));
                            if st.order.contains(y) {
                                let q = choose|q: int| 0 <= q < st.order.len() && st.order[q] == y;
                                assert(children[st.order[q]].output_lines().contains(line));
                            } else {
                                assert(stack.contains(y));
                                let m = choose|m: int| 0 <= m < stack.len() && stack[m] == y;
                                if m < stack.len() - 1 {
                                    let path = stack.subrange(m, stack.len() as int);
                                    assert(chain(boundary, children, path)) by {
                                        assert forall|t: int| 0 <= t < path.len() - 1 implies depends(
                                            boundary,
                                            children,
                                            #[trigger] path[t],
                                            path[t + 1],
                                        ) by {
                                            assert(depends(
                                                boundary,
                                                children,
                                                stack[m + t],
                                                stack[m + t + 1],
                                            ));
                                        }
                                    }
                                    assert(path[0] == y && path.last() == x);
                                }
                            }
                        }
                    }
                }
                assert forall|j: int| 0 <= j < i + 1 implies served(
                    boundary,
                    children,
                    next.order,
                    next.order.len() as int,
                    x,
                    #[trigger] inputs[j],
                ) by {}
                lemma_resolve_topological(boundary, children, next, inputs, i + 1, stack);
            },
        }
    }
}

/// Going on keeps the order as forward as the wiring allows.
pub proof fn lemma_linearize_topological(
    boundary: Seq<int>,
    children: Seq<ElementView>,
    st: Linear,
    from: int,
)
    requires
        tidy(st, children.len()),
        covered(st, Seq::<int>::empty(), children.len()),
        topological(boundary, children, st.order),
    ensures
        topological(boundary, children, linearize(boundary, children, st, from).order),
        covered(linearize(boundary, children, st, from), Seq::<int>::empty(), children.len()),
    decreases children.len() - from,
{
    if 0 <= from < children.len() {
        let none = Seq::<int>::empty();
        lemma_emit_tidy(boundary, children, st, from);
        lemma_emit_shrinks(boundary, children, st, from);
        lemma_emit_topological(boundary, children, st, from, none);
        lemma_linearize_topological(boundary, children, emit(boundary, children, st, from), from + 1);
    }
}

/// The derived order is as forward as the wiring allows: each child
/// comes behind a child that writes its input line, for each of its
/// input lines that is not on the boundary, unless every child that
/// writes the line is that child itself or depends on it, so that they
/// lie on a loop.
pub proof fn lemma_schedule_topological(boundary: Seq<int>, children: Seq<ElementView>)
    ensures
        topological(boundary, children, schedule(boundary, children).order),
{
    let start = Linear { pending: positions(children.len()), order: Seq::empty(), passes: 1 };
    lemma_int_range(0, children.len() as int);
    lemma_linearize_topological(boundary, children, start, 0);
}

/// The derived order names every child.
pub proof fn lemma_schedule_covers(boundary: Seq<int>, children: Seq<ElementView>)
    ensures
        forall|k: int| 0 <= k < children.len() ==> schedule(boundary, children).order.contains(k),
{
    let n = children.len();
    let start = Linear { pending: positions(n), order: Seq::empty(), passes: 1 };
    lemma_int_range(0, n as int);
    lemma_linearize_topological(boundary, children, start, 0);
    lemma_linearize_tidy(boundary, children, start, 0);
    let last = schedule(boundary, children);
    let none = Seq::<int>::empty();
    assert forall|k: int| 0 <= k < n implies last.order.contains(k) by {
        assert(last.pending.contains(k) || last.order.contains(k) || none.contains(k));
    }
}

/// Whether the wiring has no loop: no child depends on itself through
/// one or more steps.
pub open spec fn acyclic(boundary: Seq<int>, children: Seq<ElementView>) -> bool {
    forall|x: int| 0 <= x < children.len() ==> !leads(boundary, children, x, x)
}

/// Whether each input line of each child is a line of the boundary or is
/// written by a child.
pub open spec fn driven(boundary: Seq<int>, children: Seq<ElementView>) -> bool {
    forall|x: int, j: int|
        #![trigger children[x].input_lines()[j]]
        0 <= x < children.len() && 0 <= j < children[x].input_lines().len() ==> boundary.contains(
            children[x].input_lines()[j],
        ) || exists|y: int|
            0 <= y < children.len() && (#[trigger] children[y]).output_lines().contains(
                children[x].input_lines()[j],
            )
}

/// Where the wiring has no loop and every input line is written by a
/// child or lies on the boundary, the derived order is forward, whatever
/// the number of passes: each child is evaluated behind a child that
/// writes its input line, for each of its input lines that is not on the
/// boundary.
pub proof fn lemma_schedule_acyclic_forward(boundary: Seq<int>, children: Seq<ElementView>)
    requires
        acyclic(boundary, children),
        driven(boundary, children),
    ensures
        forward(boundary, children, schedule(boundary, children).order),
{
    lemma_schedule_topological(boundary, children);
    lemma_schedule_permutes(boundary, children);
    let order = schedule(boundary, children).order;
    assert forall|p: int| 0 <= p < order.len() implies fed(boundary, children, order, p) by {
        let x = order[p];
        assert forall|j: int| 0 <= j < children[x].input_lines().len() implies supplied(
            boundary,
            children,
            order,
            p,
            #[trigger] children[x].input_lines()[j],
        ) by {
            let line = children[x].input_lines()[j];
            assert(served(boundary, children, order, p, x, line));
            if !supplied(boundary, children, order, p, line) {
                assert(looped(boundary, children, x, line));
                let y = choose|y: int|
                    0 <= y < children.len() && (#[trigger] children[y]).output_lines().contains(line);
                assert(children[y].output_lines().contains(children[x].input_lines()[j]));
                assert(depends(boundary, children, x, y));
                if y == x {
                    let path = seq![x, x];
                    assert(chain(boundary, children, path)) by {
                        assert forall|i: int| 0 <= i < path.len() - 1 implies depends(
                            boundary,
                            children,
                            #[trigger] path[i],
                            path[i + 1],
                        ) by {}
                    }
                    assert(path[0] == x && path.last() == x);
                    assert(leads(boundary, children, x, x));
                } else {
                    assert(leads(boundary, children, y, x));
                    let tail = choose|tail: Seq<int>|
                        #![trigger chain(boundary, children, tail)]
                        tail.len() >= 2 && tail[0] == y && tail.last() == x && chain(
                            boundary,
                            children,
                            tail,
                        );
                    let path = seq![x] + tail;
                    assert(chain(boundary, children, path)) by {
                        assert forall|i: int| 0 <= i < path.len() - 1 implies depends(
                            boundary,
                            children,
                            #[trigger] path[i],
                            path[i + 1],
                        ) by {
                            if i > 0 {
                                assert(path[i] == tail[i - 1]);
                                assert(path[i + 1] == tail[i]);
                                assert(depends(boundary, children, tail[i - 1], tail[i]));
                            } else {
                                assert(path[1] == tail[0]);
                            }
                        }
                    }
                    assert(path[0] == x && path.last() == x);
                    assert(leads(boundary, children, x, x));
                }
            }
        }
    }
}

} // verus!
