use binarii::elements::complex::{Complex, Element};
use binarii::elements::gate::Gate;
use binarii::elements::wire::{Signals, Wire};
use binarii::elements::Conduct;

fn out_of(element: &Element) -> Wire {
    element.output()[0]
}

#[test]
fn empty_composite_makes_one_pass_and_changes_nothing() {
    let mut store = Signals::new();
    let s = &mut store;
    let a = Wire::new(s);
    a.set(s, true);
    let mut c = Complex::new("empty");
    assert_eq!(c.passes(), 1);
    c.compile();
    assert_eq!(c.passes(), 1);
    c.conduct(s);
    assert_eq!(a.get(s), true);
    assert_eq!(s.len(), 1);
}

#[test]
fn producer_is_put_before_its_consumer() {
    let mut store = Signals::new();
    let s = &mut store;
    let a = Wire::new(s);
    let b = Wire::new(s);
    let c = Wire::new(s);
    let inner = Wire::new(s);
    let out = Wire::new(s);
    let mut and_3 = Complex::new("and_3");
    and_3.add_input(a);
    and_3.add_input(b);
    and_3.add_input(c);
    and_3.add_output(out);
    // The consumer is added first: alone it has one input that nothing writes.
    and_3.add_gate(Gate::and(s, inner, c, out));
    assert_eq!(and_3.passes(), 2);
    // With its producer added, the producer is evaluated first. Both stay
    // where they were added.
    assert_eq!(and_3.add_gate(Gate::and(s, a, b, inner)), 1);
    assert_eq!(and_3.passes(), 1);
    assert_eq!(and_3.order(), vec![1, 0]);
    assert_eq!(out_of(and_3.get_element(0)), out);
    assert_eq!(out_of(and_3.get_element(1)), inner);

    a.set(s, true);
    b.set(s, true);
    c.set(s, true);
    and_3.conduct(s);
    assert_eq!(out.get(s), true);
}

#[test]
fn children_in_a_forward_order_keep_their_order() {
    let mut store = Signals::new();
    let s = &mut store;
    let a = Wire::new(s);
    let b = Wire::new(s);
    let x = Wire::new(s);
    let y = Wire::new(s);
    let mut c = Complex::new("pair");
    c.add_input(a);
    c.add_input(b);
    c.add_output(x);
    c.add_output(y);
    c.add_gate(Gate::and(s, a, b, x));
    c.add_gate(Gate::or(s, a, b, y));
    assert_eq!(c.passes(), 1);
    assert_eq!(c.order(), vec![0, 1]);
    assert_eq!(out_of(c.get_element(0)), x);
    assert_eq!(out_of(c.get_element(1)), y);
}

#[test]
fn an_input_written_by_an_earlier_child_costs_a_pass() {
    let mut store = Signals::new();
    let s = &mut store;
    let a = Wire::new(s);
    let b = Wire::new(s);
    let c = Wire::new(s);
    let inner = Wire::new(s);
    let out = Wire::new(s);
    let mut and_3 = Complex::new("and_3");
    and_3.add_input(a);
    and_3.add_input(b);
    and_3.add_input(c);
    and_3.add_output(out);
    and_3.add_gate(Gate::and(s, a, b, inner));
    assert_eq!(and_3.passes(), 1);
    // The producer of `inner` is in the order already when the second gate
    // is looked at, so no waiting child writes `inner`.
    and_3.add_gate(Gate::and(s, inner, c, out));
    assert_eq!(and_3.passes(), 2);
    assert_eq!(and_3.order(), vec![0, 1]);
    assert_eq!(out_of(and_3.get_element(0)), inner);
    assert_eq!(out_of(and_3.get_element(1)), out);
}

#[test]
fn cross_wired_gates_make_two_passes() {
    let mut store = Signals::new();
    let s = &mut store;
    let set = Wire::new(s);
    let reset = Wire::new(s);
    let q = Wire::new(s);
    let qn = Wire::new(s);
    let mut latch = Complex::new("latch");
    latch.add_input(set);
    latch.add_input(reset);
    latch.add_output(q);
    latch.add_output(qn);
    latch.add_gate(Gate::nor(s, reset, qn, q));
    assert_eq!(latch.passes(), 2);
    latch.add_gate(Gate::nor(s, set, q, qn));
    assert_eq!(latch.passes(), 2);
    // Reached through the first one, the second one is evaluated first.
    assert_eq!(latch.order(), vec![1, 0]);
    assert_eq!(out_of(latch.get_element(0)), q);
    assert_eq!(out_of(latch.get_element(1)), qn);
}

#[test]
fn deriving_the_order_once_more_changes_nothing() {
    let mut store = Signals::new();
    let s = &mut store;
    let set = Wire::new(s);
    let reset = Wire::new(s);
    let q = Wire::new(s);
    let qn = Wire::new(s);
    let mut latch = Complex::new("latch");
    latch.add_input(set);
    latch.add_input(reset);
    latch.add_output(q);
    latch.add_output(qn);
    assert_eq!(latch.add_gate(Gate::nor(s, reset, qn, q)), 0);
    assert_eq!(latch.add_gate(Gate::nor(s, set, q, qn)), 1);
    let (order, passes) = (latch.order(), latch.passes());
    for _ in 0..3 {
        latch.compile();
        assert_eq!(latch.order(), order);
        assert_eq!(latch.passes(), passes);
        assert_eq!(out_of(latch.get_element(0)), q);
        assert_eq!(out_of(latch.get_element(1)), qn);
    }
}

#[test]
fn a_not_gate_has_one_input_line_and_costs_no_pass() {
    let mut store = Signals::new();
    let s = &mut store;
    let a = Wire::new(s);
    let out = Wire::new(s);
    assert_eq!(s.len(), 2);
    let gate = Gate::not(s, a, out);
    assert_eq!(s.len(), 2);
    assert_eq!(out.get(s), true);
    assert_eq!(gate.inputs(), vec![a]);
    let mut c = Complex::new("not");
    c.add_input(a);
    c.add_output(out);
    c.add_gate(gate);
    assert_eq!(c.passes(), 1);
    assert_eq!(c.get_element(0).input(), vec![a]);
    assert_eq!(c.get_element(0).output(), vec![out]);
    a.set(s, true);
    c.conduct(s);
    assert_eq!(out.get(s), false);
}

#[test]
fn the_second_slot_of_a_not_gate_is_never_looked_at() {
    let mut store = Signals::new();
    let s = &mut store;
    let a = Wire::new(s);
    let other = Wire::new(s);
    let out = Wire::new(s);
    let mut gate = Gate::not(s, a, out);
    gate.wire_in_2(other);
    other.set(s, true);
    gate.conduct(s);
    assert_eq!(out.get(s), true);
    assert_eq!(gate.inputs(), vec![a]);
    let and = Gate::and(s, a, other, out);
    assert_eq!(and.inputs(), vec![a, other]);
}

#[test]
fn latch_settles_in_one_evaluation_after_an_input_change() {
    let mut store = Signals::new();
    let s = &mut store;
    let set = Wire::new(s);
    let reset = Wire::new(s);
    let q = Wire::new(s);
    let qn = Wire::new(s);
    let mut latch = Complex::new("latch");
    latch.add_input(set);
    latch.add_input(reset);
    latch.add_output(q);
    latch.add_output(qn);
    latch.add_gate(Gate::nor(s, reset, qn, q));
    latch.add_gate(Gate::nor(s, set, q, qn));
    for (set_value, reset_value) in [(false, true), (true, false), (false, false), (false, true)] {
        set.set(s, set_value);
        reset.set(s, reset_value);
        latch.conduct(s);
        assert_eq!(q.get(s), !(reset.get(s) || qn.get(s)));
        assert_eq!(qn.get(s), !(set.get(s) || q.get(s)));
        let (q_before, qn_before) = (q.get(s), qn.get(s));
        latch.conduct(s);
        assert_eq!((q.get(s), qn.get(s)), (q_before, qn_before));
    }
}

#[test]
fn one_pass_settles_a_composite_without_feedback() {
    let mut store = Signals::new();
    let s = &mut store;
    let a = Wire::new(s);
    let b = Wire::new(s);
    let sum = Wire::new(s);
    let carry = Wire::new(s);
    let mut half = Complex::new("half_sum");
    half.add_input(a);
    half.add_input(b);
    half.add_output(sum);
    half.add_output(carry);
    half.add_gate(Gate::xor(s, a, b, sum));
    half.add_gate(Gate::and(s, a, b, carry));
    assert_eq!(half.passes(), 1);
    for (x, y) in [(false, false), (true, false), (false, true), (true, true)] {
        a.set(s, x);
        b.set(s, y);
        half.conduct(s);
        assert_eq!(sum.get(s), x != y);
        assert_eq!(carry.get(s), x && y);
        half.conduct(s);
        assert_eq!(sum.get(s), x != y);
        assert_eq!(carry.get(s), x && y);
    }
}

#[test]
fn half_adder_scenario() {
    let mut store = Signals::new();
    let s = &mut store;
    let a = Wire::new(s);
    let b = Wire::new(s);
    let sum = Wire::new(s);
    let carry = Wire::new(s);
    let mut half = Complex::new("half_sum");
    half.add_input(a);
    half.add_input(b);
    half.add_output(sum);
    half.add_output(carry);
    half.add_gate(Gate::xor(s, a, b, sum));
    half.add_gate(Gate::and(s, a, b, carry));
    a.set(s, true);
    b.set(s, false);
    half.conduct(s);
    assert_eq!((sum.get(s), carry.get(s)), (true, false));
    b.set(s, true);
    half.conduct(s);
    assert_eq!((sum.get(s), carry.get(s)), (false, true));
}

#[test]
fn latch_scenario() {
    let mut store = Signals::new();
    let s = &mut store;
    let set = Wire::new(s);
    let reset = Wire::new(s);
    let q = Wire::new(s);
    let qn = Wire::new(s);
    let mut latch = Complex::new("latch");
    latch.add_input(set);
    latch.add_input(reset);
    latch.add_output(q);
    latch.add_output(qn);
    latch.add_gate(Gate::nor(s, reset, qn, q));
    latch.add_gate(Gate::nor(s, set, q, qn));
    reset.set(s, true);
    latch.conduct(s);
    assert_eq!((q.get(s), qn.get(s)), (false, true));
    reset.set(s, false);
    set.set(s, true);
    latch.conduct(s);
    assert_eq!((q.get(s), qn.get(s)), (true, false));
    set.set(s, false);
    latch.conduct(s);
    assert_eq!((q.get(s), qn.get(s)), (true, false));
}

fn full_adder(s: &mut Signals) -> (Complex, [Wire; 3], [Wire; 2]) {
    let a = Wire::new(s);
    let b = Wire::new(s);
    let carry_in = Wire::new(s);
    let half = Wire::new(s);
    let first = Wire::new(s);
    let second = Wire::new(s);
    let sum = Wire::new(s);
    let carry = Wire::new(s);
    let mut c = Complex::new("sum");
    c.add_input(a);
    c.add_input(b);
    c.add_input(carry_in);
    c.add_output(sum);
    c.add_output(carry);
    // Added back to front, so that the derivation has to turn the order round.
    c.add_gate(Gate::or(s, first, second, carry));
    c.add_gate(Gate::and(s, half, carry_in, second));
    c.add_gate(Gate::xor(s, half, carry_in, sum));
    c.add_gate(Gate::and(s, a, b, first));
    c.add_gate(Gate::xor(s, a, b, half));
    (c, [a, b, carry_in], [sum, carry])
}

#[test]
fn evaluation_gives_the_same_for_the_same_inputs() {
    let mut one = Signals::new();
    let mut two = Signals::new();
    let (mut first, inputs, outputs) = full_adder(&mut one);
    let (mut second, _, _) = full_adder(&mut two);
    for bits in 0..8u8 {
        for (i, wire) in inputs.iter().enumerate() {
            wire.set(&mut one, bits >> i & 1 == 1);
            wire.set(&mut two, bits >> i & 1 == 1);
        }
        first.conduct(&mut one);
        second.conduct(&mut two);
        let ones = bits.count_ones();
        for store in [&mut one, &mut two] {
            assert_eq!(outputs[0].get(store), ones % 2 == 1);
            assert_eq!(outputs[1].get(store), ones >= 2);
        }
        let lines = one.len();
        first.conduct(&mut one);
        assert_eq!(outputs[0].get(&one), ones % 2 == 1);
        assert_eq!(outputs[1].get(&one), ones >= 2);
        assert_eq!(one.len(), lines);
    }
}

#[test]
fn the_derivation_turns_a_backward_order_round() {
    let mut store = Signals::new();
    let s = &mut store;
    let (mut c, _, outputs) = full_adder(s);
    // The children stay as they were added.
    let added: Vec<usize> = (0..5).map(|i| c.get_element(i).output()[0].id()).collect();
    assert_eq!(added, vec![7, 5, 6, 4, 3]);
    // The last child to be looked at finds its input written by a child
    // that is in the order already; that counts as a feedback edge.
    assert_eq!(c.passes(), 2);
    assert_eq!(c.order(), vec![3, 4, 1, 0, 2]);
    // Every child is evaluated behind the children that write its inputs.
    let mut written: Vec<Wire> = vec![c.get_in(0), c.get_in(1), c.get_in(2)];
    for at in c.order() {
        let element = c.get_element(at);
        for input in element.input() {
            assert!(written.contains(&input));
        }
        written.extend(element.output());
    }
    assert!(written.contains(&outputs[0]));
    assert!(written.contains(&outputs[1]));
}
