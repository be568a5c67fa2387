use binarii::elements::bus::Bus;
use binarii::elements::complex::{Complex, Element};
use binarii::elements::gate::{Gate, Logic};
use binarii::elements::wire::{Signals, Wire};
use binarii::elements::Conduct;

#[test]
fn lines_are_told_apart_by_identity_not_by_value() {
    let mut store = Signals::new();
    let s = &mut store;
    let one = Wire::new(s);
    let other = Wire::new(s);
    let out = Wire::new(s);
    assert_eq!(one.get(s), false);
    assert_eq!(other.get(s), false);
    assert_ne!(one, other);
    assert_ne!(one.id(), other.id());
    assert_eq!(one, one.clone());

    let mut gate = Gate::or(s, one, one, out);
    other.set(s, true);
    gate.conduct(s);
    assert_eq!(out.get(s), false);
    one.set(s, true);
    gate.conduct(s);
    assert_eq!(out.get(s), true);
}

#[test]
fn writing_a_line_leaves_the_others() {
    let mut store = Signals::new();
    let s = &mut store;
    let a = Wire::new(s);
    let b = Wire::new(s);
    let c = Wire::new(s);
    b.set(s, true);
    assert_eq!((a.get(s), b.get(s), c.get(s)), (false, true, false));
    assert_eq!((a.id(), b.id(), c.id()), (0, 1, 2));
}

#[test]
fn gates_compute_their_functions() {
    let table = [(false, false), (false, true), (true, false), (true, true)];
    for (x, y) in table {
        assert_eq!(Logic::And.compute(x, y), x && y);
        assert_eq!(Logic::Or.compute(x, y), x || y);
        assert_eq!(Logic::Xor.compute(x, y), x != y);
        assert_eq!(Logic::Not.compute(x, y), !x);
        assert_eq!(Logic::Nor.compute(x, y), !(x || y));
        assert_eq!(Logic::Nand.compute(x, y), !(x && y));
    }
}

#[test]
fn a_gate_is_evaluated_when_it_is_made() {
    let mut store = Signals::new();
    let s = &mut store;
    let a = Wire::new(s);
    let b = Wire::new(s);
    let out = Wire::new(s);
    let nand = Gate::nand(s, a, b, out);
    assert_eq!(out.get(s), true);
    assert_eq!(nand.logic(), Logic::Nand);
    let nor_out = Wire::new(s);
    Gate::nor(s, a, b, nor_out);
    assert_eq!(nor_out.get(s), true);
    let xor_out = Wire::new(s);
    a.set(s, true);
    Gate::xor(s, a, b, xor_out);
    assert_eq!(xor_out.get(s), true);
}

#[test]
fn a_gate_can_be_rewired() {
    let mut store = Signals::new();
    let s = &mut store;
    let a = Wire::new(s);
    let b = Wire::new(s);
    let c = Wire::new(s);
    let out = Wire::new(s);
    let other_out = Wire::new(s);
    let mut gate = Gate::and(s, a, b, out);
    a.set(s, true);
    c.set(s, true);
    gate.wire_in_2(c);
    assert_eq!(gate.get_in_1(), a);
    assert_eq!(gate.get_in_2(), c);
    gate.conduct(s);
    assert_eq!(out.get(s), true);
    gate.wire_in_1(b);
    gate.wire_out(other_out);
    assert_eq!(gate.get_out(), other_out);
    gate.conduct(s);
    assert_eq!(other_out.get(s), false);
    assert_eq!(out.get(s), true);
    assert_eq!(gate.logic(), Logic::And);
}

fn buffer(s: &mut Signals, input: Wire, output: Wire) -> Complex {
    let mut c = Complex::new("buffer");
    c.add_input(input);
    c.add_output(output);
    c.add_gate(Gate::or(s, input, input, output));
    c
}

#[test]
fn replacing_an_input_reaches_gates_in_nested_composites() {
    let mut store = Signals::new();
    let s = &mut store;
    let old = Wire::new(s);
    let new = Wire::new(s);
    let out = Wire::new(s);

    let innermost = buffer(s, old, out);
    let mut middle = Complex::new("middle");
    middle.add_input(old);
    middle.add_output(out);
    middle.add_complex(innermost);
    let mut outer = Complex::new("outer");
    outer.add_input(old);
    outer.add_output(out);
    outer.add_complex(middle);

    old.set(s, true);
    outer.conduct(s);
    assert_eq!(out.get(s), true);

    outer.set_in(0, new);
    assert_eq!(outer.get_in(0), new);
    outer.conduct(s);
    assert_eq!(out.get(s), false);
    old.set(s, false);
    new.set(s, true);
    outer.conduct(s);
    assert_eq!(out.get(s), true);
    new.set(s, false);
    old.set(s, true);
    outer.conduct(s);
    assert_eq!(out.get(s), false);

    match outer.get_element(0) {
        Element::Complex(middle) => {
            assert_eq!(middle.get_in(0), new);
            match middle.get_element(0) {
                Element::Complex(innermost) => {
                    assert_eq!(innermost.get_in(0), new);
                    assert_eq!(innermost.get_element(0).input(), vec![new, new]);
                },
                Element::Gate(_) => panic!("a composite was added here"),
            }
        },
        Element::Gate(_) => panic!("a composite was added here"),
    }
}

#[test]
fn replacing_an_input_passes_by_a_composite_that_does_not_declare_it() {
    let mut store = Signals::new();
    let s = &mut store;
    let old = Wire::new(s);
    let new = Wire::new(s);
    let out = Wire::new(s);
    // The nested composite reads `old` but declares no input.
    let mut hidden = Complex::new("hidden");
    hidden.add_output(out);
    hidden.add_gate(Gate::or(s, old, old, out));
    let mut outer = Complex::new("outer");
    outer.add_input(old);
    outer.add_output(out);
    outer.add_complex(hidden);
    outer.set_in(0, new);
    new.set(s, true);
    outer.conduct(s);
    assert_eq!(out.get(s), false);
    old.set(s, true);
    outer.conduct(s);
    assert_eq!(out.get(s), true);
}

#[test]
fn replacing_an_output_reaches_the_gate_that_writes_it() {
    let mut store = Signals::new();
    let s = &mut store;
    let input = Wire::new(s);
    let old = Wire::new(s);
    let new = Wire::new(s);
    let inner = buffer(s, input, old);
    let mut outer = Complex::new("outer");
    outer.add_input(input);
    outer.add_output(old);
    outer.add_complex(inner);
    outer.set_out(0, new);
    assert_eq!(outer.get_out(0), new);
    input.set(s, true);
    outer.conduct(s);
    assert_eq!(new.get(s), true);
    assert_eq!(old.get(s), false);
}

#[test]
fn replacing_one_slot_leaves_other_slots_that_hold_the_same_line() {
    let mut store = Signals::new();
    let s = &mut store;
    let old = Wire::new(s);
    let new = Wire::new(s);
    let mut c = Complex::new("twice");
    c.add_input(old);
    c.add_input(old);
    c.set_in(1, new);
    assert_eq!(c.get_in(0), old);
    assert_eq!(c.get_in(1), new);
}

#[test]
fn boundary_lines_are_found_by_position() {
    let mut store = Signals::new();
    let s = &mut store;
    let bus = Bus::new(s, 3);
    let extra = Wire::new(s);
    let mut c = Complex::new("c");
    assert_eq!(c.add_input(extra), 0);
    c.add_input_bus(bus.clone());
    assert_eq!(c.add_output(extra), 0);
    c.add_output_bus(bus.clone());
    assert_eq!(c.add_output(extra), 4);
    assert_eq!(c.get_in(0), extra);
    assert_eq!(c.get_in(1), bus.get_wire(0));
    assert_eq!(c.get_in(3), bus.get_wire(2));
    assert_eq!(c.get_out(4), extra);
    assert_eq!(c.get_in_bus(1, 3).wires(), bus.wires());
    assert_eq!(c.get_out_bus(2, 2).wires(), &bus.wires()[1..]);
    assert_eq!(c.get_in_bus(4, 0).size(), 0);
}

#[test]
fn a_child_changed_in_place_is_evaluated_as_changed() {
    let mut store = Signals::new();
    let s = &mut store;
    let a = Wire::new(s);
    let b = Wire::new(s);
    let out = Wire::new(s);
    let mut c = Complex::new("c");
    c.add_input(a);
    c.add_input(b);
    c.add_output(out);
    c.add_gate(Gate::and(s, a, a, out));
    a.set(s, true);
    c.conduct(s);
    assert_eq!(out.get(s), true);
    match c.get_element(0) {
        Element::Gate(gate) => gate.wire_in_2(b),
        Element::Complex(_) => panic!("a gate was added here"),
    }
    c.conduct(s);
    assert_eq!(out.get(s), false);
    assert_eq!(c.get_element(0).input(), vec![a, b]);
    assert_eq!(c.get_element(0).output(), vec![out]);
}
