use binarii::elements::bus::{Bus, BusAccess};
use binarii::elements::complex::{Complex, Element};
use binarii::elements::gate::{Gate, Logic};
use binarii::elements::wire::{Signals, Wire};

#[test]
fn a_line_is_shown_as_a_digit() {
    let mut store = Signals::new();
    let s = &mut store;
    let a = Wire::new(s);
    assert_eq!(a.render(s), "0");
    a.set(s, true);
    assert_eq!(a.render(s), "1");
}

#[test]
fn a_bus_is_shown_as_its_digits() {
    let mut store = Signals::new();
    let s = &mut store;
    let bus = Bus::new(s, 8);
    bus.set(s, 0, 0b1010_0011u8);
    assert_eq!(bus.render(s), "10100011");
    assert_eq!(Bus::new(s, 0).render(s), "");
}

#[test]
fn a_composite_is_shown_with_its_name_and_boundary_values() {
    let mut store = Signals::new();
    let s = &mut store;
    let a = Wire::new(s);
    let b = Wire::new(s);
    let sum = Wire::new(s);
    let carry = Wire::new(s);
    let mut half = Complex::new("half_sum");
    assert_eq!(half.render(s), "half_sum()->()\n");
    half.add_input(a);
    half.add_input(b);
    half.add_output(sum);
    half.add_output(carry);
    a.set(s, true);
    half.add_gate(Gate::xor(s, a, b, sum));
    half.add_gate(Gate::and(s, a, b, carry));
    assert_eq!(half.render(s), "half_sum(1,0,)->(1,0,)\n");
    assert_eq!(half.get_element(0).render(s), "xor(1,0,)->(1,)\n");
    assert_eq!(half.get_element(1).render(s), "and(1,0,)->(0,)\n");
    assert_eq!(Element::Complex(half).render(s), "half_sum(1,0,)->(1,0,)\n");
    let out = Wire::new(s);
    assert_eq!(Gate::not(s, a, out).render(s), "not(1,)->(0,)\n");
}

#[test]
fn each_function_has_its_name() {
    assert_eq!(Logic::And.name(), "and");
    assert_eq!(Logic::Or.name(), "or");
    assert_eq!(Logic::Xor.name(), "xor");
    assert_eq!(Logic::Not.name(), "not");
    assert_eq!(Logic::Nor.name(), "nor");
    assert_eq!(Logic::Nand.name(), "nand");
}

#[test]
fn a_dump_shows_what_is_inside() {
    let mut store = Signals::new();
    let s = &mut store;
    let a = Wire::new(s);
    let b = Wire::new(s);
    let sum = Wire::new(s);
    let carry = Wire::new(s);
    let mut half = Complex::new("half_sum");
    half.add_input(a);
    half.add_input(b);
    half.add_output(sum);
    half.add_output(carry);
    a.set(s, true);
    half.add_gate(Gate::xor(s, a, b, sum));
    half.add_gate(Gate::and(s, a, b, carry));
    assert_eq!(
        half.dump(s),
        "[\nxor(1,0,)->(1,)\nand(1,0,)->(0,)\n]\nIN:0x0\nIN:0x1\nOUT:0x2\nOUT:0x3\nITERS:1\nhalf_sum(1,0,)->(1,0,)\n"
    );
    assert_eq!(Complex::new("none").dump(s), "[\n]\nITERS:1\nnone()->()\n");
}

#[test]
fn a_dump_writes_identities_in_hexadecimal_and_passes_in_decimal() {
    let mut store = Signals::new();
    let s = &mut store;
    let bus = Bus::new(s, 700);
    let mut c = Complex::new("c");
    c.add_input(bus.get_wire(9));
    c.add_input(bus.get_wire(10));
    c.add_input(bus.get_wire(16));
    c.add_input(bus.get_wire(255));
    c.add_output(bus.get_wire(256));
    c.add_output(bus.get_wire(0x2bc - 1));
    // Each of these gates has an input line that is not declared and that
    // nothing writes.
    for i in 0..11 {
        c.add_gate(Gate::nand(s, bus.get_wire(20), bus.get_wire(9), bus.get_wire(300 + i)));
    }
    assert_eq!(c.passes(), 12);
    let dump = c.dump(s);
    let tail = "]\nIN:0x9\nIN:0xa\nIN:0x10\nIN:0xff\nOUT:0x100\nOUT:0x2bb\nITERS:12\nc(0,0,0,0,)->(0,0,)\n";
    assert!(dump.ends_with(tail), "{}", dump);
    assert!(dump.starts_with("[\nnand(0,0,)->(1,)\n"), "{}", dump);
    assert_eq!(dump.len(), 2 + 11 * "nand(0,0,)->(1,)\n".len() + tail.len());
}
