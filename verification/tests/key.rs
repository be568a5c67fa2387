use binarii::elements::complex::Complex;
use binarii::elements::key::Key;
use binarii::elements::wire::{Signals, Wire};
use binarii::elements::Conduct;

#[test]
pub fn key_test_and() {
    let mut store = Signals::new();
    let s = &mut store;
    let wire_1 = Wire::new(s);
    let wire_2 = Wire::new(s);
    let wire_out = Wire::new(s);
    let mut key = Key::new(wire_1.clone(), wire_2.clone(), wire_out.clone());
    assert_eq!(wire_out.get(s), false);
    wire_1.set(s, true);
    wire_2.set(s, true);
    assert_eq!(wire_out.get(s), false);
    key.conduct(s);
    assert_eq!(wire_out.get(s), true);
    wire_1.set(s, false);
    wire_2.set(s, true);
    key.conduct(s);
    assert_eq!(wire_out.get(s), false);
}

#[test]
pub fn key_test_and_3() {
    let mut store = Signals::new();
    let s = &mut store;
    let wire_1 = Wire::new(s);
    let wire_2 = Wire::new(s);
    let wire_3 = Wire::new(s);
    let wire_out = Wire::new(s);

    let mut and_3 = Complex::new("and_3");
    and_3.add_input(wire_1.clone());
    and_3.add_input(wire_2.clone());
    and_3.add_input(wire_3.clone());

    and_3.add_output(wire_out.clone());

    let inner = Wire::new(s);
    let first = Key::new(and_3.get_in(0), and_3.get_in(1), inner.clone());
    let second = Key::new(inner, and_3.get_in(2), and_3.get_out(0));
    assert_eq!(first.get_out(), inner);
    assert_eq!(second.get_out(), wire_out);

    assert_eq!(and_3.get_out(0).get(s), false);
}
