use binarii::elements::gate::Gate;
use binarii::elements::wire::{Signals, Wire};
use binarii::elements::Conduct;

#[test]
pub fn gate_test_and() {
    let mut store = Signals::new();
    let s = &mut store;
    let wire_1 = Wire::new(s);
    let wire_2 = Wire::new(s);
    let wire_out = Wire::new(s);
    let mut key = Gate::and(s, wire_1.clone(), wire_2.clone(), wire_out.clone());
    assert_eq!(wire_out.get(s), false);
    wire_1.set(s, true);
    wire_2.set(s, true);
    assert_eq!(wire_out.get(s), false);
    key.conduct(s);
    assert_eq!(wire_out.get(s), true);
    wire_1.set(s, false);
    wire_2.set(s, true);
    key.conduct(s);
    assert_eq!(wire_out.get(s), false);
}

#[test]
pub fn gate_test_or() {
    let mut store = Signals::new();
    let s = &mut store;
    let wire_1 = Wire::new(s);
    let wire_2 = Wire::new(s);
    let wire_out = Wire::new(s);
    let mut key = Gate::or(s, wire_1.clone(), wire_2.clone(), wire_out.clone());
    assert_eq!(wire_out.get(s), false);
    wire_1.set(s, true);
    wire_2.set(s, true);
    key.conduct(s);
    assert_eq!(wire_out.get(s), true);
    wire_1.set(s, false);
    key.conduct(s);
    assert_eq!(wire_out.get(s), true);
    wire_2.set(s, false);
    key.conduct(s);
    assert_eq!(wire_out.get(s), false);
}

#[test]
pub fn gate_test_not() {
    let mut store = Signals::new();
    let s = &mut store;
    let in_1 = Wire::new(s);
    let out = Wire::new(s);
    let mut key = Gate::not(s, in_1.clone(), out.clone());
    assert_eq!(out.get(s), true);
    in_1.set(s, true);
    key.conduct(s);
    assert_eq!(out.get(s), false);
    in_1.set(s, false);
    key.conduct(s);
    assert_eq!(out.get(s), true);
}
