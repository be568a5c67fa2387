use binarii::elements::oscillator::Oscillator;
use binarii::elements::wire::{Signals, Wire};
use binarii::elements::Conduct;

#[test]
pub fn oscillator_test_oscillator() {
    let mut store = Signals::new();
    let s = &mut store;
    let wire_out = Wire::new(s);
    let mut osc = Oscillator::new(s, wire_out.clone(), 2);
    assert_eq!(wire_out.get(s), false);
    osc.conduct(s);
    assert_eq!(wire_out.get(s), false);
    osc.conduct(s);
    assert_eq!(wire_out.get(s), true);
    osc.conduct(s);
    assert_eq!(wire_out.get(s), true);
    osc.conduct(s);
    assert_eq!(wire_out.get(s), false);
    osc.conduct(s);
    assert_eq!(wire_out.get(s), false);
    osc.conduct(s);
    assert_eq!(wire_out.get(s), true);
}

#[test]
pub fn oscillator_test_oscillator_1() {
    let mut store = Signals::new();
    let s = &mut store;
    let wire_out = Wire::new(s);
    let mut osc = Oscillator::new(s, wire_out.clone(), 1);
    assert_eq!(wire_out.get(s), false);
    osc.conduct(s);
    assert_eq!(wire_out.get(s), true);
    osc.conduct(s);
    assert_eq!(wire_out.get(s), false);
    osc.conduct(s);
    assert_eq!(wire_out.get(s), true);
    osc.conduct(s);
    assert_eq!(wire_out.get(s), false);
    osc.conduct(s);
    assert_eq!(wire_out.get(s), true);
    osc.conduct(s);
    assert_eq!(wire_out.get(s), false);
}
