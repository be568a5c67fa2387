use binarii::elements::oscillator::Oscillator;
use binarii::elements::wire::{Signals, Wire};
use binarii::elements::Conduct;

#[test]
fn oscillator_scenario() {
    let mut store = Signals::new();
    let s = &mut store;
    let out = Wire::new(s);
    let mut osc = Oscillator::new(s, out, 2);
    let mut seen = vec![out.get(s)];
    for _ in 0..5 {
        osc.conduct(s);
        seen.push(out.get(s));
    }
    assert_eq!(seen, vec![false, false, true, true, false, false]);
}

#[test]
fn half_period_zero_counts_as_one() {
    let mut store = Signals::new();
    let s = &mut store;
    let out = Wire::new(s);
    let mut osc = Oscillator::new(s, out, 0);
    osc.conduct(s);
    assert_eq!(out.get(s), true);
    osc.conduct(s);
    assert_eq!(out.get(s), false);
}

#[test]
fn a_new_oscillator_puts_false_on_its_line() {
    let mut store = Signals::new();
    let s = &mut store;
    let out = Wire::new(s);
    out.set(s, true);
    let osc = Oscillator::new(s, out, 3);
    assert_eq!(out.get(s), false);
    assert_eq!(osc.get_out(), out);
}

#[test]
fn a_rewired_oscillator_goes_on_counting() {
    let mut store = Signals::new();
    let s = &mut store;
    let out = Wire::new(s);
    let other = Wire::new(s);
    let mut osc = Oscillator::new(s, out, 3);
    osc.conduct(s);
    osc.conduct(s);
    osc.wire_out(other);
    assert_eq!(osc.get_out(), other);
    osc.conduct(s);
    assert_eq!(other.get(s), true);
    assert_eq!(out.get(s), false);
    osc.conduct(s);
    osc.conduct(s);
    assert_eq!(other.get(s), true);
    osc.conduct(s);
    assert_eq!(other.get(s), false);
}

#[test]
fn a_copy_of_a_clock_counts_for_itself() {
    let mut store = Signals::new();
    let s = &mut store;
    let out = Wire::new(s);
    let mut osc = Oscillator::new(s, out, 2);
    osc.conduct(s);
    let mut copy = osc.clone();
    assert_eq!(copy.get_out(), out);
    // Each of them has seen one evaluation; the next one flips the line.
    copy.conduct(s);
    assert_eq!(out.get(s), true);
    osc.conduct(s);
    assert_eq!(out.get(s), false);
}
