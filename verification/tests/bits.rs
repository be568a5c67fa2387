use binarii::elements::bus::{Bus, BusAccess};
use binarii::elements::wire::{Signals, Wire};

#[test]
fn every_byte_is_read_back_as_written() {
    let mut store = Signals::new();
    let s = &mut store;
    let bus = Bus::new(s, 8);
    for b in 0..=255u8 {
        bus.set(s, 0, b);
        let back: u8 = bus.get(s, 0);
        assert_eq!(back, b);
        let first: bool = bus.get(s, 0);
        assert_eq!(first, b >= 128);
        let last: bool = bus.get(s, 7);
        assert_eq!(last, b % 2 == 1);
    }
}

#[test]
fn a_byte_is_packed_most_significant_bit_first() {
    let mut store = Signals::new();
    let s = &mut store;
    let bus = Bus::new(s, 8);
    bus.set(s, 0, true);
    let b: u8 = bus.get(s, 0);
    assert_eq!(b, 128);
    bus.set(s, 0, false);
    bus.set(s, 7, true);
    let b: u8 = bus.get(s, 0);
    assert_eq!(b, 1);
    bus.set(s, 0, 0b0100_0010u8);
    let bits: Vec<bool> = (0..8).map(|i| bus.get(s, i)).collect();
    assert_eq!(bits, vec![false, true, false, false, false, false, true, false]);
}

#[test]
fn positions_beyond_the_end_are_passed_over() {
    let mut store = Signals::new();
    let s = &mut store;
    let bus = Bus::new(s, 3);
    // Only the three most significant bits find a line.
    bus.set(s, 0, 0b1011_1111u8);
    let bits: Vec<bool> = (0..3).map(|i| bus.get(s, i)).collect();
    assert_eq!(bits, vec![true, false, true]);
    // Reading gives these three bits their places; the rest reads as zero.
    let b: u8 = bus.get(s, 0);
    assert_eq!(b, 0b1010_0000);
    let b: u8 = bus.get(s, 2);
    assert_eq!(b, 0b1000_0000);
    let b: u8 = bus.get(s, 3);
    assert_eq!(b, 0);
    let b: u8 = bus.get(s, usize::MAX);
    assert_eq!(b, 0);
    bus.set(s, 3, 0xffu8);
    bus.set(s, usize::MAX, 0xffu8);
    let b: u8 = bus.get(s, 0);
    assert_eq!(b, 0b1010_0000);
    assert_eq!(s.len(), 3);
}

#[test]
fn the_line_at_the_offset_is_worth_128_on_a_short_group() {
    let mut store = Signals::new();
    let s = &mut store;
    let bus = Bus::new(s, 4);
    bus.get_wire(0).set(s, true);
    let b: u8 = bus.get(s, 0);
    assert_eq!(b, 0x80);
    // What is written to a short group is read back as far as it found lines.
    for value in 0..=255u8 {
        bus.set(s, 0, value);
        let back: u8 = bus.get(s, 0);
        assert_eq!(back, value & 0xf0);
    }
}

#[test]
fn a_byte_at_an_offset_uses_the_lines_from_there_on() {
    let mut store = Signals::new();
    let s = &mut store;
    let bus = Bus::new(s, 12);
    bus.set(s, 4, 0b1100_0001u8);
    let b: u8 = bus.get(s, 4);
    assert_eq!(b, 0b1100_0001);
    let b: u8 = bus.get(s, 0);
    assert_eq!(b, 0b0000_1100);
    let b: u8 = bus.get(s, 8);
    assert_eq!(b, 0b0001_0000);
}

#[test]
fn bus_new_makes_new_lines_that_hold_false() {
    let mut store = Signals::new();
    let s = &mut store;
    let before = Wire::new(s);
    before.set(s, true);
    let bus = Bus::new(s, 4);
    assert_eq!(bus.size(), 4);
    assert_eq!(s.len(), 5);
    for i in 0..4 {
        assert_eq!(bus.get_wire(i).id(), i + 1);
        assert_eq!(bus.get_wire(i).get(s), false);
    }
    assert_eq!(before.get(s), true);
    assert_eq!(Bus::new(s, 0).size(), 0);
}

#[test]
fn bus_lines_can_be_set_added_and_removed() {
    let mut store = Signals::new();
    let s = &mut store;
    let a = Wire::new(s);
    let b = Wire::new(s);
    let c = Wire::new(s);
    let mut bus = Bus::with_wires(vec![a, b]);
    assert_eq!(bus.wires(), &[a, b]);
    bus.add_wire(c);
    assert_eq!(bus.wires(), &[a, b, c]);
    bus.set_wire(0, c);
    assert_eq!(bus.wires(), &[c, b, c]);
    assert_eq!(bus.remove_wire(1), b);
    assert_eq!(bus.wires(), &[c, c]);
    assert_eq!(bus.size(), 2);
}

#[test]
fn partition_takes_the_named_lines_in_the_order_given() {
    let mut store = Signals::new();
    let s = &mut store;
    let mut bus = Bus::new(s, 6);
    let all: Vec<Wire> = bus.wires().to_vec();
    let taken = bus.partition(&vec![4, 1, 9, 4]);
    assert_eq!(taken.wires(), &[all[4], all[1], all[4]]);
    assert_eq!(bus.wires(), &[all[0], all[2], all[3], all[5]]);
    let none = bus.partition(&vec![]);
    assert_eq!(none.size(), 0);
    assert_eq!(bus.size(), 4);
    let rest = bus.partition(&vec![3, 2, 1, 0]);
    assert_eq!(rest.wires(), &[all[5], all[3], all[2], all[0]]);
    assert_eq!(bus.size(), 0);
}
