use binarii::elements::bus::{Bus, BusAccess};
use binarii::elements::wire::Signals;

#[test]
pub fn bus_test_set_u8() {
    let mut store = Signals::new();
    let s = &mut store;
    let bus = Bus::new(s, 8);
    let b: u8 = bus.get(s, 0);
    assert_eq!(b, 0);
    bus.set(s, 0, 0b10101010);
    let b: u8 = bus.get(s, 0);
    assert_eq!(b, 0b10101010);
    let val: bool = bus.get(s, 0);
    assert_eq!(val, true);
    let val: bool = bus.get(s, 1);
    assert_eq!(val, false);
    let val: bool = bus.get(s, 2);
    assert_eq!(val, true);
    let val: bool = bus.get(s, 3);
    assert_eq!(val, false);
    let val: bool = bus.get(s, 4);
    assert_eq!(val, true);
    let val: bool = bus.get(s, 5);
    assert_eq!(val, false);
    let val: bool = bus.get(s, 6);
    assert_eq!(val, true);
    let val: bool = bus.get(s, 7);
    assert_eq!(val, false);
}
