use binarii::elements::bus::{Bus, BusAccess};
use binarii::elements::complex::Complex;
use binarii::elements::gate::Gate;
use binarii::elements::wire::{Signals, Wire};
use binarii::elements::Conduct;

pub fn and(s: &mut Signals) -> Complex {
    let mut complex = Complex::new("and");
    let wire_1 = Wire::new(s);
    let wire_2 = Wire::new(s);
    let wire_out = Wire::new(s);
    let key = Gate::and(s, wire_1.clone(), wire_2.clone(), wire_out.clone());
    complex.add_input(wire_1);
    complex.add_input(wire_2);
    complex.add_output(wire_out);
    complex.add_gate(key);
    complex
}

pub fn or(s: &mut Signals) -> Complex {
    let mut complex = Complex::new("or");
    let wire_1 = Wire::new(s);
    let wire_2 = Wire::new(s);
    let wire_out = Wire::new(s);
    let key = Gate::or(s, wire_1.clone(), wire_2.clone(), wire_out.clone());
    complex.add_input(wire_1);
    complex.add_input(wire_2);
    complex.add_output(wire_out);
    complex.add_gate(key);
    complex
}

pub fn not(s: &mut Signals) -> Complex {
    let mut complex = Complex::new("not");
    let wire_1 = Wire::new(s);
    let wire_out = Wire::new(s);
    let key = Gate::not(s, wire_1.clone(), wire_out.clone());
    complex.add_input(wire_1);
    complex.add_output(wire_out);
    complex.add_gate(key);
    complex
}

pub fn rs_flip_flop(s: &mut Signals) -> Complex {
    let mut complex = Complex::new("rs_flip_flop");
    let wire_r = Wire::new(s);
    let wire_s = Wire::new(s);
    let wire_q = Wire::new(s);
    let wire_qn = Wire::new(s);

    complex.add_input(wire_s.clone());
    complex.add_input(wire_r.clone());
    complex.add_output(wire_q.clone());
    complex.add_output(wire_qn.clone());

    complex.add_gate(Gate::nor(s, wire_r.clone(), wire_qn.clone(), wire_q.clone()));
    complex.add_gate(Gate::nor(s, wire_s.clone(), wire_q.clone(), wire_qn.clone()));

    complex
}

#[test]
pub fn complex_test_rs_flip_flop() {
    let mut store = Signals::new();
    let s = &mut store;
    let mut rs = rs_flip_flop(s);

    let set = rs.get_in(0);
    let reset = rs.get_in(1);
    let q = rs.get_out(0);
    let qn = rs.get_out(1);
    reset.set(s, true);
    rs.conduct(s);
    assert_eq!(q.get(s), false);
    assert_eq!(qn.get(s), true);

    reset.set(s, false);
    set.set(s, true);
    rs.conduct(s);
    assert_eq!(q.get(s), true);
    assert_eq!(qn.get(s), false);

    set.set(s, false);
    rs.conduct(s);
    assert_eq!(q.get(s), true);
    assert_eq!(qn.get(s), false);

    reset.set(s, true);
    rs.conduct(s);
    assert_eq!(q.get(s), false);
    assert_eq!(qn.get(s), true);

    reset.set(s, false);
    rs.conduct(s);
    assert_eq!(q.get(s), false);
    assert_eq!(qn.get(s), true);
}

#[test]
pub fn complex_test_not() {
    let mut store = Signals::new();
    let s = &mut store;
    let mut complex = not(s);
    let in_1 = complex.get_in(0);
    let out = complex.get_out(0);
    assert_eq!(out.get(s), true);
    in_1.set(s, false);
    complex.conduct(s);
    assert_eq!(out.get(s), true);
}

#[test]
pub fn complex_test_or() {
    let mut store = Signals::new();
    let s = &mut store;
    let mut complex = or(s);
    assert_eq!(complex.get_out(0).get(s), false);
    complex.get_in(0).set(s, true);
    complex.conduct(s);
    assert_eq!(complex.get_out(0).get(s), true);
    complex.get_in(1).set(s, true);
    complex.conduct(s);
    assert_eq!(complex.get_out(0).get(s), true);

    complex.get_in(0).set(s, false);
    complex.conduct(s);
    assert_eq!(complex.get_out(0).get(s), true);
    complex.get_in(1).set(s, false);
    complex.conduct(s);
    assert_eq!(complex.get_out(0).get(s), false);
}

#[test]
pub fn complex_test_and_2() {
    let mut store = Signals::new();
    let s = &mut store;
    let mut complex = and(s);
    let wire_1 = complex.get_in(0);
    let wire_2 = complex.get_in(1);
    let wire_out = complex.get_out(0);
    wire_1.set(s, true);
    wire_2.set(s, true);
    complex.conduct(s);
    assert_eq!(wire_out.get(s), true);

    wire_1.set(s, false);
    wire_2.set(s, true);
    complex.conduct(s);
    assert_eq!(wire_out.get(s), false);
}

#[test]
pub fn complex_test_and_3() {
    let mut store = Signals::new();
    let s = &mut store;
    let wire_1 = Wire::new(s);
    let wire_2 = Wire::new(s);
    let wire_3 = Wire::new(s);
    let wire_out = Wire::new(s);

    let mut and_3 = Complex::new("and_3");
    and_3.add_input(wire_1.clone());
    and_3.add_input(wire_2.clone());
    and_3.add_input(wire_3.clone());

    and_3.add_output(wire_out.clone());

    let inner = Wire::new(s);
    and_3.add_gate(Gate::and(s, and_3.get_in(0), and_3.get_in(1), inner.clone()));
    and_3.add_gate(Gate::and(s, inner, and_3.get_in(2), and_3.get_out(0)));
    and_3.conduct(s);
    assert_eq!(and_3.get_out(0).get(s), false);

    wire_1.set(s, true);
    and_3.conduct(s);
    assert_eq!(and_3.get_out(0).get(s), false);
    wire_2.set(s, true);
    and_3.conduct(s);
    assert_eq!(and_3.get_out(0).get(s), false);
    wire_3.set(s, true);
    and_3.conduct(s);
    assert_eq!(and_3.get_out(0).get(s), true);
    wire_1.set(s, false);
    and_3.conduct(s);
    assert_eq!(and_3.get_out(0).get(s), false);
}

pub fn half_sum(s: &mut Signals) -> Complex {
    let mut complex = Complex::new("half_sum");
    let wire_a = Wire::new(s);
    let wire_b = Wire::new(s);
    let wire_s = Wire::new(s);
    let wire_c = Wire::new(s);

    complex.add_input(wire_a.clone());
    complex.add_input(wire_b.clone());
    complex.add_output(wire_s.clone());
    complex.add_output(wire_c.clone());

    complex.add_gate(Gate::xor(s, wire_a.clone(), wire_b.clone(), wire_s.clone()));
    complex.add_gate(Gate::and(s, wire_a.clone(), wire_b.clone(), wire_c.clone()));

    complex
}

pub fn sum(s: &mut Signals) -> Complex {
    let mut complex = Complex::new("sum");
    let wire_a = Wire::new(s);
    let wire_b = Wire::new(s);
    let wire_p = Wire::new(s);

    complex.add_input(wire_a.clone());
    complex.add_input(wire_b.clone());
    complex.add_input(wire_p.clone());

    let wire_s = Wire::new(s);
    let wire_c = Wire::new(s);
    complex.add_output(wire_s.clone());
    complex.add_output(wire_c.clone());

    let mut half_sum_1 = half_sum(s);
    half_sum_1.set_in(0, wire_a.clone());
    half_sum_1.set_in(1, wire_b.clone());
    let wire_s_1 = half_sum_1.get_out(0);
    let wire_c_1 = half_sum_1.get_out(1);

    let mut half_sum_2 = half_sum(s);
    half_sum_2.set_in(0, wire_s_1.clone());
    half_sum_2.set_in(1, wire_p.clone());

    half_sum_2.set_out(0, wire_s.clone());

    let wire_c_2 = half_sum_2.get_out(1);

    complex.add_gate(Gate::or(s, wire_c_1, wire_c_2, wire_c.clone()));
    complex.add_complex(half_sum_1);
    complex.add_complex(half_sum_2);
    complex
}

#[test]
pub fn complex_test_half_sum() {
    let mut store = Signals::new();
    let s = &mut store;
    let mut complex = half_sum(s);
    complex.conduct(s);
    let wire_a = complex.get_in(0);
    let wire_b = complex.get_in(1);

    let wire_s = complex.get_out(0);
    let wire_c = complex.get_out(1);
    assert_eq!(wire_s.get(s), false);
    assert_eq!(wire_c.get(s), false);
    complex.conduct(s);

    wire_a.set(s, true);
    wire_b.set(s, false);
    complex.conduct(s);
    assert_eq!(wire_s.get(s), true);
    assert_eq!(wire_c.get(s), false);

    wire_b.set(s, true);
    complex.conduct(s);
    assert_eq!(wire_s.get(s), false);
    assert_eq!(wire_c.get(s), true);
}

#[test]
pub fn complex_test_sum() {
    let mut store = Signals::new();
    let s = &mut store;
    let mut sum = sum(s);
    let wire_a = sum.get_in(0);
    let wire_b = sum.get_in(1);
    let wire_p = sum.get_in(2);

    let wire_s = sum.get_out(0);
    let wire_c = sum.get_out(1);
    sum.conduct(s);
    assert_eq!(wire_s.get(s), false);
    assert_eq!(wire_c.get(s), false);

    wire_a.set(s, true);
    sum.conduct(s);
    assert_eq!(wire_s.get(s), true);
    assert_eq!(wire_c.get(s), false);

    wire_b.set(s, true);
    sum.conduct(s);
    assert_eq!(wire_s.get(s), false);
    assert_eq!(wire_c.get(s), true);

    wire_p.set(s, true);
    sum.conduct(s);
    assert_eq!(wire_s.get(s), true);
    assert_eq!(wire_c.get(s), true);
}

pub fn byte_sum(s: &mut Signals) -> Complex {
    let mut sum_block = Complex::new("byte_sum");
    let a = Bus::new(s, 8);
    let b = Bus::new(s, 8);
    let res = Bus::new(s, 9);

    let mut carry = Wire::new(s);
    sum_block.add_input_bus(a.clone());
    sum_block.add_input_bus(b.clone());
    sum_block.add_input(carry.clone());
    sum_block.add_output_bus(res.clone());

    for i in (0..8).rev() {
        let mut bit = sum(s);
        bit.set_in(0, a.get_wire(i));
        bit.set_in(1, b.get_wire(i));
        bit.set_in(2, carry);
        bit.set_out(0, res.get_wire(i));
        carry = bit.get_out(1);
        sum_block.add_complex(bit);
    }

    sum_block.set_out(8, carry.clone());
    sum_block.conduct(s);
    sum_block
}

#[test]
pub fn complex_test_byte_sum() {
    let mut store = Signals::new();
    let s = &mut store;
    let mut sum = byte_sum(s);
    let a = sum.get_in_bus(0, 8);
    let b = sum.get_in_bus(8, 8);
    let carry_in = sum.get_in(16);
    let res = sum.get_out_bus(0, 8);
    let carry_out = sum.get_out(8);

    for i in 0..255u8 {
        for j in 0..255u8 {
            a.set(s, 0, i);
            b.set(s, 0, j);
            carry_in.set(s, false);
            sum.conduct(s);
            let res: u8 = res.get(s, 0);
            let carry = carry_out.get(s);
            let (expected_sum, expected_carry) = i.overflowing_add(j);
            assert_eq!(res, expected_sum);
            assert_eq!(carry, expected_carry);
        }
    }
}

pub fn d_flip_flop(s: &mut Signals) -> Complex {
    let mut flip_flop = Complex::new("d_flip_flop");
    let d = Wire::new(s);
    let clk = Wire::new(s);

    flip_flop.add_input(d.clone());
    flip_flop.add_input(clk.clone());

    let reset = Wire::new(s);
    flip_flop.add_gate(Gate::and(s, clk.clone(), d.clone(), reset.clone()));

    let not_data = Wire::new(s);
    flip_flop.add_gate(Gate::not(s, d.clone(), not_data.clone()));

    let set = Wire::new(s);
    flip_flop.add_gate(Gate::and(s, clk.clone(), not_data.clone(), set.clone()));

    let mut rs = rs_flip_flop(s);
    rs.set_in(1, set.clone());
    rs.set_in(0, reset.clone());

    let q = rs.get_out(0);
    let nq = rs.get_out(1);
    flip_flop.add_output(q.clone());
    flip_flop.add_output(nq.clone());
    flip_flop.add_complex(rs);
    flip_flop
}

#[test]
pub fn complex_test_d_flip_flop() {
    let mut store = Signals::new();
    let s = &mut store;
    let mut flip_flop = d_flip_flop(s);
    let d = flip_flop.get_in(0);
    let clk = flip_flop.get_in(1);
    let q = flip_flop.get_out(0);
    let nq = flip_flop.get_out(1);
    clk.set(s, true);
    flip_flop.conduct(s);
    clk.set(s, false);
    flip_flop.conduct(s);
    println!("{}", flip_flop.render(s));
    assert_eq!(q.get(s), false);
    assert_eq!(nq.get(s), true);

    d.set(s, true);
    flip_flop.conduct(s);
    assert_eq!(q.get(s), false);
    assert_eq!(nq.get(s), true);

    d.set(s, false);
    flip_flop.conduct(s);
    assert_eq!(q.get(s), false);
    assert_eq!(nq.get(s), true);
    d.set(s, true);
    clk.set(s, true);
    flip_flop.conduct(s);
    assert_eq!(q.get(s), true);
    assert_eq!(nq.get(s), false);
    clk.set(s, false);
    d.set(s, false);
    flip_flop.conduct(s);
    assert_eq!(q.get(s), true);
    assert_eq!(nq.get(s), false);
    clk.set(s, true);
    flip_flop.conduct(s);
    assert_eq!(q.get(s), false);
    assert_eq!(nq.get(s), true);
}

pub fn byte_flip_flop(s: &mut Signals) -> Complex {
    let mut flip_flop = Complex::new("byte_flip_flop");

    let d_in = Bus::new(s, 8);
    let clk = Wire::new(s);

    let mut q_out = Bus::new(s, 8);
    let clk_out = clk.clone();

    for i in 0..8 {
        let mut dff = d_flip_flop(s);
        dff.set_in(0, d_in.get_wire(i));
        dff.set_in(1, clk.clone());
        q_out.set_wire(i, dff.get_out(0));
        flip_flop.add_complex(dff);
    }
    flip_flop.add_input_bus(d_in);
    flip_flop.add_input(clk);
    flip_flop.add_output_bus(q_out);
    flip_flop.add_output(clk_out);

    flip_flop
}

#[test]
pub fn complex_test_byte_flip_flop() {
    let mut store = Signals::new();
    let s = &mut store;
    let mut flip_flop = byte_flip_flop(s);
    let d_in = flip_flop.get_in_bus(0, 8);
    let clk = flip_flop.get_in(8);

    let q_out = flip_flop.get_out_bus(0, 8);
    let clk_out = flip_flop.get_out(8);
    clk.set(s, true);
    flip_flop.conduct(s);
    clk.set(s, false);
    flip_flop.conduct(s);

    let data: u8 = q_out.get(s, 0);
    assert_eq!(data, 0);
    d_in.set(s, 0, 0b11111111);
    flip_flop.conduct(s);
    let data: u8 = q_out.get(s, 0);
    assert_eq!(data, 0);

    clk.set(s, true);
    flip_flop.conduct(s);
    let data: u8 = q_out.get(s, 0);
    assert_eq!(data, 0b11111111);

    clk.set(s, false);
    flip_flop.conduct(s);
    let data: u8 = q_out.get(s, 0);
    assert_eq!(data, 0b11111111);

    d_in.set(s, 0, 0b10101010);
    flip_flop.conduct(s);
    let data: u8 = q_out.get(s, 0);
    assert_eq!(data, 0b11111111);

    clk.set(s, true);
    flip_flop.conduct(s);
    clk.set(s, false);
    flip_flop.conduct(s);
    let data: u8 = q_out.get(s, 0);
    assert_eq!(data, 0b10101010);
}
