//! Elements as text, for diagnostics: the kind of an element, then what
//! its input lines hold, then what its output lines hold.

use vstd::prelude::*;
use vstd::string::StringExecFns;
use crate::elements::wire::{all_below, lines_of, Signals, Wire};

verus! {

/// The text for one value: `1` for `true`, `0` for `false`.
pub open spec fn bit_text(value: bool) -> Seq<char> {
    if value {
        "1"@
    } else {
        "0"@
    }
}

/// The values on the first `n` of `lines`, one after the other, without
/// anything between them.
pub open spec fn bits_text(lines: Seq<int>, values: Seq<bool>, n: nat) -> Seq<char>
    decreases n,
{
    if n == 0 || n > lines.len() {
        Seq::empty()
    } else {
        bits_text(lines, values, (n - 1) as nat) + bit_text(values[lines[n - 1]])
    }
}

/// The values on the first `n` of `lines`, each followed by a comma.
pub open spec fn values_text(lines: Seq<int>, values: Seq<bool>, n: nat) -> Seq<char>
    decreases n,
{
    if n == 0 || n > lines.len() {
        Seq::empty()
    } else {
        values_text(lines, values, (n - 1) as nat) + bit_text(values[lines[n - 1]]) + ","@
    }
}

/// The text for an element of the kind `name` with the given boundary:
/// `name(i,i,)->(o,)` and a line feed, with the value of each input line
/// for `i` and that of each output line for `o`.
pub open spec fn boundary_text(
    name: Seq<char>,
    inputs: Seq<int>,
    outputs: Seq<int>,
    values: Seq<bool>,
) -> Seq<char> {
    name + "("@ + values_text(inputs, values, inputs.len()) + ")->("@ + values_text(
        outputs,
        values,
        outputs.len(),
    ) + ")\n"@
}

impl Wire {
    /// The text for the value on the line: `1` or `0`.
    pub fn render(&self, signals: &Signals) -> (text: &'static str)
        requires
            signals.has(*self),
        ensures
            text@ == bit_text(signals@[self@]),
    {
        if self.get(signals) {
            "1"
        } else {
            "0"
        }
    }
}

/// Adds the values on `wires` to `text`, each followed by a comma.
pub(crate) fn append_values(text: &mut String, wires: &[Wire], signals: &Signals)
    requires
        all_below(lines_of(wires@), signals@.len()),
    ensures
        final(text)@ == old(text)@ + values_text(lines_of(wires@), signals@, wires@.len()),
{
    let ghost lines = lines_of(wires@);
    let mut i: usize = 0;
    assert(text@ =~= old(text)@ + values_text(lines, signals@, 0));
    while i < wires.len()
        invariant
            i <= wires.len(),
            lines == lines_of(wires@),
            all_below(lines, signals@.len()),
            text@ == old(text)@ + values_text(lines, signals@, i as nat),
        decreases wires.len() - i,
    {
        assert(0 <= lines[i as int] < signals@.len());
        text.append(wires[i].render(signals));
        text.append(",");
        i = i + 1;
        assert(text@ =~= old(text)@ + values_text(lines, signals@, i as nat));
    }
}

/// Adds the values on `wires` to `text`, one after the other.
pub(crate) fn append_bits(text: &mut String, wires: &[Wire], signals: &Signals)
    requires
        all_below(lines_of(wires@), signals@.len()),
    ensures
        final(text)@ == old(text)@ + bits_text(lines_of(wires@), signals@, wires@.len()),
{
    let ghost lines = lines_of(wires@);
    let mut i: usize = 0;
    assert(text@ =~= old(text)@ + bits_text(lines, signals@, 0));
    while i < wires.len()
        invariant
            i <= wires.len(),
            lines == lines_of(wires@),
            all_below(lines, signals@.len()),
            text@ == old(text)@ + bits_text(lines, signals@, i as nat),
        decreases wires.len() - i,
    {
        assert(0 <= lines[i as int] < signals@.len());
        text.append(wires[i].render(signals));
        i = i + 1;
        assert(text@ =~= old(text)@ + bits_text(lines, signals@, i as nat));
    }
}

/// The text for an element of the kind `name` with the given boundary.
pub(crate) fn boundary_string(name: &str, inputs: &[Wire], outputs: &[Wire], signals: &Signals) -> (text: String)
    requires
        all_below(lines_of(inputs@), signals@.len()),
        all_below(lines_of(outputs@), signals@.len()),
    ensures
        text@ == boundary_text(name@, lines_of(inputs@), lines_of(outputs@), signals@),
{
    let mut text = String::from_str(name);
    text.append("(");
    append_values(&mut text, inputs, signals);
    text.append(")->(");
    append_values(&mut text, outputs, signals);
    text.append(")\n");
    text
}

/// The text for one digit: `0` to `9`, then `a` to `f`.
pub open spec fn digit_text(digit: nat) -> Seq<char> {
    if digit == 0 {
        "0"@
    } else if digit == 1 {
        "1"@
    } else if digit == 2 {
        "2"@
    } else if digit == 3 {
        "3"@
    } else if digit == 4 {
        "4"@
    } else if digit == 5 {
        "5"@
    } else if digit == 6 {
        "6"@
    } else if digit == 7 {
        "7"@
    } else if digit == 8 {
        "8"@
    } else if digit == 9 {
        "9"@
    } else if digit == 10 {
        "a"@
    } else if digit == 11 {
        "b"@
    } else if digit == 12 {
        "c"@
    } else if digit == 13 {
        "d"@
    } else if digit == 14 {
        "e"@
    } else {
        "f"@
    }
}

/// The decimal digits of `number`, the most significant first, without
/// leading zeros.
pub open spec fn decimal_text(number: nat) -> Seq<char>
    decreases number,
{
    if number < 10 {
        digit_text(number)
    } else {
        decimal_text(number / 10) + digit_text(number % 10)
    }
}

/// The hexadecimal digits of `number`, the most significant first,
/// without leading zeros.
pub open spec fn hex_text(number: nat) -> Seq<char>
    decreases number,
{
    if number < 16 {
        digit_text(number)
    } else {
        hex_text(number / 16) + digit_text(number % 16)
    }
}

/// The text for one digit.
pub(crate) fn digit_str(digit: usize) -> (text: &'static str)
    requires
        digit < 16,
    ensures
        text@ == digit_text(digit as nat),
{
    if digit == 0 {
        "0"
    } else if digit == 1 {
        "1"
    } else if digit == 2 {
        "2"
    } else if digit == 3 {
        "3"
    } else if digit == 4 {
        "4"
    } else if digit == 5 {
        "5"
    } else if digit == 6 {
        "6"
    } else if digit == 7 {
        "7"
    } else if digit == 8 {
        "8"
    } else if digit == 9 {
        "9"
    } else if digit == 10 {
        "a"
    } else if digit == 11 {
        "b"
    } else if digit == 12 {
        "c"
    } else if digit == 13 {
        "d"
    } else if digit == 14 {
        "e"
    } else {
        "f"
    }
}

/// Adds the decimal digits of `number` to `text`.
pub(crate) fn append_decimal(text: &mut String, number: usize)
    ensures
        final(text)@ == old(text)@ + decimal_text(number as nat),
    decreases number,
{
    if number < 10 {
        text.append(digit_str(number));
    } else {
        append_decimal(text, number / 10);
        text.append(digit_str(number % 10));
        assert(text@ =~= old(text)@ + decimal_text(number as nat));
    }
}

/// Adds the hexadecimal digits of `number` to `text`.
pub(crate) fn append_hex(text: &mut String, number: usize)
    ensures
        final(text)@ == old(text)@ + hex_text(number as nat),
    decreases number,
{
    if number < 16 {
        text.append(digit_str(number));
    } else {
        append_hex(text, number / 16);
        text.append(digit_str(number % 16));
        assert(text@ =~= old(text)@ + hex_text(number as nat));
    }
}

/// The identities of the first `n` of `lines`, each on a line of its
/// own: `label`, then `0x` and the identity in hexadecimal digits.
pub open spec fn ids_text(label: Seq<char>, lines: Seq<int>, n: nat) -> Seq<char>
    decreases n,
{
    if n == 0 || n > lines.len() {
        Seq::empty()
    } else {
        ids_text(label, lines, (n - 1) as nat) + label + "0x"@ + hex_text(lines[n - 1] as nat)
            + "\n"@
    }
}

/// Adds the identities of `wires` to `text`, each on a line of its own
/// behind `label`.
pub(crate) fn append_ids(text: &mut String, label: &str, wires: &[Wire])
    ensures
        final(text)@ == old(text)@ + ids_text(label@, lines_of(wires@), wires@.len()),
{
    let ghost lines = lines_of(wires@);
    let mut i: usize = 0;
    assert(text@ =~= old(text)@ + ids_text(label@, lines, 0));
    while i < wires.len()
        invariant
            i <= wires.len(),
            lines == lines_of(wires@),
            text@ == old(text)@ + ids_text(label@, lines, i as nat),
        decreases wires.len() - i,
    {
        text.append(label);
        text.append("0x");
        append_hex(text, wires[i].id());
        text.append("\n");
        assert(lines[i as int] == wires[i as int]@);
        i = i + 1;
        assert(text@ =~= old(text)@ + ids_text(label@, lines, i as nat));
    }
}

} // verus!
