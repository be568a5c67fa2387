//! Groups of lines, read and written bit by bit or byte by byte.

use vstd::prelude::*;
use vstd::arithmetic::power2::{lemma2_to64, lemma_pow2_unfold, pow2};
use crate::elements::text::{append_bits, bits_text};
use crate::elements::wire::{all_below, lines_of, Signals, Wire};

verus! {

/// Bit `i` of `value`, counted from the most significant bit: bit 0 is worth
/// 128 and bit 7 is worth 1.
pub open spec fn bit_of(value: u8, i: u8) -> bool
    recommends
        i < 8,
{
    (value >> ((7 - i) as u8)) & 1 == 1
}

/// The number packed from the first `n` positions from `offset` on, the
/// first of them being worth most: each position doubles the number, and
/// adds one where the group has the position and its line holds `true`.
/// A position beyond the group's end adds nothing, so that the line at
/// `offset` stands for the most significant of `n` bits whatever the
/// length of the group.
pub open spec fn packed(lines: Seq<int>, values: Seq<bool>, offset: int, n: nat) -> nat
    decreases n,
{
    if n == 0 {
        0
    } else {
        let before = packed(lines, values, offset, (n - 1) as nat);
        let at = offset + n - 1;
        2 * before + if 0 <= at < lines.len() && values[lines[at]] { 1nat } else { 0nat }
    }
}

/// The values after the first `n` bits of `value`, most significant first,
/// were put on the positions from `offset` on; a position beyond the
/// group's end is passed over.
pub open spec fn stored(lines: Seq<int>, values: Seq<bool>, offset: int, value: u8, n: nat) -> Seq<bool>
    decreases n,
{
    if n == 0 {
        values
    } else {
        let before = stored(lines, values, offset, value, (n - 1) as nat);
        let at = offset + n - 1;
        if 0 <= at < lines.len() {
            before.update(lines[at], bit_of(value, (n - 1) as u8))
        } else {
            before
        }
    }
}

/// Whether the lines on the eight positions from `offset` on, as far as the
/// group has them, are among the first `count` lines.
pub open spec fn window_below(lines: Seq<int>, offset: int, count: nat) -> bool {
    forall|i: int| offset <= i < offset + 8 && 0 <= i < lines.len() ==> 0 <= #[trigger] lines[i] < count
}

/// The lines at the first `n` entries of `mask`, in the order of `mask`; an
/// entry that is no position of the group is passed over.
pub open spec fn picked(lines: Seq<int>, mask: Seq<usize>, n: nat) -> Seq<int>
    decreases n,
{
    if n == 0 || n > mask.len() {
        Seq::empty()
    } else {
        let before = picked(lines, mask, (n - 1) as nat);
        if mask[n - 1] < lines.len() {
            before.push(lines[mask[n - 1] as int])
        } else {
            before
        }
    }
}

/// The lines at those of the first `n` positions that `mask` does not name,
/// in their order in the group.
pub open spec fn unpicked(lines: Seq<int>, mask: Seq<usize>, n: nat) -> Seq<int>
    decreases n,
{
    if n == 0 || n > lines.len() {
        Seq::empty()
    } else {
        let before = unpicked(lines, mask, (n - 1) as nat);
        if mask.contains((n - 1) as usize) {
            before
        } else {
            before.push(lines[n - 1])
        }
    }
}

/// A group of lines in a fixed order. Its model is the sequence of the
/// identities of its lines.
#[derive(Debug)]
pub struct Bus {
    wires: Vec<Wire>,
}

impl Clone for Bus {
    /// A group of the same lines: the copy shares every line with this
    /// group.
    fn clone(&self) -> (copy: Bus)
        ensures
            copy@ == self@,
    {
        let mut wires: Vec<Wire> = Vec::new();
        let mut i: usize = 0;
        while i < self.wires.len()
            invariant
                i <= self.wires.len(),
                wires@ == self.wires@.subrange(0, i as int),
            decreases self.wires.len() - i,
        {
            wires.push(self.wires[i]);
            i = i + 1;
            assert(wires@ =~= self.wires@.subrange(0, i as int));
        }
        assert(wires@ =~= self.wires@);
        Bus { wires }
    }
}

impl View for Bus {
    type V = Seq<int>;

    closed spec fn view(&self) -> Seq<int> {
        lines_of(self.wires@)
    }
}

impl Bus {
    /// A group of `wires` new lines, each holding `false`.
    pub fn new(signals: &mut Signals, wires: usize) -> (bus: Bus)
        ensures
            bus@ == Seq::new(wires as nat, |i: int| old(signals)@.len() + i),
            final(signals)@ == old(signals)@ + Seq::new(wires as nat, |i: int| false),
    {
        let mut made: Vec<Wire> = Vec::new();
        let mut i: usize = 0;
        while i < wires
            invariant
                i <= wires,
                made@.len() == i,
                forall|j: int| 0 <= j < i ==> (#[trigger] made@[j])@ == old(signals)@.len() + j,
                signals@ == old(signals)@ + Seq::new(i as nat, |j: int| false),
            decreases wires - i,
        {
            let wire = Wire::new(signals);
            made.push(wire);
            i = i + 1;
            assert(signals@ =~= old(signals)@ + Seq::new(i as nat, |j: int| false));
        }
        let bus = Bus { wires: made };
        assert(bus@ =~= Seq::new(wires as nat, |i: int| old(signals)@.len() + i));
        bus
    }

    /// The group of the given lines, in their order.
    pub fn with_wires(wires: Vec<Wire>) -> (bus: Bus)
        ensures
            bus@ == lines_of(wires@),
    {
        Bus { wires }
    }

    /// The line at position `index`.
    pub fn get_wire(&self, index: usize) -> (wire: Wire)
        requires
            index < self@.len(),
        ensures
            wire@ == self@[index as int],
    {
        self.wires[index]
    }

    /// Puts `wire` at position `index`, in place of the line that was
    /// there.
    pub fn set_wire(&mut self, index: usize, wire: Wire)
        requires
            index < old(self)@.len(),
        ensures
            final(self)@ == old(self)@.update(index as int, wire@),
    {
        self.wires[index] = wire;
        assert(self@ =~= old(self)@.update(index as int, wire@));
    }

    /// Takes the line at position `index` out of the group; the lines
    /// behind it move up by one.
    pub fn remove_wire(&mut self, index: usize) -> (wire: Wire)
        requires
            index < old(self)@.len(),
        ensures
            wire@ == old(self)@[index as int],
            final(self)@ == old(self)@.remove(index as int),
    {
        let wire = self.wires.remove(index);
        assert(self@ =~= old(self)@.remove(index as int));
        wire
    }

    /// Adds `wire` behind the last line.
    pub fn add_wire(&mut self, wire: Wire)
        ensures
            final(self)@ == old(self)@.push(wire@),
    {
        self.wires.push(wire);
        assert(self@ =~= old(self)@.push(wire@));
    }

    /// The lines of the group, in order.
    pub fn wires(&self) -> (wires: &[Wire])
        ensures
            lines_of(wires@) == self@,
    {
        self.wires.as_slice()
    }

    /// The number of lines in the group.
    pub fn size(&self) -> (size: usize)
        ensures
            size == self@.len(),
    {
        self.wires.len()
    }

    /// The values on the lines of the group as text, one digit for each
    /// line.
    pub fn render(&self, signals: &Signals) -> (text: String)
        requires
            all_below(self@, signals@.len()),
        ensures
            text@ == bits_text(self@, signals@, self@.len()),
    {
        let mut text = String::new();
        append_bits(&mut text, self.wires.as_slice(), signals);
        assert(text@ =~= bits_text(self@, signals@, self@.len()));
        text
    }

    /// Whether `index` is one of the entries of `mask`.
    fn named(mask: &Vec<usize>, index: usize) -> (found: bool)
        ensures
            found == mask@.contains(index),
    {
        let mut i: usize = 0;
        while i < mask.len()
            invariant
                i <= mask.len(),
                forall|j: int| 0 <= j < i ==> mask@[j] != index,
            decreases mask.len() - i,
        {
            if mask[i] == index {
                return true;
            }
            i = i + 1;
        }
        false
    }

    /// Splits the group in two. The lines at the positions that `mask`
    /// names are returned, in the order in which `mask` names them; the
    /// other lines stay in this group, in the order they had. An entry of
    /// `mask` that is no position of the group is passed over.
    pub fn partition(&mut self, mask: &Vec<usize>) -> (taken: Bus)
        ensures
            taken@ == picked(old(self)@, mask@, mask@.len()),
            final(self)@ == unpicked(old(self)@, mask@, old(self)@.len()),
    {
        let mut taken: Vec<Wire> = Vec::new();
        let mut i: usize = 0;
        while i < mask.len()
            invariant
                i <= mask.len(),
                self@ == old(self)@,
                lines_of(taken@) == picked(self@, mask@, i as nat),
            decreases mask.len() - i,
        {
            let at: usize = mask[i];
            if at < self.wires.len() {
                taken.push(self.wires[at]);
            }
            i = i + 1;
            assert(lines_of(taken@) =~= picked(self@, mask@, i as nat));
        }
        let mut kept: Vec<Wire> = Vec::new();
        let mut k: usize = 0;
        while k < self.wires.len()
            invariant
                k <= self.wires.len(),
                self@ == old(self)@,
                lines_of(kept@) == unpicked(self@, mask@, k as nat),
            decreases self.wires.len() - k,
        {
            if !Bus::named(mask, k) {
                kept.push(self.wires[k]);
            }
            k = k + 1;
            assert(lines_of(kept@) =~= unpicked(self@, mask@, k as nat));
        }
        self.wires = kept;
        Bus { wires: taken }
    }
}

/// Reading and writing a group of lines as values of type `T`.
pub trait BusAccess<T> {
    /// Whether the lines that an access at `offset` touches are among the
    /// first `count` lines of a store, and `offset` is a position at which
    /// a `T` can be accessed.
    spec fn reach(&self, count: nat, offset: usize) -> bool;

    /// The value read at `offset` when the lines hold `values`.
    spec fn read(&self, values: Seq<bool>, offset: usize) -> T;

    /// What the lines hold after `value` was written at `offset`.
    spec fn written(&self, values: Seq<bool>, offset: usize, value: T) -> Seq<bool>;

    /// Writes `value` at `offset`.
    fn set(&self, signals: &mut Signals, offset: usize, value: T)
        requires
            self.reach(old(signals)@.len(), offset),
        ensures
            final(signals)@ == self.written(old(signals)@, offset, value),
            final(signals)@.len() == old(signals)@.len(),
    ;

    /// Reads the value at `offset`.
    fn get(&self, signals: &Signals, offset: usize) -> (value: T)
        requires
            self.reach(signals@.len(), offset),
        ensures
            value == self.read(signals@, offset),
    ;
}

impl BusAccess<bool> for Bus {
    open spec fn reach(&self, count: nat, offset: usize) -> bool {
        offset < self@.len() && 0 <= self@[offset as int] < count
    }

    open spec fn read(&self, values: Seq<bool>, offset: usize) -> bool {
        values[self@[offset as int]]
    }

    open spec fn written(&self, values: Seq<bool>, offset: usize, value: bool) -> Seq<bool> {
        values.update(self@[offset as int], value)
    }

    fn set(&self, signals: &mut Signals, offset: usize, value: bool) {
        self.wires[offset].set(signals, value);
    }

    fn get(&self, signals: &Signals, offset: usize) -> (value: bool) {
        self.wires[offset].get(signals)
    }
}

/// A number packed from `n` positions is below two to the `n`.
pub proof fn lemma_packed_bound(lines: Seq<int>, values: Seq<bool>, offset: int, n: nat)
    ensures
        packed(lines, values, offset, n) < pow2(n),
    decreases n,
{
    if n == 0 {
        lemma2_to64();
    } else {
        lemma_packed_bound(lines, values, offset, (n - 1) as nat);
        lemma_pow2_unfold(n);
    }
}

/// Writing bits makes no line and drops none.
pub proof fn lemma_stored_len(lines: Seq<int>, values: Seq<bool>, offset: int, value: u8, n: nat)
    requires
        window_below(lines, offset, values.len()),
        n <= 8,
    ensures
        stored(lines, values, offset, value, n).len() == values.len(),
    decreases n,
{
    if n > 0 {
        lemma_stored_len(lines, values, offset, value, (n - 1) as nat);
        let at = offset + n - 1;
        if 0 <= at < lines.len() {
            assert(0 <= lines[at] < values.len());
        }
    }
}

/// Whether the lines on the eight positions from `offset` on are eight
/// different lines.
pub open spec fn window_distinct(lines: Seq<int>, offset: int) -> bool {
    forall|i: int, j: int|
        offset <= i < j < offset + 8 && 0 <= i && j < lines.len() ==> lines[i] != lines[j]
}

/// After bits were put on different lines, each of those lines holds its
/// bit.
pub proof fn lemma_stored_bit(
    lines: Seq<int>,
    values: Seq<bool>,
    offset: int,
    value: u8,
    n: nat,
    i: int,
)
    requires
        0 <= offset,
        offset + 8 <= lines.len(),
        window_distinct(lines, offset),
        window_below(lines, offset, values.len()),
        0 <= i < n <= 8,
    ensures
        stored(lines, values, offset, value, n)[lines[offset + i]] == bit_of(value, i as u8),
    decreases n,
{
    lemma_stored_len(lines, values, offset, value, (n - 1) as nat);
    assert(0 <= lines[offset + n - 1] < values.len());
    assert(0 <= lines[offset + i] < values.len());
    if i < n - 1 {
        lemma_stored_bit(lines, values, offset, value, (n - 1) as nat, i);
        assert(lines[offset + i] != lines[offset + n - 1]);
    }
}

/// A byte is the sum of its bits, the first bit being worth 128.
pub proof fn lemma_bits_make_byte(value: u8)
    ensures
        value == 128 * bit_worth(value, 0) + 64 * bit_worth(value, 1) + 32 * bit_worth(value, 2) + 16
            * bit_worth(value, 3) + 8 * bit_worth(value, 4) + 4 * bit_worth(value, 5) + 2 * bit_worth(
            value,
            6,
        ) + bit_worth(value, 7),
        bit_of(value, 0) == (value >= 128),
{
    assert(value == 128 * ((value >> 7u8) & 1) + 64 * ((value >> 6u8) & 1) + 32 * ((value >> 5u8) & 1)
        + 16 * ((value >> 4u8) & 1) + 8 * ((value >> 3u8) & 1) + 4 * ((value >> 2u8) & 1) + 2 * ((value
        >> 1u8) & 1) + ((value >> 0u8) & 1)) by (bit_vector);
    assert(((value >> 7u8) & 1) == 0 || ((value >> 7u8) & 1) == 1) by (bit_vector);
    assert(((value >> 6u8) & 1) == 0 || ((value >> 6u8) & 1) == 1) by (bit_vector);
    assert(((value >> 5u8) & 1) == 0 || ((value >> 5u8) & 1) == 1) by (bit_vector);
    assert(((value >> 4u8) & 1) == 0 || ((value >> 4u8) & 1) == 1) by (bit_vector);
    assert(((value >> 3u8) & 1) == 0 || ((value >> 3u8) & 1) == 1) by (bit_vector);
    assert(((value >> 2u8) & 1) == 0 || ((value >> 2u8) & 1) == 1) by (bit_vector);
    assert(((value >> 1u8) & 1) == 0 || ((value >> 1u8) & 1) == 1) by (bit_vector);
    assert(((value >> 0u8) & 1) == 0 || ((value >> 0u8) & 1) == 1) by (bit_vector);
    assert(((value >> 7u8) & 1 == 1) == (value >= 128)) by (bit_vector);
}

/// What bit `i` of `value` adds to a number that is packed from bits: 1
/// where the bit is set.
pub open spec fn bit_worth(value: u8, i: u8) -> nat {
    if bit_of(value, i) {
        1
    } else {
        0
    }
}

/// A byte written to eight different lines of a group is read back
/// unchanged, and the first of these lines holds the byte's most
/// significant bit.
pub proof fn lemma_byte_round_trip(bus: Bus, values: Seq<bool>, offset: usize, value: u8)
    requires
        offset + 8 <= bus@.len(),
        window_distinct(bus@, offset as int),
        window_below(bus@, offset as int, values.len()),
    ensures
        BusAccess::<u8>::read(&bus, BusAccess::<u8>::written(&bus, values, offset, value), offset)
            == value,
        BusAccess::<bool>::read(&bus, BusAccess::<u8>::written(&bus, values, offset, value), offset)
            == (value >= 128),
{
    lemma_packed_round_trip(bus@, values, offset as int, value);
}

/// A byte put on eight different lines is packed from them unchanged, and
/// the first of these lines holds the byte's most significant bit.
pub proof fn lemma_packed_round_trip(lines: Seq<int>, values: Seq<bool>, offset: int, value: u8)
    requires
        0 <= offset,
        offset + 8 <= lines.len(),
        window_distinct(lines, offset),
        window_below(lines, offset, values.len()),
    ensures
        packed(lines, stored(lines, values, offset, value, 8), offset, 8) == value,
        stored(lines, values, offset, value, 8)[lines[offset]] == (value >= 128),
{
    let after = stored(lines, values, offset, value, 8);
    lemma_stored_bit(lines, values, offset, value, 8, 0);
    lemma_stored_bit(lines, values, offset, value, 8, 1);
    lemma_stored_bit(lines, values, offset, value, 8, 2);
    lemma_stored_bit(lines, values, offset, value, 8, 3);
    lemma_stored_bit(lines, values, offset, value, 8, 4);
    lemma_stored_bit(lines, values, offset, value, 8, 5);
    lemma_stored_bit(lines, values, offset, value, 8, 6);
    lemma_stored_bit(lines, values, offset, value, 8, 7);
    lemma_bits_make_byte(value);
    assert(packed(lines, after, offset, 0) == 0);
    assert(packed(lines, after, offset, 1) == 2 * packed(lines, after, offset, 0) + bit_worth(value, 0));
    assert(packed(lines, after, offset, 2) == 2 * packed(lines, after, offset, 1) + bit_worth(value, 1));
    assert(packed(lines, after, offset, 3) == 2 * packed(lines, after, offset, 2) + bit_worth(value, 2));
    assert(packed(lines, after, offset, 4) == 2 * packed(lines, after, offset, 3) + bit_worth(value, 3));
    assert(packed(lines, after, offset, 5) == 2 * packed(lines, after, offset, 4) + bit_worth(value, 4));
    assert(packed(lines, after, offset, 6) == 2 * packed(lines, after, offset, 5) + bit_worth(value, 5));
    assert(packed(lines, after, offset, 7) == 2 * packed(lines, after, offset, 6) + bit_worth(value, 6));
    assert(packed(lines, after, offset, 8) == 2 * packed(lines, after, offset, 7) + bit_worth(value, 7));
}

impl BusAccess<u8> for Bus {
    open spec fn reach(&self, count: nat, offset: usize) -> bool {
        window_below(self@, offset as int, count)
    }

    open spec fn read(&self, values: Seq<bool>, offset: usize) -> u8 {
        packed(self@, values, offset as int, 8) as u8
    }

    open spec fn written(&self, values: Seq<bool>, offset: usize, value: u8) -> Seq<bool> {
        stored(self@, values, offset as int, value, 8)
    }

    fn set(&self, signals: &mut Signals, offset: usize, value: u8) {
        let mut i: u8 = 0;
        while i < 8
            invariant
                i <= 8,
                signals@ == stored(self@, old(signals)@, offset as int, value, i as nat),
                signals@.len() == old(signals)@.len(),
                window_below(self@, offset as int, old(signals)@.len()),
            decreases 8 - i,
        {
            if offset < self.wires.len() && (i as usize) < self.wires.len() - offset {
                let bit: bool = (value >> (7 - i)) & 1 == 1;
                assert(self.wires@[offset + i]@ == self@[offset + i]);
                self.wires[offset + i as usize].set(signals, bit);
            }
            i = i + 1;
        }
    }

    fn get(&self, signals: &Signals, offset: usize) -> (value: u8) {
        let mut value: u8 = 0;
        let mut i: u8 = 0;
        proof {
            lemma2_to64();
        }
        while i < 8
            invariant
                i <= 8,
                value == packed(self@, signals@, offset as int, i as nat),
                window_below(self@, offset as int, signals@.len()),
            decreases 8 - i,
        {
            proof {
                lemma_packed_bound(self@, signals@, offset as int, i as nat);
                lemma_packed_bound(self@, signals@, offset as int, (i + 1) as nat);
                lemma2_to64();
            }
            let mut bit: bool = false;
            if offset < self.wires.len() && (i as usize) < self.wires.len() - offset {
                assert(self.wires@[offset + i]@ == self@[offset + i]);
                bit = self.wires[offset + i as usize].get(signals);
            }
            value = 2 * value + if bit { 1 } else { 0 };
            i = i + 1;
        }
        value
    }
}

} // verus!
