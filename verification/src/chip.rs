//! What the logic chips decide between two steps of the circuit: the
//! levels they read on their inputs, the outputs they set and the counts
//! they keep.
//!
//! A chip reads an input against its own supply. Above 60% of the supply
//! it reads high, below 40% low, and in between it keeps what it read
//! last. The voltages are measured by the solver; a chip here gets, for
//! each input, whether it is above each of the two marks.

use vstd::prelude::*;
use crate::kind::{Gate, gate_output};

verus! {

/// An input measured against the two marks of the dead band.
#[derive(Clone, Copy, PartialEq, Eq, Structural, Debug)]
pub struct Reading {
    /// Above 60% of the supply.
    pub above_high: bool,
    /// Above 40% of the supply.
    pub above_low: bool,
}

/// A logic part's state between steps.
#[derive(Clone, Copy, Debug)]
pub struct Logic {
    /// Output levels; a counter uses all four.
    pub out: [bool; 4],
    /// Input levels as last read, for the dead band and for edges.
    pub ins: [bool; 4],
    /// A counter's count, or the digit a display shows.
    pub value: u8,
    /// The chip has power.
    pub on: bool,
}

/// The level an input reads, given what it read last: a high input stays
/// high until it falls below 40%, a low one stays low until it rises above
/// 60%.
pub open spec fn spec_level(was: bool, r: Reading) -> bool {
    if was {
        r.above_low
    } else {
        r.above_high
    }
}

/// Bit `k` of `v` is set.
pub open spec fn bit(v: int, k: int) -> bool {
    (v / vstd::arithmetic::power2::pow2(k as nat) as int) % 2 == 1
}

/// The number that four input levels stand for: 1, 2, 4 and 8.
pub open spec fn binary(b: [bool; 4]) -> int {
    (if b[0] { 1int } else { 0 }) + (if b[1] { 2int } else { 0 }) + (if b[2] { 4int } else { 0 }) + (if b[3] { 8int } else { 0 })
}

/// The level an input reads, given what it read last.
pub fn level(was: bool, r: Reading) -> (l: bool)
    ensures
        l == spec_level(was, r),
{
    if was {
        r.above_low
    } else {
        r.above_high
    }
}

impl Logic {
    /// No power: no outputs, no count, nothing read.
    pub fn off() -> (l: Logic)
        ensures
            l.out@ == seq![false, false, false, false],
            l.ins@ == seq![false, false, false, false],
            l.value == 0,
            !l.on,
    {
        let l = Logic { out: [false; 4], ins: [false; 4], value: 0, on: false };
        proof {
            assert(l.out@ =~= seq![false, false, false, false]);
            assert(l.ins@ =~= seq![false, false, false, false]);
        }
        l
    }

    /// A gate reads inputs `a` and `b` and sets its output by its rule; a
    /// NOT reads only `a`.
    pub fn gate_step(&mut self, g: Gate, a: Reading, b: Reading)
        ensures
            final(self).on,
            final(self).ins@ == old(self).ins@.update(0, spec_level(old(self).ins@[0], a)).update(1, spec_level(old(self).ins@[1], b)),
            final(self).out@ == old(self).out@.update(0, gate_output(g, final(self).ins@[0], final(self).ins@[1])),
            final(self).value == old(self).value,
    {
        self.on = true;
        let a0 = level(self.ins[0], a);
        let b0 = level(self.ins[1], b);
        self.ins[0] = a0;
        self.ins[1] = b0;
        let q = g.eval(a0, b0);
        self.out[0] = q;
    }

    /// A clock's output is high for the first half of each period; `high`
    /// says which half the time falls in.
    pub fn clock_step(&mut self, high: bool)
        ensures
            final(self).on,
            final(self).out@ == old(self).out@.update(0, high),
            final(self).ins@ == old(self).ins@,
            final(self).value == old(self).value,
    {
        self.on = true;
        self.out[0] = high;
    }

    /// A counter adds one, from 15 round to 0, when its clock input goes
    /// from low to high; while its reset input is high it holds at 0. Its
    /// outputs show the count in binary.
    pub fn counter_step(&mut self, clk: Reading, rst: Reading)
        requires
            old(self).value < 255 || spec_level(old(self).ins@[1], rst) || !(spec_level(old(self).ins@[0], clk) && !old(self).ins@[0]),
        ensures
            final(self).on,
            final(self).ins@ == old(self).ins@.update(0, spec_level(old(self).ins@[0], clk)).update(1, spec_level(old(self).ins@[1], rst)),
            final(self).value == (if final(self).ins@[1] {
                0
            } else if final(self).ins@[0] && !old(self).ins@[0] {
                (old(self).value + 1) % 16
            } else {
                old(self).value as int
            }),
            forall|k: int| 0 <= k < 4 ==> #[trigger] final(self).out@[k] == bit(final(self).value as int, k),
    {
        self.on = true;
        let now = level(self.ins[0], clk);
        let reset = level(self.ins[1], rst);
        if reset {
            self.value = 0;
        } else if now && !self.ins[0] {
            let v = self.value + 1;
            let w = v & 15;
            assert(w == v % 16) by (bit_vector)
                requires
                    w == v & 15,
            ;
            self.value = w;
        }
        self.ins[0] = now;
        self.ins[1] = reset;
        let v = self.value;
        let o0 = v & 1 == 1;
        let o1 = (v >> 1) & 1 == 1;
        let o2 = (v >> 2) & 1 == 1;
        let o3 = (v >> 3) & 1 == 1;
        proof {
            lemma_bits(v);
        }
        self.out[0] = o0;
        self.out[1] = o1;
        self.out[2] = o2;
        self.out[3] = o3;
    }

    /// A display reads its four inputs and shows the digit they add up to,
    /// 1, 2, 4 and 8.
    pub fn display_step(&mut self, d: [Reading; 4])
        ensures
            final(self).on,
            forall|k: int| 0 <= k < 4 ==> #[trigger] final(self).ins@[k] == spec_level(old(self).ins@[k], d@[k]),
            final(self).value == binary(final(self).ins),
            final(self).value < 16,
            forall|k: int| 0 <= k < 4 ==> #[trigger] bit(final(self).value as int, k) == final(self).ins@[k],
            final(self).out@ == old(self).out@,
    {
        self.on = true;
        let i0 = level(self.ins[0], d[0]);
        let i1 = level(self.ins[1], d[1]);
        let i2 = level(self.ins[2], d[2]);
        let i3 = level(self.ins[3], d[3]);
        self.ins[0] = i0;
        self.ins[1] = i1;
        self.ins[2] = i2;
        self.ins[3] = i3;
        let value: u8 = (if i0 { 1 } else { 0 }) + (if i1 { 2 } else { 0 }) + (if i2 { 4 } else { 0 }) + (if i3 { 8 } else { 0 });
        self.value = value;
        proof {
            assert forall|k: int| 0 <= k < 4 implies #[trigger] self.ins@[k] == spec_level(old(self).ins@[k], d@[k]) by {}
            lemma_display_shows_its_inputs(self.ins);
        }
    }

    /// A 555 timer's output goes high when its trigger is below a third of
    /// the supply, which wins; otherwise low when its threshold is above
    /// two thirds; otherwise it stays.
    pub fn timer_step(&mut self, trigger_low: bool, threshold_high: bool)
        ensures
            final(self).on,
            final(self).out@ == old(self).out@.update(0, if trigger_low { true } else if threshold_high { false } else { old(self).out@[0] }),
            final(self).ins@ == old(self).ins@,
            final(self).value == old(self).value,
    {
        self.on = true;
        if trigger_low {
            self.out[0] = true;
        } else if threshold_high {
            self.out[0] = false;
        }
        proof {
            assert(self.out@ =~= old(self).out@.update(0, if trigger_low { true } else if threshold_high { false } else { old(self).out@[0] }));
        }
    }
}

/// The low four bits of a count, one by one.
proof fn lemma_bits(v: u8)
    ensures
        (v & 1 == 1) == bit(v as int, 0),
        ((v >> 1) & 1 == 1) == bit(v as int, 1),
        ((v >> 2) & 1 == 1) == bit(v as int, 2),
        ((v >> 3) & 1 == 1) == bit(v as int, 3),
{
    vstd::arithmetic::power2::lemma2_to64();
    assert((v & 1 == 1) == ((v / 1) % 2 == 1)) by (bit_vector);
    assert(((v >> 1) & 1 == 1) == ((v / 2) % 2 == 1)) by (bit_vector);
    assert(((v >> 2) & 1 == 1) == ((v / 4) % 2 == 1)) by (bit_vector);
    assert(((v >> 3) & 1 == 1) == ((v / 8) % 2 == 1)) by (bit_vector);
}

/// Four inputs weighted 1, 2, 4 and 8 make a number below 16 whose bit
/// `k` is set exactly when input `k` is high.
pub proof fn lemma_display_shows_its_inputs(b: [bool; 4])
    ensures
        binary(b) < 16,
        forall|k: int| 0 <= k < 4 ==> #[trigger] bit(binary(b), k) == b@[k],
{
    let v = binary(b);
    assert(b@[0] == b[0] && b@[1] == b[1] && b@[2] == b[2] && b@[3] == b[3]);
    if b[0] {
        if b[1] {
            if b[2] {
                if b[3] {
                    lemma_bits_of(15);
                } else {
                    lemma_bits_of(7);
                }
            } else {
                if b[3] {
                    lemma_bits_of(11);
                } else {
                    lemma_bits_of(3);
                }
            }
        } else {
            if b[2] {
                if b[3] {
                    lemma_bits_of(13);
                } else {
                    lemma_bits_of(5);
                }
            } else {
                if b[3] {
                    lemma_bits_of(9);
                } else {
                    lemma_bits_of(1);
                }
            }
        }
    } else {
        if b[1] {
            if b[2] {
                if b[3] {
                    lemma_bits_of(14);
                } else {
                    lemma_bits_of(6);
                }
            } else {
                if b[3] {
                    lemma_bits_of(10);
                } else {
                    lemma_bits_of(2);
                }
            }
        } else {
            if b[2] {
                if b[3] {
                    lemma_bits_of(12);
                } else {
                    lemma_bits_of(4);
                }
            } else {
                if b[3] {
                    lemma_bits_of(8);
                } else {
                    lemma_bits_of(0);
                }
            }
        }
    }
    assert(0 <= v < 16);
}

/// The four low bits of a number below 16, each by its weight.
proof fn lemma_bits_of(v: int)
    requires
        0 <= v < 16,
    ensures
        bit(v, 0) == (v % 2 == 1),
        bit(v, 1) == ((v / 2) % 2 == 1),
        bit(v, 2) == ((v / 4) % 2 == 1),
        bit(v, 3) == ((v / 8) % 2 == 1),
{
    vstd::arithmetic::power2::lemma2_to64();
    assert(vstd::arithmetic::power2::pow2(0) == 1);
    assert(vstd::arithmetic::power2::pow2(1) == 2);
    assert(vstd::arithmetic::power2::pow2(2) == 4);
    assert(vstd::arithmetic::power2::pow2(3) == 8);
    assert(v / 1 == v);
}

} // verus!
