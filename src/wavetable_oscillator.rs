use vstd::prelude::*;
use vstd::arithmetic::div_mod::*;
use vstd::arithmetic::mul::*;
use crate::audio::{AudioUnit, Buffer, FREQ_SCALE};

verus! {

/// Linear interpolation between entry `i` of `table` and its circular
/// neighbour, `r` ticks of `d` past entry `i`, rounded down:
/// `((d - r) * table[i] + r * table[i + 1]) / d`.
pub open spec fn lerp_spec(table: Seq<AudioUnit>, i: int, r: int, d: int) -> int {
    ((d - r) * table[i] + r * table[(i + 1) % (table.len() as int)]) / d
}

/// `(x + c * d) / d == x / d + c`.
pub proof fn lemma_div_shift(x: int, c: int, d: int)
    requires
        d > 0,
    ensures
        (x + c * d) / d == x / d + c,
        (x + c * d) % d == x % d,
{
    lemma_fundamental_div_mod(x, d);
    lemma_mod_bound(x, d);
    assert(x + c * d == (x / d + c) * d + x % d) by (nonlinear_arith)
        requires
            x == d * (x / d) + x % d,
    ;
    lemma_fundamental_div_mod_converse(x + c * d, d, x / d + c, x % d);
}

/// A playback engine: it reads a wavetable at a fractional position that
/// advances by a fixed step on every sample.
///
/// Positions are counted in ticks: one table entry is `FREQ_SCALE *
/// sample_rate` ticks long, so that a frequency given in millihertz moves
/// the position by exactly `frequency * table length` ticks per sample.
/// That step is kept as it is, signed; beside it the engine keeps it reduced
/// modulo the table length, which is what moves the position.
pub struct WavetableOscillator {
    sample_rate: u32,
    wave_table: Buffer,
    index: u128,
    increment: i128,
    step: u128,
}

impl WavetableOscillator {
    /// The table being played.
    pub closed spec fn table(self) -> Seq<AudioUnit> {
        self.wave_table@
    }

    /// The output rate, in samples per second.
    pub closed spec fn rate(self) -> int {
        self.sample_rate as int
    }

    /// The read position, in ticks.
    pub closed spec fn index_ticks(self) -> int {
        self.index as int
    }

    /// The step taken per sample, in ticks: `frequency * table length`.
    pub closed spec fn increment_ticks(self) -> int {
        self.increment as int
    }

    /// The step reduced modulo the period.
    pub closed spec fn reduced_step(self) -> int {
        self.step as int
    }

    /// The length of one table entry, in ticks.
    pub open spec fn slot_ticks(self) -> int {
        FREQ_SCALE * self.rate()
    }

    /// The length of the whole table, in ticks.
    pub open spec fn period(self) -> int {
        self.table().len() * self.slot_ticks()
    }

    pub open spec fn wf(self) -> bool {
        &&& self.rate() > 0
        &&& 0 < self.table().len() <= usize::MAX
        &&& 0 <= self.index_ticks() < self.period()
        &&& i128::MIN < self.increment_ticks()
        &&& self.reduced_step() == self.increment_ticks() % self.period()
    }

    /// The step that a frequency of `frequency` millihertz gives, in ticks:
    /// `frequency * table length`, that is `frequency * table length /
    /// sample_rate` table entries. It is negative for a negative frequency.
    pub open spec fn increment_for(self, frequency: int) -> int {
        frequency * self.table().len()
    }

    /// The interpolated sample at position `ticks`.
    pub open spec fn sample_at(self, ticks: int) -> int {
        lerp_spec(self.table(), ticks / self.slot_ticks(), ticks % self.slot_ticks(), self.slot_ticks())
    }

    /// The sample that the next pull returns.
    pub open spec fn current_sample(self) -> int {
        self.sample_at(self.index_ticks())
    }

    /// The read position after `k` pulls.
    pub open spec fn phase_after(self, k: nat) -> int {
        (self.index_ticks() + k * self.increment_ticks()) % self.period()
    }

    /// The engine after one pull: the position has moved on by one step.
    pub closed spec fn after_pull(self) -> Self {
        WavetableOscillator { index: self.phase_after(1) as u128, ..self }
    }

    /// The engine with its step replaced.
    pub closed spec fn with_increment(self, increment: int) -> Self {
        WavetableOscillator {
            increment: increment as i128,
            step: (increment % self.period()) as u128,
            ..self
        }
    }

    /// Every position fits in 107 bits.
    pub proof fn lemma_period_bound(self)
        requires
            self.wf(),
        ensures
            self.period() <= 0x400_0000_0000_0000_0000_0000_0000,
    {
        let len = self.table().len() as int;
        let d = self.slot_ticks();
        assert(len <= 0xffff_ffff_ffff_ffff);
        assert(d <= 0x400_0000_0000) by (nonlinear_arith)
            requires
                d == 1000 * self.rate(),
                self.rate() <= 0xffff_ffff,
        ;
        assert(len * d <= 0x400_0000_0000_0000_0000_0000_0000) by (nonlinear_arith)
            requires
                0 < len <= 0xffff_ffff_ffff_ffff,
                0 < d <= 0x400_0000_0000,
        ;
    }

    pub proof fn lemma_after_pull(self)
        requires
            self.wf(),
        ensures
            self.after_pull().table() == self.table(),
            self.after_pull().rate() == self.rate(),
            self.after_pull().increment_ticks() == self.increment_ticks(),
            self.after_pull().index_ticks() == self.phase_after(1),
            self.after_pull().wf(),
    {
        self.lemma_period_bound();
        lemma_mod_bound(self.index_ticks() + self.increment_ticks(), self.period());
    }

    /// Takes the table and the output rate; the engine starts silent, at
    /// position zero with a zero step.
    pub fn new(sample_rate: u32, wave_table: Buffer) -> (r: WavetableOscillator)
        requires
            sample_rate > 0,
            wave_table@.len() > 0,
        ensures
            r.wf(),
            r.table() == wave_table@,
            r.rate() == sample_rate as int,
            r.index_ticks() == 0,
            r.increment_ticks() == 0,
    {
        let r = WavetableOscillator { sample_rate, wave_table, index: 0, increment: 0, step: 0 };
        proof {
            assert(r.wave_table.len() == r.table().len());
            lemma_mul_strictly_positive(r.table().len() as int, r.slot_ticks());
            lemma_small_mod(0, r.period() as nat);
        }
        r
    }

    /// Sets the playback frequency, in millihertz: each later pull moves the
    /// position by `frequency * table length` ticks, that is by
    /// `frequency * table length / sample_rate` table entries. A negative
    /// frequency plays the table backwards.
    pub fn set_frequency(&mut self, frequency: i64)
        requires
            old(self).wf(),
        ensures
            *final(self) == old(self).with_increment(old(self).increment_for(frequency as int)),
            final(self).wf(),
            final(self).table() == old(self).table(),
            final(self).rate() == old(self).rate(),
            final(self).index_ticks() == old(self).index_ticks(),
            final(self).increment_ticks() == old(self).increment_for(frequency as int),
    {
        let d = self.ticks_per_slot();
        let len = self.wave_table.len();
        proof {
            self.lemma_period_bound();
        }
        let m: u128 = if frequency >= 0 {
            (frequency as u128) % d
        } else {
            let k: u128 = ((-(frequency as i128)) as u128) % d;
            if k == 0 {
                0
            } else {
                d - k
            }
        };
        proof {
            let f = frequency as int;
            let dd = d as int;
            if frequency < 0 {
                let g = -f;
                lemma_fundamental_div_mod(g, dd);
                lemma_mod_bound(g, dd);
                if g % dd == 0 {
                    assert(f == (-(g / dd)) * dd) by (nonlinear_arith)
                        requires
                            g == dd * (g / dd) + g % dd,
                            g % dd == 0,
                            f == -g,
                    ;
                    lemma_fundamental_div_mod_converse(f, dd, -(g / dd), 0);
                } else {
                    assert(f == (-(g / dd) - 1) * dd + (dd - g % dd)) by (nonlinear_arith)
                        requires
                            g == dd * (g / dd) + g % dd,
                            f == -g,
                    ;
                    lemma_fundamental_div_mod_converse(f, dd, -(g / dd) - 1, dd - g % dd);
                }
            }
            assert(m as int == f % dd);
            lemma_fundamental_div_mod(f, dd);
            lemma_mod_bound(f, dd);
            let l = len as int;
            assert(f * l == (f / dd) * (l * dd) + m * l && 0 <= m * l < l * dd) by (nonlinear_arith)
                requires
                    f == dd * (f / dd) + m,
                    0 <= m < dd,
                    l > 0,
            ;
            lemma_fundamental_div_mod_converse(f * l, l * dd, f / dd, m * l);
            assert(m * l <= 0x400_0000_0000_0000_0000_0000_0000);
        }
        proof {
            let l = len as int;
            let f = frequency as int;
            assert(-0x7fff_ffff_ffff_ffff_8000_0000_0000_0001 <= f * l <= 0x7fff_ffff_ffff_fffe_8000_0000_0000_0001)
                by (nonlinear_arith)
                requires
                    -0x8000_0000_0000_0000 <= f <= 0x7fff_ffff_ffff_ffff,
                    0 < l <= 0xffff_ffff_ffff_ffff,
            ;
        }
        self.increment = frequency as i128 * len as i128;
        self.step = m * len as u128;
    }

    /// Returns the sample at the current position, linearly interpolated
    /// between the two table entries around it (the last entry's neighbour
    /// is the first), then moves the position on by one step, wrapping
    /// around the end of the table.
    pub fn get_sample(&mut self) -> (r: AudioUnit)
        requires
            old(self).wf(),
        ensures
            r as int == old(self).current_sample(),
            *final(self) == old(self).after_pull(),
            final(self).wf(),
            final(self).table() == old(self).table(),
            final(self).rate() == old(self).rate(),
            final(self).increment_ticks() == old(self).increment_ticks(),
            final(self).index_ticks() == old(self).phase_after(1),
    {
        let d = self.ticks_per_slot();
        let len = self.wave_table.len();
        proof {
            self.lemma_period_bound();
            lemma_mul_is_commutative(d as int, len as int);
            lemma_multiply_divide_lt(self.index as int, d as int, len as int);
            lemma_mod_bound(self.index as int, d as int);
        }
        let i0: usize = (self.index / d) as usize;
        let r: u128 = self.index % d;
        let i1: usize = if i0 + 1 == len {
            0
        } else {
            i0 + 1
        };
        let ghost ta = self.wave_table@[i0 as int] as int;
        let ghost tb = self.wave_table@[i1 as int] as int;
        let a: u128 = (self.wave_table[i0] as i128 + 0x8000_0000) as u128;
        let b: u128 = (self.wave_table[i1] as i128 + 0x8000_0000) as u128;
        proof {
            let dd = d as int;
            let rr = r as int;
            assert((dd - rr) * a <= dd * 0xffff_ffff && rr * b <= dd * 0xffff_ffff) by (nonlinear_arith)
                requires
                    0 <= rr < dd,
                    0 <= a <= 0xffff_ffff,
                    0 <= b <= 0xffff_ffff,
            ;
            assert((dd - rr) * a + rr * b <= dd * 0xffff_ffff) by (nonlinear_arith)
                requires
                    0 <= rr < dd,
                    0 <= a <= 0xffff_ffff,
                    0 <= b <= 0xffff_ffff,
            ;
        }
        let num: u128 = (d - r) * a + r * b;
        let s: u128 = num / d;
        proof {
            let dd = d as int;
            let rr = r as int;
            let x = (dd - rr) * ta + rr * tb;
            assert(num as int == x + 0x8000_0000 * dd) by (nonlinear_arith)
                requires
                    num as int == (dd - rr) * a + rr * b,
                    a == ta + 0x8000_0000,
                    b == tb + 0x8000_0000,
                    x == (dd - rr) * ta + rr * tb,
            ;
            lemma_div_shift(x, 0x8000_0000, dd);
            lemma_div_is_ordered(num as int, dd * 0xffff_ffff, dd);
            lemma_div_multiples_vanish(0xffff_ffff, dd);
            assert((i0 as int + 1) % (len as int) == i1 as int) by {
                if i0 + 1 == len {
                    lemma_mod_self_0(len as int);
                } else {
                    lemma_small_mod((i0 + 1) as nat, len as nat);
                }
            }
        }
        let sample = (s as i128 - 0x8000_0000) as i32;
        proof {
            let p = self.period();
            let inc = self.increment_ticks();
            lemma_fundamental_div_mod(inc, p);
            assert(self.index_ticks() + inc == (self.index_ticks() + inc % p) + (inc / p) * p)
                by (nonlinear_arith)
                requires
                    inc == p * (inc / p) + inc % p,
            ;
            lemma_div_shift(self.index_ticks() + inc % p, inc / p, p);
        }
        self.index = (self.index + self.step) % (len as u128 * d);
        sample
    }

    /// The output rate, in samples per second.
    pub fn sample_rate(&self) -> (r: u32)
        ensures
            r as int == self.rate(),
    {
        self.sample_rate
    }

    /// The step taken per sample, in ticks.
    pub fn increment(&self) -> (r: i128)
        ensures
            r as int == self.increment_ticks(),
    {
        self.increment
    }

    /// The length of one table entry, in ticks.
    pub fn ticks_per_entry(&self) -> (r: u128)
        requires
            self.wf(),
        ensures
            r as int == self.slot_ticks(),
    {
        self.ticks_per_slot()
    }

    /// Where the position stands on a table entry, the pull returns that
    /// entry exactly.
    pub proof fn lemma_sample_on_entry(self)
        requires
            self.wf(),
            self.index_ticks() % self.slot_ticks() == 0,
        ensures
            self.current_sample() == self.table()[self.index_ticks() / self.slot_ticks()],
    {
        let d = self.slot_ticks();
        let i = self.index_ticks() / d;
        lemma_mul_is_commutative(d, self.table().len() as int);
        lemma_multiply_divide_lt(self.index_ticks(), d, self.table().len() as int);
        lemma_div_multiples_vanish(self.table()[i] as int, d);
    }

    /// Where the position stands halfway between two entries `a` and `b`,
    /// the pull returns `(a + b) / 2`, rounded down.
    pub proof fn lemma_sample_at_midpoint(self)
        requires
            self.wf(),
            2 * (self.index_ticks() % self.slot_ticks()) == self.slot_ticks(),
        ensures
            ({
                let i = self.index_ticks() / self.slot_ticks();
                let a = self.table()[i] as int;
                let b = self.table()[(i + 1) % (self.table().len() as int)] as int;
                self.current_sample() == (a + b) / 2
            }),
    {
        let d = self.slot_ticks();
        let r = self.index_ticks() % d;
        let i = self.index_ticks() / d;
        let len = self.table().len() as int;
        let a = self.table()[i] as int;
        let b = self.table()[(i + 1) % len] as int;
        let y = a + b;
        lemma_fundamental_div_mod(y, 2);
        lemma_mod_bound(y, 2);
        assert((d - r) * a + r * b == (y / 2) * d + r * (y % 2) && 0 <= r * (y % 2) < d)
            by (nonlinear_arith)
            requires
                d == 2 * r,
                r > 0,
                y == a + b,
                y == 2 * (y / 2) + y % 2,
                0 <= y % 2 < 2,
        ;
        lemma_fundamental_div_mod_converse((d - r) * a + r * b, d, y / 2, r * (y % 2));
    }

    /// The position stays within one table length whatever the number of
    /// pulls.
    pub proof fn lemma_position_bounded(self, k: nat)
        requires
            self.wf(),
        ensures
            0 <= self.phase_after(k) < self.period(),
    {
        lemma_mod_bound(self.index_ticks() + k * self.increment_ticks(), self.period());
    }

    /// After one pull, `k` more pulls reach the position that `k + 1` pulls
    /// reach from the start.
    pub proof fn lemma_pull_then(self, k: nat)
        requires
            self.wf(),
        ensures
            self.after_pull().phase_after(k) == self.phase_after(k + 1),
    {
        let p = self.period();
        let x = self.index_ticks() + self.increment_ticks();
        let y = k * self.increment_ticks();
        lemma_fundamental_div_mod(x, p);
        assert(self.index_ticks() + (k + 1) * self.increment_ticks() == (x % p + y) + (x / p) * p)
            by (nonlinear_arith)
            requires
                x == self.index_ticks() + self.increment_ticks(),
                y == k * self.increment_ticks(),
                x == p * (x / p) + x % p,
        ;
        lemma_div_shift(x % p + y, x / p, p);
        self.lemma_after_pull();
    }

    /// With a step of exactly one entry and a start on an entry, pull `k`
    /// returns entry `k` places on, around the table: one full cycle per
    /// table length of pulls.
    pub proof fn lemma_one_entry_per_pull(self, k: nat)
        requires
            self.wf(),
            self.increment_ticks() == self.slot_ticks(),
            self.index_ticks() % self.slot_ticks() == 0,
        ensures
            ({
                let e = (self.index_ticks() / self.slot_ticks() + k) % (self.table().len() as int);
                &&& self.phase_after(k) == e * self.slot_ticks()
                &&& self.sample_at(self.phase_after(k)) == self.table()[e]
            }),
    {
        let d = self.slot_ticks();
        let len = self.table().len() as int;
        let j = self.index_ticks() / d;
        let t = j + k;
        lemma_fundamental_div_mod(self.index_ticks(), d);
        lemma_fundamental_div_mod(t, len);
        lemma_mod_bound(t, len);
        let e = t % len;
        assert(self.index_ticks() + k * d == (t / len) * (len * d) + e * d && 0 <= e * d < len * d)
            by (nonlinear_arith)
            requires
                self.index_ticks() == d * j + 0,
                t == j + k,
                t == len * (t / len) + e,
                0 <= e < len,
                d > 0,
        ;
        lemma_fundamental_div_mod_converse(self.index_ticks() + k * d, len * d, t / len, e * d);
        lemma_div_shift(0, e, d);
        lemma_div_multiples_vanish(self.table()[e] as int, d);
    }

    /// Doubling the frequency doubles the step, and with it the speed: `k`
    /// pulls at frequency `2 * f` reach the position that `2 * k` pulls at
    /// `f` reach, so a full cycle takes half as many pulls.
    pub proof fn lemma_double_frequency(self, frequency: int, k: nat)
        requires
            self.wf(),
            i64::MIN <= 2 * frequency <= i64::MAX,
        ensures
            self.increment_for(2 * frequency) == 2 * self.increment_for(frequency),
            self.with_increment(self.increment_for(2 * frequency)).phase_after(k)
                == self.with_increment(self.increment_for(frequency)).phase_after(2 * k),
    {
        let len = self.table().len() as int;
        let x = frequency * len;
        let x2 = (2 * frequency) * len;
        assert(x2 == 2 * x && i128::MIN < x2 <= i128::MAX && i128::MIN < x <= i128::MAX)
            by (nonlinear_arith)
            requires
                x == frequency * len,
                x2 == (2 * frequency) * len,
                -0x8000_0000_0000_0000 <= 2 * frequency <= 0x7fff_ffff_ffff_ffff,
                0 < len <= 0xffff_ffff_ffff_ffff,
        ;
        let o1 = self.with_increment(x);
        let o2 = self.with_increment(x2);
        assert(o1.increment_ticks() == x);
        assert(o2.increment_ticks() == x2);
        assert(k * x2 == (2 * k) * x) by (nonlinear_arith)
            requires
                x2 == 2 * x,
        ;
    }

    /// A higher frequency gives a larger step.
    pub proof fn lemma_increment_monotone(self, f1: int, f2: int)
        requires
            self.wf(),
            f1 <= f2,
        ensures
            self.increment_for(f1) <= self.increment_for(f2),
    {
        let len = self.table().len() as int;
        assert(f1 * len <= f2 * len) by (nonlinear_arith)
            requires
                f1 <= f2,
                len > 0,
        ;
    }

    fn ticks_per_slot(&self) -> (r: u128)
        requires
            self.wf(),
        ensures
            r as int == self.slot_ticks(),
    {
        FREQ_SCALE as u128 * self.sample_rate as u128
    }
}

} // verus!
