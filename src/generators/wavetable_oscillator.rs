use vstd::prelude::*;
use vstd::arithmetic::div_mod::*;
use vstd::arithmetic::mul::*;
use crate::audio::{AudioUnit, Buffer, UNIT};
use crate::wavetable_oscillator::lemma_div_shift;
use crate::wavetable_oscillator::WavetableOscillator as Engine;

verus! {

/// The waveform shapes that a table can hold.
#[derive(Clone, Copy, Debug, PartialEq, Eq, Structural)]
pub enum Waveform {
    Sine,
    Square,
    Sawtooth,
    Triangle,
}

/// The Taylor coefficients of `sin(pi x / 2)`, in magnitude, as multiples
/// of `1 / UNIT`: `(pi / 2)^k / k!` for `k = 1, 3, 5, 7, 9, 11`.
pub const SINE_C1: u64 = 1686629713;
pub const SINE_C3: u64 = 693598668;
pub const SINE_C5: u64 = 85569306;
pub const SINE_C7: u64 = 5026995;
pub const SINE_C9: u64 = 172272;
pub const SINE_C11: u64 = 3864;

/// One Horner step `c - y * b` of the sine polynomial, in fixed point.
pub open spec fn horner_step(c: int, y: int, b: int) -> int {
    c - (y * b) / (UNIT as int)
}

/// `sin(pi x / 2)` for `x` in `[0, UNIT]` standing for `[0, 1]`: the Taylor
/// polynomial of degree 11, evaluated by Horner's rule in fixed point with
/// each product rounded down, and capped at `UNIT`. Its error is below
/// `1e-7`.
pub open spec fn sine_quarter(x: int) -> int {
    let u = UNIT as int;
    let y = (x * x) / u;
    let b9 = horner_step(SINE_C9 as int, y, SINE_C11 as int);
    let b7 = horner_step(SINE_C7 as int, y, b9);
    let b5 = horner_step(SINE_C5 as int, y, b7);
    let b3 = horner_step(SINE_C3 as int, y, b5);
    let b1 = horner_step(SINE_C1 as int, y, b3);
    let v = (x * b1) / u;
    if v > u {
        u
    } else {
        v
    }
}

/// Where entry `n` of the first half period falls on the quarter wave, in
/// units of `size / 4`: rising up to a quarter period, falling after it.
pub open spec fn sine_quarter_arg(n: int, size: int) -> int {
    if 4 * n <= size {
        4 * n
    } else {
        2 * size - 4 * n
    }
}

/// Half a period of the sine, for `0 <= n <= size / 2`:
/// `sin(2 pi n / size)`, with the phase `n / size` brought to the quarter
/// wave and rounded down to a multiple of `1 / UNIT`.
pub open spec fn sine_half(n: int, size: int) -> int {
    sine_quarter((UNIT * sine_quarter_arg(n, size)) / size)
}

/// Entry `n` of a sine table of `size` entries: the second half mirrors the
/// first with the sign changed.
pub open spec fn sine_sample(n: int, size: int) -> int {
    if 2 * n <= size {
        sine_half(n, size)
    } else {
        -sine_half(size - n, size)
    }
}

/// Entry `n` of a square table: `1` before the middle entry, `0` on it,
/// `-1` after it.
pub open spec fn square_sample(n: int, size: int) -> int {
    if n < size / 2 {
        UNIT as int
    } else if n == size / 2 {
        0
    } else {
        -UNIT
    }
}

/// Entry `n` of a sawtooth table: `2 n / size - 1`.
pub open spec fn sawtooth_sample(n: int, size: int) -> int {
    (UNIT * (2 * n - size)) / size
}

/// Entry `n` of a triangle table: with `h = size / 2`, `2 n / h - 1` up to
/// the middle and `3 - 2 n / h` after it.
pub open spec fn triangle_sample(n: int, size: int) -> int {
    let h = size / 2;
    if n <= h {
        (UNIT * (2 * n - h)) / h
    } else {
        (UNIT * (3 * h - 2 * n)) / h
    }
}

/// Entry `n` of a table of `size` entries of the given shape.
pub open spec fn waveform_sample(waveform: Waveform, n: int, size: int) -> int {
    match waveform {
        Waveform::Sine => sine_sample(n, size),
        Waveform::Square => square_sample(n, size),
        Waveform::Sawtooth => sawtooth_sample(n, size),
        Waveform::Triangle => triangle_sample(n, size),
    }
}

/// Whether `table` holds one period of the given shape, entry by entry.
pub open spec fn is_wavetable(table: Seq<AudioUnit>, waveform: Waveform, size: int) -> bool {
    &&& table.len() == size
    &&& forall|n: int| 0 <= n < size ==> #[trigger] table[n] as int == waveform_sample(waveform, n, size)
}

/// A Horner step with `y` in `[0, UNIT]` and `b` in `[0, c']` for a
/// coefficient `c' <= c` stays in `[0, c]`.
pub proof fn lemma_horner_step(c: int, y: int, b: int, b_max: int)
    requires
        0 <= y <= UNIT,
        0 <= b <= b_max <= c,
    ensures
        0 <= horner_step(c, y, b) <= c,
        (y * b) / (UNIT as int) <= b,
{
    let u = UNIT as int;
    assert(0 <= y * b <= b * u) by (nonlinear_arith)
        requires
            0 <= y <= u,
            0 <= b,
    ;
    lemma_div_is_ordered(0, y * b, u);
    lemma_div_is_ordered(y * b, b * u, u);
    lemma_div_multiples_vanish(b, u);
    assert(u * b == b * u) by (nonlinear_arith);
}

pub proof fn lemma_sine_quarter_bounds(x: int)
    requires
        0 <= x <= UNIT,
    ensures
        0 <= sine_quarter(x) <= UNIT,
        x == 0 ==> sine_quarter(x) == 0,
        (x * x) / (UNIT as int) <= UNIT,
{
    let u = UNIT as int;
    assert(0 <= x * x <= u * u) by (nonlinear_arith)
        requires
            0 <= x <= u,
    ;
    lemma_div_is_ordered(0, x * x, u);
    lemma_div_is_ordered(x * x, u * u, u);
    lemma_div_multiples_vanish(u, u);
    let y = (x * x) / u;
    lemma_horner_step(SINE_C9 as int, y, SINE_C11 as int, SINE_C11 as int);
    let b9 = horner_step(SINE_C9 as int, y, SINE_C11 as int);
    lemma_horner_step(SINE_C7 as int, y, b9, SINE_C9 as int);
    let b7 = horner_step(SINE_C7 as int, y, b9);
    lemma_horner_step(SINE_C5 as int, y, b7, SINE_C7 as int);
    let b5 = horner_step(SINE_C5 as int, y, b7);
    lemma_horner_step(SINE_C3 as int, y, b5, SINE_C5 as int);
    let b3 = horner_step(SINE_C3 as int, y, b5);
    lemma_horner_step(SINE_C1 as int, y, b3, SINE_C3 as int);
    let b1 = horner_step(SINE_C1 as int, y, b3);
    assert(0 <= x * b1) by (nonlinear_arith)
        requires
            0 <= x,
            0 <= b1,
    ;
    lemma_div_is_ordered(0, x * b1, u);
    if x == 0 {
        assert(x * b1 == 0) by (nonlinear_arith)
            requires
                x == 0,
        ;
    }
}

pub proof fn lemma_sine_half_bounds(n: int, size: int)
    requires
        0 <= n,
        2 * n <= size,
        size >= 1,
    ensures
        0 <= sine_quarter_arg(n, size) <= size,
        0 <= (UNIT * sine_quarter_arg(n, size)) / size <= UNIT,
        0 <= sine_half(n, size) <= UNIT,
        sine_quarter_arg(n, size) == 0 ==> sine_half(n, size) == 0,
{
    let a = sine_quarter_arg(n, size);
    assert(0 <= UNIT * a <= UNIT * size) by (nonlinear_arith)
        requires
            0 <= a <= size,
    ;
    lemma_div_is_ordered(0, UNIT * a, size);
    lemma_div_is_ordered(UNIT * a, UNIT * size, size);
    lemma_div_multiples_vanish(UNIT as int, size);
    assert(UNIT * size == size * UNIT) by (nonlinear_arith);
    if a == 0 {
        assert(UNIT * a == 0);
    }
    lemma_sine_quarter_bounds((UNIT * a) / size);
}

pub proof fn lemma_sawtooth_value(n: int, size: int)
    requires
        0 <= n < size,
    ensures
        sawtooth_sample(n, size) == (2 * UNIT * n) / size - UNIT,
        -UNIT <= sawtooth_sample(n, size) < UNIT,
{
    assert(UNIT * (2 * n - size) == 2 * UNIT * n + (-UNIT) * size) by (nonlinear_arith);
    lemma_div_shift(2 * UNIT * n, -UNIT, size);
    assert(0 <= 2 * UNIT * n < size * (2 * UNIT)) by (nonlinear_arith)
        requires
            0 <= n < size,
    ;
    lemma_div_is_ordered(0, 2 * UNIT * n, size);
    lemma_multiply_divide_lt(2 * UNIT * n, size, 2 * UNIT);
}

pub proof fn lemma_triangle_value(n: int, size: int)
    requires
        0 <= n < size,
        size >= 2,
    ensures
        n <= size / 2 ==> triangle_sample(n, size) == (2 * UNIT * n) / (size / 2) - UNIT,
        n >= size / 2 ==> triangle_sample(n, size) == (UNIT * (3 * (size / 2) - 2 * n)) / (size / 2),
        n > size / 2 ==> triangle_sample(n, size) == (UNIT * (4 * (size / 2) - 2 * n)) / (size / 2) - UNIT,
        -UNIT <= triangle_sample(n, size) <= UNIT,
{
    let h = size / 2;
    assert(h >= 1 && n <= 2 * h) by {
        lemma_fundamental_div_mod(size, 2);
    }
    if n <= h {
        assert(UNIT * (2 * n - h) == 2 * UNIT * n + (-UNIT) * h) by (nonlinear_arith);
        lemma_div_shift(2 * UNIT * n, -UNIT, h);
        assert(0 <= 2 * UNIT * n <= h * (2 * UNIT)) by (nonlinear_arith)
            requires
                0 <= n <= h,
        ;
        lemma_div_is_ordered(0, 2 * UNIT * n, h);
        lemma_div_is_ordered(2 * UNIT * n, h * (2 * UNIT), h);
        lemma_div_multiples_vanish(2 * UNIT, h);
        if n == h {
            assert(UNIT * (3 * h - 2 * n) == UNIT * (2 * n - h)) by (nonlinear_arith)
                requires
                    n == h,
            ;
        }
    } else {
        assert(UNIT * (3 * h - 2 * n) == UNIT * (4 * h - 2 * n) + (-UNIT) * h) by (nonlinear_arith);
        lemma_div_shift(UNIT * (4 * h - 2 * n), -UNIT, h);
        assert(0 <= UNIT * (4 * h - 2 * n) <= h * (2 * UNIT)) by (nonlinear_arith)
            requires
                h < n <= 2 * h,
        ;
        lemma_div_is_ordered(0, UNIT * (4 * h - 2 * n), h);
        lemma_div_is_ordered(UNIT * (4 * h - 2 * n), h * (2 * UNIT), h);
        lemma_div_multiples_vanish(2 * UNIT, h);
    }
}

/// Whether `table` is `start` followed by the first `count` entries of a
/// table of the given shape and of `size` entries.
pub open spec fn is_appended(
    table: Seq<AudioUnit>,
    start: Seq<AudioUnit>,
    waveform: Waveform,
    count: int,
    size: int,
) -> bool {
    &&& table.len() == start.len() + count
    &&& table.subrange(0, start.len() as int) == start
    &&& forall|n: int|
        0 <= n < count ==> #[trigger] table[start.len() + n] as int == waveform_sample(waveform, n, size)
}

/// One Horner step `c - y * b / UNIT` of the sine polynomial.
fn horner(c: u64, y: u128, b: u128) -> (r: u128)
    requires
        y <= UNIT,
        b <= c,
    ensures
        r as int == horner_step(c as int, y as int, b as int),
        r <= c,
{
    proof {
        lemma_horner_step(c as int, y as int, b as int, b as int);
        assert(y * b <= 0x4000_0000 * 0xffff_ffff_ffff_ffff) by (nonlinear_arith)
            requires
                y <= 0x4000_0000,
                b <= 0xffff_ffff_ffff_ffff,
        ;
    }
    c as u128 - (y * b) / UNIT as u128
}

/// An oscillator that builds its own table of a chosen shape and plays it
/// through an [`Engine`].
pub struct WavetableOscillator {
    engine: Engine,
}

impl WavetableOscillator {
    /// The engine that plays the table.
    pub closed spec fn engine(self) -> Engine {
        self.engine
    }

    pub open spec fn wf(self) -> bool {
        self.engine().wf()
    }

    /// One period of the given shape, `wavetable_size` entries long. The
    /// size is at most `u32::MAX`, so that the fixed-point arithmetic of the
    /// sine fits in 128 bits.
    pub fn generate_wavetable(wavetable_size: usize, waveform: Waveform) -> (r: Buffer)
        requires
            2 <= wavetable_size <= u32::MAX,
        ensures
            is_wavetable(r@, waveform, wavetable_size as int),
            forall|n: int| 0 <= n < r@.len() ==> -UNIT <= #[trigger] r@[n] <= UNIT,
    {
        let mut wave_table: Buffer = Vec::with_capacity(wavetable_size);
        match waveform {
            Waveform::Sine => WavetableOscillator::generate_sine_wavetable(&mut wave_table, wavetable_size),
            Waveform::Square => WavetableOscillator::generate_square_wavetable(&mut wave_table, wavetable_size),
            Waveform::Sawtooth => WavetableOscillator::generate_sawtooth_wavetable(&mut wave_table, wavetable_size),
            Waveform::Triangle => WavetableOscillator::generate_triangle_wavetable(&mut wave_table, wavetable_size),
        }
        proof {
            assert forall|n: int| 0 <= n < wavetable_size implies #[trigger] wave_table@[n] as int
                == waveform_sample(waveform, n, wavetable_size as int) by {
                assert(wave_table@[0 + n] == wave_table@[n]);
            }
            assert forall|n: int| 0 <= n < wave_table@.len() implies -UNIT <= #[trigger] wave_table@[n] <= UNIT by {
                lemma_samples_in_range(waveform, wavetable_size as int, n);
            }
        }
        wave_table
    }

    fn generate_sine_wavetable(buffer: &mut Buffer, wavetable_size: usize)
        requires
            2 <= wavetable_size <= u32::MAX,
        ensures
            is_appended(final(buffer)@, old(buffer)@, Waveform::Sine, wavetable_size as int, wavetable_size as int),
    {
        let ghost start = buffer@;
        assert(buffer@.subrange(0, start.len() as int) =~= start);
        let size = wavetable_size as u128;
        for n in 0..wavetable_size
            invariant
                is_appended(buffer@, start, Waveform::Sine, n as int, wavetable_size as int),
                size == wavetable_size as u128,
                2 <= wavetable_size <= u32::MAX,
        {
            let rising = n <= wavetable_size / 2;
            let m: u128 = if rising {
                n as u128
            } else {
                (wavetable_size - n) as u128
            };
            proof {
                lemma_sine_half_bounds(m as int, size as int);
            }
            let a: u128 = if 4 * m <= size {
                4 * m
            } else {
                2 * size - 4 * m
            };
            let x: u128 = (UNIT as u128 * a) / size;
            proof {
                assert(a as int == sine_quarter_arg(m as int, size as int));
                lemma_sine_quarter_bounds(x as int);
                assert(x * x <= 0x4000_0000 * 0x4000_0000) by (nonlinear_arith)
                    requires
                        x <= 0x4000_0000,
                ;
            }
            let y: u128 = (x * x) / UNIT as u128;
            let b9: u128 = horner(SINE_C9, y, SINE_C11 as u128);
            let b7: u128 = horner(SINE_C7, y, b9);
            let b5: u128 = horner(SINE_C5, y, b7);
            let b3: u128 = horner(SINE_C3, y, b5);
            let b1: u128 = horner(SINE_C1, y, b3);
            proof {
                assert(x * b1 <= 0x4000_0000 * 0x6488_7f51) by (nonlinear_arith)
                    requires
                        x <= 0x4000_0000,
                        b1 <= 0x6488_7f51,
                ;
            }
            let v: u128 = (x * b1) / UNIT as u128;
            let q: u128 = if v > UNIT as u128 {
                UNIT as u128
            } else {
                v
            };
            let value: i32 = if rising {
                q as i32
            } else {
                -(q as i32)
            };
            buffer.push(value);
            assert(buffer@.subrange(0, start.len() as int) =~= start);
        }
    }

    fn generate_square_wavetable(buffer: &mut Buffer, wavetable_size: usize)
        requires
            2 <= wavetable_size <= u32::MAX,
        ensures
            is_appended(final(buffer)@, old(buffer)@, Waveform::Square, wavetable_size as int, wavetable_size as int),
    {
        let ghost start = buffer@;
        assert(buffer@.subrange(0, start.len() as int) =~= start);
        for n in 0..wavetable_size
            invariant
                is_appended(buffer@, start, Waveform::Square, n as int, wavetable_size as int),
        {
            let half_size = wavetable_size / 2;
            let value: i32 = if n < half_size {
                UNIT
            } else if n == half_size {
                0
            } else {
                -UNIT
            };
            buffer.push(value);
            assert(buffer@.subrange(0, start.len() as int) =~= start);
        }
    }

    fn generate_sawtooth_wavetable(buffer: &mut Buffer, wavetable_size: usize)
        requires
            2 <= wavetable_size <= u32::MAX,
        ensures
            is_appended(final(buffer)@, old(buffer)@, Waveform::Sawtooth, wavetable_size as int, wavetable_size as int),
    {
        let ghost start = buffer@;
        assert(buffer@.subrange(0, start.len() as int) =~= start);
        for n in 0..wavetable_size
            invariant
                is_appended(buffer@, start, Waveform::Sawtooth, n as int, wavetable_size as int),
                2 <= wavetable_size <= u32::MAX,
        {
            proof {
                lemma_sawtooth_value(n as int, wavetable_size as int);
            }
            let q: u128 = (2 * UNIT as u128 * n as u128) / wavetable_size as u128;
            let value: i32 = (q as i64 - UNIT as i64) as i32;
            buffer.push(value);
            assert(buffer@.subrange(0, start.len() as int) =~= start);
        }
    }

    fn generate_triangle_wavetable(buffer: &mut Buffer, wavetable_size: usize)
        requires
            2 <= wavetable_size <= u32::MAX,
        ensures
            is_appended(final(buffer)@, old(buffer)@, Waveform::Triangle, wavetable_size as int, wavetable_size as int),
    {
        let ghost start = buffer@;
        assert(buffer@.subrange(0, start.len() as int) =~= start);
        for n in 0..wavetable_size
            invariant
                is_appended(buffer@, start, Waveform::Triangle, n as int, wavetable_size as int),
                2 <= wavetable_size <= u32::MAX,
        {
            let half_size = wavetable_size / 2;
            proof {
                lemma_triangle_value(n as int, wavetable_size as int);
            }
            let q: u128 = if n <= half_size {
                (2 * UNIT as u128 * n as u128) / half_size as u128
            } else {
                (UNIT as u128 * (4 * half_size as u128 - 2 * n as u128)) / half_size as u128
            };
            let value: i32 = (q as i64 - UNIT as i64) as i32;
            buffer.push(value);
            assert(buffer@.subrange(0, start.len() as int) =~= start);
        }
    }

    /// Builds a table of `table_size` entries of the given shape and an
    /// engine that plays it at `sample_rate`, silent until a frequency is set.
    /// The table size is at most `u32::MAX`, as for [`Self::generate_wavetable`].
    pub fn new(sample_rate: u32, table_size: usize, waveform: Waveform) -> (r: WavetableOscillator)
        requires
            sample_rate > 0,
            2 <= table_size <= u32::MAX,
        ensures
            r.wf(),
            is_wavetable(r.engine().table(), waveform, table_size as int),
            r.engine().rate() == sample_rate as int,
            r.engine().index_ticks() == 0,
            r.engine().increment_ticks() == 0,
    {
        let wave_table = WavetableOscillator::generate_wavetable(table_size, waveform);
        WavetableOscillator { engine: Engine::new(sample_rate, wave_table) }
    }

    /// Sets the playback frequency, in millihertz (see [`Engine::set_frequency`]).
    pub fn set_frequency(&mut self, frequency: i64)
        requires
            old(self).wf(),
        ensures
            final(self).wf(),
            final(self).engine() == old(self).engine().with_increment(
                old(self).engine().increment_for(frequency as int),
            ),
            final(self).engine().table() == old(self).engine().table(),
            final(self).engine().rate() == old(self).engine().rate(),
            final(self).engine().index_ticks() == old(self).engine().index_ticks(),
            final(self).engine().increment_ticks() == old(self).engine().increment_for(frequency as int),
    {
        self.engine.set_frequency(frequency);
    }

    /// Returns the next interpolated sample and moves on by one step (see
    /// [`Engine::get_sample`]).
    pub fn get_sample(&mut self) -> (r: AudioUnit)
        requires
            old(self).wf(),
        ensures
            r as int == old(self).engine().current_sample(),
            final(self).engine() == old(self).engine().after_pull(),
            final(self).wf(),
            final(self).engine().table() == old(self).engine().table(),
            final(self).engine().rate() == old(self).engine().rate(),
            final(self).engine().increment_ticks() == old(self).engine().increment_ticks(),
            final(self).engine().index_ticks() == old(self).engine().phase_after(1),
    {
        self.engine.get_sample()
    }

    /// The output rate, in samples per second.
    pub fn sample_rate(&self) -> (r: u32)
        ensures
            r as int == self.engine().rate(),
    {
        self.engine.sample_rate()
    }

    /// The step taken per sample, in ticks.
    pub fn increment(&self) -> (r: i128)
        ensures
            r as int == self.engine().increment_ticks(),
    {
        self.engine.increment()
    }

    /// The length of one table entry, in ticks.
    pub fn ticks_per_entry(&self) -> (r: u128)
        requires
            self.wf(),
        ensures
            r as int == self.engine().slot_ticks(),
    {
        self.engine.ticks_per_entry()
    }
}

/// Every entry of a table of any shape and of at least two entries lies in
/// `[-1, 1]`.
pub proof fn lemma_samples_in_range(waveform: Waveform, size: int, n: int)
    requires
        size >= 2,
        0 <= n < size,
    ensures
        -UNIT <= waveform_sample(waveform, n, size) <= UNIT,
{
    match waveform {
        Waveform::Sine => {
            if 2 * n <= size {
                lemma_sine_half_bounds(n, size);
            } else {
                lemma_sine_half_bounds(size - n, size);
            }
        },
        Waveform::Square => {},
        Waveform::Sawtooth => lemma_sawtooth_value(n, size),
        Waveform::Triangle => lemma_triangle_value(n, size),
    }
}

/// The sine table starts at zero and is antisymmetric about its middle:
/// entry `size - n` is entry `n` with the sign changed.
pub proof fn lemma_sine_antisymmetric(size: int, n: int)
    requires
        size >= 2,
        0 < n < size,
    ensures
        sine_sample(0, size) == 0,
        2 * n == size ==> sine_sample(n, size) == 0,
        sine_sample(size - n, size) == -sine_sample(n, size),
{
    lemma_sine_half_bounds(0, size);
    if 2 * n == size {
        lemma_sine_half_bounds(n, size);
    }
}

/// A square table of even size holds `1` on its first half, `0` in the
/// middle and `-1` after it.
pub proof fn lemma_square_shape(size: int, n: int)
    requires
        size >= 2,
        size % 2 == 0,
        0 <= n < size,
    ensures
        n < size / 2 ==> square_sample(n, size) == UNIT,
        n == size / 2 ==> square_sample(n, size) == 0,
        n > size / 2 ==> square_sample(n, size) == -UNIT,
{
}

/// A sawtooth table starts at `-1`, rises strictly from each entry to the
/// next and stays below `1`. Strictness needs a table of at most
/// `2 * UNIT` entries: with more, neighbours may round to the same value.
pub proof fn lemma_sawtooth_shape(size: int, n: int)
    requires
        2 <= size <= 2 * UNIT,
        0 <= n,
        n + 1 < size,
    ensures
        sawtooth_sample(0, size) == -UNIT,
        sawtooth_sample(n, size) < sawtooth_sample(n + 1, size),
        sawtooth_sample(size - 1, size) < UNIT,
{
    lemma_sawtooth_value(0, size);
    lemma_sawtooth_value(n, size);
    lemma_sawtooth_value(n + 1, size);
    lemma_sawtooth_value(size - 1, size);
    assert(2 * UNIT * 0 == 0);
    assert(2 * UNIT * (n + 1) >= 2 * UNIT * n + size) by (nonlinear_arith)
        requires
            size <= 2 * UNIT,
    ;
    lemma_div_is_ordered(2 * UNIT * n + 1 * size, 2 * UNIT * (n + 1), size);
    lemma_div_shift(2 * UNIT * n, 1, size);
}

/// Any entry of a sawtooth table lies strictly below every later entry
/// (for tables of at most `2 * UNIT` entries, as above).
pub proof fn lemma_sawtooth_increasing(size: int, i: int, j: int)
    requires
        2 <= size <= 2 * UNIT,
        0 <= i < j < size,
    ensures
        sawtooth_sample(i, size) < sawtooth_sample(j, size),
    decreases j - i,
{
    lemma_sawtooth_shape(size, j - 1);
    if i < j - 1 {
        lemma_sawtooth_increasing(size, i, j - 1);
    }
}

/// A triangle table rises from `-1` to `1` over its first half, entry by
/// entry, and falls after the middle.
pub proof fn lemma_triangle_shape(size: int, n: int, m: int)
    requires
        size >= 2,
        0 <= n <= m < size,
    ensures
        triangle_sample(0, size) == -UNIT,
        triangle_sample(size / 2, size) == UNIT,
        m <= size / 2 ==> triangle_sample(n, size) <= triangle_sample(m, size),
        size / 2 <= n ==> triangle_sample(n, size) >= triangle_sample(m, size),
{
    let h = size / 2;
    assert(h >= 1 && h < size) by {
        lemma_fundamental_div_mod(size, 2);
    }
    lemma_triangle_value(0, size);
    lemma_triangle_value(h, size);
    lemma_triangle_value(n, size);
    lemma_triangle_value(m, size);
    assert(2 * UNIT * 0 == 0);
    lemma_div_multiples_vanish(2 * UNIT, h);
    assert(2 * UNIT * h == h * (2 * UNIT)) by (nonlinear_arith);
    if m <= h {
        assert(2 * UNIT * n <= 2 * UNIT * m) by (nonlinear_arith)
            requires
                n <= m,
        ;
        lemma_div_is_ordered(2 * UNIT * n, 2 * UNIT * m, h);
    }
    if h <= n {
        assert(UNIT * (3 * h - 2 * m) <= UNIT * (3 * h - 2 * n)) by (nonlinear_arith)
            requires
                n <= m,
        ;
        lemma_div_is_ordered(UNIT * (3 * h - 2 * m), UNIT * (3 * h - 2 * n), h);
    }
}

} // verus!
