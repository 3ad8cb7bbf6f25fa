use wavetable::audio::UNIT;
use wavetable::generators::wavetable_oscillator::{Waveform, WavetableOscillator};
use wavetable::wavetable_oscillator::WavetableOscillator as Engine;

const SHAPES: [Waveform; 4] = [Waveform::Sine, Waveform::Square, Waveform::Sawtooth, Waveform::Triangle];

#[test]
fn every_sample_in_unit_range() {
    for shape in SHAPES {
        for size in [2usize, 3, 4, 5, 7, 8, 100, 2048] {
            let table = WavetableOscillator::generate_wavetable(size, shape);
            assert_eq!(table.len(), size);
            for v in table {
                assert!(-UNIT <= v && v <= UNIT);
            }
        }
    }
}

#[test]
fn sine_table_starts_at_zero_and_is_antisymmetric() {
    let size = 2048usize;
    let table = WavetableOscillator::generate_wavetable(size, Waveform::Sine);
    assert_eq!(table[0], 0);
    for n in 1..size {
        assert_eq!(table[size - n], -table[n]);
    }
}

#[test]
fn sine_table_follows_the_sine() {
    let size = 2048usize;
    let table = WavetableOscillator::generate_wavetable(size, Waveform::Sine);
    for n in 0..size {
        let expected = (2.0 * std::f64::consts::PI * n as f64 / size as f64).sin();
        let got = table[n] as f64 / UNIT as f64;
        assert!((got - expected).abs() < 1e-7);
    }
    assert!(table[size / 4] <= UNIT && table[size / 4] > UNIT - 64);
    assert_eq!(table[size / 2], 0);
    assert_eq!(table[3 * size / 4], -table[size / 4]);
}

#[test]
fn sine_table_of_four() {
    let table = WavetableOscillator::generate_wavetable(4, Waveform::Sine);
    assert_eq!(table, vec![0, 1073741764, 0, -1073741764]);
}

#[test]
fn sine_table_of_eight() {
    let table = WavetableOscillator::generate_wavetable(8, Waveform::Sine);
    let s = 759250125;
    let q = 1073741764;
    assert_eq!(table, vec![0, s, q, s, 0, -s, -q, -s]);
}

#[test]
fn square_table_of_even_size() {
    let size = 8usize;
    let table = WavetableOscillator::generate_wavetable(size, Waveform::Square);
    for n in 0..size / 2 {
        assert_eq!(table[n], UNIT);
    }
    assert_eq!(table[size / 2], 0);
    for n in size / 2 + 1..size {
        assert_eq!(table[n], -UNIT);
    }
}

#[test]
fn square_table_of_four() {
    let table = WavetableOscillator::generate_wavetable(4, Waveform::Square);
    assert_eq!(table, vec![UNIT, UNIT, 0, -UNIT]);
}

#[test]
fn square_table_of_odd_size() {
    let table = WavetableOscillator::generate_wavetable(5, Waveform::Square);
    assert_eq!(table, vec![UNIT, UNIT, 0, -UNIT, -UNIT]);
    let table = WavetableOscillator::generate_wavetable(3, Waveform::Square);
    assert_eq!(table, vec![UNIT, 0, -UNIT]);
}

#[test]
fn sawtooth_table_rises_strictly() {
    let size = 2048usize;
    let table = WavetableOscillator::generate_wavetable(size, Waveform::Sawtooth);
    assert_eq!(table[0], -UNIT);
    for n in 0..size - 1 {
        assert!(table[n] < table[n + 1]);
    }
    assert!(table[size - 1] < UNIT);
    assert!(table[size - 1] > UNIT - UNIT / 512);
}

#[test]
fn sawtooth_table_of_four() {
    let table = WavetableOscillator::generate_wavetable(4, Waveform::Sawtooth);
    assert_eq!(table, vec![-UNIT, -UNIT / 2, 0, UNIT / 2]);
}

#[test]
fn triangle_table_rises_then_falls() {
    let size = 2048usize;
    let table = WavetableOscillator::generate_wavetable(size, Waveform::Triangle);
    assert_eq!(table[0], -UNIT);
    assert_eq!(table[size / 2], UNIT);
    for n in 0..size / 2 {
        assert!(table[n] <= table[n + 1]);
    }
    for n in size / 2..size - 1 {
        assert!(table[n] >= table[n + 1]);
    }
}

#[test]
fn triangle_table_of_eight() {
    let table = WavetableOscillator::generate_wavetable(8, Waveform::Triangle);
    let h = UNIT / 2;
    assert_eq!(table, vec![-UNIT, -h, 0, h, UNIT, h, 0, -h]);
}

#[test]
fn new_oscillator_is_silent() {
    let mut osc = WavetableOscillator::new(8, 8, Waveform::Sine);
    assert_eq!(osc.increment(), 0);
    assert_eq!(osc.sample_rate(), 8);
    for _ in 0..5 {
        assert_eq!(osc.get_sample(), 0);
    }
}

#[test]
fn sine_at_one_hertz_plays_the_table() {
    let table = WavetableOscillator::generate_wavetable(8, Waveform::Sine);
    let mut osc = WavetableOscillator::new(8, 8, Waveform::Sine);
    osc.set_frequency(1000);
    assert_eq!(osc.increment(), osc.ticks_per_entry() as i128);
    for cycle in 0..3 {
        for n in 0..8 {
            assert_eq!(osc.get_sample(), table[n], "cycle {} entry {}", cycle, n);
        }
    }
}

#[test]
fn whole_entry_steps_return_exact_entries() {
    let mut engine = Engine::new(1, vec![10, -20, 30, 40]);
    engine.set_frequency(250);
    assert_eq!(engine.increment(), engine.ticks_per_entry() as i128);
    let got: Vec<i32> = (0..9).map(|_| engine.get_sample()).collect();
    assert_eq!(got, vec![10, -20, 30, 40, 10, -20, 30, 40, 10]);
}

#[test]
fn half_entry_steps_return_midpoints() {
    let mut engine = Engine::new(1, vec![10, 20, 30, 40]);
    engine.set_frequency(125);
    assert_eq!(engine.increment() * 2, engine.ticks_per_entry() as i128);
    let got: Vec<i32> = (0..9).map(|_| engine.get_sample()).collect();
    assert_eq!(got, vec![10, 15, 20, 25, 30, 35, 40, 25, 10]);
}

#[test]
fn midpoint_rounds_down() {
    let mut engine = Engine::new(1, vec![1, 2]);
    engine.set_frequency(250);
    let got: Vec<i32> = (0..4).map(|_| engine.get_sample()).collect();
    assert_eq!(got, vec![1, 1, 2, 1]);
    let mut engine = Engine::new(1, vec![-1, -2]);
    engine.set_frequency(250);
    let got: Vec<i32> = (0..4).map(|_| engine.get_sample()).collect();
    assert_eq!(got, vec![-1, -2, -2, -2]);
}

#[test]
fn quarter_entry_interpolation() {
    let mut engine = Engine::new(1, vec![0, 100]);
    engine.set_frequency(125);
    let got: Vec<i32> = (0..8).map(|_| engine.get_sample()).collect();
    assert_eq!(got, vec![0, 25, 50, 75, 100, 75, 50, 25]);
}

#[test]
fn negative_frequency_plays_backwards() {
    let mut engine = Engine::new(1, vec![10, 20, 30, 40]);
    engine.set_frequency(-250);
    assert_eq!(engine.increment(), -(engine.ticks_per_entry() as i128));
    let got: Vec<i32> = (0..6).map(|_| engine.get_sample()).collect();
    assert_eq!(got, vec![10, 40, 30, 20, 10, 40]);
}

#[test]
fn phase_wraps_and_repeats() {
    let table = WavetableOscillator::generate_wavetable(16, Waveform::Triangle);
    let mut osc = WavetableOscillator::new(16, 16, Waveform::Triangle);
    osc.set_frequency(1000);
    for k in 0..10_000usize {
        assert_eq!(osc.get_sample(), table[k % 16]);
    }
}

#[test]
fn large_frequency_keeps_its_whole_step() {
    let mut engine = Engine::new(1, vec![10, 20, 30, 40]);
    let entry = engine.ticks_per_entry() as i128;
    engine.set_frequency(1250);
    assert_eq!(engine.increment(), 5 * entry);
    let got: Vec<i32> = (0..5).map(|_| engine.get_sample()).collect();
    assert_eq!(got, vec![10, 20, 30, 40, 10]);
    engine.set_frequency(i64::MAX);
    assert_eq!(engine.increment(), i64::MAX as i128 * 4);
    engine.get_sample();
    engine.set_frequency(i64::MIN);
    assert_eq!(engine.increment(), i64::MIN as i128 * 4);
    engine.get_sample();
}

#[test]
fn step_grows_with_frequency() {
    let mut engine = Engine::new(1, vec![10, 20, 30, 40]);
    let mut last = i128::MIN;
    for f in [-1000i64, -250, 0, 250, 750, 1000, 1500] {
        engine.set_frequency(f);
        assert_eq!(engine.increment(), f as i128 * 4);
        assert!(engine.increment() > last);
        last = engine.increment();
    }
}

#[test]
fn doubling_frequency_halves_cycle_length() {
    let mut slow = WavetableOscillator::new(44100, 2048, Waveform::Sawtooth);
    let mut fast = WavetableOscillator::new(44100, 2048, Waveform::Sawtooth);
    slow.set_frequency(220_000);
    fast.set_frequency(440_000);
    assert_eq!(fast.increment(), 2 * slow.increment());
    for _ in 0..1000 {
        let a = fast.get_sample();
        let b = slow.get_sample();
        slow.get_sample();
        assert_eq!(a, b);
    }
}

#[test]
fn doubling_frequency_halves_pulls_per_cycle() {
    let table = WavetableOscillator::generate_wavetable(8, Waveform::Square);
    let mut osc = WavetableOscillator::new(8, 8, Waveform::Square);
    osc.set_frequency(2000);
    let got: Vec<i32> = (0..8).map(|_| osc.get_sample()).collect();
    assert_eq!(got, vec![table[0], table[2], table[4], table[6], table[0], table[2], table[4], table[6]]);
}

#[test]
fn waveforms_compare_by_tag() {
    assert_eq!(Waveform::Sine, Waveform::Sine);
    assert_ne!(Waveform::Sine, Waveform::Triangle);
}
