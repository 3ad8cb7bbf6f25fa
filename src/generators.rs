pub mod wavetable_oscillator;
