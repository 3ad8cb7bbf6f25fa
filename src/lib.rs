pub mod audio;
pub mod generators;
pub mod wavetable_oscillator;
