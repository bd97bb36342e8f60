pub mod midi;
