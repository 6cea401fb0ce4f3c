//! Song-sheet parsing and beat-by-beat playback decisions for a
//! string-instrument light player: each key of the instrument has an LED,
//! a song sheet says which key lights up on which eighth of a beat, and the
//! player decides, one eighth beat at a time, which LEDs to switch and how
//! long to wait.
pub mod text;
pub mod player;
pub mod laws;
