//! A simulation of the Enigma cipher machine, close to the original
//! machines: rotors (Walzen) with configurable turnover notches
//! (Übertragungskerben), ring settings (Ringstellung), plugboard
//! (Steckerbrett), reflector (Umkehrwalze) and entry wheel
//! (Eintrittswalze), with any number of rotors.
//!
//! The machine is specified over a mathematical model (`EnigmaView`): what
//! a key press does to the rotors, which letter lights up, and what typing
//! a text produces. Among the proved laws: a machine whose wheels are wired
//! as real wheels are deciphers what it enciphers, set up the same way.
pub mod enigma;
pub mod solver;
pub mod steckbrett;
pub mod text;
pub mod walze;

pub use enigma::{Enigma, EnigmaError, EnigmaView};
pub use solver::{letter_counts, plug_candidates, rotor_orders};
pub use walze::{Eintrittswalze, Umkehrwalze, Walze};
