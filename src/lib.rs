//! A rotor cipher machine: a plugboard, a chain of turning wired rotors and a
//! reflector, with each operation's behaviour stated and proved.
use vstd::prelude::*;

pub mod error;
pub mod laws;
pub mod machine;
pub mod permutation;
pub mod plugboard;
pub mod rotor;

pub use error::EnigmaError;
pub use machine::EnigmaM;

verus! {

} // verus!
