//! Garbled AND gates and the constraint system that vouches for them.
//!
//! - `rng`: random words, with a record of what was drawn.
//! - `blake3`: the compression function that masks the rows of a table.
//! - `builder`: a constraint system over 32-bit binary field elements, with its
//!   witness.
//! - `garble`: labels and AND gates, garbled natively and in a constraint system.
//! - `bristol`: the lines of a circuit file.
//! - `circuit`: whole circuits, whose gates share the labels of their wires.
//! - `laws`: what holds of garbling as a whole.
//! - `hash_laws`, `gate_laws`, `system_laws`, `line_laws` and `circuit_laws`: what
//!   holds of the compression function, of garbling tables, of the constraint
//!   system, of the lines of a circuit file and of circuits, word by word.

pub mod blake3;
pub mod bristol;
pub mod builder;
pub mod circuit;
pub mod circuit_laws;
pub mod garble;
pub mod gate_laws;
pub mod hash_laws;
pub mod laws;
pub mod line_laws;
mod record;
pub mod rng;
pub mod system_laws;
