//! Elementary one-dimensional cellular automata: simulation, bit packing,
//! textual renderings and the helpers of the local gallery server.

pub mod sim;
pub mod text;
pub mod decimal;
pub mod automaton;
pub mod json;
pub mod bits;
pub mod ic;
pub mod gallery;
pub mod page;
pub mod export;
pub mod svg;
pub mod manifest;
