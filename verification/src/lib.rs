pub mod fs;
pub mod memory;
pub mod arith;
pub mod signal;
pub mod state;
pub mod model;
pub mod handler;
pub mod input;
pub mod laws;
pub mod xrni;
pub mod dialog;

pub use state::{OnsetInput, PhraseInput, RecordInput, Snap};
pub use handler::StateHandler;
