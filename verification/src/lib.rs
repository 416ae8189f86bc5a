pub mod average;
pub mod display;
pub mod display_laws;
pub mod laws;
pub mod session;
pub mod solve;

pub use average::{average, Average, AverageError, AverageKind};
pub use session::Session;
pub use solve::{Penalty, Solve};
