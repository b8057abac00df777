pub mod engine;
pub mod laws;
pub mod options;
pub mod package;
pub mod vercmp;

pub use options::AutoConfirmLevel;
pub use options::Options;
