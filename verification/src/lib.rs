pub mod types;
pub mod log;
pub mod message;
pub mod state;
pub mod quorum;
pub mod node;
pub mod sim;
pub mod properties;
pub mod safety;
