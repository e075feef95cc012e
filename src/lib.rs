pub mod config;
pub mod laws;
pub mod table;
pub mod token;

pub use config::{SessionConfig, SessionFairing};
pub use table::{SessionRecord, SessionTable};
pub use token::SessionID;
