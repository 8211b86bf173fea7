//! Sessions: a checking process and a lax companion for a file.
pub mod check;
pub mod dependencies;
pub mod digest;
pub mod error;
pub mod identifier;
pub mod manager;
pub mod moment;
pub mod progress;
pub mod state;

pub use digest::content_hash;
pub use error::SessionError;
pub use manager::{
    SessionInfo, SessionManager, DEFAULT_IDLE_TIMEOUT_SECS, DEFAULT_MAX_SESSIONS,
    DEFAULT_QUERY_TIMEOUT_SECS, DEFAULT_SWEEP_PERIOD_SECS,
};
pub use progress::first_diff_position;
pub use state::{Session, SessionCheckResult};
