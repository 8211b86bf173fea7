//! F* configuration and IDE protocol.
pub mod config;
pub mod discovery;
pub mod environment;
pub mod error;
pub mod messages;
pub mod process;
pub mod protocol;
pub mod shell;
pub mod solver;

pub use config::FStarConfig;
pub use error::ConfigError;
pub use messages::{
    FStarRange, IdeDiagnostic, IdeLookupResponse, IdeModule, IdeProofState, IdeResponseBase,
    IdeSymbol, ProtocolInfo,
};
pub use process::{
    FStarProcess, FStarProcessControl, FragmentResult, FragmentStatus, FullBufferResult, ProcessError,
};
pub use protocol::FStarResponse;
