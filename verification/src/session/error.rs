//! Errors of session management.
use crate::fstar::error::{self, ConfigError, ConfigErrorView};
use crate::fstar::process::{self, ProcessError, ProcessErrorView};
use vstd::prelude::*;

verus! {

/// Why a session could not be found, used or created.
#[derive(Debug)]
pub enum SessionError {
    NotFound(String),
    NotOwned { session_id: String },
    CreateError(ProcessError),
    ConfigError(ConfigError),
}

/// The model of a session error.
pub enum SessionErrorView {
    NotFound(Seq<char>),
    NotOwned { session_id: Seq<char> },
    CreateError(ProcessErrorView),
    ConfigError(ConfigErrorView),
}

impl View for SessionError {
    type V = SessionErrorView;

    open spec fn view(&self) -> SessionErrorView {
        match *self {
            SessionError::NotFound(id) => SessionErrorView::NotFound(id@),
            SessionError::NotOwned { session_id } => SessionErrorView::NotOwned {
                session_id: session_id@,
            },
            SessionError::CreateError(error) => SessionErrorView::CreateError(error@),
            SessionError::ConfigError(error) => SessionErrorView::ConfigError(error@),
        }
    }
}

/// The message of a session error.
pub open spec fn session_error_text(error: SessionErrorView) -> Seq<char> {
    match error {
        SessionErrorView::NotFound(id) => "Session not found: "@ + id,
        SessionErrorView::NotOwned { session_id } => "Session "@ + session_id
            + " belongs to another MCP client"@,
        SessionErrorView::CreateError(error) => "Failed to create session: "@
            + process::process_error_text(error),
        SessionErrorView::ConfigError(error) => "Config error: "@ + error::config_error_text(error),
    }
}

impl SessionError {
    /// The message to show for the error.
    pub fn message(&self) -> (message: String)
        ensures
            message@ == session_error_text(self@),
    {
        match self {
            SessionError::NotFound(id) => "Session not found: ".to_owned().concat(id.as_str()),
            SessionError::NotOwned { session_id } => {
                "Session ".to_owned().concat(session_id.as_str()).concat(
                    " belongs to another MCP client",
                )
            },
            SessionError::CreateError(error) => {
                "Failed to create session: ".to_owned().concat(error.message().as_str())
            },
            SessionError::ConfigError(error) => {
                "Config error: ".to_owned().concat(error.message().as_str())
            },
        }
    }
}

/// A client is told which session is meant, or why one could not be created.
pub proof fn law_session_errors_name_their_cause(
    id: Seq<char>,
    process_error: ProcessErrorView,
    config_error: ConfigErrorView,
)
    ensures
        session_error_text(SessionErrorView::NotFound(id)) == "Session not found: "@ + id,
        session_error_text(SessionErrorView::NotOwned { session_id: id }) == "Session "@ + id
            + " belongs to another MCP client"@,
        session_error_text(SessionErrorView::CreateError(process_error))
            == "Failed to create session: "@ + process::process_error_text(process_error),
        session_error_text(SessionErrorView::ConfigError(config_error)) == "Config error: "@
            + error::config_error_text(config_error),
{
}

} // verus!
