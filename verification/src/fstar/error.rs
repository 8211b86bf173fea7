//! Errors of configuration discovery.
use vstd::prelude::*;

verus! {

/// Why a configuration could not be found or used.
#[derive(Debug)]
pub enum ConfigError {
    /// A file or the working directory could not be read; the text says why.
    IoError(String),
    /// A configuration file does not hold a configuration; the text says why.
    ParseError(String),
    MissingEnvironmentVariable { variable: String, config_file: String },
    InvalidEnvironmentVariable { variable: String, config_file: String },
    InvalidMakeOutput(String),
    ExecutableNotFound { executable: String, cwd: String },
}

/// The model of a configuration error.
pub enum ConfigErrorView {
    IoError(Seq<char>),
    ParseError(Seq<char>),
    MissingEnvironmentVariable { variable: Seq<char>, config_file: Seq<char> },
    InvalidEnvironmentVariable { variable: Seq<char>, config_file: Seq<char> },
    InvalidMakeOutput(Seq<char>),
    ExecutableNotFound { executable: Seq<char>, cwd: Seq<char> },
}

impl View for ConfigError {
    type V = ConfigErrorView;

    open spec fn view(&self) -> ConfigErrorView {
        match *self {
            ConfigError::IoError(reason) => ConfigErrorView::IoError(reason@),
            ConfigError::ParseError(reason) => ConfigErrorView::ParseError(reason@),
            ConfigError::MissingEnvironmentVariable {
                variable,
                config_file,
            } => ConfigErrorView::MissingEnvironmentVariable {
                variable: variable@,
                config_file: config_file@,
            },
            ConfigError::InvalidEnvironmentVariable {
                variable,
                config_file,
            } => ConfigErrorView::InvalidEnvironmentVariable {
                variable: variable@,
                config_file: config_file@,
            },
            ConfigError::InvalidMakeOutput(reason) => ConfigErrorView::InvalidMakeOutput(reason@),
            ConfigError::ExecutableNotFound {
                executable,
                cwd,
            } => ConfigErrorView::ExecutableNotFound { executable: executable@, cwd: cwd@ },
        }
    }
}

/// The message of a configuration error.
pub open spec fn config_error_text(error: ConfigErrorView) -> Seq<char> {
    match error {
        ConfigErrorView::IoError(reason) => "Failed to read config file: "@ + reason,
        ConfigErrorView::ParseError(reason) => "Failed to parse config file: "@ + reason,
        ConfigErrorView::MissingEnvironmentVariable { variable, config_file } => {
            "Environment variable '"@ + variable + "' referenced by "@ + config_file
                + " is not set"@
        },
        ConfigErrorView::InvalidEnvironmentVariable { variable, config_file } => {
            "Environment variable '"@ + variable + "' referenced by "@ + config_file
                + " is not valid Unicode"@
        },
        ConfigErrorView::InvalidMakeOutput(reason) => {
            "Invalid shell-like output from make: "@ + reason
        },
        ConfigErrorView::ExecutableNotFound { executable, cwd } => {
            "F* executable not found: '"@ + executable + "' (working directory: "@ + cwd + ")"@
        },
    }
}

impl ConfigError {
    /// The message to show for the error.
    pub fn message(&self) -> (message: String)
        ensures
            message@ == config_error_text(self@),
    {
        match self {
            ConfigError::IoError(reason) => {
                "Failed to read config file: ".to_owned().concat(reason.as_str())
            },
            ConfigError::ParseError(reason) => {
                "Failed to parse config file: ".to_owned().concat(reason.as_str())
            },
            ConfigError::MissingEnvironmentVariable { variable, config_file } => {
                "Environment variable '".to_owned().concat(variable.as_str()).concat(
                    "' referenced by ",
                ).concat(config_file.as_str()).concat(" is not set")
            },
            ConfigError::InvalidEnvironmentVariable { variable, config_file } => {
                "Environment variable '".to_owned().concat(variable.as_str()).concat(
                    "' referenced by ",
                ).concat(config_file.as_str()).concat(" is not valid Unicode")
            },
            ConfigError::InvalidMakeOutput(reason) => {
                "Invalid shell-like output from make: ".to_owned().concat(reason.as_str())
            },
            ConfigError::ExecutableNotFound { executable, cwd } => {
                "F* executable not found: '".to_owned().concat(executable.as_str()).concat(
                    "' (working directory: ",
                ).concat(cwd.as_str()).concat(")")
            },
        }
    }
}

/// A message names what it is about: the reason, the variable with the file that refers to it, or the
/// executable with the directory from which it was looked for.
pub proof fn law_configuration_errors_name_their_cause(first: Seq<char>, second: Seq<char>)
    ensures
        config_error_text(ConfigErrorView::IoError(first)) == "Failed to read config file: "@ + first,
        config_error_text(ConfigErrorView::ParseError(first)) == "Failed to parse config file: "@
            + first,
        config_error_text(
            ConfigErrorView::MissingEnvironmentVariable { variable: first, config_file: second },
        ) == "Environment variable '"@ + first + "' referenced by "@ + second + " is not set"@,
        config_error_text(
            ConfigErrorView::InvalidEnvironmentVariable { variable: first, config_file: second },
        ) == "Environment variable '"@ + first + "' referenced by "@ + second
            + " is not valid Unicode"@,
        config_error_text(ConfigErrorView::InvalidMakeOutput(first))
            == "Invalid shell-like output from make: "@ + first,
        config_error_text(ConfigErrorView::ExecutableNotFound { executable: first, cwd: second })
            == "F* executable not found: '"@ + first + "' (working directory: "@ + second + ")"@,
{
}

} // verus!
