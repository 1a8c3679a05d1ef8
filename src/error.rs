use vstd::prelude::*;
use vstd::string::*;

verus! {

/// What can go wrong while balancing requests or loading the configuration.
#[derive(Debug, PartialEq, Eq)]
pub enum LBError {
    /// The registry held no backend when a request had to be routed.
    NoBackendsAvailable,
    /// The upstream could not be reached, or did not answer in time.
    BackendError,
    /// The configuration file could not be read.
    MissingConfigurationFile { config_file_path: String },
    /// The configuration file could not be decoded.
    InvalidConfig,
    /// Any other input or output failure.
    IoError,
}

/// HTTP status answered when no backend can take a request.
pub const STATUS_SERVICE_UNAVAILABLE: u16 = 503;

/// HTTP status answered for every other failure.
pub const STATUS_INTERNAL_SERVER_ERROR: u16 = 500;

pub open spec fn status_of(e: LBError) -> u16 {
    match e {
        LBError::NoBackendsAvailable => STATUS_SERVICE_UNAVAILABLE,
        _ => STATUS_INTERNAL_SERVER_ERROR,
    }
}

pub open spec fn message_of(e: LBError) -> Seq<char> {
    match e {
        LBError::NoBackendsAvailable => "no backend available"@,
        LBError::BackendError => "backend error"@,
        LBError::MissingConfigurationFile { config_file_path } =>
            "Configuration file not found at \""@ + config_file_path@ + "\""@,
        LBError::InvalidConfig => "Invalid configuration file"@,
        LBError::IoError => "Generic I/O error"@,
    }
}

impl LBError {
    /// The status code of the response that reports this error to a caller.
    pub fn status_code(&self) -> (r: u16)
        ensures
            r == status_of(*self),
    {
        match self {
            LBError::NoBackendsAvailable => STATUS_SERVICE_UNAVAILABLE,
            _ => STATUS_INTERNAL_SERVER_ERROR,
        }
    }

    /// A one-line description of the error, for people.
    pub fn message(&self) -> (r: String)
        ensures
            r@ == message_of(*self),
    {
        match self {
            LBError::NoBackendsAvailable => String::from_str("no backend available"),
            LBError::BackendError => String::from_str("backend error"),
            LBError::MissingConfigurationFile { config_file_path } => {
                let mut r = String::from_str("Configuration file not found at \"");
                r.append(config_file_path.as_str());
                r.append("\"");
                r
            },
            LBError::InvalidConfig => String::from_str("Invalid configuration file"),
            LBError::IoError => String::from_str("Generic I/O error"),
        }
    }
}

} // verus!
