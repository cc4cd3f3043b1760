//! The closed failure taxonomy of the client, with the remediation hints
//! that may be shown beside an error.

use vstd::prelude::*;
use vstd::string::StringExecFns;

verus! {

/// Every failure of one invocation is reported as exactly one of these
/// kinds.  Kinds that carry a `String` hold a human-readable detail.
#[derive(Debug)]
pub enum OpenCliError {
    /// A connection to the daemon's endpoint could be attempted but failed
    /// for a reason other than "nothing is listening".
    IpcConnectionFailed(String),
    /// The daemon answered, but reported `success == false`; the payload is
    /// the daemon's own error text.
    RequestFailed(String),
    /// A request could not be encoded.
    SerializationError(String),
    /// A response frame could not be decoded.
    DeserializationError(String),
    /// Any other I/O failure: a partial frame, a stream closed early.
    IoError(String),
    /// Nothing was reachable at the daemon's endpoint at connect time.
    DaemonNotRunning,
    /// The daemon executable could not be installed.
    ResourceError(String),
}

/// The one-line text of an error, as shown to the user.
pub open spec fn spec_message(e: &OpenCliError) -> Seq<char> {
    match e {
        OpenCliError::IpcConnectionFailed(s) => "IPC connection failed: "@ + s@,
        OpenCliError::RequestFailed(s) => "Request failed: "@ + s@,
        OpenCliError::SerializationError(s) => "Serialization error: "@ + s@,
        OpenCliError::DeserializationError(s) => "Deserialization error: "@ + s@,
        OpenCliError::IoError(s) => "IO error: "@ + s@,
        OpenCliError::DaemonNotRunning => "Daemon not running. Start with: opencli daemon start"@,
        OpenCliError::ResourceError(s) => "Resource extraction failed: "@ + s@,
    }
}

impl OpenCliError {
    /// The display text of this error.
    pub fn message(&self) -> (r: String)
        ensures
            r@ == spec_message(self),
    {
        match self {
            OpenCliError::IpcConnectionFailed(s) => String::from_str(
                "IPC connection failed: ",
            ).concat(s.as_str()),
            OpenCliError::RequestFailed(s) => String::from_str("Request failed: ").concat(
                s.as_str(),
            ),
            OpenCliError::SerializationError(s) => String::from_str(
                "Serialization error: ",
            ).concat(s.as_str()),
            OpenCliError::DeserializationError(s) => String::from_str(
                "Deserialization error: ",
            ).concat(s.as_str()),
            OpenCliError::IoError(s) => String::from_str("IO error: ").concat(s.as_str()),
            OpenCliError::DaemonNotRunning => String::from_str(
                "Daemon not running. Start with: opencli daemon start",
            ),
            OpenCliError::ResourceError(s) => String::from_str(
                "Resource extraction failed: ",
            ).concat(s.as_str()),
        }
    }

    /// The remediation hint for this error, if one exists: only the two
    /// connection-establishment kinds carry one.
    pub fn suggest_fix(&self) -> (r: Option<String>)
        ensures
            self is DaemonNotRunning ==> (r matches Some(s) && s@
                == "Try running: opencli daemon start"@),
            self is IpcConnectionFailed ==> (r matches Some(s) && s@
                == "Check if daemon is running: opencli daemon status"@),
            !(self is DaemonNotRunning) && !(self is IpcConnectionFailed) ==> r is None,
    {
        match self {
            OpenCliError::DaemonNotRunning => Some(
                String::from_str("Try running: opencli daemon start"),
            ),
            OpenCliError::IpcConnectionFailed(_) => Some(
                String::from_str("Check if daemon is running: opencli daemon status"),
            ),
            _ => None,
        }
    }
}

} // verus!
