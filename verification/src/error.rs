//! The crate's error type.
use vstd::prelude::*;
use vstd::std_specs::convert::FromSpecImpl;
use vstd::string::StringExecFns;

verus! {

#[verifier::external_type_specification]
#[verifier::external_body]
pub struct ExIoError(std::io::Error);

/// What can go wrong: a network error, or another failure with its message.
#[derive(Debug)]
pub enum DHTError {
    Network(std::io::Error),
    Other(String),
}

/// The crate's result type.
pub type Result<T> = core::result::Result<T, DHTError>;

/// The text `Display` writes for an I/O error. It comes from the operating
/// system's message for the error code, so nothing is stated of it.
#[verifier::external_body]
fn io_error_text(e: &std::io::Error) -> String {
    format!("{}", e)
}

/// The text that starts the message of a network error.
pub open spec fn network_prefix() -> Seq<char> {
    "网络错误: "@
}

/// The message of a refused start.
pub open spec fn closed_message() -> Seq<char> {
    "服务器已关闭"@
}

impl DHTError {
    /// The error's message: the network prefix and the I/O error's text,
    /// or the message given.
    pub fn message(&self) -> (s: String)
        ensures
            match self {
                DHTError::Other(m) => s@ == m@,
                DHTError::Network(_) => exists|t: Seq<char>| s@ == network_prefix() + t,
            },
    {
        match self {
            DHTError::Other(m) => m.clone(),
            DHTError::Network(e) => {
                let text = io_error_text(e);
                let s = String::from_str("网络错误: ").concat(text.as_str());
                assert(s@ == network_prefix() + text@);
                s
            },
        }
    }
}

impl From<std::io::Error> for DHTError {
    fn from(e: std::io::Error) -> (r: Self) {
        DHTError::Network(e)
    }
}

impl FromSpecImpl<std::io::Error> for DHTError {
    open spec fn obeys_from_spec() -> bool {
        true
    }

    open spec fn from_spec(v: std::io::Error) -> DHTError {
        DHTError::Network(v)
    }
}

/// A start is refused once the server was shut down.
pub fn ensure_running(is_cancelled: bool) -> (r: Result<()>)
    ensures
        r is Ok <==> !is_cancelled,
        r matches Err(e) ==> (e matches DHTError::Other(m) && m@ == closed_message()),
{
    if is_cancelled {
        Err(DHTError::Other(String::from_str("服务器已关闭")))
    } else {
        Ok(())
    }
}

} // verus!
