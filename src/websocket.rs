//! The errors that a Homey Energy Dongle reports when it closes a WebSocket
//! connection.
use vstd::prelude::*;
use vstd::string::{StrSliceExecFns, StringExecFns};

verus! {

/// The close code of a WebSocket connection closed for a policy violation.
pub const POLICY_VIOLATION: u16 = 1008;

/// The reason a dongle gives when it already serves as many connections as
/// it can.
pub open spec fn connection_limit_reason() -> Seq<char> {
    "Connection limit reached"@
}

/// The reason a dongle gives when its local API is switched off.
pub open spec fn local_api_disabled_reason() -> Seq<char> {
    "Local API disabled"@
}

/// `path` without its leading slash, if it has one: the path part of the
/// URL of a dongle's WebSocket.
pub fn websocket_path(path: &str) -> (r: &str)
    ensures
        r@ == if path@.len() > 0 && path@[0] == '/' {
            path@.drop_first()
        } else {
            path@
        },
{
    let n = path.unicode_len();
    if n > 0 && path.get_char(0) == '/' {
        let r = path.substring_char(1, n);
        assert(r@ =~= path@.drop_first());
        r
    } else {
        path
    }
}

/// Specific errors returned by the Homey Energy Dongle API.
#[derive(Debug)]
pub enum DongleError {
    /// Connection limit reached
    ConnectionLimitReached,
    /// Local API disabled
    LocalApiDisabled,
    /// Other errors
    Other(String),
}

/// The two texts hold the same characters.
fn same_text(a: &str, b: &str) -> (r: bool)
    ensures
        r == (a@ == b@),
{
    let n = a.unicode_len();
    if n != b.unicode_len() {
        return false;
    }
    let mut i: usize = 0;
    while i < n
        invariant
            n == a@.len(),
            n == b@.len(),
            i <= n,
            forall|j: int| 0 <= j < i ==> a@[j] == b@[j],
        decreases n - i,
    {
        if a.get_char(i) != b.get_char(i) {
            return false;
        }
        i = i + 1;
    }
    assert(a@ =~= b@);
    true
}

impl DongleError {
    /// The error that a close code and a close reason stand for: a policy
    /// violation with one of the two known reasons is recognised, anything
    /// else keeps its reason.
    pub fn from_code_and_reason(code: u16, reason: String) -> (r: DongleError)
        ensures
            code == POLICY_VIOLATION && reason@ == connection_limit_reason() ==> r
                is ConnectionLimitReached,
            code == POLICY_VIOLATION && reason@ == local_api_disabled_reason() ==> r
                is LocalApiDisabled,
            !(code == POLICY_VIOLATION && (reason@ == connection_limit_reason() || reason@
                == local_api_disabled_reason())) ==> r == DongleError::Other(reason),
    {
        if code == POLICY_VIOLATION {
            proof {
                reveal_strlit("Connection limit reached");
                reveal_strlit("Local API disabled");
                assert(connection_limit_reason().len() != local_api_disabled_reason().len());
            }
            if same_text(reason.as_str(), "Connection limit reached") {
                return DongleError::ConnectionLimitReached;
            }
            if same_text(reason.as_str(), "Local API disabled") {
                return DongleError::LocalApiDisabled;
            }
        }
        DongleError::Other(reason)
    }

    /// The text that describes the error.
    pub fn message(&self) -> (r: String)
        ensures
            self is ConnectionLimitReached ==> r@ == connection_limit_reason(),
            self is LocalApiDisabled ==> r@ == local_api_disabled_reason(),
            self is Other ==> r@ == self->Other_0@,
    {
        match self {
            DongleError::ConnectionLimitReached => String::from_str("Connection limit reached"),
            DongleError::LocalApiDisabled => String::from_str("Local API disabled"),
            DongleError::Other(reason) => reason.clone(),
        }
    }
}

} // verus!
