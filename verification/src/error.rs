use vstd::prelude::*;
use vstd::string::*;

verus! {

/// Error type shared by every fallible operation of the library.
///
/// Each variant carries a human-readable message.  The variant is the part
/// that callers (and contracts) branch on; the message is informational.
#[derive(Debug, Clone, PartialEq, Eq)]
pub enum CoreFsError {
    /// The caller passed an argument that the operation rejects.
    InvalidInput(String),
    /// Persisted or in-memory state is inconsistent (corruption, bad magic, ...).
    State(String),
    /// A requested object does not exist.
    NotFound(String),
    /// The request violates a policy (read-only device, counter overflow, ...).
    PolicyViolation(String),
}

/// Result alias used throughout the library.
pub type CoreFsResult<T> = Result<T, CoreFsError>;

impl CoreFsError {
    /// Message text, prefixed by the error category.
    pub fn to_string(&self) -> (s: String)
        ensures
            s@ == self.category()@ + self.message()@,
    {
        match self {
            CoreFsError::InvalidInput(m) => {
                let p = String::from_str("invalid input: ");
                p.concat(m.as_str())
            },
            CoreFsError::State(m) => {
                let p = String::from_str("state error: ");
                p.concat(m.as_str())
            },
            CoreFsError::NotFound(m) => {
                let p = String::from_str("not found: ");
                p.concat(m.as_str())
            },
            CoreFsError::PolicyViolation(m) => {
                let p = String::from_str("policy violation: ");
                p.concat(m.as_str())
            },
        }
    }

    /// The message carried by the error.
    pub open spec fn message(&self) -> String {
        match self {
            CoreFsError::InvalidInput(m) => *m,
            CoreFsError::State(m) => *m,
            CoreFsError::NotFound(m) => *m,
            CoreFsError::PolicyViolation(m) => *m,
        }
    }

    /// The category prefix shown before the message.
    pub open spec fn category(&self) -> &'static str {
        match self {
            CoreFsError::InvalidInput(_) => "invalid input: ",
            CoreFsError::State(_) => "state error: ",
            CoreFsError::NotFound(_) => "not found: ",
            CoreFsError::PolicyViolation(_) => "policy violation: ",
        }
    }
}

/// Build a message from a static text.
pub fn msg(s: &str) -> (r: String)
    ensures
        r@ == s@,
{
    String::from_str(s)
}

/// Build a message of the form `prefix` + decimal(`n`) + `suffix`.
pub fn msg_num(prefix: &str, n: u64, suffix: &str) -> (r: String)
    ensures
        r@.len() >= prefix@.len(),
        r@.subrange(0, prefix@.len() as int) == prefix@,
{
    let p = String::from_str(prefix);
    let digits = n.to_string();
    let q = p.concat(digits.as_str());
    let r = q.concat(suffix);
    proof {
        assert(r@ == prefix@ + digits@ + suffix@);
        assert((prefix@ + digits@ + suffix@).subrange(0, prefix@.len() as int) =~= prefix@);
    }
    r
}

} // verus!
