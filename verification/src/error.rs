use vstd::prelude::*;

use crate::text::{decimal_string, decimal_text};

verus! {

/// Failure of an installation step, with a human-readable explanation.
#[derive(Debug)]
pub enum EngineError {
    Install(String),
}

impl EngineError {
    /// The explanation carried by the error.
    pub open spec fn spec_message(&self) -> Seq<char> {
        match self {
            EngineError::Install(m) => m@,
        }
    }

    /// The explanation carried by the error, as shown to the user.
    pub fn message(&self) -> (r: String)
        ensures
            r@ == self.spec_message(),
    {
        match self {
            EngineError::Install(m) => m.clone(),
        }
    }
}

/// Builds an installation error from a fixed explanation.
pub fn install_error(context: &str) -> (e: EngineError)
    ensures
        e.spec_message() == context@,
{
    EngineError::Install(context.to_owned())
}

/// Application-level failure reported to the manager's front end.
#[derive(Debug)]
pub enum AppError {
    Internal(String),
}

impl AppError {
    pub open spec fn spec_message(&self) -> Seq<char> {
        match self {
            AppError::Internal(m) => m@,
        }
    }

    pub fn message(&self) -> (r: String)
        ensures
            r@ == self.spec_message(),
    {
        match self {
            AppError::Internal(m) => m.clone(),
        }
    }
}

/// Why an operation refuses: an exact explanation, or an explanation that
/// starts with a fixed text and goes on with an outside crate's words.
pub enum Refusal {
    Exactly(Seq<char>),
    Starting(Seq<char>),
}

/// `message` is the explanation that `why` describes.
pub open spec fn explains(why: Refusal, message: Seq<char>) -> bool {
    match why {
        Refusal::Exactly(m) => message == m,
        Refusal::Starting(p) => p.is_prefix_of(message),
    }
}

/// The outcome `r` is the one that `expected` describes.
pub open spec fn bytes_outcome(expected: Result<Seq<u8>, Refusal>, r: Result<Vec<u8>, EngineError>) -> bool {
    match expected {
        Ok(b) => r matches Ok(v) && v@ == b,
        Err(why) => r matches Err(e) && explains(why, e.spec_message()),
    }
}

/// An installation error whose explanation is `prefix` followed by `detail`.
pub fn error_with(prefix: &str, detail: &str) -> (e: EngineError)
    ensures
        e.spec_message() == prefix@ + detail@,
        prefix@.is_prefix_of(e.spec_message()),
{
    let mut m = String::from_str(prefix);
    m.append(detail);
    proof {
        assert((prefix@ + detail@).subrange(0, prefix@.len() as int) =~= prefix@);
    }
    EngineError::Install(m)
}

/// An installation error whose explanation is `prefix`, the decimal `n`, and `suffix`.
pub fn error_with_count(prefix: &str, n: usize, suffix: &str) -> (e: EngineError)
    ensures
        e.spec_message() == prefix@ + decimal_text(n as nat) + suffix@,
{
    let mut m = String::from_str(prefix);
    let count = decimal_string(n as u64);
    m.append(count.as_str());
    m.append(suffix);
    EngineError::Install(m)
}

} // verus!
