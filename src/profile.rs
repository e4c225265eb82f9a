//! CPU profiling for the HTTP endpoint. This build carries the no-op profiler:
//! it builds, and every request for a profile fails with an error.

use vstd::prelude::*;

verus! {

/// An error of the profiler: a message and, optionally, the description of
/// the error that caused it.
#[derive(Debug)]
pub struct ProfilerError {
    msg: String,
    cause: Option<String>,
}

/// The text of an error with message `msg` and cause `cause`: `"msg: cause"`,
/// or `msg` alone without a cause.
pub open spec fn error_text(msg: Seq<char>, cause: Option<Seq<char>>) -> Seq<char> {
    match cause {
        Some(c) => msg + ": "@ + c,
        None => msg,
    }
}

impl ProfilerError {
    pub closed spec fn message(&self) -> Seq<char> {
        self.msg@
    }

    pub closed spec fn cause_text(&self) -> Option<Seq<char>> {
        match self.cause {
            Some(c) => Some(c@),
            None => None,
        }
    }

    /// An error with a message and no cause.
    pub fn msg(msg: &str) -> (r: Self)
        ensures
            r.message() == msg@,
            r.cause_text() is None,
    {
        ProfilerError { msg: String::from_str(msg), cause: None }
    }

    /// An error with a message and the description of its cause.
    pub fn msg_cause(msg: &str, cause: &str) -> (r: Self)
        ensures
            r.message() == msg@,
            r.cause_text() == Some(cause@),
    {
        ProfilerError { msg: String::from_str(msg), cause: Some(String::from_str(cause)) }
    }

    /// The description of the cause, if any.
    pub fn source(&self) -> (r: Option<&str>)
        ensures
            r matches Some(c) ==> self.cause_text() == Some(c@),
            r is None ==> self.cause_text() is None,
    {
        match &self.cause {
            Some(c) => Some(c.as_str()),
            None => None,
        }
    }

    /// The message, followed by `": "` and the cause when there is one.
    pub fn to_string(&self) -> (r: String)
        ensures
            r@ == error_text(self.message(), self.cause_text()),
    {
        let mut text = self.msg.clone();
        match &self.cause {
            Some(c) => {
                text.append(": ");
                text.append(c.as_str());
            },
            None => {},
        }
        text
    }
}

/// The profiler of a build without CPU profiling.
#[derive(Debug)]
pub struct Profiler {}

/// The message of every profile request to the no-op profiler.
pub open spec fn not_implemented() -> Seq<char> {
    "not implemented"@
}

impl Profiler {
    pub fn new() -> (r: Result<Self, ProfilerError>)
        ensures
            r is Ok,
    {
        Ok(Profiler {})
    }

    /// The profile encoded as protobuf; this profiler has none to give.
    pub fn proto(&self) -> (r: Result<Vec<u8>, ProfilerError>)
        ensures
            r matches Err(e) && e.message() == not_implemented() && e.cause_text() is None,
    {
        Err(ProfilerError::msg("not implemented"))
    }
}

/// Builds the profiler of this build.
pub fn build() -> (r: Result<Profiler, ProfilerError>)
    ensures
        r is Ok,
{
    Profiler::new()
}

} // verus!
