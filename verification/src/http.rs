//! What a request tells the library: the host it was sent to and the viewer
//! it came from.

use vstd::prelude::*;

verus! {

/// Why a request carries no usable value.
#[derive(Debug, Clone, Copy, PartialEq, Eq)]
pub enum NeverHappensError {
    /// The request has no `host` header.
    MissingHostHeader,
}

/// The host that a request was sent to, as its `host` header names it.
#[derive(Debug)]
pub struct HostHeader(String);

impl View for HostHeader {
    type V = Seq<char>;

    closed spec fn view(&self) -> Seq<char> {
        self.0@
    }
}

impl HostHeader {
    /// The header's text.
    pub fn to_string(&self) -> (text: &String)
        ensures
            text@ == self@,
    {
        match self {
            HostHeader(s) => s,
        }
    }

    /// Takes the host from a request's `host` header, which is `None` where
    /// the request has none.
    pub fn from_header(host: Option<&str>) -> (res: Result<HostHeader, NeverHappensError>)
        ensures
            match host {
                Some(text) => res matches Ok(header) && header@ == text@,
                None => res == Err::<HostHeader, NeverHappensError>(
                    NeverHappensError::MissingHostHeader,
                ),
            },
    {
        match host {
            Some(text) => Ok(HostHeader(String::from_str(text))),
            None => Err(NeverHappensError::MissingHostHeader),
        }
    }
}

/// The identifier of a viewer.
#[derive(Debug)]
pub struct UserId(String);

impl View for UserId {
    type V = Seq<char>;

    closed spec fn view(&self) -> Seq<char> {
        self.0@
    }
}

/// The identifier that stands for a viewer who sent none.
pub open spec fn missing_user_id() -> Seq<char> {
    "MISSING_USER_ID"@
}

/// Calls `uuid::Uuid::new_v4` and renders the identifier as text. The
/// identifier is random: nothing is claimed of it.
#[verifier::external_body]
fn fresh_user_id() -> String {
    uuid::Uuid::new_v4().to_string()
}

impl UserId {
    /// The identifier's text.
    pub fn to_string(&self) -> (text: &String)
        ensures
            text@ == self@,
    {
        match self {
            UserId(s) => s,
        }
    }

    /// The identifier's text.
    pub fn as_str(&self) -> (text: &str)
        ensures
            text@ == self@,
    {
        self.0.as_str()
    }

    /// The viewer of a request, given the identifier that its cookie holds
    /// and a fresh identifier to fall back on. With a cookie the viewer is
    /// the one it names, and nothing is to be stored. Without one the viewer
    /// gets the fresh identifier, and the second result says that the
    /// cookie is to be set to it.
    pub fn from_cookie_or(cookie: Option<&str>, fresh: String) -> (res: (UserId, bool))
        ensures
            res.0@ == (match cookie {
                Some(text) => text@,
                None => fresh@,
            }),
            res.1 == (cookie is None),
    {
        match cookie {
            Some(text) => (UserId(String::from_str(text)), false),
            None => (UserId(fresh), true),
        }
    }

    /// The viewer of a request, given the identifier that its cookie holds.
    /// Without a cookie the viewer gets a new random identifier, and the
    /// second result says that the cookie is to be set to it.
    pub fn from_cookie(cookie: Option<&str>) -> (res: (UserId, bool))
        ensures
            cookie matches Some(text) ==> res.0@ == text@,
            res.1 == (cookie is None),
    {
        match cookie {
            Some(_) => UserId::from_cookie_or(cookie, String::new()),
            None => UserId::from_cookie_or(cookie, fresh_user_id()),
        }
    }

    /// The identifier sent with a file request, or the one that stands for
    /// a viewer who sent none.
    pub fn or_missing(user_id: Option<String>) -> (id: String)
        ensures
            id@ == (match user_id {
                Some(text) => text@,
                None => missing_user_id(),
            }),
    {
        match user_id {
            Some(text) => text,
            None => String::from_str("MISSING_USER_ID"),
        }
    }
}

} // verus!
