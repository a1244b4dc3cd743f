//! The entries of an access log and their dimension values.

use vstd::prelude::*;
use vstd::string::StringExecFns;

verus! {

/// A copy of `s` with the same characters.
pub fn copy_text(s: &String) -> (r: String)
    ensures
        r@ == s@,
{
    String::from_str(s.as_str())
}

/// Relies on `==` of `str`: two strings are equal when they hold the same characters.
#[verifier::external_body]
pub(crate) fn same_text(a: &str, b: &str) -> (r: bool)
    ensures
        r == (a@ == b@),
{
    a == b
}

/// What a request line asked for, and the status it got.
#[derive(Debug)]
pub struct Request {
    pub method: String,
    pub url: String,
    pub status_code: i32,
}

pub struct RequestView {
    pub method: Seq<char>,
    pub url: Seq<char>,
    pub status_code: i32,
}

impl View for Request {
    type V = RequestView;

    open spec fn view(&self) -> RequestView {
        RequestView { method: self.method@, url: self.url@, status_code: self.status_code }
    }
}

impl Request {
    pub fn copy(&self) -> (r: Request)
        ensures
            r@ == self@,
    {
        Request {
            method: copy_text(&self.method),
            url: copy_text(&self.url),
            status_code: self.status_code,
        }
    }
}

/// The user agent a client reported.
#[derive(Debug)]
pub struct Useragent {
    pub value: String,
}

impl View for Useragent {
    type V = Seq<char>;

    open spec fn view(&self) -> Seq<char> {
        self.value@
    }
}

/// A pseudonymous client: the truncated hash of its address and user agent,
/// and the user agent itself where one was reported.
#[derive(Debug)]
pub struct User {
    pub hash: i64,
    pub useragent: Option<Useragent>,
}

pub struct UserView {
    pub hash: i64,
    pub useragent: Option<Seq<char>>,
}

pub open spec fn option_view(o: Option<Useragent>) -> Option<Seq<char>> {
    match o {
        Some(u) => Some(u@),
        None => None,
    }
}

impl View for User {
    type V = UserView;

    open spec fn view(&self) -> UserView {
        UserView { hash: self.hash, useragent: option_view(self.useragent) }
    }
}

/// The page that linked to the request.
#[derive(Debug)]
pub struct Referrer {
    pub url: String,
}

impl View for Referrer {
    type V = Seq<char>;

    open spec fn view(&self) -> Seq<char> {
        self.url@
    }
}

/// One request of an access log, ready to be stored.
#[derive(Debug)]
pub struct LogEntry {
    pub timestamp: i64,
    pub request: Request,
    pub user: User,
    pub referrer: Option<Referrer>,
}

pub struct LogEntryView {
    pub timestamp: i64,
    pub request: RequestView,
    pub user: UserView,
    pub referrer: Option<Seq<char>>,
}

pub open spec fn referrer_view(o: Option<Referrer>) -> Option<Seq<char>> {
    match o {
        Some(r) => Some(r@),
        None => None,
    }
}

impl View for LogEntry {
    type V = LogEntryView;

    open spec fn view(&self) -> LogEntryView {
        LogEntryView {
            timestamp: self.timestamp,
            request: self.request@,
            user: self.user@,
            referrer: referrer_view(self.referrer),
        }
    }
}

impl LogEntry {
    pub fn copy(&self) -> (r: LogEntry)
        ensures
            r@ == self@,
    {
        let useragent = match &self.user.useragent {
            Some(u) => Some(Useragent { value: copy_text(&u.value) }),
            None => None,
        };
        let referrer = match &self.referrer {
            Some(r) => Some(Referrer { url: copy_text(&r.url) }),
            None => None,
        };
        let r = LogEntry {
            timestamp: self.timestamp,
            request: self.request.copy(),
            user: User { hash: self.user.hash, useragent },
            referrer,
        };
        assert(r@.user == self@.user);
        r
    }
}

/// A row of the `entrys` table: the time of a request and the keys of its dimension rows.
#[derive(Debug, Clone, Copy, PartialEq, Eq, Structural)]
pub struct Entry {
    pub timestamp: i64,
    pub request_id: i32,
    pub user_id: i32,
    pub referrer_id: Option<i32>,
}

} // verus!
