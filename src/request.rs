use vstd::prelude::*;

use crate::string_map::{Entries, StringMap};

verus! {

/// Abstract value of a [`Request`].
pub struct RequestView {
    pub method: Seq<char>,
    pub path: Seq<char>,
    pub version: Seq<char>,
    pub headers: Entries,
}

/// A parsed request head: method, path, protocol version and header fields
/// (names lowercased, values trimmed).
#[derive(Clone, Debug)]
pub struct Request {
    method: String,
    path: String,
    version: String,
    headers: StringMap,
}

impl View for Request {
    type V = RequestView;

    closed spec fn view(&self) -> RequestView {
        RequestView {
            method: self.method@,
            path: self.path@,
            version: self.version@,
            headers: self.headers@,
        }
    }
}

impl Request {
    pub fn new(method: String, path: String, version: String, headers: StringMap) -> (r: Request)
        ensures
            r@ == (RequestView {
                method: method@,
                path: path@,
                version: version@,
                headers: headers@,
            }),
    {
        Request { method, path, version, headers }
    }

    pub fn method(&self) -> (r: &str)
        ensures
            r@ == self@.method,
    {
        self.method.as_str()
    }

    pub fn path(&self) -> (r: &str)
        ensures
            r@ == self@.path,
    {
        self.path.as_str()
    }

    pub fn version(&self) -> (r: &str)
        ensures
            r@ == self@.version,
    {
        self.version.as_str()
    }

    pub fn headers(&self) -> (r: &StringMap)
        ensures
            r@ == self@.headers,
    {
        &self.headers
    }
}

} // verus!
