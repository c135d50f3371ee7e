use vstd::prelude::*;
use vstd::string::StringSliceAdditionalSpecFns;

use crate::bytes::bytes_eq;

verus! {

/// The HTTP methods the router distinguishes. A request line whose method
/// token is not one of the four known verbs parses to `UNKNOWN`.
#[derive(Copy, Clone, PartialEq, Eq, Structural, Debug, Hash)]
pub enum Method {
    GET,
    POST,
    PUT,
    DELETE,
    UNKNOWN,
}

impl Method {
    /// Priority rank used to keep a node's terminals ordered: terminals are
    /// stored in strictly decreasing rank, so the highest-priority method
    /// bucket is found first.
    pub open spec fn rank_spec(self) -> int {
        match self {
            Method::GET => 4,
            Method::POST => 3,
            Method::PUT => 2,
            Method::DELETE => 1,
            Method::UNKNOWN => 0,
        }
    }

    pub fn rank(self) -> (r: u8)
        ensures
            r as int == self.rank_spec(),
    {
        match self {
            Method::GET => 4,
            Method::POST => 3,
            Method::PUT => 2,
            Method::DELETE => 1,
            Method::UNKNOWN => 0,
        }
    }

    /// Parses one method token given as a string slice.
    pub fn from(s: &str) -> (m: Method)
        ensures
            m == method_of(s.spec_bytes()),
    {
        Method::from_bytes(s.as_bytes())
    }

    /// Parses one method token: the four known verbs map to their variant,
    /// anything else to `UNKNOWN`.
    pub fn from_bytes(b: &[u8]) -> (m: Method)
        ensures
            m == method_of(b@),
    {
        let get_t: Vec<u8> = vec![71u8, 69u8, 84u8];
        let post_t: Vec<u8> = vec![80u8, 79u8, 83u8, 84u8];
        let put_t: Vec<u8> = vec![80u8, 85u8, 84u8];
        let delete_t: Vec<u8> = vec![68u8, 69u8, 76u8, 69u8, 84u8, 69u8];
        proof {
            assert(get_t@ =~= seq![71u8, 69u8, 84u8]);
            assert(post_t@ =~= seq![80u8, 79u8, 83u8, 84u8]);
            assert(put_t@ =~= seq![80u8, 85u8, 84u8]);
            assert(delete_t@ =~= seq![68u8, 69u8, 76u8, 69u8, 84u8, 69u8]);
        }
        if bytes_eq(b, get_t.as_slice()) {
            Method::GET
        } else if bytes_eq(b, post_t.as_slice()) {
            Method::POST
        } else if bytes_eq(b, put_t.as_slice()) {
            Method::PUT
        } else if bytes_eq(b, delete_t.as_slice()) {
            Method::DELETE
        } else {
            Method::UNKNOWN
        }
    }
}

/// The method named by a token, written with the ASCII codes of the verbs
/// "GET", "POST", "PUT" and "DELETE".
pub open spec fn method_of(b: Seq<u8>) -> Method {
    if b == seq![71u8, 69u8, 84u8] {
        Method::GET
    } else if b == seq![80u8, 79u8, 83u8, 84u8] {
        Method::POST
    } else if b == seq![80u8, 85u8, 84u8] {
        Method::PUT
    } else if b == seq![68u8, 69u8, 76u8, 69u8, 84u8, 69u8] {
        Method::DELETE
    } else {
        Method::UNKNOWN
    }
}

impl Default for Method {
    /// The default method is the unrecognized one.
    fn default() -> (m: Method)
        ensures
            m == Method::UNKNOWN,
    {
        Method::UNKNOWN
    }
}

} // verus!
