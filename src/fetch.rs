//! What the resource collaborator hands to the core: a request, and the
//! response carrying the effective address and the raw bytes.

use vstd::prelude::*;
use std::collections::HashMap;

verus! {

#[derive(Debug, PartialEq, Eq)]
pub enum HTTPStatus {
    OK,
}

#[derive(Debug, PartialEq, Eq)]
pub enum ResponseType {
    Basic,
    CORS,
    Default,
    Error,
}

pub open spec fn response_type_name(t: ResponseType) -> Seq<char> {
    match t {
        ResponseType::Basic => seq!['b', 'a', 's', 'i', 'c'],
        ResponseType::CORS => seq!['c', 'o', 'r', 's'],
        ResponseType::Default => seq!['d', 'e', 'f', 'a', 'u', 'l', 't'],
        ResponseType::Error => seq!['e', 'r', 'r', 'o', 'r'],
    }
}

impl ResponseType {
    /// The lower-case name of the response type.
    pub fn to_string(&self) -> (r: String)
        ensures
            r@ == response_type_name(*self),
    {
        let s = match self {
            ResponseType::Basic => String::from_str("basic"),
            ResponseType::CORS => String::from_str("cors"),
            ResponseType::Default => String::from_str("default"),
            ResponseType::Error => String::from_str("error"),
        };
        proof {
            reveal_strlit("basic");
            reveal_strlit("cors");
            reveal_strlit("default");
            reveal_strlit("error");
        }
        assert(s@ =~= response_type_name(*self));
        s
    }

    /// The response type with the given lower-case name.
    pub fn from_str(s: &str) -> (r: Result<ResponseType, &'static str>)
        ensures
            r matches Ok(t) ==> response_type_name(t) == s@,
            r is Err <==> !(exists|t: ResponseType| response_type_name(t) == s@),
    {
        proof {
            reveal_strlit("basic");
            reveal_strlit("cors");
            reveal_strlit("default");
            reveal_strlit("error");
            assert("basic"@ =~= response_type_name(ResponseType::Basic));
            assert("cors"@ =~= response_type_name(ResponseType::CORS));
            assert("default"@ =~= response_type_name(ResponseType::Default));
            assert("error"@ =~= response_type_name(ResponseType::Error));
        }
        if crate::strs::str_eq(s, "basic") {
            Ok(ResponseType::Basic)
        } else if crate::strs::str_eq(s, "cors") {
            Ok(ResponseType::CORS)
        } else if crate::strs::str_eq(s, "default") {
            Ok(ResponseType::Default)
        } else if crate::strs::str_eq(s, "error") {
            Ok(ResponseType::Error)
        } else {
            proof {
                assert forall|t: ResponseType| response_type_name(t) != s@ by {
                    match t {
                        ResponseType::Basic => {},
                        ResponseType::CORS => {},
                        ResponseType::Default => {},
                        ResponseType::Error => {},
                    }
                }
            }
            Err("invalid response type")
        }
    }
}

pub type HeaderMap = HashMap<String, String>;

#[derive(Debug, PartialEq, Eq)]
pub struct Request {
    pub url: String,
}

impl Request {
    pub fn new(url: String) -> (r: Request)
        ensures
            r.url == url,
    {
        Request { url }
    }
}

/// A fetched resource. `url` is the effective address, written out.
#[derive(Debug, PartialEq, Eq)]
pub struct Response {
    pub rtype: ResponseType,
    pub url: String,
    pub status: HTTPStatus,
    pub headers: HeaderMap,
    pub data: Vec<u8>,
}

#[derive(Debug, PartialEq, Eq)]
pub enum FetchError {
    NetworkError { response: Option<Response> },
    /// The address could not be parsed; `error` says why.
    URLParseError { error: String, response: Option<Response> },
    URLSchemeUnsupportedError { scheme: String, response: Option<Response> },
}

pub open spec fn scheme_file() -> Seq<char> {
    seq!['f', 'i', 'l', 'e']
}

pub open spec fn scheme_http() -> Seq<char> {
    seq!['h', 't', 't', 'p']
}

pub open spec fn scheme_https() -> Seq<char> {
    seq!['h', 't', 't', 'p', 's']
}

/// Whether a resource under `scheme` can be fetched: only local files are;
/// http and https are reported together as `http(s)`, any other scheme by
/// its name.
pub fn check_scheme(scheme: &str) -> (r: Result<(), FetchError>)
    ensures
        r is Ok <==> scheme@ == scheme_file(),
        r matches Err(e) ==> e matches FetchError::URLSchemeUnsupportedError { scheme: name, response }
            && response is None && (if scheme@ == scheme_http() || scheme@ == scheme_https() {
            name@ == seq!['h', 't', 't', 'p', '(', 's', ')']
        } else {
            name@ == scheme@
        }),
{
    proof {
        reveal_strlit("file");
        reveal_strlit("http");
        reveal_strlit("https");
        reveal_strlit("http(s)");
        assert("file"@ =~= scheme_file());
        assert("http"@ =~= scheme_http());
        assert("https"@ =~= scheme_https());
        assert("http(s)"@ =~= seq!['h', 't', 't', 'p', '(', 's', ')']);
    }
    if crate::strs::str_eq(scheme, "file") {
        Ok(())
    } else if crate::strs::str_eq(scheme, "http") || crate::strs::str_eq(scheme, "https") {
        Err(FetchError::URLSchemeUnsupportedError { scheme: String::from_str("http(s)"), response: None })
    } else {
        Err(FetchError::URLSchemeUnsupportedError { scheme: String::from_str(scheme), response: None })
    }
}

} // verus!
