//! The request handling that the server hands to the pool as jobs: choosing
//! a response from the first line of a request, and laying out the response
//! bytes. Reading the request, the page and the clock stays with the caller.
use vstd::prelude::*;
use vstd::string::StringSliceAdditionalSpecFns;

verus! {

/// The request line answered with the greeting page.
pub const HELLO_REQUEST: &'static str = "GET / HTTP/1.1\r\n";

/// The request line answered with the greeting page after a delay.
pub const SLOW_REQUEST: &'static str = "GET /sleep HTTP/1.1\r\n";

pub const OK_STATUS: &'static str = "HTTP/1.1 200 OK";

pub const NOT_FOUND_STATUS: &'static str = "HTTP/1.1 404 NOT FOUND";

pub const HELLO_PAGE: &'static str = "hello.html";

pub const NOT_FOUND_PAGE: &'static str = "404.html";

/// What follows the status line, before the length of the body.
pub const LENGTH_HEADER: &'static str = "\r\nContent-Length: ";

/// What separates the headers from the body.
pub const HEADER_END: &'static str = "\r\n\r\n";

/// How a request is answered.
#[derive(Clone, Copy, Debug, PartialEq, Eq, Structural)]
pub enum Route {
    /// The greeting page, at once.
    Hello,
    /// The greeting page, after the caller has waited.
    SlowHello,
    /// Anything else: the not-found page.
    NotFound,
}

/// `p` is a prefix of `s`.
pub open spec fn has_prefix(s: Seq<u8>, p: Seq<u8>) -> bool {
    p.len() <= s.len() && s.subrange(0, p.len() as int) == p
}

/// The route chosen for a request that starts with `request`.
pub open spec fn route_of(request: Seq<u8>) -> Route {
    if has_prefix(request, HELLO_REQUEST.spec_bytes()) {
        Route::Hello
    } else if has_prefix(request, SLOW_REQUEST.spec_bytes()) {
        Route::SlowHello
    } else {
        Route::NotFound
    }
}

/// The decimal digits of `n`, most significant first, as ASCII bytes.
pub open spec fn decimal(n: nat) -> Seq<u8>
    decreases n,
{
    if n < 10 {
        seq![(48 + n) as u8]
    } else {
        decimal(n / 10).push((48 + n % 10) as u8)
    }
}

/// The bytes of a response with status line `status` and body `body`.
pub open spec fn response_of(status: Seq<u8>, body: Seq<u8>) -> Seq<u8> {
    status + LENGTH_HEADER.spec_bytes() + decimal(body.len()) + HEADER_END.spec_bytes() + body
}

/// Whether `s` starts with `prefix`.
pub fn starts_with(s: &[u8], prefix: &[u8]) -> (r: bool)
    ensures
        r == has_prefix(s@, prefix@),
{
    if prefix.len() > s.len() {
        return false;
    }
    let mut i: usize = 0;
    while i < prefix.len()
        invariant
            prefix@.len() <= s@.len(),
            i <= prefix@.len(),
            forall|j: int| 0 <= j < i ==> s@[j] == prefix@[j],
        decreases prefix@.len() - i,
    {
        if s[i] != prefix[i] {
            assert(s@.subrange(0, prefix@.len() as int)[i as int] != prefix@[i as int]);
            return false;
        }
        i = i + 1;
    }
    assert(s@.subrange(0, prefix@.len() as int) =~= prefix@);
    true
}

/// Chooses how to answer a request from its first bytes.
pub fn route(request: &[u8]) -> (r: Route)
    ensures
        r == route_of(request@),
{
    if starts_with(request, HELLO_REQUEST.as_bytes()) {
        Route::Hello
    } else if starts_with(request, SLOW_REQUEST.as_bytes()) {
        Route::SlowHello
    } else {
        Route::NotFound
    }
}

impl Route {
    /// The status line sent back.
    pub fn status_line(&self) -> (s: &'static str)
        ensures
            s == (if *self == Route::NotFound { NOT_FOUND_STATUS } else { OK_STATUS }),
    {
        match self {
            Route::NotFound => NOT_FOUND_STATUS,
            _ => OK_STATUS,
        }
    }

    /// The page whose contents form the body.
    pub fn page(&self) -> (s: &'static str)
        ensures
            s == (if *self == Route::NotFound { NOT_FOUND_PAGE } else { HELLO_PAGE }),
    {
        match self {
            Route::NotFound => NOT_FOUND_PAGE,
            _ => HELLO_PAGE,
        }
    }

    /// Whether the caller waits before answering.
    pub fn is_slow(&self) -> (r: bool)
        ensures
            r == (*self == Route::SlowHello),
    {
        match self {
            Route::SlowHello => true,
            _ => false,
        }
    }
}

/// Appends the bytes of `b` to `out`.
fn push_all(out: &mut Vec<u8>, b: &[u8])
    ensures
        final(out)@ == old(out)@ + b@,
{
    let mut i: usize = 0;
    while i < b.len()
        invariant
            i <= b@.len(),
            out@ == old(out)@ + b@.subrange(0, i as int),
        decreases b@.len() - i,
    {
        out.push(b[i]);
        i = i + 1;
        assert(b@.subrange(0, i as int) =~= b@.subrange(0, i - 1 as int).push(b@[i - 1]));
    }
    assert(b@.subrange(0, b@.len() as int) =~= b@);
}

/// The decimal digits of `n` as ASCII bytes.
pub fn decimal_bytes(n: usize) -> (r: Vec<u8>)
    ensures
        r@ == decimal(n as nat),
    decreases n,
{
    if n < 10 {
        let d: u8 = 48 + n as u8;
        vec![d]
    } else {
        let mut r = decimal_bytes(n / 10);
        let d: u8 = 48 + (n % 10) as u8;
        r.push(d);
        r
    }
}

/// The full response: status line, body length, blank line, body.
pub fn response(status: &str, body: &str) -> (r: Vec<u8>)
    ensures
        r@ == response_of(status.spec_bytes(), body.spec_bytes()),
{
    let mut out: Vec<u8> = Vec::new();
    push_all(&mut out, status.as_bytes());
    push_all(&mut out, LENGTH_HEADER.as_bytes());
    let bytes = body.as_bytes();
    let digits = decimal_bytes(bytes.len());
    push_all(&mut out, digits.as_slice());
    push_all(&mut out, HEADER_END.as_bytes());
    push_all(&mut out, bytes);
    out
}

} // verus!
