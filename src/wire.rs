//! HTTP on the wire: reading a request head and writing a response.
use vstd::prelude::*;
use vstd::string::StringSliceAdditionalSpecFns;
use vstd::utf8::encode_utf8;
use crate::config::{Return, ReturnView};

verus! {

/// One request header: its name and its raw value.
#[derive(Debug)]
pub struct Header {
    pub name: String,
    pub value: Vec<u8>,
}

/// The parts of a request that routing reads.
#[derive(Debug)]
pub struct RequestHead {
    pub path: String,
    pub headers: Vec<Header>,
}

impl View for Header {
    type V = (Seq<char>, Seq<u8>);

    open spec fn view(&self) -> (Seq<char>, Seq<u8>) {
        (self.name@, self.value@)
    }
}

impl View for RequestHead {
    type V = (Seq<char>, Seq<(Seq<char>, Seq<u8>)>);

    open spec fn view(&self) -> (Seq<char>, Seq<(Seq<char>, Seq<u8>)>) {
        (self.path@, Seq::new(self.headers@.len(), |i: int| self.headers@[i]@))
    }
}

/// Most headers a request may have.
pub const MAX_HEADERS: usize = 16;

/// The path and headers that `httparse` reads from bytes that hold a
/// complete request head of at most `max_headers` headers; none for any
/// other bytes.
pub uninterp spec fn request_head_of(b: Seq<u8>, max_headers: usize) -> Option<(Seq<char>, Seq<(Seq<char>, Seq<u8>)>)>;

/// Relies on `httparse::Request::parse`, given room for `max_headers`
/// headers: on a complete request head it gives the path and the headers;
/// on incomplete or malformed bytes, or on more headers than there is room
/// for, nothing. Empty bytes are incomplete.
#[verifier::external_body]
pub(crate) fn read_request_head(b: &[u8], max_headers: usize) -> (r: Option<RequestHead>)
    ensures
        match request_head_of(b@, max_headers) {
            Some(h) => r is Some && r->Some_0@ == h,
            None => r is None,
        },
        b@.len() == 0 ==> r is None,
{
    let mut headers = vec![httparse::EMPTY_HEADER; max_headers];
    let mut req = httparse::Request::new(&mut headers);
    match (req.parse(b), req.path) {
        (Ok(httparse::Status::Complete(_)), Some(path)) => Some(RequestHead {
            path: path.to_string(),
            headers: req.headers.iter().map(|h| Header { name: h.name.to_string(), value: h.value.to_vec() }).collect(),
        }),
        _ => None,
    }
}

/// The registered reason phrase of a status code, where it has one.
pub uninterp spec fn canonical_reason_of(code: u16) -> Option<Seq<char>>;

/// Relies on `http::StatusCode::canonical_reason`: the reason phrase that
/// the `http` crate registers for a status code, if any. The code reaches it
/// through `http::StatusCode::from_u16`, which refuses codes outside 100 to
/// 999; those have no phrase here.
#[verifier::external_body]
pub(crate) fn canonical_reason(code: u16) -> (r: Option<&'static str>)
    ensures
        match canonical_reason_of(code) {
            Some(s) => r is Some && r->Some_0@ == s,
            None => r is None,
        },
{
    match http::StatusCode::from_u16(code) {
        Ok(status) => status.canonical_reason(),
        Err(_) => None,
    }
}

/// The ASCII digits of `n` in decimal.
pub open spec fn decimal(n: nat) -> Seq<u8>
    decreases n,
{
    if n < 10 {
        seq![(48 + n) as u8]
    } else {
        decimal(n / 10).push((48 + n % 10) as u8)
    }
}

/// The reason phrase written after a status code.
pub open spec fn reason_text(code: u16) -> Seq<char> {
    match canonical_reason_of(code) {
        Some(s) => s,
        None => "<unknown status code>"@,
    }
}

/// The body bytes of a response.
pub open spec fn body_bytes(r: ReturnView) -> Seq<u8> {
    match r.text {
        Some(t) => encode_utf8(t),
        None => Seq::empty(),
    }
}

/// A response on the wire: status line, `Content-Length`, a blank line and
/// the body.
pub open spec fn response_bytes(r: ReturnView) -> Seq<u8> {
    encode_utf8("HTTP/1.1 "@) + decimal(r.code as nat) + encode_utf8(" "@) + encode_utf8(reason_text(r.code))
        + encode_utf8("\r\nContent-Length: "@) + decimal(body_bytes(r).len()) + encode_utf8("\r\n\r\n"@)
        + body_bytes(r)
}

fn push_bytes(out: &mut Vec<u8>, b: &[u8])
    ensures
        final(out)@ == old(out)@ + b@,
{
    let mut i: usize = 0;
    while i < b.len()
        invariant
            i <= b.len(),
            out@ == old(out)@ + b@.take(i as int),
        decreases b.len() - i,
    {
        proof {
            assert(b@.take(i + 1) =~= b@.take(i as int).push(b@[i as int]));
        }
        out.push(b[i]);
        i += 1;
    }
    proof {
        assert(b@.take(b.len() as int) =~= b@);
    }
}

fn push_decimal(out: &mut Vec<u8>, n: usize)
    ensures
        final(out)@ == old(out)@ + decimal(n as nat),
    decreases n,
{
    if n < 10 {
        out.push(48 + n as u8);
        proof {
            assert(final(out)@ =~= old(out)@ + decimal(n as nat));
        }
    } else {
        push_decimal(out, n / 10);
        out.push(48 + (n % 10) as u8);
        proof {
            assert(final(out)@ =~= old(out)@ + decimal(n as nat));
        }
    }
}

/// The bytes of the response `ret`.
pub fn render(ret: &Return) -> (r: Vec<u8>)
    ensures
        r@ == response_bytes(ret@),
{
    let mut out: Vec<u8> = Vec::new();
    push_bytes(&mut out, "HTTP/1.1 ".as_bytes());
    push_decimal(&mut out, ret.code as usize);
    push_bytes(&mut out, " ".as_bytes());
    match canonical_reason(ret.code) {
        Some(s) => push_bytes(&mut out, s.as_bytes()),
        None => push_bytes(&mut out, "<unknown status code>".as_bytes()),
    }
    push_bytes(&mut out, "\r\nContent-Length: ".as_bytes());
    let body: &[u8] = match &ret.text {
        Some(t) => t.as_str().as_bytes(),
        None => &[],
    };
    push_decimal(&mut out, body.len());
    push_bytes(&mut out, "\r\n\r\n".as_bytes());
    push_bytes(&mut out, body);
    proof {
        assert(out@ =~= response_bytes(ret@));
    }
    out
}

} // verus!
