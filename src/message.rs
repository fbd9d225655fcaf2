//! The messages of the channel and their MessagePack encoding.
//!
//! Each message variant carries no payload and is encoded, named, as the
//! MessagePack string of its variant name.
use vstd::prelude::*;
use crate::error::CodecError;
use crate::frame::be32;
use vstd::string::{is_ascii_spec_bytes, StrSliceExecFns, StringSliceAdditionalSpecFns};
use vstd::utf8::is_ascii_chars;

verus! {

/// Messages that a client sends.
#[derive(Clone, Copy, Debug, PartialEq, Eq, Structural)]
pub enum Request {
    /// First message sent by the client after connecting.
    Greeting,
}

/// Messages that the server sends.
#[derive(Clone, Copy, Debug, PartialEq, Eq, Structural)]
pub enum Response {
    /// Reply to a greeting; its name on the wire is `Wellcome`.
    Welcome,
}

/// The MessagePack head of a string of `n` bytes.
pub open spec fn str_head(n: nat) -> Seq<u8> {
    if n < 32 {
        seq![(0xa0 + n) as u8]
    } else if n < 256 {
        seq![0xd9u8, n as u8]
    } else if n < 65536 {
        seq![0xdau8, (n / 256) as u8, (n % 256) as u8]
    } else {
        seq![0xdbu8] + be32(n as u32)
    }
}

/// The MessagePack string whose UTF-8 bytes are `b`.
pub open spec fn msgpack_str(b: Seq<u8>) -> Seq<u8> {
    str_head(b.len()) + b
}

/// The bytes of ASCII text.
pub open spec fn ascii_bytes(t: Seq<char>) -> Seq<u8> {
    Seq::new(t.len(), |i: int| t[i] as u8)
}

/// The text of ASCII bytes.
pub open spec fn ascii_text(b: Seq<u8>) -> Seq<char> {
    Seq::new(b.len(), |i: int| b[i] as char)
}

/// `b` is a MessagePack string of fewer than 32 ASCII bytes.
pub open spec fn is_short_ascii_str(b: Seq<u8>) -> bool {
    &&& 1 <= b.len() <= 32
    &&& b[0] == 0xa0 + (b.len() - 1)
    &&& forall|i: int| 1 <= i < b.len() ==> #[trigger] b[i] < 0x80
}

/// The text that MessagePack bytes decode to, if they decode to text.
pub uninterp spec fn msgpack_text(b: Seq<u8>) -> Option<Seq<char>>;

/// Relies on `rmp_serde::encode::to_vec_named` on a `str`: it writes the
/// MessagePack string head for the byte length, then the UTF-8 bytes. It
/// writes into a `Vec` whose only failure is a refused allocation, which,
/// as everywhere in this library, is taken not to happen.
#[verifier::external_body]
fn encode_text(s: &str) -> (r: Result<Vec<u8>, rmp_serde::encode::Error>)
    requires
        (s.spec_bytes().len() <= u32::MAX),
    ensures
        r is Ok,
        r matches Ok(v) ==> v@ == msgpack_str(s.spec_bytes()),
{
    rmp_serde::encode::to_vec_named(s)
}

/// Relies on `rmp_serde::from_slice::<String>`: the outcome depends on the
/// bytes alone, and a short MessagePack string of ASCII bytes decodes to
/// that text.
#[verifier::external_body]
fn decode_text(b: &[u8]) -> (r: Result<String, rmp_serde::decode::Error>)
    ensures
        r is Ok <==> msgpack_text(b@) is Some,
        r matches Ok(t) ==> msgpack_text(b@) == Some(t@),
        r is Err ==> !is_short_ascii_str(b@),
        r matches Ok(t) ==> (is_short_ascii_str(b@) ==> t@ == ascii_text(b@.drop_first())),
{
    rmp_serde::from_slice::<String>(b)
}

/// Whether two texts are equal.
fn same_text(a: &str, b: &str) -> (r: bool)
    ensures
        r == (a@ == b@),
{
    let n = a.unicode_len();
    if n != b.unicode_len() {
        return false;
    }
    let mut i: usize = 0;
    while i < n
        invariant
            n == a@.len(),
            n == b@.len(),
            i <= n,
            forall|j: int| 0 <= j < i ==> a@[j] == b@[j],
        decreases n - i,
    {
        if a.get_char(i) != b.get_char(i) {
            return false;
        }
        i = i + 1;
    }
    assert(a@ =~= b@);
    true
}

/// The wire name of a request.
pub open spec fn request_name(v: Request) -> Seq<char> {
    match v {
        Request::Greeting => "Greeting"@,
    }
}

/// The wire name of a response.
pub open spec fn response_name(v: Response) -> Seq<char> {
    match v {
        Response::Welcome => "Wellcome"@,
    }
}

/// The request that a wire name stands for.
pub open spec fn request_named(t: Seq<char>) -> Option<Request> {
    if t == "Greeting"@ {
        Some(Request::Greeting)
    } else {
        None
    }
}

/// The response that a wire name stands for.
pub open spec fn response_named(t: Seq<char>) -> Option<Response> {
    if t == "Wellcome"@ {
        Some(Response::Welcome)
    } else {
        None
    }
}

/// The encoding of a request.
pub open spec fn request_payload(v: Request) -> Seq<u8> {
    msgpack_str(ascii_bytes(request_name(v)))
}

/// The encoding of a response.
pub open spec fn response_payload(v: Response) -> Seq<u8> {
    msgpack_str(ascii_bytes(response_name(v)))
}

/// The request that a payload decodes to, if any.
pub open spec fn request_of_payload(b: Seq<u8>) -> Option<Request> {
    match msgpack_text(b) {
        Some(t) => request_named(t),
        None => None,
    }
}

/// The response that a payload decodes to, if any.
pub open spec fn response_of_payload(b: Seq<u8>) -> Option<Response> {
    match msgpack_text(b) {
        Some(t) => response_named(t),
        None => None,
    }
}

impl Request {
    /// The wire name of this request.
    pub fn name(&self) -> (r: &'static str)
        ensures
            r@ == request_name(*self),
            r.is_ascii(),
            r@.len() < 32,
    {
        proof {
            reveal_strlit("Greeting");
        }
        match self {
            Request::Greeting => "Greeting",
        }
    }
}

impl Response {
    /// The wire name of this response.
    pub fn name(&self) -> (r: &'static str)
        ensures
            r@ == response_name(*self),
            r.is_ascii(),
            r@.len() < 32,
    {
        proof {
            reveal_strlit("Wellcome");
        }
        match self {
            Response::Welcome => "Wellcome",
        }
    }
}

/// The request that a decoded wire name stands for.
pub fn request_from_name(name: &str) -> (r: Option<Request>)
    ensures
        r == request_named(name@),
{
    if same_text(name, "Greeting") {
        Some(Request::Greeting)
    } else {
        None
    }
}

/// The response that a decoded wire name stands for.
pub fn response_from_name(name: &str) -> (r: Option<Response>)
    ensures
        r == response_named(name@),
{
    if same_text(name, "Wellcome") {
        Some(Response::Welcome)
    } else {
        None
    }
}

proof fn lemma_name_payload(name: Seq<char>)
    requires
        is_ascii_chars(name),
        name.len() < 32,
    ensures
        is_short_ascii_str(msgpack_str(ascii_bytes(name))),
        ascii_text(msgpack_str(ascii_bytes(name)).drop_first()) == name,
{
    let b = msgpack_str(ascii_bytes(name));
    assert(b.drop_first() == ascii_bytes(name));
    assert forall|i: int| 1 <= i < b.len() implies #[trigger] b[i] < 0x80 by {
        assert(b[i] == name[i - 1] as u8);
    }
    assert(ascii_text(ascii_bytes(name)) =~= name);
}

/// Encodes a request.
pub fn encode_request(v: &Request) -> (r: Result<Vec<u8>, CodecError>)
    ensures
        r matches Ok(b) && b@ == request_payload(*v),
{
    let name = v.name();
    proof {
        is_ascii_spec_bytes(name);
    }
    assert(name.spec_bytes() =~= ascii_bytes(name@));
    match encode_text(name) {
        Ok(b) => Ok(b),
        Err(e) => Err(CodecError::MsgPackEncode(e)),
    }
}

/// Encodes a response.
pub fn encode_response(v: &Response) -> (r: Result<Vec<u8>, CodecError>)
    ensures
        r matches Ok(b) && b@ == response_payload(*v),
{
    let name = v.name();
    proof {
        is_ascii_spec_bytes(name);
    }
    assert(name.spec_bytes() =~= ascii_bytes(name@));
    match encode_text(name) {
        Ok(b) => Ok(b),
        Err(e) => Err(CodecError::MsgPackEncode(e)),
    }
}

/// Decodes a request. The encoding of any request decodes back to it.
pub fn decode_request(b: &[u8]) -> (r: Result<Request, CodecError>)
    ensures
        r is Ok <==> request_of_payload(b@) is Some,
        r matches Ok(v) ==> request_of_payload(b@) == Some(v),
        r matches Err(e) ==> (e is MsgPackDecode <==> msgpack_text(b@) is None),
        r matches Err(e) ==> (e is MsgPackDecode || e is UnknownVariant),
        forall|v: Request| b@ == #[trigger] request_payload(v) ==> r == Ok::<Request, CodecError>(v),
{
    proof {
        reveal_strlit("Greeting");
        lemma_name_payload(request_name(Request::Greeting));
    }
    match decode_text(b) {
        Ok(t) => match request_from_name(t.as_str()) {
            Some(v) => Ok(v),
            None => Err(CodecError::UnknownVariant(t)),
        },
        Err(e) => Err(CodecError::MsgPackDecode(e)),
    }
}

/// Decodes a response. The encoding of any response decodes back to it.
pub fn decode_response(b: &[u8]) -> (r: Result<Response, CodecError>)
    ensures
        r is Ok <==> response_of_payload(b@) is Some,
        r matches Ok(v) ==> response_of_payload(b@) == Some(v),
        r matches Err(e) ==> (e is MsgPackDecode <==> msgpack_text(b@) is None),
        r matches Err(e) ==> (e is MsgPackDecode || e is UnknownVariant),
        forall|v: Response| b@ == #[trigger] response_payload(v) ==> r == Ok::<Response, CodecError>(v),
{
    proof {
        reveal_strlit("Wellcome");
        lemma_name_payload(response_name(Response::Welcome));
    }
    match decode_text(b) {
        Ok(t) => match response_from_name(t.as_str()) {
            Some(v) => Ok(v),
            None => Err(CodecError::UnknownVariant(t)),
        },
        Err(e) => Err(CodecError::MsgPackDecode(e)),
    }
}

} // verus!
