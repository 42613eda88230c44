//! The protocol envelopes. The request writer builds the JSON text
//! `{"jsonrpc":"2.0","method":<m>,"id":<n>,"params":<p>}` byte by byte —
//! escaping the method name, rendering the id in decimal, splicing in the
//! already-serialized params — and wraps it in one frame, so the announced
//! `Content-Length` is the payload's exact byte count. The response decoder
//! reads the envelope fields `id`, `result` and `error` out of a parsed body.

use vstd::prelude::*;

use crate::codec::{dec_repr, frame, frame_of, u64_decimal, ParseError};
use crate::json::{
    is_null_of, is_string_of, json_as_u64, json_clone, json_get, json_is_null, json_is_string,
    member_of, parse_json, parsed_of, u64_of,
};

verus! {

// ---------------------------------------------------------------------------
// Request text
// ---------------------------------------------------------------------------

/// The bytes of `{"jsonrpc":"2.0","method":"`.
pub open spec fn lit_req_open() -> Seq<u8> {
    seq![
        123u8, 34, 106, 115, 111, 110, 114, 112, 99, 34, 58, 34, 50, 46, 48, 34, 44, 34, 109,
        101, 116, 104, 111, 100, 34, 58, 34,
    ]
}

/// The bytes of `","id":`.
pub open spec fn lit_req_id() -> Seq<u8> {
    seq![34u8, 44, 34, 105, 100, 34, 58]
}

/// The bytes of `,"params":`.
pub open spec fn lit_req_params() -> Seq<u8> {
    seq![44u8, 34, 112, 97, 114, 97, 109, 115, 34, 58]
}

/// A hexadecimal digit, lower case.
pub open spec fn hex_digit(d: int) -> u8 {
    if d < 10 {
        (48 + d) as u8
    } else {
        (87 + d) as u8
    }
}

/// How one byte of a string appears inside a JSON string literal: quote and
/// backslash are escaped, control bytes become `\u00xx`, and every other
/// byte (including the bytes of multi-byte UTF-8 sequences) passes through.
pub open spec fn escape_byte(b: u8) -> Seq<u8> {
    if b == 34 {
        seq![92u8, 34]
    } else if b == 92 {
        seq![92u8, 92]
    } else if b < 32 {
        seq![92u8, 117, 48, 48, hex_digit(b as int / 16), hex_digit(b as int % 16)]
    } else {
        seq![b]
    }
}

/// A byte string as it appears inside a JSON string literal.
pub open spec fn json_escaped(s: Seq<u8>) -> Seq<u8>
    decreases s.len(),
{
    if s.len() == 0 {
        Seq::empty()
    } else {
        json_escaped(s.drop_last()) + escape_byte(s.last())
    }
}

/// The framed bytes `send` writes for a call: the request envelope over the
/// JSON text of `params`, wrapped in one frame.
pub open spec fn frame_of_request(method: Seq<u8>, id: u64, params: serde_json::Value) -> Seq<u8> {
    frame_of(request_envelope(method, id, crate::json::json_text_of(params)))
}

/// The whole request envelope text for a call of `method` with request id
/// `id` and already-serialized params text `params`.
pub open spec fn request_envelope(method: Seq<u8>, id: u64, params: Seq<u8>) -> Seq<u8> {
    lit_req_open() + json_escaped(method) + lit_req_id() + dec_repr(id as nat) + lit_req_params()
        + params + seq![125u8]
}

/// The literal `{"jsonrpc":"2.0","method":"` as a vector.
fn req_open_lit() -> (r: Vec<u8>)
    ensures
        r@ == lit_req_open(),
{
    let mut v: Vec<u8> = Vec::new();
    v.push(123);
    v.push(34);
    v.push(106);
    v.push(115);
    v.push(111);
    v.push(110);
    v.push(114);
    v.push(112);
    v.push(99);
    v.push(34);
    v.push(58);
    v.push(34);
    v.push(50);
    v.push(46);
    v.push(48);
    v.push(34);
    v.push(44);
    v.push(34);
    v.push(109);
    v.push(101);
    v.push(116);
    v.push(104);
    v.push(111);
    v.push(100);
    v.push(34);
    v.push(58);
    v.push(34);
    proof {
        assert(v@ =~= lit_req_open());
    }
    v
}

/// The literal `","id":` as a vector.
fn req_id_lit() -> (r: Vec<u8>)
    ensures
        r@ == lit_req_id(),
{
    let mut v: Vec<u8> = Vec::new();
    v.push(34);
    v.push(44);
    v.push(34);
    v.push(105);
    v.push(100);
    v.push(34);
    v.push(58);
    proof {
        assert(v@ =~= lit_req_id());
    }
    v
}

/// The literal `,"params":` as a vector.
fn req_params_lit() -> (r: Vec<u8>)
    ensures
        r@ == lit_req_params(),
{
    let mut v: Vec<u8> = Vec::new();
    v.push(44);
    v.push(34);
    v.push(112);
    v.push(97);
    v.push(114);
    v.push(97);
    v.push(109);
    v.push(115);
    v.push(34);
    v.push(58);
    proof {
        assert(v@ =~= lit_req_params());
    }
    v
}

/// Escape a byte string for inclusion inside a JSON string literal.
pub fn escape_json_bytes(s: &[u8]) -> (r: Vec<u8>)
    ensures
        r@ == json_escaped(s@),
{
    let mut out: Vec<u8> = Vec::new();
    let mut i: usize = 0;
    proof {
        assert(s@.take(0) =~= Seq::<u8>::empty());
    }
    while i < s.len()
        invariant
            0 <= i <= s@.len(),
            out@ == json_escaped(s@.take(i as int)),
        decreases s@.len() - i,
    {
        let b = *vstd::slice::slice_index_get(s, i);
        let ghost pre = s@.take(i as int);
        let ghost ext = s@.take(i + 1int);
        proof {
            assert(ext.drop_last() =~= pre);
            assert(ext.last() == s@[i as int]);
        }
        if b == 34 {
            out.push(92);
            out.push(34);
        } else if b == 92 {
            out.push(92);
            out.push(92);
        } else if b < 32 {
            out.push(92);
            out.push(117);
            out.push(48);
            out.push(48);
            if b / 16 < 10 {
                out.push(48 + b / 16);
            } else {
                out.push(87 + b / 16);
            }
            if b % 16 < 10 {
                out.push(48 + b % 16);
            } else {
                out.push(87 + b % 16);
            }
        } else {
            out.push(b);
        }
        proof {
            assert(out@ =~= json_escaped(pre) + escape_byte(b));
        }
        i = i + 1;
    }
    proof {
        assert(s@.take(s@.len() as int) =~= s@);
    }
    out
}

/// Build one framed request: the envelope for (`method`, `id`, `params_json`)
/// wrapped in a frame whose `Content-Length` is the envelope's exact byte
/// count.
pub fn encode_request(method: &[u8], id: u64, params_json: &[u8]) -> (r: Vec<u8>)
    ensures
        r@ == frame_of(request_envelope(method@, id, params_json@)),
{
    let mut body = req_open_lit();
    let mut esc = escape_json_bytes(method);
    body.append(&mut esc);
    let mut mid = req_id_lit();
    body.append(&mut mid);
    let mut digits = u64_decimal(id);
    body.append(&mut digits);
    let mut par = req_params_lit();
    body.append(&mut par);
    let mut pj = vstd::slice::slice_to_vec(params_json);
    body.append(&mut pj);
    body.push(125);
    proof {
        assert(body@ =~= request_envelope(method@, id, params_json@));
    }
    frame(body.as_slice())
}

// ---------------------------------------------------------------------------
// Response envelope
// ---------------------------------------------------------------------------

/// The fields of a decoded response envelope: the request id it answers, and
/// the `result` or `error` member, each opaque JSON.
pub struct ResponseEnvelope {
    pub id: Option<u64>,
    pub result: Option<serde_json::Value>,
    pub error: Option<serde_json::Value>,
}

/// What a fulfilled call receives: the response's `result` if present, else
/// its `error`, else nothing.
#[derive(Debug)]
pub enum Message {
    Result(serde_json::Value),
    Error(serde_json::Value),
    Null,
}

/// The message a response envelope carries: `result` wins over `error`, and
/// an envelope with neither carries null.
pub open spec fn extracted(result: Option<serde_json::Value>, error: Option<serde_json::Value>) -> Message {
    match result {
        Option::Some(v) => Message::Result(v),
        Option::None => match error {
            Option::Some(e) => Message::Error(e),
            Option::None => Message::Null,
        },
    }
}

/// Pick the message out of a response's `result` and `error` members.
pub fn extract_message(result: Option<serde_json::Value>, error: Option<serde_json::Value>) -> (r:
    Message)
    ensures
        r == extracted(result, error),
{
    match result {
        Option::Some(v) => Message::Result(v),
        Option::None => match error {
            Option::Some(e) => Message::Error(e),
            Option::None => Message::Null,
        },
    }
}

/// Why a received frame could not be turned into a message. Every variant is
/// fatal: there is no resynchronization after a framing or decode failure.
#[derive(Debug)]
pub enum ReadError {
    /// The frame header was malformed: desync, fatal.
    Parse(ParseError),
    /// The frame body is not valid JSON: fatal.
    InvalidJson(serde_json::Error),
    /// The frame body is valid JSON but not a response envelope: fatal.
    InvalidEnvelope,
}

/// A parsed body is a response envelope only if its `jsonrpc` member is
/// present and a string.
pub open spec fn jsonrpc_ok(v: serde_json::Value) -> bool {
    match member_of(v, "jsonrpc"@) {
        Option::Some(j) => is_string_of(j),
        Option::None => false,
    }
}

/// A parsed body's `id` member must be absent, null, or an unsigned integer.
pub open spec fn id_field_ok(v: serde_json::Value) -> bool {
    match member_of(v, "id"@) {
        Option::None => true,
        Option::Some(idv) => is_null_of(idv) || u64_of(idv) is Some,
    }
}

/// The request id a parsed body answers: absent and null both mean none.
pub open spec fn spec_id(v: serde_json::Value) -> Option<u64> {
    match member_of(v, "id"@) {
        Option::None => Option::None,
        Option::Some(idv) => if is_null_of(idv) {
            Option::None
        } else {
            u64_of(idv)
        },
    }
}

/// The envelope a well-shaped parsed body decodes to: its id, and its
/// `result` and `error` members as they are.
pub open spec fn envelope_of(v: serde_json::Value) -> ResponseEnvelope {
    ResponseEnvelope {
        id: spec_id(v),
        result: member_of(v, "result"@),
        error: member_of(v, "error"@),
    }
}

/// Decode a frame body as a response envelope. For every payload: a body
/// that is not valid JSON is exactly the fatal decode error; a valid body
/// whose `jsonrpc` member is absent or not a string, or whose `id` member is
/// present, non-null and not an unsigned integer, is exactly the envelope
/// error; any other body decodes to its id and its `result` and `error`
/// members.
pub fn decode_envelope(payload: &[u8]) -> (r: Result<ResponseEnvelope, ReadError>)
    ensures
        (match parsed_of(payload@) {
            Option::None => r matches Err(ReadError::InvalidJson(_)),
            Option::Some(v) => if jsonrpc_ok(v) && id_field_ok(v) {
                r == Ok::<ResponseEnvelope, ReadError>(envelope_of(v))
            } else {
                r == Err::<ResponseEnvelope, ReadError>(ReadError::InvalidEnvelope)
            },
        }),
{
    let v = match parse_json(payload) {
        Ok(v) => v,
        Err(e) => {
            return Err(ReadError::InvalidJson(e));
        },
    };
    match json_get(&v, "jsonrpc") {
        Option::Some(j) => {
            if !json_is_string(j) {
                return Err(ReadError::InvalidEnvelope);
            }
        },
        Option::None => {
            return Err(ReadError::InvalidEnvelope);
        },
    }
    let id: Option<u64> = match json_get(&v, "id") {
        Option::None => Option::None,
        Option::Some(idv) => {
            if json_is_null(idv) {
                Option::None
            } else {
                match json_as_u64(idv) {
                    Option::Some(n) => Option::Some(n),
                    Option::None => {
                        return Err(ReadError::InvalidEnvelope);
                    },
                }
            }
        },
    };
    let result = match json_get(&v, "result") {
        Option::Some(r) => Option::Some(json_clone(r)),
        Option::None => Option::None,
    };
    let error = match json_get(&v, "error") {
        Option::Some(e) => Option::Some(json_clone(e)),
        Option::None => Option::None,
    };
    Ok(ResponseEnvelope { id, result, error })
}

} // verus!
