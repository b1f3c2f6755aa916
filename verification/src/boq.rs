//! Google's `batchexecute` ("Boq") RPC framing: building a request body and
//! finding the payload of one RPC in a response.
use vstd::prelude::*;
use crate::encoding::{json_quote, json_string_literal, url_decoded, url_encode, url_encoded, law_url_decode_inverts_encode};
use crate::json::{json_first_value, json_parsed, parse_first_json, parse_json, JsonValue};
use crate::text::{append_chars, append_str, chars_eq, chars_of, has_prefix, string_from_chars};

verus! {

/// The JSON envelope of one RPC call: `[[[rpc_id, inner_json, null, "generic"]]]`.
pub open spec fn envelope(rpc_id: Seq<char>, inner_json: Seq<char>) -> Seq<char> {
    "[[["@ + json_string_literal(rpc_id) + ","@ + json_string_literal(inner_json) + ",null,\"generic\"]]]"@
}

/// The form body of a request: `f.req=` and the percent-encoded envelope, then `&`.
pub open spec fn request_body(rpc_id: Seq<char>, inner_json: Seq<char>) -> Seq<char> {
    "f.req="@ + url_encoded(envelope(rpc_id, inner_json)) + "&"@
}

/// The form body that calls RPC `rpc_id` with the JSON arguments `inner_json`.
pub fn encode_request(rpc_id: &str, inner_json: &str) -> (r: String)
    ensures
        r@ == request_body(rpc_id@, inner_json@),
{
    let mut env: Vec<char> = Vec::new();
    append_str(&mut env, "[[[");
    let q1 = json_quote(rpc_id);
    append_str(&mut env, q1.as_str());
    append_str(&mut env, ",");
    let q2 = json_quote(inner_json);
    append_str(&mut env, q2.as_str());
    append_str(&mut env, ",null,\"generic\"]]]");
    let env_text = string_from_chars(env.as_slice());
    let encoded = url_encode(env_text.as_str());
    let mut out: Vec<char> = Vec::new();
    append_str(&mut out, "f.req=");
    append_str(&mut out, encoded.as_str());
    append_str(&mut out, "&");
    string_from_chars(out.as_slice())
}

/// The value of the `f.req` field of a request body decodes back to the
/// envelope that was encoded.
pub proof fn law_request_body_decodes(rpc_id: Seq<char>, inner_json: Seq<char>)
    ensures
        ({
            let b = request_body(rpc_id, inner_json);
            has_prefix(b, "f.req="@) && b.last() == '&' && url_decoded(b.subrange(6, b.len() - 1)) == Some(envelope(rpc_id, inner_json))
        }),
{
    reveal_strlit("f.req=");
    reveal_strlit("&");
    let e = url_encoded(envelope(rpc_id, inner_json));
    let b = request_body(rpc_id, inner_json);
    assert(b.subrange(6, b.len() - 1) =~= e);
    assert(b.take(6) =~= "f.req="@);
    law_url_decode_inverts_encode(envelope(rpc_id, inner_json));
}

/// Why a response could not be decoded.
#[derive(Debug)]
pub enum BoqError {
    /// The body does not start with `)]}'` (after any byte-order marks).
    MissingPrefix,
    /// A chunk of the response does not parse; serde_json's error text.
    MalformedChunk(String),
    /// A chunk is not a JSON array of frames.
    FrameNotArray,
    /// The `wrb.fr` frame of the RPC has no JSON text at index 2.
    MissingInnerJson,
    /// No `wrb.fr` frame of this RPC id was found.
    NoFrame(String),
    /// The JSON text of the frame does not parse; serde_json's error text.
    InnerPayloadNotJson(String),
}

/// A decoding error as a mathematical value.
pub enum BoqFailure {
    MissingPrefix,
    MalformedChunk(Seq<char>),
    FrameNotArray,
    MissingInnerJson,
    NoFrame(Seq<char>),
    InnerPayloadNotJson(Seq<char>),
}

impl BoqError {
    pub open spec fn model(self) -> BoqFailure {
        match self {
            BoqError::MissingPrefix => BoqFailure::MissingPrefix,
            BoqError::MalformedChunk(m) => BoqFailure::MalformedChunk(m@),
            BoqError::FrameNotArray => BoqFailure::FrameNotArray,
            BoqError::MissingInnerJson => BoqFailure::MissingInnerJson,
            BoqError::NoFrame(id) => BoqFailure::NoFrame(id@),
            BoqError::InnerPayloadNotJson(m) => BoqFailure::InnerPayloadNotJson(m@),
        }
    }
}

/// The message of a decoding error: what went wrong, then the parser's cause
/// where there is one.
pub open spec fn boq_error_text(e: BoqFailure) -> Seq<char> {
    match e {
        BoqFailure::MissingPrefix => "response missing `)]}'` prefix"@,
        BoqFailure::MalformedChunk(m) => "decoding chunk JSON: "@ + m,
        BoqFailure::FrameNotArray => "frame is not an array"@,
        BoqFailure::MissingInnerJson => "`wrb.fr` frame missing inner JSON string"@,
        BoqFailure::NoFrame(id) => "no `wrb.fr` frame found for rpc id `"@ + id + "`"@,
        BoqFailure::InnerPayloadNotJson(m) => "inner payload is not valid JSON: "@ + m,
    }
}

impl BoqError {
    /// The error message.
    pub fn message(&self) -> (r: String)
        ensures
            r@ == boq_error_text(self.model()),
    {
        let mut out: Vec<char> = Vec::new();
        match self {
            BoqError::MissingPrefix => append_str(&mut out, "response missing `)]}'` prefix"),
            BoqError::MalformedChunk(m) => {
                append_str(&mut out, "decoding chunk JSON: ");
                append_str(&mut out, m.as_str());
            },
            BoqError::FrameNotArray => append_str(&mut out, "frame is not an array"),
            BoqError::MissingInnerJson => append_str(&mut out, "`wrb.fr` frame missing inner JSON string"),
            BoqError::NoFrame(id) => {
                append_str(&mut out, "no `wrb.fr` frame found for rpc id `");
                append_str(&mut out, id.as_str());
                append_str(&mut out, "`");
            },
            BoqError::InnerPayloadNotJson(m) => {
                append_str(&mut out, "inner payload is not valid JSON: ");
                append_str(&mut out, m.as_str());
            },
        }
        string_from_chars(out.as_slice())
    }
}

/// The payload of the first `wrb.fr` frame for `rpc_id` among frames `i..`:
/// a frame is an array `["wrb.fr", id, inner_json, ...]`; entries that are not
/// arrays, or whose tag or id differ (a missing one reads as empty), are
/// skipped. The frame's JSON text is parsed: its value is the payload.
pub open spec fn payload_from(frames: Seq<JsonValue>, rpc_id: Seq<char>, i: int) -> Result<Option<JsonValue>, BoqFailure>
    decreases frames.len() - i,
{
    if i < 0 || i >= frames.len() {
        Ok(None)
    } else {
        let f = frames[i];
        let tag = match f.spec_str_at(0) { Some(t) => t, None => seq![] };
        let id = match f.spec_str_at(1) { Some(t) => t, None => seq![] };
        if f.spec_array() is None || tag != "wrb.fr"@ || id != rpc_id {
            payload_from(frames, rpc_id, i + 1)
        } else {
            match f.spec_str_at(2) {
                Some(inner) => match json_parsed(inner) {
                    Ok(v) => Ok(Some(v)),
                    Err(m) => Err(BoqFailure::InnerPayloadNotJson(m)),
                },
                None => Err(BoqFailure::MissingInnerJson),
            }
        }
    }
}

/// The payload that the `wrb.fr` frame for `rpc_id` in a chunk carries.
pub open spec fn rpc_payload(chunk: JsonValue, rpc_id: Seq<char>) -> Result<Option<JsonValue>, BoqFailure> {
    match chunk.spec_array() {
        None => Err(BoqFailure::FrameNotArray),
        Some(frames) => payload_from(frames, rpc_id, 0),
    }
}

/// The text of a string entry, or empty.
fn str_at_or_empty(v: &JsonValue, i: usize) -> (r: Vec<char>)
    ensures
        r@ == (match v.spec_str_at(i as int) { Some(t) => t, None => seq![] }),
{
    match v.get(i) {
        Some(e) => match e.as_str() {
            Some(s) => chars_of(s.as_str()),
            None => Vec::new(),
        },
        None => Vec::new(),
    }
}

/// Finds the `wrb.fr` frame of `rpc_id` in a chunk of frames and parses the
/// JSON text it carries; `None` when the chunk has no such frame.
pub fn find_rpc_payload(frames: &JsonValue, rpc_id: &str) -> (r: Result<Option<JsonValue>, BoqError>)
    ensures
        match (r, rpc_payload(*frames, rpc_id@)) {
            (Ok(a), Ok(b)) => a == b,
            (Err(e), Err(f)) => e.model() == f,
            _ => false,
        },
{
    let outer = match frames.as_array() {
        Some(a) => a,
        None => return Err(BoqError::FrameNotArray),
    };
    let id_wanted = chars_of(rpc_id);
    let tag_wanted = chars_of("wrb.fr");
    let mut i: usize = 0;
    while i < outer.len()
        invariant
            i <= outer.len(),
            id_wanted@ == rpc_id@,
            tag_wanted@ == "wrb.fr"@,
            rpc_payload(*frames, rpc_id@) == payload_from(outer@, rpc_id@, i as int),
        decreases outer.len() - i,
    {
        let f = &outer[i];
        if f.as_array().is_some() {
            let tag = str_at_or_empty(f, 0);
            let id = str_at_or_empty(f, 1);
            if chars_eq(tag.as_slice(), tag_wanted.as_slice()) && chars_eq(id.as_slice(), id_wanted.as_slice()) {
                let inner = match f.get(2) {
                    Some(e) => match e.as_str() {
                        Some(s) => s,
                        None => return Err(BoqError::MissingInnerJson),
                    },
                    None => return Err(BoqError::MissingInnerJson),
                };
                return match parse_json(inner.as_str()) {
                    Ok(v) => Ok(Some(v)),
                    Err(m) => Err(BoqError::InnerPayloadNotJson(m)),
                };
            }
        }
        i = i + 1;
    }
    Ok(None)
}

/// Number of leading byte-order marks (U+FEFF).
pub open spec fn leading_boms(s: Seq<char>) -> nat
    decreases s.len(),
{
    if s.len() > 0 && s[0] == '\u{feff}' { 1 + leading_boms(s.drop_first()) } else { 0 }
}

/// The text of a response after its byte-order marks and its `)]}'` prefix;
/// `None` when the prefix is missing.
pub open spec fn after_prefix(body: Seq<char>) -> Option<Seq<char>> {
    let t = body.skip(leading_boms(body) as int);
    if has_prefix(t, ")]}'"@) { Some(t.skip(4)) } else { None }
}

/// The first index at or after `pos` of a `[` or `{`: where the next chunk starts.
pub open spec fn chunk_start(s: Seq<char>, pos: int) -> Option<int>
    decreases s.len() - pos,
{
    if pos < 0 || pos >= s.len() {
        None
    } else if s[pos] == '[' || s[pos] == '{' {
        Some(pos)
    } else {
        chunk_start(s, pos + 1)
    }
}

proof fn lemma_chunk_start_range(s: Seq<char>, pos: int)
    ensures
        chunk_start(s, pos) matches Some(k) ==> pos <= k < s.len(),
    decreases s.len() - pos,
{
    if !(pos < 0 || pos >= s.len()) && !(s[pos] == '[' || s[pos] == '{') {
        lemma_chunk_start_range(s, pos + 1);
    }
}

/// The first `[` or `{` of `c`.
fn find_chunk_start(c: &Vec<char>) -> (r: Option<usize>)
    ensures
        match (r, chunk_start(c@, 0)) {
            (Some(i), Some(j)) => i == j && i < c.len(),
            (None, None) => true,
            _ => false,
        },
{
    proof {
        lemma_chunk_start_range(c@, 0);
    }
    let mut i: usize = 0;
    while i < c.len()
        invariant
            i <= c.len(),
            chunk_start(c@, i as int) == chunk_start(c@, 0),
        decreases c.len() - i,
    {
        if c[i] == '[' || c[i] == '{' {
            return Some(i);
        }
        i = i + 1;
    }
    None
}

/// The index right after the byte-order marks and the `)]}'` prefix of a body.
fn prefix_end(b: &Vec<char>) -> (r: Option<usize>)
    ensures
        match (r, after_prefix(b@)) {
            (Some(n), Some(t)) => 4 <= n <= b.len() && n - 4 == leading_boms(b@) && t == b@.skip(n as int),
            (None, None) => true,
            _ => false,
        },
{
    let mut i: usize = 0;
    assert(b@.skip(0) =~= b@);
    while i < b.len() && b[i] == '\u{feff}'
        invariant
            i <= b.len(),
            leading_boms(b@) == i + leading_boms(b@.skip(i as int)),
        decreases b.len() - i,
    {
        assert(b@.skip(i as int).drop_first() =~= b@.skip(i + 1));
        i = i + 1;
    }
    assert(leading_boms(b@.skip(i as int)) == 0);
    let ghost t = b@.skip(i as int);
    proof {
        reveal_strlit(")]}'");
    }
    if b.len() - i < 4 || !(b[i] == ')' && b[i + 1] == ']' && b[i + 2] == '}' && b[i + 3] == '\'') {
        proof {
            if has_prefix(t, ")]}'"@) {
                assert(t.take(4)[0] == t[0]);
                assert(t.take(4)[1] == t[1]);
                assert(t.take(4)[2] == t[2]);
                assert(t.take(4)[3] == t[3]);
            }
        }
        return None;
    }
    assert(t.take(4) =~= ")]}'"@);
    assert(t.skip(4) =~= b@.skip(i + 4));
    Some(i + 4)
}

/// Decoding the text after a response's prefix: the stream deserializer is
/// started at each next `[` or `{` (what comes before, such as length lines,
/// is skipped); each value it reads is searched for the RPC's `wrb.fr` frame,
/// whose parsed payload is the result. When no bracket or no value is left,
/// no frame was found.
pub open spec fn decode_from(text: Seq<char>, rpc_id: Seq<char>) -> Result<JsonValue, BoqFailure>
    decreases text.len(),
{
    match chunk_start(text, 0) {
        None => Err(BoqFailure::NoFrame(rpc_id)),
        Some(st) => match json_first_value(text.skip(st)) {
            None => Err(BoqFailure::NoFrame(rpc_id)),
            Some(Err(m)) => Err(BoqFailure::MalformedChunk(m)),
            Some(Ok((chunk, rest))) => match rpc_payload(chunk, rpc_id) {
                Err(e) => Err(e),
                Ok(Some(p)) => Ok(p),
                Ok(None) => if rest.len() < text.len() {
                    decode_from(rest, rpc_id)
                } else {
                    Err(BoqFailure::NoFrame(rpc_id))
                },
            },
        },
    }
}

/// How decoding a whole response body for `rpc_id` ends.
pub open spec fn decode_outcome(body: Seq<char>, rpc_id: Seq<char>) -> Result<JsonValue, BoqFailure> {
    match after_prefix(body) {
        None => Err(BoqFailure::MissingPrefix),
        Some(t) => decode_from(t, rpc_id),
    }
}

/// Whether `r` is how decoding `body` for `rpc_id` ends.
pub open spec fn decodes_to(body: Seq<char>, rpc_id: Seq<char>, r: Result<JsonValue, BoqError>) -> bool {
    match (r, decode_outcome(body, rpc_id)) {
        (Ok(a), Ok(b)) => a == b,
        (Err(e), Err(f)) => e.model() == f,
        _ => false,
    }
}

/// The characters of `b` from index `k` on.
fn chars_from(b: &Vec<char>, k: usize) -> (r: Vec<char>)
    requires
        k <= b.len(),
    ensures
        r@ == b@.skip(k as int),
{
    let mut out: Vec<char> = Vec::new();
    let mut i = k;
    while i < b.len()
        invariant
            k <= i <= b.len(),
            out@ == b@.subrange(k as int, i as int),
        decreases b.len() - i,
    {
        out.push(b[i]);
        i = i + 1;
        assert(out@ =~= b@.subrange(k as int, i as int));
    }
    assert(out@ =~= b@.skip(k as int));
    out
}

/// Decodes a `batchexecute` response body: after any byte-order marks and the
/// `)]}'` prefix comes a stream of JSON chunks separated by length lines (which
/// are skipped); the payload is the parsed JSON carried by the first `wrb.fr`
/// frame of `rpc_id`.
pub fn decode_response(body: &str, rpc_id: &str) -> (r: Result<JsonValue, BoqError>)
    ensures
        decodes_to(body@, rpc_id@, r),
{
    let b = chars_of(body);
    let start = match prefix_end(&b) {
        Some(n) => n,
        None => return Err(BoqError::MissingPrefix),
    };
    let mut cursor = chars_from(&b, start);
    loop
        invariant
            decode_outcome(body@, rpc_id@) == decode_from(cursor@, rpc_id@),
        decreases cursor.len(),
    {
        let st = match find_chunk_start(&cursor) {
            Some(i) => i,
            None => {
                let mut id = String::new();
                id.append(rpc_id);
                return Err(BoqError::NoFrame(id));
            },
        };
        let tail = chars_from(&cursor, st);
        let text = string_from_chars(tail.as_slice());
        let (frames, rest) = match parse_first_json(text.as_str()) {
            None => {
                let mut id = String::new();
                id.append(rpc_id);
                return Err(BoqError::NoFrame(id));
            },
            Some(Err(m)) => return Err(BoqError::MalformedChunk(m)),
            Some(Ok(pair)) => pair,
        };
        match find_rpc_payload(&frames, rpc_id) {
            Err(e) => return Err(e),
            Ok(Some(p)) => return Ok(p),
            Ok(None) => {},
        }
        cursor = chars_of(rest.as_str());
    }
}

}
