//! What the Code Wiki client computes around its network calls: request
//! arguments and URLs, the bootstrap values and their cache, and answers.
use vstd::prelude::*;
use crate::encoding::{json_quote, json_string_literal, url_encode, url_encoded};
use crate::boq::{boq_error_text, decode_outcome, decode_response, decodes_to, encode_request, request_body, BoqError};
use crate::json::{json_parsed, parse_json, JsonValue};
use crate::wiki::{parse, parse_outcome, wiki_error_text, Wiki, WikiError};
use crate::text::{append_decimal, append_str, chars_eq, chars_of, decimal, string_from_chars};

verus! {

/// Site root.
pub open spec fn site() -> Seq<char> {
    "https://codewiki.google"@
}

/// The RPC endpoint.
pub open spec fn endpoint() -> Seq<char> {
    "https://codewiki.google/_/BoqAngularSdlcAgentsUi/data/batchexecute"@
}

/// How long a cached bootstrap stays fresh: six hours, in seconds.
pub const CACHE_TTL_SECS: u64 = 21600;

/// The build label used when the live bootstrap fails.
pub open spec fn fallback_bl() -> Seq<char> {
    "boq_sdlc-agents-ui_20260504.02_p0"@
}

/// The session id used when the live bootstrap fails.
pub open spec fn fallback_sid() -> Seq<char> {
    "-8491411211174446345"@
}

/// The GitHub URL of a repository given as `owner/repo`.
pub open spec fn github_url_text(repo: Seq<char>) -> Seq<char> {
    "https://github.com/"@ + repo
}

/// The GitHub URL of a repository given as `owner/repo`.
pub fn github_url(repo: &str) -> (r: String)
    ensures
        r@ == github_url_text(repo@),
{
    let mut out: Vec<char> = Vec::new();
    append_str(&mut out, "https://github.com/");
    append_str(&mut out, repo);
    string_from_chars(out.as_slice())
}

/// The JSON arguments of the `VSX6ub` (read wiki) RPC: `["<github url>"]`.
pub open spec fn read_wiki_args_text(repo: Seq<char>) -> Seq<char> {
    "["@ + json_string_literal(github_url_text(repo)) + "]"@
}

/// The JSON arguments of the `VSX6ub` (read wiki) RPC.
pub fn read_wiki_args(repo: &str) -> (r: String)
    ensures
        r@ == read_wiki_args_text(repo@),
{
    let url = github_url(repo);
    let q = json_quote(url.as_str());
    let mut out: Vec<char> = Vec::new();
    append_str(&mut out, "[");
    append_str(&mut out, q.as_str());
    append_str(&mut out, "]");
    string_from_chars(out.as_slice())
}

/// The JSON arguments of the `EgIxfe` (ask) RPC:
/// `[[["<question>","user"]],[null,"<github url>"]]`.
pub open spec fn ask_args_text(repo: Seq<char>, question: Seq<char>) -> Seq<char> {
    "[[["@ + json_string_literal(question) + ",\"user\"]],[null,"@ + json_string_literal(github_url_text(repo))
        + "]]"@
}

/// The JSON arguments of the `EgIxfe` (ask) RPC.
pub fn ask_args(repo: &str, question: &str) -> (r: String)
    ensures
        r@ == ask_args_text(repo@, question@),
{
    let url = github_url(repo);
    let q = json_quote(question);
    let u = json_quote(url.as_str());
    let mut out: Vec<char> = Vec::new();
    append_str(&mut out, "[[[");
    append_str(&mut out, q.as_str());
    append_str(&mut out, ",\"user\"]],[null,");
    append_str(&mut out, u.as_str());
    append_str(&mut out, "]]");
    string_from_chars(out.as_slice())
}

/// Errors of the client's own logic.
#[derive(Debug)]
pub enum ClientError {
    /// The answer payload has no string at index 0.
    NoAnswer,
    /// The page has no `WIZ_global_data = {...};` assignment.
    GlobalDataMissing,
    /// `WIZ_global_data` is not JSON; serde_json's error text.
    GlobalDataNotJson(String),
    /// `WIZ_global_data` has no `cfb2h` string.
    MissingBuildLabel,
    /// `WIZ_global_data` has no `FdrFJe` string.
    MissingSessionId,
    /// The RPC answered with an HTTP status other than 2xx: the status, its
    /// canonical reason phrase when it has one, and the first 200 characters
    /// of the body.
    HttpStatus(u16, Option<String>, String),
}

/// How an HTTP status prints: the code, a space, and its canonical reason
/// phrase (`<unknown status code>` when it has none), as `StatusCode` displays.
pub open spec fn status_text(code: u16, reason: Option<Seq<char>>) -> Seq<char> {
    decimal(code as nat) + " "@ + match reason {
        Some(t) => t,
        None => "<unknown status code>"@,
    }
}

/// The message of a client error; a parser's cause comes after a colon.
pub open spec fn client_error_text(e: ClientError) -> Seq<char> {
    match e {
        ClientError::NoAnswer => "EgIxfe response did not contain an answer string"@,
        ClientError::GlobalDataMissing => "WIZ_global_data not found in page HTML"@,
        ClientError::GlobalDataNotJson(m) => "WIZ_global_data is not valid JSON: "@ + m@,
        ClientError::MissingBuildLabel => "missing cfb2h (build label) in WIZ_global_data"@,
        ClientError::MissingSessionId => "missing FdrFJe (session id) in WIZ_global_data"@,
        ClientError::HttpStatus(code, reason, body) => "batchexecute returned HTTP "@ + status_text(
            code,
            match reason { Some(t) => Some(t@), None => None },
        ) + ": "@ + body@,
    }
}

impl ClientError {
    /// The error message.
    pub fn message(&self) -> (r: String)
        ensures
            r@ == client_error_text(*self),
    {
        let mut out: Vec<char> = Vec::new();
        match self {
            ClientError::NoAnswer => append_str(&mut out, "EgIxfe response did not contain an answer string"),
            ClientError::GlobalDataMissing => append_str(&mut out, "WIZ_global_data not found in page HTML"),
            ClientError::GlobalDataNotJson(m) => {
                append_str(&mut out, "WIZ_global_data is not valid JSON: ");
                append_str(&mut out, m.as_str());
            },
            ClientError::MissingBuildLabel => append_str(&mut out, "missing cfb2h (build label) in WIZ_global_data"),
            ClientError::MissingSessionId => append_str(&mut out, "missing FdrFJe (session id) in WIZ_global_data"),
            ClientError::HttpStatus(code, reason, body) => {
                append_str(&mut out, "batchexecute returned HTTP ");
                append_decimal(&mut out, *code as u64);
                append_str(&mut out, " ");
                match reason {
                    Some(t) => append_str(&mut out, t.as_str()),
                    None => append_str(&mut out, "<unknown status code>"),
                }
                append_str(&mut out, ": ");
                append_str(&mut out, body.as_str());
            },
        }
        string_from_chars(out.as_slice())
    }
}

/// The answer of an `EgIxfe` payload: its string at index 0.
pub fn answer_from_payload(payload: &JsonValue) -> (r: Result<String, ClientError>)
    ensures
        match (r, payload.spec_str_at(0)) {
            (Ok(s), Some(t)) => s@ == t,
            (Err(e), None) => e is NoAnswer,
            _ => false,
        },
{
    match payload.get(0) {
        Some(v) => match v.as_str() {
            Some(s) => Ok(s.clone()),
            None => Err(ClientError::NoAnswer),
        },
        None => Err(ClientError::NoAnswer),
    }
}

/// The first `n` characters of `s` (all of it when shorter).
pub open spec fn first_chars(s: Seq<char>, n: nat) -> Seq<char> {
    if s.len() <= n { s } else { s.take(n as int) }
}

/// Whether an HTTP status is a success (2xx).
pub open spec fn is_success_status(status: u16) -> bool {
    200 <= status <= 299
}

/// The canonical reason phrase of an HTTP status code, as `http::StatusCode`
/// gives it (`None` for a code it has no phrase for, or that is not a status
/// code at all, outside 100 to 999).
pub uninterp spec fn canonical_reason_of(code: u16) -> Option<Seq<char>>;

/// `reqwest::StatusCode::from_u16(code)` then `canonical_reason()`. The table
/// of phrases is not restated: the result is named `canonical_reason_of`.
#[verifier::external_body]
fn canonical_reason(code: u16) -> (r: Option<String>)
    ensures
        match r {
            Some(t) => canonical_reason_of(code) == Some(t@),
            None => canonical_reason_of(code) is None,
        },
{
    match reqwest::StatusCode::from_u16(code) {
        Ok(s) => s.canonical_reason().map(|t| t.to_string()),
        Err(_) => None,
    }
}

/// `e` is the error of a response with HTTP status `status` and body `body`:
/// the status, its canonical reason and the first 200 characters of the body.
pub open spec fn is_status_error(e: ClientError, status: u16, body: Seq<char>) -> bool {
    &&& e matches ClientError::HttpStatus(code, reason, snippet)
    &&& code == status
    &&& (match reason { Some(t) => Some(t@), None => None }) == canonical_reason_of(status)
    &&& snippet@ == first_chars(body, 200)
}

/// Checks the status of an RPC response: 2xx passes; any other status fails
/// with the status, its reason phrase and the first 200 characters of the body.
pub fn check_status(status: u16, body: &str) -> (r: Result<(), ClientError>)
    ensures
        is_success_status(status) <==> r is Ok,
        r matches Err(e) ==> is_status_error(e, status, body@),
{
    if 200 <= status && status <= 299 {
        return Ok(());
    }
    let b = chars_of(body);
    let n: usize = if b.len() <= 200 { b.len() } else { 200 };
    let mut out: Vec<char> = Vec::new();
    let mut i: usize = 0;
    while i < n
        invariant
            i <= n,
            n <= b.len(),
            out@ == b@.take(i as int),
        decreases n - i,
    {
        out.push(b[i]);
        i = i + 1;
        assert(out@ =~= b@.take(i as int));
    }
    assert(out@ =~= first_chars(body@, 200));
    Err(ClientError::HttpStatus(status, canonical_reason(status), string_from_chars(out.as_slice())))
}

/// The batchexecute URL of one call.
pub open spec fn call_url_text(rpc_id: Seq<char>, repo: Seq<char>, bl: Seq<char>, sid: Seq<char>, reqid: u32) -> Seq<char> {
    endpoint() + "?rpcids="@ + rpc_id + "&source-path="@ + url_encoded("/github.com/"@ + repo) + "&bl="@
        + url_encoded(bl) + "&f.sid="@ + url_encoded(sid) + "&hl=en-US&_reqid="@ + decimal(reqid as nat)
        + "&rt=c"@
}

/// The batchexecute URL of one call.
pub fn call_url(rpc_id: &str, repo: &str, bl: &str, sid: &str, reqid: u32) -> (r: String)
    ensures
        r@ == call_url_text(rpc_id@, repo@, bl@, sid@, reqid),
{
    let mut path: Vec<char> = Vec::new();
    append_str(&mut path, "/github.com/");
    append_str(&mut path, repo);
    let path_text = string_from_chars(path.as_slice());
    let mut out: Vec<char> = Vec::new();
    append_str(&mut out, "https://codewiki.google/_/BoqAngularSdlcAgentsUi/data/batchexecute");
    append_str(&mut out, "?rpcids=");
    append_str(&mut out, rpc_id);
    append_str(&mut out, "&source-path=");
    append_str(&mut out, url_encode(path_text.as_str()).as_str());
    append_str(&mut out, "&bl=");
    append_str(&mut out, url_encode(bl).as_str());
    append_str(&mut out, "&f.sid=");
    append_str(&mut out, url_encode(sid).as_str());
    append_str(&mut out, "&hl=en-US&_reqid=");
    append_decimal(&mut out, reqid as u64);
    append_str(&mut out, "&rt=c");
    string_from_chars(out.as_slice())
}

/// The `Referer` of a call about a repository.
pub open spec fn referer_text(repo: Seq<char>) -> Seq<char> {
    site() + "/github.com/"@ + repo
}

/// The `Referer` of a call about a repository.
pub fn referer(repo: &str) -> (r: String)
    ensures
        r@ == referer_text(repo@),
{
    let mut out: Vec<char> = Vec::new();
    append_str(&mut out, "https://codewiki.google");
    append_str(&mut out, "/github.com/");
    append_str(&mut out, repo);
    string_from_chars(out.as_slice())
}

/// The request id of a call made at `now` (seconds since the epoch): a number
/// from 100000 to 999999 taken from the low bits of the clock.
pub fn reqid_from_secs(now: u64) -> (r: u32)
    ensures
        r == 100_000 + (now as u32) % 900_000,
        100_000 <= r < 1_000_000,
{
    100_000 + (now as u32) % 900_000
}

#[verifier::external_type_specification]
#[verifier::external_body]
pub struct ExSystemTime(std::time::SystemTime);

#[verifier::external_type_specification]
#[verifier::external_body]
pub struct ExSystemTimeError(std::time::SystemTimeError);

/// `SystemTime::now`: the current time; nothing is known of it.
#[verifier::external_body]
fn system_now() -> std::time::SystemTime {
    std::time::SystemTime::now()
}

/// `SystemTime::duration_since(UNIX_EPOCH)`: the time since the epoch, or an
/// error when the clock is before it; nothing is known of the value.
#[verifier::external_body]
fn since_unix_epoch(t: &std::time::SystemTime) -> core::result::Result<core::time::Duration, std::time::SystemTimeError> {
    t.duration_since(std::time::UNIX_EPOCH)
}

/// `Duration::as_secs`: the whole seconds of a duration; not restated here.
#[verifier::external_body]
fn whole_secs(d: &core::time::Duration) -> u64 {
    d.as_secs()
}

/// Seconds since the Unix epoch by the system clock (0 when the clock is
/// before the epoch). Any value may come back.
pub fn now_secs() -> u64 {
    let t = system_now();
    match since_unix_epoch(&t) {
        Ok(d) => whole_secs(&d),
        Err(_) => 0,
    }
}

/// A request id made from the current time.
pub fn pseudo_reqid() -> (r: u32)
    ensures
        100_000 <= r < 1_000_000,
{
    reqid_from_secs(now_secs())
}

/// The build label and session id a session uses, and when they were fetched.
#[derive(Debug)]
pub struct Bootstrap {
    pub bl: String,
    pub sid: String,
    pub fetched_at: u64,
}

/// A bootstrap fetched at `fetched_at` is still fresh at `now`: less than
/// six hours have passed (a time in the future counts as no time passed).
pub open spec fn is_fresh(fetched_at: u64, now: u64) -> bool {
    (if now >= fetched_at { now - fetched_at } else { 0 }) < CACHE_TTL_SECS
}

/// Whether a bootstrap fetched at `fetched_at` is still fresh at `now`.
pub fn cache_is_fresh(fetched_at: u64, now: u64) -> (r: bool)
    ensures
        r == is_fresh(fetched_at, now),
{
    now.saturating_sub(fetched_at) < CACHE_TTL_SECS
}

/// The compiled-in bootstrap used when the live one cannot be fetched.
pub fn fallback_bootstrap(now: u64) -> (r: Bootstrap)
    ensures
        r.bl@ == fallback_bl(),
        r.sid@ == fallback_sid(),
        r.fetched_at == now,
{
    let mut bl = String::new();
    bl.append("boq_sdlc-agents-ui_20260504.02_p0");
    let mut sid = String::new();
    sid.append("-8491411211174446345");
    Bootstrap { bl, sid, fetched_at: now }
}

/// Where a session's bootstrap comes from.
#[derive(Debug)]
pub enum BootstrapPlan {
    /// The cached one is fresh: use it.
    UseCached(Bootstrap),
    /// Fetch a live one.
    Fetch,
}

/// Chooses between a cached bootstrap and a live fetch: a cached bootstrap is
/// used while fresh.
pub fn plan_bootstrap(cached: Option<Bootstrap>, now: u64) -> (r: BootstrapPlan)
    ensures
        match cached {
            Some(c) => if is_fresh(c.fetched_at, now) { r == BootstrapPlan::UseCached(c) } else { r is Fetch },
            None => r is Fetch,
        },
{
    match cached {
        Some(c) => if cache_is_fresh(c.fetched_at, now) { BootstrapPlan::UseCached(c) } else { BootstrapPlan::Fetch },
        None => BootstrapPlan::Fetch,
    }
}

/// The bootstrap a session ends up with after a live fetch: the fetched one
/// (to be written to the cache), or the fallback when the fetch failed.
pub fn bootstrap_after_fetch(fetched: Option<Bootstrap>, now: u64) -> (r: (Bootstrap, bool))
    ensures
        match fetched {
            Some(b) => r.0 == b && r.1,
            None => r.0.bl@ == fallback_bl() && r.0.sid@ == fallback_sid() && r.0.fetched_at == now && !r.1,
        },
{
    match fetched {
        Some(b) => (b, true),
        None => (fallback_bootstrap(now), false),
    }
}

/// The pattern of the page's inline `WIZ_global_data = {...};` assignment.
pub open spec fn global_data_pattern() -> Seq<char> {
    "WIZ_global_data\\s*=\\s*(\\{[\\s\\S]*?\\});"@
}

/// What capture group 1 of the first match of `pattern` in `haystack` holds,
/// as the `regex` crate finds it (`None` when the pattern does not compile, or
/// nothing matches, or the group took no part in the match).
pub uninterp spec fn regex_first_group(pattern: Seq<char>, haystack: Seq<char>) -> Option<Seq<char>>;

/// `regex::Regex::new(pattern)` then `captures(haystack)`, group 1. The
/// matching itself is not restated; the result is named `regex_first_group`.
#[verifier::external_body]
fn first_capture(pattern: &str, haystack: &str) -> (r: Option<String>)
    ensures
        match r {
            Some(g) => regex_first_group(pattern@, haystack@) == Some(g@),
            None => regex_first_group(pattern@, haystack@) is None,
        },
{
    match regex::Regex::new(pattern) {
        Ok(re) => match re.captures(haystack) {
            Some(caps) => match caps.get(1) {
                Some(m) => Some(m.as_str().to_string()),
                None => None,
            },
            None => None,
        },
        Err(_) => None,
    }
}

/// The JSON text of the page's `WIZ_global_data` object.
pub fn find_global_data(html: &str) -> (r: Result<String, ClientError>)
    ensures
        match (r, regex_first_group(global_data_pattern(), html@)) {
            (Ok(s), Some(t)) => s@ == t,
            (Err(e), None) => e is GlobalDataMissing,
            _ => false,
        },
{
    match first_capture("WIZ_global_data\\s*=\\s*(\\{[\\s\\S]*?\\});", html) {
        Some(raw) => Ok(raw),
        None => Err(ClientError::GlobalDataMissing),
    }
}

/// The build label and session id of a parsed `WIZ_global_data` object: its
/// `cfb2h` and `FdrFJe` strings.
pub open spec fn global_data_fields(data: JsonValue) -> Result<(Seq<char>, Seq<char>), ClientError> {
    match data.spec_field("cfb2h"@) {
        Some(b) if b.spec_str() is Some => match data.spec_field("FdrFJe"@) {
            Some(s) if s.spec_str() is Some => Ok((b.spec_str()->Some_0, s.spec_str()->Some_0)),
            _ => Err(ClientError::MissingSessionId),
        },
        _ => Err(ClientError::MissingBuildLabel),
    }
}

/// The bootstrap held by a parsed `WIZ_global_data` object, stamped `now`.
pub fn bootstrap_from_global_data(data: &JsonValue, now: u64) -> (r: Result<Bootstrap, ClientError>)
    ensures
        match global_data_fields(*data) {
            Ok((bl, sid)) => r matches Ok(bs) && bs.bl@ == bl && bs.sid@ == sid && bs.fetched_at == now,
            Err(e) => r == Err::<Bootstrap, ClientError>(e),
        },
{
    let bl = match data.get_field("cfb2h") {
        Some(v) => match v.as_str() {
            Some(s) => s.clone(),
            None => return Err(ClientError::MissingBuildLabel),
        },
        None => return Err(ClientError::MissingBuildLabel),
    };
    let sid = match data.get_field("FdrFJe") {
        Some(v) => match v.as_str() {
            Some(s) => s.clone(),
            None => return Err(ClientError::MissingSessionId),
        },
        None => return Err(ClientError::MissingSessionId),
    };
    Ok(Bootstrap { bl, sid, fetched_at: now })
}

/// Reads the bootstrap out of the Code Wiki home page at time `now` (seconds
/// since the epoch): the page's `WIZ_global_data` object, parsed as JSON,
/// gives the build label and the session id, and the bootstrap is stamped `now`.
pub fn extract_bootstrap_at(html: &str, now: u64) -> (r: Result<Bootstrap, ClientError>)
    ensures
        match regex_first_group(global_data_pattern(), html@) {
            None => r matches Err(ClientError::GlobalDataMissing),
            Some(raw) => match json_parsed(raw) {
                Err(m) => r matches Err(ClientError::GlobalDataNotJson(e)) && e@ == m,
                Ok(data) => match global_data_fields(data) {
                    Ok((bl, sid)) => r matches Ok(bs) && bs.bl@ == bl && bs.sid@ == sid,
                    Err(e) => r == Err::<Bootstrap, ClientError>(e),
                },
            },
        },
        r matches Ok(bs) ==> bs.fetched_at == now,
{
    let raw = match find_global_data(html) {
        Ok(t) => t,
        Err(e) => return Err(e),
    };
    let data = match parse_json(raw.as_str()) {
        Ok(v) => v,
        Err(m) => return Err(ClientError::GlobalDataNotJson(m)),
    };
    bootstrap_from_global_data(&data, now)
}

/// Reads the bootstrap out of the Code Wiki home page, stamped with the
/// current time (see `extract_bootstrap_at`).
pub fn extract_bootstrap(html: &str) -> (r: Result<Bootstrap, ClientError>)
    ensures
        match regex_first_group(global_data_pattern(), html@) {
            None => r matches Err(ClientError::GlobalDataMissing),
            Some(raw) => match json_parsed(raw) {
                Err(m) => r matches Err(ClientError::GlobalDataNotJson(e)) && e@ == m,
                Ok(data) => match global_data_fields(data) {
                    Ok((bl, sid)) => r matches Ok(bs) && bs.bl@ == bl && bs.sid@ == sid,
                    Err(e) => r == Err::<Bootstrap, ClientError>(e),
                },
            },
        },
{
    extract_bootstrap_at(html, now_secs())
}

/// A bootstrap stays fresh for exactly six hours: stamped at `fetched_at`, it
/// is fresh at every time before `fetched_at + 6 h` (a time before the stamp
/// included) and stale from then on.
pub proof fn law_bootstrap_fresh_for_six_hours(fetched_at: u64, now: u64)
    ensures
        is_fresh(fetched_at, now) <==> now < fetched_at + 6 * 60 * 60,
{
}

/// Everything a `batchexecute` call sends besides the fixed headers.
#[derive(Debug)]
pub struct RpcRequest {
    /// The URL to post to.
    pub url: String,
    /// The `Referer` header.
    pub referer: String,
    /// The form body.
    pub body: String,
}

/// The request of an RPC call about `repo` with JSON arguments `inner_json`.
pub fn rpc_request(rpc_id: &str, repo: &str, inner_json: &str, bootstrap: &Bootstrap, reqid: u32) -> (r: RpcRequest)
    ensures
        r.url@ == call_url_text(rpc_id@, repo@, bootstrap.bl@, bootstrap.sid@, reqid),
        r.referer@ == referer_text(repo@),
        r.body@ == request_body(rpc_id@, inner_json@),
{
    RpcRequest {
        url: call_url(rpc_id, repo, bootstrap.bl.as_str(), bootstrap.sid.as_str(), reqid),
        referer: referer(repo),
        body: encode_request(rpc_id, inner_json),
    }
}

/// The request that reads the wiki of `repo` (RPC `VSX6ub`).
pub fn read_wiki_request(repo: &str, bootstrap: &Bootstrap, reqid: u32) -> (r: RpcRequest)
    ensures
        r.url@ == call_url_text("VSX6ub"@, repo@, bootstrap.bl@, bootstrap.sid@, reqid),
        r.referer@ == referer_text(repo@),
        r.body@ == request_body("VSX6ub"@, read_wiki_args_text(repo@)),
{
    let args = read_wiki_args(repo);
    rpc_request("VSX6ub", repo, args.as_str(), bootstrap, reqid)
}

/// The request that asks `question` about `repo` (RPC `EgIxfe`).
pub fn ask_request(repo: &str, question: &str, bootstrap: &Bootstrap, reqid: u32) -> (r: RpcRequest)
    ensures
        r.url@ == call_url_text("EgIxfe"@, repo@, bootstrap.bl@, bootstrap.sid@, reqid),
        r.referer@ == referer_text(repo@),
        r.body@ == request_body("EgIxfe"@, ask_args_text(repo@, question@)),
{
    let args = ask_args(repo, question);
    rpc_request("EgIxfe", repo, args.as_str(), bootstrap, reqid)
}

/// Why an RPC call gave no usable result.
#[derive(Debug)]
pub enum CallError {
    /// The HTTP status, or the answer, was wrong.
    Client(ClientError),
    /// The response could not be decoded.
    Boq(BoqError),
    /// The wiki could not be read out of the payload.
    Wiki(WikiError),
}

impl CallError {
    /// The error message.
    pub fn message(&self) -> (r: String)
        ensures
            r@ == match *self {
                CallError::Client(e) => client_error_text(e),
                CallError::Boq(e) => boq_error_text(e.model()),
                CallError::Wiki(e) => wiki_error_text(e),
            },
    {
        match self {
            CallError::Client(e) => e.message(),
            CallError::Boq(e) => e.message(),
            CallError::Wiki(e) => e.message(),
        }
    }
}

/// The payload that decoding `body` for `rpc_id` gives, when it gives one.
pub open spec fn payload_of(body: Seq<char>, rpc_id: Seq<char>) -> Option<JsonValue> {
    match decode_outcome(body, rpc_id) {
        Ok(p) => Some(p),
        Err(_) => None,
    }
}

/// What an RPC call gives from its HTTP status and response body: a status
/// other than 2xx fails with the status and the start of the body; otherwise
/// the body is decoded for `rpc_id`.
pub fn response_payload(rpc_id: &str, status: u16, body: &str) -> (r: Result<JsonValue, CallError>)
    ensures
        !is_success_status(status) ==> (r matches Err(CallError::Client(e)) && is_status_error(e, status, body@)),
        is_success_status(status) ==> match r {
            Ok(p) => decodes_to(body@, rpc_id@, Ok(p)),
            Err(CallError::Boq(e)) => decodes_to(body@, rpc_id@, Err(e)),
            _ => false,
        },
{
    match check_status(status, body) {
        Err(e) => return Err(CallError::Client(e)),
        Ok(()) => {},
    }
    match decode_response(body, rpc_id) {
        Ok(p) => Ok(p),
        Err(e) => Err(CallError::Boq(e)),
    }
}

/// The wiki that a `VSX6ub` response carries.
pub fn wiki_from_response(status: u16, body: &str) -> (r: Result<Wiki, CallError>)
    ensures
        !is_success_status(status) ==> (r matches Err(CallError::Client(e)) && is_status_error(e, status, body@)),
        is_success_status(status) ==> match payload_of(body@, "VSX6ub"@) {
            Some(p) => match parse_outcome(p) {
                Ok(m) => r matches Ok(w) && w.model() == m,
                Err(e) => r == Err::<Wiki, CallError>(CallError::Wiki(e)),
            },
            None => r matches Err(CallError::Boq(e)) && decodes_to(body@, "VSX6ub"@, Err(e)),
        },
{
    let payload = match response_payload("VSX6ub", status, body) {
        Ok(p) => p,
        Err(e) => return Err(e),
    };
    match parse(&payload) {
        Ok(w) => Ok(w),
        Err(e) => Err(CallError::Wiki(e)),
    }
}

/// The answer that an `EgIxfe` response carries: the string at index 0 of its payload.
pub fn answer_from_response(status: u16, body: &str) -> (r: Result<String, CallError>)
    ensures
        !is_success_status(status) ==> (r matches Err(CallError::Client(e)) && is_status_error(e, status, body@)),
        is_success_status(status) ==> match payload_of(body@, "EgIxfe"@) {
            Some(p) => match p.spec_str_at(0) {
                Some(t) => r matches Ok(s) && s@ == t,
                None => r matches Err(CallError::Client(ClientError::NoAnswer)),
            },
            None => r matches Err(CallError::Boq(e)) && decodes_to(body@, "EgIxfe"@, Err(e)),
        },
{
    let payload = match response_payload("EgIxfe", status, body) {
        Ok(p) => p,
        Err(e) => return Err(e),
    };
    match answer_from_payload(&payload) {
        Ok(s) => Ok(s),
        Err(e) => Err(CallError::Client(e)),
    }
}

/// Whether a value of `CODEWIKI_TLS_VERIFY` asks for strict certificate
/// checking: it is `1`, `true` or `yes`.
pub open spec fn tls_verify_value(v: Seq<char>) -> bool {
    v == "1"@ || v == "true"@ || v == "yes"@
}

/// Whether certificates are checked, given the value of `CODEWIKI_TLS_VERIFY`:
/// checking is off unless the variable asks for it.
pub fn tls_verify_requested(value: Option<&str>) -> (r: bool)
    ensures
        r == match value {
            Some(v) => tls_verify_value(v@),
            None => false,
        },
{
    match value {
        None => false,
        Some(v) => {
            let t = chars_of(v);
            let one = chars_of("1");
            let yes_true = chars_of("true");
            let yes = chars_of("yes");
            chars_eq(t.as_slice(), one.as_slice()) || chars_eq(t.as_slice(), yes_true.as_slice())
                || chars_eq(t.as_slice(), yes.as_slice())
        },
    }
}

}
