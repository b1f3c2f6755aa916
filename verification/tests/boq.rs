use codewiki::boq::{decode_response, encode_request, find_rpc_payload, BoqError};
use codewiki::json::JsonValue;

/// A `batchexecute` body whose first chunk carries an unrelated frame and
/// whose second carries the `wrb.fr` frame of `rpc_id` with `payload_json`.
fn boq_body(rpc_id: &str, payload_json: &str) -> String {
    let frame = format!(
        "[[\"wrb.fr\",\"{}\",{},null,null,null,\"generic\"]]",
        rpc_id,
        serde_json::to_string(payload_json).unwrap()
    );
    format!(
        ")]}}'\n\n13\n[[\"di\",52]]\n{}\n{}\n25\n[[\"e\",4,null,null,123]]\n",
        frame.len(),
        frame
    )
}

fn vsx6ub_payload() -> String {
    let sections = [
        r#"["Example Overview",1,null,null,null,"This is the overview.\n",null,[[[null,null,null,null,"digraph G { a -> b }"]]]]"#,
        r#"["Section A",2,null,null,null,"Body of section A, see [lib](%2Fowner%2Fexample%2Fcrates%2Fcli%2Fsrc%2Flib.rs).",null,[]]"#,
        r#"["Sub A.1",3,null,null,"Sub section body"]"#,
    ];
    format!(
        r#"[[["owner/example","abc123"],[{}],null,null,[]],[null,"https://github.com/owner/example"],true,3]"#,
        sections.join(",")
    )
}

fn egixfe_payload() -> String {
    String::from(r#"["Hello world! See [link](%2Fast-grep%2Fast-grep%2Fcrates%2Fcore) for details.",null]"#)
}

fn decode_err(body: &str, rpc_id: &str) -> BoqError {
    match decode_response(body, rpc_id) {
        Ok(v) => panic!("expected an error, got {:?}", v),
        Err(e) => e,
    }
}

#[test]
fn encode_request_url_encodes_envelope() {
    let body = encode_request("VSX6ub", "[\"https://github.com/owner/repo\"]");
    assert!(body.starts_with("f.req="));
    assert!(body.ends_with('&'));
    let decoded = urlencoding::decode(body.trim_start_matches("f.req=").trim_end_matches('&'))
        .expect("encoded body should round-trip");
    let parsed: serde_json::Value = serde_json::from_str(&decoded).unwrap();
    assert_eq!(parsed[0][0][0], "VSX6ub");
    assert_eq!(parsed[0][0][1], "[\"https://github.com/owner/repo\"]");
    assert_eq!(parsed[0][0][3], "generic");
}

#[test]
fn decode_egixfe_fixture() {
    let body = boq_body("EgIxfe", &egixfe_payload());
    let payload = decode_response(&body, "EgIxfe").expect("decode");
    let answer = payload.get(0).and_then(|v| v.as_str()).expect("string answer");
    assert!(answer.starts_with("Hello world"));
    assert!(answer.contains("[link](%2Fast-grep"));
}

#[test]
fn decode_vsx6ub_fixture() {
    let body = boq_body("VSX6ub", &vsx6ub_payload());
    let payload = decode_response(&body, "VSX6ub").expect("decode");
    // payload = [ wiki, [null, githubUrl], true, 3 ]
    // wiki    = [ [repo, sha], [sections...], ... ]
    let wiki = payload.get(0).unwrap();
    let repo = wiki.get(0).unwrap().get(0).unwrap().as_str().unwrap();
    assert_eq!(repo, "owner/example");
    let sections = wiki.get(1).unwrap().as_array().unwrap();
    assert_eq!(sections.len(), 3);
    assert_eq!(sections[0].get(0).unwrap().as_str().unwrap(), "Example Overview");
    assert_eq!(sections[0].get(1).unwrap().as_u64(), Some(1));
}

#[test]
fn decode_returns_err_when_rpc_id_missing() {
    let body = ")]}'\n14\n[[\"e\",4,null]]\n";
    let err = decode_err(body, "VSX6ub");
    assert!(
        err.message().contains("no `wrb.fr` frame"),
        "unexpected error: {}",
        err.message()
    );
}

#[test]
fn decode_rejects_missing_prefix() {
    let err = decode_err("not a boq response", "VSX6ub");
    assert!(err.message().contains("missing"));
}

#[test]
fn encode_request_is_the_exact_form_body() {
    let body = encode_request("EgIxfe", "[1]");
    assert_eq!(body, "f.req=%5B%5B%5B%22EgIxfe%22%2C%22%5B1%5D%22%2Cnull%2C%22generic%22%5D%5D%5D&");
}

#[test]
fn encoded_request_decodes_back_to_its_envelope() {
    let inner = "[[[\"Qu\u{e9}stion \\\"quoted\\\" & more?\",\"user\"]],[null,\"https://github.com/o/r\"]]";
    let body = encode_request("EgIxfe", inner);
    let field = &body["f.req=".len()..body.len() - 1];
    let decoded = urlencoding::decode(field).expect("round-trip");
    let parsed: serde_json::Value = serde_json::from_str(&decoded).unwrap();
    assert_eq!(parsed[0][0][0], "EgIxfe");
    assert_eq!(parsed[0][0][1], inner);
    assert!(parsed[0][0][2].is_null());
    assert_eq!(parsed[0][0][3], "generic");
}

#[test]
fn decode_skips_byte_order_marks_and_other_rpcs() {
    let body = format!("\u{feff}\u{feff}{}", boq_body("VSX6ub", "[\"mine\"]"));
    let other = boq_body("EgIxfe", "[\"theirs\"]");
    let both = format!("{}{}", body, &other[")]}'".len()..]);
    let payload = decode_response(&both, "VSX6ub").expect("decode");
    assert_eq!(payload.get(0).unwrap().as_str().unwrap(), "mine");
    let payload = decode_response(&both, "EgIxfe").expect("decode");
    assert_eq!(payload.get(0).unwrap().as_str().unwrap(), "theirs");
}

#[test]
fn decode_brackets_inside_strings_do_not_end_a_chunk() {
    let body = boq_body("VSX6ub", "[\"a ] } [ { \\\"] text\"]");
    let payload = decode_response(&body, "VSX6ub").expect("decode");
    assert_eq!(payload.get(0).unwrap().as_str().unwrap(), "a ] } [ { \"] text");
}

#[test]
fn decode_errors_name_their_cause() {
    assert!(matches!(decode_err("\u{feff})]}", "X"), BoqError::MissingPrefix));
    assert!(matches!(decode_err(")]}'\n5\n[[1,2", "X"), BoqError::MalformedChunk(_)));
    assert!(matches!(decode_err(")]}'\n5\n[[1,,2]]", "X"), BoqError::MalformedChunk(_)));
    assert!(matches!(decode_err(")]}'\n7\n{\"a\":1}", "X"), BoqError::FrameNotArray));
    assert!(matches!(decode_err(")]}'\n[[\"wrb.fr\",\"X\",null]]", "X"), BoqError::MissingInnerJson));
    assert!(matches!(decode_err(")]}'\n[[\"wrb.fr\",\"X\"]]", "X"), BoqError::MissingInnerJson));
    assert!(matches!(decode_err(")]}'\n[[\"wrb.fr\",\"X\",\"not json\"]]", "X"), BoqError::InnerPayloadNotJson(_)));
    match decode_err(")]}'\n", "VSX6ub") {
        BoqError::NoFrame(id) => assert_eq!(id, "VSX6ub"),
        other => panic!("unexpected error {:?}", other),
    }
}

#[test]
fn boq_error_messages() {
    assert_eq!(BoqError::MissingPrefix.message(), "response missing `)]}'` prefix");
    assert_eq!(
        BoqError::MalformedChunk(String::from("EOF while parsing a list at line 1 column 5")).message(),
        "decoding chunk JSON: EOF while parsing a list at line 1 column 5"
    );
    assert_eq!(BoqError::FrameNotArray.message(), "frame is not an array");
    assert_eq!(BoqError::MissingInnerJson.message(), "`wrb.fr` frame missing inner JSON string");
    assert_eq!(
        BoqError::NoFrame(String::from("VSX6ub")).message(),
        "no `wrb.fr` frame found for rpc id `VSX6ub`"
    );
    assert_eq!(
        BoqError::InnerPayloadNotJson(String::from("expected value at line 1 column 1")).message(),
        "inner payload is not valid JSON: expected value at line 1 column 1"
    );
}

fn frame(tag: &str, id: &str, inner: Option<&str>) -> JsonValue {
    let mut items = vec![JsonValue::String(String::from(tag)), JsonValue::String(String::from(id))];
    if let Some(t) = inner {
        items.push(JsonValue::String(String::from(t)));
    }
    JsonValue::Array(items)
}

#[test]
fn find_rpc_payload_takes_the_first_matching_frame() {
    let frames = JsonValue::Array(vec![
        JsonValue::Null,
        frame("di", "VSX6ub", Some("[0]")),
        frame("wrb.fr", "EgIxfe", Some("[1]")),
        frame("wrb.fr", "VSX6ub", Some("[2, \"two\"]")),
        frame("wrb.fr", "VSX6ub", Some("[3]")),
    ]);
    match find_rpc_payload(&frames, "VSX6ub") {
        Ok(Some(JsonValue::Array(items))) => {
            assert_eq!(items.len(), 2);
            assert_eq!(items[0].as_u64(), Some(2));
            assert_eq!(items[1].as_str().unwrap(), "two");
        }
        other => panic!("unexpected {:?}", other),
    }
    assert!(matches!(find_rpc_payload(&frames, "zzz"), Ok(None)));
    assert!(matches!(find_rpc_payload(&JsonValue::Bool(true), "VSX6ub"), Err(BoqError::FrameNotArray)));
    let broken = JsonValue::Array(vec![frame("wrb.fr", "VSX6ub", None), frame("wrb.fr", "VSX6ub", Some("[4]"))]);
    assert!(matches!(find_rpc_payload(&broken, "VSX6ub"), Err(BoqError::MissingInnerJson)));
}

#[test]
fn find_rpc_payload_refuses_an_inner_payload_that_is_not_json() {
    let frames = JsonValue::Array(vec![frame("wrb.fr", "VSX6ub", Some("not json"))]);
    match find_rpc_payload(&frames, "VSX6ub") {
        Err(e) => {
            let m = e.message();
            assert!(m.starts_with("inner payload is not valid JSON: "), "{}", m);
            assert!(m.contains("line 1 column"), "{}", m);
        }
        other => panic!("unexpected {:?}", other),
    }
}

#[test]
fn malformed_chunks_carry_the_parser_message() {
    let m = decode_err(")]}'\n5\n[[1,2", "X").message();
    assert!(m.starts_with("decoding chunk JSON: EOF while parsing"), "{}", m);
}
