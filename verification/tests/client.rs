use codewiki::client::{
    answer_from_payload, answer_from_response, ask_args, ask_request, bootstrap_after_fetch, cache_is_fresh, call_url,
    check_status, extract_bootstrap, fallback_bootstrap, find_global_data, github_url, now_secs, plan_bootstrap,
    pseudo_reqid, read_wiki_args, read_wiki_request, referer, reqid_from_secs, response_payload, wiki_from_response,
    Bootstrap, BootstrapPlan, CallError, ClientError, CACHE_TTL_SECS,
};
use codewiki::boq::BoqError;
use codewiki::json::{JsonNumber, JsonValue};
use codewiki::wiki::WikiError;

fn boq_body(rpc_id: &str, payload_json: &str) -> String {
    let frame = format!(
        "[[\"wrb.fr\",\"{}\",{},null,null,null,\"generic\"]]",
        rpc_id,
        serde_json::to_string(payload_json).unwrap()
    );
    format!(")]}}'\n\n{}\n{}\n", frame.len(), frame)
}

fn bootstrap(bl: &str, sid: &str, fetched_at: u64) -> Bootstrap {
    Bootstrap { bl: String::from(bl), sid: String::from(sid), fetched_at }
}

fn client_err<T: std::fmt::Debug>(r: Result<T, ClientError>) -> ClientError {
    match r {
        Ok(v) => panic!("expected an error, got {:?}", v),
        Err(e) => e,
    }
}

#[test]
fn extract_bootstrap_pulls_bl_and_sid() {
    let html = r#"<html><script>window.WIZ_global_data = {"cfb2h":"boq_test_x","FdrFJe":"-12345","other":1};</script></html>"#;
    let bs = extract_bootstrap(html).expect("parse");
    assert_eq!(bs.bl, "boq_test_x");
    assert_eq!(bs.sid, "-12345");
}

#[test]
fn extract_bootstrap_errors_when_missing() {
    let err = client_err(extract_bootstrap("<html>nothing here</html>"));
    assert!(err.message().contains("WIZ_global_data"));
}

#[test]
fn extract_bootstrap_errors_name_their_cause() {
    assert!(matches!(
        client_err(extract_bootstrap("WIZ_global_data = {not json};")),
        ClientError::GlobalDataNotJson(_)
    ));
    assert!(matches!(
        client_err(extract_bootstrap("WIZ_global_data={\"FdrFJe\":\"1\"};")),
        ClientError::MissingBuildLabel
    ));
    assert!(matches!(
        client_err(extract_bootstrap("WIZ_global_data =\n{\"cfb2h\":\"b\",\"FdrFJe\":2};")),
        ClientError::MissingSessionId
    ));
    let before = now_secs();
    let bs = extract_bootstrap("x WIZ_global_data\t=\t{\"cfb2h\":\"b\",\n\"FdrFJe\":\"s\"}; y = {};").expect("parse");
    assert_eq!((bs.bl.as_str(), bs.sid.as_str()), ("b", "s"));
    assert!(bs.fetched_at >= before);
}

#[test]
fn find_global_data_takes_the_shortest_object() {
    assert_eq!(
        find_global_data("a WIZ_global_data = {\"x\":1}; b = {\"y\":2};").unwrap(),
        "{\"x\":1}"
    );
    assert!(matches!(client_err(find_global_data("WIZ_global_data = 1;")), ClientError::GlobalDataMissing));
}

#[test]
fn request_arguments_are_json() {
    assert_eq!(github_url("o/r"), "https://github.com/o/r");
    assert_eq!(read_wiki_args("facebook/react"), "[\"https://github.com/facebook/react\"]");
    assert_eq!(
        ask_args("o/r", "Why \"this\"?\n"),
        "[[[\"Why \\\"this\\\"?\\n\",\"user\"]],[null,\"https://github.com/o/r\"]]"
    );
}

#[test]
fn call_url_and_referer_are_exact() {
    assert_eq!(
        call_url("VSX6ub", "o/r", "boq_x.1", "-12 34", 123456),
        "https://codewiki.google/_/BoqAngularSdlcAgentsUi/data/batchexecute?rpcids=VSX6ub\
         &source-path=%2Fgithub.com%2Fo%2Fr&bl=boq_x.1&f.sid=-12%2034&hl=en-US&_reqid=123456&rt=c"
    );
    assert_eq!(referer("o/r"), "https://codewiki.google/github.com/o/r");
}

#[test]
fn requests_bundle_url_referer_and_body() {
    let bs = bootstrap("bl", "sid", 0);
    let r = read_wiki_request("o/r", &bs, 100000);
    assert_eq!(r.url, call_url("VSX6ub", "o/r", "bl", "sid", 100000));
    assert_eq!(r.referer, "https://codewiki.google/github.com/o/r");
    assert_eq!(
        r.body,
        "f.req=%5B%5B%5B%22VSX6ub%22%2C%22%5B%5C%22https%3A%2F%2Fgithub.com%2Fo%2Fr%5C%22%5D%22%2Cnull%2C%22generic%22%5D%5D%5D&"
    );
    let a = ask_request("o/r", "q", &bs, 999999);
    assert_eq!(a.url, call_url("EgIxfe", "o/r", "bl", "sid", 999999));
    assert_eq!(a.body, codewiki::boq::encode_request("EgIxfe", &ask_args("o/r", "q")));
}

#[test]
fn request_ids_come_from_the_clock() {
    assert_eq!(reqid_from_secs(0), 100000);
    assert_eq!(reqid_from_secs(899_999), 999_999);
    assert_eq!(reqid_from_secs(900_000), 100000);
    assert_eq!(reqid_from_secs(1_778_000_123), 100_000 + (1_778_000_123u64 as u32) % 900_000);
    assert_eq!(reqid_from_secs(u64::MAX), 100_000 + (u32::MAX % 900_000));
    let r = pseudo_reqid();
    assert!((100_000..1_000_000).contains(&r));
    // The clock reads some time after 2024.
    assert!(now_secs() > 1_700_000_000);
}

#[test]
fn status_check_keeps_the_first_200_characters() {
    assert!(check_status(200, "x").is_ok());
    assert!(check_status(299, "x").is_ok());
    let long: String = std::iter::repeat('é').take(250).collect();
    match check_status(503, &long) {
        Err(ClientError::HttpStatus(code, reason, snippet)) => {
            assert_eq!(code, 503);
            assert_eq!(reason.as_deref(), Some("Service Unavailable"));
            assert_eq!(snippet.chars().count(), 200);
        }
        other => panic!("unexpected {:?}", other),
    }
    let e = client_err(check_status(404, "not found"));
    assert_eq!(e.message(), "batchexecute returned HTTP 404 Not Found: not found");
    assert_eq!(
        client_err(check_status(599, "x")).message(),
        "batchexecute returned HTTP 599 <unknown status code>: x"
    );
    assert!(check_status(199, "").is_err());
    assert!(check_status(300, "").is_err());
}

#[test]
fn client_error_messages() {
    assert_eq!(ClientError::NoAnswer.message(), "EgIxfe response did not contain an answer string");
    assert_eq!(ClientError::GlobalDataMissing.message(), "WIZ_global_data not found in page HTML");
    assert_eq!(
        ClientError::GlobalDataNotJson(String::from("key must be a string at line 1 column 2")).message(),
        "WIZ_global_data is not valid JSON: key must be a string at line 1 column 2"
    );
    assert_eq!(ClientError::MissingBuildLabel.message(), "missing cfb2h (build label) in WIZ_global_data");
    assert_eq!(ClientError::MissingSessionId.message(), "missing FdrFJe (session id) in WIZ_global_data");
    assert_eq!(
        ClientError::HttpStatus(500, Some(String::from("Internal Server Error")), String::from("oops")).message(),
        "batchexecute returned HTTP 500 Internal Server Error: oops"
    );
}

#[test]
fn answers_are_the_first_string_of_the_payload() {
    let p = JsonValue::Array(vec![JsonValue::String(String::from("hi")), JsonValue::Null]);
    assert_eq!(answer_from_payload(&p).unwrap(), "hi");
    let q = JsonValue::Array(vec![JsonValue::Number(JsonNumber::PosInt(1))]);
    assert!(matches!(client_err(answer_from_payload(&q)), ClientError::NoAnswer));
    assert!(matches!(client_err(answer_from_payload(&JsonValue::Array(Vec::new()))), ClientError::NoAnswer));
}

#[test]
fn responses_give_answers_and_wikis() {
    let body = boq_body("EgIxfe", "[\"The answer\"]");
    assert_eq!(answer_from_response(200, &body).unwrap(), "The answer");
    match answer_from_response(500, &body) {
        Err(CallError::Client(ClientError::HttpStatus(500, reason, _))) => {
            assert_eq!(reason.as_deref(), Some("Internal Server Error"))
        }
        other => panic!("unexpected {:?}", other),
    }
    match answer_from_response(200, &boq_body("EgIxfe", "[null]")) {
        Err(CallError::Client(ClientError::NoAnswer)) => {}
        other => panic!("unexpected {:?}", other),
    }
    match answer_from_response(200, &boq_body("VSX6ub", "[\"x\"]")) {
        Err(CallError::Boq(BoqError::NoFrame(id))) => assert_eq!(id, "EgIxfe"),
        other => panic!("unexpected {:?}", other),
    }

    let wiki = wiki_from_response(200, &boq_body("VSX6ub", "[[[\"o/r\",\"sha\"],[[\"T\",1,null,null,\"md\"]]]]"))
        .expect("wiki");
    assert_eq!(wiki.repo_slug, "o/r");
    assert_eq!(wiki.sections[0].markdown, "md");
    match wiki_from_response(200, &boq_body("VSX6ub", "[[]]")) {
        Err(CallError::Wiki(WikiError::MissingHeader)) => {}
        other => panic!("unexpected {:?}", other),
    }
    match wiki_from_response(200, "<html>") {
        Err(e) => assert_eq!(e.message(), "response missing `)]}'` prefix"),
        other => panic!("unexpected {:?}", other),
    }
    match response_payload("VSX6ub", 200, &boq_body("VSX6ub", "{\"k\":[true]}")) {
        Ok(JsonValue::Object(members)) => assert_eq!(members.len(), 1),
        other => panic!("unexpected {:?}", other),
    }
}

#[test]
fn cached_bootstraps_stay_fresh_for_six_hours() {
    assert_eq!(CACHE_TTL_SECS, 21600);
    assert!(cache_is_fresh(1000, 1000));
    assert!(cache_is_fresh(1000, 1000 + 21599));
    assert!(!cache_is_fresh(1000, 1000 + 21600));
    assert!(cache_is_fresh(5000, 10));
    match plan_bootstrap(Some(bootstrap("b", "s", 100)), 200) {
        BootstrapPlan::UseCached(b) => assert_eq!((b.bl.as_str(), b.sid.as_str(), b.fetched_at), ("b", "s", 100)),
        other => panic!("unexpected {:?}", other),
    }
    assert!(matches!(plan_bootstrap(Some(bootstrap("b", "s", 100)), 100 + 21600), BootstrapPlan::Fetch));
    assert!(matches!(plan_bootstrap(None, 0), BootstrapPlan::Fetch));
}

#[test]
fn failed_fetches_fall_back_to_compiled_in_values() {
    let fb = fallback_bootstrap(42);
    assert_eq!(fb.bl, "boq_sdlc-agents-ui_20260504.02_p0");
    assert_eq!(fb.sid, "-8491411211174446345");
    assert_eq!(fb.fetched_at, 42);
    let (b, write) = bootstrap_after_fetch(None, 7);
    assert!(!write);
    assert_eq!((b.bl.as_str(), b.fetched_at), ("boq_sdlc-agents-ui_20260504.02_p0", 7));
    let (b, write) = bootstrap_after_fetch(Some(bootstrap("x", "y", 3)), 7);
    assert!(write);
    assert_eq!((b.bl.as_str(), b.sid.as_str(), b.fetched_at), ("x", "y", 3));
}

#[test]
fn certificate_checking_is_off_unless_asked_for() {
    assert!(!codewiki::client::tls_verify_requested(None));
    for on in ["1", "true", "yes"] {
        assert!(codewiki::client::tls_verify_requested(Some(on)));
    }
    for off in ["", "0", "false", "no", "TRUE", " 1", "yes please"] {
        assert!(!codewiki::client::tls_verify_requested(Some(off)));
    }
}
