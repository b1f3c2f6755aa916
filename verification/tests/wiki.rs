use codewiki::boq::decode_response;
use codewiki::json::{JsonNumber, JsonValue};
use codewiki::wiki::{
    parse, render_markdown, render_structure, resolve_links, rewrite_target, sanitize_filename, split_by_depth,
    Section, SectionError, Wiki, WikiError,
};

fn boq_body(rpc_id: &str, payload_json: &str) -> String {
    let frame = format!(
        "[[\"wrb.fr\",\"{}\",{},null,null,null,\"generic\"]]",
        rpc_id,
        serde_json::to_string(payload_json).unwrap()
    );
    format!(")]}}'\n\n{}\n{}\n25\n[[\"e\",4,null,null,123]]\n", frame.len(), frame)
}

fn fixture_payload() -> JsonValue {
    let sections = [
        r#"["Example Overview",1,null,null,null,"This is the overview.\n",null,[[[null,null,null,null,"digraph G { a -> b }"]]]]"#,
        r#"["Section A",2,null,null,null,"Body of section A, see [lib](%2Fowner%2Fexample%2Fcrates%2Fcli%2Fsrc%2Flib.rs).",null,[]]"#,
        r#"["Sub A.1",3,null,null,"Sub section body"]"#,
    ];
    let payload = format!(
        r#"[[["owner/example","abc123"],[{}],null,null,[]],[null,"https://github.com/owner/example"],true,3]"#,
        sections.join(",")
    );
    decode_response(&boq_body("VSX6ub", &payload), "VSX6ub").expect("decode")
}

fn from_serde(v: serde_json::Value) -> JsonValue {
    match v {
        serde_json::Value::Null => JsonValue::Null,
        serde_json::Value::Bool(b) => JsonValue::Bool(b),
        serde_json::Value::Number(n) => JsonValue::Number(match (n.as_u64(), n.as_i64()) {
            (Some(u), _) => JsonNumber::PosInt(u),
            (None, Some(i)) => JsonNumber::NegInt(i),
            (None, None) => JsonNumber::NonInteger,
        }),
        serde_json::Value::String(s) => JsonValue::String(s),
        serde_json::Value::Array(a) => JsonValue::Array(a.into_iter().map(from_serde).collect()),
        serde_json::Value::Object(m) => JsonValue::Object(m.into_iter().map(|(k, x)| (k, from_serde(x))).collect()),
    }
}

/// A JSON text as the library's `JsonValue`.
fn jv(text: &str) -> JsonValue {
    from_serde(serde_json::from_str(text).unwrap())
}

fn section(title: &str, level: u8, markdown: &str) -> Section {
    Section { title: String::from(title), level, markdown: String::from(markdown), diagrams: Vec::new() }
}

fn wiki_of(sections: Vec<Section>) -> Wiki {
    Wiki { repo_slug: String::from("o/r"), commit_sha: String::from("c0ffee"), sections }
}

#[test]
fn parse_extracts_repo_and_sections() {
    let wiki = parse(&fixture_payload()).expect("parse");
    assert_eq!(wiki.repo_slug, "owner/example");
    assert_eq!(wiki.commit_sha, "abc123");
    assert_eq!(wiki.sections.len(), 3);
    assert_eq!(wiki.sections[0].title, "Example Overview");
    assert_eq!(wiki.sections[0].level, 1);
    assert_eq!(wiki.sections[1].title, "Section A");
    assert_eq!(wiki.sections[1].level, 2);
}

#[test]
fn parse_extracts_dot_diagrams() {
    let wiki = parse(&fixture_payload()).expect("parse");
    assert_eq!(wiki.sections[0].diagrams.len(), 1);
    assert!(wiki.sections[0].diagrams[0].contains("digraph G"));
    assert_eq!(wiki.sections[1].diagrams.len(), 0);
}

#[test]
fn render_structure_indents_by_level() {
    let wiki = parse(&fixture_payload()).expect("parse");
    let out = render_structure(&wiki);
    assert!(out.contains("- Example Overview"));
    assert!(out.contains("  - Section A"));
    assert!(out.contains("    - Sub A.1"));
}

#[test]
fn render_markdown_includes_headers_and_dot_blocks() {
    let wiki = parse(&fixture_payload()).expect("parse");
    let out = render_markdown(&wiki);
    assert!(out.contains("# owner/example"));
    assert!(out.contains("# Example Overview"));
    assert!(out.contains("## Section A"));
    assert!(out.contains("### Sub A.1"));
    assert!(out.contains("```dot"));
    assert!(out.contains("digraph G"));
}

#[test]
fn render_markdown_resolves_github_links() {
    let wiki = parse(&fixture_payload()).expect("parse");
    let out = render_markdown(&wiki);
    // The `Section A` body has a link to `%2Fowner%2Fexample%2Fcrates%2Fcli%2Fsrc%2Flib.rs`.
    assert!(
        out.contains("https://github.com/owner/example/crates/cli/src/lib.rs"),
        "expected resolved github link, got:\n{out}"
    );
    // Make sure unrelated `]` characters survive (sanity check the byte walker).
    assert!(out.contains("Body of section A"));
}

#[test]
fn rewrite_target_passes_through_external_urls() {
    assert_eq!(rewrite_target("https://example.com/x"), "https://example.com/x");
    assert_eq!(rewrite_target("#anchor"), "#anchor");
}

#[test]
fn rewrite_target_resolves_encoded_repo_path() {
    assert_eq!(rewrite_target("%2Fowner%2Frepo%2Ffile.rs"), "https://github.com/owner/repo/file.rs");
}

#[test]
fn test_sanitize_filename() {
    assert_eq!(sanitize_filename("Introduction to CLI"), "Introduction_to_CLI");
    assert_eq!(sanitize_filename("FAQ & Troubleshooting?"), "FAQ_Troubleshooting");
    assert_eq!(sanitize_filename("../../etc/passwd"), "etc_passwd");
    assert_eq!(sanitize_filename(""), "section");
    assert_eq!(sanitize_filename("Введение в проект"), "Введение_в_проект");
}

#[test]
fn test_split_by_depth_d1() {
    let wiki = parse(&fixture_payload()).expect("parse");
    let files = split_by_depth(&wiki, 1);
    assert_eq!(files.len(), 1);
    assert_eq!(files[0].path, "Example_Overview.md");
}

#[test]
fn test_split_by_depth_d2() {
    let wiki = parse(&fixture_payload()).expect("parse");
    let files = split_by_depth(&wiki, 2);
    assert_eq!(files.len(), 2);
    assert_eq!(files[0].path, "README.md");
    assert_eq!(files[1].path, "Section_A.md");
}

#[test]
fn render_markdown_is_exact() {
    let wiki = parse(&fixture_payload()).expect("parse");
    let expected = "# owner/example (commit abc123)\n\n\
        # Example Overview\n\nThis is the overview.\n\n```dot\ndigraph G { a -> b }\n```\n\n\n\
        ## Section A\n\nBody of section A, see [lib](https://github.com/owner/example/crates/cli/src/lib.rs).\n\n\
        ### Sub A.1\n\nSub section body\n\n";
    assert_eq!(render_markdown(&wiki), expected);
}

#[test]
fn render_markdown_clamps_heading_levels_and_trims_diagrams() {
    let mut deep = section("Deep", 9, "");
    deep.diagrams.push(String::from("  \n digraph D {}\n\t"));
    let wiki = wiki_of(vec![section("Zero", 0, "body\n"), deep]);
    assert_eq!(
        render_markdown(&wiki),
        "# o/r (commit c0ffee)\n\n# Zero\n\nbody\n\n###### Deep\n\n\n```dot\ndigraph D {}\n```\n\n\n"
    );
}

#[test]
fn render_structure_is_exact() {
    let wiki = wiki_of(vec![section("Top", 1, ""), section("Zero", 0, ""), section("Third", 3, "")]);
    assert_eq!(render_structure(&wiki), "- Top\n- Zero\n    - Third\n");
    assert_eq!(render_structure(&wiki_of(Vec::new())), "");
}

#[test]
fn split_by_depth_d3_nests_directories() {
    let wiki = parse(&fixture_payload()).expect("parse");
    let files = split_by_depth(&wiki, 3);
    let paths: Vec<&str> = files.iter().map(|f| f.path.as_str()).collect();
    assert_eq!(paths, vec!["README.md", "Section_A/README.md", "Section_A/Sub_A.1.md"]);
    assert_eq!(
        files[1].content,
        "## Section A\n\nBody of section A, see [lib](https://github.com/owner/example/crates/cli/src/lib.rs).\n\n"
    );
    assert_eq!(files[2].content, "### Sub A.1\n\nSub section body\n\n");
}

#[test]
fn split_by_depth_collects_sections_per_file_in_order() {
    let wiki = parse(&fixture_payload()).expect("parse");
    let files = split_by_depth(&wiki, 2);
    assert_eq!(
        files[0].content,
        "# Example Overview\n\nThis is the overview.\n\n```dot\ndigraph G { a -> b }\n```\n\n\n"
    );
    assert_eq!(
        files[1].content,
        "## Section A\n\nBody of section A, see [lib](https://github.com/owner/example/crates/cli/src/lib.rs).\n\n\
         ### Sub A.1\n\nSub section body\n\n"
    );
}

#[test]
fn split_by_depth_zero_acts_as_one_and_skips_level_zero() {
    let wiki = wiki_of(vec![section("Hidden", 0, "x"), section("A", 2, "a"), section("B", 1, "b")]);
    let files = split_by_depth(&wiki, 0);
    let paths: Vec<&str> = files.iter().map(|f| f.path.as_str()).collect();
    // Before any level-1 section the file is README.md; then it is named after B.
    assert_eq!(paths, vec!["B.md", "README.md"]);
    assert_eq!(files[0].content, "# B\n\nb\n\n");
    assert_eq!(files[1].content, "## A\n\na\n\n");
}

#[test]
fn split_by_depth_uses_section_for_missing_levels_and_sorts_by_path() {
    let wiki = wiki_of(vec![section("Root", 1, ""), section("Leaf", 4, "l"), section("Mid", 2, "m")]);
    let files = split_by_depth(&wiki, 5);
    let paths: Vec<&str> = files.iter().map(|f| f.path.as_str()).collect();
    assert_eq!(paths, vec!["Mid/README.md", "README.md", "section/section/Leaf/README.md"]);
}

#[test]
fn resolve_links_rewrites_only_repo_targets() {
    assert_eq!(
        resolve_links("See [a](%2Fo%2Fr%2Fx.rs), [b](/o/r/y.rs), [c](https://e.com/(z)) and [d](#t)."),
        "See [a](https://github.com/o/r/x.rs), [b](https://github.com/o/r/y.rs), [c](https://e.com/(z)) and [d](#t)."
    );
    assert_eq!(resolve_links("broken ](%2Fopen"), "broken ](%2Fopen");
    assert_eq!(resolve_links(""), "");
}

#[test]
fn rewrite_target_keeps_undecodable_or_relative_targets() {
    assert_eq!(rewrite_target("%2F%FF"), "%2F%FF");
    assert_eq!(rewrite_target("%2f%2Fdouble"), "https://github.com//double");
    assert_eq!(rewrite_target("/plain"), "https://github.com/plain");
}

#[test]
fn parse_reports_each_missing_part() {
    assert_eq!(parse(&jv("[]")).err(), Some(WikiError::MissingWiki));
    assert_eq!(parse(&jv("{}")).err(), Some(WikiError::MissingWiki));
    assert_eq!(parse(&jv("[[]]")).err(), Some(WikiError::MissingHeader));
    assert_eq!(parse(&jv("[[\"x\"]]")).err(), Some(WikiError::MissingHeader));
    assert_eq!(parse(&jv("[[[1]]]")).err(), Some(WikiError::MissingSlug));
    assert_eq!(parse(&jv("[[[\"o/r\"]]]")).err(), Some(WikiError::MissingSections));
    assert_eq!(parse(&jv("[[[\"o/r\"],{}]]")).err(), Some(WikiError::MissingSections));
    assert_eq!(
        parse(&jv("[[[\"o/r\"],[[\"t\",1],7]]]")).err(),
        Some(WikiError::Section(1, SectionError::NotArray))
    );
    assert_eq!(parse(&jv("[[[\"o/r\"],[[5,1]]]]")).err(), Some(WikiError::Section(0, SectionError::MissingTitle)));
    assert_eq!(parse(&jv("[[[\"o/r\"],[[\"t\"]]]]")).err(), Some(WikiError::Section(0, SectionError::MissingLevel)));
    assert_eq!(
        parse(&jv("[[[\"o/r\"],[[\"t\",-1]]]]")).err(),
        Some(WikiError::Section(0, SectionError::MissingLevel))
    );
}

#[test]
fn parse_defaults_and_truncation() {
    let w = parse(&jv(r#"[[["o/r"],[["t",258,null,null,"four",null,null,[5,[[1,2,3,4,""],[0,0,0,0,"g1"]],[[0,0,0,0,"g2"]]]]]]]"#))
        .expect("parse");
    assert_eq!(w.commit_sha, "");
    assert_eq!(w.sections[0].level, 2);
    assert_eq!(w.sections[0].markdown, "four");
    assert_eq!(w.sections[0].diagrams, vec![String::from("g1"), String::from("g2")]);
}

#[test]
fn wiki_error_messages() {
    assert_eq!(WikiError::MissingWiki.message(), "missing wiki container");
    assert_eq!(WikiError::MissingHeader.message(), "missing wiki header array");
    assert_eq!(WikiError::MissingSlug.message(), "missing repo slug");
    assert_eq!(WikiError::MissingSections.message(), "missing sections array");
    assert_eq!(WikiError::Section(12, SectionError::NotArray).message(), "section #12: section is not an array");
    assert_eq!(WikiError::Section(0, SectionError::MissingTitle).message(), "section #0: missing title");
    assert_eq!(WikiError::Section(3, SectionError::MissingLevel).message(), "section #3: missing level");
}
