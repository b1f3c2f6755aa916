use codewiki::cli::{Cli, Command};
use codewiki::wiki::{resolve_links, rewrite_target, sanitize_filename, split_by_depth, Section, Wiki};

fn section(title: &str, level: u8) -> Section {
    Section { title: String::from(title), level, markdown: String::from("text"), diagrams: Vec::new() }
}

fn wiki_of(sections: Vec<Section>) -> Wiki {
    Wiki { repo_slug: String::from("o/r"), commit_sha: String::from("abc"), sections }
}

#[test]
fn percent_decoding_inverts_percent_encoding() {
    for path in ["/o/r/src/lib.rs", "/o/r/docs/üñí cødé & more?.md", "/o/r/%41", "/"] {
        let encoded = urlencoding::encode(path).into_owned();
        assert!(encoded.starts_with("%2F"));
        assert_eq!(rewrite_target(&encoded), format!("https://github.com{}", path));
    }
}

#[test]
fn external_links_are_left_untouched() {
    let text = "Links: [a](https://x.org/%2Fy), [b](#frag), [c](./rel) and ](mailto:z) plus ] ( alone.";
    assert_eq!(resolve_links(text), text);
}

#[test]
fn sanitized_names_are_safe_and_stable() {
    let titles = ["", "...", "a/b\\c:d*e?f\"g<h>i|j", " _-.x.-_ ", "Ünïcödé 名前 ☃", "__a__b__", "..", "C++ & C#"];
    for t in titles {
        let s = sanitize_filename(t);
        assert!(!s.is_empty());
        assert!(!s.contains(['/', '\\', ':', '*', '?', '"', '<', '>', '|', ' ']));
        assert!(!s.contains("__"));
        assert!(!s.starts_with(['_', '-', '.']) && !s.ends_with(['_', '-', '.']));
        assert_eq!(sanitize_filename(&s), s);
    }
    assert_eq!(sanitize_filename("..."), "section");
    assert_eq!(sanitize_filename("Ünïcödé 名前 ☃"), "Ünïcödé_名前");
    assert_eq!(sanitize_filename("C++ & C#"), "C_C");
}

#[test]
fn split_paths_nest_no_deeper_than_the_depth() {
    let wiki = wiki_of(vec![
        section("Root", 1),
        section("A / B", 2),
        section("C", 3),
        section("D", 4),
        section("E", 6),
        section("F", 2),
    ]);
    for depth in 0..8usize {
        let d = depth.max(1);
        let bound = if d >= 2 { d - 2 } else { 0 };
        for f in split_by_depth(&wiki, depth) {
            assert!(f.path.matches('/').count() <= bound, "depth {}: {}", depth, f.path);
        }
    }
}

#[test]
fn depth_one_puts_everything_in_the_root_file() {
    let wiki = wiki_of(vec![section("My Root: Intro", 1), section("A", 2), section("B", 5), section("C", 2)]);
    let files = split_by_depth(&wiki, 1);
    assert_eq!(files.len(), 1);
    assert_eq!(files[0].path, "My_Root_Intro.md");
    assert_eq!(files[0].content, "# My Root: Intro\n\ntext\n\n## A\n\ntext\n\n##### B\n\ntext\n\n## C\n\ntext\n\n");
}

#[test]
fn ask_and_read_command_lines_parse_as_documented() {
    match Cli::try_parse_from(&["cw", "ask", "rust-lang/rust", "What is a borrow?"]).unwrap().command {
        Command::Ask { repo, question } => assert_eq!((repo.as_str(), question.as_str()), ("rust-lang/rust", "What is a borrow?")),
        other => panic!("unexpected {:?}", other),
    }
    match Cli::try_parse_from(&["cw", "read", "rust-lang/rust"]).unwrap().command {
        Command::Read { repo, out_dir, depth } => assert_eq!((repo.as_str(), out_dir, depth), ("rust-lang/rust", None, 2)),
        other => panic!("unexpected {:?}", other),
    }
    match Cli::try_parse_from(&["cw", "read", "rust-lang/rust", "-o"]).unwrap().command {
        Command::Read { repo, out_dir, depth } => {
            assert_eq!((repo.as_str(), out_dir.as_deref(), depth), ("rust-lang/rust", Some("wiki"), 2))
        }
        other => panic!("unexpected {:?}", other),
    }
}

#[test]
fn encoded_repo_paths_become_github_urls() {
    for path in ["/facebook/react/packages/react/src/ReactHooks.js", "/a", "/ü/b c"] {
        let target = urlencoding::encode(path).into_owned();
        assert_eq!(
            resolve_links(&format!("see [x]({})", target)),
            format!("see [x](https://github.com{})", path)
        );
    }
}

#[test]
fn subsections_go_into_their_parents_file() {
    let wiki = wiki_of(vec![
        section("Top", 1),
        section("Guide", 2),
        section("Install", 3),
        section("Deep", 5),
        section("Usage", 3),
        section("API", 2),
        section("Calls", 4),
    ]);
    let files = split_by_depth(&wiki, 2);
    let paths: Vec<&str> = files.iter().map(|f| f.path.as_str()).collect();
    assert_eq!(paths, vec!["API.md", "Guide.md", "README.md"]);
    assert_eq!(files[0].content, "## API\n\ntext\n\n#### Calls\n\ntext\n\n");
    assert_eq!(
        files[1].content,
        "## Guide\n\ntext\n\n### Install\n\ntext\n\n##### Deep\n\ntext\n\n### Usage\n\ntext\n\n"
    );

    let files = split_by_depth(&wiki, 3);
    let paths: Vec<&str> = files.iter().map(|f| f.path.as_str()).collect();
    assert_eq!(
        paths,
        vec!["API/README.md", "API/section.md", "Guide/Install.md", "Guide/README.md", "Guide/Usage.md", "README.md"]
    );
    assert_eq!(files[2].content, "### Install\n\ntext\n\n##### Deep\n\ntext\n\n");
}

fn split_pairs(w: &Wiki, depth: usize) -> Vec<(String, String)> {
    split_by_depth(w, depth).into_iter().map(|f| (f.path, f.content)).collect()
}

#[test]
fn depth_zero_splits_like_depth_one() {
    let wiki = wiki_of(vec![section("Root", 1), section("A", 2), section("B", 3), section("Again", 1)]);
    assert_eq!(split_pairs(&wiki, 0), split_pairs(&wiki, 1));
}

#[test]
fn level_zero_sections_change_no_split() {
    let with_zero = wiki_of(vec![
        section("Hidden", 0),
        section("Root", 1),
        section("Zero", 0),
        section("A", 2),
        section("B", 3),
        section("Also hidden", 0),
    ]);
    let without = wiki_of(vec![section("Root", 1), section("A", 2), section("B", 3)]);
    for depth in 0..5usize {
        assert_eq!(split_pairs(&with_zero, depth), split_pairs(&without, depth));
    }
}

#[test]
fn depth_one_file_is_the_document_without_its_title() {
    let mut wiki = wiki_of(vec![section("Guide: Start", 1), section("A", 2), section("B", 4)]);
    wiki.sections[1].markdown = String::from("see [x](%2Fo%2Fr%2Fa.rs)");
    wiki.sections[2].diagrams.push(String::from(" digraph { a } "));
    let files = split_by_depth(&wiki, 1);
    assert_eq!(files.len(), 1);
    assert_eq!(files[0].path, "Guide_Start.md");
    let doc = codewiki::wiki::render_markdown(&wiki);
    assert_eq!(doc.strip_prefix("# o/r (commit abc)\n\n"), Some(files[0].content.as_str()));
}

#[test]
fn resolving_links_twice_is_resolving_once() {
    for text in [
        "a [x](%2Fo%2Fr%2Fx.rs) b [y](/o/r/y) [z](https://e.org) ](%2Fno-end",
        "[p](%2Fo%2Fr%2Fsrc%2F(inner).rs) and [q](%2f%2fdouble) plus [r](x](%2Fy)",
        "",
    ] {
        let once = resolve_links(text);
        assert_eq!(resolve_links(&once), once);
    }
}
