//! The header that every command's output starts with.
use vstd::prelude::*;
use crate::text::{append_chars, append_str, chars_of, string_from_chars, trim_chars, trimmed};

verus! {

/// The text printed for a command: a level-2 header naming the repository and
/// the kind of query, a blank line, then the result without surrounding white space.
pub open spec fn claude_text(text: Seq<char>, repo: Seq<char>, query_type: Seq<char>) -> Seq<char> {
    "## CodeWiki: "@ + repo + " ("@ + query_type + ")\n\n"@ + trimmed(text)
}

/// Formats a command's result for printing.
pub fn format_for_claude(text: &str, repo: &str, query_type: &str) -> (r: String)
    ensures
        r@ == claude_text(text@, repo@, query_type@),
{
    let mut out: Vec<char> = Vec::new();
    append_str(&mut out, "## CodeWiki: ");
    append_str(&mut out, repo);
    append_str(&mut out, " (");
    append_str(&mut out, query_type);
    append_str(&mut out, ")\n\n");
    let body = chars_of(text);
    let t = trim_chars(body.as_slice());
    append_chars(&mut out, t.as_slice());
    string_from_chars(out.as_slice())
}

}
