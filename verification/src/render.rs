//! Rendering a wiki as text: the outline, the whole document, and file names.
use vstd::prelude::*;
use crate::links::{resolve_links, resolved};
use crate::text::{append_chars, append_str, chars_of, string_from_chars, trim_chars, trimmed};
use crate::wiki::{SectionModel, Wiki, WikiModel};

verus! {

/// `s` repeated `n` times.
pub open spec fn repeat(s: Seq<char>, n: nat) -> Seq<char>
    decreases n,
{
    if n == 0 { seq![] } else { repeat(s, (n - 1) as nat) + s }
}

/// The outline line of a section: two spaces per level below the first, `- `, the title.
pub open spec fn structure_line(s: SectionModel) -> Seq<char> {
    let indent: nat = if s.level >= 1 { (s.level - 1) as nat } else { 0 };
    repeat("  "@, indent) + "- "@ + s.title + "\n"@
}

/// The outline lines of the first `n` sections.
pub open spec fn structure_text(secs: Seq<SectionModel>, n: int) -> Seq<char>
    decreases n,
{
    if n <= 0 || n > secs.len() { seq![] } else { structure_text(secs, n - 1) + structure_line(secs[n - 1]) }
}

/// The number of `#` of a section heading: its level, between 1 and 6.
pub open spec fn heading_depth(level: u8) -> nat {
    if level < 1 { 1 } else if level > 6 { 6 } else { level as nat }
}

/// A diagram as a fenced `dot` block.
pub open spec fn diagram_block(d: Seq<char>) -> Seq<char> {
    "\n```dot\n"@ + trimmed(d) + "\n```\n\n"@
}

/// The fenced blocks of the first `n` diagrams.
pub open spec fn diagram_blocks(ds: Seq<Seq<char>>, n: int) -> Seq<char>
    decreases n,
{
    if n <= 0 || n > ds.len() { seq![] } else { diagram_blocks(ds, n - 1) + diagram_block(ds[n - 1]) }
}

/// A section as markdown: its heading, its body with links resolved (ending
/// with a line break), its diagrams, and a blank line.
pub open spec fn section_block(s: SectionModel) -> Seq<char> {
    let body = resolved(s.markdown);
    let nl: Seq<char> = if body.len() > 0 && body.last() != '\n' { "\n"@ } else { seq![] };
    repeat("#"@, heading_depth(s.level)) + " "@ + s.title + "\n\n"@ + body + nl
        + diagram_blocks(s.diagrams, s.diagrams.len() as int) + "\n"@
}

/// The blocks of the first `n` sections.
pub open spec fn section_blocks(secs: Seq<SectionModel>, n: int) -> Seq<char>
    decreases n,
{
    if n <= 0 || n > secs.len() { seq![] } else { section_blocks(secs, n - 1) + section_block(secs[n - 1]) }
}

/// The whole wiki as one markdown document.
pub open spec fn markdown_text(w: WikiModel) -> Seq<char> {
    "# "@ + w.repo_slug + " (commit "@ + w.commit_sha + ")\n\n"@ + section_blocks(w.sections, w.sections.len() as int)
}

fn append_repeat(out: &mut Vec<char>, s: &str, n: usize)
    ensures
        final(out)@ == old(out)@ + repeat(s@, n as nat),
{
    let cs = chars_of(s);
    let mut i: usize = 0;
    while i < n
        invariant
            i <= n,
            cs@ == s@,
            out@ == old(out)@ + repeat(s@, i as nat),
        decreases n - i,
    {
        append_chars(out, cs.as_slice());
        i = i + 1;
        assert(out@ =~= old(out)@ + repeat(s@, i as nat));
    }
}

/// The section titles as an indented list, one line per section.
pub fn render_structure(wiki: &Wiki) -> (r: String)
    ensures
        r@ == structure_text(wiki.model().sections, wiki.sections@.len() as int),
{
    let ghost secs = wiki.model().sections;
    let mut out: Vec<char> = Vec::new();
    let mut i: usize = 0;
    while i < wiki.sections.len()
        invariant
            i <= wiki.sections.len(),
            secs == wiki.model().sections,
            out@ == structure_text(secs, i as int),
        decreases wiki.sections.len() - i,
    {
        let s = &wiki.sections[i];
        let indent: usize = if s.level >= 1 { (s.level - 1) as usize } else { 0 };
        append_repeat(&mut out, "  ", indent);
        append_str(&mut out, "- ");
        append_str(&mut out, s.title.as_str());
        append_str(&mut out, "\n");
        i = i + 1;
        assert(out@ =~= structure_text(secs, i as int));
    }
    string_from_chars(out.as_slice())
}

/// Appends the markdown block of a section.
pub(crate) fn append_section_block(out: &mut Vec<char>, s: &crate::wiki::Section)
    ensures
        final(out)@ == old(out)@ + section_block(s.model()),
{
    let depth: usize = if s.level < 1 { 1 } else if s.level > 6 { 6 } else { s.level as usize };
    append_repeat(out, "#", depth);
    append_str(out, " ");
    append_str(out, s.title.as_str());
    append_str(out, "\n\n");
    let body = resolve_links(s.markdown.as_str());
    let b = chars_of(body.as_str());
    append_chars(out, b.as_slice());
    if b.len() > 0 && b[b.len() - 1] != '\n' {
        append_str(out, "\n");
    }
    let ghost mid = out@;
    let mut i: usize = 0;
    while i < s.diagrams.len()
        invariant
            i <= s.diagrams.len(),
            out@ == mid + diagram_blocks(s.model().diagrams, i as int),
        decreases s.diagrams.len() - i,
    {
        append_str(out, "\n```dot\n");
        let d = chars_of(s.diagrams[i].as_str());
        let t = trim_chars(d.as_slice());
        append_chars(out, t.as_slice());
        append_str(out, "\n```\n\n");
        i = i + 1;
        assert(out@ =~= mid + diagram_blocks(s.model().diagrams, i as int));
    }
    append_str(out, "\n");
    assert(out@ =~= old(out)@ + section_block(s.model()));
}

/// The whole wiki as one markdown document: a title line naming the repository
/// and commit, then each section's block.
pub fn render_markdown(wiki: &Wiki) -> (r: String)
    ensures
        r@ == markdown_text(wiki.model()),
{
    let ghost secs = wiki.model().sections;
    let mut out: Vec<char> = Vec::new();
    append_str(&mut out, "# ");
    append_str(&mut out, wiki.repo_slug.as_str());
    append_str(&mut out, " (commit ");
    append_str(&mut out, wiki.commit_sha.as_str());
    append_str(&mut out, ")\n\n");
    let ghost head = out@;
    let mut i: usize = 0;
    while i < wiki.sections.len()
        invariant
            i <= wiki.sections.len(),
            secs == wiki.model().sections,
            out@ == head + section_blocks(secs, i as int),
        decreases wiki.sections.len() - i,
    {
        append_section_block(&mut out, &wiki.sections[i]);
        i = i + 1;
        assert(out@ =~= head + section_blocks(secs, i as int));
    }
    string_from_chars(out.as_slice())
}

proof fn lemma_repeat_spaces(n: nat)
    ensures
        repeat("  "@, n) == Seq::new(2 * n, |k: int| ' '),
    decreases n,
{
    reveal_strlit("  ");
    if n > 0 {
        lemma_repeat_spaces((n - 1) as nat);
        assert(repeat("  "@, n) =~= Seq::new(2 * n, |k: int| ' '));
    } else {
        assert(repeat("  "@, n) =~= Seq::new(2 * n, |k: int| ' '));
    }
}

/// The outline shows the hierarchy: rendering one more section adds one line,
/// two spaces of indent for each level below the first (none at level 0),
/// then `- `, the title and a line break. The outline of no sections is empty.
pub proof fn law_outline_indents_by_level(secs: Seq<SectionModel>, n: int)
    requires
        0 <= n < secs.len(),
    ensures
        structure_text(secs, 0) == Seq::<char>::empty(),
        structure_text(secs, n + 1) == structure_text(secs, n)
            + Seq::new((if secs[n].level >= 1 { 2 * (secs[n].level - 1) } else { 0 }) as nat, |k: int| ' ')
            + "- "@ + secs[n].title + "\n"@,
{
    let l = secs[n].level;
    let indent: nat = if l >= 1 { (l - 1) as nat } else { 0 };
    lemma_repeat_spaces(indent);
    assert(structure_text(secs, n + 1) == structure_text(secs, n) + structure_line(secs[n]));
    assert(structure_text(secs, n) + (repeat("  "@, indent) + "- "@ + secs[n].title + "\n"@) =~= structure_text(secs, n)
        + repeat("  "@, indent) + "- "@ + secs[n].title + "\n"@);
}

/// The diagram blocks of the first `n` diagrams do not depend on the rest.
proof fn lemma_diagram_blocks_prefix(a: Seq<Seq<char>>, b: Seq<Seq<char>>, n: int)
    requires
        0 <= n <= a.len(),
        n <= b.len(),
        forall|i: int| 0 <= i < n ==> a[i] == b[i],
    ensures
        diagram_blocks(a, n) == diagram_blocks(b, n),
    decreases n,
{
    if n > 0 {
        lemma_diagram_blocks_prefix(a, b, n - 1);
    }
}

/// Every diagram of a section gets its own fenced block, after the earlier
/// ones: giving a section one more diagram `d` inserts a `dot` block holding
/// `d` without surrounding white space before the blank line that ends the
/// section's markdown.
pub proof fn law_each_diagram_gets_a_block(s: SectionModel, d: Seq<char>)
    ensures
        section_block(SectionModel { diagrams: s.diagrams.push(d), ..s }) == section_block(s).drop_last()
            + "\n```dot\n"@ + trimmed(d) + "\n```\n\n"@ + "\n"@,
{
    reveal_strlit("\n");
    let s2 = SectionModel { diagrams: s.diagrams.push(d), ..s };
    let n = s.diagrams.len() as int;
    lemma_diagram_blocks_prefix(s.diagrams, s2.diagrams, n);
    assert(s2.diagrams[n] == d);
    assert(diagram_blocks(s2.diagrams, n + 1) == diagram_blocks(s.diagrams, n) + diagram_block(d));
    let body = resolved(s.markdown);
    let nl: Seq<char> = if body.len() > 0 && body.last() != '\n' { "\n"@ } else { seq![] };
    let head = repeat("#"@, heading_depth(s.level)) + " "@ + s.title + "\n\n"@ + body + nl;
    assert(section_block(s) == head + diagram_blocks(s.diagrams, n) + "\n"@);
    assert(section_block(s).drop_last() =~= head + diagram_blocks(s.diagrams, n));
    assert(section_block(s2) =~= head + diagram_blocks(s.diagrams, n) + ("\n```dot\n"@ + trimmed(d) + "\n```\n\n"@) + "\n"@);
}

proof fn lemma_section_blocks_prefix(a: Seq<SectionModel>, b: Seq<SectionModel>, n: int)
    requires
        0 <= n <= a.len(),
        n <= b.len(),
        forall|i: int| 0 <= i < n ==> a[i] == b[i],
    ensures
        section_blocks(a, n) == section_blocks(b, n),
    decreases n,
{
    if n > 0 {
        lemma_section_blocks_prefix(a, b, n - 1);
    }
}

/// In the whole document too, a diagram given to the last section is printed
/// as one more fenced `dot` block at the end, before the final blank line.
pub proof fn law_document_shows_every_diagram(w: WikiModel, d: Seq<char>)
    requires
        w.sections.len() > 0,
    ensures
        ({
            let n = w.sections.len() - 1;
            let last = w.sections[n];
            let w2 = WikiModel { sections: w.sections.update(n, SectionModel { diagrams: last.diagrams.push(d), ..last }), ..w };
            markdown_text(w2) == markdown_text(w).drop_last() + "\n```dot\n"@ + trimmed(d) + "\n```\n\n"@ + "\n"@
        }),
{
    reveal_strlit("\n");
    let n = w.sections.len() - 1;
    let last = w.sections[n];
    let s2 = SectionModel { diagrams: last.diagrams.push(d), ..last };
    let secs2 = w.sections.update(n, s2);
    let w2 = WikiModel { sections: secs2, ..w };
    lemma_section_blocks_prefix(w.sections, secs2, n);
    law_each_diagram_gets_a_block(last, d);
    let head = "# "@ + w.repo_slug + " (commit "@ + w.commit_sha + ")\n\n"@;
    let pre = section_blocks(w.sections, n);
    assert(section_blocks(w.sections, n + 1) == pre + section_block(last));
    assert(section_blocks(secs2, n + 1) == pre + section_block(s2));
    let b = section_block(last);
    assert(section_block(last).len() > 0) by {
        let body = resolved(last.markdown);
        let nl: Seq<char> = if body.len() > 0 && body.last() != '\n' { "\n"@ } else { seq![] };
        let h = repeat("#"@, heading_depth(last.level)) + " "@ + last.title + "\n\n"@ + body + nl
            + diagram_blocks(last.diagrams, last.diagrams.len() as int);
        assert(section_block(last) == h + "\n"@);
    }
    assert(markdown_text(w) == head + pre + b);
    assert((head + pre + b).drop_last() =~= head + pre + b.drop_last());
    assert(markdown_text(w2) =~= head + pre + (b.drop_last() + "\n```dot\n"@ + trimmed(d) + "\n```\n\n"@ + "\n"@));
}

proof fn lemma_repeat_hashes(n: nat)
    ensures
        repeat("#"@, n) == Seq::new(n, |k: int| '#'),
    decreases n,
{
    reveal_strlit("#");
    if n > 0 {
        lemma_repeat_hashes((n - 1) as nat);
    }
    assert(repeat("#"@, n) =~= Seq::new(n, |k: int| '#'));
}

/// A section without diagrams is printed as its heading (one `#` per level,
/// at least one and at most six), a space, its title and a blank line, then
/// its markdown with repository links resolved, a line break if that text
/// does not end with one, and a blank line.
pub proof fn law_section_heading_and_body(s: SectionModel)
    requires
        s.diagrams.len() == 0,
    ensures
        ({
            let hashes: nat = if s.level < 1 { 1 } else if s.level > 6 { 6 } else { s.level as nat };
            let body = resolved(s.markdown);
            section_block(s) == Seq::new(hashes, |k: int| '#') + " "@ + s.title + "\n\n"@ + body
                + (if body.len() > 0 && body.last() != '\n' { "\n"@ } else { Seq::<char>::empty() }) + "\n"@
        }),
{
    lemma_repeat_hashes(heading_depth(s.level));
    assert(diagram_blocks(s.diagrams, 0) == Seq::<char>::empty());
    let body = resolved(s.markdown);
    let nl: Seq<char> = if body.len() > 0 && body.last() != '\n' { "\n"@ } else { seq![] };
    let head = repeat("#"@, heading_depth(s.level)) + " "@ + s.title + "\n\n"@ + body + nl;
    assert(head + Seq::<char>::empty() =~= head);
}

/// The document starts with the repository and commit as its title and a
/// blank line; each section adds its block after those before it.
pub proof fn law_document_is_title_then_sections(w: WikiModel, s: SectionModel)
    ensures
        markdown_text(WikiModel { sections: Seq::empty(), ..w }) == "# "@ + w.repo_slug + " (commit "@ + w.commit_sha + ")\n\n"@,
        markdown_text(WikiModel { sections: w.sections.push(s), ..w }) == markdown_text(w) + section_block(s),
{
    let secs2 = w.sections.push(s);
    lemma_section_blocks_prefix(w.sections, secs2, w.sections.len() as int);
    let head = "# "@ + w.repo_slug + " (commit "@ + w.commit_sha + ")\n\n"@;
    assert(head + Seq::<char>::empty() =~= head);
    assert(head + (section_blocks(w.sections, w.sections.len() as int) + section_block(s)) =~= head
        + section_blocks(w.sections, w.sections.len() as int) + section_block(s));
}

}
