//! The wiki of a repository: reading it out of the RPC payload, and rendering it.
use vstd::prelude::*;
use crate::json::JsonValue;
use crate::text::{append_decimal, append_str, decimal, string_from_chars};

pub use crate::filename::sanitize_filename;
pub use crate::links::{resolve_links, rewrite_target};
pub use crate::render::{render_markdown, render_structure};
pub use crate::split::split_by_depth;

verus! {

/// A repository wiki.
#[derive(Debug)]
pub struct Wiki {
    pub repo_slug: String,
    pub commit_sha: String,
    pub sections: Vec<Section>,
}

/// One section of a wiki.
#[derive(Debug)]
pub struct Section {
    pub title: String,
    pub level: u8,
    pub markdown: String,
    pub diagrams: Vec<String>,
}

/// One file of a wiki split over several files.
#[derive(Debug)]
pub struct SplitFile {
    /// Relative path, components joined by `/`.
    pub path: String,
    pub content: String,
}

/// Why a section could not be read.
#[derive(Debug, PartialEq, Eq, Structural)]
pub enum SectionError {
    NotArray,
    MissingTitle,
    MissingLevel,
}

/// Why a wiki could not be read out of a payload.
#[derive(Debug, PartialEq, Eq, Structural)]
pub enum WikiError {
    MissingWiki,
    MissingHeader,
    MissingSlug,
    MissingSections,
    /// The section at this index could not be read.
    Section(usize, SectionError),
}

/// The message of a section error.
pub open spec fn section_error_text(e: SectionError) -> Seq<char> {
    match e {
        SectionError::NotArray => "section is not an array"@,
        SectionError::MissingTitle => "missing title"@,
        SectionError::MissingLevel => "missing level"@,
    }
}

/// The message of a wiki error; a section's error is prefixed with its index.
pub open spec fn wiki_error_text(e: WikiError) -> Seq<char> {
    match e {
        WikiError::MissingWiki => "missing wiki container"@,
        WikiError::MissingHeader => "missing wiki header array"@,
        WikiError::MissingSlug => "missing repo slug"@,
        WikiError::MissingSections => "missing sections array"@,
        WikiError::Section(i, s) => "section #"@ + decimal(i as nat) + ": "@ + section_error_text(s),
    }
}

impl WikiError {
    /// The error message.
    pub fn message(&self) -> (r: String)
        ensures
            r@ == wiki_error_text(*self),
    {
        let mut out: Vec<char> = Vec::new();
        match self {
            WikiError::MissingWiki => append_str(&mut out, "missing wiki container"),
            WikiError::MissingHeader => append_str(&mut out, "missing wiki header array"),
            WikiError::MissingSlug => append_str(&mut out, "missing repo slug"),
            WikiError::MissingSections => append_str(&mut out, "missing sections array"),
            WikiError::Section(i, s) => {
                append_str(&mut out, "section #");
                append_decimal(&mut out, *i as u64);
                append_str(&mut out, ": ");
                match s {
                    SectionError::NotArray => append_str(&mut out, "section is not an array"),
                    SectionError::MissingTitle => append_str(&mut out, "missing title"),
                    SectionError::MissingLevel => append_str(&mut out, "missing level"),
                }
            },
        }
        string_from_chars(out.as_slice())
    }
}

/// A section as a mathematical value.
pub struct SectionModel {
    pub title: Seq<char>,
    pub level: u8,
    pub markdown: Seq<char>,
    pub diagrams: Seq<Seq<char>>,
}

/// A wiki as a mathematical value.
pub struct WikiModel {
    pub repo_slug: Seq<char>,
    pub commit_sha: Seq<char>,
    pub sections: Seq<SectionModel>,
}

impl Section {
    pub open spec fn model(self) -> SectionModel {
        SectionModel {
            title: self.title@,
            level: self.level,
            markdown: self.markdown@,
            diagrams: self.diagrams@.map_values(|d: String| d@),
        }
    }
}

impl Wiki {
    pub open spec fn model(self) -> WikiModel {
        WikiModel {
            repo_slug: self.repo_slug@,
            commit_sha: self.commit_sha@,
            sections: self.sections@.map_values(|s: Section| s.model()),
        }
    }
}

/// The diagram text of one diagram entry: element 4, when it is a non-empty string.
pub open spec fn diagram_of(d: JsonValue) -> Option<Seq<char>> {
    match d.spec_array() {
        Some(_) => match d.spec_str_at(4) {
            Some(t) => if t.len() > 0 { Some(t) } else { None },
            None => None,
        },
        None => None,
    }
}

/// The diagrams among the first `n` entries of a group.
pub open spec fn diagrams_in_group(group: Seq<JsonValue>, n: int) -> Seq<Seq<char>>
    decreases n,
{
    if n <= 0 || n > group.len() {
        seq![]
    } else {
        let before = diagrams_in_group(group, n - 1);
        match diagram_of(group[n - 1]) {
            Some(t) => before.push(t),
            None => before,
        }
    }
}

/// The diagrams of a group entry (nothing when it is not an array).
pub open spec fn diagrams_of_group(g: JsonValue) -> Seq<Seq<char>> {
    match g.spec_array() {
        Some(items) => diagrams_in_group(items, items.len() as int),
        None => seq![],
    }
}

/// The diagrams among the first `n` groups, in order.
pub open spec fn diagrams_in_groups(outer: Seq<JsonValue>, n: int) -> Seq<Seq<char>>
    decreases n,
{
    if n <= 0 || n > outer.len() {
        seq![]
    } else {
        diagrams_in_groups(outer, n - 1) + diagrams_of_group(outer[n - 1])
    }
}

/// The markdown of a section entry: element 5, else element 4, else empty.
pub open spec fn section_markdown(v: JsonValue) -> Seq<char> {
    match v.spec_str_at(5) {
        Some(m) => m,
        None => match v.spec_str_at(4) {
            Some(m) => m,
            None => seq![],
        },
    }
}

/// The diagrams of a section entry: those listed under element 7.
pub open spec fn section_diagrams(v: JsonValue) -> Seq<Seq<char>> {
    match v.spec_at(7) {
        Some(d) => match d.spec_array() {
            Some(outer) => diagrams_in_groups(outer, outer.len() as int),
            None => seq![],
        },
        None => seq![],
    }
}

/// What reading one section entry gives.
pub open spec fn section_outcome(v: JsonValue) -> Result<SectionModel, SectionError> {
    if v.spec_array() is None {
        Err(SectionError::NotArray)
    } else {
        match v.spec_str_at(0) {
            None => Err(SectionError::MissingTitle),
            Some(title) => match v.spec_at(1) {
                None => Err(SectionError::MissingLevel),
                Some(l) => match l.spec_u64() {
                    None => Err(SectionError::MissingLevel),
                    Some(n) => Ok(SectionModel {
                        title,
                        level: n as u8,
                        markdown: section_markdown(v),
                        diagrams: section_diagrams(v),
                    }),
                },
            },
        }
    }
}

/// What reading the first `n` section entries gives: the first failure, by index, or all of them.
pub open spec fn sections_outcome(raw: Seq<JsonValue>, n: int) -> Result<Seq<SectionModel>, WikiError>
    decreases n,
{
    if n <= 0 || n > raw.len() {
        Ok(seq![])
    } else {
        match sections_outcome(raw, n - 1) {
            Err(e) => Err(e),
            Ok(ms) => match section_outcome(raw[n - 1]) {
                Ok(m) => Ok(ms.push(m)),
                Err(e) => Err(WikiError::Section((n - 1) as usize, e)),
            },
        }
    }
}

/// What reading a wiki payload gives.
///
/// The payload is `[wiki, ...]` with `wiki = [[slug, sha], [section, ...], ...]`
/// and `section = [title, level, _, _, markdown?, markdown?, _, [[diagram...]...]]`.
pub open spec fn parse_outcome(payload: JsonValue) -> Result<WikiModel, WikiError> {
    match payload.spec_at(0) {
        None => Err(WikiError::MissingWiki),
        Some(wiki) => match wiki.spec_at(0) {
            None => Err(WikiError::MissingHeader),
            Some(header) => if header.spec_array() is None {
                Err(WikiError::MissingHeader)
            } else {
                match header.spec_str_at(0) {
                    None => Err(WikiError::MissingSlug),
                    Some(slug) => {
                        let sha = match header.spec_str_at(1) {
                            Some(s) => s,
                            None => seq![],
                        };
                        match wiki.spec_at(1) {
                            None => Err(WikiError::MissingSections),
                            Some(secs) => match secs.spec_array() {
                                None => Err(WikiError::MissingSections),
                                Some(raw) => match sections_outcome(raw, raw.len() as int) {
                                    Err(e) => Err(e),
                                    Ok(ms) => Ok(WikiModel { repo_slug: slug, commit_sha: sha, sections: ms }),
                                },
                            },
                        }
                    },
                }
            },
        },
    }
}

proof fn lemma_sections_outcome_err_sticks(raw: Seq<JsonValue>, n: int, m: int)
    requires
        0 <= n <= m <= raw.len(),
        sections_outcome(raw, n) is Err,
    ensures
        sections_outcome(raw, m) == sections_outcome(raw, n),
    decreases m - n,
{
    if m > n {
        lemma_sections_outcome_err_sticks(raw, n, m - 1);
    }
}

/// The text of a string value, copied, or empty when it is absent or not a string.
fn str_or_empty(v: Option<&JsonValue>) -> (r: String)
    ensures
        r@ == (match v { Some(e) => match e.spec_str() { Some(s) => s, None => seq![] }, None => seq![] }),
{
    match v {
        Some(e) => match e.as_str() {
            Some(s) => s.clone(),
            None => String::new(),
        },
        None => String::new(),
    }
}

/// The diagram text of one diagram entry.
fn diagram_text(d: &JsonValue) -> (r: Option<String>)
    ensures
        match r {
            Some(t) => diagram_of(*d) == Some(t@),
            None => diagram_of(*d) is None,
        },
{
    if d.as_array().is_none() {
        return None;
    }
    match d.get(4) {
        Some(e) => match e.as_str() {
            Some(dot) => if dot.as_str().is_empty() { None } else { Some(dot.clone()) },
            None => None,
        },
        None => None,
    }
}

/// The diagrams listed in the groups of a section's element 7.
fn extract_diagrams(outer: &Vec<JsonValue>) -> (r: Vec<String>)
    ensures
        r@.map_values(|d: String| d@) == diagrams_in_groups(outer@, outer@.len() as int),
{
    let mut out: Vec<String> = Vec::new();
    let mut i: usize = 0;
    while i < outer.len()
        invariant
            i <= outer.len(),
            out@.map_values(|d: String| d@) == diagrams_in_groups(outer@, i as int),
        decreases outer.len() - i,
    {
        let ghost before = out@.map_values(|d: String| d@);
        match outer[i].as_array() {
            Some(group) => {
                let mut j: usize = 0;
                while j < group.len()
                    invariant
                        j <= group.len(),
                        out@.map_values(|d: String| d@) == before + diagrams_in_group(group@, j as int),
                    decreases group.len() - j,
                {
                    let d = &group[j];
                    let ghost dj = diagram_of(group@[j as int]);
                    assert(diagrams_in_group(group@, j + 1) == match dj {
                        Some(t) => diagrams_in_group(group@, j as int).push(t),
                        None => diagrams_in_group(group@, j as int),
                    });
                    let ghost prev = out@;
                    match diagram_text(d) {
                        Some(t) => {
                            let ghost tv = t@;
                            out.push(t);
                            assert(out@.map_values(|d: String| d@) =~= prev.map_values(|d: String| d@).push(tv));
                        },
                        None => {},
                    }
                    j = j + 1;
                    assert(out@.map_values(|d: String| d@) =~= before + diagrams_in_group(group@, j as int));
                }
                assert(diagrams_of_group(outer@[i as int]) == diagrams_in_group(group@, group@.len() as int));
            },
            None => {},
        }
        i = i + 1;
        assert(out@.map_values(|d: String| d@) =~= diagrams_in_groups(outer@, i as int));
    }
    out
}

/// Reads one section entry.
fn parse_section(value: &JsonValue) -> (r: Result<Section, SectionError>)
    ensures
        match (r, section_outcome(*value)) {
            (Ok(s), Ok(m)) => s.model() == m,
            (Err(e), Err(f)) => e == f,
            _ => false,
        },
{
    if value.as_array().is_none() {
        return Err(SectionError::NotArray);
    }
    let title = match value.get(0) {
        Some(t) => match t.as_str() {
            Some(s) => s.clone(),
            None => return Err(SectionError::MissingTitle),
        },
        None => return Err(SectionError::MissingTitle),
    };
    let level = match value.get(1) {
        Some(l) => match l.as_u64() {
            Some(n) => n as u8,
            None => return Err(SectionError::MissingLevel),
        },
        None => return Err(SectionError::MissingLevel),
    };
    let markdown = match value.get(5) {
        Some(m) if m.as_str().is_some() => str_or_empty(Some(m)),
        _ => str_or_empty(value.get(4)),
    };
    let diagrams = match value.get(7) {
        Some(d) => match d.as_array() {
            Some(outer) => extract_diagrams(outer),
            None => Vec::new(),
        },
        None => Vec::new(),
    };
    let s = Section { title, level, markdown, diagrams };
    assert(s.model().diagrams =~= section_diagrams(*value));
    Ok(s)
}

/// Reads a wiki out of the payload of a `VSX6ub` call.
pub fn parse(payload: &JsonValue) -> (r: Result<Wiki, WikiError>)
    ensures
        match (r, parse_outcome(*payload)) {
            (Ok(w), Ok(m)) => w.model() == m,
            (Err(e), Err(f)) => e == f,
            _ => false,
        },
{
    let wiki = match payload.get(0) {
        Some(w) => w,
        None => return Err(WikiError::MissingWiki),
    };
    let header = match wiki.get(0) {
        Some(h) => h,
        None => return Err(WikiError::MissingHeader),
    };
    if header.as_array().is_none() {
        return Err(WikiError::MissingHeader);
    }
    let repo_slug = match header.get(0) {
        Some(s) => match s.as_str() {
            Some(t) => t.clone(),
            None => return Err(WikiError::MissingSlug),
        },
        None => return Err(WikiError::MissingSlug),
    };
    let commit_sha = str_or_empty(header.get(1));
    let raw = match wiki.get(1) {
        Some(s) => match s.as_array() {
            Some(a) => a,
            None => return Err(WikiError::MissingSections),
        },
        None => return Err(WikiError::MissingSections),
    };
    let mut sections: Vec<Section> = Vec::new();
    assert(sections@.map_values(|s: Section| s.model()) =~= Seq::<SectionModel>::empty());
    let mut i: usize = 0;
    while i < raw.len()
        invariant
            i <= raw.len(),
            sections_outcome(raw@, i as int) == Ok::<Seq<SectionModel>, WikiError>(
                sections@.map_values(|s: Section| s.model()),
            ),
            parse_outcome(*payload) == match sections_outcome(raw@, raw@.len() as int) {
                Err(e) => Err(e),
                Ok(ms) => Ok(WikiModel { repo_slug: repo_slug@, commit_sha: commit_sha@, sections: ms }),
            },
        decreases raw.len() - i,
    {
        match parse_section(&raw[i]) {
            Ok(s) => {
                sections.push(s);
            },
            Err(e) => {
                proof {
                    assert(section_outcome(raw@[i as int]) == Err::<SectionModel, SectionError>(e));
                    assert(sections_outcome(raw@, i + 1) == Err::<Seq<SectionModel>, WikiError>(WikiError::Section(i, e)));
                    lemma_sections_outcome_err_sticks(raw@, i + 1, raw@.len() as int);
                }
                return Err(WikiError::Section(i, e));
            },
        }
        i = i + 1;
        assert(sections@.map_values(|s: Section| s.model()) =~= sections_outcome(raw@, i as int)->Ok_0);
    }
    let w = Wiki { repo_slug, commit_sha, sections };
    assert(w.model().sections =~= sections_outcome(raw@, raw@.len() as int)->Ok_0);
    Ok(w)
}

}
