//! File names made from section titles.
use vstd::prelude::*;
use crate::text::{chars_of, string_from_chars};

verus! {

/// Whether `char::is_alphanumeric` holds of `c` (Unicode `Alphabetic` or `Numeric`).
pub uninterp spec fn unicode_alphanumeric(c: char) -> bool;

/// `char::is_alphanumeric`: whether `c` is Unicode alphabetic or numeric. The
/// Unicode tables are not restated here; the result is named `unicode_alphanumeric`.
#[verifier::external_body]
fn is_alphanumeric(c: char) -> (r: bool)
    ensures
        r == unicode_alphanumeric(c),
{
    c.is_alphanumeric()
}

/// ASCII letters, digits, `_`, `-` and `.`: kept as they are.
pub open spec fn is_plain_name_char(c: char) -> bool {
    ('a' <= c <= 'z') || ('A' <= c <= 'Z') || ('0' <= c <= '9') || c == '_' || c == '-' || c == '.'
}

/// Characters that cannot stand in a file name on some system: replaced by `_`.
pub open spec fn is_reserved_name_char(c: char) -> bool {
    c == '/' || c == '\\' || c == ':' || c == '*' || c == '?' || c == '"' || c == '<' || c == '>' || c == '|'
}

/// What a title character becomes in a file name.
pub open spec fn name_char(c: char) -> Seq<char> {
    if is_plain_name_char(c) {
        seq![c]
    } else if c == ' ' || is_reserved_name_char(c) {
        seq!['_']
    } else if unicode_alphanumeric(c) {
        seq![c]
    } else {
        seq![]
    }
}

/// The first `n` characters of a title, each replaced as `name_char` says.
pub open spec fn name_chars(s: Seq<char>, n: int) -> Seq<char>
    decreases n,
{
    if n <= 0 || n > s.len() { seq![] } else { name_chars(s, n - 1) + name_char(s[n - 1]) }
}

/// The first `n` characters of `s` with each run of `_` shortened to one.
pub open spec fn collapse_underscores(s: Seq<char>, n: int) -> Seq<char>
    decreases n,
{
    if n <= 0 || n > s.len() {
        seq![]
    } else if s[n - 1] == '_' && n >= 2 && s[n - 2] == '_' {
        collapse_underscores(s, n - 1)
    } else {
        collapse_underscores(s, n - 1).push(s[n - 1])
    }
}

/// `_`, `-` and `.`: removed from both ends of a file name.
pub open spec fn is_edge_char(c: char) -> bool {
    c == '_' || c == '-' || c == '.'
}

/// Number of leading edge characters.
pub open spec fn leading_edge(s: Seq<char>) -> nat
    decreases s.len(),
{
    if s.len() > 0 && is_edge_char(s[0]) { 1 + leading_edge(s.drop_first()) } else { 0 }
}

/// Number of trailing edge characters.
pub open spec fn trailing_edge(s: Seq<char>) -> nat
    decreases s.len(),
{
    if s.len() > 0 && is_edge_char(s.last()) { 1 + trailing_edge(s.drop_last()) } else { 0 }
}

/// `s` without edge characters at either end.
pub open spec fn trim_edges(s: Seq<char>) -> Seq<char> {
    let t = s.skip(leading_edge(s) as int);
    t.take(t.len() - trailing_edge(t))
}

/// The file name for a title: its characters replaced, runs of `_` shortened,
/// `_ - .` removed from both ends, and `section` when nothing is left.
pub open spec fn sanitized(title: Seq<char>) -> Seq<char> {
    let t = trim_edges(collapse_underscores(name_chars(title, title.len() as int), name_chars(title, title.len() as int).len() as int));
    if t.len() == 0 { "section"@ } else { t }
}

proof fn lemma_leading_edge(s: Seq<char>, i: int)
    requires
        0 <= i <= s.len(),
        forall|j: int| 0 <= j < i ==> is_edge_char(#[trigger] s[j]),
        i == s.len() || !is_edge_char(s[i]),
    ensures
        leading_edge(s) == i,
    decreases i,
{
    if i > 0 {
        assert forall|j: int| 0 <= j < i - 1 implies is_edge_char(#[trigger] s.drop_first()[j]) by {
            assert(s.drop_first()[j] == s[j + 1]);
        }
        if i - 1 < s.drop_first().len() {
            assert(s.drop_first()[i - 1] == s[i]);
        }
        lemma_leading_edge(s.drop_first(), i - 1);
    }
}

proof fn lemma_trailing_edge(s: Seq<char>, k: int)
    requires
        0 <= k <= s.len(),
        forall|j: int| s.len() - k <= j < s.len() ==> is_edge_char(#[trigger] s[j]),
        k == s.len() || !is_edge_char(s[s.len() - k - 1]),
    ensures
        trailing_edge(s) == k,
    decreases k,
{
    if k > 0 {
        let t = s.drop_last();
        assert forall|j: int| t.len() - (k - 1) <= j < t.len() implies is_edge_char(#[trigger] t[j]) by {
            assert(t[j] == s[j]);
        }
        if k - 1 < t.len() {
            assert(t[t.len() - (k - 1) - 1] == s[s.len() - k - 1]);
        }
        lemma_trailing_edge(t, k - 1);
    }
}

/// A file name made from a section title: ASCII letters, digits, `_ - .` and
/// other Unicode letters and digits are kept; spaces and the characters
/// `/ \ : * ? " < > |` become `_`; anything else is dropped. Runs of `_` are
/// shortened to one, `_ - .` are removed from both ends, and an empty result
/// becomes `section`.
pub fn sanitize_filename(title: &str) -> (r: String)
    ensures
        r@ == sanitized(title@),
{
    let t = chars_of(title);
    let mut mapped: Vec<char> = Vec::new();
    let mut i: usize = 0;
    while i < t.len()
        invariant
            i <= t.len(),
            t@ == title@,
            mapped@ == name_chars(t@, i as int),
        decreases t.len() - i,
    {
        let c = t[i];
        if ('a' <= c && c <= 'z') || ('A' <= c && c <= 'Z') || ('0' <= c && c <= '9') || c == '_' || c == '-'
            || c == '.' {
            mapped.push(c);
        } else if c == ' ' || c == '/' || c == '\\' || c == ':' || c == '*' || c == '?' || c == '"' || c
            == '<' || c == '>' || c == '|' {
            mapped.push('_');
        } else if is_alphanumeric(c) {
            mapped.push(c);
        }
        i = i + 1;
        assert(mapped@ =~= name_chars(t@, i as int));
    }
    let mut tidy: Vec<char> = Vec::new();
    let mut last_was_underscore = false;
    let mut j: usize = 0;
    while j < mapped.len()
        invariant
            j <= mapped.len(),
            tidy@ == collapse_underscores(mapped@, j as int),
            last_was_underscore == (j >= 1 && mapped@[j - 1] == '_'),
        decreases mapped.len() - j,
    {
        let c = mapped[j];
        if c == '_' {
            if !last_was_underscore {
                tidy.push('_');
            }
            last_was_underscore = true;
        } else {
            tidy.push(c);
            last_was_underscore = false;
        }
        j = j + 1;
        assert(tidy@ =~= collapse_underscores(mapped@, j as int));
    }
    let mut lo: usize = 0;
    while lo < tidy.len() && (tidy[lo] == '_' || tidy[lo] == '-' || tidy[lo] == '.')
        invariant
            lo <= tidy.len(),
            forall|k: int| 0 <= k < lo ==> is_edge_char(#[trigger] tidy@[k]),
        decreases tidy.len() - lo,
    {
        lo = lo + 1;
    }
    proof {
        lemma_leading_edge(tidy@, lo as int);
    }
    let mut hi: usize = tidy.len();
    while hi > lo && (tidy[hi - 1] == '_' || tidy[hi - 1] == '-' || tidy[hi - 1] == '.')
        invariant
            lo <= hi <= tidy.len(),
            forall|k: int| hi <= k < tidy.len() ==> is_edge_char(#[trigger] tidy@[k]),
        decreases hi,
    {
        hi = hi - 1;
    }
    let ghost rest = tidy@.skip(lo as int);
    proof {
        assert forall|k: int| rest.len() - (tidy.len() - hi) <= k < rest.len() implies is_edge_char(#[trigger] rest[k]) by {
            assert(rest[k] == tidy@[k + lo]);
        }
        if hi > lo {
            assert(rest[rest.len() - (tidy.len() - hi) - 1] == tidy@[hi - 1]);
        }
        lemma_trailing_edge(rest, (tidy.len() - hi) as int);
    }
    if hi == lo {
        let r = string_from_chars(chars_of("section").as_slice());
        return r;
    }
    let mut out: Vec<char> = Vec::new();
    let mut k: usize = lo;
    while k < hi
        invariant
            lo <= k <= hi,
            hi <= tidy.len(),
            out@ == tidy@.subrange(lo as int, k as int),
        decreases hi - k,
    {
        out.push(tidy[k]);
        k = k + 1;
        assert(out@ =~= tidy@.subrange(lo as int, k as int));
    }
    assert(out@ =~= rest.take(rest.len() - trailing_edge(rest)));
    string_from_chars(out.as_slice())
}


/// A character that survives `name_char` unchanged.
pub open spec fn is_kept_name_char(c: char) -> bool {
    is_plain_name_char(c) || (c != ' ' && !is_reserved_name_char(c) && unicode_alphanumeric(c))
}

/// No two `_` in a row.
pub open spec fn no_double_underscore(s: Seq<char>) -> bool {
    forall|i: int| 0 <= i && i + 1 < s.len() ==> !(#[trigger] s[i] == '_' && s[i + 1] == '_')
}

proof fn lemma_name_chars_kept(s: Seq<char>, n: int)
    requires
        0 <= n <= s.len(),
    ensures
        forall|i: int| 0 <= i < name_chars(s, n).len() ==> is_kept_name_char(#[trigger] name_chars(s, n)[i]),
        (forall|i: int| 0 <= i < n ==> is_kept_name_char(#[trigger] s[i])) ==> name_chars(s, n) == s.take(n),
    decreases n,
{
    if n > 0 {
        lemma_name_chars_kept(s, n - 1);
        let prev = name_chars(s, n - 1);
        let c = s[n - 1];
        assert(name_chars(s, n) == prev + name_char(c));
        assert forall|i: int| 0 <= i < name_chars(s, n).len() implies is_kept_name_char(#[trigger] name_chars(s, n)[i]) by {
            if i >= prev.len() {
                assert(name_chars(s, n)[i] == name_char(c)[i - prev.len()]);
            }
        }
        if forall|i: int| 0 <= i < n ==> is_kept_name_char(#[trigger] s[i]) {
            assert(is_kept_name_char(s[n - 1]));
            assert(name_chars(s, n) =~= s.take(n));
        }
    } else {
        assert(s.take(0) =~= Seq::<char>::empty());
    }
}

proof fn lemma_collapse(s: Seq<char>, n: int)
    requires
        0 <= n <= s.len(),
    ensures
        n >= 1 ==> collapse_underscores(s, n).len() > 0 && collapse_underscores(s, n).last() == s[n - 1],
        no_double_underscore(collapse_underscores(s, n)),
        forall|i: int| 0 <= i < collapse_underscores(s, n).len() ==> exists|j: int| 0 <= j < n && s[j] == #[trigger] collapse_underscores(s, n)[i],
        no_double_underscore(s) ==> collapse_underscores(s, n) == s.take(n),
    decreases n,
{
    if n > 0 {
        lemma_collapse(s, n - 1);
        let prev = collapse_underscores(s, n - 1);
        let r = collapse_underscores(s, n);
        if s[n - 1] == '_' && n >= 2 && s[n - 2] == '_' {
            assert(r == prev);
            assert forall|i: int| 0 <= i < r.len() implies exists|j: int| 0 <= j < n && s[j] == #[trigger] r[i] by {
                let j = choose|j: int| 0 <= j < n - 1 && s[j] == prev[i];
            }
        } else {
            assert(r == prev.push(s[n - 1]));
            assert forall|i: int| 0 <= i && i + 1 < r.len() implies !(#[trigger] r[i] == '_' && r[i + 1] == '_') by {
                if i + 1 == r.len() - 1 {
                    assert(r[i] == prev.last());
                } else {
                    assert(r[i] == prev[i] && r[i + 1] == prev[i + 1]);
                }
            }
            assert forall|i: int| 0 <= i < r.len() implies exists|j: int| 0 <= j < n && s[j] == #[trigger] r[i] by {
                if i < prev.len() {
                    let j = choose|j: int| 0 <= j < n - 1 && s[j] == prev[i];
                    assert(s[j] == r[i]);
                } else {
                    assert(s[n - 1] == r[i]);
                }
            }
        }
        if no_double_underscore(s) {
            assert(r =~= s.take(n));
        }
    } else {
        assert(s.take(0) =~= Seq::<char>::empty());
    }
}

proof fn lemma_trim_edges(s: Seq<char>)
    ensures
        trim_edges(s).len() > 0 ==> !is_edge_char(trim_edges(s)[0]) && !is_edge_char(trim_edges(s).last()),
        forall|i: int| 0 <= i < trim_edges(s).len() ==> exists|j: int| 0 <= j < s.len() && s[j] == #[trigger] trim_edges(s)[i],
        no_double_underscore(s) ==> no_double_underscore(trim_edges(s)),
        (s.len() == 0 || (!is_edge_char(s[0]) && !is_edge_char(s.last()))) ==> trim_edges(s) == s,
{
    lemma_leading_edge_facts(s);
    let t = s.skip(leading_edge(s) as int);
    lemma_trailing_edge_facts(t);
    let r = trim_edges(s);
    let lo = leading_edge(s) as int;
    assert forall|i: int| 0 <= i < r.len() implies exists|j: int| 0 <= j < s.len() && s[j] == #[trigger] r[i] by {
        assert(s[i + lo] == r[i]);
    }
    if no_double_underscore(s) {
        assert forall|i: int| 0 <= i && i + 1 < r.len() implies !(#[trigger] r[i] == '_' && r[i + 1] == '_') by {
            assert(r[i] == s[i + lo] && r[i + 1] == s[i + lo + 1]);
        }
    }
    if s.len() == 0 || (!is_edge_char(s[0]) && !is_edge_char(s.last())) {
        if s.len() > 0 {
            assert(t =~= s);
        }
        assert(r =~= s);
    }
}

proof fn lemma_leading_edge_facts(s: Seq<char>)
    ensures
        leading_edge(s) <= s.len(),
        leading_edge(s) < s.len() ==> !is_edge_char(s[leading_edge(s) as int]),
        forall|j: int| 0 <= j < leading_edge(s) ==> is_edge_char(#[trigger] s[j]),
        s.len() > 0 && !is_edge_char(s[0]) ==> leading_edge(s) == 0,
    decreases s.len(),
{
    if s.len() > 0 && is_edge_char(s[0]) {
        lemma_leading_edge_facts(s.drop_first());
        assert forall|j: int| 0 <= j < leading_edge(s) implies is_edge_char(#[trigger] s[j]) by {
            if j > 0 {
                assert(s[j] == s.drop_first()[j - 1]);
            }
        }
        if leading_edge(s) < s.len() {
            assert(s[leading_edge(s) as int] == s.drop_first()[leading_edge(s.drop_first()) as int]);
        }
    }
}

proof fn lemma_trailing_edge_facts(s: Seq<char>)
    ensures
        trailing_edge(s) <= s.len(),
        trailing_edge(s) < s.len() ==> !is_edge_char(s[s.len() - trailing_edge(s) - 1]),
        s.len() > 0 && !is_edge_char(s.last()) ==> trailing_edge(s) == 0,
    decreases s.len(),
{
    if s.len() > 0 && is_edge_char(s.last()) {
        lemma_trailing_edge_facts(s.drop_last());
        if trailing_edge(s) < s.len() {
            let t = s.drop_last();
            assert(s[s.len() - trailing_edge(s) - 1] == t[t.len() - trailing_edge(t) - 1]);
        }
    }
}

/// Facts about every sanitized name, with the characters it holds.
proof fn lemma_sanitized_shape(title: Seq<char>)
    ensures
        sanitized(title).len() > 0,
        forall|i: int| 0 <= i < sanitized(title).len() ==> is_kept_name_char(#[trigger] sanitized(title)[i]),
        no_double_underscore(sanitized(title)),
        !is_edge_char(sanitized(title)[0]),
        !is_edge_char(sanitized(title).last()),
{
    reveal_strlit("section");
    let m = name_chars(title, title.len() as int);
    lemma_name_chars_kept(title, title.len() as int);
    let c = collapse_underscores(m, m.len() as int);
    lemma_collapse(m, m.len() as int);
    let t = trim_edges(c);
    lemma_trim_edges(c);
    if t.len() > 0 {
        assert forall|i: int| 0 <= i < t.len() implies is_kept_name_char(#[trigger] t[i]) by {
            let j = choose|j: int| 0 <= j < c.len() && c[j] == t[i];
            let k = choose|k: int| 0 <= k < m.len() && m[k] == c[j];
        }
    } else {
        let sec = "section"@;
        assert(is_kept_name_char(sec[0]) && is_kept_name_char(sec[1]) && is_kept_name_char(sec[2]) && is_kept_name_char(sec[3]));
        assert(is_kept_name_char(sec[4]) && is_kept_name_char(sec[5]) && is_kept_name_char(sec[6]));
    }
}

/// A sanitized title is a safe, tidy file name: never empty, no path
/// separator or other reserved character, no space, never starting or
/// ending with `_`, `-` or `.` (so never `.` or `..`), and no `__`.
pub proof fn law_sanitized_is_safe_name(title: Seq<char>)
    ensures
        sanitized(title).len() > 0,
        forall|i: int| 0 <= i < sanitized(title).len() ==> !is_reserved_name_char(#[trigger] sanitized(title)[i]) && sanitized(title)[i] != ' ',
        !is_edge_char(sanitized(title)[0]),
        !is_edge_char(sanitized(title).last()),
        no_double_underscore(sanitized(title)),
{
    lemma_sanitized_shape(title);
    assert forall|i: int| 0 <= i < sanitized(title).len() implies !is_reserved_name_char(#[trigger] sanitized(title)[i]) && sanitized(title)[i] != ' ' by {
        assert(is_kept_name_char(sanitized(title)[i]));
    }
}

/// Sanitizing is idempotent: a sanitized name sanitizes to itself.
pub proof fn law_sanitize_idempotent(title: Seq<char>)
    ensures
        sanitized(sanitized(title)) == sanitized(title),
{
    let u = sanitized(title);
    lemma_sanitized_shape(title);
    lemma_name_chars_kept(u, u.len() as int);
    assert(u.take(u.len() as int) =~= u);
    let m = name_chars(u, u.len() as int);
    assert(m == u);
    lemma_collapse(m, m.len() as int);
    let c = collapse_underscores(m, m.len() as int);
    assert(c == u);
    lemma_trim_edges(c);
}

/// A title already fit to be a file name is kept as it is: one made of ASCII
/// letters and digits, `_`, `-` and `.` only, with no `__`, that begins and
/// ends with a letter or digit, sanitizes to itself (so `Server-Side_Rendering`
/// and `v1.2-beta` stay whole).
pub proof fn law_plain_titles_kept(title: Seq<char>)
    requires
        title.len() > 0,
        forall|i: int| 0 <= i < title.len() ==> ('a' <= #[trigger] title[i] <= 'z') || ('A' <= title[i] <= 'Z')
            || ('0' <= title[i] <= '9') || title[i] == '_' || title[i] == '-' || title[i] == '.',
        title[0] != '_' && title[0] != '-' && title[0] != '.',
        title.last() != '_' && title.last() != '-' && title.last() != '.',
        forall|i: int| 0 <= i && i + 1 < title.len() ==> !(#[trigger] title[i] == '_' && title[i + 1] == '_'),
    ensures
        sanitized(title) == title,
{
    let n = title.len() as int;
    assert forall|i: int| 0 <= i < n implies is_kept_name_char(#[trigger] title[i]) by {}
    lemma_name_chars_kept(title, n);
    assert(title.take(n) =~= title);
    let m = name_chars(title, n);
    assert(m == title);
    lemma_collapse(m, n);
    let c = collapse_underscores(m, n);
    assert(c == title);
    lemma_trim_edges(c);
}

/// A word fit to be a file name as it is: ASCII letters and digits, `_`, `-`
/// and `.` only, no `__`, beginning and ending with a letter or digit.
pub open spec fn is_plain_word(a: Seq<char>) -> bool {
    &&& a.len() > 0
    &&& forall|i: int| 0 <= i < a.len() ==> ('a' <= #[trigger] a[i] <= 'z') || ('A' <= a[i] <= 'Z')
        || ('0' <= a[i] <= '9') || a[i] == '_' || a[i] == '-' || a[i] == '.'
    &&& a[0] != '_' && a[0] != '-' && a[0] != '.'
    &&& a.last() != '_' && a.last() != '-' && a.last() != '.'
    &&& forall|i: int| 0 <= i && i + 1 < a.len() ==> !(#[trigger] a[i] == '_' && a[i + 1] == '_')
}

proof fn lemma_name_chars_extend(s: Seq<char>, k: int, n: int)
    requires
        0 <= k <= n <= s.len(),
        forall|i: int| k <= i < n ==> is_kept_name_char(#[trigger] s[i]),
    ensures
        name_chars(s, n) == name_chars(s, k) + s.subrange(k, n),
    decreases n - k,
{
    if n > k {
        lemma_name_chars_extend(s, k, n - 1);
        assert(name_chars(s, n) == name_chars(s, n - 1) + name_char(s[n - 1]));
        assert(name_char(s[n - 1]) == seq![s[n - 1]]);
        assert(name_chars(s, k) + s.subrange(k, n - 1) + seq![s[n - 1]] =~= name_chars(s, k) + s.subrange(k, n));
    } else {
        assert(name_chars(s, k) + s.subrange(k, n) =~= name_chars(s, k));
    }
}

/// The file name of two plain words joined by one character `c`, before
/// runs of `_` are shortened and the ends trimmed.
proof fn lemma_name_chars_join(a: Seq<char>, c: char, b: Seq<char>)
    requires
        is_plain_word(a),
        is_plain_word(b),
    ensures
        name_chars(a + seq![c] + b, (a + seq![c] + b).len() as int) == a + name_char(c) + b,
{
    let s = a + seq![c] + b;
    let k = a.len() as int;
    assert forall|i: int| 0 <= i < k implies is_kept_name_char(#[trigger] s[i]) by {
        assert(s[i] == a[i]);
    }
    lemma_name_chars_kept(s, k);
    assert(s.take(k) =~= a);
    assert(name_chars(s, k + 1) == a + name_char(c));
    assert forall|i: int| k + 1 <= i < s.len() implies is_kept_name_char(#[trigger] s[i]) by {
        assert(s[i] == b[i - k - 1]);
    }
    lemma_name_chars_extend(s, k + 1, s.len() as int);
    assert(s.subrange(k + 1, s.len() as int) =~= b);
}

/// Sanitizing a text with no `__` whose ends are not `_`, `-` or `.` only
/// shortens nothing and trims nothing.
proof fn lemma_sanitized_of_tidy(title: Seq<char>, m: Seq<char>)
    requires
        name_chars(title, title.len() as int) == m,
        m.len() > 0,
        no_double_underscore(m),
        !is_edge_char(m[0]),
        !is_edge_char(m.last()),
    ensures
        sanitized(title) == m,
{
    lemma_collapse(m, m.len() as int);
    assert(m.take(m.len() as int) =~= m);
    lemma_trim_edges(m);
}

/// Spaces and the characters that cannot stand in a file name separate words
/// with `_`: two plain words joined by a space or by one of `/ \ : * ? " < > |`
/// sanitize to the words joined by `_` (`Getting Started` gives
/// `Getting_Started`, `CLI/API` gives `CLI_API`).
pub proof fn law_separators_become_underscore(a: Seq<char>, c: char, b: Seq<char>)
    requires
        is_plain_word(a),
        is_plain_word(b),
        c == ' ' || c == '/' || c == '\\' || c == ':' || c == '*' || c == '?' || c == '"' || c == '<' || c == '>' || c == '|',
    ensures
        sanitized(a + seq![c] + b) == a + seq!['_'] + b,
{
    lemma_name_chars_join(a, c, b);
    let m = a + seq!['_'] + b;
    assert(name_char(c) == seq!['_']);
    assert(m[0] == a[0]);
    assert(m.last() == b.last());
    assert forall|i: int| 0 <= i && i + 1 < m.len() implies !(#[trigger] m[i] == '_' && m[i + 1] == '_') by {
        if i + 1 < a.len() {
            assert(m[i] == a[i] && m[i + 1] == a[i + 1]);
        } else if i + 1 == a.len() {
            assert(m[i] == a.last());
        } else if i == a.len() {
            assert(m[i + 1] == b[0]);
        } else {
            assert(m[i] == b[i - a.len() - 1] && m[i + 1] == b[i - a.len()]);
        }
    }
    lemma_sanitized_of_tidy(a + seq![c] + b, m);
}

/// Any other character that is not a letter or digit is dropped: two plain
/// words joined by it sanitize to the words run together (`C&D` gives `CD`).
pub proof fn law_other_symbols_dropped(a: Seq<char>, c: char, b: Seq<char>)
    requires
        is_plain_word(a),
        is_plain_word(b),
        !(('a' <= c <= 'z') || ('A' <= c <= 'Z') || ('0' <= c <= '9') || c == '_' || c == '-' || c == '.'),
        !(c == ' ' || c == '/' || c == '\\' || c == ':' || c == '*' || c == '?' || c == '"' || c == '<' || c == '>' || c == '|'),
        !unicode_alphanumeric(c),
    ensures
        sanitized(a + seq![c] + b) == a + b,
{
    lemma_name_chars_join(a, c, b);
    let m = a + b;
    assert(name_char(c) == Seq::<char>::empty());
    assert(a + Seq::<char>::empty() + b =~= m);
    assert(m[0] == a[0]);
    assert(m.last() == b.last());
    assert forall|i: int| 0 <= i && i + 1 < m.len() implies !(#[trigger] m[i] == '_' && m[i + 1] == '_') by {
        if i + 1 < a.len() {
            assert(m[i] == a[i] && m[i + 1] == a[i + 1]);
        } else if i + 1 == a.len() {
            assert(m[i] == a.last());
        } else {
            assert(m[i] == b[i - a.len()] && m[i + 1] == b[i + 1 - a.len()]);
        }
    }
    lemma_sanitized_of_tidy(a + seq![c] + b, m);
}

}
