//! Splitting a wiki into a tree of markdown files.
use vstd::prelude::*;
use crate::filename::{sanitize_filename, sanitized, law_sanitized_is_safe_name, is_reserved_name_char};
use crate::render::{append_section_block, markdown_text, section_block, section_blocks};
use crate::text::{append_chars, append_str, chars_eq, chars_of, string_from_chars};
use crate::wiki::{SectionModel, SplitFile, Wiki, WikiModel};

verus! {

/// The titles remembered per heading level after a section: its own level gets
/// its sanitized title and every deeper level is forgotten. Sections at level 0
/// or at a level past the remembered ones change nothing.
pub open spec fn hierarchy_step(h: Seq<Seq<char>>, s: SectionModel) -> Seq<Seq<char>> {
    let level = s.level as int;
    if level == 0 || level >= 16 {
        h
    } else {
        Seq::new(16, |i: int| if i < level { h[i] } else if i == level { sanitized(s.title) } else { seq![] })
    }
}

/// The remembered titles after the first `n` sections.
pub open spec fn hierarchy_after(secs: Seq<SectionModel>, n: int) -> Seq<Seq<char>>
    decreases n,
{
    if n <= 0 || n > secs.len() {
        Seq::new(16, |i: int| Seq::<char>::empty())
    } else {
        hierarchy_step(hierarchy_after(secs, n - 1), secs[n - 1])
    }
}

/// A remembered title as a path component: `section` when there is none.
pub open spec fn segment(x: Seq<char>) -> Seq<char> {
    if x.len() == 0 { "section"@ } else { x }
}

/// The path components of a section at `level`, with the remembered titles
/// `h`, when splitting at depth `d` (at least 1). Above the split depth a
/// section goes to `README.md` in the directory of its ancestors (level 2 and
/// deeper); at or below it, to the file named after its ancestor at depth `d`
/// (at depth 1, after the level-1 title, or `README`), in the directory of
/// the ancestors between.
pub open spec fn path_components(h: Seq<Seq<char>>, level: int, d: int) -> Seq<Seq<char>> {
    if level < d {
        if level == 1 {
            seq!["README.md"@]
        } else {
            Seq::new((level - 1) as nat, |k: int| segment(h[k + 2])).push("README.md"@)
        }
    } else {
        let dir = Seq::new(if d >= 2 { (d - 2) as nat } else { 0 }, |k: int| segment(h[k + 2]));
        let file = if d == 1 {
            (if h[1].len() == 0 { "README"@ } else { h[1] }) + ".md"@
        } else {
            segment(h[d]) + ".md"@
        };
        dir.push(file)
    }
}

/// Components joined by `/`.
pub open spec fn join_path(c: Seq<Seq<char>>) -> Seq<char>
    decreases c.len(),
{
    if c.len() == 0 {
        seq![]
    } else if c.len() == 1 {
        c[0]
    } else {
        join_path(c.drop_last()) + seq!['/'] + c.last()
    }
}

/// The split depth actually used: at least 1.
pub open spec fn effective_depth(depth: usize) -> int {
    if depth < 1 { 1 } else { depth as int }
}

/// Sections at level 0 are left out of every file.
pub open spec fn is_filed(s: SectionModel) -> bool {
    s.level >= 1
}

/// The relative path of the file that section `j` goes to.
pub open spec fn file_path_of(secs: Seq<SectionModel>, depth: usize, j: int) -> Seq<char> {
    join_path(path_components(hierarchy_after(secs, j + 1), secs[j].level as int, effective_depth(depth)))
}

/// The content of the file at path `p` after the first `n` sections: the
/// blocks of the sections filed there, in order.
pub open spec fn file_content(secs: Seq<SectionModel>, depth: usize, p: Seq<char>, n: int) -> Seq<char>
    decreases n,
{
    if n <= 0 || n > secs.len() {
        seq![]
    } else {
        file_content(secs, depth, p, n - 1) + if is_filed(secs[n - 1]) && file_path_of(secs, depth, n - 1) == p {
            section_block(secs[n - 1])
        } else {
            seq![]
        }
    }
}

/// The splitter only remembers 16 heading levels: no filed section may need
/// a title at level 16 or deeper (its own level and the depth both 16 or more).
pub open spec fn split_in_range(secs: Seq<SectionModel>, depth: usize) -> bool {
    forall|j: int|
        0 <= j < secs.len() && is_filed(#[trigger] secs[j]) ==> (secs[j].level as int) < 16
            || effective_depth(depth) < 16
}

/// Sort key of a path character: `/` sorts before every other character, so
/// that paths order component by component, as `Path` orders them.
pub open spec fn path_key(c: char) -> int {
    if c == '/' { -1 } else { (c as u32) as int }
}

/// `a` comes strictly before `b` in path order.
pub open spec fn path_lt(a: Seq<char>, b: Seq<char>) -> bool
    decreases a.len(),
{
    if a.len() == 0 {
        b.len() > 0
    } else if b.len() == 0 {
        false
    } else if path_key(a[0]) != path_key(b[0]) {
        path_key(a[0]) < path_key(b[0])
    } else {
        path_lt(a.drop_first(), b.drop_first())
    }
}

proof fn lemma_path_lt_irreflexive(a: Seq<char>)
    ensures
        !path_lt(a, a),
    decreases a.len(),
{
    if a.len() > 0 {
        lemma_path_lt_irreflexive(a.drop_first());
    }
}

proof fn lemma_path_key_injective(x: char, y: char)
    ensures
        path_key(x) == path_key(y) ==> x == y,
{
    if path_key(x) == path_key(y) && x != y && x != '/' && y != '/' {
        vstd::utf8::char_u32_cast(x, x as u32);
        vstd::utf8::char_u32_cast(y, y as u32);
    }
}

proof fn lemma_path_lt_total(a: Seq<char>, b: Seq<char>)
    ensures
        a != b ==> path_lt(a, b) || path_lt(b, a),
        path_lt(a, b) ==> !path_lt(b, a),
    decreases a.len(),
{
    if a.len() > 0 && b.len() > 0 {
        lemma_path_key_injective(a[0], b[0]);
        lemma_path_lt_total(a.drop_first(), b.drop_first());
        if a != b && path_key(a[0]) == path_key(b[0]) {
            assert(a =~= seq![a[0]] + a.drop_first());
            assert(b =~= seq![b[0]] + b.drop_first());
        }
    } else if a.len() == 0 && b.len() == 0 {
        assert(a =~= b);
    }
}

proof fn lemma_path_lt_transitive(a: Seq<char>, b: Seq<char>, c: Seq<char>)
    requires
        path_lt(a, b),
        path_lt(b, c),
    ensures
        path_lt(a, c),
    decreases a.len(),
{
    if a.len() > 0 && b.len() > 0 && c.len() > 0 {
        if path_key(a[0]) == path_key(b[0]) && path_key(b[0]) == path_key(c[0]) {
            lemma_path_lt_transitive(a.drop_first(), b.drop_first(), c.drop_first());
        }
    }
}

/// Whether `a` comes strictly before `b` in path order.
fn path_less(a: &[char], b: &[char]) -> (r: bool)
    ensures
        r == path_lt(a@, b@),
{
    let mut i: usize = 0;
    assert(a@.skip(0) =~= a@);
    assert(b@.skip(0) =~= b@);
    while i < a.len() && i < b.len()
        invariant
            i <= a.len(),
            i <= b.len(),
            path_lt(a@, b@) == path_lt(a@.skip(i as int), b@.skip(i as int)),
        decreases a.len() - i,
    {
        let x = a[i];
        let y = b[i];
        assert(a@.skip(i as int)[0] == x && b@.skip(i as int)[0] == y);
        if x != y {
            proof {
                lemma_path_key_injective(x, y);
            }
            if x == '/' {
                return true;
            }
            if y == '/' {
                return false;
            }
            return (x as u32) < (y as u32);
        }
        assert(a@.skip(i as int).drop_first() =~= a@.skip(i as int + 1));
        assert(b@.skip(i as int).drop_first() =~= b@.skip(i as int + 1));
        i = i + 1;
    }
    i == a.len() && i < b.len()
}


/// The remembered titles held by the splitter, as values.
pub open spec fn hierarchy_view(h: Seq<Vec<char>>) -> Seq<Seq<char>> {
    h.map_values(|v: Vec<char>| v@)
}

/// Updates the remembered titles for one section.
fn step_hierarchy(h: &mut Vec<Vec<char>>, s: &crate::wiki::Section)
    requires
        old(h).len() == 16,
    ensures
        final(h).len() == 16,
        hierarchy_view(final(h)@) == hierarchy_step(hierarchy_view(old(h)@), s.model()),
{
    let level = s.level as usize;
    if level == 0 || level >= 16 {
        return;
    }
    let name = sanitize_filename(s.title.as_str());
    let name_chars = chars_of(name.as_str());
    let ghost h0 = hierarchy_view(h@);
    h.set(level, name_chars);
    assert(hierarchy_view(h@) =~= h0.update(level as int, sanitized(s.title@)));
    let mut k = level + 1;
    while k < 16
        invariant
            level < k <= 16,
            h.len() == 16,
            forall|i: int| 0 <= i < 16 ==> #[trigger] hierarchy_view(h@)[i] == (if i < level {
                hierarchy_view(old(h)@)[i]
            } else if i == level {
                sanitized(s.title@)
            } else if i < k {
                Seq::<char>::empty()
            } else {
                hierarchy_view(old(h)@)[i]
            }),
        decreases 16 - k,
    {
        let ghost prev = hierarchy_view(h@);
        h.set(k, Vec::new());
        assert(hierarchy_view(h@) =~= prev.update(k as int, Seq::<char>::empty()));
        k = k + 1;
    }
    assert(hierarchy_view(h@) =~= hierarchy_step(hierarchy_view(old(h)@), s.model()));
}

/// Pushes a remembered title as a path component (`section` when empty).
fn push_segment(comps: &mut Vec<Vec<char>>, x: &Vec<char>)
    ensures
        final(comps)@.map_values(|v: Vec<char>| v@) == old(comps)@.map_values(|v: Vec<char>| v@).push(segment(x@)),
{
    let mut c: Vec<char> = Vec::new();
    if x.len() == 0 {
        append_str(&mut c, "section");
    } else {
        append_chars(&mut c, x.as_slice());
    }
    comps.push(c);
    assert(comps@.map_values(|v: Vec<char>| v@) =~= old(comps)@.map_values(|v: Vec<char>| v@).push(segment(x@)));
}

/// Components joined by `/`.
fn join_components(comps: &Vec<Vec<char>>) -> (r: Vec<char>)
    ensures
        r@ == join_path(comps@.map_values(|v: Vec<char>| v@)),
{
    let ghost cs = comps@.map_values(|v: Vec<char>| v@);
    let mut out: Vec<char> = Vec::new();
    if comps.len() == 0 {
        assert(cs.len() == 0);
        return out;
    }
    append_chars(&mut out, comps[0].as_slice());
    assert(cs.take(1).drop_last() =~= Seq::<Seq<char>>::empty());
    let mut k: usize = 1;
    while k < comps.len()
        invariant
            1 <= k <= comps.len(),
            cs == comps@.map_values(|v: Vec<char>| v@),
            out@ == join_path(cs.take(k as int)),
        decreases comps.len() - k,
    {
        out.push('/');
        append_chars(&mut out, comps[k].as_slice());
        assert(cs.take(k + 1).drop_last() =~= cs.take(k as int));
        k = k + 1;
    }
    assert(cs.take(comps.len() as int) =~= cs);
    out
}

/// The path of the file that a section at `level` goes to.
fn file_path(h: &Vec<Vec<char>>, level: usize, d: usize) -> (r: Vec<char>)
    requires
        h.len() == 16,
        1 <= level <= 255,
        1 <= d,
        level < 16 || d < 16,
    ensures
        r@ == join_path(path_components(hierarchy_view(h@), level as int, d as int)),
{
    let ghost hv = hierarchy_view(h@);
    let mut comps: Vec<Vec<char>> = Vec::new();
    if level < d {
        if level == 1 {
            comps.push(chars_of("README.md"));
            assert(comps@.map_values(|v: Vec<char>| v@) =~= seq!["README.md"@]);
        } else {
            let mut k: usize = 2;
            while k <= level
                invariant
                    2 <= k <= level + 1,
                    level < 16,
                    h.len() == 16,
                    hv == hierarchy_view(h@),
                    comps@.map_values(|v: Vec<char>| v@) == Seq::new((k - 2) as nat, |j: int| segment(hv[j + 2])),
                decreases level + 1 - k,
            {
                push_segment(&mut comps, &h[k]);
                k = k + 1;
                assert(comps@.map_values(|v: Vec<char>| v@) =~= Seq::new((k - 2) as nat, |j: int| segment(hv[j + 2])));
            }
            let ghost before = comps@.map_values(|v: Vec<char>| v@);
            comps.push(chars_of("README.md"));
            assert(comps@.map_values(|v: Vec<char>| v@) =~= before.push("README.md"@));
        }
    } else {
        let mut k: usize = 2;
        assert(comps@.map_values(|v: Vec<char>| v@) =~= Seq::new(0, |j: int| segment(hv[j + 2])));
        while k < d
            invariant
                2 <= k,
                d < 16,
                k <= d || (d == 1 && k == 2),
                h.len() == 16,
                hv == hierarchy_view(h@),
                comps@.map_values(|v: Vec<char>| v@) == Seq::new((k - 2) as nat, |j: int| segment(hv[j + 2])),
            decreases d - k,
        {
            push_segment(&mut comps, &h[k]);
            k = k + 1;
            assert(comps@.map_values(|v: Vec<char>| v@) =~= Seq::new((k - 2) as nat, |j: int| segment(hv[j + 2])));
        }
        let ghost dir = comps@.map_values(|v: Vec<char>| v@);
        assert(dir =~= Seq::new(if d >= 2 { (d - 2) as nat } else { 0 }, |j: int| segment(hv[j + 2])));
        let mut file: Vec<char> = Vec::new();
        if d == 1 {
            if h[1].len() == 0 {
                append_str(&mut file, "README");
            } else {
                append_chars(&mut file, h[1].as_slice());
            }
        } else if h[d].len() == 0 {
            append_str(&mut file, "section");
        } else {
            append_chars(&mut file, h[d].as_slice());
        }
        append_str(&mut file, ".md");
        comps.push(file);
        assert(comps@.map_values(|v: Vec<char>| v@) =~= path_components(hv, level as int, d as int));
    }
    join_components(&comps)
}

/// Some filed section among the first `n` goes to path `p`.
pub open spec fn is_filed_path(secs: Seq<SectionModel>, depth: usize, n: int, p: Seq<char>) -> bool {
    exists|j: int| 0 <= j < n && is_filed(#[trigger] secs[j]) && file_path_of(secs, depth, j) == p
}

/// Path `p` is one of the listed paths.
pub open spec fn is_listed(paths: Seq<Vec<char>>, p: Seq<char>) -> bool {
    exists|k: int| 0 <= k < paths.len() && #[trigger] paths[k]@ == p
}

proof fn lemma_content_empty(secs: Seq<SectionModel>, depth: usize, p: Seq<char>, n: int)
    requires
        0 <= n <= secs.len(),
        forall|j: int| 0 <= j < n && is_filed(#[trigger] secs[j]) ==> file_path_of(secs, depth, j) != p,
    ensures
        file_content(secs, depth, p, n) == Seq::<char>::empty(),
    decreases n,
{
    if n > 0 {
        lemma_content_empty(secs, depth, p, n - 1);
        assert(file_content(secs, depth, p, n) =~= file_content(secs, depth, p, n - 1));
    }
}

/// Paths strictly increasing in path order.
pub open spec fn paths_sorted(paths: Seq<Vec<char>>) -> bool {
    forall|a: int, b: int| 0 <= a < b < paths.len() ==> path_lt(#[trigger] paths[a]@, #[trigger] paths[b]@)
}

proof fn lemma_sorted_distinct(paths: Seq<Vec<char>>, a: int, b: int)
    requires
        paths_sorted(paths),
        0 <= a < paths.len(),
        0 <= b < paths.len(),
        a != b,
    ensures
        paths[a]@ != paths[b]@,
{
    if a < b {
        assert(path_lt(paths[a]@, paths[b]@));
    } else {
        assert(path_lt(paths[b]@, paths[a]@));
    }
    lemma_path_lt_irreflexive(paths[a]@);
}

/// Adds `block` to the file at path `p`, creating it in its sorted place when it
/// is new.
fn add_block(
    paths: &mut Vec<Vec<char>>,
    contents: &mut Vec<Vec<char>>,
    p: Vec<char>,
    block: Vec<char>,
    Ghost(f): Ghost<spec_fn(Seq<char>) -> Seq<char>>,
)
    requires
        old(paths).len() == old(contents).len(),
        paths_sorted(old(paths)@),
        forall|k: int| 0 <= k < old(paths).len() ==> (#[trigger] old(contents)@[k])@ == f(old(paths)@[k]@),
        !is_listed(old(paths)@, p@) ==> f(p@) == Seq::<char>::empty(),
    ensures
        final(paths).len() == final(contents).len(),
        paths_sorted(final(paths)@),
        forall|k: int| 0 <= k < final(paths).len() ==> (#[trigger] final(contents)@[k])@ == f(final(paths)@[k]@) + (if final(paths)@[k]@ == p@ {
            block@
        } else {
            Seq::<char>::empty()
        }),
        forall|q: Seq<char>| is_listed(final(paths)@, q) <==> (is_listed(old(paths)@, q) || q == p@),
{
    let ghost old_paths = paths@;
    let ghost old_contents = contents@;
    let mut k: usize = 0;
    while k < paths.len() && path_less(paths[k].as_slice(), p.as_slice())
        invariant
            k <= paths.len(),
            forall|m: int| 0 <= m < k ==> path_lt(#[trigger] paths@[m]@, p@),
        decreases paths.len() - k,
    {
        k = k + 1;
    }
    if k < paths.len() && chars_eq(paths[k].as_slice(), p.as_slice()) {
        let mut c = contents.remove(k);
        append_chars(&mut c, block.as_slice());
        contents.insert(k, c);
        assert forall|m: int| 0 <= m < paths.len() implies (#[trigger] contents@[m])@ == f(paths@[m]@) + (if paths@[m]@ == p@ {
            block@
        } else {
            Seq::<char>::empty()
        }) by {
            if m != k {
                assert(contents@[m] == old_contents[m]);
                lemma_sorted_distinct(paths@, m, k as int);
            }
        }
        assert forall|q: Seq<char>| is_listed(paths@, q) <==> (is_listed(old_paths, q) || q == p@) by {
            if q == p@ {
                assert(paths@[k as int]@ == q);
            }
        }
    } else {
        proof {
            if k < paths.len() {
                lemma_path_lt_total(paths@[k as int]@, p@);
            }
            if is_listed(old_paths, p@) {
                let m = choose|m: int| 0 <= m < old_paths.len() && #[trigger] old_paths[m]@ == p@;
                lemma_path_lt_irreflexive(p@);
                if m > k {
                    assert(path_lt(old_paths[k as int]@, old_paths[m]@));
                    lemma_path_lt_transitive(p@, old_paths[k as int]@, old_paths[m]@);
                }
            }
        }
        paths.insert(k, p);
        contents.insert(k, block);
        assert forall|a: int, b: int| 0 <= a < b < paths.len() implies path_lt(#[trigger] paths@[a]@, #[trigger] paths@[b]@) by {
            if b < k {
                assert(path_lt(old_paths[a]@, old_paths[b]@));
            } else if b == k {
            } else if a < k {
                assert(paths@[b] == old_paths[b - 1]);
                if b - 1 > k {
                    assert(path_lt(old_paths[k as int]@, old_paths[b - 1]@));
                    lemma_path_lt_transitive(p@, old_paths[k as int]@, old_paths[b - 1]@);
                }
                lemma_path_lt_transitive(paths@[a]@, p@, paths@[b]@);
            } else if a == k {
                assert(paths@[b] == old_paths[b - 1]);
                if b - 1 > k {
                    assert(path_lt(old_paths[k as int]@, old_paths[b - 1]@));
                    lemma_path_lt_transitive(p@, old_paths[k as int]@, old_paths[b - 1]@);
                }
            } else {
                assert(paths@[a] == old_paths[a - 1]);
                assert(paths@[b] == old_paths[b - 1]);
                assert(path_lt(old_paths[a - 1]@, old_paths[b - 1]@));
            }
        }
        assert forall|m: int| 0 <= m < paths.len() implies (#[trigger] contents@[m])@ == f(paths@[m]@) + (if paths@[m]@ == p@ {
            block@
        } else {
            Seq::<char>::empty()
        }) by {
            if m != k {
                let om = if m < k { m } else { m - 1 };
                assert(paths@[m] == old_paths[om]);
                assert(contents@[m] == old_contents[om]);
                assert(old_contents[om]@ == f(old_paths[om]@));
                lemma_sorted_distinct(paths@, m, k as int);
            } else {
                assert(contents@[m]@ =~= f(p@) + block@);
            }
        }
        assert forall|q: Seq<char>| is_listed(paths@, q) <==> (is_listed(old_paths, q) || q == p@) by {
            if is_listed(paths@, q) {
                let m = choose|m: int| 0 <= m < paths.len() && #[trigger] paths@[m]@ == q;
                if m < k {
                    assert(old_paths[m]@ == q);
                } else if m > k {
                    assert(old_paths[m - 1]@ == q);
                }
            }
            if is_listed(old_paths, q) {
                let m = choose|m: int| 0 <= m < old_paths.len() && #[trigger] old_paths[m]@ == q;
                if m < k {
                    assert(paths@[m]@ == q);
                } else {
                    assert(paths@[m + 1]@ == q);
                }
            }
            if q == p@ {
                assert(paths@[k as int]@ == q);
            }
        }
    }
}

/// The files of a split, as paths in path order and their contents.
fn collect_files(wiki: &Wiki, depth: usize) -> (r: (Vec<Vec<char>>, Vec<Vec<char>>))
    requires
        split_in_range(wiki.model().sections, depth),
    ensures
        r.0.len() == r.1.len(),
        paths_sorted(r.0@),
        forall|k: int| 0 <= k < r.0.len() ==> is_filed_path(wiki.model().sections, depth, wiki.sections.len() as int, (#[trigger] r.0@[k])@),
        forall|j: int| 0 <= j < wiki.sections.len() && is_filed(#[trigger] wiki.model().sections[j]) ==> is_listed(r.0@, file_path_of(wiki.model().sections, depth, j)),
        forall|k: int| 0 <= k < r.0.len() ==> (#[trigger] r.1@[k])@ == file_content(wiki.model().sections, depth, r.0@[k]@, wiki.sections.len() as int),
{
    let ghost secs = wiki.model().sections;
    let d: usize = if depth < 1 { 1 } else { depth };
    let mut h: Vec<Vec<char>> = Vec::new();
    let mut z: usize = 0;
    while z < 16
        invariant
            z <= 16,
            h.len() == z,
            forall|i: int| 0 <= i < z ==> (#[trigger] h@[i])@ == Seq::<char>::empty(),
        decreases 16 - z,
    {
        h.push(Vec::new());
        z = z + 1;
    }
    assert(hierarchy_view(h@) =~= hierarchy_after(secs, 0));
    let mut paths: Vec<Vec<char>> = Vec::new();
    let mut contents: Vec<Vec<char>> = Vec::new();
    let mut i: usize = 0;
    while i < wiki.sections.len()
        invariant
            i <= wiki.sections.len(),
            secs == wiki.model().sections,
            secs.len() == wiki.sections.len(),
            split_in_range(secs, depth),
            d as int == effective_depth(depth),
            h.len() == 16,
            hierarchy_view(h@) == hierarchy_after(secs, i as int),
            paths.len() == contents.len(),
            paths_sorted(paths@),
            forall|k: int| 0 <= k < paths.len() ==> is_filed_path(secs, depth, i as int, (#[trigger] paths@[k])@),
            forall|j: int| 0 <= j < i && is_filed(#[trigger] secs[j]) ==> is_listed(paths@, file_path_of(secs, depth, j)),
            forall|k: int| 0 <= k < paths.len() ==> (#[trigger] contents@[k])@ == file_content(secs, depth, paths@[k]@, i as int),
        decreases wiki.sections.len() - i,
    {
        let s = &wiki.sections[i];
        assert(secs[i as int] == s.model());
        step_hierarchy(&mut h, s);
        assert(hierarchy_view(h@) == hierarchy_after(secs, i + 1));
        if s.level >= 1 {
            let p = file_path(&h, s.level as usize, d);
            assert(p@ == file_path_of(secs, depth, i as int));
            let mut block: Vec<char> = Vec::new();
            append_section_block(&mut block, s);
            assert(block@ =~= section_block(secs[i as int]));
            let ghost before = paths@;
            proof {
                if !is_listed(paths@, p@) {
                    assert forall|j: int| 0 <= j < i && is_filed(#[trigger] secs[j]) implies file_path_of(secs, depth, j) != p@ by {
                        if file_path_of(secs, depth, j) == p@ {
                            assert(is_listed(paths@, file_path_of(secs, depth, j)));
                        }
                    }
                    lemma_content_empty(secs, depth, p@, i as int);
                }
            }
            let ghost pv = p@;
            let ghost bv = block@;
            let ghost f = |q: Seq<char>| file_content(secs, depth, q, i as int);
            add_block(&mut paths, &mut contents, p, block, Ghost(f));
            assert forall|m: int| 0 <= m < paths.len() implies (#[trigger] contents@[m])@ == file_content(secs, depth, paths@[m]@, i + 1) by {
                assert(contents@[m]@ == f(paths@[m]@) + (if paths@[m]@ == pv { bv } else { Seq::<char>::empty() }));
            }
            assert forall|m: int| 0 <= m < paths.len() implies is_filed_path(secs, depth, i + 1, (#[trigger] paths@[m])@) by {
                assert(is_listed(paths@, paths@[m]@));
                if paths@[m]@ != file_path_of(secs, depth, i as int) {
                    let n = choose|n: int| 0 <= n < before.len() && #[trigger] before[n]@ == paths@[m]@;
                    assert(is_filed_path(secs, depth, i as int, before[n]@));
                    let j = choose|j: int| 0 <= j < i && is_filed(#[trigger] secs[j]) && file_path_of(secs, depth, j) == before[n]@;
                    assert(0 <= j < i + 1 && is_filed(secs[j]) && file_path_of(secs, depth, j) == paths@[m]@);
                } else {
                    assert(is_filed(secs[i as int]));
                }
            }
            assert forall|j: int| 0 <= j < i + 1 && is_filed(#[trigger] secs[j]) implies is_listed(paths@, file_path_of(secs, depth, j)) by {
                if j < i {
                    assert(is_listed(before, file_path_of(secs, depth, j)));
                }
            }
        } else {
            assert forall|m: int| 0 <= m < paths.len() implies (#[trigger] contents@[m])@ == file_content(secs, depth, paths@[m]@, i + 1) by {
            }
            assert forall|m: int| 0 <= m < paths.len() implies is_filed_path(secs, depth, i + 1, (#[trigger] paths@[m])@) by {
                assert(is_filed_path(secs, depth, i as int, paths@[m]@));
                let j = choose|j: int| 0 <= j < i && is_filed(#[trigger] secs[j]) && file_path_of(secs, depth, j) == paths@[m]@;
                assert(0 <= j < i + 1 && is_filed(secs[j]) && file_path_of(secs, depth, j) == paths@[m]@);
            }
        }
        i = i + 1;
    }
    (paths, contents)
}

/// The files of a split as values: each file's path and content.
pub open spec fn files_view(r: Seq<SplitFile>) -> Seq<(Seq<char>, Seq<char>)> {
    r.map_values(|f: SplitFile| (f.path@, f.content@))
}

/// `files` is how the sections split at `depth`: the files come in strict
/// path order, each path is the file of some filed section, every filed
/// section's file is there, and each file holds the blocks filed under it.
pub open spec fn is_split(secs: Seq<SectionModel>, depth: usize, files: Seq<(Seq<char>, Seq<char>)>) -> bool {
    &&& forall|a: int, b: int| 0 <= a < b < files.len() ==> path_lt(#[trigger] files[a].0, #[trigger] files[b].0)
    &&& forall|k: int| 0 <= k < files.len() ==> is_filed_path(secs, depth, secs.len() as int, (#[trigger] files[k]).0)
    &&& forall|j: int| 0 <= j < secs.len() && is_filed(#[trigger] secs[j]) ==> exists|k: int|
        0 <= k < files.len() && (#[trigger] files[k]).0 == file_path_of(secs, depth, j)
    &&& forall|k: int| 0 <= k < files.len() ==> (#[trigger] files[k]).1 == file_content(secs, depth, files[k].0, secs.len() as int)
}

/// Splits a wiki into markdown files by heading depth (see `file_path_of`):
/// each file holds the blocks of the sections filed under its path, in wiki
/// order, and the files come in path order. Level-0 sections are left out.
pub fn split_by_depth(wiki: &Wiki, depth: usize) -> (r: Vec<SplitFile>)
    requires
        split_in_range(wiki.model().sections, depth),
    ensures
        forall|a: int, b: int| 0 <= a < b < r.len() ==> path_lt(#[trigger] r@[a].path@, #[trigger] r@[b].path@),
        forall|k: int| 0 <= k < r.len() ==> is_filed_path(wiki.model().sections, depth, wiki.sections.len() as int, (#[trigger] r@[k]).path@),
        forall|j: int| 0 <= j < wiki.sections.len() && is_filed(#[trigger] wiki.model().sections[j]) ==> exists|k: int|
            0 <= k < r.len() && (#[trigger] r@[k]).path@ == file_path_of(wiki.model().sections, depth, j),
        forall|k: int| 0 <= k < r.len() ==> (#[trigger] r@[k]).content@ == file_content(
            wiki.model().sections,
            depth,
            r@[k].path@,
            wiki.sections.len() as int,
        ),
        is_split(wiki.model().sections, depth, files_view(r@)),
{
    let (paths, contents) = collect_files(wiki, depth);
    let mut r: Vec<SplitFile> = Vec::new();
    let mut k: usize = 0;
    while k < paths.len()
        invariant
            k <= paths.len(),
            paths.len() == contents.len(),
            r.len() == k,
            forall|m: int| 0 <= m < k ==> (#[trigger] r@[m]).path@ == paths@[m]@ && r@[m].content@ == contents@[m]@,
        decreases paths.len() - k,
    {
        let f = SplitFile { path: string_from_chars(paths[k].as_slice()), content: string_from_chars(contents[k].as_slice()) };
        r.push(f);
        k = k + 1;
    }
    assert forall|j: int| 0 <= j < wiki.sections.len() && is_filed(#[trigger] wiki.model().sections[j]) implies exists|m: int|
        0 <= m < r.len() && (#[trigger] r@[m]).path@ == file_path_of(wiki.model().sections, depth, j) by {
        let m = choose|m: int| 0 <= m < paths.len() && #[trigger] paths@[m]@ == file_path_of(wiki.model().sections, depth, j);
        assert(r@[m].path@ == paths@[m]@);
    }
    assert forall|a: int, b: int| 0 <= a < b < r.len() implies path_lt(#[trigger] r@[a].path@, #[trigger] r@[b].path@) by {
        assert(path_lt(paths@[a]@, paths@[b]@));
    }
    assert forall|m: int| 0 <= m < r.len() implies is_filed_path(wiki.model().sections, depth, wiki.sections.len() as int, (#[trigger] r@[m]).path@) by {
        assert(r@[m].path@ == paths@[m]@);
    }
    proof {
        let secs = wiki.model().sections;
        let f = files_view(r@);
        assert(secs.len() == wiki.sections.len());
        assert forall|a: int, b: int| 0 <= a < b < f.len() implies path_lt(#[trigger] f[a].0, #[trigger] f[b].0) by {
            assert(path_lt(r@[a].path@, r@[b].path@));
        }
        assert forall|k: int| 0 <= k < f.len() implies is_filed_path(secs, depth, secs.len() as int, (#[trigger] f[k]).0) by {
            assert(is_filed_path(secs, depth, wiki.sections.len() as int, r@[k].path@));
        }
        assert forall|j: int| 0 <= j < secs.len() && is_filed(#[trigger] secs[j]) implies exists|k: int|
            0 <= k < f.len() && (#[trigger] f[k]).0 == file_path_of(secs, depth, j) by {
            let m = choose|m: int| 0 <= m < r.len() && (#[trigger] r@[m]).path@ == file_path_of(secs, depth, j);
            assert(f[m].0 == r@[m].path@);
        }
        assert forall|k: int| 0 <= k < f.len() implies (#[trigger] f[k]).1 == file_content(secs, depth, f[k].0, secs.len() as int) by {
            assert(r@[k].content@ == file_content(secs, depth, r@[k].path@, wiki.sections.len() as int));
        }
    }
    r
}


/// Number of `/` in a path.
pub open spec fn slash_count(s: Seq<char>) -> nat
    decreases s.len(),
{
    if s.len() == 0 { 0 } else { slash_count(s.drop_last()) + if s.last() == '/' { 1nat } else { 0nat } }
}

/// `s` holds no `/`.
pub open spec fn no_slash(s: Seq<char>) -> bool {
    forall|i: int| 0 <= i < s.len() ==> #[trigger] s[i] != '/'
}

proof fn lemma_slash_count_concat(a: Seq<char>, b: Seq<char>)
    ensures
        slash_count(a + b) == slash_count(a) + slash_count(b),
    decreases b.len(),
{
    if b.len() == 0 {
        assert(a + b =~= a);
    } else {
        lemma_slash_count_concat(a, b.drop_last());
        assert((a + b).drop_last() =~= a + b.drop_last());
    }
}

proof fn lemma_no_slash_count(s: Seq<char>)
    requires
        no_slash(s),
    ensures
        slash_count(s) == 0,
    decreases s.len(),
{
    if s.len() > 0 {
        assert(s.last() == s[s.len() - 1]);
        lemma_no_slash_count(s.drop_last());
    }
}

proof fn lemma_join_slashes(c: Seq<Seq<char>>)
    requires
        c.len() >= 1,
        forall|i: int| 0 <= i < c.len() ==> no_slash(#[trigger] c[i]),
    ensures
        slash_count(join_path(c)) == c.len() - 1,
    decreases c.len(),
{
    if c.len() == 1 {
        lemma_no_slash_count(c[0]);
    } else {
        assert forall|i: int| 0 <= i < c.drop_last().len() implies no_slash(#[trigger] c.drop_last()[i]) by {
            assert(c.drop_last()[i] == c[i]);
        }
        lemma_join_slashes(c.drop_last());
        let sl: Seq<char> = seq!['/'];
        assert(sl.drop_last() =~= Seq::<char>::empty());
        assert(sl.last() == '/');
        assert(slash_count(sl.drop_last()) == 0);
        assert(slash_count(sl) == 1);
        assert(no_slash(c[c.len() - 1]));
        lemma_slash_count_concat(join_path(c.drop_last()), seq!['/']);
        lemma_slash_count_concat(join_path(c.drop_last()) + seq!['/'], c.last());
        lemma_no_slash_count(c.last());
    }
}

proof fn lemma_sanitized_no_slash(t: Seq<char>)
    ensures
        no_slash(sanitized(t)),
{
    law_sanitized_is_safe_name(t);
    assert forall|i: int| 0 <= i < sanitized(t).len() implies #[trigger] sanitized(t)[i] != '/' by {
        assert(!is_reserved_name_char(sanitized(t)[i]));
    }
}

proof fn lemma_hierarchy_no_slash(secs: Seq<SectionModel>, n: int)
    ensures
        hierarchy_after(secs, n).len() == 16,
        forall|i: int| 0 <= i < 16 ==> no_slash(#[trigger] hierarchy_after(secs, n)[i]),
    decreases n,
{
    if n > 0 && n <= secs.len() {
        lemma_hierarchy_no_slash(secs, n - 1);
        lemma_sanitized_no_slash(secs[n - 1].title);
    }
}

proof fn lemma_concat_no_slash(a: Seq<char>, b: Seq<char>)
    requires
        no_slash(a),
        no_slash(b),
    ensures
        no_slash(a + b),
{
    assert forall|i: int| 0 <= i < (a + b).len() implies #[trigger] (a + b)[i] != '/' by {
        if i >= a.len() {
            assert((a + b)[i] == b[i - a.len()]);
        }
    }
}

/// A split never nests files deeper than the split depth asks for: the path
/// of every filed section has at most `d - 2` directories (none at depth 1
/// or 2, so `-d 2` writes flat files), where `d` is the depth used (at least 1).
pub proof fn law_split_nesting_bounded(secs: Seq<SectionModel>, depth: usize, j: int)
    requires
        0 <= j < secs.len(),
        is_filed(secs[j]),
        split_in_range(secs, depth),
    ensures
        slash_count(file_path_of(secs, depth, j)) <= if effective_depth(depth) >= 2 { effective_depth(depth) - 2 } else { 0 },
{
    reveal_strlit("README.md");
    reveal_strlit("section");
    reveal_strlit("README");
    reveal_strlit(".md");
    let h = hierarchy_after(secs, j + 1);
    lemma_hierarchy_no_slash(secs, j + 1);
    let d = effective_depth(depth);
    let level = secs[j].level as int;
    let c = path_components(h, level, d);
    assert(secs[j] == secs[j]);
    assert(no_slash("README.md"@));
    assert(no_slash("section"@));
    assert(no_slash("README"@));
    assert(no_slash(".md"@));
    assert forall|i: int| 0 <= i < c.len() implies no_slash(#[trigger] c[i]) by {
        if level < d {
            if level != 1 && i < level - 1 {
                assert(c[i] == segment(h[i + 2]));
            }
        } else {
            let nd = if d >= 2 { d - 2 } else { 0 };
            if i < nd {
                assert(c[i] == segment(h[i + 2]));
            } else if d == 1 {
                lemma_concat_no_slash(if h[1].len() == 0 { "README"@ } else { h[1] }, ".md"@);
            } else {
                lemma_concat_no_slash(segment(h[d]), ".md"@);
            }
        }
    }
    lemma_join_slashes(c);
}

proof fn lemma_root_title_kept(secs: Seq<SectionModel>, n: int)
    requires
        1 <= n <= secs.len(),
        secs[0].level == 1,
        forall|i: int| 1 <= i < secs.len() ==> (#[trigger] secs[i]).level != 1,
    ensures
        hierarchy_after(secs, n)[1] == sanitized(secs[0].title),
        hierarchy_after(secs, n).len() == 16,
    decreases n,
{
    lemma_hierarchy_no_slash(secs, n);
    if n > 1 {
        lemma_root_title_kept(secs, n - 1);
    }
}

/// With split depth 1 and a wiki whose only level-1 section comes first,
/// everything goes into one file, named after that root section's title.
pub proof fn law_depth_one_single_file(secs: Seq<SectionModel>, j: int)
    requires
        0 <= j < secs.len(),
        is_filed(secs[j]),
        secs[0].level == 1,
        forall|i: int| 1 <= i < secs.len() ==> (#[trigger] secs[i]).level != 1,
    ensures
        file_path_of(secs, 1, j) == sanitized(secs[0].title) + ".md"@,
{
    lemma_root_title_kept(secs, j + 1);
    law_sanitized_is_safe_name(secs[0].title);
    let h = hierarchy_after(secs, j + 1);
    assert(path_components(h, secs[j].level as int, 1) =~= seq![sanitized(secs[0].title) + ".md"@]);
}

proof fn lemma_hierarchy_len(secs: Seq<SectionModel>, n: int)
    ensures
        hierarchy_after(secs, n).len() == 16,
    decreases n,
{
    if n > 0 && n <= secs.len() {
        lemma_hierarchy_len(secs, n - 1);
    }
}

/// Sections deeper than `d` leave the remembered titles of levels up to `d` alone.
proof fn lemma_hierarchy_keeps_upper_levels(secs: Seq<SectionModel>, d: int, from: int, n: int)
    requires
        0 <= d < 16,
        0 <= from <= n <= secs.len(),
        forall|i: int| from <= i < n ==> (#[trigger] secs[i]).level as int > d,
    ensures
        forall|m: int| 0 <= m <= d ==> #[trigger] hierarchy_after(secs, n)[m] == hierarchy_after(secs, from)[m],
    decreases n - from,
{
    if n > from {
        lemma_hierarchy_keeps_upper_levels(secs, d, from, n - 1);
        lemma_hierarchy_len(secs, n - 1);
    }
}

/// Subsections go into their parent's file: a section deeper than the split
/// depth is filed where the nearest earlier section at exactly the split depth
/// is filed, when every section from there on to it is deeper than the split
/// depth too.
pub proof fn law_subsections_join_parent_file(secs: Seq<SectionModel>, depth: usize, k: int, j: int)
    requires
        split_in_range(secs, depth),
        0 <= k < j < secs.len(),
        secs[k].level as int == effective_depth(depth),
        forall|i: int| k < i <= j ==> (#[trigger] secs[i]).level as int > effective_depth(depth),
    ensures
        file_path_of(secs, depth, j) == file_path_of(secs, depth, k),
{
    let d = effective_depth(depth);
    assert(is_filed(secs[k]));
    assert(d < 16);
    lemma_hierarchy_keeps_upper_levels(secs, d, k + 1, j + 1);
    lemma_hierarchy_len(secs, k + 1);
    lemma_hierarchy_len(secs, j + 1);
    let hk = hierarchy_after(secs, k + 1);
    let hj = hierarchy_after(secs, j + 1);
    let ck = path_components(hk, d, d);
    let cj = path_components(hj, secs[j].level as int, d);
    let nd: nat = if d >= 2 { (d - 2) as nat } else { 0 };
    assert(Seq::new(nd, |m: int| segment(hj[m + 2])) =~= Seq::new(nd, |m: int| segment(hk[m + 2])));
    assert(cj =~= ck);
}

/// The file of a section at exactly the split depth (2 or deeper) is named
/// after the section: the last component of its path is its sanitized title
/// and `.md`.
pub proof fn law_split_level_names_file(secs: Seq<SectionModel>, depth: usize, j: int)
    requires
        0 <= j < secs.len(),
        2 <= effective_depth(depth) < 16,
        secs[j].level as int == effective_depth(depth),
    ensures
        path_components(hierarchy_after(secs, j + 1), secs[j].level as int, effective_depth(depth)).last()
            == sanitized(secs[j].title) + ".md"@,
{
    lemma_hierarchy_len(secs, j);
    law_sanitized_is_safe_name(secs[j].title);
}

/// At split depth 2 the files are flat, one per level-2 section: a level-2
/// section's file is its sanitized title and `.md`.
pub proof fn law_depth_two_flat_files(secs: Seq<SectionModel>, j: int)
    requires
        0 <= j < secs.len(),
        secs[j].level == 2,
    ensures
        file_path_of(secs, 2, j) == sanitized(secs[j].title) + ".md"@,
{
    law_split_level_names_file(secs, 2, j);
    let c = path_components(hierarchy_after(secs, j + 1), 2, 2);
    assert(c.len() == 1);
    assert(c =~= seq![sanitized(secs[j].title) + ".md"@]);
}

/// At split depth 3, level-2 sections become folders and level-3 sections
/// files inside them: a level-3 section whose nearest earlier section of
/// level 2 or less is at level 2 is filed at `<that title>/<its title>.md`
/// (titles sanitized).
pub proof fn law_depth_three_folders(secs: Seq<SectionModel>, k: int, j: int)
    requires
        0 <= k < j < secs.len(),
        secs[k].level == 2,
        secs[j].level == 3,
        forall|i: int| k < i < j ==> (#[trigger] secs[i]).level >= 3,
    ensures
        file_path_of(secs, 3, j) == sanitized(secs[k].title) + "/"@ + sanitized(secs[j].title) + ".md"@,
{
    reveal_strlit("/");
    lemma_hierarchy_len(secs, k);
    lemma_hierarchy_len(secs, j);
    lemma_hierarchy_keeps_upper_levels(secs, 2, k + 1, j);
    law_sanitized_is_safe_name(secs[k].title);
    law_sanitized_is_safe_name(secs[j].title);
    let h = hierarchy_after(secs, j + 1);
    assert(h[2] == hierarchy_after(secs, j)[2]);
    assert(h[2] == sanitized(secs[k].title));
    assert(h[3] == sanitized(secs[j].title));
    let c = path_components(h, 3, 3);
    assert(c =~= seq![sanitized(secs[k].title), sanitized(secs[j].title) + ".md"@]);
    assert(c.drop_last() =~= seq![sanitized(secs[k].title)]);
    assert(join_path(c) == join_path(c.drop_last()) + seq!['/'] + c.last());
    assert("/"@ =~= seq!['/']);
}

/// Paths in strict path order.
pub open spec fn sorted_paths(ps: Seq<Seq<char>>) -> bool {
    forall|a: int, b: int| 0 <= a < b < ps.len() ==> path_lt(#[trigger] ps[a], #[trigger] ps[b])
}

/// The paths of a list of files.
pub open spec fn paths_of(f: Seq<(Seq<char>, Seq<char>)>) -> Seq<Seq<char>> {
    f.map_values(|e: (Seq<char>, Seq<char>)| e.0)
}

/// Two lists of paths in strict path order with the same members are the same.
proof fn lemma_sorted_same_members(ps: Seq<Seq<char>>, qs: Seq<Seq<char>>)
    requires
        sorted_paths(ps),
        sorted_paths(qs),
        forall|k: int| 0 <= k < ps.len() ==> qs.contains(#[trigger] ps[k]),
        forall|m: int| 0 <= m < qs.len() ==> ps.contains(#[trigger] qs[m]),
    ensures
        ps == qs,
    decreases ps.len(),
{
    if ps.len() == 0 {
        if qs.len() > 0 {
            assert(ps.contains(qs[0]));
        }
        assert(ps =~= qs);
    } else if qs.len() == 0 {
        assert(qs.contains(ps[0]));
    } else {
        assert(qs.contains(ps[0]));
        assert(ps.contains(qs[0]));
        let m = choose|m: int| 0 <= m < qs.len() && qs[m] == ps[0];
        let k = choose|k: int| 0 <= k < ps.len() && ps[k] == qs[0];
        if m > 0 {
            assert(path_lt(qs[0], qs[m]));
            if k > 0 {
                assert(path_lt(ps[0], ps[k]));
                lemma_path_lt_total(ps[0], qs[0]);
            } else {
                lemma_path_lt_irreflexive(ps[0]);
            }
        }
        assert(ps[0] == qs[0]);
        let p2 = ps.drop_first();
        let q2 = qs.drop_first();
        assert forall|a: int, b: int| 0 <= a < b < p2.len() implies path_lt(#[trigger] p2[a], #[trigger] p2[b]) by {
            assert(path_lt(ps[a + 1], ps[b + 1]));
        }
        assert forall|a: int, b: int| 0 <= a < b < q2.len() implies path_lt(#[trigger] q2[a], #[trigger] q2[b]) by {
            assert(path_lt(qs[a + 1], qs[b + 1]));
        }
        assert forall|i: int| 0 <= i < p2.len() implies q2.contains(#[trigger] p2[i]) by {
            assert(p2[i] == ps[i + 1]);
            assert(qs.contains(ps[i + 1]));
            let j = choose|j: int| 0 <= j < qs.len() && qs[j] == ps[i + 1];
            assert(path_lt(ps[0], ps[i + 1]));
            if j == 0 {
                lemma_path_lt_irreflexive(ps[0]);
            }
            assert(q2[j - 1] == qs[j]);
        }
        assert forall|j: int| 0 <= j < q2.len() implies p2.contains(#[trigger] q2[j]) by {
            assert(q2[j] == qs[j + 1]);
            assert(ps.contains(qs[j + 1]));
            let i = choose|i: int| 0 <= i < ps.len() && ps[i] == qs[j + 1];
            assert(path_lt(qs[0], qs[j + 1]));
            if i == 0 {
                lemma_path_lt_irreflexive(qs[0]);
            }
            assert(p2[i - 1] == ps[i]);
        }
        lemma_sorted_same_members(p2, q2);
        assert(ps =~= seq![ps[0]] + p2);
        assert(qs =~= seq![qs[0]] + q2);
    }
}

/// Every path of a split appears in every other split of the same sections.
proof fn lemma_split_paths_shared(secs: Seq<SectionModel>, depth: usize, f: Seq<(Seq<char>, Seq<char>)>, g: Seq<(Seq<char>, Seq<char>)>)
    requires
        is_split(secs, depth, f),
        is_split(secs, depth, g),
    ensures
        forall|k: int| 0 <= k < f.len() ==> paths_of(g).contains(#[trigger] paths_of(f)[k]),
{
    assert forall|k: int| 0 <= k < f.len() implies paths_of(g).contains(#[trigger] paths_of(f)[k]) by {
        assert(paths_of(f)[k] == f[k].0);
        assert(is_filed_path(secs, depth, secs.len() as int, f[k].0));
        let j = choose|j: int| 0 <= j < secs.len() && is_filed(#[trigger] secs[j]) && file_path_of(secs, depth, j) == f[k].0;
        let m = choose|m: int| 0 <= m < g.len() && (#[trigger] g[m]).0 == file_path_of(secs, depth, j);
        assert(paths_of(g)[m] == g[m].0);
    }
}

/// A split is determined by the sections and the depth: two lists that are
/// both how the sections split at `depth` are the same list.
pub proof fn law_split_is_unique(secs: Seq<SectionModel>, depth: usize, f: Seq<(Seq<char>, Seq<char>)>, g: Seq<(Seq<char>, Seq<char>)>)
    requires
        is_split(secs, depth, f),
        is_split(secs, depth, g),
    ensures
        f == g,
{
    lemma_split_paths_shared(secs, depth, f, g);
    lemma_split_paths_shared(secs, depth, g, f);
    let pf = paths_of(f);
    let pg = paths_of(g);
    assert forall|a: int, b: int| 0 <= a < b < pf.len() implies path_lt(#[trigger] pf[a], #[trigger] pf[b]) by {
        assert(path_lt(f[a].0, f[b].0));
    }
    assert forall|a: int, b: int| 0 <= a < b < pg.len() implies path_lt(#[trigger] pg[a], #[trigger] pg[b]) by {
        assert(path_lt(g[a].0, g[b].0));
    }
    lemma_sorted_same_members(pf, pg);
    assert forall|k: int| 0 <= k < f.len() implies f[k] == g[k] by {
        assert(pf[k] == pg[k]);
        assert(f[k].1 == file_content(secs, depth, f[k].0, secs.len() as int));
        assert(g[k].1 == file_content(secs, depth, g[k].0, secs.len() as int));
    }
    assert(f =~= g);
}

proof fn lemma_file_content_depth_zero(secs: Seq<SectionModel>, p: Seq<char>, n: int)
    ensures
        file_content(secs, 0, p, n) == file_content(secs, 1, p, n),
    decreases n,
{
    if n > 0 && n <= secs.len() {
        lemma_file_content_depth_zero(secs, p, n - 1);
        assert(file_path_of(secs, 0, n - 1) == file_path_of(secs, 1, n - 1));
    }
}

/// A split depth of 0 splits as depth 1 does: whatever is how the sections
/// split at depth 0 is how they split at depth 1, and the other way round.
pub proof fn law_depth_zero_splits_as_depth_one(secs: Seq<SectionModel>, files: Seq<(Seq<char>, Seq<char>)>)
    ensures
        is_split(secs, 0, files) == is_split(secs, 1, files),
        split_in_range(secs, 0) == split_in_range(secs, 1),
{
    assert forall|j: int| #![all_triggers] file_path_of(secs, 0, j) == file_path_of(secs, 1, j) by {}
    assert forall|p: Seq<char>| #![all_triggers] file_content(secs, 0, p, secs.len() as int) == file_content(secs, 1, p, secs.len() as int) by {
        lemma_file_content_depth_zero(secs, p, secs.len() as int);
    }
    assert forall|p: Seq<char>| #![all_triggers] is_filed_path(secs, 0, secs.len() as int, p) == is_filed_path(secs, 1, secs.len() as int, p) by {
        if is_filed_path(secs, 0, secs.len() as int, p) {
            let j = choose|j: int| 0 <= j < secs.len() && is_filed(#[trigger] secs[j]) && file_path_of(secs, 0, j) == p;
            assert(file_path_of(secs, 1, j) == p);
        }
        if is_filed_path(secs, 1, secs.len() as int, p) {
            let j = choose|j: int| 0 <= j < secs.len() && is_filed(#[trigger] secs[j]) && file_path_of(secs, 1, j) == p;
            assert(file_path_of(secs, 0, j) == p);
        }
    }
}

proof fn lemma_single_file_content(secs: Seq<SectionModel>, n: int)
    requires
        0 <= n <= secs.len(),
        secs.len() > 0,
        secs[0].level == 1,
        forall|i: int| 1 <= i < secs.len() ==> (#[trigger] secs[i]).level >= 2,
    ensures
        file_content(secs, 1, sanitized(secs[0].title) + ".md"@, n) == section_blocks(secs, n),
    decreases n,
{
    if n > 0 {
        lemma_single_file_content(secs, n - 1);
        law_depth_one_single_file(secs, n - 1);
    }
}

/// At split depth 1, a wiki whose first section is its only level-1 section
/// and whose other sections are all deeper splits into one file: named after
/// the root section, holding the rendered document without its title line.
pub proof fn law_depth_one_file_is_the_document(w: WikiModel)
    requires
        w.sections.len() > 0,
        w.sections[0].level == 1,
        forall|i: int| 1 <= i < w.sections.len() ==> (#[trigger] w.sections[i]).level >= 2,
    ensures
        is_split(w.sections, 1, seq![(sanitized(w.sections[0].title) + ".md"@, section_blocks(w.sections, w.sections.len() as int))]),
        markdown_text(w) == "# "@ + w.repo_slug + " (commit "@ + w.commit_sha + ")\n\n"@ + section_blocks(w.sections, w.sections.len() as int),
{
    let secs = w.sections;
    let p = sanitized(secs[0].title) + ".md"@;
    let f = seq![(p, section_blocks(secs, secs.len() as int))];
    lemma_single_file_content(secs, secs.len() as int);
    assert forall|j: int| 0 <= j < secs.len() && is_filed(#[trigger] secs[j]) implies exists|k: int|
        0 <= k < f.len() && (#[trigger] f[k]).0 == file_path_of(secs, 1, j) by {
        law_depth_one_single_file(secs, j);
        assert(f[0].0 == file_path_of(secs, 1, j));
    }
    law_depth_one_single_file(secs, 0);
    assert(is_filed_path(secs, 1, secs.len() as int, f[0].0));
}

/// The filed sections (level 1 or more) among the first `n`, in order.
pub open spec fn filed_prefix(secs: Seq<SectionModel>, n: int) -> Seq<SectionModel>
    decreases n,
{
    if n <= 0 || n > secs.len() {
        seq![]
    } else if is_filed(secs[n - 1]) {
        filed_prefix(secs, n - 1).push(secs[n - 1])
    } else {
        filed_prefix(secs, n - 1)
    }
}

/// The sections without those at level 0.
pub open spec fn without_level_zero(secs: Seq<SectionModel>) -> Seq<SectionModel> {
    filed_prefix(secs, secs.len() as int)
}

/// The remembered titles after `m` sections depend on those sections alone.
proof fn lemma_hierarchy_prefix(s: Seq<SectionModel>, t: Seq<SectionModel>, m: int)
    requires
        0 <= m <= s.len(),
        m <= t.len(),
        s.take(m) == t.take(m),
    ensures
        hierarchy_after(s, m) == hierarchy_after(t, m),
    decreases m,
{
    if m > 0 {
        assert(s[m - 1] == s.take(m)[m - 1]);
        assert(t[m - 1] == t.take(m)[m - 1]);
        assert(s.take(m - 1) =~= s.take(m).take(m - 1));
        assert(t.take(m - 1) =~= t.take(m).take(m - 1));
        lemma_hierarchy_prefix(s, t, m - 1);
    }
}

/// Earlier filed prefixes are prefixes of later ones.
proof fn lemma_filed_prefix_grows(secs: Seq<SectionModel>, n: int, big: int)
    requires
        0 <= n <= big <= secs.len(),
    ensures
        filed_prefix(secs, n).len() <= filed_prefix(secs, big).len(),
        filed_prefix(secs, big).take(filed_prefix(secs, n).len() as int) == filed_prefix(secs, n),
        filed_prefix(secs, n).len() <= n,
    decreases big - n,
{
    if big > n {
        lemma_filed_prefix_grows(secs, n, big - 1);
        let a = filed_prefix(secs, n);
        let b = filed_prefix(secs, big - 1);
        assert(b.take(a.len() as int) == a);
        if is_filed(secs[big - 1]) {
            assert(b.push(secs[big - 1]).take(a.len() as int) =~= b.take(a.len() as int));
        }
    } else {
        assert(filed_prefix(secs, n).take(filed_prefix(secs, n).len() as int) =~= filed_prefix(secs, n));
        lemma_filed_prefix_len(secs, n);
    }
}

proof fn lemma_filed_prefix_len(secs: Seq<SectionModel>, n: int)
    requires
        0 <= n <= secs.len(),
    ensures
        filed_prefix(secs, n).len() <= n,
        forall|i: int| 0 <= i < filed_prefix(secs, n).len() ==> is_filed(#[trigger] filed_prefix(secs, n)[i]),
    decreases n,
{
    if n > 0 {
        lemma_filed_prefix_len(secs, n - 1);
    }
}

/// Level-0 sections do not change the remembered titles.
proof fn lemma_hierarchy_without_level_zero(secs: Seq<SectionModel>, n: int)
    requires
        0 <= n <= secs.len(),
    ensures
        hierarchy_after(secs, n) == hierarchy_after(filed_prefix(secs, n), filed_prefix(secs, n).len() as int),
    decreases n,
{
    if n > 0 {
        lemma_hierarchy_without_level_zero(secs, n - 1);
        let k = filed_prefix(secs, n - 1);
        if is_filed(secs[n - 1]) {
            let k2 = k.push(secs[n - 1]);
            assert(k2.take(k.len() as int) =~= k.take(k.len() as int));
            lemma_hierarchy_prefix(k2, k, k.len() as int);
            assert(k2[k.len() as int] == secs[n - 1]);
        }
    }
}

/// Where a filed section goes is where it goes among the filed sections alone.
proof fn lemma_filed_section_path(secs: Seq<SectionModel>, depth: usize, j: int)
    requires
        0 <= j < secs.len(),
        is_filed(secs[j]),
    ensures
        ({
            let i = filed_prefix(secs, j).len() as int;
            let k = without_level_zero(secs);
            &&& 0 <= i < k.len()
            &&& k[i] == secs[j]
            &&& file_path_of(secs, depth, j) == file_path_of(k, depth, i)
        }),
{
    let k = without_level_zero(secs);
    let a = filed_prefix(secs, j + 1);
    let i = filed_prefix(secs, j).len() as int;
    lemma_filed_prefix_grows(secs, j + 1, secs.len() as int);
    assert(a == filed_prefix(secs, j).push(secs[j]));
    assert(k.take(i + 1) == a);
    assert(k[i] == a[i]);
    assert(k.take(i + 1) =~= a.take(i + 1));
    lemma_hierarchy_prefix(k, a, i + 1);
    lemma_hierarchy_without_level_zero(secs, j + 1);
}

/// Filed section `i` among the first `n` is one of the wiki's sections.
spec fn has_origin(secs: Seq<SectionModel>, n: int, i: int) -> bool {
    exists|j: int| 0 <= j < n && is_filed(#[trigger] secs[j]) && filed_prefix(secs, j).len() == i
}

/// Every filed section stands for one section of the wiki.
proof fn lemma_filed_prefix_origin(secs: Seq<SectionModel>, n: int)
    requires
        0 <= n <= secs.len(),
    ensures
        forall|i: int| 0 <= i < filed_prefix(secs, n).len() ==> #[trigger] has_origin(secs, n, i),
    decreases n,
{
    if n > 0 {
        lemma_filed_prefix_origin(secs, n - 1);
        assert forall|i: int| 0 <= i < filed_prefix(secs, n).len() implies #[trigger] has_origin(secs, n, i) by {
            if i < filed_prefix(secs, n - 1).len() {
                assert(has_origin(secs, n - 1, i));
                let j = choose|j: int| 0 <= j < n - 1 && is_filed(#[trigger] secs[j]) && filed_prefix(secs, j).len() == i;
                assert(0 <= j < n && is_filed(secs[j]) && filed_prefix(secs, j).len() == i);
            } else {
                assert(is_filed(secs[n - 1]));
                assert(filed_prefix(secs, n - 1).len() == i);
            }
        }
    }
}

proof fn lemma_file_content_without_level_zero(secs: Seq<SectionModel>, depth: usize, p: Seq<char>, n: int)
    requires
        0 <= n <= secs.len(),
    ensures
        file_content(secs, depth, p, n) == file_content(without_level_zero(secs), depth, p, filed_prefix(secs, n).len() as int),
    decreases n,
{
    lemma_filed_prefix_grows(secs, n, secs.len() as int);
    if n > 0 {
        lemma_file_content_without_level_zero(secs, depth, p, n - 1);
        lemma_filed_prefix_grows(secs, n - 1, secs.len() as int);
        if is_filed(secs[n - 1]) {
            lemma_filed_section_path(secs, depth, n - 1);
        }
    }
}

/// Level-0 sections change nothing in a split: whatever is how the sections
/// split at `depth` is how they split with the level-0 sections removed, and
/// the other way round.
pub proof fn law_level_zero_sections_ignored(secs: Seq<SectionModel>, depth: usize, files: Seq<(Seq<char>, Seq<char>)>)
    ensures
        is_split(secs, depth, files) == is_split(without_level_zero(secs), depth, files),
{
    let k = without_level_zero(secs);
    lemma_filed_prefix_len(secs, secs.len() as int);
    lemma_filed_prefix_origin(secs, secs.len() as int);
    assert forall|p: Seq<char>| #![all_triggers] file_content(secs, depth, p, secs.len() as int) == file_content(k, depth, p, k.len() as int) by {
        lemma_file_content_without_level_zero(secs, depth, p, secs.len() as int);
    }
    assert forall|p: Seq<char>| #![all_triggers] is_filed_path(secs, depth, secs.len() as int, p) == is_filed_path(k, depth, k.len() as int, p) by {
        if is_filed_path(secs, depth, secs.len() as int, p) {
            let j = choose|j: int| 0 <= j < secs.len() && is_filed(#[trigger] secs[j]) && file_path_of(secs, depth, j) == p;
            lemma_filed_section_path(secs, depth, j);
            let i = filed_prefix(secs, j).len() as int;
            assert(is_filed(k[i]) && file_path_of(k, depth, i) == p);
        }
        if is_filed_path(k, depth, k.len() as int, p) {
            let i = choose|i: int| 0 <= i < k.len() && is_filed(#[trigger] k[i]) && file_path_of(k, depth, i) == p;
            assert(has_origin(secs, secs.len() as int, i));
            let j = choose|j: int| 0 <= j < secs.len() && is_filed(#[trigger] secs[j]) && filed_prefix(secs, j).len() == i;
            lemma_filed_section_path(secs, depth, j);
            assert(file_path_of(secs, depth, j) == p);
        }
    }
    if is_split(secs, depth, files) {
        assert forall|i: int| 0 <= i < k.len() && is_filed(#[trigger] k[i]) implies exists|m: int|
            0 <= m < files.len() && (#[trigger] files[m]).0 == file_path_of(k, depth, i) by {
            assert(has_origin(secs, secs.len() as int, i));
            let j = choose|j: int| 0 <= j < secs.len() && is_filed(#[trigger] secs[j]) && filed_prefix(secs, j).len() == i;
            lemma_filed_section_path(secs, depth, j);
        }
    }
    if is_split(k, depth, files) {
        assert forall|j: int| 0 <= j < secs.len() && is_filed(#[trigger] secs[j]) implies exists|m: int|
            0 <= m < files.len() && (#[trigger] files[m]).0 == file_path_of(secs, depth, j) by {
            lemma_filed_section_path(secs, depth, j);
            let i = filed_prefix(secs, j).len() as int;
            assert(is_filed(k[i]));
        }
    }
}

/// A section at or below the split depth `d` (2 or more) is filed exactly
/// `d - 2` directories deep: one directory for each ancestor level from 2 to
/// `d - 1`.
pub proof fn law_deep_sections_nest_to_depth(secs: Seq<SectionModel>, depth: usize, j: int)
    requires
        0 <= j < secs.len(),
        split_in_range(secs, depth),
        effective_depth(depth) >= 2,
        secs[j].level as int >= effective_depth(depth),
    ensures
        slash_count(file_path_of(secs, depth, j)) == effective_depth(depth) - 2,
{
    reveal_strlit("section");
    reveal_strlit(".md");
    let d = effective_depth(depth);
    assert(is_filed(secs[j]));
    assert(d < 16);
    let h = hierarchy_after(secs, j + 1);
    lemma_hierarchy_no_slash(secs, j + 1);
    let c = path_components(h, secs[j].level as int, d);
    assert(no_slash("section"@));
    assert(no_slash(".md"@));
    assert forall|i: int| 0 <= i < c.len() implies no_slash(#[trigger] c[i]) by {
        if i < d - 2 {
            assert(c[i] == segment(h[i + 2]));
        } else {
            lemma_concat_no_slash(segment(h[d]), ".md"@);
        }
    }
    lemma_join_slashes(c);
}

/// A section below the split depth `d` (3 or more) is filed in the folder of
/// its parent: when the nearest earlier section of level `d - 1` or less is at
/// level `d - 1`, that section is filed as `README.md` in some folder, and the
/// deeper section's file, a name without `/`, sits in the same folder.
pub proof fn law_deep_section_in_parent_folder(secs: Seq<SectionModel>, depth: usize, k: int, j: int)
    requires
        0 <= k < j < secs.len(),
        3 <= effective_depth(depth) < 16,
        secs[k].level as int == effective_depth(depth) - 1,
        secs[j].level as int >= effective_depth(depth),
        forall|i: int| k < i < j ==> (#[trigger] secs[i]).level as int >= effective_depth(depth),
    ensures
        ({
            let pk = file_path_of(secs, depth, k);
            let pj = file_path_of(secs, depth, j);
            &&& pk.len() >= 9
            &&& pk.skip(pk.len() - 9) == "README.md"@
            &&& pj.len() > pk.len() - 9
            &&& pj.take(pk.len() - 9) == pk.take(pk.len() - 9)
            &&& no_slash(pj.skip(pk.len() - 9))
        }),
{
    reveal_strlit("README.md");
    reveal_strlit(".md");
    reveal_strlit("section");
    let d = effective_depth(depth);
    let hk = hierarchy_after(secs, k + 1);
    let hj = hierarchy_after(secs, j + 1);
    lemma_hierarchy_len(secs, k + 1);
    lemma_hierarchy_len(secs, j + 1);
    lemma_hierarchy_keeps_upper_levels(secs, d - 1, k + 1, j + 1);
    lemma_hierarchy_no_slash(secs, j + 1);
    let dirs = Seq::new((d - 2) as nat, |m: int| segment(hj[m + 2]));
    let dk = Seq::new((d - 2) as nat, |m: int| segment(hk[m + 2]));
    assert(dirs =~= dk);
    let leaf = segment(hj[d]) + ".md"@;
    let ck = path_components(hk, d - 1, d);
    let cj = path_components(hj, secs[j].level as int, d);
    assert(ck =~= dirs.push("README.md"@));
    assert(cj =~= dirs.push(leaf));
    assert(ck.drop_last() =~= dirs);
    assert(cj.drop_last() =~= dirs);
    let jd = join_path(dirs);
    assert(join_path(ck) == jd + seq!['/'] + "README.md"@);
    assert(join_path(cj) == jd + seq!['/'] + leaf);
    let pk = file_path_of(secs, depth, k);
    let pj = file_path_of(secs, depth, j);
    assert(pk == jd + seq!['/'] + "README.md"@);
    assert(pj == jd + seq!['/'] + leaf);
    assert(no_slash("section"@));
    assert(no_slash(".md"@));
    lemma_concat_no_slash(segment(hj[d]), ".md"@);
    assert(pk.skip(pk.len() - 9) =~= "README.md"@);
    assert(pj.take(pk.len() - 9) =~= jd + seq!['/']);
    assert(pk.take(pk.len() - 9) =~= jd + seq!['/']);
    assert(pj.skip(pk.len() - 9) =~= leaf);
}

/// A section above the split depth gets a `README.md` of its own: at level 1
/// it is the top `README.md`; at a level `L` from 2 on it is
/// `<its sanitized title>/README.md`, `L - 2` folders further down (in the
/// folders of its ancestors).
pub proof fn law_shallow_sections_are_readmes(secs: Seq<SectionModel>, depth: usize, j: int)
    requires
        0 <= j < secs.len(),
        split_in_range(secs, depth),
        1 <= secs[j].level as int,
        (secs[j].level as int) < effective_depth(depth),
    ensures
        secs[j].level == 1 ==> file_path_of(secs, depth, j) == "README.md"@,
        secs[j].level >= 2 ==> ({
            let p = file_path_of(secs, depth, j);
            let tail = sanitized(secs[j].title) + "/README.md"@;
            &&& p.len() >= tail.len()
            &&& p.skip(p.len() - tail.len()) == tail
            &&& slash_count(p) == secs[j].level - 1
        }),
{
    reveal_strlit("README.md");
    reveal_strlit("/README.md");
    reveal_strlit("section");
    let d = effective_depth(depth);
    let l = secs[j].level as int;
    assert(is_filed(secs[j]));
    assert(l < 16);
    let h = hierarchy_after(secs, j + 1);
    lemma_hierarchy_no_slash(secs, j + 1);
    if l >= 2 {
        let t = sanitized(secs[j].title);
        law_sanitized_is_safe_name(secs[j].title);
        assert(h[l] == t);
        let dirs = Seq::new((l - 1) as nat, |k: int| segment(h[k + 2]));
        let c = path_components(h, l, d);
        assert(c =~= dirs.push("README.md"@));
        assert(c.drop_last() =~= dirs);
        assert(dirs.last() == t);
        let jd = join_path(dirs);
        let p = file_path_of(secs, depth, j);
        assert(p == jd + seq!['/'] + "README.md"@);
        if dirs.len() == 1 {
            assert(jd == t);
        } else {
            assert(jd == join_path(dirs.drop_last()) + seq!['/'] + t);
        }
        assert(jd.skip(jd.len() - t.len()) =~= t);
        assert(p.skip(p.len() - (t + "/README.md"@).len()) =~= t + "/README.md"@);
        assert(no_slash("README.md"@));
        assert(no_slash("section"@));
        assert forall|i: int| 0 <= i < c.len() implies no_slash(#[trigger] c[i]) by {
            if i < l - 1 {
                assert(c[i] == segment(h[i + 2]));
            }
        }
        lemma_join_slashes(c);
    }
}

}
