//! Turning the repository-relative link targets of Code Wiki markdown into GitHub URLs.
use vstd::prelude::*;
use crate::encoding::{hex_upper, hex_value, is_unreserved, law_url_decode_inverts_encode, percent_decode, percent_encode, url_decode, url_decoded, url_encoded};
use vstd::utf8::{encode_scalar, encode_utf8, encode_utf8_decode_utf8, encode_utf8_valid_utf8};
use crate::text::{append_chars, append_str, chars_of, has_prefix, starts_with, string_from_chars};

verus! {

/// The first index at or after `from` where `](` starts.
pub open spec fn find_open(s: Seq<char>, from: int) -> Option<int>
    decreases s.len() - from,
{
    if from < 0 || from + 1 >= s.len() {
        None
    } else if s[from] == ']' && s[from + 1] == '(' {
        Some(from)
    } else {
        find_open(s, from + 1)
    }
}

/// The index of the `)` that closes a link target starting at `i`, with `depth`
/// parentheses already open: the first `)` met when no parenthesis is open.
pub open spec fn link_end_from(s: Seq<char>, i: int, depth: nat) -> Option<int>
    decreases s.len() - i,
{
    if i < 0 || i >= s.len() {
        None
    } else if s[i] == '(' {
        link_end_from(s, i + 1, depth + 1)
    } else if s[i] == ')' {
        if depth == 0 {
            Some(i)
        } else {
            link_end_from(s, i + 1, (depth - 1) as nat)
        }
    } else {
        link_end_from(s, i + 1, depth)
    }
}

/// A link target that names a path in the repository: it starts with `%2F`, `%2f` or `/`.
pub open spec fn is_repo_target(t: Seq<char>) -> bool {
    has_prefix(t, "%2F"@) || has_prefix(t, "%2f"@) || has_prefix(t, "/"@)
}

/// A link target as it is printed: a repository path is percent-decoded (kept as
/// it is when it does not decode) and, when it then starts with `/`, prefixed
/// with `https://github.com`; any other target is kept.
pub open spec fn rewritten_target(t: Seq<char>) -> Seq<char> {
    if !is_repo_target(t) {
        t
    } else {
        let d = match url_decoded(t) {
            Some(x) => x,
            None => t,
        };
        if has_prefix(d, "/"@) { "https://github.com"@ + d } else { d }
    }
}

/// The text from `pos` on with every link target rewritten: at each `](`, the
/// target runs to its closing `)`; a `](` without one is copied and the scan
/// goes on right after it.
pub open spec fn resolved_from(s: Seq<char>, pos: int) -> Seq<char>
    decreases s.len() - pos,
{
    if pos < 0 || pos > s.len() {
        seq![]
    } else {
        match find_open(s, pos) {
            None => s.skip(pos),
            Some(open) => if pos <= open && open + 2 <= s.len() {
                let a = open + 2;
                match link_end_from(s, a, 0) {
                    Some(end) => if a <= end < s.len() {
                        s.subrange(pos, open) + "]("@ + rewritten_target(s.subrange(a, end)) + ")"@
                            + resolved_from(s, end + 1)
                    } else {
                        s.skip(pos)
                    },
                    None => s.subrange(pos, open) + "]("@ + resolved_from(s, a),
                }
            } else {
                s.skip(pos)
            },
        }
    }
}

/// The markdown with every repository link target rewritten.
pub open spec fn resolved(s: Seq<char>) -> Seq<char> {
    resolved_from(s, 0)
}

proof fn lemma_find_open_range(s: Seq<char>, from: int)
    ensures
        find_open(s, from) matches Some(i) ==> from <= i && i + 2 <= s.len() && s[i] == ']' && s[i + 1] == '(',
        find_open(s, from) is None ==> forall|j: int| 0 <= from <= j && j + 1 < s.len() ==> !(#[trigger] s[j] == ']' && s[j + 1] == '('),
    decreases s.len() - from,
{
    if !(from < 0 || from + 1 >= s.len()) && !(s[from] == ']' && s[from + 1] == '(') {
        lemma_find_open_range(s, from + 1);
    }
}

proof fn lemma_link_end_range(s: Seq<char>, i: int, depth: nat)
    ensures
        link_end_from(s, i, depth) matches Some(e) ==> i <= e < s.len() && s[e] == ')',
    decreases s.len() - i,
{
    if !(i < 0 || i >= s.len()) {
        if s[i] == '(' {
            lemma_link_end_range(s, i + 1, depth + 1);
        } else if s[i] == ')' {
            if depth != 0 {
                lemma_link_end_range(s, i + 1, (depth - 1) as nat);
            }
        } else {
            lemma_link_end_range(s, i + 1, depth);
        }
    }
}

/// The first index at or after `from` where `](` starts.
fn find_open_at(s: &[char], from: usize) -> (r: Option<usize>)
    requires
        from <= s.len(),
    ensures
        match r {
            Some(i) => find_open(s@, from as int) == Some(i as int),
            None => find_open(s@, from as int) is None,
        },
{
    let mut i = from;
    while s.len() - i >= 2
        invariant
            from <= i <= s.len(),
            find_open(s@, i as int) == find_open(s@, from as int),
        decreases s.len() - i,
    {
        if s[i] == ']' && s[i + 1] == '(' {
            return Some(i);
        }
        i = i + 1;
    }
    None
}

/// The index of the `)` that ends a link target starting at `from`; nested
/// parentheses inside the target are skipped.
fn find_link_end(s: &[char], from: usize) -> (r: Option<usize>)
    requires
        from <= s.len(),
    ensures
        match r {
            Some(e) => link_end_from(s@, from as int, 0) == Some(e as int),
            None => link_end_from(s@, from as int, 0) is None,
        },
{
    let mut depth: usize = 0;
    let mut i = from;
    while i < s.len()
        invariant
            from <= i <= s.len(),
            depth <= i - from,
            link_end_from(s@, i as int, depth as nat) == link_end_from(s@, from as int, 0),
        decreases s.len() - i,
    {
        let c = s[i];
        if c == '(' {
            depth = depth + 1;
        } else if c == ')' {
            if depth == 0 {
                return Some(i);
            }
            depth = depth - 1;
        }
        i = i + 1;
    }
    None
}

/// A link target as it is printed (see `rewritten_target`).
fn rewrite_target_chars(target: &[char]) -> (r: Vec<char>)
    ensures
        r@ == rewritten_target(target@),
{
    let p1 = chars_of("%2F");
    let p2 = chars_of("%2f");
    let p3 = chars_of("/");
    if !(starts_with(target, p1.as_slice()) || starts_with(target, p2.as_slice()) || starts_with(
        target,
        p3.as_slice(),
    )) {
        let mut r: Vec<char> = Vec::new();
        append_chars(&mut r, target);
        assert(r@ =~= target@);
        return r;
    }
    let text = string_from_chars(target);
    let decoded = match url_decode(text.as_str()) {
        Some(d) => chars_of(d.as_str()),
        None => {
            let mut r: Vec<char> = Vec::new();
            append_chars(&mut r, target);
            r
        },
    };
    assert(decoded@ =~= (match url_decoded(target@) { Some(x) => x, None => target@ }));
    if starts_with(decoded.as_slice(), p3.as_slice()) {
        let mut r: Vec<char> = Vec::new();
        append_str(&mut r, "https://github.com");
        append_chars(&mut r, decoded.as_slice());
        r
    } else {
        decoded
    }
}

/// A link target as it is printed: a repository path (`%2F...`, `%2f...`,
/// `/...`) is percent-decoded and made a GitHub URL; any other target is kept.
pub fn rewrite_target(target: &str) -> (r: String)
    ensures
        r@ == rewritten_target(target@),
{
    let t = chars_of(target);
    let r = rewrite_target_chars(t.as_slice());
    string_from_chars(r.as_slice())
}

/// Rewrites the repository link targets of Code Wiki markdown
/// (`[x](%2Fowner%2Frepo%2Fpath)`) into GitHub URLs
/// (`[x](https://github.com/owner/repo/path)`); everything else is copied.
pub fn resolve_links(markdown: &str) -> (r: String)
    ensures
        r@ == resolved(markdown@),
{
    let s = chars_of(markdown);
    let open_close = chars_of("](");
    let close = chars_of(")");
    let mut out: Vec<char> = Vec::new();
    let mut pos: usize = 0;
    loop
        invariant
            pos <= s.len(),
            s@ == markdown@,
            resolved(s@) == out@ + resolved_from(s@, pos as int),
            open_close@ == "]("@,
            close@ == ")"@,
        decreases s.len() - pos,
    {
        let ghost before = out@;
        let ghost p0 = pos as int;
        proof {
            lemma_find_open_range(s@, pos as int);
        }
        match find_open_at(s.as_slice(), pos) {
            None => {
                let mut i = pos;
                while i < s.len()
                    invariant
                        pos <= i <= s.len(),
                        out@ == before + s@.subrange(pos as int, i as int),
                    decreases s.len() - i,
                {
                    out.push(s[i]);
                    i = i + 1;
                    assert(out@ =~= before + s@.subrange(pos as int, i as int));
                }
                assert(s@.subrange(pos as int, s.len() as int) =~= s@.skip(pos as int));
                assert(resolved_from(s@, pos as int) == s@.skip(pos as int));
                let r = string_from_chars(out.as_slice());
                return r;
            },
            Some(open) => {
                let mut i = pos;
                while i < open
                    invariant
                        pos <= i <= open,
                        open < s.len(),
                        out@ == before + s@.subrange(pos as int, i as int),
                    decreases open - i,
                {
                    out.push(s[i]);
                    i = i + 1;
                    assert(out@ =~= before + s@.subrange(pos as int, i as int));
                }
                let a = open + 2;
                proof {
                    lemma_link_end_range(s@, a as int, 0);
                }
                append_chars(&mut out, open_close.as_slice());
                match find_link_end(s.as_slice(), a) {
                    Some(end) => {
                        let mut target: Vec<char> = Vec::new();
                        let mut k = a;
                        while k < end
                            invariant
                                a <= k <= end,
                                end < s.len(),
                                target@ == s@.subrange(a as int, k as int),
                            decreases end - k,
                        {
                            target.push(s[k]);
                            k = k + 1;
                            assert(target@ =~= s@.subrange(a as int, k as int));
                        }
                        let t = rewrite_target_chars(target.as_slice());
                        append_chars(&mut out, t.as_slice());
                        append_chars(&mut out, close.as_slice());
                        pos = end + 1;
                    },
                    None => {
                        pos = a;
                    },
                }
                assert(out@ + resolved_from(s@, pos as int) =~= before + resolved_from(s@, p0));
            },
        }
    }
}


/// Every `](` of `s` is followed by a target that is not a repository path.
pub open spec fn links_all_external(s: Seq<char>) -> bool {
    forall|i: int|
        0 <= i && i + 1 < s.len() && #[trigger] s[i] == ']' && s[i + 1] == '(' ==> !is_repo_target(s.skip(i + 2))
}

proof fn lemma_prefix_of_target(s: Seq<char>, a: int, end: int, p: Seq<char>)
    requires
        0 <= a <= end <= s.len(),
        has_prefix(s.subrange(a, end), p),
    ensures
        has_prefix(s.skip(a), p),
{
    assert(s.skip(a).take(p.len() as int) =~= s.subrange(a, end).take(p.len() as int));
}

proof fn lemma_resolved_from_identity(s: Seq<char>, pos: int)
    requires
        0 <= pos <= s.len(),
        links_all_external(s),
    ensures
        resolved_from(s, pos) == s.skip(pos),
    decreases s.len() - pos,
{
    reveal_strlit("](");
    reveal_strlit(")");
    lemma_find_open_range(s, pos);
    match find_open(s, pos) {
        None => {},
        Some(open) => {
            let a = open + 2;
            lemma_link_end_range(s, a, 0);
            match link_end_from(s, a, 0) {
                Some(end) => {
                    let t = s.subrange(a, end);
                    if is_repo_target(t) {
                        if has_prefix(t, "%2F"@) {
                            lemma_prefix_of_target(s, a, end, "%2F"@);
                        } else if has_prefix(t, "%2f"@) {
                            lemma_prefix_of_target(s, a, end, "%2f"@);
                        } else {
                            lemma_prefix_of_target(s, a, end, "/"@);
                        }
                        assert(s[open] == ']');
                        assert(false);
                    }
                    lemma_resolved_from_identity(s, end + 1);
                    assert(s.subrange(pos, open) + "]("@ + t + ")"@ + s.skip(end + 1) =~= s.skip(pos));
                },
                None => {
                    lemma_resolved_from_identity(s, a);
                    assert(s.subrange(pos, open) + "]("@ + s.skip(a) =~= s.skip(pos));
                },
            }
        },
    }
}

/// Links that do not point into the repository are never touched: markdown
/// in which no `](` is followed by `%2F`, `%2f` or `/` comes out of
/// `resolve_links` unchanged.
pub proof fn law_external_links_untouched(s: Seq<char>)
    requires
        links_all_external(s),
    ensures
        resolved(s) == s,
{
    lemma_resolved_from_identity(s, 0);
    assert(s.skip(0) =~= s);
}

/// A repository path written the way Code Wiki writes link targets
/// (percent-encoded, so `/owner/repo/path` reads `%2Fowner%2Frepo%2Fpath`) is
/// printed as the GitHub URL of that path: for every path `p` that starts with
/// `/`, the target `urlencoding::encode(p)` becomes `https://github.com` + `p`.
pub proof fn law_encoded_repo_path_resolves(p: Seq<char>)
    requires
        p.len() > 0,
        p[0] == '/',
    ensures
        rewritten_target(url_encoded(p)) == "https://github.com"@ + p,
{
    reveal_strlit("%2F");
    reveal_strlit("/");
    let bytes = encode_utf8(p);
    assert(('/' as u32) == 47u32);
    assert(((47u32 & 0x7F) as u8) == 47u8) by (bit_vector);
    assert(encode_scalar('/' as u32) =~= seq![47u8]);
    assert(bytes =~= seq![47u8] + encode_utf8(p.drop_first()));
    let enc = percent_encode(bytes);
    assert(bytes[0] == 47u8);
    assert(!is_unreserved(47u8));
    assert(enc =~= seq![37u8, hex_upper(2u8), hex_upper(15u8)] + percent_encode(bytes.drop_first()));
    let e = url_encoded(p);
    assert(e[0] == '%' && e[1] == '2' && e[2] == 'F');
    assert(e.take(3) =~= "%2F"@);
    assert(has_prefix(e, "%2F"@));
    law_url_decode_inverts_encode(p);
    assert(p.take(1) =~= "/"@);
}

/// `o` with `k` added to the index it holds.
pub open spec fn shifted(o: Option<int>, k: int) -> Option<int> {
    match o {
        Some(x) => Some(x + k),
        None => None,
    }
}

proof fn lemma_find_open_shift(s: Seq<char>, pos: int, i: int)
    requires
        0 <= pos <= s.len(),
        0 <= i,
    ensures
        find_open(s, pos + i) == shifted(find_open(s.skip(pos), i), pos),
    decreases s.len() - pos - i,
{
    let t = s.skip(pos);
    if !(pos + i + 1 >= s.len()) {
        assert(t[i] == s[pos + i] && t[i + 1] == s[pos + i + 1]);
        if !(s[pos + i] == ']' && s[pos + i + 1] == '(') {
            lemma_find_open_shift(s, pos, i + 1);
        }
    }
}

proof fn lemma_link_end_shift(s: Seq<char>, pos: int, i: int, d: nat)
    requires
        0 <= pos <= s.len(),
        0 <= i,
    ensures
        link_end_from(s, pos + i, d) == shifted(link_end_from(s.skip(pos), i, d), pos),
    decreases s.len() - pos - i,
{
    let t = s.skip(pos);
    if pos + i < s.len() {
        assert(t[i] == s[pos + i]);
        if s[pos + i] == '(' {
            lemma_link_end_shift(s, pos, i + 1, d + 1);
        } else if s[pos + i] == ')' {
            if d != 0 {
                lemma_link_end_shift(s, pos, i + 1, (d - 1) as nat);
            }
        } else {
            lemma_link_end_shift(s, pos, i + 1, d);
        }
    }
}

/// Resolving from `pos + i` is resolving the text from `pos` on, from `i`.
proof fn lemma_resolved_shift(s: Seq<char>, pos: int, i: int)
    requires
        0 <= pos <= s.len(),
        0 <= i <= s.len() - pos,
    ensures
        resolved_from(s, pos + i) == resolved_from(s.skip(pos), i),
    decreases s.len() - pos - i,
{
    let t = s.skip(pos);
    lemma_find_open_shift(s, pos, i);
    lemma_find_open_range(t, i);
    match find_open(t, i) {
        None => {
            assert(s.skip(pos + i) =~= t.skip(i));
        },
        Some(o) => {
            let a = o + 2;
            lemma_link_end_shift(s, pos, a, 0);
            lemma_link_end_range(t, a, 0);
            match link_end_from(t, a, 0) {
                Some(end) => {
                    lemma_resolved_shift(s, pos, end + 1);
                    assert(s.subrange(pos + i, pos + o) =~= t.subrange(i, o));
                    assert(s.subrange(pos + a, pos + end) =~= t.subrange(a, end));
                },
                None => {
                    lemma_resolved_shift(s, pos, a);
                    assert(s.subrange(pos + i, pos + o) =~= t.subrange(i, o));
                },
            }
        },
    }
}

/// Every `%` of `t` begins `%2F` or `%2f`: the only escapes are escaped slashes.
pub open spec fn only_slash_escapes(t: Seq<char>) -> bool {
    forall|i: int|
        0 <= i < t.len() && #[trigger] t[i] == '%' ==> i + 2 < t.len() && t[i + 1] == '2' && (t[i + 2] == 'F' || t[i + 2] == 'f')
}

/// `t` with each escaped slash (`%2F`, `%2f`) read as `/`.
pub open spec fn slash_unescaped(t: Seq<char>) -> Seq<char>
    decreases t.len(),
{
    if t.len() == 0 {
        seq![]
    } else if t[0] == '%' && t.len() >= 3 {
        seq!['/'] + slash_unescaped(t.skip(3))
    } else {
        seq![t[0]] + slash_unescaped(t.drop_first())
    }
}

proof fn lemma_encode_utf8_cons(c: char, x: Seq<char>)
    ensures
        encode_utf8(seq![c] + x) == encode_scalar(c as u32) + encode_utf8(x),
{
    let y = seq![c] + x;
    assert(y[0] == c);
    assert(y.drop_first() =~= x);
}

proof fn lemma_ascii_scalar(c: char, b: u8)
    requires
        (c as u32) == b as u32,
        b < 128,
    ensures
        encode_scalar(c as u32) == seq![b],
{
    let v = c as u32;
    assert(((v & 0x7F) as u8) == b) by (bit_vector)
        requires
            v == b as u32,
            b < 128u8;
    assert(encode_scalar(v) =~= seq![b]);
}

/// No byte of the UTF-8 encoding of a character other than `%` is `%`.
proof fn lemma_scalar_has_no_percent(c: char)
    requires
        c != '%',
    ensures
        forall|i: int| 0 <= i < encode_scalar(c as u32).len() ==> #[trigger] encode_scalar(c as u32)[i] != 37u8,
{
    let v = c as u32;
    if v <= 0x7F {
        assert(v != 37);
        assert(((v & 0x7F) as u8) != 37u8) by (bit_vector)
            requires
                v <= 0x7F,
                v != 37;
    } else {
        let y2 = ((v >> 6) & 0x1F) as u8;
        let y3 = ((v >> 12) & 0x0F) as u8;
        let y4 = ((v >> 18) & 0x7) as u8;
        let z1 = (v & 0x3F) as u8;
        let z2 = ((v >> 6) & 0x3F) as u8;
        let z3 = ((v >> 12) & 0x3F) as u8;
        assert((0xC0u8 | y2) != 37u8) by (bit_vector);
        assert((0xE0u8 | y3) != 37u8) by (bit_vector);
        assert((0xF0u8 | y4) != 37u8) by (bit_vector);
        assert((0x80u8 | z1) != 37u8) by (bit_vector);
        assert((0x80u8 | z2) != 37u8) by (bit_vector);
        assert((0x80u8 | z3) != 37u8) by (bit_vector);
    }
}

proof fn lemma_percent_decode_plain(a: Seq<u8>, b: Seq<u8>)
    requires
        forall|i: int| 0 <= i < a.len() ==> #[trigger] a[i] != 37u8,
    ensures
        percent_decode(a + b) == a + percent_decode(b),
    decreases a.len(),
{
    if a.len() > 0 {
        assert((a + b)[0] == a[0]);
        assert((a + b).drop_first() =~= a.drop_first() + b);
        lemma_percent_decode_plain(a.drop_first(), b);
        assert(a =~= seq![a[0]] + a.drop_first());
    } else {
        assert(a + b =~= b);
    }
}

proof fn lemma_slash_unescape_bytes(t: Seq<char>)
    requires
        only_slash_escapes(t),
    ensures
        percent_decode(encode_utf8(t)) == encode_utf8(slash_unescaped(t)),
    decreases t.len(),
{
    if t.len() > 0 {
        if t[0] == '%' {
            assert(t[1] == '2' && (t[2] == 'F' || t[2] == 'f'));
            let r = t.skip(3);
            assert forall|i: int| 0 <= i < r.len() && #[trigger] r[i] == '%' implies i + 2 < r.len() && r[i + 1] == '2' && (r[i + 2] == 'F' || r[i + 2] == 'f') by {
                assert(t[i + 3] == '%');
            }
            lemma_slash_unescape_bytes(r);
            lemma_ascii_scalar('%', 37u8);
            lemma_ascii_scalar('2', 50u8);
            lemma_ascii_scalar('/', 47u8);
            let f = t[2];
            let fb: u8 = if f == 'F' { 70u8 } else { 102u8 };
            lemma_ascii_scalar(f, fb);
            assert(t =~= seq![t[0]] + (seq![t[1]] + (seq![t[2]] + r)));
            lemma_encode_utf8_cons(t[2], r);
            lemma_encode_utf8_cons(t[1], seq![t[2]] + r);
            lemma_encode_utf8_cons(t[0], seq![t[1]] + (seq![t[2]] + r));
            let bytes = encode_utf8(t);
            assert(bytes =~= seq![37u8, 50u8, fb] + encode_utf8(r));
            assert(bytes.skip(3) =~= encode_utf8(r));
            assert(hex_value(50u8) == Some(2u8));
            assert(hex_value(fb) == Some(15u8));
            assert(percent_decode(bytes) == seq![47u8] + percent_decode(encode_utf8(r)));
            lemma_encode_utf8_cons('/', slash_unescaped(r));
        } else {
            let r = t.drop_first();
            assert forall|i: int| 0 <= i < r.len() && #[trigger] r[i] == '%' implies i + 2 < r.len() && r[i + 1] == '2' && (r[i + 2] == 'F' || r[i + 2] == 'f') by {
                assert(t[i + 1] == '%');
            }
            lemma_slash_unescape_bytes(r);
            lemma_scalar_has_no_percent(t[0]);
            assert(t =~= seq![t[0]] + r);
            lemma_encode_utf8_cons(t[0], r);
            lemma_percent_decode_plain(encode_scalar(t[0] as u32), encode_utf8(r));
            lemma_encode_utf8_cons(t[0], slash_unescaped(r));
        }
    }
}

/// A text whose only escapes are escaped slashes decodes to itself with them
/// read as `/`.
proof fn lemma_slash_unescape_decodes(t: Seq<char>)
    requires
        only_slash_escapes(t),
    ensures
        url_decoded(t) == Some(slash_unescaped(t)),
{
    lemma_slash_unescape_bytes(t);
    encode_utf8_valid_utf8(slash_unescaped(t));
    encode_utf8_decode_utf8(slash_unescaped(t));
}

/// Walking `t` from parenthesis depth `d`: the depth at its end, or `None`
/// when a `)` is met at depth 0.
pub open spec fn paren_walk(t: Seq<char>, d: nat) -> Option<nat>
    decreases t.len(),
{
    if t.len() == 0 {
        Some(d)
    } else if t[0] == '(' {
        paren_walk(t.drop_first(), d + 1)
    } else if t[0] == ')' {
        if d == 0 { None } else { paren_walk(t.drop_first(), (d - 1) as nat) }
    } else {
        paren_walk(t.drop_first(), d)
    }
}

/// The parentheses of `t`, in order.
pub open spec fn parens_of(t: Seq<char>) -> Seq<char>
    decreases t.len(),
{
    if t.len() == 0 {
        seq![]
    } else {
        (if t[0] == '(' || t[0] == ')' { seq![t[0]] } else { seq![] }) + parens_of(t.drop_first())
    }
}

proof fn lemma_walk_parens(t: Seq<char>, d: nat)
    ensures
        paren_walk(t, d) == paren_walk(parens_of(t), d),
    decreases t.len(),
{
    if t.len() > 0 {
        let p = parens_of(t);
        if t[0] == '(' || t[0] == ')' {
            assert(p[0] == t[0]);
            assert(p.drop_first() =~= parens_of(t.drop_first()));
            if t[0] == '(' {
                lemma_walk_parens(t.drop_first(), d + 1);
            } else if d > 0 {
                lemma_walk_parens(t.drop_first(), (d - 1) as nat);
            }
        } else {
            assert(p =~= parens_of(t.drop_first()));
            lemma_walk_parens(t.drop_first(), d);
        }
    }
}

proof fn lemma_parens_concat(a: Seq<char>, b: Seq<char>)
    ensures
        parens_of(a + b) == parens_of(a) + parens_of(b),
    decreases a.len(),
{
    if a.len() == 0 {
        assert(a + b =~= b);
        assert(parens_of(a) + parens_of(b) =~= parens_of(b));
    } else {
        assert((a + b)[0] == a[0]);
        assert((a + b).drop_first() =~= a.drop_first() + b);
        lemma_parens_concat(a.drop_first(), b);
        let h: Seq<char> = if a[0] == '(' || a[0] == ')' { seq![a[0]] } else { seq![] };
        assert(h + (parens_of(a.drop_first()) + parens_of(b)) =~= (h + parens_of(a.drop_first())) + parens_of(b));
    }
}

proof fn lemma_no_parens(t: Seq<char>)
    requires
        forall|i: int| 0 <= i < t.len() ==> #[trigger] t[i] != '(' && t[i] != ')',
    ensures
        parens_of(t) == Seq::<char>::empty(),
    decreases t.len(),
{
    if t.len() > 0 {
        assert forall|i: int| 0 <= i < t.drop_first().len() implies #[trigger] t.drop_first()[i] != '(' && t.drop_first()[i] != ')' by {
            assert(t.drop_first()[i] == t[i + 1]);
        }
        lemma_no_parens(t.drop_first());
        assert(parens_of(t) =~= Seq::<char>::empty());
    }
}

proof fn lemma_only_slash_escapes_skip(t: Seq<char>, k: int)
    requires
        only_slash_escapes(t),
        0 <= k <= t.len(),
    ensures
        only_slash_escapes(t.skip(k)),
{
    let r = t.skip(k);
    assert forall|i: int| 0 <= i < r.len() && #[trigger] r[i] == '%' implies i + 2 < r.len() && r[i + 1] == '2' && (r[i + 2] == 'F' || r[i + 2] == 'f') by {
        assert(t[i + k] == '%');
    }
}

proof fn lemma_only_slash_escapes_sub(t: Seq<char>, a: int, e: int)
    requires
        only_slash_escapes(t),
        0 <= a <= e < t.len(),
        t[e] == ')',
    ensures
        only_slash_escapes(t.subrange(a, e)),
{
    let r = t.subrange(a, e);
    assert forall|i: int| 0 <= i < r.len() && #[trigger] r[i] == '%' implies i + 2 < r.len() && r[i + 1] == '2' && (r[i + 2] == 'F' || r[i + 2] == 'f') by {
        assert(t[i + a] == '%');
    }
}

proof fn lemma_unescape_parens(t: Seq<char>)
    requires
        only_slash_escapes(t),
    ensures
        parens_of(slash_unescaped(t)) == parens_of(t),
    decreases t.len(),
{
    if t.len() > 0 {
        if t[0] == '%' && t.len() >= 3 {
            assert(t[0] == '%');
            lemma_only_slash_escapes_skip(t, 3);
            lemma_unescape_parens(t.skip(3));
            lemma_parens_concat(seq!['/'], slash_unescaped(t.skip(3)));
            lemma_no_parens(seq!['/']);
            assert(t =~= seq![t[0], t[1], t[2]] + t.skip(3));
            lemma_parens_concat(seq![t[0], t[1], t[2]], t.skip(3));
            lemma_no_parens(seq![t[0], t[1], t[2]]);
        } else {
            lemma_only_slash_escapes_skip(t, 1);
            assert(t.skip(1) =~= t.drop_first());
            lemma_unescape_parens(t.drop_first());
            lemma_parens_concat(seq![t[0]], slash_unescaped(t.drop_first()));
            assert(t =~= seq![t[0]] + t.drop_first());
            lemma_parens_concat(seq![t[0]], t.drop_first());
        }
    }
}

/// A target runs to its end exactly when no `)` closes it on the way.
proof fn lemma_link_end_none_walk(s: Seq<char>, i: int, d: nat)
    requires
        0 <= i <= s.len(),
    ensures
        (link_end_from(s, i, d) is None) == (paren_walk(s.skip(i), d) is Some),
    decreases s.len() - i,
{
    if i < s.len() {
        let t = s.skip(i);
        assert(t[0] == s[i]);
        assert(t.drop_first() =~= s.skip(i + 1));
        if s[i] == '(' {
            lemma_link_end_none_walk(s, i + 1, d + 1);
        } else if s[i] == ')' {
            if d > 0 {
                lemma_link_end_none_walk(s, i + 1, (d - 1) as nat);
            }
        } else {
            lemma_link_end_none_walk(s, i + 1, d);
        }
    }
}

/// The text of a target that ends at `e` walks back to depth 0 without closing.
proof fn lemma_link_end_some_walk(s: Seq<char>, i: int, d: nat)
    requires
        0 <= i <= s.len(),
        link_end_from(s, i, d) is Some,
    ensures
        ({
            let e = link_end_from(s, i, d)->Some_0;
            i <= e < s.len() && s[e] == ')' && paren_walk(s.subrange(i, e), d) == Some(0nat)
        }),
    decreases s.len() - i,
{
    let e = link_end_from(s, i, d)->Some_0;
    let t = s.subrange(i, e);
    lemma_link_end_range(s, i, d);
    if s[i] == '(' {
        lemma_link_end_some_walk(s, i + 1, d + 1);
        assert(t[0] == s[i]);
        assert(t.drop_first() =~= s.subrange(i + 1, e));
    } else if s[i] == ')' {
        if d > 0 {
            lemma_link_end_some_walk(s, i + 1, (d - 1) as nat);
            assert(t[0] == s[i]);
            assert(t.drop_first() =~= s.subrange(i + 1, e));
        } else {
            assert(t =~= Seq::<char>::empty());
        }
    } else {
        lemma_link_end_some_walk(s, i + 1, d);
        assert(t[0] == s[i]);
        assert(t.drop_first() =~= s.subrange(i + 1, e));
    }
}

/// A target text that walks back to depth 0 ends at the `)` after it.
proof fn lemma_walk_link_end(s: Seq<char>, i: int, e: int, d: nat)
    requires
        0 <= i <= e < s.len(),
        s[e] == ')',
        paren_walk(s.subrange(i, e), d) == Some(0nat),
    ensures
        link_end_from(s, i, d) == Some(e),
    decreases e - i,
{
    let t = s.subrange(i, e);
    if i < e {
        assert(t[0] == s[i]);
        assert(t.drop_first() =~= s.subrange(i + 1, e));
        if s[i] == '(' {
            lemma_walk_link_end(s, i + 1, e, d + 1);
        } else if s[i] == ')' {
            lemma_walk_link_end(s, i + 1, e, (d - 1) as nat);
        } else {
            lemma_walk_link_end(s, i + 1, e, d);
        }
    }
}

/// The first `](` is found the same way in two texts that agree up to it.
proof fn lemma_find_open_prefix(u: Seq<char>, x: Seq<char>, i: int, open: int)
    requires
        0 <= i <= open,
        open + 2 <= u.len(),
        open + 2 <= x.len(),
        u.take(open + 2) == x.take(open + 2),
        find_open(x, i) == Some(open),
    ensures
        find_open(u, i) == Some(open),
    decreases open - i,
{
    assert(u[i] == u.take(open + 2)[i] && x[i] == x.take(open + 2)[i]);
    assert(u[i + 1] == u.take(open + 2)[i + 1] && x[i + 1] == x.take(open + 2)[i + 1]);
    assert(u[i] == x[i] && u[i + 1] == x[i + 1]);
    if i < open {
        assert(!(x[i] == ']' && x[i + 1] == '('));
        assert(find_open(x, i + 1) == Some(open));
        lemma_find_open_prefix(u, x, i + 1, open);
        assert(find_open(u, i) == find_open(u, i + 1));
    } else {
        assert(x[i] == ']' && x[i + 1] == '(') by {
            lemma_find_open_range(x, i);
        }
    }
}

/// A target with only escaped slashes keeps its parentheses when rewritten,
/// and a rewritten target is left as it is by another rewrite.
proof fn lemma_rewrite_target_stable(t: Seq<char>)
    requires
        only_slash_escapes(t),
    ensures
        parens_of(rewritten_target(t)) == parens_of(t),
        rewritten_target(rewritten_target(t)) == rewritten_target(t),
{
    reveal_strlit("https://github.com");
    reveal_strlit("%2F");
    reveal_strlit("%2f");
    reveal_strlit("/");
    let p = "https://github.com"@;
    if is_repo_target(t) {
        lemma_slash_unescape_decodes(t);
        let d = slash_unescaped(t);
        if has_prefix(t, "%2F"@) || has_prefix(t, "%2f"@) {
            assert(t[0] == t.take(3)[0]);
            assert(t[0] == '%' && t.len() >= 3);
            assert(d[0] == '/');
        } else {
            assert(t[0] == t.take(1)[0]);
            assert(t[0] == '/');
            assert(d[0] == '/');
        }
        assert(d.take(1) =~= "/"@);
        let r = p + d;
        assert(rewritten_target(t) == r);
        assert forall|i: int| 0 <= i < p.len() implies #[trigger] p[i] != '(' && p[i] != ')' by {}
        lemma_no_parens(p);
        lemma_parens_concat(p, d);
        lemma_unescape_parens(t);
        assert(r[0] == 'h');
        assert(!has_prefix(r, "%2F"@)) by {
            if has_prefix(r, "%2F"@) {
                assert(r.take(3)[0] == r[0]);
            }
        }
        assert(!has_prefix(r, "%2f"@)) by {
            if has_prefix(r, "%2f"@) {
                assert(r.take(3)[0] == r[0]);
            }
        }
        assert(!has_prefix(r, "/"@)) by {
            if has_prefix(r, "/"@) {
                assert(r.take(1)[0] == r[0]);
            }
        }
    }
}

proof fn lemma_parens_concat5(a: Seq<char>, b: Seq<char>, c: Seq<char>, d: Seq<char>, e: Seq<char>)
    ensures
        parens_of(a + b + c + d + e) == parens_of(a) + parens_of(b) + parens_of(c) + parens_of(d) + parens_of(e),
{
    lemma_parens_concat(a + b + c + d, e);
    lemma_parens_concat(a + b + c, d);
    lemma_parens_concat(a + b, c);
    lemma_parens_concat(a, b);
}

/// The step of `lemma_resolve_stable` at a link whose target ends at `end`.
#[verifier::rlimit(40)]
proof fn lemma_resolve_stable_link(x: Seq<char>, open: int, end: int)
    requires
        only_slash_escapes(x),
        find_open(x, 0) == Some(open),
        0 <= open,
        open + 2 <= end < x.len(),
        link_end_from(x, open + 2, 0) == Some(end),
        parens_of(resolved(x.skip(end + 1))) == parens_of(x.skip(end + 1)),
        resolved(resolved(x.skip(end + 1))) == resolved(x.skip(end + 1)),
    ensures
        parens_of(resolved(x)) == parens_of(x),
        resolved(resolved(x)) == resolved(x),
{
    reveal_strlit("](");
    reveal_strlit(")");
    let a = open + 2;
    let seg = x.subrange(0, open);
    let t = x.subrange(a, end);
    let rest = x.skip(end + 1);
    lemma_find_open_range(x, 0);
    lemma_link_end_range(x, a, 0);
    assert(x[open] == ']' && x[open + 1] == '(' && x[end] == ')');
    lemma_only_slash_escapes_sub(x, a, end);
    lemma_resolved_shift(x, end + 1, 0);
    lemma_rewrite_target_stable(t);
    let t2 = rewritten_target(t);
    let y = resolved(rest);
    let u = seg + "]("@ + t2 + ")"@ + y;
    assert(resolved(x) == u);
    assert(x =~= seg + "]("@ + t + ")"@ + rest);
    lemma_parens_concat5(seg, "]("@, t2, ")"@, y);
    lemma_parens_concat5(seg, "]("@, t, ")"@, rest);
    assert(u.take(open + 2) =~= x.take(open + 2));
    lemma_find_open_prefix(u, x, 0, open);
    let e2 = a + t2.len();
    assert(u.subrange(a, e2) =~= t2);
    assert(u[e2] == ')');
    lemma_link_end_some_walk(x, a, 0);
    lemma_walk_parens(t, 0);
    lemma_walk_parens(t2, 0);
    lemma_walk_link_end(u, a, e2, 0);
    lemma_resolved_shift(u, e2 + 1, 0);
    assert(u.skip(e2 + 1) =~= y);
    assert(u.subrange(0, open) =~= seg);
    assert(u.subrange(a, e2) == t2);
}

/// The step of `lemma_resolve_stable` at a `](` whose target never ends.
#[verifier::rlimit(40)]
proof fn lemma_resolve_stable_open(x: Seq<char>, open: int)
    requires
        only_slash_escapes(x),
        find_open(x, 0) == Some(open),
        0 <= open,
        open + 2 <= x.len(),
        link_end_from(x, open + 2, 0) is None,
        parens_of(resolved(x.skip(open + 2))) == parens_of(x.skip(open + 2)),
        resolved(resolved(x.skip(open + 2))) == resolved(x.skip(open + 2)),
    ensures
        parens_of(resolved(x)) == parens_of(x),
        resolved(resolved(x)) == resolved(x),
{
    reveal_strlit("](");
    let a = open + 2;
    let seg = x.subrange(0, open);
    let rest = x.skip(a);
    lemma_find_open_range(x, 0);
    assert(x[open] == ']' && x[open + 1] == '(');
    lemma_resolved_shift(x, a, 0);
    let y = resolved(rest);
    let u = seg + "]("@ + y;
    assert(resolved(x) == u);
    assert(x =~= seg + "]("@ + rest);
    lemma_parens_concat(seg + "]("@, y);
    lemma_parens_concat(seg + "]("@, rest);
    assert(u.take(open + 2) =~= x.take(open + 2));
    lemma_find_open_prefix(u, x, 0, open);
    lemma_link_end_none_walk(x, a, 0);
    lemma_walk_parens(rest, 0);
    lemma_walk_parens(y, 0);
    assert(u.skip(a) =~= y);
    lemma_link_end_none_walk(u, a, 0);
    lemma_resolved_shift(u, a, 0);
    assert(u.subrange(0, open) =~= seg);
}

/// Resolving keeps the parentheses of text whose only escapes are escaped
/// slashes, and resolving its result again changes nothing.
proof fn lemma_resolve_stable(x: Seq<char>)
    requires
        only_slash_escapes(x),
    ensures
        parens_of(resolved(x)) == parens_of(x),
        resolved(resolved(x)) == resolved(x),
    decreases x.len(),
{
    lemma_find_open_range(x, 0);
    match find_open(x, 0) {
        None => {
            assert(x.skip(0) =~= x);
        },
        Some(open) => {
            let a = open + 2;
            lemma_link_end_range(x, a, 0);
            match link_end_from(x, a, 0) {
                Some(end) => {
                    lemma_only_slash_escapes_skip(x, end + 1);
                    lemma_resolve_stable(x.skip(end + 1));
                    lemma_resolve_stable_link(x, open, end);
                },
                None => {
                    lemma_only_slash_escapes_skip(x, a);
                    lemma_resolve_stable(x.skip(a));
                    lemma_resolve_stable_open(x, open);
                },
            }
        },
    }
}

/// Resolving links twice is resolving them once, for markdown whose only
/// percent escapes are escaped slashes (every `%` begins `%2F` or `%2f`).
pub proof fn law_resolve_links_idempotent(s: Seq<char>)
    requires
        only_slash_escapes(s),
    ensures
        resolved(resolved(s)) == resolved(s),
{
    lemma_resolve_stable(s);
}

}
