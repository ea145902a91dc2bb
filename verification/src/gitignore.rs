//! `unreachable-reference`: a document pointing at a path the
//! repository ignores. Which references are path-shaped, where they
//! resolve, and which of them to report once git has said which paths it
//! ignores are decided here; asking the filesystem and git is the
//! caller's part.

use vstd::prelude::*;
use crate::extract::DocumentLink;
use crate::model::Line;
use crate::text::{
    chars_of, find_char, find_char_from, index_of_char, join_sep, join_slash, lemma_find_char_from,
    lemma_segments_nonempty, owned, pieces_from, segments_from, split_pieces, str_eq, string_of,
};

verus! {

/// A reference to a path git ignores.
#[derive(Debug, Clone, PartialEq, Eq)]
pub struct IgnoredReference {
    pub file: String,
    pub line: Line,
    /// The reference as written.
    pub dest: String,
    /// The corpus-relative path it resolves to.
    pub resolved: String,
}

impl View for IgnoredReference {
    type V = (Seq<char>, usize, Seq<char>, Seq<char>);

    open spec fn view(&self) -> (Seq<char>, usize, Seq<char>, Seq<char>) {
        (self.file@, self.line.0, self.dest@, self.resolved@)
    }
}

/// The path part of a reference that looks like a path: everything
/// before a `#`, when it is non-empty and either an anchor followed or it
/// holds a `/` or a `.`. A bare word (a claim id) and a same-file anchor
/// are not paths.
pub open spec fn spec_path_shaped(dest: Seq<char>) -> Option<Seq<char>> {
    let h = find_char(dest, '#');
    let path = dest.take(h);
    let has_anchor = h < dest.len();
    if path.len() == 0 {
        None
    } else if has_anchor || path.contains('/') || path.contains('.') {
        Some(path)
    } else {
        None
    }
}

fn contains_char(v: &Vec<char>, c: char) -> (r: bool)
    ensures
        r == v@.contains(c),
{
    let i = index_of_char(v, c, 0);
    proof { lemma_find_char_from(v@, c, 0); }
    if i < v.len() {
        assert(v@[i as int] == c);
        true
    } else {
        false
    }
}

pub fn path_shaped(dest: &str) -> (r: Option<String>)
    ensures
        r.deep_view() == spec_path_shaped(dest@),
{
    let v = chars_of(dest);
    let h = index_of_char(&v, '#', 0);
    proof { lemma_find_char_from(v@, '#', 0); }
    let path = chars_of(string_of(&v, 0, h).as_str());
    proof { assert(v@.subrange(0, h as int) =~= v@.take(h as int)); }
    if path.len() == 0 {
        None
    } else if h < v.len() || contains_char(&path, '/') || contains_char(&path, '.') {
        Some(string_of(&path, 0, path.len()))
    } else {
        None
    }
}

/// The index of the last `c` in `s`, or `-1`.
pub open spec fn last_index_of(s: Seq<char>, c: char, n: int) -> int
    decreases n,
{
    if n <= 0 {
        -1
    } else if s[n - 1] == c {
        n - 1
    } else {
        last_index_of(s, c, n - 1)
    }
}

/// One step of path normalisation: `""` and `.` stay, `..` pops (failing
/// at the root), anything else is pushed.
pub open spec fn normalise(segs: Seq<Seq<char>>, n: int, start: Seq<Seq<char>>) -> Option<Seq<Seq<char>>>
    decreases n,
{
    if n <= 0 {
        Some(start)
    } else {
        match normalise(segs, n - 1, start) {
            None => None,
            Some(st) => {
                let seg = segs[n - 1];
                if seg.len() == 0 || seg == "."@ {
                    Some(st)
                } else if seg == ".."@ {
                    if st.len() == 0 { None } else { Some(st.drop_last()) }
                } else {
                    Some(st.push(seg))
                }
            },
        }
    }
}

proof fn lemma_normalise_stuck(segs: Seq<Seq<char>>, k: int, n: int, start: Seq<Seq<char>>)
    requires
        0 <= k <= n,
        normalise(segs, k, start) is None,
    ensures
        normalise(segs, n, start) is None,
    decreases n - k,
{
    if k < n {
        lemma_normalise_stuck(segs, k + 1, n, start);
    }
}

/// Where `path`, cited from `citing_file`, points, relative to the
/// corpus root: a leading `/` is the root itself, otherwise the citing
/// file's directory; `.` and empty segments vanish and `..` steps up.
/// `None` when `..` climbs above the root.
pub open spec fn spec_resolve(citing_file: Seq<char>, path: Seq<char>) -> Option<Seq<char>> {
    let rooted = path.len() > 0 && path[0] == '/';
    let base = if rooted {
        Seq::<char>::empty()
    } else {
        let k = last_index_of(citing_file, '/', citing_file.len() as int);
        if k < 0 { Seq::<char>::empty() } else { citing_file.take(k) }
    };
    let rest = if rooted { path.skip(1) } else { path };
    let start = if base.len() == 0 { Seq::<Seq<char>>::empty() } else { pieces_from(base, '/', 0) };
    let segs = pieces_from(rest, '/', 0);
    match normalise(segs, segs.len() as int, start) {
        Some(st) => Some(join_sep(st, "/"@, st.len() as int)),
        None => None,
    }
}

fn last_slash(v: &Vec<char>) -> (r: Option<usize>)
    ensures
        match r {
            Some(k) => last_index_of(v@, '/', v@.len() as int) == k as int && k < v@.len(),
            None => last_index_of(v@, '/', v@.len() as int) < 0,
        },
{
    let mut n: usize = v.len();
    while n > 0
        invariant
            n <= v@.len(),
            last_index_of(v@, '/', v@.len() as int) == last_index_of(v@, '/', n as int),
        decreases n,
    {
        if v[n - 1] == '/' {
            return Some(n - 1);
        }
        n = n - 1;
    }
    None
}

pub fn resolve(citing_file: &str, path: &str) -> (r: Option<String>)
    ensures
        r.deep_view() == spec_resolve(citing_file@, path@),
{
    let p = chars_of(path);
    let cf = chars_of(citing_file);
    let rooted = p.len() > 0 && p[0] == '/';
    let base: Vec<char> = if rooted {
        Vec::new()
    } else {
        match last_slash(&cf) {
            Some(k) => {
                let b = chars_of(string_of(&cf, 0, k).as_str());
                proof { assert(cf@.subrange(0, k as int) =~= cf@.take(k as int)); }
                b
            },
            None => Vec::new(),
        }
    };
    let rest: Vec<char> = if rooted {
        let r = chars_of(string_of(&p, 1, p.len()).as_str());
        proof { assert(p@.subrange(1, p@.len() as int) =~= p@.skip(1)); }
        r
    } else {
        p
    };
    let mut stack: Vec<String> = Vec::new();
    if base.len() > 0 {
        let bs = split_pieces(&base, '/');
        let mut i: usize = 0;
        while i < bs.len()
            invariant
                i <= bs@.len(),
                stack.deep_view() == bs@.map_values(|q: Vec<char>| q@).take(i as int),
            decreases bs@.len() - i,
        {
            let ghost prev = stack.deep_view();
            stack.push(string_of(&bs[i], 0, bs[i].len()));
            proof {
                assert(bs@[i as int]@.subrange(0, bs@[i as int]@.len() as int) =~= bs@[i as int]@);
                assert(stack.deep_view() =~= prev.push(bs@[i as int]@));
                assert(bs@.map_values(|q: Vec<char>| q@).take(i + 1) =~= bs@.map_values(|q: Vec<char>| q@).take(i as int).push(bs@[i as int]@));
            }
            i = i + 1;
        }
        proof { assert(bs@.map_values(|q: Vec<char>| q@).take(bs@.len() as int) =~= bs@.map_values(|q: Vec<char>| q@)); }
    }
    let ghost start = stack.deep_view();
    proof {
        if base@.len() == 0 {
            assert(start =~= Seq::<Seq<char>>::empty());
        }
        let sb = if rooted {
            Seq::<char>::empty()
        } else {
            let k = last_index_of(citing_file@, '/', citing_file@.len() as int);
            if k < 0 { Seq::<char>::empty() } else { citing_file@.take(k) }
        };
        assert(base@ == sb);
        assert(start == if sb.len() == 0 { Seq::<Seq<char>>::empty() } else { pieces_from(sb, '/', 0) });
        assert(rest@ == if rooted { path@.skip(1) } else { path@ });
    }
    let segs = split_pieces(&rest, '/');
    let ghost sv = segs@.map_values(|q: Vec<char>| q@);
    proof { reveal_strlit("."); reveal_strlit(".."); }
    proof {
        assert(spec_resolve(citing_file@, path@) == match normalise(sv, sv.len() as int, start) {
            Some(st) => Some(join_sep(st, "/"@, st.len() as int)),
            None => None,
        });
    }
    let mut j: usize = 0;
    while j < segs.len()
        invariant
            j <= segs@.len(),
            sv == segs@.map_values(|q: Vec<char>| q@),
            spec_resolve(citing_file@, path@) == match normalise(sv, sv.len() as int, start) {
                Some(st) => Some(join_sep(st, "/"@, st.len() as int)),
                None => None,
            },
            normalise(sv, j as int, start) == Some(stack.deep_view()),
        decreases segs@.len() - j,
    {
        let seg = &segs[j];
        let s = string_of(seg, 0, seg.len());
        proof {
            assert(seg@.subrange(0, seg@.len() as int) =~= seg@);
            assert(sv[j as int] == seg@);
        }
        if seg.len() == 0 || str_eq(s.as_str(), ".") {
        } else if str_eq(s.as_str(), "..") {
            if stack.len() == 0 {
                proof {
                    assert(stack.deep_view().len() == 0);
                    assert(normalise(sv, (j + 1) as int, start) is None);
                    lemma_normalise_stuck(sv, (j + 1) as int, sv.len() as int, start);
                }
                return None;
            }
            let ghost prev = stack.deep_view();
            stack.pop();
            proof { assert(stack.deep_view() =~= prev.drop_last()); }
        } else {
            let ghost prev = stack.deep_view();
            stack.push(s);
            proof { assert(stack.deep_view() =~= prev.push(sv[j as int])); }
        }
        j = j + 1;
    }
    Some(join_slash(&stack))
}

/// Paths git cannot be asked about meaningfully: empty, the root, or
/// above it.
pub open spec fn spec_too_degenerate(p: Seq<char>) -> bool {
    p.len() == 0 || p == "/"@ || p == ".."@
}

pub fn too_degenerate_for_git(p: &str) -> (r: bool)
    ensures
        r == spec_too_degenerate(p@),
{
    proof { reveal_strlit("/"); reveal_strlit(".."); }
    chars_of(p).len() == 0 || str_eq(p, "/") || str_eq(p, "..")
}

/// A link's candidate path: path-shaped, resolved against the citing
/// file, and not degenerate. Whether it exists on disk is asked
/// separately.
pub open spec fn spec_link_candidate(file: Seq<char>, dest: Seq<char>) -> Option<Seq<char>> {
    match spec_path_shaped(dest) {
        None => None,
        Some(p) => match spec_resolve(file, p) {
            None => None,
            Some(r) => if spec_too_degenerate(r) { None } else { Some(r) },
        },
    }
}

pub fn link_candidate(link: &DocumentLink) -> (r: Option<String>)
    ensures
        r.deep_view() == spec_link_candidate(link.file@, link.dest@),
{
    let p = match path_shaped(link.dest.as_str()) {
        Some(p) => p,
        None => return None,
    };
    let r = match resolve(link.file.as_str(), p.as_str()) {
        Some(r) => r,
        None => return None,
    };
    if too_degenerate_for_git(r.as_str()) { None } else { Some(r) }
}

/// An inline code span's candidate path: path-shaped, corpus-relative
/// as written (a leading `/` dropped), not degenerate, and a markdown
/// file.
pub open spec fn spec_code_candidate(dest: Seq<char>) -> Option<Seq<char>> {
    match spec_path_shaped(dest) {
        None => None,
        Some(p) => {
            let r = if p.len() > 0 && p[0] == '/' { p.skip(1) } else { p };
            if !spec_too_degenerate(r) && r.len() >= 3 && r.skip(r.len() - 3) == ".md"@ { Some(r) } else { None }
        },
    }
}

pub fn code_candidate(reference: &DocumentLink) -> (r: Option<String>)
    ensures
        r.deep_view() == spec_code_candidate(reference.dest@),
{
    let p = match path_shaped(reference.dest.as_str()) {
        Some(p) => p,
        None => return None,
    };
    let v = chars_of(p.as_str());
    let rv = if v.len() > 0 && v[0] == '/' {
        let t = chars_of(string_of(&v, 1, v.len()).as_str());
        proof { assert(v@.subrange(1, v@.len() as int) =~= v@.skip(1)); }
        t
    } else {
        v
    };
    let r = string_of(&rv, 0, rv.len());
    proof {
        assert(rv@.subrange(0, rv@.len() as int) =~= rv@);
        reveal_strlit(".md");
    }
    if too_degenerate_for_git(r.as_str()) || rv.len() < 3 {
        return None;
    }
    let n = rv.len();
    let md = rv[n - 3] == '.' && rv[n - 2] == 'm' && rv[n - 1] == 'd';
    proof {
        let t = rv@.skip(n - 3);
        if md {
            assert(t =~= ".md"@);
        } else if t == ".md"@ {
            assert(t[0] == '.' && t[1] == 'm' && t[2] == 'd');
        }
    }
    if md { Some(r) } else { None }
}

/// The candidates, among the first `n`, whose resolved path git reports
/// as ignored.
pub open spec fn spec_select_ignored(cands: Seq<(DocumentLink, String)>, ignored: Seq<Seq<char>>, n: int) -> Seq<(Seq<char>, usize, Seq<char>, Seq<char>)>
    decreases n,
{
    if n <= 0 {
        Seq::empty()
    } else {
        let c = cands[n - 1];
        spec_select_ignored(cands, ignored, n - 1) + if ignored.contains(c.1@) {
            seq![(c.0.file@, c.0.line.0, c.0.dest@, c.1@)]
        } else {
            Seq::empty()
        }
    }
}

fn contains_string(v: &Vec<String>, s: &str) -> (r: bool)
    ensures
        r == v.deep_view().contains(s@),
{
    let mut i: usize = 0;
    while i < v.len()
        invariant
            i <= v@.len(),
            forall|k: int| 0 <= k < i ==> v.deep_view()[k] != s@,
        decreases v@.len() - i,
    {
        if str_eq(v[i].as_str(), s) {
            assert(v.deep_view()[i as int] == s@);
            return true;
        }
        i = i + 1;
    }
    false
}

/// Report each candidate (a reference and its resolved path) whose path
/// is among those git ignores, in candidate order.
pub fn select_ignored(candidates: &Vec<(DocumentLink, String)>, ignored: &Vec<String>) -> (r: Vec<IgnoredReference>)
    ensures
        r@.map_values(|x: IgnoredReference| x@) == spec_select_ignored(candidates@, ignored.deep_view(), candidates@.len() as int),
{
    let mut out: Vec<IgnoredReference> = Vec::new();
    let mut i: usize = 0;
    while i < candidates.len()
        invariant
            i <= candidates@.len(),
            out@.map_values(|x: IgnoredReference| x@) == spec_select_ignored(candidates@, ignored.deep_view(), i as int),
        decreases candidates@.len() - i,
    {
        let (link, resolved) = (&candidates[i].0, &candidates[i].1);
        let ghost prev = out@.map_values(|x: IgnoredReference| x@);
        if contains_string(ignored, resolved.as_str()) {
            let x = IgnoredReference { file: link.file.clone(), line: link.line, dest: link.dest.clone(), resolved: resolved.clone() };
            out.push(x);
            proof { assert(out@.map_values(|x: IgnoredReference| x@) =~= prev + seq![x@]); }
        } else {
            proof { assert(out@.map_values(|x: IgnoredReference| x@) =~= prev + Seq::<(Seq<char>, usize, Seq<char>, Seq<char>)>::empty()); }
        }
        i = i + 1;
    }
    out
}

// --- backtick references -------------------------------------------------------

/// The backtick-delimited spans of `line` from index `i` on, each the
/// text between an opening backtick and the next one.
pub open spec fn ticks_from(line: Seq<char>, i: int) -> Seq<Seq<char>>
    decreases line.len() - i,
{
    if i < 0 || i >= line.len() {
        Seq::empty()
    } else {
        let open = find_char_from(line, '`', i);
        if open >= line.len() || open < i {
            Seq::empty()
        } else {
            let close = find_char_from(line, '`', open + 1);
            if close >= line.len() || close <= open {
                Seq::empty()
            } else {
                seq![line.subrange(open + 1, close)] + ticks_from(line, close + 1)
            }
        }
    }
}

/// The backtick spans of the first `n` lines, each located by line.
pub open spec fn backtick_refs(file: Seq<char>, lines: Seq<Seq<char>>, n: int) -> Seq<(Seq<char>, usize, Seq<char>)>
    decreases n,
{
    if n <= 0 {
        Seq::empty()
    } else {
        backtick_refs(file, lines, n - 1) + ticks_from(lines[n - 1], 0).map_values(
            |t: Seq<char>| (file, n as usize, t),
        )
    }
}

fn line_ticks(line: &Vec<char>) -> (r: Vec<String>)
    ensures
        r.deep_view() == ticks_from(line@, 0),
{
    let ghost all = ticks_from(line@, 0);
    let mut out: Vec<String> = Vec::new();
    let mut i: usize = 0;
    while i < line.len()
        invariant
            i <= line@.len(),
            all == ticks_from(line@, 0),
            all == out.deep_view() + ticks_from(line@, i as int),
        ensures
            all == out.deep_view(),
        decreases line@.len() - i,
    {
        let open = index_of_char(line, '`', i);
        proof { lemma_find_char_from(line@, '`', i as int); }
        if open >= line.len() {
            proof {
                assert(ticks_from(line@, i as int) =~= Seq::<Seq<char>>::empty());
                assert(all =~= out.deep_view());
            }
            break;
        }
        let close = index_of_char(line, '`', open + 1);
        proof { lemma_find_char_from(line@, '`', open + 1); }
        if close >= line.len() {
            proof {
                assert(ticks_from(line@, i as int) =~= Seq::<Seq<char>>::empty());
                assert(all =~= out.deep_view());
            }
            break;
        }
        let ghost prev = out.deep_view();
        out.push(string_of(line, open + 1, close));
        proof {
            assert(out.deep_view() =~= prev.push(line@.subrange(open + 1, close as int)));
            assert(prev + ticks_from(line@, i as int) =~= out.deep_view() + ticks_from(line@, close + 1));
        }
        i = close + 1;
    }
    out
}

/// Every backtick span in `text` (a document read as plain text), with
/// its 1-indexed line: spans pair up left to right within a line, and an
/// unclosed one is dropped.
pub fn find_backtick_references(file: &str, text: &str) -> (r: Vec<DocumentLink>)
    ensures
        r@.map_values(|l: DocumentLink| l@) == backtick_refs(file@, segments_from(text@, 0), segments_from(text@, 0).len() as int),
{
    let v = chars_of(text);
    let lines = split_pieces(&v, '\n');
    let ghost lv = lines@.map_values(|q: Vec<char>| q@);
    proof { assert(lv =~= segments_from(v@, 0)) by { lemma_segments_are_pieces(v@, 0); } }
    let mut out: Vec<DocumentLink> = Vec::new();
    let mut n: usize = 0;
    while n < lines.len()
        invariant
            n <= lines@.len(),
            lv == lines@.map_values(|q: Vec<char>| q@),
            out@.map_values(|l: DocumentLink| l@) == backtick_refs(file@, lv, n as int),
        decreases lines@.len() - n,
    {
        let ticks = line_ticks(&lines[n]);
        let line_no = n + 1;
        let ghost base = out@.map_values(|l: DocumentLink| l@);
        let ghost tv = ticks.deep_view();
        let mut k: usize = 0;
        while k < ticks.len()
            invariant
                k <= ticks@.len(),
                n < lines@.len(),
                line_no == n + 1,
                tv == ticks.deep_view(),
                out@.map_values(|l: DocumentLink| l@) == base + tv.take(k as int).map_values(|t: Seq<char>| (file@, (n + 1) as usize, t)),
            decreases ticks@.len() - k,
        {
            let ghost prev = out@.map_values(|l: DocumentLink| l@);
            let l = DocumentLink { file: owned(file), line: Line(line_no), dest: ticks[k].clone() };
            out.push(l);
            proof {
                assert(out@.map_values(|l: DocumentLink| l@) =~= prev.push(l@));
                assert(tv.take(k + 1).map_values(|t: Seq<char>| (file@, (n + 1) as usize, t)) =~= tv.take(k as int).map_values(
                    |t: Seq<char>| (file@, (n + 1) as usize, t),
                ).push((file@, (n + 1) as usize, tv[k as int])));
            }
            k = k + 1;
        }
        proof {
            assert(tv.take(tv.len() as int) =~= tv);
            assert(lv[n as int] == lines@[n as int]@);
        }
        n = n + 1;
    }
    out
}

proof fn lemma_segments_are_pieces(s: Seq<char>, i: int)
    requires
        0 <= i <= s.len(),
    ensures
        segments_from(s, i) == pieces_from(s, '\n', i),
    decreases s.len() - i,
{
    lemma_find_char_from(s, '\n', i);
    let j = find_char_from(s, '\n', i);
    if j < s.len() {
        lemma_segments_are_pieces(s, j + 1);
    }
}

// --- a relative link resolves against its citing file's directory ----------------

proof fn lemma_find_char_shift(a: Seq<char>, b: Seq<char>, c: char, i: int)
    requires
        0 <= i <= b.len(),
    ensures
        find_char_from(a + b, c, a.len() + i) == a.len() + find_char_from(b, c, i),
    decreases b.len() - i,
{
    if i < b.len() {
        assert((a + b)[a.len() + i] == b[i]);
        if b[i] != c {
            lemma_find_char_shift(a, b, c, i + 1);
        }
    }
}

proof fn lemma_find_char_skip(a: Seq<char>, b: Seq<char>, c: char, i: int)
    requires
        0 <= i <= a.len(),
        !a.contains(c),
    ensures
        find_char_from(a + b, c, i) == a.len() + find_char_from(b, c, 0),
    decreases a.len() - i,
{
    if i < a.len() {
        assert((a + b)[i] == a[i]);
        assert(a[i] != c) by {
            if a[i] == c {
                assert(a.contains(c));
            }
        }
        lemma_find_char_skip(a, b, c, i + 1);
    } else {
        lemma_find_char_shift(a, b, c, 0);
    }
}

proof fn lemma_pieces_shift(a: Seq<char>, b: Seq<char>, sep: char, i: int)
    requires
        0 <= i <= b.len(),
    ensures
        pieces_from(a + b, sep, a.len() + i) == pieces_from(b, sep, i),
    decreases b.len() - i,
{
    let s = a + b;
    let j = find_char_from(s, sep, a.len() + i);
    lemma_find_char_shift(a, b, sep, i);
    lemma_find_char_from(b, sep, i);
    let jb = find_char_from(b, sep, i);
    if jb < b.len() {
        lemma_pieces_shift(a, b, sep, jb + 1);
        assert(s.subrange(a.len() + i, j) =~= b.subrange(i, jb));
    } else {
        assert(s.subrange(a.len() + i, s.len() as int) =~= b.subrange(i, b.len() as int));
    }
}

proof fn lemma_pieces_of_prefixed(d: Seq<char>, p: Seq<char>)
    requires
        !d.contains('/'),
    ensures
        pieces_from(d + seq!['/'] + p, '/', 0) == seq![d] + pieces_from(p, '/', 0),
        pieces_from(d, '/', 0) == seq![d],
{
    let s = d + seq!['/'] + p;
    assert(s == d + (seq!['/'] + p));
    lemma_find_char_skip(d, seq!['/'] + p, '/', 0);
    assert(find_char_from(seq!['/'] + p, '/', 0) == 0);
    assert(s.subrange(0, d.len() as int) =~= d);
    assert(s == (d + seq!['/']) + p);
    lemma_pieces_shift(d + seq!['/'], p, '/', 0);
    lemma_find_char_skip(d, Seq::<char>::empty(), '/', 0);
    assert(d + Seq::<char>::empty() =~= d);
    assert(d.subrange(0, d.len() as int) =~= d);
}

proof fn lemma_normalise_first(x: Seq<char>, b: Seq<Seq<char>>, j: int, start: Seq<Seq<char>>)
    requires
        0 <= j <= b.len(),
        x.len() > 0,
        x != "."@,
        x != ".."@,
    ensures
        normalise(seq![x] + b, 1 + j, start) == normalise(b, j, start.push(x)),
    decreases j,
{
    let s = seq![x] + b;
    if j > 0 {
        lemma_normalise_first(x, b, j - 1, start);
        assert(s[j] == b[j - 1]);
        assert(normalise(s, j, start) == normalise(b, j - 1, start.push(x)));
    } else {
        assert(s[0] == x);
        assert(normalise(s, 0, start) == Some(start));
        assert(!(x.len() == 0 || x == "."@));
        assert(x != ".."@);
        assert(normalise(s, 1, start) == Some(start.push(x)));
    }
}

proof fn lemma_last_slash(d: Seq<char>, f: Seq<char>, n: int)
    requires
        !f.contains('/'),
        d.len() + 1 <= n <= d.len() + 1 + f.len(),
    ensures
        last_index_of(d + seq!['/'] + f, '/', n) == d.len(),
    decreases n,
{
    let s = d + seq!['/'] + f;
    if n > d.len() + 1 {
        assert(s[n - 1] == f[n - 2 - d.len()]);
        assert(f[n - 2 - d.len()] != '/') by {
            if f[n - 2 - d.len()] == '/' {
                assert(f.contains('/'));
            }
        }
        lemma_last_slash(d, f, n - 1);
    } else {
        assert(s[n - 1] == '/');
    }
}

proof fn lemma_no_slash(g: Seq<char>, n: int)
    requires
        !g.contains('/'),
        0 <= n <= g.len(),
    ensures
        last_index_of(g, '/', n) < 0,
    decreases n,
{
    if n > 0 {
        assert(g[n - 1] != '/') by {
            if g[n - 1] == '/' {
                assert(g.contains('/'));
            }
        }
        lemma_no_slash(g, n - 1);
    }
}

/// A relative link resolves against the directory of the file that makes
/// it: from a file in directory `d`, a link yields the same candidate as
/// the link with `d/` in front of it yields from a file at the corpus
/// root.
pub proof fn lemma_link_resolved_from_citing_dir(d: Seq<char>, f: Seq<char>, g: Seq<char>, dest: Seq<char>)
    requires
        d.len() > 0,
        !d.contains('/'),
        !d.contains('#'),
        d != "."@,
        d != ".."@,
        !f.contains('/'),
        !g.contains('/'),
        spec_path_shaped(dest) matches Some(p) && !(p.len() > 0 && p[0] == '/'),
    ensures
        spec_link_candidate(d + seq!['/'] + f, dest) == spec_link_candidate(g, d + seq!['/'] + dest),
{
    let p = spec_path_shaped(dest).unwrap();
    let file = d + seq!['/'] + f;
    let dest2 = d + seq!['/'] + dest;
    // the prefixed link is path-shaped, with the prefixed path
    let h = find_char(dest, '#');
    lemma_find_char_from(dest, '#', 0);
    assert(dest2 == (d + seq!['/']) + dest);
    assert(!(d + seq!['/']).contains('#')) by {
        if (d + seq!['/']).contains('#') {
            let t = choose|t: int| 0 <= t < (d + seq!['/']).len() && (d + seq!['/'])[t] == '#';
            if t < d.len() {
                assert(d[t] == '#');
                assert(d.contains('#'));
            }
        }
    }
    lemma_find_char_skip(d + seq!['/'], dest, '#', 0);
    let h2 = find_char(dest2, '#');
    assert(h2 == d.len() + 1 + h);
    let p2 = dest2.take(h2);
    assert(p == dest.take(h));
    assert(p2 =~= d + seq!['/'] + p);
    assert(p2[d.len() as int] == '/');
    assert(p2.contains('/'));
    assert(spec_path_shaped(dest2) == Some(p2));
    // the link from the root resolves `d/p`
    assert(p2[0] == d[0]);
    assert(d[0] != '/') by {
        if d[0] == '/' {
            assert(d.contains('/'));
        }
    }
    lemma_no_slash(g, g.len() as int);
    lemma_pieces_of_prefixed(d, p);
    let segs = pieces_from(p, '/', 0);
    lemma_normalise_first(d, segs, segs.len() as int, Seq::empty());
    assert(Seq::<Seq<char>>::empty().push(d) =~= seq![d]);
    // the link from inside `d` resolves `p` from `d`
    lemma_last_slash(d, f, file.len() as int);
    assert(file.take(d.len() as int) =~= d);
    assert(spec_resolve(file, p) == spec_resolve(g, p2));
}

} // verus!
