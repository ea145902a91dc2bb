//! Evidence markers: `@docket: <id>[!] :: <command>` on a line of any
//! source file, in any comment syntax.

use vstd::prelude::*;
use crate::extract::{is_kebab, is_kebab_case};
use crate::model::{ClaimId, Line};
use crate::located::Located;
use crate::text::{
    char_is_digit, char_is_lower, chars_of, is_alnum_ascii, is_digit, is_lower, matches_at, occurs_at,
    pieces_from, split_pieces, string_of, trim, trim_bounds, trim_start, trim_start_index,
};

verus! {

/// A marker found in the source tree. `command` is `None` for a bare
/// marker (no `:: <command>`).
#[derive(Debug, Clone, PartialEq, Eq)]
pub struct Marker {
    pub id: ClaimId,
    pub command: Option<String>,
    pub file: String,
    pub line: Line,
    /// A trailing `!` on the id: the command's exit status alone is the
    /// evidence, so it is exempt from the vacuity heuristic.
    pub exempt: bool,
}

pub struct MarkerV {
    pub id: Seq<char>,
    pub command: Option<Seq<char>>,
    pub file: Seq<char>,
    pub line: usize,
    pub exempt: bool,
}

impl View for Marker {
    type V = MarkerV;

    open spec fn view(&self) -> MarkerV {
        MarkerV { id: self.id@, command: self.command.deep_view(), file: self.file@, line: self.line.0, exempt: self.exempt }
    }
}

impl Located for Marker {
    open spec fn location(&self) -> (Seq<char>, usize) {
        (self.file@, self.line.0)
    }

    fn file_path(&self) -> (r: &String) {
        &self.file
    }

    fn line_number(&self) -> (r: usize) {
        self.line.0
    }
}

impl Marker {
    /// A copy of this marker.
    pub fn copy(&self) -> (r: Marker)
        ensures
            r@ == self@,
    {
        Marker {
            id: self.id.clone(),
            command: match &self.command {
                Some(c) => Some(c.clone()),
                None => None,
            },
            file: self.file.clone(),
            line: self.line,
            exempt: self.exempt,
        }
    }
}

pub open spec fn keyword() -> Seq<char> {
    "@docket:"@
}

/// Whether the keyword at `p` starts a word: nothing before it, or a
/// character that is neither ASCII alphanumeric nor `_`.
pub open spec fn keyword_boundary(s: Seq<char>, p: int) -> bool {
    p == 0 || !(is_alnum_ascii(s[p - 1]) || s[p - 1] == '_')
}

/// The first position at or after `i` where the keyword starts a word.
pub open spec fn keyword_from(s: Seq<char>, i: int) -> Option<int>
    decreases s.len() - i,
{
    if i < 0 || i >= s.len() || i + keyword().len() > s.len() {
        None
    } else if occurs_at(s, keyword(), i) && keyword_boundary(s, i) {
        Some(i)
    } else {
        keyword_from(s, i + 1)
    }
}

/// Whether `c` may appear in an id.
pub open spec fn id_char(c: char) -> bool {
    is_lower(c) || is_digit(c) || c == '-'
}

/// The length of the run of id characters at the start of `s`.
pub open spec fn id_run(s: Seq<char>, i: int) -> int
    decreases s.len() - i,
{
    if i < 0 || i >= s.len() || !id_char(s[i]) {
        i
    } else {
        id_run(s, i + 1)
    }
}

/// What a line's marker says: its id, whether it is exempt, and its
/// command, if the line carries a well-formed commanded marker.
pub open spec fn spec_parse_marker_line(line: Seq<char>) -> Option<(Seq<char>, bool, Seq<char>)> {
    match keyword_from(line, 0) {
        None => None,
        Some(pos) => {
            let after = trim_start(line.skip(pos + keyword().len()));
            let n = id_run(after, 0);
            let id = after.take(n);
            let rest0 = after.skip(n);
            let exempt = rest0.len() > 0 && rest0[0] == '!';
            let rest = if exempt { rest0.skip(1) } else { rest0 };
            let r = trim_start(rest);
            if !is_kebab(id) {
                None
            } else if !(r.len() >= 2 && r[0] == ':' && r[1] == ':') {
                None
            } else if trim(r.skip(2)).len() == 0 {
                None
            } else {
                Some((id, exempt, trim(r.skip(2))))
            }
        },
    }
}

fn find_keyword(v: &Vec<char>) -> (r: Option<usize>)
    ensures
        match r {
            Some(p) => keyword_from(v@, 0) == Some(p as int),
            None => keyword_from(v@, 0) is None,
        },
{
    let kw = chars_of("@docket:");
    proof { reveal_strlit("@docket:"); }
    let mut i: usize = 0;
    while i < v.len() && kw.len() <= v.len() - i
        invariant
            kw@ == keyword(),
            kw@.len() == 8,
            i <= v@.len(),
            keyword_from(v@, 0) == keyword_from(v@, i as int),
        decreases v@.len() - i,
    {
        if matches_at(v, &kw, i) {
            let ok = i == 0 || !(v[i - 1] == '_' || char_is_lower(v[i - 1]) || char_is_digit(v[i - 1]) || crate::text::char_is_alpha(v[i - 1]));
            if ok {
                return Some(i);
            }
        }
        i = i + 1;
    }
    None
}

fn id_run_len(v: &Vec<char>) -> (r: usize)
    ensures
        r == id_run(v@, 0),
        r <= v@.len(),
{
    let mut i: usize = 0;
    while i < v.len() && (char_is_lower(v[i]) || char_is_digit(v[i]) || v[i] == '-')
        invariant
            i <= v@.len(),
            id_run(v@, 0) == id_run(v@, i as int),
        decreases v@.len() - i,
    {
        i = i + 1;
    }
    i
}

/// Parse one line for a commanded marker: the keyword (as a word, not
/// the tail of a longer identifier), a kebab-case id, an optional `!`
/// immediately after it, then `::` and a non-empty command (everything
/// after the first `::`, trimmed). A bare marker does not parse here.
pub fn parse_marker_line(line: &str) -> (r: Option<(ClaimId, bool, String)>)
    ensures
        match r {
            Some((id, exempt, command)) => spec_parse_marker_line(line@) == Some((id@, exempt, command@)),
            None => spec_parse_marker_line(line@) is None,
        },
{
    let v = chars_of(line);
    let pos = match find_keyword(&v) {
        Some(p) => p,
        None => return None,
    };
    proof { lemma_keyword_from_range(v@, 0); }
    let vlen = v.len();
    let tail = string_of(&v, pos + 8, vlen);
    let tv = chars_of(tail.as_str());
    proof {
        assert(v@.subrange(pos + 8, v@.len() as int) =~= v@.skip(pos + 8));
        reveal_strlit("@docket:");
    }
    let a = trim_start_index(&tv);
    let after = chars_of(string_of(&tv, a, tv.len()).as_str());
    let n = id_run_len(&after);
    let id = string_of(&after, 0, n);
    proof { assert(after@.subrange(0, n as int) =~= after@.take(n as int)); }
    if !is_kebab_case(id.as_str()) {
        return None;
    }
    let exempt = n < after.len() && after[n] == '!';
    let rest_start = if exempt { n + 1 } else { n };
    let rest = chars_of(string_of(&after, rest_start, after.len()).as_str());
    proof {
        assert(after@.skip(n as int) =~= after@.subrange(n as int, after@.len() as int));
        if exempt {
            assert(after@.skip(n as int).skip(1) =~= after@.subrange(n + 1, after@.len() as int));
        }
    }
    let ra = trim_start_index(&rest);
    let r = chars_of(string_of(&rest, ra, rest.len()).as_str());
    if !(r.len() >= 2 && r[0] == ':' && r[1] == ':') {
        return None;
    }
    let body = chars_of(string_of(&r, 2, r.len()).as_str());
    proof { assert(r@.subrange(2, r@.len() as int) =~= r@.skip(2)); }
    let (ca, cb) = trim_bounds(&body);
    if ca == cb {
        return None;
    }
    let command = string_of(&body, ca, cb);
    proof {
        assert(v@.subrange(pos + 8, v@.len() as int) =~= v@.skip(pos + 8));
    }
    Some((id, exempt, command))
}

proof fn lemma_keyword_from_range(s: Seq<char>, i: int)
    requires
        0 <= i,
    ensures
        keyword_from(s, i) matches Some(p) ==> i <= p && p + 8 <= s.len(),
    decreases s.len() - i,
{
    reveal_strlit("@docket:");
    if i < s.len() && i + 8 <= s.len() && !(occurs_at(s, keyword(), i) && keyword_boundary(s, i)) {
        lemma_keyword_from_range(s, i + 1);
    }
}

/// A line as `str::lines` gives it: without the `\r` of a `\r\n`.
pub open spec fn line_text(seg: Seq<char>) -> Seq<char> {
    if seg.len() > 0 && seg.last() == '\r' {
        seg.drop_last()
    } else {
        seg
    }
}

/// The markers on the first `n` lines of file `file`, each at its
/// 1-based line number.
pub open spec fn file_markers(file: Seq<char>, lines: Seq<Seq<char>>, n: int) -> Seq<MarkerV>
    decreases n,
{
    if n <= 0 {
        Seq::empty()
    } else {
        file_markers(file, lines, n - 1) + match spec_parse_marker_line(line_text(lines[n - 1])) {
            Some((id, exempt, command)) => seq![MarkerV { id, command: Some(command), file, line: n as usize, exempt }],
            None => Seq::empty(),
        }
    }
}

/// Every marker in one file (its corpus-relative path and its text), in
/// line order.
pub fn markers_in(relative: &str, contents: &str) -> (r: Vec<Marker>)
    ensures
        r@.map_values(|m: Marker| m@) == file_markers(relative@, pieces_from(contents@, '\n', 0), pieces_from(contents@, '\n', 0).len() as int),
{
    let v = chars_of(contents);
    let lines = split_pieces(&v, '\n');
    let ghost lv = lines@.map_values(|p: Vec<char>| p@);
    let mut out: Vec<Marker> = Vec::new();
    let mut i: usize = 0;
    while i < lines.len()
        invariant
            i <= lines@.len(),
            lv == lines@.map_values(|p: Vec<char>| p@),
            lv == pieces_from(contents@, '\n', 0),
            out@.map_values(|m: Marker| m@) == file_markers(relative@, lv, i as int),
        decreases lines@.len() - i,
    {
        let seg = &lines[i];
        assert(lv[i as int] == seg@);
        let n = seg.len();
        let end = if n > 0 && seg[n - 1] == '\r' { n - 1 } else { n };
        let line = string_of(seg, 0, end);
        proof {
            if end < n {
                assert(seg@.subrange(0, end as int) =~= seg@.drop_last());
            } else {
                assert(seg@.subrange(0, end as int) =~= seg@);
            }
        }
        let ghost prev = out@.map_values(|m: Marker| m@);
        match parse_marker_line(line.as_str()) {
            Some((id, exempt, command)) => {
                let m = Marker { id, command: Some(command), file: crate::text::owned(relative), line: Line(i + 1), exempt };
                out.push(m);
                proof { assert(out@.map_values(|m: Marker| m@) =~= prev.push(m@)); }
            },
            None => {
                proof { assert(file_markers(relative@, lv, i + 1) =~= file_markers(relative@, lv, i as int)); }
            },
        }
        i = i + 1;
    }
    out
}

} // verus!
