//! The `absent` evaluator: a claim that some literal does not occur in
//! the project's own source. The file's text is searched with its
//! comments (and, for Rust, its test items) blanked out — blanked, not
//! removed, so every surviving character keeps its line.

use vstd::prelude::*;
use crate::located::{sort_located, sorted_by_location, Located};
use vstd::string::StringSliceAdditionalSpecFns;
use crate::extract::{char_utf8_width, lemma_utf8_len_is_encoded_len, lemma_utf8_len_prefix, lemma_utf8_len_push, utf8_len};
use crate::marker::{Marker, MarkerV};
use crate::model::{ClaimId, ClaimV, Corpus, Line};
use crate::blast::claims_view;
use crate::text::{
    chars_of, eq_ignore_ascii_case, find_char_from, index_of_char, lemma_find_char_from, lemma_pieces_nonempty,
    matches_at, occurs_at, owned, pieces_from, seq_eq_ignore_ascii_case, split_pieces, str_eq, string_of,
};

verus! {

/// Where a literal was found: a file and a line.
#[derive(Debug, Clone, PartialEq, Eq)]
pub struct SourceHit {
    pub file: String,
    pub line: Line,
}

impl Located for SourceHit {
    open spec fn location(&self) -> (Seq<char>, usize) {
        (self.file@, self.line.0)
    }

    fn file_path(&self) -> (r: &String) {
        &self.file
    }

    fn line_number(&self) -> (r: usize) {
        self.line.0
    }
}

/// A language's comment syntax: its line-comment leader and its block
/// comment delimiters, where it has them.
#[derive(Debug, Clone, Copy)]
pub struct CommentSyntax {
    pub line: Option<&'static str>,
    pub block: Option<(&'static str, &'static str)>,
}

pub struct CommentSyntaxV {
    pub line: Option<Seq<char>>,
    pub block: Option<(Seq<char>, Seq<char>)>,
}

impl View for CommentSyntax {
    type V = CommentSyntaxV;

    open spec fn view(&self) -> CommentSyntaxV {
        CommentSyntaxV {
            line: match self.line {
                Some(l) => Some(l@),
                None => None,
            },
            block: match self.block {
                Some((o, c)) => Some((o@, c@)),
                None => None,
            },
        }
    }
}

pub open spec fn syntax_of(line: Option<Seq<char>>, block: Option<(Seq<char>, Seq<char>)>) -> CommentSyntaxV {
    CommentSyntaxV { line, block }
}

/// The comment syntax of a file by its (lowercased) extension; a file
/// type not listed has none.
pub open spec fn spec_comment_syntax(e: Seq<char>) -> CommentSyntaxV {
    if e == "rs"@ || e == "go"@ || e == "java"@ || e == "js"@ || e == "jsx"@ || e == "ts"@ || e == "tsx"@ || e == "c"@
        || e == "h"@ || e == "cc"@ || e == "cpp"@ || e == "hpp"@ || e == "swift"@ || e == "kt"@ || e == "scala"@
        || e == "rescript"@ {
        syntax_of(Some("//"@), Some(("/*"@, "*/"@)))
    } else if e == "py"@ || e == "sh"@ || e == "bash"@ || e == "zsh"@ || e == "rb"@ || e == "toml"@ || e == "yaml"@
        || e == "yml"@ || e == "ncl"@ || e == "pl"@ {
        syntax_of(Some("#"@), None)
    } else if e == "nix"@ {
        syntax_of(Some("#"@), Some(("/*"@, "*/"@)))
    } else if e == "tla"@ {
        syntax_of(Some("\\*"@), Some(("(*"@, "*)"@)))
    } else if e == "lean"@ {
        syntax_of(Some("--"@), Some(("/-"@, "-/"@)))
    } else if e == "sql"@ || e == "als"@ {
        syntax_of(Some("--"@), Some(("/*"@, "*/"@)))
    } else if e == "hs"@ {
        syntax_of(Some("--"@), Some(("{-"@, "-}"@)))
    } else if e == "lua"@ {
        syntax_of(Some("--"@), Some(("--[["@, "]]"@)))
    } else if e == "adb"@ || e == "ads"@ {
        syntax_of(Some("--"@), None)
    } else {
        syntax_of(None, None)
    }
}

fn is_one_of(e: &str, names: &Vec<&'static str>) -> (r: bool)
    ensures
        r == exists|k: int| 0 <= k < names@.len() && e@ == (#[trigger] names@[k])@,
{
    let mut i: usize = 0;
    while i < names.len()
        invariant
            i <= names@.len(),
            forall|k: int| 0 <= k < i ==> e@ != (#[trigger] names@[k])@,
        decreases names@.len() - i,
    {
        if str_eq(e, names[i]) {
            return true;
        }
        i = i + 1;
    }
    false
}

/// See [`spec_comment_syntax`].
pub fn comment_syntax(extension: &str) -> (r: CommentSyntax)
    ensures
        r@ == spec_comment_syntax(extension@),
{
    proof {
        reveal_strlit("rs"); reveal_strlit("go"); reveal_strlit("java"); reveal_strlit("js"); reveal_strlit("jsx");
        reveal_strlit("ts"); reveal_strlit("tsx"); reveal_strlit("c"); reveal_strlit("h"); reveal_strlit("cc");
        reveal_strlit("cpp"); reveal_strlit("hpp"); reveal_strlit("swift"); reveal_strlit("kt"); reveal_strlit("scala");
        reveal_strlit("rescript"); reveal_strlit("py"); reveal_strlit("sh"); reveal_strlit("bash"); reveal_strlit("zsh");
        reveal_strlit("rb"); reveal_strlit("toml"); reveal_strlit("yaml"); reveal_strlit("yml"); reveal_strlit("ncl");
        reveal_strlit("pl"); reveal_strlit("nix"); reveal_strlit("tla"); reveal_strlit("lean"); reveal_strlit("sql");
        reveal_strlit("als"); reveal_strlit("hs"); reveal_strlit("lua"); reveal_strlit("adb"); reveal_strlit("ads");
    }
    let c_like = vec![
        "rs", "go", "java", "js", "jsx", "ts", "tsx", "c", "h", "cc", "cpp", "hpp", "swift", "kt", "scala", "rescript",
    ];
    let hash = vec!["py", "sh", "bash", "zsh", "rb", "toml", "yaml", "yml", "ncl", "pl"];
    if is_one_of(extension, &c_like) {
        proof {
            let e = extension@;
            assert(e == "rs"@ || e == "go"@ || e == "java"@ || e == "js"@ || e == "jsx"@ || e == "ts"@ || e == "tsx"@
                || e == "c"@ || e == "h"@ || e == "cc"@ || e == "cpp"@ || e == "hpp"@ || e == "swift"@ || e == "kt"@
                || e == "scala"@ || e == "rescript"@);
        }
        CommentSyntax { line: Some("//"), block: Some(("/*", "*/")) }
    } else if is_one_of(extension, &hash) {
        proof {
            let e = extension@;
            assert(!(e == "rs"@ || e == "go"@ || e == "java"@ || e == "js"@ || e == "jsx"@ || e == "ts"@ || e == "tsx"@
                || e == "c"@ || e == "h"@ || e == "cc"@ || e == "cpp"@ || e == "hpp"@ || e == "swift"@ || e == "kt"@
                || e == "scala"@ || e == "rescript"@)) by {
                if e == "rs"@ { assert(c_like@[0]@ == e); }
                if e == "go"@ { assert(c_like@[1]@ == e); }
                if e == "java"@ { assert(c_like@[2]@ == e); }
                if e == "js"@ { assert(c_like@[3]@ == e); }
                if e == "jsx"@ { assert(c_like@[4]@ == e); }
                if e == "ts"@ { assert(c_like@[5]@ == e); }
                if e == "tsx"@ { assert(c_like@[6]@ == e); }
                if e == "c"@ { assert(c_like@[7]@ == e); }
                if e == "h"@ { assert(c_like@[8]@ == e); }
                if e == "cc"@ { assert(c_like@[9]@ == e); }
                if e == "cpp"@ { assert(c_like@[10]@ == e); }
                if e == "hpp"@ { assert(c_like@[11]@ == e); }
                if e == "swift"@ { assert(c_like@[12]@ == e); }
                if e == "kt"@ { assert(c_like@[13]@ == e); }
                if e == "scala"@ { assert(c_like@[14]@ == e); }
                if e == "rescript"@ { assert(c_like@[15]@ == e); }
            }
        }
        CommentSyntax { line: Some("#"), block: None }
    } else {
        proof {
            let e = extension@;
            assert(!(e == "rs"@ || e == "go"@ || e == "java"@ || e == "js"@ || e == "jsx"@ || e == "ts"@ || e == "tsx"@
                || e == "c"@ || e == "h"@ || e == "cc"@ || e == "cpp"@ || e == "hpp"@ || e == "swift"@ || e == "kt"@
                || e == "scala"@ || e == "rescript"@)) by {
                if e == "rs"@ { assert(c_like@[0]@ == e); }
                if e == "go"@ { assert(c_like@[1]@ == e); }
                if e == "java"@ { assert(c_like@[2]@ == e); }
                if e == "js"@ { assert(c_like@[3]@ == e); }
                if e == "jsx"@ { assert(c_like@[4]@ == e); }
                if e == "ts"@ { assert(c_like@[5]@ == e); }
                if e == "tsx"@ { assert(c_like@[6]@ == e); }
                if e == "c"@ { assert(c_like@[7]@ == e); }
                if e == "h"@ { assert(c_like@[8]@ == e); }
                if e == "cc"@ { assert(c_like@[9]@ == e); }
                if e == "cpp"@ { assert(c_like@[10]@ == e); }
                if e == "hpp"@ { assert(c_like@[11]@ == e); }
                if e == "swift"@ { assert(c_like@[12]@ == e); }
                if e == "kt"@ { assert(c_like@[13]@ == e); }
                if e == "scala"@ { assert(c_like@[14]@ == e); }
                if e == "rescript"@ { assert(c_like@[15]@ == e); }
            }
            assert(!(e == "py"@ || e == "sh"@ || e == "bash"@ || e == "zsh"@ || e == "rb"@ || e == "toml"@ || e == "yaml"@
                || e == "yml"@ || e == "ncl"@ || e == "pl"@)) by {
                if e == "py"@ { assert(hash@[0]@ == e); }
                if e == "sh"@ { assert(hash@[1]@ == e); }
                if e == "bash"@ { assert(hash@[2]@ == e); }
                if e == "zsh"@ { assert(hash@[3]@ == e); }
                if e == "rb"@ { assert(hash@[4]@ == e); }
                if e == "toml"@ { assert(hash@[5]@ == e); }
                if e == "yaml"@ { assert(hash@[6]@ == e); }
                if e == "yml"@ { assert(hash@[7]@ == e); }
                if e == "ncl"@ { assert(hash@[8]@ == e); }
                if e == "pl"@ { assert(hash@[9]@ == e); }
            }
        }
        if str_eq(extension, "nix") {
            CommentSyntax { line: Some("#"), block: Some(("/*", "*/")) }
        } else if str_eq(extension, "tla") {
            CommentSyntax { line: Some("\\*"), block: Some(("(*", "*)")) }
        } else if str_eq(extension, "lean") {
            CommentSyntax { line: Some("--"), block: Some(("/-", "-/")) }
        } else if str_eq(extension, "sql") || str_eq(extension, "als") {
            CommentSyntax { line: Some("--"), block: Some(("/*", "*/")) }
        } else if str_eq(extension, "hs") {
            CommentSyntax { line: Some("--"), block: Some(("{-", "-}")) }
        } else if str_eq(extension, "lua") {
            CommentSyntax { line: Some("--"), block: Some(("--[[", "]]")) }
        } else if str_eq(extension, "adb") || str_eq(extension, "ads") {
            CommentSyntax { line: Some("--"), block: None }
        } else {
            CommentSyntax { line: None, block: None }
        }
    }
}

// --- blanking -------------------------------------------------------------------

/// Every character of `s` turned into a space, but line breaks kept.
pub open spec fn blank(s: Seq<char>) -> Seq<char> {
    s.map_values(|c: char| if c == '\n' { '\n' } else { ' ' })
}

/// Append `blank(s)` to `out`.
pub fn blank_into(out: &mut Vec<char>, s: &Vec<char>, from: usize, to: usize)
    requires
        from <= to <= s@.len(),
    ensures
        final(out)@ == old(out)@ + blank(s@.subrange(from as int, to as int)),
{
    let ghost start = out@;
    let mut i = from;
    while i < to
        invariant
            from <= i <= to <= s@.len(),
            out@ == start + blank(s@.subrange(from as int, i as int)),
        decreases to - i,
    {
        let c = s[i];
        out.push(if c == '\n' { '\n' } else { ' ' });
        proof {
            assert(s@.subrange(from as int, i + 1) =~= s@.subrange(from as int, i as int).push(c));
            assert(blank(s@.subrange(from as int, i + 1)) =~= blank(s@.subrange(from as int, i as int)).push(if c == '\n' { '\n' } else { ' ' }));
        }
        i = i + 1;
    }
}

// --- string literals --------------------------------------------------------------

/// Where a string literal whose body starts at `j` ends (just past its
/// closing `"`): a backslash escapes the next character; an unterminated
/// literal runs to the end.
pub open spec fn literal_end(s: Seq<char>, j: int) -> int
    decreases s.len() - j,
{
    if j < 0 || j >= s.len() {
        s.len() as int
    } else if s[j] == '\\' {
        if j + 1 < s.len() { literal_end(s, j + 2) } else { s.len() as int }
    } else if s[j] == '"' {
        j + 1
    } else {
        literal_end(s, j + 1)
    }
}

pub proof fn lemma_literal_end(s: Seq<char>, j: int)
    requires
        0 <= j <= s.len(),
    ensures
        j < literal_end(s, j) <= s.len() || (j == s.len() && literal_end(s, j) == s.len()),
    decreases s.len() - j,
{
    if j < s.len() {
        if s[j] == '\\' {
            if j + 1 < s.len() {
                lemma_literal_end(s, j + 2);
            }
        } else if s[j] != '"' {
            lemma_literal_end(s, j + 1);
        }
    }
}

/// Where the string literal opening at `i` ends, in characters from
/// `i`: `None` unless `s[i]` is `"`.
pub open spec fn literal_at(s: Seq<char>, i: int) -> Option<int> {
    if 0 <= i < s.len() && s[i] == '"' { Some(literal_end(s, i + 1)) } else { None }
}

/// See [`literal_at`].
fn literal_end_at(v: &Vec<char>, i: usize) -> (r: Option<usize>)
    requires
        i <= v@.len(),
    ensures
        match r {
            Some(e) => literal_at(v@, i as int) == Some(e as int) && i < e <= v@.len(),
            None => literal_at(v@, i as int) is None,
        },
{
    if i >= v.len() || v[i] != '"' {
        return None;
    }
    let mut j = i + 1;
    proof { lemma_literal_end(v@, j as int); }
    while j < v.len()
        invariant
            i < j <= v@.len(),
            v@[i as int] == '"',
            literal_end(v@, i + 1) == literal_end(v@, j as int),
        decreases v@.len() - j,
    {
        if v[j] == '\\' {
            if j + 1 < v.len() {
                j = j + 2;
            } else {
                return Some(v.len());
            }
        } else if v[j] == '"' {
            return Some(j + 1);
        } else {
            j = j + 1;
        }
    }
    Some(v.len())
}

/// The length in bytes of the string literal `rest` opens with (through
/// its closing `"`, or to the end when it never closes), or `None` when
/// `rest` does not start with `"`.
pub fn skip_string_literal(rest: &str) -> (r: Option<usize>)
    ensures
        match literal_at(rest@, 0) {
            Some(e) => r == Some(utf8_len(rest@.take(e)) as usize),
            None => r is None,
        },
{
    let v = chars_of(rest);
    proof {
        lemma_utf8_len_is_encoded_len(rest@);
    }
    let n_bytes = rest.as_bytes().len();
    match literal_end_at(&v, 0) {
        None => None,
        Some(e) => {
            let mut bytes: usize = 0;
            let mut k: usize = 0;
            proof { assert(v@.take(0) =~= Seq::<char>::empty()); }
            while k < e
                invariant
                    k <= e <= v@.len(),
                    n_bytes == utf8_len(v@),
                    bytes == utf8_len(v@.take(k as int)),
                decreases e - k,
            {
                proof {
                    lemma_utf8_len_push(v@, k as int);
                    lemma_utf8_len_prefix(v@, k + 1);
                }
                bytes = bytes + char_utf8_width(v[k]);
                k = k + 1;
            }
            Some(bytes)
        },
    }
}


// --- comment stripping ------------------------------------------------------------

/// The first position at or after `i` where `needle` occurs in `s`, or
/// `s.len()`.
pub open spec fn find_seq_from(s: Seq<char>, needle: Seq<char>, i: int) -> int
    decreases s.len() - i,
{
    if i < 0 || i >= s.len() || i + needle.len() > s.len() {
        s.len() as int
    } else if occurs_at(s, needle, i) {
        i
    } else {
        find_seq_from(s, needle, i + 1)
    }
}

pub proof fn lemma_find_seq_from(s: Seq<char>, needle: Seq<char>, i: int)
    requires
        0 <= i <= s.len(),
    ensures
        i <= find_seq_from(s, needle, i) <= s.len(),
        find_seq_from(s, needle, i) < s.len() ==> occurs_at(s, needle, find_seq_from(s, needle, i)),
    decreases s.len() - i,
{
    if i < s.len() && i + needle.len() <= s.len() && !occurs_at(s, needle, i) {
        lemma_find_seq_from(s, needle, i + 1);
    }
}

fn find_seq(v: &Vec<char>, needle: &Vec<char>, from: usize) -> (r: usize)
    requires
        from <= v@.len(),
    ensures
        r == find_seq_from(v@, needle@, from as int),
{
    let mut i = from;
    while i < v.len() && needle.len() <= v.len() - i
        invariant
            from <= i <= v@.len(),
            find_seq_from(v@, needle@, from as int) == find_seq_from(v@, needle@, i as int),
        decreases v@.len() - i,
    {
        if matches_at(v, needle, i) {
            return i;
        }
        i = i + 1;
    }
    v.len()
}

/// A syntax whose delimiters are all non-empty and whose line leader
/// does not start a new line: every one the table holds.
pub open spec fn syntax_wf(syn: CommentSyntaxV) -> bool {
    &&& (syn.line matches Some(l) ==> l.len() > 0 && l[0] != '\n')
    &&& (syn.block matches Some(b) ==> b.0.len() > 0 && b.1.len() > 0)
}

/// Whether the block comment opener starts at `i`.
pub open spec fn opens_block(s: Seq<char>, syn: CommentSyntaxV, i: int) -> bool {
    syn.block matches Some(b) && b.0.len() > 0 && occurs_at(s, b.0, i)
}

/// Whether the line comment leader starts at `i`.
pub open spec fn opens_line(s: Seq<char>, syn: CommentSyntaxV, i: int) -> bool {
    syn.line matches Some(l) && l.len() > 0 && l[0] != '\n' && occurs_at(s, l, i)
}

/// `s` from `i` on (inside a block comment when `in_block`) with its
/// comments blanked: string literals are copied verbatim (a comment
/// leader inside one is text), a block comment runs to its closer (or
/// the end), a line comment to the end of its line.
pub open spec fn strip_out(s: Seq<char>, syn: CommentSyntaxV, i: int, in_block: bool) -> Seq<char>
    decreases s.len() - i,
{
    if i < 0 || i >= s.len() {
        Seq::empty()
    } else if in_block {
        match syn.block {
            Some(b) => {
                let idx = find_seq_from(s, b.1, i);
                if idx < s.len() && b.1.len() > 0 {
                    proof { lemma_find_seq_from(s, b.1, i); }
                    blank(s.subrange(i, idx)) + blank(b.1) + strip_out(s, syn, idx + b.1.len(), false)
                } else {
                    blank(s.subrange(i, s.len() as int))
                }
            },
            None => blank(s.subrange(i, s.len() as int)),
        }
    } else {
        match literal_at(s, i) {
            Some(e) => {
                proof { lemma_literal_end(s, i + 1); }
                s.subrange(i, e) + strip_out(s, syn, e, false)
            },
            None => if opens_block(s, syn, i) {
                blank(syn.block.unwrap().0) + strip_out(s, syn, i + syn.block.unwrap().0.len(), true)
            } else if opens_line(s, syn, i) {
                let nl = find_char_from(s, '\n', i);
                proof {
                    lemma_find_char_from(s, '\n', i);
                    assert(s[i] == syn.line.unwrap()[0]) by {
                        assert(s.subrange(i, i + syn.line.unwrap().len())[0] == s[i]);
                    }
                }
                blank(s.subrange(i, nl)) + strip_out(s, syn, nl, false)
            } else {
                seq![s[i]] + strip_out(s, syn, i + 1, false)
            },
        }
    }
}

/// Two texts of the same length with line breaks in the same places.
pub open spec fn same_shape(a: Seq<char>, b: Seq<char>) -> bool {
    a.len() == b.len() && forall|k: int| 0 <= k < a.len() ==> (a[k] == '\n') == (b[k] == '\n')
}

proof fn lemma_blank_shape(s: Seq<char>)
    ensures
        same_shape(blank(s), s),
{
}

proof fn lemma_shape_concat(a1: Seq<char>, b1: Seq<char>, a2: Seq<char>, b2: Seq<char>)
    requires
        same_shape(a1, b1),
        same_shape(a2, b2),
    ensures
        same_shape(a1 + a2, b1 + b2),
{
    assert forall|k: int| 0 <= k < (a1 + a2).len() implies ((a1 + a2)[k] == '\n') == ((b1 + b2)[k] == '\n') by {
        if k >= a1.len() {
            assert((a1 + a2)[k] == a2[k - a1.len()]);
            assert((b1 + b2)[k] == b2[k - b1.len()]);
        }
    }
}

/// Blanking comments keeps the text's length and every line break: a
/// match in the stripped text is on the same line as in the unstripped text.
#[verifier::spinoff_prover]
#[verifier::rlimit(30)]
pub proof fn lemma_strip_comments_keeps_lines(s: Seq<char>, syn: CommentSyntaxV, i: int, in_block: bool)
    requires
        0 <= i <= s.len(),
    ensures
        same_shape(strip_out(s, syn, i, in_block), s.subrange(i, s.len() as int)),
    decreases s.len() - i,
{
    let rest = s.subrange(i, s.len() as int);
    if i >= s.len() {
        assert(rest =~= Seq::<char>::empty());
    } else if in_block {
        match syn.block {
            Some(b) => {
                let idx = find_seq_from(s, b.1, i);
                lemma_find_seq_from(s, b.1, i);
                if idx < s.len() && b.1.len() > 0 {
                    let j = idx + b.1.len();
                    lemma_strip_comments_keeps_lines(s, syn, j, false);
                    assert(s.subrange(idx, j) == b.1);
                    lemma_blank_shape(s.subrange(i, idx));
                    lemma_blank_shape(b.1);
                    lemma_shape_concat(blank(s.subrange(i, idx)), s.subrange(i, idx), blank(b.1), b.1);
                    lemma_shape_concat(blank(s.subrange(i, idx)) + blank(b.1), s.subrange(i, idx) + b.1, strip_out(s, syn, j, false), s.subrange(j, s.len() as int));
                    assert(s.subrange(i, idx) + b.1 + s.subrange(j, s.len() as int) =~= rest);
                } else {
                    lemma_blank_shape(rest);
                }
            },
            None => {
                lemma_blank_shape(rest);
            },
        }
    } else {
        match literal_at(s, i) {
            Some(e) => {
                lemma_literal_end(s, i + 1);
                lemma_strip_comments_keeps_lines(s, syn, e, false);
                lemma_shape_concat(s.subrange(i, e), s.subrange(i, e), strip_out(s, syn, e, false), s.subrange(e, s.len() as int));
                assert(s.subrange(i, e) + s.subrange(e, s.len() as int) =~= rest);
            },
            None => if opens_block(s, syn, i) {
                let o = syn.block.unwrap().0;
                let j = i + o.len();
                lemma_strip_comments_keeps_lines(s, syn, j, true);
                assert(s.subrange(i, j) == o);
                lemma_blank_shape(o);
                lemma_shape_concat(blank(o), o, strip_out(s, syn, j, true), s.subrange(j, s.len() as int));
                assert(o + s.subrange(j, s.len() as int) =~= rest);
            } else if opens_line(s, syn, i) {
                let nl = find_char_from(s, '\n', i);
                lemma_find_char_from(s, '\n', i);
                assert(s[i] == syn.line.unwrap()[0]) by {
                    assert(s.subrange(i, i + syn.line.unwrap().len())[0] == s[i]);
                }
                lemma_strip_comments_keeps_lines(s, syn, nl, false);
                lemma_blank_shape(s.subrange(i, nl));
                lemma_shape_concat(blank(s.subrange(i, nl)), s.subrange(i, nl), strip_out(s, syn, nl, false), s.subrange(nl, s.len() as int));
                assert(s.subrange(i, nl) + s.subrange(nl, s.len() as int) =~= rest);
            } else {
                lemma_strip_comments_keeps_lines(s, syn, i + 1, false);
                lemma_shape_concat(seq![s[i]], seq![s[i]], strip_out(s, syn, i + 1, false), s.subrange(i + 1, s.len() as int));
                assert(seq![s[i]] + s.subrange(i + 1, s.len() as int) =~= rest);
            },
        }
    }
}

fn opt_chars(o: Option<&'static str>) -> (r: Vec<char>)
    ensures
        match o {
            Some(x) => r@ == x@,
            None => r@.len() == 0,
        },
{
    match o {
        Some(x) => chars_of(x),
        None => Vec::new(),
    }
}

/// `contents` with its comments blanked to spaces (line breaks kept), by
/// `syntax`; see [`strip_out`].
pub fn strip_comments(contents: &str, syntax: &CommentSyntax) -> (r: String)
    requires
        syntax_wf(syntax@),
    ensures
        r@ == strip_out(contents@, syntax@, 0, false),
        same_shape(r@, contents@),
{
    let ghost syn = syntax@;
    let s = chars_of(contents);
    let line = opt_chars(syntax.line);
    let has_line = syntax.line.is_some();
    let (open, close) = match syntax.block {
        Some((o, c)) => (chars_of(o), chars_of(c)),
        None => (Vec::new(), Vec::new()),
    };
    let has_block = syntax.block.is_some();
    let mut out: Vec<char> = Vec::new();
    let mut i: usize = 0;
    let mut in_block = false;
    while i < s.len()
        invariant
            i <= s@.len(),
            s@ == contents@,
            syn == syntax@,
            syntax_wf(syn),
            has_line == (syn.line is Some),
            has_line ==> line@ == syn.line.unwrap(),
            has_block == (syn.block is Some),
            has_block ==> open@ == syn.block.unwrap().0 && close@ == syn.block.unwrap().1,
            in_block ==> has_block,
            out@ + strip_out(s@, syn, i as int, in_block) == strip_out(s@, syn, 0, false),
        decreases s@.len() - i,
    {
        let ghost before = out@;
        if in_block {
            let idx = find_seq(&s, &close, i);
            proof { lemma_find_seq_from(s@, close@, i as int); }
            if idx < s.len() {
                blank_into(&mut out, &s, i, idx);
                blank_into(&mut out, &close, 0, close.len());
                proof {
                    assert(close@.subrange(0, close@.len() as int) =~= close@);
                    assert(before + strip_out(s@, syn, i as int, true) =~= out@ + strip_out(s@, syn, idx + close@.len(), false));
                }
                i = idx + close.len();
                in_block = false;
            } else {
                blank_into(&mut out, &s, i, s.len());
                proof { assert(strip_out(s@, syn, s@.len() as int, false) =~= Seq::<char>::empty()); }
                i = s.len();
                in_block = false;
            }
        } else {
            match literal_end_at(&s, i) {
                Some(e) => {
                    let ghost prev = out@;
                    let mut k = i;
                    while k < e
                        invariant
                            i <= k <= e <= s@.len(),
                            out@ == prev + s@.subrange(i as int, k as int),
                        decreases e - k,
                    {
                        out.push(s[k]);
                        proof { assert(s@.subrange(i as int, k + 1) =~= s@.subrange(i as int, k as int).push(s@[k as int])); }
                        k = k + 1;
                    }
                    proof { assert(before + strip_out(s@, syn, i as int, false) =~= out@ + strip_out(s@, syn, e as int, false)); }
                    i = e;
                },
                None => {
                    if has_block && matches_at(&s, &open, i) {
                        blank_into(&mut out, &open, 0, open.len());
                        proof {
                            assert(open@.subrange(0, open@.len() as int) =~= open@);
                            assert(opens_block(s@, syn, i as int));
                        }
                        i = i + open.len();
                        in_block = true;
                    } else if has_line && matches_at(&s, &line, i) {
                        let nl = index_of_char(&s, '\n', i);
                        proof {
                            lemma_find_char_from(s@, '\n', i as int);
                            assert(opens_line(s@, syn, i as int));
                        }
                        blank_into(&mut out, &s, i, nl);
                        i = nl;
                    } else {
                        proof {
                            assert(!opens_block(s@, syn, i as int));
                            assert(!opens_line(s@, syn, i as int));
                        }
                        out.push(s[i]);
                        proof { assert(before + strip_out(s@, syn, i as int, false) =~= out@ + strip_out(s@, syn, i + 1, false)); }
                        i = i + 1;
                    }
                },
            }
        }
    }
    proof {
        assert(out@ =~= strip_out(s@, syn, 0, false));
        lemma_strip_comments_keeps_lines(s@, syn, 0, false);
        assert(s@.subrange(0, s@.len() as int) =~= s@);
    }
    string_of(&out, 0, out.len())
}


// --- Rust test items ------------------------------------------------------------

/// Scanning from `idx` at brace depth `depth`: where the span closes
/// (just past the `}` that brings the depth to zero), skipping string
/// literals whole; `None` when it never does.
pub open spec fn brace_end(s: Seq<char>, idx: int, depth: int) -> Option<int>
    decreases s.len() - idx,
{
    if idx < 0 || idx >= s.len() {
        None
    } else {
        match literal_at(s, idx) {
            Some(e) => {
                proof { lemma_literal_end(s, idx + 1); }
                brace_end(s, e, depth)
            },
            None => if s[idx] == '{' {
                brace_end(s, idx + 1, depth + 1)
            } else if s[idx] == '}' {
                if depth - 1 == 0 { Some(idx + 1) } else { brace_end(s, idx + 1, depth - 1) }
            } else {
                brace_end(s, idx + 1, depth)
            },
        }
    }
}

/// The end of the brace-balanced span opening at the first `{` at or
/// after `from`.
pub open spec fn brace_span_from(s: Seq<char>, from: int) -> Option<int> {
    let open = find_char_from(s, '{', from);
    if open >= s.len() { None } else { brace_end(s, open, 0) }
}

proof fn lemma_brace_end(s: Seq<char>, idx: int, depth: int)
    requires
        0 <= idx,
    ensures
        brace_end(s, idx, depth) matches Some(e) ==> idx < e <= s.len(),
    decreases s.len() - idx,
{
    if idx < s.len() {
        match literal_at(s, idx) {
            Some(e) => {
                lemma_literal_end(s, idx + 1);
                lemma_brace_end(s, e, depth);
            },
            None => {
                if s[idx] == '{' {
                    lemma_brace_end(s, idx + 1, depth + 1);
                } else if s[idx] == '}' {
                    if depth - 1 != 0 {
                        lemma_brace_end(s, idx + 1, depth - 1);
                    }
                } else {
                    lemma_brace_end(s, idx + 1, depth);
                }
            },
        }
    }
}

fn brace_span(v: &Vec<char>, from: usize) -> (r: Option<usize>)
    requires
        from <= v@.len(),
    ensures
        match r {
            Some(e) => brace_span_from(v@, from as int) == Some(e as int),
            None => brace_span_from(v@, from as int) is None,
        },
{
    let open = index_of_char(v, '{', from);
    proof { lemma_find_char_from(v@, '{', from as int); }
    if open >= v.len() {
        return None;
    }
    let mut depth: usize = 1;
    let mut idx = open + 1;
    proof { assert(literal_at(v@, open as int) is None); }
    while idx < v.len()
        invariant
            open < idx <= v@.len(),
            brace_span_from(v@, from as int) == brace_end(v@, open as int, 0),
            1 <= depth <= idx - open,
            brace_end(v@, open as int, 0) == brace_end(v@, idx as int, depth as int),
        decreases v@.len() - idx,
    {
        match literal_end_at(v, idx) {
            Some(e) => {
                idx = e;
            },
            None => {
                if v[idx] == '{' {
                    depth = depth + 1;
                } else if v[idx] == '}' {
                    if depth == 1 {
                        return Some(idx + 1);
                    }
                    depth = depth - 1;
                }
                idx = idx + 1;
            },
        }
    }
    None
}

pub open spec fn cfg_test_marker() -> Seq<char> {
    "#[cfg(test)]"@
}

pub open spec fn test_marker() -> Seq<char> {
    "#[test]"@
}

/// The first test-item marker at or after `i`, or `s.len()`.
pub open spec fn first_marker(s: Seq<char>, i: int) -> int {
    let a = find_seq_from(s, cfg_test_marker(), i);
    let b = find_seq_from(s, test_marker(), i);
    if a <= b { a } else { b }
}

/// `s` from `i` on with every test item blanked: from each
/// `#[cfg(test)]` or `#[test]` through the brace-balanced span after it,
/// or, with no brace to balance, through the end of its line.
pub open spec fn strip_tests(s: Seq<char>, i: int) -> Seq<char>
    decreases s.len() - i,
{
    if i < 0 || i >= s.len() {
        Seq::empty()
    } else {
        let m = first_marker(s, i);
        if m >= s.len() || m < i {
            s.subrange(i, s.len() as int)
        } else {
            match brace_span_from(s, m) {
                Some(end) => if m < end <= s.len() {
                    s.subrange(i, m) + blank(s.subrange(m, end)) + strip_tests(s, end)
                } else {
                    s.subrange(i, s.len() as int)
                },
                None => {
                    let nl = find_char_from(s, '\n', m);
                    let stop = if nl < s.len() { nl + 1 } else { s.len() as int };
                    if m < stop <= s.len() {
                        s.subrange(i, m) + blank(s.subrange(m, stop)) + strip_tests(s, stop)
                    } else {
                        s.subrange(i, s.len() as int)
                    }
                },
            }
        }
    }
}

proof fn lemma_first_marker(s: Seq<char>, i: int)
    requires
        0 <= i <= s.len(),
    ensures
        i <= first_marker(s, i) <= s.len(),
{
    lemma_find_seq_from(s, cfg_test_marker(), i);
    lemma_find_seq_from(s, test_marker(), i);
}

/// Blanking test items keeps the text's length and every line break.
pub proof fn lemma_strip_tests_keeps_lines(s: Seq<char>, i: int)
    requires
        0 <= i <= s.len(),
    ensures
        same_shape(strip_tests(s, i), s.subrange(i, s.len() as int)),
    decreases s.len() - i,
{
    let rest = s.subrange(i, s.len() as int);
    if i >= s.len() {
        assert(rest =~= Seq::<char>::empty());
    } else {
        lemma_first_marker(s, i);
        let m = first_marker(s, i);
        if m >= s.len() || m < i {
        } else {
            let stop = match brace_span_from(s, m) {
                Some(end) => end,
                None => {
                    let nl = find_char_from(s, '\n', m);
                    if nl < s.len() { nl + 1 } else { s.len() as int }
                },
            };
            if m < stop <= s.len() {
                lemma_strip_tests_keeps_lines(s, stop);
                lemma_blank_shape(s.subrange(m, stop));
                lemma_shape_concat(s.subrange(i, m), s.subrange(i, m), blank(s.subrange(m, stop)), s.subrange(m, stop));
                lemma_shape_concat(s.subrange(i, m) + blank(s.subrange(m, stop)), s.subrange(i, m) + s.subrange(m, stop), strip_tests(s, stop), s.subrange(stop, s.len() as int));
                assert(s.subrange(i, m) + s.subrange(m, stop) + s.subrange(stop, s.len() as int) =~= rest);
            }
        }
    }
}

fn push_range(out: &mut Vec<char>, s: &Vec<char>, from: usize, to: usize)
    requires
        from <= to <= s@.len(),
    ensures
        final(out)@ == old(out)@ + s@.subrange(from as int, to as int),
{
    let ghost start = out@;
    let mut k = from;
    while k < to
        invariant
            from <= k <= to <= s@.len(),
            out@ == start + s@.subrange(from as int, k as int),
        decreases to - k,
    {
        out.push(s[k]);
        proof { assert(s@.subrange(from as int, k + 1) =~= s@.subrange(from as int, k as int).push(s@[k as int])); }
        k = k + 1;
    }
}

/// `contents` with every Rust test item blanked (line breaks kept); see
/// [`strip_tests`].
pub fn strip_rust_test_items(contents: &str) -> (r: String)
    ensures
        r@ == strip_tests(contents@, 0),
        same_shape(r@, contents@),
{
    let s = chars_of(contents);
    let cfg = chars_of("#[cfg(test)]");
    let tst = chars_of("#[test]");
    proof {
        reveal_strlit("#[cfg(test)]");
        reveal_strlit("#[test]");
    }
    let mut out: Vec<char> = Vec::new();
    let mut i: usize = 0;
    while i < s.len()
        invariant
            i <= s@.len(),
            s@ == contents@,
            cfg@ == cfg_test_marker(),
            tst@ == test_marker(),
            out@ + strip_tests(s@, i as int) == strip_tests(s@, 0),
        decreases s@.len() - i,
    {
        let ghost before = out@;
        let a = find_seq(&s, &cfg, i);
        let b = find_seq(&s, &tst, i);
        let m = if a <= b { a } else { b };
        proof { lemma_first_marker(s@, i as int); }
        if m >= s.len() {
            push_range(&mut out, &s, i, s.len());
            proof { assert(strip_tests(s@, s@.len() as int) =~= Seq::<char>::empty()); }
            i = s.len();
        } else {
            let stop = match brace_span(&s, m) {
                Some(end) => {
                    proof { lemma_brace_end(s@, find_char_from(s@, '{', m as int), 0); lemma_find_char_from(s@, '{', m as int); }
                    end
                },
                None => {
                    let nl = index_of_char(&s, '\n', m);
                    proof { lemma_find_char_from(s@, '\n', m as int); }
                    if nl < s.len() { nl + 1 } else { s.len() }
                },
            };
            proof {
                let o = find_char_from(s@, '{', m as int);
                if brace_span_from(s@, m as int) is Some {
                    assert(m <= o);
                }
            }
            push_range(&mut out, &s, i, m);
            blank_into(&mut out, &s, m, stop);
            proof { assert(before + strip_tests(s@, i as int) =~= out@ + strip_tests(s@, stop as int)); }
            i = stop;
        }
    }
    proof {
        assert(out@ =~= strip_tests(s@, 0));
        lemma_strip_tests_keeps_lines(s@, 0);
        assert(s@.subrange(0, s@.len() as int) =~= s@);
    }
    string_of(&out, 0, out.len())
}


// --- which files, and where in them ---------------------------------------------

/// Whether a corpus-relative path lies in a test directory: some
/// segment is `test` or `tests`, ASCII case-insensitively.
pub open spec fn spec_is_test_path(relative: Seq<char>) -> bool {
    let segs = pieces_from(relative, '/', 0);
    exists|k: int| 0 <= k < segs.len() && (eq_ignore_ascii_case(#[trigger] segs[k], "test"@) || eq_ignore_ascii_case(segs[k], "tests"@))
}

pub fn is_test_path(relative: &str) -> (r: bool)
    ensures
        r == spec_is_test_path(relative@),
{
    let segs = split_pieces(&chars_of(relative), '/');
    let ghost sv = segs@.map_values(|q: Vec<char>| q@);
    let test = chars_of("test");
    let tests = chars_of("tests");
    let mut k: usize = 0;
    while k < segs.len()
        invariant
            k <= segs@.len(),
            sv == segs@.map_values(|q: Vec<char>| q@),
            sv == pieces_from(relative@, '/', 0),
            test@ == "test"@,
            tests@ == "tests"@,
            forall|m: int| 0 <= m < k ==> !(eq_ignore_ascii_case(#[trigger] sv[m], "test"@) || eq_ignore_ascii_case(sv[m], "tests"@)),
        decreases segs@.len() - k,
    {
        assert(sv[k as int] == segs@[k as int]@);
        if seq_eq_ignore_ascii_case(&segs[k], &test) || seq_eq_ignore_ascii_case(&segs[k], &tests) {
            return true;
        }
        k = k + 1;
    }
    false
}

/// The positions of `lit`'s matches in `s` from `i` on, left to right
/// and non-overlapping (`str::match_indices`); an empty `lit` matches at
/// every position, the end included.
pub open spec fn match_positions(s: Seq<char>, lit: Seq<char>, i: int) -> Seq<int>
    decreases s.len() + 1 - i,
{
    if i < 0 || i > s.len() {
        Seq::empty()
    } else if lit.len() == 0 {
        seq![i] + match_positions(s, lit, i + 1)
    } else {
        let p = find_seq_from(s, lit, i);
        if p >= s.len() || p < i {
            Seq::empty()
        } else {
            proof { lemma_find_seq_from(s, lit, i); }
            seq![p] + match_positions(s, lit, p + lit.len())
        }
    }
}

/// The number of line breaks among the first `n` characters.
pub open spec fn breaks_before(s: Seq<char>, n: int) -> nat
    decreases n,
{
    if n <= 0 {
        0
    } else {
        breaks_before(s, n - 1) + if s[n - 1] == '\n' { 1nat } else { 0nat }
    }
}

/// The 1-indexed lines of the first `n` match positions, each line once
/// even when it holds several matches.
pub open spec fn hit_lines(s: Seq<char>, ps: Seq<int>, n: int) -> Seq<nat>
    decreases n,
{
    if n <= 0 {
        Seq::empty()
    } else {
        let prev = hit_lines(s, ps, n - 1);
        let line = 1 + breaks_before(s, ps[n - 1]);
        if prev.len() > 0 && prev.last() == line { prev } else { prev.push(line) }
    }
}

pub open spec fn spec_literal_lines(s: Seq<char>, lit: Seq<char>) -> Seq<nat> {
    let ps = match_positions(s, lit, 0);
    hit_lines(s, ps, ps.len() as int)
}

proof fn lemma_breaks_bound(s: Seq<char>, n: int)
    requires
        0 <= n,
    ensures
        breaks_before(s, n) <= n,
    decreases n,
{
    if n > 0 {
        lemma_breaks_bound(s, n - 1);
    }
}

/// The lines of `searched` on which `literal` occurs, ascending, each
/// once.
pub fn literal_lines(searched: &str, literal: &str) -> (r: Vec<usize>)
    requires
        searched@.len() < usize::MAX,
    ensures
        r@.map_values(|l: usize| l as nat) == spec_literal_lines(searched@, literal@),
{
    let s = chars_of(searched);
    let lit = chars_of(literal);
    let ghost all = match_positions(s@, lit@, 0);
    let mut out: Vec<usize> = Vec::new();
    let mut i: usize = 0;
    let mut counted: usize = 0;
    let mut line: usize = 1;
    let ghost mut k: int = 0;
    let mut done = false;
    while !done
        invariant
            i <= s@.len(),
            counted <= s@.len(),
            s@ == searched@,
            s@.len() < usize::MAX,
            lit@ == literal@,
            all == match_positions(s@, lit@, 0),
            0 <= k <= all.len(),
            !done ==> match_positions(s@, lit@, i as int) == all.skip(k),
            done ==> k == all.len(),
            line == 1 + breaks_before(s@, counted as int),
            counted <= i,
            k > 0 ==> counted as int == all[k - 1],
            out@.map_values(|l: usize| l as nat) == hit_lines(s@, all, k),
            forall|m: int| 0 <= m < k ==> 0 <= #[trigger] all[m] <= i,
        decreases (if done { 0 } else { s@.len() + 2 - i }),
    {
        let p: usize;
        if lit.len() == 0 {
            p = i;
        } else {
            let q = find_seq(&s, &lit, i);
            proof { lemma_find_seq_from(s@, lit@, i as int); }
            if q >= s.len() {
                proof { assert(match_positions(s@, lit@, i as int) =~= Seq::<int>::empty()); }
                done = true;
                proof { assert(all.skip(k).len() == 0); }
                continue;
            }
            p = q;
        }
        proof {
            assert(match_positions(s@, lit@, i as int)[0] == p);
            assert(match_positions(s@, lit@, i as int).len() >= 1);
            assert(all.skip(k).len() >= 1);
            assert(k < all.len());
            assert(all.skip(k)[0] == all[k]);
        }
        let mut c = counted;
        while c < p
            invariant
                counted <= c <= p <= s@.len(),
                line == 1 + breaks_before(s@, c as int),
                s@.len() < usize::MAX,
            decreases p - c,
        {
            proof { lemma_breaks_bound(s@, c as int); }
            if s[c] == '\n' {
                line = line + 1;
            }
            c = c + 1;
        }
        counted = p;
        let ghost prev = out@.map_values(|l: usize| l as nat);
        if out.len() == 0 || out[out.len() - 1] != line {
            out.push(line);
            proof { assert(out@.map_values(|l: usize| l as nat) =~= prev.push(line as nat)); }
        }
        proof {
            k = k + 1;
        }
        if lit.len() == 0 {
            if p >= s.len() {
                done = true;
                proof {
                    assert(match_positions(s@, lit@, (p + 1) as int) =~= Seq::<int>::empty());
                    assert(all.skip(k - 1) =~= seq![p as int] + match_positions(s@, lit@, (p + 1) as int));
                    assert(all.skip(k - 1).len() == 1);
                }
            } else {
                proof { assert(all.skip(k) =~= all.skip(k - 1).skip(1)); }
                i = p + 1;
            }
        } else {
            proof {
                assert(all.skip(k) =~= all.skip(k - 1).skip(1));
                assert(occurs_at(s@, lit@, p as int));
            }
            i = p + lit.len();
        }
    }
    out
}


/// Where a literal occurs in the source tree, and which files could not
/// be read as text.
#[derive(Debug, Clone, PartialEq, Eq)]
pub struct LiteralSearch {
    pub hits: Vec<SourceHit>,
    pub skipped: Vec<String>,
}

/// Whether a file is searched at all: markdown and anything under a test
/// directory are not the project's own source.
pub open spec fn spec_is_searched(relative: Seq<char>, extension: Seq<char>) -> bool {
    extension != "md"@ && !spec_is_test_path(relative)
}

pub fn is_searched(relative: &str, extension: &str) -> (r: bool)
    ensures
        r == spec_is_searched(relative@, extension@),
{
    proof { reveal_strlit("md"); }
    !str_eq(extension, "md") && !is_test_path(relative)
}

/// The text a file is searched in: comments blanked by its extension's
/// syntax, and for Rust test items too.
pub open spec fn spec_searched_text(contents: Seq<char>, extension: Seq<char>) -> Seq<char> {
    let stripped = strip_out(contents, spec_comment_syntax(extension), 0, false);
    if extension == "rs"@ { strip_tests(stripped, 0) } else { stripped }
}

proof fn lemma_table_wf(e: Seq<char>)
    ensures
        syntax_wf(spec_comment_syntax(e)),
{
    reveal_strlit("//"); reveal_strlit("/*"); reveal_strlit("*/"); reveal_strlit("#"); reveal_strlit("\\*");
    reveal_strlit("(*"); reveal_strlit("*)"); reveal_strlit("--"); reveal_strlit("/-"); reveal_strlit("-/");
    reveal_strlit("{-"); reveal_strlit("-}"); reveal_strlit("--[["); reveal_strlit("]]");
}

proof fn lemma_find_first(s: Seq<char>, lit: Seq<char>, i: int)
    requires
        0 <= i <= s.len(),
    ensures
        forall|q: int| i <= q < find_seq_from(s, lit, i) ==> !occurs_at(s, lit, q),
    decreases s.len() - i,
{
    if i < s.len() && i + lit.len() <= s.len() && !occurs_at(s, lit, i) {
        lemma_find_first(s, lit, i + 1);
    } else if !(i < s.len() && i + lit.len() <= s.len()) {
        assert forall|q: int| i <= q < find_seq_from(s, lit, i) implies !occurs_at(s, lit, q) by {
            if i >= s.len() {
            } else {
                assert(q + lit.len() > s.len());
            }
        }
    }
}

/// An occurrence of `lit` starts at `q` (kept apart from `occurs_at` so
/// that the coverage fact below is used only where asked for).
pub open spec fn found_at(s: Seq<char>, lit: Seq<char>, q: int) -> bool {
    occurs_at(s, lit, q)
}

/// The matches of a non-empty literal from `i` on: each an occurrence,
/// left to right without overlap, and every occurrence from `i` on lies
/// within one of them.
#[verifier::spinoff_prover]
#[verifier::rlimit(40)]
proof fn lemma_match_positions(s: Seq<char>, lit: Seq<char>, i: int)
    requires
        lit.len() > 0,
        0 <= i <= s.len(),
    ensures
        forall|k: int| 0 <= k < match_positions(s, lit, i).len() ==> i <= #[trigger] match_positions(s, lit, i)[k] && occurs_at(s, lit, match_positions(s, lit, i)[k]),
        forall|j: int, k: int| 0 <= j < k < match_positions(s, lit, i).len() ==> #[trigger] match_positions(s, lit, i)[j] + lit.len() <= #[trigger] match_positions(s, lit, i)[k],
        forall|q: int| i <= q && #[trigger] found_at(s, lit, q) ==> exists|k: int| 0 <= k < match_positions(s, lit, i).len() && match_positions(s, lit, i)[k] <= q < #[trigger] match_positions(s, lit, i)[k] + lit.len(),
    decreases s.len() + 1 - i,
{
    let m = match_positions(s, lit, i);
    let p = find_seq_from(s, lit, i);
    lemma_find_seq_from(s, lit, i);
    lemma_find_first(s, lit, i);
    if p >= s.len() || p < i {
        assert forall|q: int| i <= q && #[trigger] found_at(s, lit, q) implies exists|k: int| 0 <= k < m.len() && m[k] <= q < #[trigger] m[k] + lit.len() by {
            assert(q < s.len());
        }
    } else {
        let rest = match_positions(s, lit, p + lit.len());
        lemma_match_positions(s, lit, p + lit.len());
        assert(m =~= seq![p] + rest);
        assert forall|k: int| 0 <= k < m.len() implies i <= #[trigger] m[k] && occurs_at(s, lit, m[k]) by {
            if k > 0 {
                assert(m[k] == rest[k - 1]);
            }
        }
        assert forall|j: int, k: int| 0 <= j < k < m.len() implies #[trigger] m[j] + lit.len() <= #[trigger] m[k] by {
            assert(m[k] == rest[k - 1]);
            if j > 0 {
                assert(m[j] == rest[j - 1]);
            }
        }
        assert forall|q: int| i <= q && #[trigger] found_at(s, lit, q) implies exists|k: int| 0 <= k < m.len() && m[k] <= q < #[trigger] m[k] + lit.len() by {
            if q < p + lit.len() {
                assert(m[0] == p);
            } else {
                assert(found_at(s, lit, q));
                let k = choose|k: int| 0 <= k < rest.len() && rest[k] <= q < #[trigger] rest[k] + lit.len();
                assert(m[k + 1] == rest[k]);
            }
        }
    }
}

proof fn lemma_breaks_mono(s: Seq<char>, a: int, b: int)
    requires
        0 <= a <= b,
    ensures
        breaks_before(s, a) <= breaks_before(s, b),
    decreases b,
{
    if a < b {
        lemma_breaks_mono(s, a, b - 1);
    }
}

proof fn lemma_breaks_flat(s: Seq<char>, a: int, b: int)
    requires
        0 <= a <= b,
        forall|t: int| a <= t < b ==> s[t] != '\n',
    ensures
        breaks_before(s, a) == breaks_before(s, b),
    decreases b,
{
    if a < b {
        lemma_breaks_flat(s, a, b - 1);
    }
}

/// The line a position of `s` lies on, counted from 1.
pub open spec fn line_at_pos(s: Seq<char>, p: int) -> nat {
    1 + breaks_before(s, p)
}

#[verifier::spinoff_prover]
#[verifier::rlimit(80)]
proof fn lemma_hit_lines(s: Seq<char>, ps: Seq<int>, n: int)
    requires
        0 <= n <= ps.len(),
        forall|k: int| 0 <= k < ps.len() ==> 0 <= #[trigger] ps[k],
        forall|j: int, k: int| 0 <= j < k < ps.len() ==> #[trigger] ps[j] <= #[trigger] ps[k],
    ensures
        forall|a: int, b: int| 0 <= a < b < hit_lines(s, ps, n).len() ==> #[trigger] hit_lines(s, ps, n)[a] < #[trigger] hit_lines(s, ps, n)[b],
        forall|a: int| 0 <= a < hit_lines(s, ps, n).len() ==> exists|k: int| 0 <= k < n && #[trigger] hit_lines(s, ps, n)[a] == line_at_pos(s, ps[k]),
        forall|k: int| 0 <= k < n ==> exists|a: int| 0 <= a < hit_lines(s, ps, n).len() && hit_lines(s, ps, n)[a] == line_at_pos(s, #[trigger] ps[k]),
        n > 0 ==> hit_lines(s, ps, n).len() > 0 && hit_lines(s, ps, n).last() == line_at_pos(s, ps[n - 1]),
    decreases n,
{
    if n > 0 {
        lemma_hit_lines(s, ps, n - 1);
        let prev = hit_lines(s, ps, n - 1);
        let h = hit_lines(s, ps, n);
        let line = line_at_pos(s, ps[n - 1]);
        if n > 1 {
            lemma_breaks_mono(s, ps[n - 2], ps[n - 1]);
        }
        if prev.len() > 0 && prev.last() == line {
            assert forall|k: int| 0 <= k < n implies exists|a: int| 0 <= a < h.len() && h[a] == line_at_pos(s, #[trigger] ps[k]) by {
                if k == n - 1 {
                    assert(h[prev.len() - 1] == line);
                }
            }
        } else {
            assert(h == prev.push(line));
            assert forall|a: int, b: int| 0 <= a < b < h.len() implies #[trigger] h[a] < #[trigger] h[b] by {
                if b == h.len() - 1 && a < prev.len() {
                    assert(h[a] == prev[a]);
                    assert(prev.last() <= line);
                    if a < prev.len() - 1 {
                        assert(prev[a] < prev[prev.len() - 1]);
                    }
                } else if b < prev.len() {
                    assert(h[a] == prev[a] && h[b] == prev[b]);
                }
            }
            assert forall|a: int| 0 <= a < h.len() implies exists|k: int| 0 <= k < n && #[trigger] h[a] == line_at_pos(s, ps[k]) by {
                if a < prev.len() {
                    assert(h[a] == prev[a]);
                } else {
                    assert(h[a] == line_at_pos(s, ps[n - 1]));
                }
            }
            assert forall|k: int| 0 <= k < n implies exists|a: int| 0 <= a < h.len() && h[a] == line_at_pos(s, #[trigger] ps[k]) by {
                if k == n - 1 {
                    assert(h[prev.len() as int] == line);
                } else {
                    let a = choose|a: int| 0 <= a < prev.len() && prev[a] == line_at_pos(s, ps[k]);
                    assert(h[a] == prev[a]);
                }
            }
        }
    }
}

/// Line `l` of `s` holds an occurrence of `lit`.
pub open spec fn line_holds(s: Seq<char>, lit: Seq<char>, l: nat) -> bool {
    exists|q: int| #[trigger] occurs_at(s, lit, q) && line_at_pos(s, q) == l
}

proof fn lemma_same_line_in_match(s: Seq<char>, lit: Seq<char>, p: int, q: int)
    requires
        !lit.contains('\n'),
        occurs_at(s, lit, p),
        p <= q < p + lit.len(),
    ensures
        line_at_pos(s, p) == line_at_pos(s, q),
{
    assert forall|t: int| p <= t < q implies s[t] != '\n' by {
        assert(s.subrange(p, p + lit.len())[t - p] == s[t]);
        if lit[t - p] == '\n' {
            assert(lit.contains('\n'));
        }
    }
    lemma_breaks_flat(s, p, q);
}

proof fn lemma_found_line_holds(s: Seq<char>, lit: Seq<char>, l: nat)
    requires
        lit.len() > 0,
        spec_literal_lines(s, lit).contains(l),
    ensures
        line_holds(s, lit, l),
{
    let ps = match_positions(s, lit, 0);
    lemma_match_positions(s, lit, 0);
    assert forall|j: int, k: int| 0 <= j < k < ps.len() implies #[trigger] ps[j] <= #[trigger] ps[k] by {
        assert(ps[j] + lit.len() <= ps[k]);
    }
    lemma_hit_lines(s, ps, ps.len() as int);
    let h = hit_lines(s, ps, ps.len() as int);
    let a = choose|a: int| 0 <= a < h.len() && h[a] == l;
    let k = choose|k: int| 0 <= k < ps.len() && #[trigger] h[a] == line_at_pos(s, ps[k]);
    assert(occurs_at(s, lit, ps[k]));
}

#[verifier::spinoff_prover]
#[verifier::rlimit(80)]
proof fn lemma_held_line_found(s: Seq<char>, lit: Seq<char>, l: nat)
    requires
        lit.len() > 0,
        !lit.contains('\n'),
        line_holds(s, lit, l),
    ensures
        spec_literal_lines(s, lit).contains(l),
{
    let ps = match_positions(s, lit, 0);
    lemma_match_positions(s, lit, 0);
    assert forall|j: int, k: int| 0 <= j < k < ps.len() implies #[trigger] ps[j] <= #[trigger] ps[k] by {
        assert(ps[j] + lit.len() <= ps[k]);
    }
    lemma_hit_lines(s, ps, ps.len() as int);
    let h = hit_lines(s, ps, ps.len() as int);
    let q = choose|q: int| #[trigger] occurs_at(s, lit, q) && line_at_pos(s, q) == l;
    assert(0 <= q);
    assert(found_at(s, lit, q));
    let k = choose|k: int| 0 <= k < ps.len() && ps[k] <= q < #[trigger] ps[k] + lit.len();
    lemma_same_line_in_match(s, lit, ps[k], q);
    let a = choose|a: int| 0 <= a < h.len() && h[a] == line_at_pos(s, #[trigger] ps[k]);
    assert(h[a] == l);
    assert(h.contains(l));
    assert(spec_literal_lines(s, lit) == h);
}

/// For a non-empty literal with no line break, the lines a search reports
/// are exactly the lines holding an occurrence of the literal, each once,
/// ascending.
pub proof fn lemma_literal_lines_exact(s: Seq<char>, lit: Seq<char>)
    requires
        lit.len() > 0,
        !lit.contains('\n'),
    ensures
        forall|a: int, b: int| 0 <= a < b < spec_literal_lines(s, lit).len() ==> #[trigger] spec_literal_lines(s, lit)[a] < #[trigger] spec_literal_lines(s, lit)[b],
        forall|l: nat| spec_literal_lines(s, lit).contains(l) <==> line_holds(s, lit, l),
{
    let ps = match_positions(s, lit, 0);
    lemma_match_positions(s, lit, 0);
    assert forall|j: int, k: int| 0 <= j < k < ps.len() implies #[trigger] ps[j] <= #[trigger] ps[k] by {
        assert(ps[j] + lit.len() <= ps[k]);
    }
    lemma_hit_lines(s, ps, ps.len() as int);
    assert forall|l: nat| spec_literal_lines(s, lit).contains(l) <==> line_holds(s, lit, l) by {
        if spec_literal_lines(s, lit).contains(l) {
            lemma_found_line_holds(s, lit, l);
        }
        if line_holds(s, lit, l) {
            lemma_held_line_found(s, lit, l);
        }
    }
}

/// The C-family file types: `//` line comments and `/* */` block comments.
pub open spec fn c_family_extension(e: Seq<char>) -> bool {
    ||| e == "rs"@ ||| e == "go"@ ||| e == "java"@ ||| e == "js"@ ||| e == "jsx"@ ||| e == "ts"@ ||| e == "tsx"@
    ||| e == "c"@ ||| e == "h"@ ||| e == "cc"@ ||| e == "cpp"@ ||| e == "hpp"@ ||| e == "swift"@ ||| e == "kt"@
    ||| e == "scala"@ ||| e == "rescript"@
}

/// Line comments from `//`, block comments from `/*` to `*/`.
pub open spec fn c_comments() -> CommentSyntaxV {
    CommentSyntaxV { line: Some("//"@), block: Some(("/*"@, "*/"@)) }
}

/// Every C-family file type has `//` line comments and `/* */` block
/// comments.
pub proof fn lemma_c_family_comment_syntax(e: Seq<char>)
    requires
        c_family_extension(e),
    ensures
        spec_comment_syntax(e) == c_comments(),
{
}

proof fn lemma_strip_plain(s: Seq<char>, i: int, k: int)
    requires
        0 <= i <= k <= s.len(),
        forall|t: int| i <= t < k ==> s[t] != '"' && s[t] != '/',
    ensures
        strip_out(s, c_comments(), i, false) == s.subrange(i, k) + strip_out(s, c_comments(), k, false),
    decreases k - i,
{
    reveal_strlit("//");
    reveal_strlit("/*");
    if i < k {
        lemma_strip_plain(s, i + 1, k);
        assert(!occurs_at(s, "/*"@, i)) by {
            if occurs_at(s, "/*"@, i) {
                assert(s.subrange(i, i + 2)[0] == s[i]);
            }
        }
        assert(!occurs_at(s, "//"@, i)) by {
            if occurs_at(s, "//"@, i) {
                assert(s.subrange(i, i + 2)[0] == s[i]);
            }
        }
        assert(s.subrange(i, k) =~= seq![s[i]] + s.subrange(i + 1, k));
    } else {
        assert(s.subrange(i, k) =~= Seq::<char>::empty());
    }
}

/// In a C-family file, code before a `//` on its line (free of quotes and
/// slashes) is searched as written, and everything from the `//` to the
/// end of the line is blanked.
pub proof fn lemma_code_then_line_comment(s: Seq<char>, k: int)
    requires
        0 <= k,
        k + 2 <= s.len(),
        s.subrange(k, k + 2) == "//"@,
        forall|t: int| 0 <= t < k ==> s[t] != '"' && s[t] != '/',
    ensures
        strip_out(s, c_comments(), 0, false) == s.take(k) + blank(s.subrange(k, find_char_from(s, '\n', k)))
            + strip_out(s, c_comments(), find_char_from(s, '\n', k), false),
{
    reveal_strlit("//");
    reveal_strlit("/*");
    lemma_strip_plain(s, 0, k);
    assert(s[k] == s.subrange(k, k + 2)[0]);
    assert(s[k + 1] == s.subrange(k, k + 2)[1]);
    assert(!occurs_at(s, "/*"@, k)) by {
        if occurs_at(s, "/*"@, k) {
            assert(s.subrange(k, k + 2)[1] == "/*"@[1]);
        }
    }
    assert(occurs_at(s, "//"@, k));
    assert(s.subrange(0, k) =~= s.take(k));
}

/// In a C-family file other than Rust (whose test items are stripped
/// too), a file that opens with a `//` comment never reports its first
/// line: a literal found only in that comment is not found.
pub proof fn lemma_commented_first_line_never_hit(e: Seq<char>, s: Seq<char>, lit: Seq<char>)
    requires
        c_family_extension(e),
        e != "rs"@,
        s.len() >= 2,
        s.subrange(0, 2) == "//"@,
        lit.len() > 0,
        !lit.contains('\n'),
        exists|t: int| 0 <= t < lit.len() && lit[t] != ' ',
    ensures
        !spec_literal_lines(spec_searched_text(s, e), lit).contains(1),
{
    lemma_c_family_comment_syntax(e);
    lemma_code_then_line_comment(s, 0);
    let nl = find_char_from(s, '\n', 0);
    lemma_find_char_from(s, '\n', 0);
    let b = blank(s.subrange(0, nl));
    let rest = strip_out(s, c_comments(), nl, false);
    let txt = spec_searched_text(s, e);
    assert(txt == b + rest) by {
        assert(s.take(0) =~= Seq::<char>::empty());
        assert(Seq::<char>::empty() + b =~= b);
    }
    assert(b.len() == nl);
    assert forall|t: int| 0 <= t < nl implies #[trigger] txt[t] == ' ' by {
        assert(txt[t] == b[t]);
        assert(s.subrange(0, nl)[t] == s[t]);
    }
    if nl < s.len() {
        reveal_strlit("//");
        reveal_strlit("/*");
        assert(!occurs_at(s, "/*"@, nl)) by {
            if occurs_at(s, "/*"@, nl) {
                assert(s.subrange(nl, nl + 2)[0] == s[nl]);
            }
        }
        assert(!occurs_at(s, "//"@, nl)) by {
            if occurs_at(s, "//"@, nl) {
                assert(s.subrange(nl, nl + 2)[0] == s[nl]);
            }
        }
        assert(rest[0] == '\n');
        assert(txt[nl] == '\n');
    } else {
        assert(rest =~= Seq::<char>::empty());
        assert(txt.len() == nl);
    }
    lemma_literal_lines_exact(txt, lit);
    if line_holds(txt, lit, 1) {
        let q = choose|q: int| #[trigger] occurs_at(txt, lit, q) && line_at_pos(txt, q) == 1;
        let w = choose|t: int| 0 <= t < lit.len() && lit[t] != ' ';
        assert(lit[w] == txt.subrange(q, q + lit.len())[w]);
        if q > nl {
            lemma_breaks_mono(txt, nl + 1, q);
        } else if q == nl {
            assert(lit[0] == txt.subrange(q, q + lit.len())[0]);
            assert(lit.contains('\n'));
        } else if q + lit.len() <= nl {
            assert(txt[q + w] == ' ');
        } else {
            assert(nl < txt.len());
            assert(lit[nl - q] == txt.subrange(q, q + lit.len())[nl - q]);
            assert(lit.contains('\n'));
        }
    }
}

/// The hits of `literal` in one file (its corpus-relative path, its
/// lowercased extension, its text): every line of the searched text
/// holding a match, ascending.
pub fn search_file(relative: &str, extension: &str, contents: &str, literal: &str) -> (r: Vec<SourceHit>)
    requires
        contents@.len() < usize::MAX,
    ensures
        r@.map_values(|h: SourceHit| (h.file@, h.line.0 as nat)) == spec_literal_lines(spec_searched_text(contents@, extension@), literal@).map_values(
            |l: nat| (relative@, l),
        ),
{
    let syntax = comment_syntax(extension);
    proof { lemma_table_wf(extension@); reveal_strlit("rs"); }
    let stripped = strip_comments(contents, &syntax);
    let searched = if str_eq(extension, "rs") { strip_rust_test_items(stripped.as_str()) } else { stripped };
    let lines = literal_lines(searched.as_str(), literal);
    let ghost lv = lines@.map_values(|l: usize| l as nat);
    let mut out: Vec<SourceHit> = Vec::new();
    let mut k: usize = 0;
    while k < lines.len()
        invariant
            k <= lines@.len(),
            lv == lines@.map_values(|l: usize| l as nat),
            out@.map_values(|h: SourceHit| (h.file@, h.line.0 as nat)) == lv.take(k as int).map_values(|l: nat| (relative@, l)),
        decreases lines@.len() - k,
    {
        let ghost prev = out@.map_values(|h: SourceHit| (h.file@, h.line.0 as nat));
        let h = SourceHit { file: owned(relative), line: Line(lines[k]) };
        out.push(h);
        proof {
            assert(out@.map_values(|h: SourceHit| (h.file@, h.line.0 as nat)) =~= prev.push((relative@, lines@[k as int] as nat)));
            assert(lv.take(k + 1).map_values(|l: nat| (relative@, l)) =~= lv.take(k as int).map_values(|l: nat| (relative@, l)).push((relative@, lv[k as int])));
        }
        k = k + 1;
    }
    proof { assert(lv.take(lv.len() as int) =~= lv); }
    out
}

// --- stale absence markers -----------------------------------------------------

/// A marker for an `absent` claim naming a literal its claim's prose
/// never mentions in inline code: the marker has drifted from the claim.
#[derive(Debug, Clone, PartialEq, Eq)]
pub struct StaleAbsenceMarker {
    pub file: String,
    pub line: Line,
    pub id: ClaimId,
    pub literal: String,
}

impl View for StaleAbsenceMarker {
    type V = (Seq<char>, usize, Seq<char>, Seq<char>);

    open spec fn view(&self) -> (Seq<char>, usize, Seq<char>, Seq<char>) {
        (self.file@, self.line.0, self.id@, self.literal@)
    }
}

/// The stale markers of claim `c` among the first `n` markers.
pub open spec fn stale_for(c: ClaimV, ms: Seq<MarkerV>, n: int) -> Seq<(Seq<char>, usize, Seq<char>, Seq<char>)>
    decreases n,
{
    if n <= 0 {
        Seq::empty()
    } else {
        let m = ms[n - 1];
        stale_for(c, ms, n - 1) + match m.command {
            Some(cmd) => if m.id == c.id && m.file == c.file && !c.prose_code.contains(cmd) {
                seq![(m.file, m.line, c.id, cmd)]
            } else {
                Seq::empty()
            },
            None => Seq::empty(),
        }
    }
}

/// Over the first `n` claims, those graded `absent`.
pub open spec fn spec_stale_markers(cs: Seq<ClaimV>, ms: Seq<MarkerV>, n: int) -> Seq<(Seq<char>, usize, Seq<char>, Seq<char>)>
    decreases n,
{
    if n <= 0 {
        Seq::empty()
    } else {
        let c = cs[n - 1];
        spec_stale_markers(cs, ms, n - 1) + if c.raw.evaluator == Some("absent"@) { stale_for(c, ms, ms.len() as int) } else { Seq::empty() }
    }
}

fn contains_str(v: &Vec<String>, s: &str) -> (r: bool)
    ensures
        r == v.deep_view().contains(s@),
{
    let mut i: usize = 0;
    while i < v.len()
        invariant
            i <= v@.len(),
            forall|k: int| 0 <= k < i ==> v.deep_view()[k] != s@,
        decreases v@.len() - i,
    {
        if str_eq(v[i].as_str(), s) {
            assert(v.deep_view()[i as int] == s@);
            return true;
        }
        i = i + 1;
    }
    false
}

/// For every `absent` claim, each of its markers (same id, same file)
/// whose literal the claim's prose never shows as inline code.
pub fn find_stale_markers(corpus: &Corpus, markers: &Vec<Marker>) -> (r: Vec<StaleAbsenceMarker>)
    ensures
        r@.map_values(|x: StaleAbsenceMarker| x@) == spec_stale_markers(
            claims_view(corpus.claims@),
            markers@.map_values(|m: Marker| m@),
            corpus.claims@.len() as int,
        ),
{
    let ghost cv = claims_view(corpus.claims@);
    let ghost mv = markers@.map_values(|m: Marker| m@);
    let mut out: Vec<StaleAbsenceMarker> = Vec::new();
    let mut i: usize = 0;
    proof { reveal_strlit("absent"); }
    while i < corpus.claims.len()
        invariant
            i <= corpus.claims@.len(),
            cv == claims_view(corpus.claims@),
            mv == markers@.map_values(|m: Marker| m@),
            out@.map_values(|x: StaleAbsenceMarker| x@) == spec_stale_markers(cv, mv, i as int),
        decreases corpus.claims@.len() - i,
    {
        let c = &corpus.claims[i];
        assert(cv[i as int] == c@);
        let absent = match &c.raw.evaluator {
            Some(e) => str_eq(e.as_str(), "absent"),
            None => false,
        };
        if absent {
            let ghost base = out@.map_values(|x: StaleAbsenceMarker| x@);
            let mut j: usize = 0;
            while j < markers.len()
                invariant
                    j <= markers@.len(),
                    i < corpus.claims@.len(),
                    cv == claims_view(corpus.claims@),
                    mv == markers@.map_values(|m: Marker| m@),
                    c@ == cv[i as int],
                    out@.map_values(|x: StaleAbsenceMarker| x@) == base + stale_for(c@, mv, j as int),
                decreases markers@.len() - j,
            {
                let m = &markers[j];
                assert(mv[j as int] == m@);
                let ghost prev = out@.map_values(|x: StaleAbsenceMarker| x@);
                match &m.command {
                    Some(cmd) => {
                        if str_eq(m.id.as_str(), c.id.as_str()) && str_eq(m.file.as_str(), c.file.as_str())
                            && !contains_str(&c.prose_code, cmd.as_str()) {
                            let x = StaleAbsenceMarker { file: m.file.clone(), line: m.line, id: c.id.clone(), literal: cmd.clone() };
                            out.push(x);
                            proof { assert(out@.map_values(|x: StaleAbsenceMarker| x@) =~= prev + seq![x@]); }
                        } else {
                            proof { assert(out@.map_values(|x: StaleAbsenceMarker| x@) =~= prev + Seq::<(Seq<char>, usize, Seq<char>, Seq<char>)>::empty()); }
                        }
                    },
                    None => {
                        proof { assert(out@.map_values(|x: StaleAbsenceMarker| x@) =~= prev + Seq::<(Seq<char>, usize, Seq<char>, Seq<char>)>::empty()); }
                    },
                }
                j = j + 1;
            }
        } else {
            proof { assert(spec_stale_markers(cv, mv, i + 1) =~= spec_stale_markers(cv, mv, i as int)); }
        }
        i = i + 1;
    }
    out
}

/// A hit's file and line.
pub open spec fn hit_loc(h: SourceHit) -> (Seq<char>, nat) {
    (h.file@, h.line.0 as nat)
}

/// The hits of `lit` in the first `n` of `files` (each its corpus-relative
/// path, lowercased extension and text), file by file: nothing from a
/// file that is not searched.
pub open spec fn source_hits(files: Seq<(Seq<char>, Seq<char>, Seq<char>)>, lit: Seq<char>, n: int) -> Seq<(Seq<char>, nat)>
    decreases n,
{
    if n <= 0 {
        Seq::empty()
    } else {
        let f = files[n - 1];
        source_hits(files, lit, n - 1) + if spec_is_searched(f.0, f.1) {
            spec_literal_lines(spec_searched_text(f.2, f.1), lit).map_values(|l: nat| (f.0, l))
        } else {
            Seq::empty()
        }
    }
}

pub open spec fn files_view(files: Seq<(String, String, String)>) -> Seq<(Seq<char>, Seq<char>, Seq<char>)> {
    files.map_values(|f: (String, String, String)| (f.0@, f.1@, f.2@))
}

/// Where `literal` occurs in the project's source, given its files as
/// read (each its corpus-relative path, lowercased extension and text):
/// the hits of every searched file, stably sorted by file and line.
pub fn search_sources(files: &Vec<(String, String, String)>, literal: &str) -> (r: Vec<SourceHit>)
    requires
        forall|k: int| 0 <= k < files@.len() ==> (#[trigger] files@[k]).2@.len() < usize::MAX,
    ensures
        exists|h: Seq<SourceHit>|
            h.map_values(|x: SourceHit| hit_loc(x)) == source_hits(files_view(files@), literal@, files@.len() as int)
                && r@ == sort_located(h),
{
    let ghost fv = files_view(files@);
    let mut all: Vec<SourceHit> = Vec::new();
    let mut k: usize = 0;
    while k < files.len()
        invariant
            k <= files@.len(),
            fv == files_view(files@),
            forall|j: int| 0 <= j < files@.len() ==> (#[trigger] files@[j]).2@.len() < usize::MAX,
            all@.map_values(|x: SourceHit| hit_loc(x)) == source_hits(fv, literal@, k as int),
        decreases files@.len() - k,
    {
        let f = &files[k];
        assert(fv[k as int] == (f.0@, f.1@, f.2@));
        let ghost prev = all@;
        if is_searched(f.0.as_str(), f.1.as_str()) {
            let mut hits = search_file(f.0.as_str(), f.1.as_str(), f.2.as_str(), literal);
            let ghost hv = hits@;
            all.append(&mut hits);
            proof {
                assert(all@ =~= prev + hv);
                assert(all@.map_values(|x: SourceHit| hit_loc(x)) =~= prev.map_values(|x: SourceHit| hit_loc(x)) + hv.map_values(
                    |x: SourceHit| (x.file@, x.line.0 as nat),
                ));
            }
        } else {
            proof { assert(source_hits(fv, literal@, k + 1) =~= source_hits(fv, literal@, k as int)); }
        }
        k = k + 1;
    }
    let ghost h = all@;
    let r = sorted_by_location(all);
    proof { assert(h.map_values(|x: SourceHit| hit_loc(x)) == source_hits(files_view(files@), literal@, files@.len() as int) && r@ == sort_located(h)); }
    r
}

} // verus!
