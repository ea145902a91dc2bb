//! The extractor: claim-block syntax and id assignment, the prose-link
//! and prose-code scopes, the `normative-prose` own-voice scan, and the
//! definition diagnostics (`unregistered-definition`, `malformed-id`).
//!
//! It walks pulldown-cmark's event stream ([`crate::markdown`]); the
//! hand-rolled tokenizers here operate on an already-isolated string a
//! tree walk has produced, never on document structure.

use vstd::prelude::*;
use vstd::utf8::encode_utf8;
use vstd::string::StringSliceAdditionalSpecFns;
use crate::model::{Claim, ClaimId, ClaimV, Heading, HeadingV, Line};
use crate::markdown::{markdown_events, parse_markdown, MdEvent, MdTag, MdTagEnd, Spanned};
use crate::assembly::{
    build_anchors, claims_walk, collect_claims, collect_headings, collect_links, collect_malformed,
    collect_unregistered, document_links, fence_lines, names_a_scheme, lemma_document_links_local, lemma_claims_walk_local, lemma_anchor_ids_kebab, lemma_claims_walk_fences,
    lemma_select_tagged_split, select_tagged, lemma_claims_walk_kebab, lemma_unregistered_kebab,
    spec_anchors, spec_headings, spec_malformed, unregistered,
};
use crate::text::{
    char_is_alpha, char_is_digit, char_is_lower, char_is_whitespace, chars_of, chars_start_with,
    contains_chars, contains_seq, eq_ignore_ascii_case, index_of_char, is_alpha, is_digit,
    is_lower, is_whitespace, occurs_at, owned, seq_eq_ignore_ascii_case, starts_with, string_of,
    trim, trim_bounds, join_sep,
};

verus! {

// --- ids --------------------------------------------------------------------

/// The inner text of an exactly-bracketed, non-empty token (`[my-id]` ->
/// `my-id`).
pub open spec fn spec_bracket_token(t: Seq<char>) -> Option<Seq<char>> {
    if t.len() > 2 && t[0] == '[' && t[t.len() - 1] == ']' {
        Some(t.subrange(1, t.len() - 1))
    } else {
        None
    }
}

/// Whether some character of `s` is Unicode whitespace.
pub open spec fn has_whitespace(s: Seq<char>) -> bool {
    exists|i: int| 0 <= i < s.len() && is_whitespace(#[trigger] s[i])
}

/// Two hyphens in a row at `i`.
pub open spec fn double_hyphen_at(s: Seq<char>, i: int) -> bool {
    s[i] == '-' && s[i + 1] == '-'
}

/// The id grammar: lowercase kebab-case — non-empty `-`-separated
/// segments of ASCII lowercase letters and digits.
pub open spec fn is_kebab(s: Seq<char>) -> bool {
    &&& s.len() > 0
    &&& forall|i: int| 0 <= i < s.len() ==> is_lower(#[trigger] s[i]) || is_digit(s[i]) || s[i] == '-'
    &&& s[0] != '-'
    &&& s[s.len() - 1] != '-'
    &&& forall|i: int| 0 <= i < s.len() - 1 ==> !#[trigger] double_hyphen_at(s, i)
}

/// Whether `v` satisfies the id grammar.
pub fn kebab_chars(v: &Vec<char>) -> (r: bool)
    ensures
        r == is_kebab(v@),
{
    let n = v.len();
    if n == 0 || v[0] == '-' || v[n - 1] == '-' {
        return false;
    }
    let mut i: usize = 0;
    while i < n
        invariant
            n == v@.len() > 0,
            i <= n,
            forall|k: int| 0 <= k < i ==> is_lower(#[trigger] v@[k]) || is_digit(v@[k]) || v@[k] == '-',
            forall|k: int| 0 <= k < i && k < n - 1 ==> !#[trigger] double_hyphen_at(v@, k),
        decreases n - i,
    {
        let c = v[i];
        if !(char_is_lower(c) || char_is_digit(c) || c == '-') {
            return false;
        }
        if i + 1 < n && c == '-' && v[i + 1] == '-' {
            proof { assert(double_hyphen_at(v@, i as int)); }
            return false;
        }
        i = i + 1;
    }
    true
}

/// A segment of the id grammar: one or more ASCII lowercase letters or
/// digits.
pub open spec fn id_segment(t: Seq<char>) -> bool {
    t.len() > 0 && forall|i: int| 0 <= i < t.len() ==> ('a' <= #[trigger] t[i] && t[i] <= 'z') || ('0' <= t[i] && t[i] <= '9')
}

/// An id holds nothing but ASCII lowercase letters, digits and hyphens,
/// and starts and ends with a letter or digit.
pub proof fn lemma_ids_use_only_id_chars(s: Seq<char>)
    requires
        is_kebab(s),
    ensures
        forall|i: int| 0 <= i < s.len() ==> ('a' <= #[trigger] s[i] && s[i] <= 'z') || ('0' <= s[i] && s[i] <= '9') || s[i] == '-',
        ('a' <= s[0] && s[0] <= 'z') || ('0' <= s[0] && s[0] <= '9'),
        ('a' <= s[s.len() - 1] && s[s.len() - 1] <= 'z') || ('0' <= s[s.len() - 1] && s[s.len() - 1] <= '9'),
{
}

/// Every non-empty `-`-joined sequence of segments of ASCII lowercase
/// letters and digits is an id (`p2p-sync`, `adr-0009`, `a`).
pub proof fn lemma_joined_segments_are_ids(segs: Seq<Seq<char>>, n: int)
    requires
        1 <= n <= segs.len(),
        forall|k: int| 0 <= k < n ==> id_segment(#[trigger] segs[k]),
    ensures
        is_kebab(join_sep(segs, "-"@, n)),
    decreases n,
{
    reveal_strlit("-");
    let s = join_sep(segs, "-"@, n);
    if n == 1 {
        let t = segs[0];
        assert(id_segment(t));
        assert(s == t);
        assert forall|i: int| 0 <= i < s.len() - 1 implies !#[trigger] double_hyphen_at(s, i) by {
            assert(('a' <= t[i] && t[i] <= 'z') || ('0' <= t[i] && t[i] <= '9'));
        }
        assert(('a' <= t[0] && t[0] <= 'z') || ('0' <= t[0] && t[0] <= '9'));
        assert(('a' <= t[t.len() - 1] && t[t.len() - 1] <= 'z') || ('0' <= t[t.len() - 1] && t[t.len() - 1] <= '9'));
    } else {
        lemma_joined_segments_are_ids(segs, n - 1);
        let a = join_sep(segs, "-"@, n - 1);
        let t = segs[n - 1];
        assert(id_segment(t));
        assert(s == a + "-"@ + t);
        let m = a.len() as int;
        assert(s.len() == m + 1 + t.len());
        assert forall|i: int| 0 <= i < s.len() implies is_lower(#[trigger] s[i]) || is_digit(s[i]) || s[i] == '-' by {
            if i < m {
                assert(s[i] == a[i]);
            } else if i > m {
                assert(s[i] == t[i - m - 1]);
            }
        }
        assert(s[0] == a[0]);
        assert(s[s.len() - 1] == t[t.len() - 1]);
        assert(('a' <= t[t.len() - 1] && t[t.len() - 1] <= 'z') || ('0' <= t[t.len() - 1] && t[t.len() - 1] <= '9'));
        assert forall|i: int| 0 <= i < s.len() - 1 implies !#[trigger] double_hyphen_at(s, i) by {
            if i < m - 1 {
                assert(s[i] == a[i] && s[i + 1] == a[i + 1]);
                assert(!double_hyphen_at(a, i));
            } else if i == m - 1 {
                assert(s[i] == a[m - 1]);
            } else if i == m {
                assert(s[i + 1] == t[0]);
                assert(('a' <= t[0] && t[0] <= 'z') || ('0' <= t[0] && t[0] <= '9'));
            } else {
                assert(s[i] == t[i - m - 1]);
                assert(('a' <= t[i - m - 1] && t[i - m - 1] <= 'z') || ('0' <= t[i - m - 1] && t[i - m - 1] <= '9'));
            }
        }
    }
}

/// Whether `s` satisfies the id grammar.
pub fn is_kebab_case(s: &str) -> (r: bool)
    ensures
        r == is_kebab(s@),
{
    kebab_chars(&chars_of(s))
}

/// The bracketed kebab-case id `t` spells, if it spells one.
pub open spec fn spec_bracket_kebab_id(t: Seq<char>) -> Option<Seq<char>> {
    match spec_bracket_token(t) {
        Some(inner) => if is_kebab(inner) { Some(inner) } else { None },
        None => None,
    }
}

/// A bracketed token that fails the id grammar yet is one word (no
/// whitespace): an attempted id, not prose.
pub open spec fn spec_malformed_bracket_id(t: Seq<char>) -> Option<Seq<char>> {
    match spec_bracket_token(t) {
        Some(inner) => if is_kebab(inner) || has_whitespace(inner) {
            None
        } else {
            Some(inner)
        },
        None => None,
    }
}

/// The bounds of the bracketed token's inner text within `v`.
fn bracket_token_bounds(v: &Vec<char>) -> (r: Option<(usize, usize)>)
    ensures
        match spec_bracket_token(v@) {
            Some(inner) => r matches Some(b) && 1 == b.0 && b.1 == v@.len() - 1 && inner
                == v@.subrange(1, v@.len() - 1),
            None => r is None,
        },
{
    let n = v.len();
    if n > 2 && v[0] == '[' && v[n - 1] == ']' {
        Some((1, n - 1))
    } else {
        None
    }
}

/// Whether some character of `v[a..b]` is Unicode whitespace.
fn any_whitespace(v: &Vec<char>, a: usize, b: usize) -> (r: bool)
    requires
        a <= b <= v@.len(),
    ensures
        r == has_whitespace(v@.subrange(a as int, b as int)),
{
    let mut i = a;
    while i < b
        invariant
            a <= i <= b <= v@.len(),
            forall|k: int| a <= k < i ==> !is_whitespace(v@[k]),
        decreases b - i,
    {
        if char_is_whitespace(v[i]) {
            proof {
                let s = v@.subrange(a as int, b as int);
                assert(s[i - a] == v@[i as int]);
            }
            return true;
        }
        i = i + 1;
    }
    proof {
        let s = v@.subrange(a as int, b as int);
        assert forall|k: int| 0 <= k < s.len() implies !is_whitespace(#[trigger] s[k]) by {
            assert(s[k] == v@[a + k]);
        }
    }
    false
}

/// Whether `text` is exactly a bracketed kebab-case token (`[my-id]`);
/// the inner id, without brackets.
pub fn bracket_kebab_id(text: &str) -> (r: Option<String>)
    ensures
        r.deep_view() == spec_bracket_kebab_id(text@),
{
    let v = chars_of(text);
    match bracket_token_bounds(&v) {
        Some((a, b)) => {
            let inner = string_of(&v, a, b);
            if is_kebab_case(inner.as_str()) {
                Some(inner)
            } else {
                None
            }
        },
        None => None,
    }
}

/// Whether `text` is a bracketed token in definition position that FAILS
/// the id grammar while still reading as one word — the `malformed-id`
/// predicate; the offending inner text.
pub fn malformed_bracket_id(text: &str) -> (r: Option<String>)
    ensures
        r.deep_view() == spec_malformed_bracket_id(text@),
{
    let v = chars_of(text);
    match bracket_token_bounds(&v) {
        Some((a, b)) => {
            let inner = string_of(&v, a, b);
            if is_kebab_case(inner.as_str()) || any_whitespace(&v, a, b) {
                None
            } else {
                Some(inner)
            }
        },
        None => None,
    }
}

// --- html anchors -----------------------------------------------------------

/// Where a tag name stops: whitespace, `>`, or `/`.
pub open spec fn ends_tag_name(c: char) -> bool {
    is_whitespace(c) || c == '>' || c == '/'
}

/// The first index at or after `i` where `s` ends a tag name, or
/// `s.len()`.
pub open spec fn tag_name_end_from(s: Seq<char>, i: int) -> int
    decreases s.len() - i,
{
    if i >= s.len() {
        s.len() as int
    } else if ends_tag_name(s[i]) {
        i
    } else {
        tag_name_end_from(s, i + 1)
    }
}

/// The tag name of an HTML open tag's raw text (`<a id="x">` -> `a`).
/// Case-sensitive and lexical, not an HTML parser.
pub open spec fn spec_html_open_tag_name(t: Seq<char>) -> Option<Seq<char>> {
    if t.len() > 0 && t[0] == '<' {
        let body = t.skip(1);
        if body.len() > 0 && body[0] == '/' {
            None
        } else {
            let e = tag_name_end_from(body, 0);
            if 0 < e < body.len() {
                Some(body.take(e))
            } else {
                None
            }
        }
    } else {
        None
    }
}

fn tag_name_end(v: &Vec<char>, from: usize) -> (r: usize)
    requires
        from <= v@.len(),
    ensures
        r == tag_name_end_from(v@, from as int),
        from <= r <= v@.len(),
    decreases v@.len() - from,
{
    if from >= v.len() {
        v.len()
    } else if char_is_whitespace(v[from]) || v[from] == '>' || v[from] == '/' {
        from
    } else {
        tag_name_end(v, from + 1)
    }
}

/// The tag name of an HTML open tag's raw text, or `None` if `tag` is
/// not shaped like an open tag at all.
pub fn html_open_tag_name(tag: &str) -> (r: Option<String>)
    ensures
        r.deep_view() == spec_html_open_tag_name(tag@),
{
    let v = chars_of(tag);
    if v.len() == 0 || v[0] != '<' {
        return None;
    }
    let body_v = chars_of(string_of(&v, 1, v.len()).as_str());
    proof { assert(body_v@ == tag@.skip(1)); }
    if body_v.len() > 0 && body_v[0] == '/' {
        return None;
    }
    let e = tag_name_end(&body_v, 0);
    if 0 < e && e < body_v.len() {
        proof { assert(body_v@.subrange(0, e as int) =~= body_v@.take(e as int)); }
        Some(string_of(&body_v, 0, e))
    } else {
        None
    }
}

/// Whether `t` is exactly a closing tag for `name`, ASCII
/// case-insensitively (`</a>` closes `a`).
pub open spec fn spec_is_html_close_tag(t: Seq<char>, name: Seq<char>) -> bool {
    &&& t.len() >= 3
    &&& t[0] == '<'
    &&& t[1] == '/'
    &&& t[t.len() - 1] == '>'
    &&& eq_ignore_ascii_case(trim(t.subrange(2, t.len() - 1)), name)
}

pub fn is_html_close_tag(tag: &str, name: &str) -> (r: bool)
    ensures
        r == spec_is_html_close_tag(tag@, name@),
{
    let v = chars_of(tag);
    let n = v.len();
    if n < 3 || v[0] != '<' || v[1] != '/' || v[n - 1] != '>' {
        return false;
    }
    let inner = chars_of(string_of(&v, 2, n - 1).as_str());
    let (a, b) = trim_bounds(&inner);
    let t = chars_of(string_of(&inner, a, b).as_str());
    seq_eq_ignore_ascii_case(&t, &chars_of(name))
}

/// `s` with every trailing `c` removed (`str::trim_end_matches(c)`).
pub open spec fn strip_trailing(s: Seq<char>, c: char) -> Seq<char>
    decreases s.len(),
{
    if s.len() > 0 && s.last() == c {
        strip_trailing(s.drop_last(), c)
    } else {
        s
    }
}

/// The first index at or after `i` where `s` holds non-whitespace, or
/// `s.len()`.
pub open spec fn skip_ws_from(s: Seq<char>, i: int) -> int
    decreases s.len() - i,
{
    if i >= s.len() {
        s.len() as int
    } else if !is_whitespace(s[i]) {
        i
    } else {
        skip_ws_from(s, i + 1)
    }
}

/// The first index at or after `i` where `s` holds whitespace, or
/// `s.len()`.
pub open spec fn to_ws_from(s: Seq<char>, i: int) -> int
    decreases s.len() - i,
{
    if i >= s.len() {
        s.len() as int
    } else if is_whitespace(s[i]) {
        i
    } else {
        to_ws_from(s, i + 1)
    }
}

/// The whitespace-separated words of `s` from index `i` on
/// (`str::split_whitespace`).
pub open spec fn ws_tokens_from(s: Seq<char>, i: int) -> Seq<Seq<char>>
    decreases s.len() - i,
{
    let j = skip_ws_from(s, i);
    if i < 0 || j >= s.len() {
        Seq::empty()
    } else {
        let k = to_ws_from(s, j);
        if k <= i || k > s.len() {
            Seq::empty()
        } else {
            seq![s.subrange(j, k)] + ws_tokens_from(s, k)
        }
    }
}

proof fn lemma_skip_ws(s: Seq<char>, i: int)
    requires
        0 <= i <= s.len(),
    ensures
        i <= skip_ws_from(s, i) <= s.len(),
        skip_ws_from(s, i) < s.len() ==> !is_whitespace(s[skip_ws_from(s, i)]),
    decreases s.len() - i,
{
    if i < s.len() && is_whitespace(s[i]) {
        lemma_skip_ws(s, i + 1);
    }
}

proof fn lemma_to_ws(s: Seq<char>, i: int)
    requires
        0 <= i <= s.len(),
    ensures
        i <= to_ws_from(s, i) <= s.len(),
        i < s.len() && !is_whitespace(s[i]) ==> i < to_ws_from(s, i),
    decreases s.len() - i,
{
    if i < s.len() && !is_whitespace(s[i]) {
        lemma_to_ws(s, i + 1);
    }
}

fn skip_ws(v: &Vec<char>, i: usize) -> (r: usize)
    requires
        i <= v@.len(),
    ensures
        r == skip_ws_from(v@, i as int),
    decreases v@.len() - i,
{
    if i >= v.len() {
        v.len()
    } else if !char_is_whitespace(v[i]) {
        i
    } else {
        skip_ws(v, i + 1)
    }
}

fn to_ws(v: &Vec<char>, i: usize) -> (r: usize)
    requires
        i <= v@.len(),
    ensures
        r == to_ws_from(v@, i as int),
    decreases v@.len() - i,
{
    if i >= v.len() {
        v.len()
    } else if char_is_whitespace(v[i]) {
        i
    } else {
        to_ws(v, i + 1)
    }
}

/// The value an attribute token yields for `name`: `Ok(Some(v))` for
/// `name="v"` or `name='v'`, `Ok(None)` when the token is not a quoted
/// `name=` attribute, and `Err(())` when it is `name=` with nothing
/// after it — which ends the search.
pub open spec fn attr_token_value(tok: Seq<char>, name: Seq<char>) -> Result<Option<Seq<char>>, ()> {
    if starts_with(tok, name) && tok.len() > name.len() && tok[name.len() as int] == '=' {
        let rest = tok.skip(name.len() as int + 1);
        if rest.len() == 0 {
            Err(())
        } else if rest[0] != '"' && rest[0] != '\'' {
            Ok(None)
        } else {
            let inner = rest.skip(1);
            let e = crate::text::find_char(inner, rest[0]);
            if e < inner.len() {
                Ok(Some(inner.take(e)))
            } else {
                Ok(None)
            }
        }
    } else {
        Ok(None)
    }
}

/// The first attribute token from index `i` on that yields a value.
pub open spec fn attr_search(toks: Seq<Seq<char>>, name: Seq<char>, i: int) -> Option<Seq<char>>
    decreases toks.len() - i,
{
    if i < 0 || i >= toks.len() {
        None
    } else {
        match attr_token_value(toks[i], name) {
            Err(()) => None,
            Ok(Some(v)) => Some(v),
            Ok(None) => attr_search(toks, name, i + 1),
        }
    }
}

/// The raw value of attribute `name` in HTML open-tag text `t`: the
/// first whitespace-delimited token after the tag name that reads
/// `name="..."` or `name='...'`. A lexical scan, not an HTML parser: a
/// value containing whitespace is split at the space and missed, and an
/// unquoted or valueless attribute is not recognized.
pub open spec fn spec_html_attr_value(t: Seq<char>, name: Seq<char>) -> Option<Seq<char>> {
    if t.len() > 0 && t[0] == '<' {
        let body = strip_trailing(strip_trailing(t.skip(1), '>'), '/');
        let toks = ws_tokens_from(body, 0);
        if toks.len() == 0 {
            None
        } else {
            attr_search(toks, name, 1)
        }
    } else {
        None
    }
}

fn strip_trailing_len(v: &Vec<char>, n: usize, c: char) -> (r: usize)
    requires
        n <= v@.len(),
    ensures
        r <= n,
        v@.subrange(0, r as int) == strip_trailing(v@.subrange(0, n as int), c),
    decreases n,
{
    if n > 0 && v[n - 1] == c {
        proof { assert(v@.subrange(0, n as int).drop_last() =~= v@.subrange(0, n - 1)); }
        strip_trailing_len(v, n - 1, c)
    } else {
        n
    }
}

fn token_value(tok: &Vec<char>, name: &Vec<char>) -> (r: Result<Option<String>, ()>)
    ensures
        match attr_token_value(tok@, name@) {
            Err(()) => r is Err,
            Ok(None) => r matches Ok(None),
            Ok(Some(v)) => r matches Ok(Some(s)) && s@ == v,
        },
{
    if !chars_start_with(tok, name) || tok.len() <= name.len() || tok[name.len()] != '=' {
        return Ok(None);
    }
    let rest = chars_of(string_of(tok, name.len() + 1, tok.len()).as_str());
    proof { assert(rest@ =~= tok@.skip(name@.len() as int + 1)); }
    if rest.len() == 0 {
        return Err(());
    }
    let q = rest[0];
    if q != '"' && q != '\'' {
        return Ok(None);
    }
    let inner = chars_of(string_of(&rest, 1, rest.len()).as_str());
    proof { assert(inner@ =~= rest@.skip(1)); }
    let e = index_of_char(&inner, q, 0);
    if e < inner.len() {
        proof { assert(inner@.subrange(0, e as int) =~= inner@.take(e as int)); }
        Ok(Some(string_of(&inner, 0, e)))
    } else {
        Ok(None)
    }
}

/// The raw value of attribute `name` in HTML open-tag text `tag`.
pub fn html_attr_value(tag: &str, name: &str) -> (r: Option<String>)
    ensures
        r.deep_view() == spec_html_attr_value(tag@, name@),
{
    let v = chars_of(tag);
    if v.len() == 0 || v[0] != '<' {
        return None;
    }
    let rest = chars_of(string_of(&v, 1, v.len()).as_str());
    proof { assert(rest@ =~= v@.skip(1)); assert(rest@.subrange(0, rest@.len() as int) =~= rest@); }
    let n1 = strip_trailing_len(&rest, rest.len(), '>');
    let n2 = strip_trailing_len(&rest, n1, '/');
    let body = chars_of(string_of(&rest, 0, n2).as_str());
    proof {
        assert(rest@.subrange(0, n1 as int) == strip_trailing(rest@, '>'));
        assert(body@ == strip_trailing(strip_trailing(tag@.skip(1), '>'), '/'));
    }
    let nm = chars_of(name);
    let ghost toks = ws_tokens_from(body@, 0);
    // Walk the tokens, skipping the first (the tag name itself).
    let mut i: usize = 0;
    let mut index: usize = 0;
    proof { assert(toks.subrange(0, toks.len() as int) =~= toks); }
    loop
        invariant
            i <= body@.len(),
            toks == ws_tokens_from(body@, 0),
            nm@ == name@,
            spec_html_attr_value(tag@, nm@) == (if toks.len() == 0 { None } else { attr_search(toks, nm@, 1) }),
            index <= toks.len(),
            index <= i,
            toks.subrange(index as int, toks.len() as int) == ws_tokens_from(body@, i as int),
            index >= 1 ==> attr_search(toks, nm@, 1) == attr_search(toks, nm@, index as int),
        decreases body@.len() - i,
    {
        let j = skip_ws(&body, i);
        proof { lemma_skip_ws(body@, i as int); }
        if j >= body.len() {
            proof {
                assert(ws_tokens_from(body@, i as int).len() == 0);
                assert(index == toks.len());
                if toks.len() > 0 {
                    assert(attr_search(toks, nm@, index as int) == None::<Seq<char>>);
                    assert(attr_search(toks, nm@, 1) == None::<Seq<char>>);
                }
                assert(spec_html_attr_value(tag@, nm@) == None::<Seq<char>>);
            }
            return None;
        }
        let k = to_ws(&body, j);
        proof {
            lemma_to_ws(body@, j as int);
            let rest_toks = ws_tokens_from(body@, i as int);
            assert(rest_toks == seq![body@.subrange(j as int, k as int)] + ws_tokens_from(body@, k as int));
            assert(rest_toks.len() >= 1);
            assert(index < toks.len());
            assert(toks[index as int] == toks.subrange(index as int, toks.len() as int)[0]);
            assert(toks[index as int] == body@.subrange(j as int, k as int));
            assert(toks.subrange(index + 1, toks.len() as int) =~= rest_toks.skip(1));
            assert(rest_toks.skip(1) =~= ws_tokens_from(body@, k as int));
        }
        if index >= 1 {
            let tok = chars_of(string_of(&body, j, k).as_str());
            match token_value(&tok, &nm) {
                Err(()) => {
                    proof {
                        assert(tok@ == toks[index as int]);
                        assert(attr_search(toks, nm@, index as int) == None::<Seq<char>>);
                    }
                    return None;
                },
                Ok(Some(val)) => {
                    proof {
                        assert(tok@ == toks[index as int]);
                        assert(attr_search(toks, nm@, index as int) == Some(val@));
                    }
                    return Some(val);
                },
                Ok(None) => {},
            }
        }
        index = index + 1;
        i = k;
    }
}

// --- bold-form interstitial ---------------------------------------------------

/// Bound, in source bytes, on the interstitial between a bold-form
/// definition's closing `**` and its terminating colon. What sits there is
/// unconstrained in kind (a parenthetical label, an italic revision note)
/// but bounded in length, so the scan never degrades into an open-ended
/// prose search.
pub const MAX_INTERSTITIAL_LEN: usize = 128;

/// Outcome of scanning one interstitial chunk for the colon that closes a
/// bold-form definition.
#[derive(Debug, Clone, Copy, PartialEq, Eq, Structural)]
pub enum InterstitialStep {
    /// The colon sits at this byte offset within the chunk.
    ResolvedAt(usize),
    /// No colon in this chunk, but nothing disqualifying either: the
    /// interstitial may still resolve in a later, adjacent chunk.
    Continue,
    /// The chunk crossed a line break before any colon, or exhausted the
    /// remaining budget.
    Failed,
}

/// The first index of byte `b` in `s`, or `s.len()`.
pub open spec fn find_byte_from(s: Seq<u8>, b: u8, i: int) -> int
    decreases s.len() - i,
{
    if i >= s.len() {
        s.len() as int
    } else if s[i] == b {
        i
    } else {
        find_byte_from(s, b, i + 1)
    }
}

proof fn lemma_find_byte_from(s: Seq<u8>, b: u8, i: int)
    requires
        0 <= i <= s.len(),
    ensures
        i <= find_byte_from(s, b, i) <= s.len(),
        forall|k: int| i <= k < find_byte_from(s, b, i) ==> s[k] != b,
        find_byte_from(s, b, i) < s.len() ==> s[find_byte_from(s, b, i)] == b,
    decreases s.len() - i,
{
    if i < s.len() && s[i] != b {
        lemma_find_byte_from(s, b, i + 1);
    }
}

fn find_byte(s: &[u8], b: u8, i: usize, limit: usize) -> (r: usize)
    requires
        i <= limit <= s@.len(),
    ensures
        r == find_byte_from(s@.take(limit as int), b, i as int),
    decreases limit - i,
{
    if i >= limit {
        limit
    } else if s[i] == b {
        i
    } else {
        find_byte(s, b, i + 1, limit)
    }
}

/// The scan of one interstitial chunk's bytes `b` within `budget` bytes:
/// a colon before any line break resolves it; a line break in the window,
/// or a window cut short by the budget, fails it.
pub open spec fn spec_scan_interstitial(b: Seq<u8>, budget: int) -> InterstitialStep {
    let wl = if b.len() < budget { b.len() as int } else { budget };
    let window = b.take(wl);
    let nl = find_byte_from(window, 10u8, 0);
    let scan = window.take(nl);
    let colon = find_byte_from(scan, 58u8, 0);
    if colon < scan.len() {
        InterstitialStep::ResolvedAt(colon as usize)
    } else if nl < window.len() || wl < b.len() {
        InterstitialStep::Failed
    } else {
        InterstitialStep::Continue
    }
}

/// Scan `chunk` — up to `budget` bytes of it — for the interstitial's
/// terminating colon. A line break inside the window fails the chunk
/// outright: "immediately followed by definitional punctuation" does not
/// survive crossing a line.
pub fn scan_interstitial_chunk(chunk: &str, budget: usize) -> (r: InterstitialStep)
    ensures
        r == spec_scan_interstitial(chunk.spec_bytes(), budget as int),
{
    let b = chunk.as_bytes();
    let wl = if b.len() < budget { b.len() } else { budget };
    let nl = find_byte(b, 10u8, 0, wl);
    proof {
        lemma_find_byte_from(b@.take(wl as int), 10u8, 0);
        assert(b@.take(wl as int).take(nl as int) =~= b@.take(nl as int));
    }
    let colon = find_byte(b, 58u8, 0, nl);
    if colon < nl {
        InterstitialStep::ResolvedAt(colon)
    } else if nl < wl || wl < b.len() {
        InterstitialStep::Failed
    } else {
        InterstitialStep::Continue
    }
}

// --- normative-prose scan ----------------------------------------------------

/// The number of bytes UTF-8 spends on `c`.
pub open spec fn utf8_width(c: char) -> nat {
    let u = c as u32;
    if u <= 0x7F {
        1
    } else if u <= 0x7FF {
        2
    } else if u <= 0xFFFF && !(0xD800 <= u <= 0xDFFF) {
        3
    } else {
        4
    }
}

/// The UTF-8 byte length of `s`.
pub open spec fn utf8_len(s: Seq<char>) -> nat
    decreases s.len(),
{
    if s.len() == 0 {
        0
    } else {
        utf8_len(s.drop_last()) + utf8_width(s.last())
    }
}

proof fn lemma_utf8_len_first(s: Seq<char>)
    requires
        s.len() > 0,
    ensures
        utf8_len(s) == utf8_width(s[0]) + utf8_len(s.drop_first()),
    decreases s.len(),
{
    if s.len() > 1 {
        lemma_utf8_len_first(s.drop_last());
        assert(s.drop_last().drop_first() =~= s.drop_first().drop_last());
        assert(s.drop_last()[0] == s[0]);
        assert(s.drop_first().last() == s.last());
        assert(utf8_len(s.drop_first()) == utf8_len(s.drop_first().drop_last()) + utf8_width(s.last()));
    } else {
        assert(s.drop_first().len() == 0);
        assert(s.drop_last().len() == 0);
        assert(s.last() == s[0]);
        assert(utf8_len(s.drop_first()) == 0);
        assert(utf8_len(s.drop_last()) == 0);
    }
}

/// `utf8_len` is the length of the standard UTF-8 encoding.
pub proof fn lemma_utf8_len_is_encoded_len(s: Seq<char>)
    ensures
        utf8_len(s) == vstd::utf8::encode_utf8(s).len(),
    decreases s.len(),
{
    if s.len() > 0 {
        lemma_utf8_len_first(s);
        lemma_utf8_len_is_encoded_len(s.drop_first());
        let c = s[0];
        let u = c as u32;
        assert(vstd::utf8::encode_scalar(u).len() == utf8_width(c));
        assert(vstd::utf8::encode_utf8(s) == vstd::utf8::encode_scalar(u) + vstd::utf8::encode_utf8(s.drop_first()));
    }
}

pub proof fn lemma_utf8_len_prefix(s: Seq<char>, i: int)
    requires
        0 <= i <= s.len(),
    ensures
        utf8_len(s.take(i)) <= utf8_len(s),
    decreases s.len() - i,
{
    if i < s.len() {
        lemma_utf8_len_prefix(s, i + 1);
        lemma_utf8_len_push(s, i);
    } else {
        assert(s.take(i) =~= s);
    }
}

pub fn char_utf8_width(c: char) -> (r: usize)
    ensures
        r == utf8_width(c),
{
    let u = c as u32;
    if u <= 0x7F {
        1
    } else if u <= 0x7FF {
        2
    } else if u <= 0xFFFF && !(0xD800 <= u && u <= 0xDFFF) {
        3
    } else {
        4
    }
}

/// The first index at or after `i` holding an ASCII letter, or `s.len()`.
pub open spec fn alpha_start_from(s: Seq<char>, i: int) -> int
    decreases s.len() - i,
{
    if i >= s.len() {
        s.len() as int
    } else if is_alpha(s[i]) {
        i
    } else {
        alpha_start_from(s, i + 1)
    }
}

/// The first index at or after `i` holding a non-letter, or `s.len()`.
pub open spec fn alpha_end_from(s: Seq<char>, i: int) -> int
    decreases s.len() - i,
{
    if i >= s.len() {
        s.len() as int
    } else if !is_alpha(s[i]) {
        i
    } else {
        alpha_end_from(s, i + 1)
    }
}

/// The maximal runs of ASCII letters in `s` from index `i` on, as
/// `[start, end)` character index pairs.
pub open spec fn word_spans_from(s: Seq<char>, i: int) -> Seq<(int, int)>
    decreases s.len() - i,
{
    let j = alpha_start_from(s, i);
    if i < 0 || j >= s.len() {
        Seq::empty()
    } else {
        let k = alpha_end_from(s, j);
        if k <= i || k > s.len() {
            Seq::empty()
        } else {
            seq![(j, k)] + word_spans_from(s, k)
        }
    }
}

proof fn lemma_alpha_start(s: Seq<char>, i: int)
    requires
        0 <= i <= s.len(),
    ensures
        i <= alpha_start_from(s, i) <= s.len(),
        alpha_start_from(s, i) < s.len() ==> is_alpha(s[alpha_start_from(s, i)]),
        forall|k: int| i <= k < alpha_start_from(s, i) ==> !is_alpha(s[k]),
    decreases s.len() - i,
{
    if i < s.len() && !is_alpha(s[i]) {
        lemma_alpha_start(s, i + 1);
    }
}

proof fn lemma_alpha_end(s: Seq<char>, i: int)
    requires
        0 <= i <= s.len(),
    ensures
        i <= alpha_end_from(s, i) <= s.len(),
        i < s.len() && is_alpha(s[i]) ==> i < alpha_end_from(s, i),
        forall|k: int| i <= k < alpha_end_from(s, i) ==> is_alpha(s[k]),
    decreases s.len() - i,
{
    if i < s.len() && is_alpha(s[i]) {
        lemma_alpha_end(s, i + 1);
    }
}

/// Maximal runs of ASCII letters in `s`, each with its byte offset within
/// `s`. Any other character (digit, punctuation, whitespace, non-ASCII)
/// is a word boundary.
pub open spec fn spec_ascii_words(s: Seq<char>) -> Seq<(Seq<char>, int)> {
    word_spans_from(s, 0).map_values(|p: (int, int)| (s.subrange(p.0, p.1), utf8_len(s.take(p.0)) as int))
}

pub proof fn lemma_utf8_len_push(s: Seq<char>, i: int)
    requires
        0 <= i < s.len(),
    ensures
        utf8_len(s.take(i + 1)) == utf8_len(s.take(i)) + utf8_width(s[i]),
{
    assert(s.take(i + 1).drop_last() =~= s.take(i));
}

/// Maximal runs of ASCII letters in `text`, each paired with its byte
/// offset within `text`.
pub fn ascii_words(text: &str) -> (r: Vec<(String, usize)>)
    ensures
        r@.map_values(|p: (String, usize)| (p.0@, p.1 as int)) == spec_ascii_words(text@),
{
    let v = chars_of(text);
    let n = v.len();
    let total = text.as_bytes().len();
    proof {
        lemma_utf8_len_is_encoded_len(text@);
    }
    let ghost spans = word_spans_from(v@, 0);
    let mut out: Vec<(String, usize)> = Vec::new();
    let mut i: usize = 0;
    let mut bytes: usize = 0;
    let mut count: usize = 0;
    proof { assert(spans.subrange(0, spans.len() as int) =~= spans); assert(v@.take(0) =~= Seq::<char>::empty()); }
    loop
        invariant
            n == v@.len(),
            v@ == text@,
            spans == word_spans_from(v@, 0),
            i <= n,
            bytes == utf8_len(v@.take(i as int)),
            total == utf8_len(v@),
            count <= spans.len(),
            count <= i,
            spans.subrange(count as int, spans.len() as int) == word_spans_from(v@, i as int),
            out@.len() == count,
            forall|k: int| 0 <= k < count ==> (#[trigger] out@[k]).0@ == v@.subrange(spans[k].0, spans[k].1)
                && out@[k].1 as int == utf8_len(v@.take(spans[k].0)),
        decreases n - i,
    {
        // skip to the next letter, counting bytes
        let mut j = i;
        let mut bj = bytes;
        proof { lemma_alpha_start(v@, i as int); }
        while j < n && !char_is_alpha(v[j])
            invariant
                n == v@.len(),
                i <= j <= n,
                j <= alpha_start_from(v@, i as int),
                alpha_start_from(v@, i as int) == alpha_start_from(v@, j as int),
                bj == utf8_len(v@.take(j as int)),
                total == utf8_len(v@),
            decreases n - j,
        {
            proof {
                lemma_utf8_len_push(v@, j as int);
                lemma_utf8_len_prefix(v@, j + 1);
                lemma_alpha_start(v@, j + 1);
            }
            bj = bj + char_utf8_width(v[j]);
            j = j + 1;
        }
        if j >= n {
            proof {
                assert(word_spans_from(v@, i as int).len() == 0);
                assert(out@.map_values(|p: (String, usize)| (p.0@, p.1 as int)) =~= spec_ascii_words(text@));
            }
            return out;
        }
        let mut k = j;
        let mut bk = bj;
        proof { lemma_alpha_end(v@, j as int); }
        while k < n && char_is_alpha(v[k])
            invariant
                n == v@.len(),
                j <= k <= n,
                k <= alpha_end_from(v@, j as int),
                alpha_end_from(v@, j as int) == alpha_end_from(v@, k as int),
                bk == utf8_len(v@.take(k as int)),
                total == utf8_len(v@),
            decreases n - k,
        {
            proof {
                lemma_utf8_len_push(v@, k as int);
                lemma_utf8_len_prefix(v@, k + 1);
                lemma_alpha_end(v@, k + 1);
            }
            bk = bk + char_utf8_width(v[k]);
            k = k + 1;
        }
        proof {
            let rest = word_spans_from(v@, i as int);
            assert(rest == seq![(j as int, k as int)] + word_spans_from(v@, k as int));
            assert(spans[count as int] == rest[0]);
            assert(spans.subrange(count + 1, spans.len() as int) =~= rest.skip(1));
            assert(rest.skip(1) =~= word_spans_from(v@, k as int));
        }
        out.push((string_of(&v, j, k), bj));
        count = count + 1;
        i = k;
        bytes = bk;
    }
}

/// RFC 2119's keywords, whole-word and all-caps only. `MUST`, `SHOULD`
/// and `SHALL` combine with an immediately following `NOT` into the
/// negated form. The canonical keyword, and whether `next` was consumed.
pub open spec fn spec_classify_keyword(word: Seq<char>, next: Option<Seq<char>>) -> Option<(Seq<char>, bool)> {
    let negated = next == Some("NOT"@);
    if word == "MUST"@ {
        if negated { Some(("MUST NOT"@, true)) } else { Some(("MUST"@, false)) }
    } else if word == "SHOULD"@ {
        if negated { Some(("SHOULD NOT"@, true)) } else { Some(("SHOULD"@, false)) }
    } else if word == "SHALL"@ {
        if negated { Some(("SHALL NOT"@, true)) } else { Some(("SHALL"@, false)) }
    } else if word == "REQUIRED"@ {
        Some(("REQUIRED"@, false))
    } else if word == "RECOMMENDED"@ {
        Some(("RECOMMENDED"@, false))
    } else if word == "MAY"@ {
        Some(("MAY"@, false))
    } else if word == "OPTIONAL"@ {
        Some(("OPTIONAL"@, false))
    } else {
        None
    }
}

/// The abstract value of an optional string slice.
pub open spec fn opt_str_view(o: Option<&str>) -> Option<Seq<char>> {
    match o {
        Some(s) => Some(s@),
        None => None,
    }
}

/// The abstract value of a keyword classification.
pub open spec fn kw_view(o: Option<(&'static str, bool)>) -> Option<(Seq<char>, bool)> {
    match o {
        Some(p) => Some((p.0@, p.1)),
        None => None,
    }
}

/// Classify `word` (with the word after it, if any) as an RFC 2119
/// keyword.
pub fn classify_keyword(word: &str, next: Option<&str>) -> (r: Option<(&'static str, bool)>)
    ensures
        kw_view(r) == spec_classify_keyword(word@, opt_str_view(next)),
{
    let negated = match next {
        Some(n) => crate::text::str_eq(n, "NOT"),
        None => false,
    };
    proof {
        reveal_strlit("NOT");
        reveal_strlit("MUST");
        reveal_strlit("MUST NOT");
        reveal_strlit("SHOULD");
        reveal_strlit("SHOULD NOT");
        reveal_strlit("SHALL");
        reveal_strlit("SHALL NOT");
        reveal_strlit("REQUIRED");
        reveal_strlit("RECOMMENDED");
        reveal_strlit("MAY");
        reveal_strlit("OPTIONAL");
        assert(negated == (opt_str_view(next) == Some("NOT"@)));
    }
    if crate::text::str_eq(word, "MUST") {
        if negated { Some(("MUST NOT", true)) } else { Some(("MUST", false)) }
    } else if crate::text::str_eq(word, "SHOULD") {
        if negated { Some(("SHOULD NOT", true)) } else { Some(("SHOULD", false)) }
    } else if crate::text::str_eq(word, "SHALL") {
        if negated { Some(("SHALL NOT", true)) } else { Some(("SHALL", false)) }
    } else if crate::text::str_eq(word, "REQUIRED") {
        Some(("REQUIRED", false))
    } else if crate::text::str_eq(word, "RECOMMENDED") {
        Some(("RECOMMENDED", false))
    } else if crate::text::str_eq(word, "MAY") {
        Some(("MAY", false))
    } else if crate::text::str_eq(word, "OPTIONAL") {
        Some(("OPTIONAL", false))
    } else {
        None
    }
}

// --- line numbers -------------------------------------------------------------

/// The number of `\n` bytes in `b`.
pub open spec fn count_newlines(b: Seq<u8>) -> nat
    decreases b.len(),
{
    if b.len() == 0 {
        0
    } else {
        count_newlines(b.drop_last()) + if b.last() == 10u8 { 1nat } else { 0nat }
    }
}

/// The 1-indexed line holding byte `offset` of a document whose bytes are
/// `b`: one more than the number of line breaks before it (an offset past
/// the end counts every line break).
pub open spec fn spec_line_of(b: Seq<u8>, offset: int) -> int {
    1 + count_newlines(b.take(if offset < b.len() { offset } else { b.len() as int })) as int
}

proof fn lemma_count_newlines_prefix(b: Seq<u8>, i: int)
    requires
        0 <= i <= b.len(),
    ensures
        count_newlines(b.take(i)) <= i,
    decreases i,
{
    if i > 0 {
        lemma_count_newlines_prefix(b, i - 1);
        assert(b.take(i).drop_last() =~= b.take(i - 1));
    }
}

/// Byte offset -> 1-indexed line number, built once per document.
pub struct LineIndex {
    /// `before[i]` is the number of line breaks among the first `i` bytes.
    before: Vec<usize>,
    bytes: Ghost<Seq<u8>>,
}


impl LineIndex {
    /// The bytes of the document this index was built for.
    pub closed spec fn source_bytes(&self) -> Seq<u8> {
        self.bytes@
    }

    pub closed spec fn wf(&self) -> bool {
        &&& self.before@.len() == self.bytes@.len() + 1
        &&& self.bytes@.len() < usize::MAX
        &&& forall|i: int| 0 <= i <= self.bytes@.len() ==> #[trigger] self.before@[i] == count_newlines(self.bytes@.take(i))
    }

    pub fn new(src: &str) -> (r: LineIndex)
        ensures
            r.wf(),
            r.source_bytes() == src.spec_bytes(),
    {
        let b = src.as_bytes();
        let mut before: Vec<usize> = Vec::new();
        before.push(0);
        let mut count: usize = 0;
        let mut i: usize = 0;
        proof { assert(b@.take(0) =~= Seq::<u8>::empty()); }
        while i < b.len()
            invariant
                i <= b@.len(),
                before@.len() == i + 1,
                count == count_newlines(b@.take(i as int)),
                count <= i,
                forall|k: int| 0 <= k <= i ==> #[trigger] before@[k] == count_newlines(b@.take(k)),
            decreases b@.len() - i,
        {
            proof { assert(b@.take(i + 1).drop_last() =~= b@.take(i as int)); }
            if b[i] == 10u8 {
                count = count + 1;
            }
            before.push(count);
            i = i + 1;
        }
        let total = before.len();
        proof { assert(total == b@.len() + 1); }
        LineIndex { before, bytes: Ghost(b@) }
    }

    /// An index exists only for a document shorter than `usize::MAX` bytes.
    pub proof fn lemma_len_bound(&self)
        requires
            self.wf(),
        ensures
            self.source_bytes().len() < usize::MAX,
    {
    }

    /// The line holding byte `offset`.
    pub fn line_of(&self, offset: usize) -> (r: Line)
        requires
            self.wf(),
        ensures
            r.0 == spec_line_of(self.source_bytes(), offset as int),
    {
        let n = self.before.len() - 1;
        let k = if offset < n { offset } else { n };
        proof { lemma_count_newlines_prefix(self.bytes@, k as int); }
        Line(self.before[k] + 1)
    }
}

// --- RFC 2119 keywords -----------------------------------------------------------

/// The keyword occurrences among `words` from index `i` on, each with the
/// byte offset of its first word.
pub open spec fn normative_from(words: Seq<(Seq<char>, int)>, i: int) -> Seq<(Seq<char>, int)>
    decreases words.len() - i,
{
    if i < 0 || i >= words.len() {
        Seq::empty()
    } else {
        let next = if i + 1 < words.len() { Some(words[i + 1].0) } else { None };
        match spec_classify_keyword(words[i].0, next) {
            Some((kw, consumed)) => seq![(kw, words[i].1)] + normative_from(words, i + if consumed { 2int } else { 1int }),
            None => normative_from(words, i + 1),
        }
    }
}

/// The abstract value of a [`NormativeOccurrence`].
pub struct NormativeOccurrenceV {
    pub file: Seq<char>,
    pub line: usize,
    pub keyword: Seq<char>,
}

/// An RFC-2119 keyword found in a document's own voice: outside a block
/// quote at any depth, an inline code span, or a fenced code block.
/// Collected genre-agnostically; whether it is a violation depends on the
/// document's genre.
#[derive(Debug, Clone, PartialEq, Eq)]
pub struct NormativeOccurrence {
    pub file: String,
    pub line: Line,
    /// The canonical keyword text, e.g. `"MUST"` or `"MUST NOT"`.
    pub keyword: &'static str,
}

impl View for NormativeOccurrence {
    type V = NormativeOccurrenceV;

    open spec fn view(&self) -> NormativeOccurrenceV {
        NormativeOccurrenceV { file: self.file@, line: self.line.0, keyword: self.keyword@ }
    }
}

/// The keyword occurrences of one text chunk starting at source byte
/// `chunk_start`, located by line.
pub open spec fn spec_scan_normative(file: Seq<char>, text: Seq<char>, chunk_start: int, source: Seq<u8>) -> Seq<NormativeOccurrenceV> {
    normative_from(spec_ascii_words(text), 0).map_values(
        |p: (Seq<char>, int)| NormativeOccurrenceV {
            file,
            line: spec_line_of(source, chunk_start + p.1) as usize,
            keyword: p.0,
        },
    )
}

/// `a + b`, or `usize::MAX` when that overflows — the same line either
/// way, since line lookup clamps to the document's end.
fn add_clamped(a: usize, b: usize) -> (r: usize)
    ensures
        r == if a + b <= usize::MAX { (a + b) as usize } else { usize::MAX },
{
    if a > usize::MAX - b { usize::MAX } else { a + b }
}

/// Scan one text chunk for RFC-2119 keywords. `chunk_start` is the
/// chunk's byte offset in the source, needed to map a match to a line.
/// Negation is recognised only within a single chunk: a phrase split by
/// inline markup (`MUST **NOT**`) reports the modal verb alone.
pub fn scan_normative_keywords(file: &str, text: &str, chunk_start: usize, line_index: &LineIndex) -> (r: Vec<NormativeOccurrence>)
    requires
        line_index.wf(),
    ensures
        r@.map_values(|o: NormativeOccurrence| o@) == spec_scan_normative(
            file@,
            text@,
            chunk_start as int,
            line_index.source_bytes(),
        ),
{
    let words = ascii_words(text);
    let ghost ws = spec_ascii_words(text@);
    let ghost all = normative_from(ws, 0);
    let mut out: Vec<NormativeOccurrence> = Vec::new();
    let mut i: usize = 0;
    proof { assert(words@.map_values(|p: (String, usize)| (p.0@, p.1 as int)) == ws); }
    while i < words.len()
        invariant
            line_index.wf(),
            ws == spec_ascii_words(text@),
            all == normative_from(ws, 0),
            words@.len() == ws.len(),
            forall|k: int| 0 <= k < ws.len() ==> (#[trigger] words@[k]).0@ == ws[k].0 && words@[k].1 as int == ws[k].1,
            i <= ws.len() + 1,
            out@.map_values(|o: NormativeOccurrence| o@) + normative_from(ws, i as int).map_values(
                |p: (Seq<char>, int)| NormativeOccurrenceV {
                    file: file@,
                    line: spec_line_of(line_index.source_bytes(), chunk_start + p.1) as usize,
                    keyword: p.0,
                },
            ) == spec_scan_normative(file@, text@, chunk_start as int, line_index.source_bytes()),
        decreases ws.len() + 1 - i,
    {
        let next: Option<&str> = if i + 1 < words.len() { Some(words[i + 1].0.as_str()) } else { None };
        proof {
            assert(words@.map_values(|p: (String, usize)| (p.0@, p.1 as int))[i as int] == ws[i as int]);
            if i + 1 < words.len() {
                assert(words@.map_values(|p: (String, usize)| (p.0@, p.1 as int))[i + 1] == ws[i + 1]);
            }
        }
        let ghost nexts = if i + 1 < ws.len() { Some(ws[i + 1].0) } else { None };
        proof { assert(opt_str_view(next) == nexts); }
        match classify_keyword(words[i].0.as_str(), next) {
            Some((keyword, consumed)) => {
                let offset = add_clamped(chunk_start, words[i].1);
                let line = line_index.line_of(offset);
                let ghost old_out = out@;
                out.push(NormativeOccurrence { file: crate::text::owned(file), line, keyword });
                proof {
                    let f = |p: (Seq<char>, int)| NormativeOccurrenceV {
                        file: file@,
                        line: spec_line_of(line_index.source_bytes(), chunk_start + p.1) as usize,
                        keyword: p.0,
                    };
                    let tail = normative_from(ws, i as int);
                    let step = if consumed { 2int } else { 1int };
                    assert(tail == seq![(keyword@, ws[i as int].1)] + normative_from(ws, i + step));
                    line_index.lemma_len_bound();
                    assert(spec_line_of(line_index.source_bytes(), offset as int) == spec_line_of(line_index.source_bytes(), chunk_start + ws[i as int].1));
                    assert(out@.map_values(|o: NormativeOccurrence| o@) =~= old_out.map_values(|o: NormativeOccurrence| o@).push(f((keyword@, ws[i as int].1))));
                    assert(tail.map_values(f) =~= seq![f((keyword@, ws[i as int].1))] + normative_from(ws, i + step).map_values(f));
                }
                i = if consumed { i + 2 } else { i + 1 };
            },
            None => {
                i = i + 1;
            },
        }
    }
    proof {
        assert(normative_from(ws, i as int).len() == 0);
        assert(out@.map_values(|o: NormativeOccurrence| o@) =~= out@.map_values(|o: NormativeOccurrence| o@) + Seq::<NormativeOccurrenceV>::empty());
    }
    out
}

// --- links ---------------------------------------------------------------------

/// A link target names a URL scheme rather than a corpus-relative path or
/// a same-document fragment.
pub open spec fn spec_is_external(dest: Seq<char>) -> bool {
    contains_seq(dest, "://"@) || starts_with(dest, "mailto:"@) || starts_with(dest, "tel:"@)
}

pub fn is_external(dest: &str) -> (r: bool)
    ensures
        r == spec_is_external(dest@),
{
    let v = chars_of(dest);
    contains_chars(&v, &chars_of("://")) || chars_start_with(&v, &chars_of("mailto:"))
        || chars_start_with(&v, &chars_of("tel:"))
}

// --- what extraction reports -------------------------------------------------

/// A claim block with no id definition anywhere before it.
#[derive(Debug, Clone, PartialEq, Eq)]
pub struct OrphanClaim {
    pub file: String,
    pub line: Line,
}

impl View for OrphanClaim {
    type V = (Seq<char>, usize);

    open spec fn view(&self) -> (Seq<char>, usize) {
        (self.file@, self.line.0)
    }
}

/// A recognised id definition (either form) that no claim block adopted
/// as its nearest preceding definition.
#[derive(Debug, Clone, PartialEq, Eq)]
pub struct UnregisteredDefinition {
    pub file: String,
    pub line: Line,
    pub id: ClaimId,
}

impl View for UnregisteredDefinition {
    type V = (Seq<char>, usize, Seq<char>);

    open spec fn view(&self) -> (Seq<char>, usize, Seq<char>) {
        (self.file@, self.line.0, self.id@)
    }
}

/// A bracketed token in definition position that fails the id grammar.
#[derive(Debug, Clone, PartialEq, Eq)]
pub struct MalformedId {
    pub file: String,
    pub line: Line,
    pub id: String,
}

impl View for MalformedId {
    type V = (Seq<char>, usize, Seq<char>);

    open spec fn view(&self) -> (Seq<char>, usize, Seq<char>) {
        (self.file@, self.line.0, self.id@)
    }
}

/// A non-external link destination, or inline code span text, found
/// anywhere in a document.
#[derive(Debug, Clone, PartialEq, Eq)]
pub struct DocumentLink {
    pub file: String,
    pub line: Line,
    pub dest: String,
}

impl View for DocumentLink {
    type V = (Seq<char>, usize, Seq<char>);

    open spec fn view(&self) -> (Seq<char>, usize, Seq<char>) {
        (self.file@, self.line.0, self.dest@)
    }
}

pub struct ExtractResultV {
    pub headings: Seq<HeadingV>,
    pub claims: Seq<ClaimV>,
    pub orphan_claims: Seq<(Seq<char>, usize)>,
    pub normative_occurrences: Seq<NormativeOccurrenceV>,
    pub unregistered_definitions: Seq<(Seq<char>, usize, Seq<char>)>,
    pub malformed_ids: Seq<(Seq<char>, usize, Seq<char>)>,
    pub links: Seq<(Seq<char>, usize, Seq<char>)>,
    pub code_references: Seq<(Seq<char>, usize, Seq<char>)>,
}

/// Everything extraction finds in one document.
#[derive(Debug, Clone)]
pub struct ExtractResult {
    pub headings: Vec<Heading>,
    pub claims: Vec<Claim>,
    pub orphan_claims: Vec<OrphanClaim>,
    pub normative_occurrences: Vec<NormativeOccurrence>,
    pub unregistered_definitions: Vec<UnregisteredDefinition>,
    pub malformed_ids: Vec<MalformedId>,
    /// Every non-external link destination in the document.
    pub links: Vec<DocumentLink>,
    /// Every non-external inline code span in the document.
    pub code_references: Vec<DocumentLink>,
}

impl View for ExtractResult {
    type V = ExtractResultV;

    open spec fn view(&self) -> ExtractResultV {
        ExtractResultV {
            headings: self.headings@.map_values(|h: Heading| h@),
            claims: self.claims@.map_values(|c: Claim| c@),
            orphan_claims: self.orphan_claims@.map_values(|o: OrphanClaim| o@),
            normative_occurrences: self.normative_occurrences@.map_values(|o: NormativeOccurrence| o@),
            unregistered_definitions: self.unregistered_definitions@.map_values(|u: UnregisteredDefinition| u@),
            malformed_ids: self.malformed_ids@.map_values(|m: MalformedId| m@),
            links: self.links@.map_values(|l: DocumentLink| l@),
            code_references: self.code_references@.map_values(|l: DocumentLink| l@),
        }
    }
}

// --- the structural walk ------------------------------------------------------

/// A heading as the walk first sees it: level, byte extent, and text
/// (trimmed once the heading closes).
#[derive(Debug, Clone)]
pub struct RawHeading {
    pub level: u8,
    pub start: usize,
    pub end: usize,
    pub text: String,
}

pub struct RawHeadingV {
    pub level: u8,
    pub start: usize,
    pub end: usize,
    pub text: Seq<char>,
}

impl View for RawHeading {
    type V = RawHeadingV;

    open spec fn view(&self) -> RawHeadingV {
        RawHeadingV { level: self.level, start: self.start, end: self.end, text: self.text@ }
    }
}

/// Something found at a byte offset with some text: a link (its
/// destination) or an inline code span (its content).
#[derive(Debug, Clone)]
pub struct RawText {
    pub start: usize,
    pub text: String,
}

impl View for RawText {
    type V = (usize, Seq<char>);

    open spec fn view(&self) -> (usize, Seq<char>) {
        (self.start, self.text@)
    }
}

/// A fenced code block: byte extent, whether its info string is exactly
/// `claim`, and its content.
#[derive(Debug, Clone)]
pub struct RawBlock {
    pub start: usize,
    pub end: usize,
    pub is_claim: bool,
    pub yaml: String,
}

impl View for RawBlock {
    type V = (usize, usize, bool, Seq<char>);

    open spec fn view(&self) -> (usize, usize, bool, Seq<char>) {
        (self.start, self.end, self.is_claim, self.yaml@)
    }
}

/// The abstract state of the structural walk.
#[verifier::ext_equal]
pub struct StructureV {
    pub headings: Seq<RawHeadingV>,
    pub links: Seq<(usize, Seq<char>)>,
    pub codes: Seq<(usize, Seq<char>)>,
    pub all_codes: Seq<(usize, Seq<char>)>,
    pub blocks: Seq<(usize, usize, bool, Seq<char>)>,
    pub normative: Seq<NormativeOccurrenceV>,
    pub cur_heading: Option<RawHeadingV>,
    pub cur_block: Option<(usize, usize, bool, Seq<char>)>,
    pub quote_depth: nat,
}

/// What one event does to the structural walk: headings (with their
/// text, inline code and line breaks folded in), fenced blocks, links,
/// inline code spans (those inside a heading feed only the heading), and
/// RFC-2119 keywords in the document's own voice — any text outside a
/// block quote and outside a fenced block.
pub open spec fn structure_step(st: StructureV, e: Spanned, file: Seq<char>, source: Seq<u8>) -> StructureV {
    match e.event {
        MdEvent::Start(MdTag::BlockQuote) => StructureV { quote_depth: st.quote_depth + 1, ..st },
        MdEvent::End(MdTagEnd::BlockQuote) => StructureV {
            quote_depth: if st.quote_depth > 0 { (st.quote_depth - 1) as nat } else { 0 },
            ..st
        },
        MdEvent::Start(MdTag::Heading(level)) => StructureV {
            cur_heading: Some(RawHeadingV { level, start: e.start, end: e.end, text: Seq::empty() }),
            ..st
        },
        MdEvent::End(MdTagEnd::Heading) => match st.cur_heading {
            Some(h) => StructureV {
                headings: st.headings.push(RawHeadingV { text: trim(h.text), ..h }),
                cur_heading: None,
                ..st
            },
            None => st,
        },
        MdEvent::Start(MdTag::CodeBlock(Some(info))) => StructureV {
            cur_block: Some((e.start, e.end, trim(info@) == "claim"@, Seq::empty())),
            ..st
        },
        MdEvent::End(MdTagEnd::CodeBlock) => match st.cur_block {
            Some(b) => StructureV { blocks: st.blocks.push(b), cur_block: None, ..st },
            None => st,
        },
        MdEvent::Start(MdTag::Link(dest)) => StructureV { links: st.links.push((e.start, dest@)), ..st },
        MdEvent::Text(t) => StructureV {
            cur_heading: match st.cur_heading {
                Some(h) => Some(RawHeadingV { text: h.text + t@, ..h }),
                None => None,
            },
            cur_block: match st.cur_block {
                Some(b) => Some((b.0, b.1, b.2, b.3 + t@)),
                None => None,
            },
            normative: if st.quote_depth == 0 && st.cur_block is None {
                st.normative + spec_scan_normative(file, t@, e.start as int, source)
            } else {
                st.normative
            },
            ..st
        },
        MdEvent::Code(t) => StructureV {
            all_codes: st.all_codes.push((e.start, t@)),
            cur_heading: match st.cur_heading {
                Some(h) => Some(RawHeadingV { text: h.text + t@, ..h }),
                None => None,
            },
            codes: if st.cur_heading is Some { st.codes } else { st.codes.push((e.start, t@)) },
            ..st
        },
        MdEvent::SoftBreak | MdEvent::HardBreak => StructureV {
            cur_heading: match st.cur_heading {
                Some(h) => Some(RawHeadingV { text: h.text.push(' '), ..h }),
                None => None,
            },
            ..st
        },
        _ => st,
    }
}

/// The structural walk over the first `n` events.
pub open spec fn structure_walk(events: Seq<Spanned>, n: int, file: Seq<char>, source: Seq<u8>) -> StructureV
    decreases n,
{
    if n <= 0 {
        StructureV {
            headings: Seq::empty(),
            links: Seq::empty(),
            codes: Seq::empty(),
            all_codes: Seq::empty(),
            blocks: Seq::empty(),
            normative: Seq::empty(),
            cur_heading: None,
            cur_block: None,
            quote_depth: 0,
        }
    } else {
        structure_step(structure_walk(events, n - 1, file, source), events[n - 1], file, source)
    }
}

/// The exec state of the structural walk.
pub struct Structure {
    pub headings: Vec<RawHeading>,
    pub links: Vec<RawText>,
    pub codes: Vec<RawText>,
    pub all_codes: Vec<RawText>,
    pub blocks: Vec<RawBlock>,
    pub normative: Vec<NormativeOccurrence>,
    pub cur_heading: Option<RawHeading>,
    pub cur_block: Option<RawBlock>,
    pub quote_depth: usize,
}

pub open spec fn opt_heading_view(o: Option<RawHeading>) -> Option<RawHeadingV> {
    match o {
        Some(h) => Some(h@),
        None => None,
    }
}

pub open spec fn opt_block_view(o: Option<RawBlock>) -> Option<(usize, usize, bool, Seq<char>)> {
    match o {
        Some(b) => Some(b@),
        None => None,
    }
}

impl View for Structure {
    type V = StructureV;

    open spec fn view(&self) -> StructureV {
        StructureV {
            headings: self.headings@.map_values(|h: RawHeading| h@),
            links: self.links@.map_values(|t: RawText| t@),
            codes: self.codes@.map_values(|t: RawText| t@),
            all_codes: self.all_codes@.map_values(|t: RawText| t@),
            blocks: self.blocks@.map_values(|b: RawBlock| b@),
            normative: self.normative@.map_values(|o: NormativeOccurrence| o@),
            cur_heading: opt_heading_view(self.cur_heading),
            cur_block: opt_block_view(self.cur_block),
            quote_depth: self.quote_depth as nat,
        }
    }
}

fn push_char(s: &mut String, c: char)
    ensures
        final(s)@ == old(s)@.push(c),
{
    let v: Vec<char> = vec![c];
    let one = crate::text::string_of(&v, 0, 1);
    proof { assert(v@.subrange(0, 1) =~= seq![c]); }
    s.append(one.as_str());
}

fn extend_normative(v: &mut Vec<NormativeOccurrence>, found: &Vec<NormativeOccurrence>)
    ensures
        final(v)@.map_values(|o: NormativeOccurrence| o@) == old(v)@.map_values(|o: NormativeOccurrence| o@)
            + found@.map_values(|o: NormativeOccurrence| o@),
{
    let ghost before = v@;
    let mut k: usize = 0;
    while k < found.len()
        invariant
            k <= found@.len(),
            v@.map_values(|o: NormativeOccurrence| o@) == before.map_values(|o: NormativeOccurrence| o@)
                + found@.take(k as int).map_values(|o: NormativeOccurrence| o@),
        decreases found@.len() - k,
    {
        let o = &found[k];
        let copy = NormativeOccurrence { file: o.file.clone(), line: o.line, keyword: o.keyword };
        assert(copy@ == found@[k as int]@);
        let ghost prev = v@;
        v.push(copy);
        proof {
            assert(v@ == prev.push(copy));
            assert(v@.map_values(|o: NormativeOccurrence| o@) =~= prev.map_values(|o: NormativeOccurrence| o@).push(copy@));
            assert(found@.take(k + 1) =~= found@.take(k as int).push(found@[k as int]));
            assert(v@.map_values(|o: NormativeOccurrence| o@) =~= before.map_values(|o: NormativeOccurrence| o@)
                + found@.take(k + 1).map_values(|o: NormativeOccurrence| o@));
        }
        k = k + 1;
    }
    proof { assert(found@.take(found@.len() as int) =~= found@); }
}

impl Structure {
    fn step(&mut self, e: &Spanned, file: &str, lines: &LineIndex)
        requires
            lines.wf(),
            old(self).quote_depth < usize::MAX,
        ensures
            final(self)@ == structure_step(old(self)@, *e, file@, lines.source_bytes()),
            final(self).quote_depth <= old(self).quote_depth + 1,
    {
        match &e.event {
            MdEvent::Start(MdTag::BlockQuote) => {
                self.quote_depth = self.quote_depth + 1;
            },
            MdEvent::End(MdTagEnd::BlockQuote) => {
                if self.quote_depth > 0 {
                    self.quote_depth = self.quote_depth - 1;
                }
            },
            MdEvent::Start(MdTag::Heading(level)) => {
                self.cur_heading = Some(RawHeading { level: *level, start: e.start, end: e.end, text: String::new() });
            },
            MdEvent::End(MdTagEnd::Heading) => {
                match self.cur_heading.take() {
                    Some(h) => {
                        let text = crate::text::trimmed(h.text.as_str());
                        self.headings.push(RawHeading { level: h.level, start: h.start, end: h.end, text });
                        proof {
                            assert(self.headings@.map_values(|h: RawHeading| h@) =~= old(self)@.headings.push(
                                RawHeadingV { text: trim(h.text@), ..h@ },
                            ));
                        }
                    },
                    None => {},
                }
            },
            MdEvent::Start(MdTag::CodeBlock(Some(info))) => {
                let t = crate::text::trimmed(info.as_str());
                let is_claim = crate::text::str_eq(t.as_str(), "claim");
                self.cur_block = Some(RawBlock { start: e.start, end: e.end, is_claim, yaml: String::new() });
            },
            MdEvent::End(MdTagEnd::CodeBlock) => {
                match self.cur_block.take() {
                    Some(b) => {
                        self.blocks.push(b);
                        proof {
                            assert(self.blocks@.map_values(|b: RawBlock| b@) =~= old(self)@.blocks.push(b@));
                        }
                    },
                    None => {},
                }
            },
            MdEvent::Start(MdTag::Link(dest)) => {
                self.links.push(RawText { start: e.start, text: dest.clone() });
                proof {
                    assert(self.links@.map_values(|t: RawText| t@) =~= old(self)@.links.push((e.start, dest@)));
                }
            },
            MdEvent::Text(t) => {
                match self.cur_heading.take() {
                    Some(mut h) => {
                        h.text.append(t.as_str());
                        self.cur_heading = Some(h);
                    },
                    None => {},
                }
                let own_voice = self.quote_depth == 0 && self.cur_block.is_none();
                match self.cur_block.take() {
                    Some(mut b) => {
                        b.yaml.append(t.as_str());
                        self.cur_block = Some(b);
                    },
                    None => {},
                }
                if own_voice {
                    let found = scan_normative_keywords(file, t.as_str(), e.start, lines);
                    extend_normative(&mut self.normative, &found);
                }
                proof {
                    assert(self@.normative =~= structure_step(old(self)@, *e, file@, lines.source_bytes()).normative);
                }
            },
            MdEvent::Code(t) => {
                self.all_codes.push(RawText { start: e.start, text: t.clone() });
                proof {
                    assert(self.all_codes@.map_values(|t: RawText| t@) =~= old(self)@.all_codes.push((e.start, t@)));
                }
                match self.cur_heading.take() {
                    Some(mut h) => {
                        h.text.append(t.as_str());
                        self.cur_heading = Some(h);
                    },
                    None => {
                        self.codes.push(RawText { start: e.start, text: t.clone() });
                        proof {
                            assert(self.codes@.map_values(|t: RawText| t@) =~= old(self)@.codes.push((e.start, t@)));
                        }
                    },
                }
            },
            MdEvent::SoftBreak | MdEvent::HardBreak => {
                match self.cur_heading.take() {
                    Some(mut h) => {
                        push_char(&mut h.text, ' ');
                        self.cur_heading = Some(h);
                    },
                    None => {},
                }
            },
            _ => {},
        }
        proof {
            assert(self@ =~= structure_step(old(self)@, *e, file@, lines.source_bytes()));
        }
    }
}

/// Run the structural walk over every event.
pub fn walk_structure(events: &Vec<Spanned>, file: &str, lines: &LineIndex) -> (r: Structure)
    requires
        lines.wf(),
    ensures
        r@ == structure_walk(events@, events@.len() as int, file@, lines.source_bytes()),
{
    let mut st = Structure {
        headings: Vec::new(),
        links: Vec::new(),
        codes: Vec::new(),
        all_codes: Vec::new(),
        blocks: Vec::new(),
        normative: Vec::new(),
        cur_heading: None,
        cur_block: None,
        quote_depth: 0,
    };
    let mut i: usize = 0;
    proof { assert(st@ =~= structure_walk(events@, 0, file@, lines.source_bytes())); }
    while i < events.len()
        invariant
            lines.wf(),
            i <= events@.len(),
            st.quote_depth <= i,
            st@ == structure_walk(events@, i as int, file@, lines.source_bytes()),
        decreases events@.len() - i,
    {
        st.step(&events[i], file, lines);
        i = i + 1;
    }
    st
}


// --- the definitions walk: bold-form and HTML-form ---------------------------

/// What a definition-shaped token turned out to be: a well-formed id, or
/// a bracketed token that fails the id grammar.
#[derive(Debug, Clone)]
pub enum DefCandidate {
    Definition(String),
    Malformed(String),
}

pub enum DefCandidateV {
    Definition(Seq<char>),
    Malformed(Seq<char>),
}

impl View for DefCandidate {
    type V = DefCandidateV;

    open spec fn view(&self) -> DefCandidateV {
        match self {
            DefCandidate::Definition(id) => DefCandidateV::Definition(id@),
            DefCandidate::Malformed(id) => DefCandidateV::Malformed(id@),
        }
    }
}

/// A byte extent with some text: a line-start bold span being read, or a
/// recognised bold-form or HTML-form definition (its id).
#[derive(Debug, Clone)]
pub struct RawSpan {
    pub start: usize,
    pub end: usize,
    pub text: String,
}

impl View for RawSpan {
    type V = (usize, usize, Seq<char>);

    open spec fn view(&self) -> (usize, usize, Seq<char>) {
        (self.start, self.end, self.text@)
    }
}

/// A closed line-start `**[id]**` awaiting its colon. `cursor` is the
/// byte at which the interstitial must continue; while `skip_depth` is
/// positive the walk is inside an inline wrapper whose whole extent is
/// already counted.
pub struct PendingBold {
    pub start: usize,
    pub interstitial_start: usize,
    pub cursor: usize,
    pub candidate: DefCandidate,
    pub skip_depth: usize,
}

pub struct PendingBoldV {
    pub start: usize,
    pub interstitial_start: usize,
    pub cursor: usize,
    pub candidate: DefCandidateV,
    pub skip_depth: nat,
}

impl View for PendingBold {
    type V = PendingBoldV;

    open spec fn view(&self) -> PendingBoldV {
        PendingBoldV {
            start: self.start,
            interstitial_start: self.interstitial_start,
            cursor: self.cursor,
            candidate: self.candidate@,
            skip_depth: self.skip_depth as nat,
        }
    }
}

/// An `<a id="...">` open tag awaiting the `</a>` that must follow it
/// immediately.
pub struct PendingHtml {
    pub start: usize,
    pub end_of_open: usize,
    pub candidate: DefCandidate,
}

pub struct PendingHtmlV {
    pub start: usize,
    pub end_of_open: usize,
    pub candidate: DefCandidateV,
}

impl View for PendingHtml {
    type V = PendingHtmlV;

    open spec fn view(&self) -> PendingHtmlV {
        PendingHtmlV { start: self.start, end_of_open: self.end_of_open, candidate: self.candidate@ }
    }
}

#[verifier::ext_equal]
pub struct DefinitionsV {
    pub cur_strong: Option<(usize, usize, Seq<char>)>,
    pub pending_bold: Option<PendingBoldV>,
    pub pending_html: Option<PendingHtmlV>,
    pub bold_defs: Seq<(usize, usize, Seq<char>)>,
    pub malformed_bold: Seq<(usize, Seq<char>)>,
    pub html_defs: Seq<(usize, usize, Seq<char>)>,
    pub malformed_html: Seq<(usize, Seq<char>)>,
}

pub open spec fn sat_sub(a: int, b: int) -> int {
    if a >= b { a - b } else { 0 }
}

pub open spec fn clamp_usize(a: int) -> usize {
    if a <= usize::MAX { a as usize } else { usize::MAX }
}

/// The text of an HTML event, block or inline.
pub open spec fn html_of(e: MdEvent) -> Option<Seq<char>> {
    match e {
        MdEvent::Html(t) => Some(t@),
        MdEvent::InlineHtml(t) => Some(t@),
        _ => None,
    }
}

/// A pending `<a id>` is kept only when the very next event, starting
/// exactly where the open tag ended, is its `</a>`.
pub open spec fn html_close_step(st: DefinitionsV, e: Spanned) -> DefinitionsV {
    match st.pending_html {
        None => st,
        Some(p) => {
            let st0 = DefinitionsV { pending_html: None, ..st };
            if e.start == p.end_of_open && (html_of(e.event) matches Some(t) && spec_is_html_close_tag(t, "a"@)) {
                match p.candidate {
                    DefCandidateV::Definition(id) => DefinitionsV { html_defs: st0.html_defs.push((p.start, e.end, id)), ..st0 },
                    DefCandidateV::Malformed(id) => DefinitionsV { malformed_html: st0.malformed_html.push((p.start, id)), ..st0 },
                }
            } else {
                st0
            }
        },
    }
}

/// A pending bold definition advances through adjacent text (within the
/// interstitial budget) until a colon resolves it; an inline wrapper
/// opening exactly at the cursor is skipped whole; anything else, or a
/// gap, abandons it.
pub open spec fn bold_step(st: DefinitionsV, e: Spanned) -> DefinitionsV {
    match st.pending_bold {
        None => st,
        Some(pb) => {
            let st0 = DefinitionsV { pending_bold: None, ..st };
            if pb.skip_depth > 0 {
                let d: nat = match e.event {
                    MdEvent::Start(_) => pb.skip_depth + 1,
                    MdEvent::End(_) => (pb.skip_depth - 1) as nat,
                    _ => pb.skip_depth,
                };
                DefinitionsV { pending_bold: Some(PendingBoldV { skip_depth: d, ..pb }), ..st }
            } else if e.start == pb.cursor {
                match e.event {
                    MdEvent::Text(t) => {
                        let budget = sat_sub(MAX_INTERSTITIAL_LEN as int, sat_sub(pb.cursor as int, pb.interstitial_start as int));
                        match spec_scan_interstitial(encode_utf8(t@), budget) {
                            InterstitialStep::ResolvedAt(rel) => match pb.candidate {
                                DefCandidateV::Definition(id) => DefinitionsV {
                                    bold_defs: st0.bold_defs.push((pb.start, clamp_usize(e.start + rel + 1), id)),
                                    ..st0
                                },
                                DefCandidateV::Malformed(id) => DefinitionsV {
                                    malformed_bold: st0.malformed_bold.push((pb.start, id)),
                                    ..st0
                                },
                            },
                            InterstitialStep::Continue => DefinitionsV {
                                pending_bold: Some(PendingBoldV { cursor: e.end, ..pb }),
                                ..st
                            },
                            InterstitialStep::Failed => st0,
                        }
                    },
                    MdEvent::Start(_) => if sat_sub(e.end as int, pb.interstitial_start as int) <= MAX_INTERSTITIAL_LEN {
                        DefinitionsV { pending_bold: Some(PendingBoldV { cursor: e.end, skip_depth: 1, ..pb }), ..st }
                    } else {
                        st0
                    },
                    _ => st0,
                }
            } else {
                st0
            }
        },
    }
}

/// What a line-start bold span's trimmed text makes a candidate of.
pub open spec fn bold_candidate(text: Seq<char>) -> Option<DefCandidateV> {
    match spec_bracket_kebab_id(text) {
        Some(id) => Some(DefCandidateV::Definition(id)),
        None => match spec_malformed_bracket_id(text) {
            Some(id) => Some(DefCandidateV::Malformed(id)),
            None => None,
        },
    }
}

/// Whether byte `start` begins a line of `source`.
pub open spec fn at_line_start(source: Seq<u8>, start: int) -> bool {
    start == 0 || (0 <= start - 1 < source.len() && source[start - 1] == 10u8)
}

/// The id of an `<a ...>` open tag carrying an `id` attribute.
pub open spec fn html_anchor_id(t: Seq<char>) -> Option<Seq<char>> {
    match spec_html_open_tag_name(t) {
        Some(name) => if eq_ignore_ascii_case(name, "a"@) { spec_html_attr_value(t, "id"@) } else { None },
        None => None,
    }
}

/// What the event itself opens or feeds: line-start bold spans and
/// their text, and `<a id>` candidates.
pub open spec fn definition_event_step(st: DefinitionsV, e: Spanned, source: Seq<u8>) -> DefinitionsV {
    match e.event {
        MdEvent::Start(MdTag::Strong) => DefinitionsV {
            cur_strong: if at_line_start(source, e.start as int) { Some((e.start, e.end, Seq::empty())) } else { None },
            ..st
        },
        MdEvent::End(MdTagEnd::Strong) => match st.cur_strong {
            None => st,
            Some(c) => match bold_candidate(trim(c.2)) {
                Some(cand) => DefinitionsV {
                    cur_strong: None,
                    pending_bold: Some(PendingBoldV { start: c.0, interstitial_start: c.1, cursor: c.1, candidate: cand, skip_depth: 0 }),
                    ..st
                },
                None => DefinitionsV { cur_strong: None, ..st },
            },
        },
        MdEvent::Html(t) | MdEvent::InlineHtml(t) => match html_anchor_id(t@) {
            Some(id) => DefinitionsV {
                pending_html: Some(PendingHtmlV {
                    start: e.start,
                    end_of_open: e.end,
                    candidate: if is_kebab(id) { DefCandidateV::Definition(id) } else { DefCandidateV::Malformed(id) },
                }),
                ..st
            },
            None => st,
        },
        MdEvent::Text(t) => DefinitionsV {
            cur_strong: match st.cur_strong {
                Some(c) => Some((c.0, c.1, c.2 + t@)),
                None => None,
            },
            ..st
        },
        _ => st,
    }
}

pub open spec fn definitions_step(st: DefinitionsV, e: Spanned, source: Seq<u8>) -> DefinitionsV {
    definition_event_step(bold_step(html_close_step(st, e), e), e, source)
}

pub open spec fn definitions_walk(events: Seq<Spanned>, n: int, source: Seq<u8>) -> DefinitionsV
    decreases n,
{
    if n <= 0 {
        DefinitionsV {
            cur_strong: None,
            pending_bold: None,
            pending_html: None,
            bold_defs: Seq::empty(),
            malformed_bold: Seq::empty(),
            html_defs: Seq::empty(),
            malformed_html: Seq::empty(),
        }
    } else {
        definitions_step(definitions_walk(events, n - 1, source), events[n - 1], source)
    }
}

/// Every definition found, and every pending candidate for one, has an
/// id in the id grammar.
pub open spec fn defs_kebab(st: DefinitionsV) -> bool {
    &&& forall|k: int| 0 <= k < st.bold_defs.len() ==> is_kebab(#[trigger] st.bold_defs[k].2)
    &&& forall|k: int| 0 <= k < st.html_defs.len() ==> is_kebab(#[trigger] st.html_defs[k].2)
    &&& (st.pending_bold matches Some(pb) ==> (pb.candidate matches DefCandidateV::Definition(id) ==> is_kebab(id)))
    &&& (st.pending_html matches Some(p) ==> (p.candidate matches DefCandidateV::Definition(id) ==> is_kebab(id)))
}

proof fn lemma_definitions_step_kebab(st: DefinitionsV, e: Spanned, source: Seq<u8>)
    requires
        defs_kebab(st),
    ensures
        defs_kebab(definitions_step(st, e, source)),
{
    let s1 = html_close_step(st, e);
    assert(defs_kebab(s1)) by {
        if let Some(p) = st.pending_html {
            if let DefCandidateV::Definition(id) = p.candidate {
                assert forall|k: int| 0 <= k < s1.html_defs.len() implies is_kebab(#[trigger] s1.html_defs[k].2) by {
                    if k < st.html_defs.len() {
                        assert(s1.html_defs[k] == st.html_defs[k]);
                    }
                }
            }
        }
    }
    let s2 = bold_step(s1, e);
    assert(defs_kebab(s2)) by {
        if let Some(pb) = s1.pending_bold {
            if let DefCandidateV::Definition(id) = pb.candidate {
                assert forall|k: int| 0 <= k < s2.bold_defs.len() implies is_kebab(#[trigger] s2.bold_defs[k].2) by {
                    if k < s1.bold_defs.len() {
                        assert(s2.bold_defs[k] == s1.bold_defs[k]);
                    }
                }
            }
        }
    }
    let s3 = definition_event_step(s2, e, source);
    assert(defs_kebab(s3)) by {
        if let MdEvent::End(MdTagEnd::Strong) = e.event {
            if let Some(c) = s2.cur_strong {
                let t = trim(c.2);
                if let Some(DefCandidateV::Definition(id)) = bold_candidate(t) {
                    assert(spec_bracket_kebab_id(t) == Some(id));
                }
            }
        }
    }
}

proof fn lemma_definitions_walk_kebab(events: Seq<Spanned>, n: int, source: Seq<u8>)
    ensures
        defs_kebab(definitions_walk(events, n, source)),
    decreases n,
{
    if n > 0 {
        lemma_definitions_walk_kebab(events, n - 1, source);
        lemma_definitions_step_kebab(definitions_walk(events, n - 1, source), events[n - 1], source);
    }
}

pub struct Definitions {
    pub cur_strong: Option<RawSpan>,
    pub pending_bold: Option<PendingBold>,
    pub pending_html: Option<PendingHtml>,
    pub bold_defs: Vec<RawSpan>,
    pub malformed_bold: Vec<RawText>,
    pub html_defs: Vec<RawSpan>,
    pub malformed_html: Vec<RawText>,
}

impl View for Definitions {
    type V = DefinitionsV;

    open spec fn view(&self) -> DefinitionsV {
        DefinitionsV {
            cur_strong: match self.cur_strong { Some(c) => Some(c@), None => None },
            pending_bold: match self.pending_bold { Some(p) => Some(p@), None => None },
            pending_html: match self.pending_html { Some(p) => Some(p@), None => None },
            bold_defs: self.bold_defs@.map_values(|d: RawSpan| d@),
            malformed_bold: self.malformed_bold@.map_values(|d: RawText| d@),
            html_defs: self.html_defs@.map_values(|d: RawSpan| d@),
            malformed_html: self.malformed_html@.map_values(|d: RawText| d@),
        }
    }
}

fn sat_sub_usize(a: usize, b: usize) -> (r: usize)
    ensures
        r == sat_sub(a as int, b as int),
{
    if a >= b { a - b } else { 0 }
}

impl Definitions {
    fn close_html(&mut self, e: &Spanned)
        ensures
            final(self)@ == html_close_step(old(self)@, *e),
            final(self).pending_bold == old(self).pending_bold,
    {
        match self.pending_html.take() {
            None => {},
            Some(p) => {
                let closes = e.start == p.end_of_open && match &e.event {
                    MdEvent::Html(t) | MdEvent::InlineHtml(t) => is_html_close_tag(t.as_str(), "a"),
                    _ => false,
                };
                proof { reveal_strlit("a"); }
                if closes {
                    match p.candidate {
                        DefCandidate::Definition(id) => {
                            let ghost prev = self.html_defs@;
                            let d = RawSpan { start: p.start, end: e.end, text: id };
                            self.html_defs.push(d);
                            proof {
                                assert(self.html_defs@.map_values(|d: RawSpan| d@) =~= prev.map_values(|d: RawSpan| d@).push(d@));
                            }
                        },
                        DefCandidate::Malformed(id) => {
                            let ghost prev = self.malformed_html@;
                            let d = RawText { start: p.start, text: id };
                            self.malformed_html.push(d);
                            proof {
                                assert(self.malformed_html@.map_values(|d: RawText| d@) =~= prev.map_values(|d: RawText| d@).push(d@));
                            }
                        },
                    }
                }
            },
        }
        proof { assert(self@ =~= html_close_step(old(self)@, *e)); }
    }

    fn advance_bold(&mut self, e: &Spanned, n_seen: usize)
        requires
            old(self).pending_bold matches Some(pb) ==> pb.skip_depth <= n_seen,
            n_seen < usize::MAX,
        ensures
            final(self)@ == bold_step(old(self)@, *e),
            final(self).pending_bold matches Some(pb) ==> pb.skip_depth <= n_seen + 1,
    {
        match self.pending_bold.take() {
            None => {},
            Some(mut pb) => {
                if pb.skip_depth > 0 {
                    match &e.event {
                        MdEvent::Start(_) => { pb.skip_depth = pb.skip_depth + 1; },
                        MdEvent::End(_) => { pb.skip_depth = pb.skip_depth - 1; },
                        _ => {},
                    }
                    self.pending_bold = Some(pb);
                } else if e.start == pb.cursor {
                    match &e.event {
                        MdEvent::Text(t) => {
                            let used = sat_sub_usize(pb.cursor, pb.interstitial_start);
                            let budget = sat_sub_usize(MAX_INTERSTITIAL_LEN, used);
                            let step = scan_interstitial_chunk(t.as_str(), budget);
                            match step {
                                InterstitialStep::ResolvedAt(rel) => {
                                    let end = add_clamped(add_clamped(e.start, rel), 1);
                                    match pb.candidate {
                                        DefCandidate::Definition(id) => {
                                            let ghost prev = self.bold_defs@;
                                            let d = RawSpan { start: pb.start, end, text: id };
                                            self.bold_defs.push(d);
                                            proof {
                                                assert(self.bold_defs@.map_values(|d: RawSpan| d@) =~= prev.map_values(|d: RawSpan| d@).push(d@));
                                            }
                                        },
                                        DefCandidate::Malformed(id) => {
                                            let ghost prev = self.malformed_bold@;
                                            let d = RawText { start: pb.start, text: id };
                                            self.malformed_bold.push(d);
                                            proof {
                                                assert(self.malformed_bold@.map_values(|d: RawText| d@) =~= prev.map_values(|d: RawText| d@).push(d@));
                                            }
                                        },
                                    }
                                },
                                InterstitialStep::Continue => {
                                    pb.cursor = e.end;
                                    self.pending_bold = Some(pb);
                                },
                                InterstitialStep::Failed => {},
                            }
                        },
                        MdEvent::Start(_) => {
                            if sat_sub_usize(e.end, pb.interstitial_start) <= MAX_INTERSTITIAL_LEN {
                                pb.cursor = e.end;
                                pb.skip_depth = 1;
                                self.pending_bold = Some(pb);
                            }
                        },
                        _ => {},
                    }
                }
            },
        }
        proof { assert(self@ =~= bold_step(old(self)@, *e)); }
    }

    fn see_event(&mut self, e: &Spanned, source: &str)
        ensures
            final(self)@ == definition_event_step(old(self)@, *e, source.spec_bytes()),
            final(self).pending_bold == old(self).pending_bold || (final(self).pending_bold matches Some(pb) && pb.skip_depth == 0),
    {
        match &e.event {
            MdEvent::Start(MdTag::Strong) => {
                let b = source.as_bytes();
                let line_start = e.start == 0 || (e.start - 1 < b.len() && b[e.start - 1] == 10u8);
                if line_start {
                    self.cur_strong = Some(RawSpan { start: e.start, end: e.end, text: String::new() });
                } else {
                    self.cur_strong = None;
                }
            },
            MdEvent::End(MdTagEnd::Strong) => {
                match self.cur_strong.take() {
                    None => {},
                    Some(c) => {
                        let tt = crate::text::trimmed(c.text.as_str());
                        let cand = match bracket_kebab_id(tt.as_str()) {
                            Some(id) => Some(DefCandidate::Definition(id)),
                            None => match malformed_bracket_id(tt.as_str()) {
                                Some(id) => Some(DefCandidate::Malformed(id)),
                                None => None,
                            },
                        };
                        match cand {
                            Some(candidate) => {
                                self.pending_bold = Some(PendingBold {
                                    start: c.start,
                                    interstitial_start: c.end,
                                    cursor: c.end,
                                    candidate,
                                    skip_depth: 0,
                                });
                            },
                            None => {},
                        }
                    },
                }
            },
            MdEvent::Html(t) | MdEvent::InlineHtml(t) => {
                let id = match html_open_tag_name(t.as_str()) {
                    Some(name) => {
                        if seq_eq_ignore_ascii_case(&chars_of(name.as_str()), &chars_of("a")) {
                            html_attr_value(t.as_str(), "id")
                        } else {
                            None
                        }
                    },
                    None => None,
                };
                match id {
                    Some(id) => {
                        let candidate = if is_kebab_case(id.as_str()) {
                            DefCandidate::Definition(id)
                        } else {
                            DefCandidate::Malformed(id)
                        };
                        self.pending_html = Some(PendingHtml { start: e.start, end_of_open: e.end, candidate });
                    },
                    None => {},
                }
            },
            MdEvent::Text(t) => {
                match self.cur_strong.take() {
                    Some(mut c) => {
                        c.text.append(t.as_str());
                        self.cur_strong = Some(c);
                    },
                    None => {},
                }
            },
            _ => {},
        }
        proof { assert(self@ =~= definition_event_step(old(self)@, *e, source.spec_bytes())); }
    }
}

/// Run the definitions walk over every event.
pub fn walk_definitions(events: &Vec<Spanned>, source: &str) -> (r: Definitions)
    ensures
        r@ == definitions_walk(events@, events@.len() as int, source.spec_bytes()),
{
    let mut st = Definitions {
        cur_strong: None,
        pending_bold: None,
        pending_html: None,
        bold_defs: Vec::new(),
        malformed_bold: Vec::new(),
        html_defs: Vec::new(),
        malformed_html: Vec::new(),
    };
    let mut i: usize = 0;
    proof { assert(st@ =~= definitions_walk(events@, 0, source.spec_bytes())); }
    while i < events.len()
        invariant
            i <= events@.len(),
            st.pending_bold matches Some(pb) ==> pb.skip_depth <= i,
            st@ == definitions_walk(events@, i as int, source.spec_bytes()),
        decreases events@.len() - i,
    {
        let e = &events[i];
        st.close_html(e);
        st.advance_bold(e, i);
        st.see_event(e, source);
        i = i + 1;
    }
    st
}


// --- a whole document -----------------------------------------------------------

/// What extraction finds in `source` (the document `file`): both walks
/// over pulldown-cmark's events, the definitions they found ordered by
/// position, each claim block owned by the nearest definition before it.
pub open spec fn spec_extract_document(file: Seq<char>, source: Seq<char>) -> ExtractResultV {
    spec_extract_events(file, source, markdown_events(source))
}

/// What extraction finds in `source` given its markdown `events`.
pub open spec fn spec_extract_events(file: Seq<char>, source: Seq<char>, events: Seq<Spanned>) -> ExtractResultV {
    let bytes = encode_utf8(source);
    let st = structure_walk(events, events.len() as int, file, bytes);
    let defs = definitions_walk(events, events.len() as int, bytes);
    let anchors = spec_anchors(source, st.headings, defs.bold_defs, defs.html_defs);
    let cw = claims_walk(file, bytes, st, defs, anchors, st.blocks.len() as int);
    ExtractResultV {
        headings: spec_headings(bytes, st.headings),
        claims: cw.0,
        orphan_claims: cw.1,
        normative_occurrences: st.normative,
        unregistered_definitions: unregistered(file, bytes, anchors, cw.2, anchors.len() as int),
        malformed_ids: spec_malformed(file, bytes, st.headings, defs),
        links: document_links(file, bytes, st.links, st.links.len() as int),
        code_references: document_links(file, bytes, st.all_codes, st.all_codes.len() as int),
    }
}

/// Every claim that extraction registers, and every definition it reports
/// as unregistered, carries an id in the id grammar (lowercase kebab case),
/// whatever the document holds.
pub proof fn lemma_extracted_ids_kebab(file: Seq<char>, source: Seq<char>, events: Seq<Spanned>)
    ensures
        forall|k: int|
            0 <= k < spec_extract_events(file, source, events).claims.len() ==> is_kebab(
                #[trigger] spec_extract_events(file, source, events).claims[k].id,
            ),
        forall|k: int|
            0 <= k < spec_extract_events(file, source, events).unregistered_definitions.len() ==> is_kebab(
                #[trigger] spec_extract_events(file, source, events).unregistered_definitions[k].2,
            ),
{
    let bytes = encode_utf8(source);
    let st = structure_walk(events, events.len() as int, file, bytes);
    let defs = definitions_walk(events, events.len() as int, bytes);
    lemma_definitions_walk_kebab(events, events.len() as int, bytes);
    let anchors = spec_anchors(source, st.headings, defs.bold_defs, defs.html_defs);
    lemma_anchor_ids_kebab(source, st.headings, defs.bold_defs, defs.html_defs);
    lemma_claims_walk_kebab(file, bytes, st, defs, anchors, st.blocks.len() as int);
    let cw = claims_walk(file, bytes, st, defs, anchors, st.blocks.len() as int);
    lemma_unregistered_kebab(file, bytes, anchors, cw.2, anchors.len() as int);
}

/// A link or code target naming a URL scheme (`://`, `mailto:`, `tel:`)
/// is external: extraction never keeps one among a claim's prose links,
/// the document links, or the code references.
pub proof fn lemma_external_targets_dropped(file: Seq<char>, source: Seq<char>, events: Seq<Spanned>)
    ensures
        forall|k: int| 0 <= k < spec_extract_events(file, source, events).links.len() ==> !names_a_scheme(#[trigger] spec_extract_events(file, source, events).links[k].2),
        forall|k: int| 0 <= k < spec_extract_events(file, source, events).code_references.len() ==> !names_a_scheme(#[trigger] spec_extract_events(file, source, events).code_references[k].2),
        forall|k: int, j: int| 0 <= k < spec_extract_events(file, source, events).claims.len() && 0 <= j < spec_extract_events(file, source, events).claims[k].prose_links.len()
            ==> !names_a_scheme(#[trigger] spec_extract_events(file, source, events).claims[k].prose_links[j]),
{
    let bytes = encode_utf8(source);
    let st = structure_walk(events, events.len() as int, file, bytes);
    let defs = definitions_walk(events, events.len() as int, bytes);
    let anchors = spec_anchors(source, st.headings, defs.bold_defs, defs.html_defs);
    lemma_document_links_local(file, bytes, st.links, st.links.len() as int);
    lemma_document_links_local(file, bytes, st.all_codes, st.all_codes.len() as int);
    lemma_claims_walk_local(file, bytes, st, defs, anchors, st.blocks.len() as int);
}

/// Every claim fence of a document becomes exactly one claim or one
/// orphan claim block, nothing else does, and each list keeps fence
/// order: the claims' block lines are the lines of the fences a definition
/// owns, the orphans' lines those of the rest.
pub proof fn lemma_extracted_claims_are_the_fences(file: Seq<char>, source: Seq<char>, events: Seq<Spanned>)
    ensures
        ({
            let r = spec_extract_events(file, source, events);
            let bytes = encode_utf8(source);
            let st = structure_walk(events, events.len() as int, file, bytes);
            let fl = fence_lines(bytes, st.blocks, st.blocks.len() as int);
            &&& r.claims.len() + r.orphan_claims.len() == fl.len()
            &&& exists|owned: Seq<bool>| {
                &&& owned.len() == fl.len()
                &&& r.claims.map_values(|c: ClaimV| c.block_line) == select_tagged(fl, owned, true, fl.len() as int)
                &&& r.orphan_claims.map_values(|o: (Seq<char>, usize)| o.1) == select_tagged(fl, owned, false, fl.len() as int)
            }
            &&& forall|k: int| 0 <= k < r.claims.len() ==> (#[trigger] r.claims[k]).file == file
            &&& forall|k: int| 0 <= k < r.orphan_claims.len() ==> (#[trigger] r.orphan_claims[k]).0 == file
        }),
{
    let bytes = encode_utf8(source);
    let st = structure_walk(events, events.len() as int, file, bytes);
    let defs = definitions_walk(events, events.len() as int, bytes);
    let anchors = spec_anchors(source, st.headings, defs.bold_defs, defs.html_defs);
    lemma_claims_walk_fences(file, bytes, st, defs, anchors, st.blocks.len() as int);
    let fl = fence_lines(bytes, st.blocks, st.blocks.len() as int);
    let t = crate::assembly::fence_owned(anchors, st.blocks, st.blocks.len() as int);
    lemma_select_tagged_split(fl, t, fl.len() as int);
    let r = spec_extract_events(file, source, events);
    assert(r.claims.map_values(|c: ClaimV| c.block_line).len() == r.claims.len());
    assert(r.orphan_claims.map_values(|o: (Seq<char>, usize)| o.1).len() == r.orphan_claims.len());
}

/// Extract the headings, claims and definition diagnostics of one
/// document.
pub fn extract_document(file: &str, source: &str) -> (r: ExtractResult)
    ensures
        r@ == spec_extract_document(file@, source@),
{
    let events = parse_markdown(source);
    extract_events(file, source, &events)
}

/// Extraction over a document's already-parsed markdown events.
pub fn extract_events(file: &str, source: &str, events: &Vec<Spanned>) -> (r: ExtractResult)
    ensures
        r@ == spec_extract_events(file@, source@, events@),
{
    let lines = LineIndex::new(source);
    let events = events;
    let st = walk_structure(events, file, &lines);
    let defs = walk_definitions(events, source);
    let anchors = build_anchors(source, &st.headings, &defs.bold_defs, &defs.html_defs);
    let (claims, orphan_claims, claimed) = collect_claims(file, source, &lines, &st, &defs, &anchors);
    let unregistered_definitions = collect_unregistered(file, &lines, &anchors, &claimed);
    let malformed_ids = collect_malformed(file, &lines, &st.headings, &defs);
    let links = collect_links(file, &lines, &st.links);
    let code_references = collect_links(file, &lines, &st.all_codes);
    let headings = collect_headings(&lines, &st.headings);
    let r = ExtractResult {
        headings,
        claims,
        orphan_claims,
        normative_occurrences: st.normative,
        unregistered_definitions,
        malformed_ids,
        links,
        code_references,
    };
    proof {
        assert(r@.links =~= spec_extract_events(file@, source@, events@).links);
    }
    r
}

} // verus!
