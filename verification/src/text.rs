//! Character-level helpers shared by every scanner in the crate: the
//! bridge between `str`/`String` and `Seq<char>`, ASCII predicates,
//! searching, and the few Unicode queries only the standard library can
//! answer.

use vstd::prelude::*;
use vstd::std_specs::iter::IteratorSpec;
use vstd::string::StringSliceAdditionalSpecFns;
use vstd::utf8::{decode_utf8, encode_utf8, is_char_boundary};

verus! {

/// Whether `c` is an ASCII lowercase letter.
pub open spec fn is_lower(c: char) -> bool {
    'a' <= c && c <= 'z'
}

/// Whether `c` is an ASCII decimal digit.
pub open spec fn is_digit(c: char) -> bool {
    '0' <= c && c <= '9'
}

/// Whether `c` is an ASCII letter of either case.
pub open spec fn is_alpha(c: char) -> bool {
    ('a' <= c && c <= 'z') || ('A' <= c && c <= 'Z')
}

/// Whether `c` is an ASCII letter or digit.
pub open spec fn is_alnum_ascii(c: char) -> bool {
    is_alpha(c) || is_digit(c)
}

pub fn char_is_lower(c: char) -> (r: bool)
    ensures
        r == is_lower(c),
{
    'a' <= c && c <= 'z'
}

pub fn char_is_digit(c: char) -> (r: bool)
    ensures
        r == is_digit(c),
{
    '0' <= c && c <= '9'
}

pub fn char_is_alpha(c: char) -> (r: bool)
    ensures
        r == is_alpha(c),
{
    ('a' <= c && c <= 'z') || ('A' <= c && c <= 'Z')
}

/// The first index at or after `from` where `s` holds `c`, or `s.len()`
/// when there is none.
pub open spec fn find_char_from(s: Seq<char>, c: char, from: int) -> int
    decreases s.len() - from,
{
    if from >= s.len() {
        s.len() as int
    } else if s[from] == c {
        from
    } else {
        find_char_from(s, c, from + 1)
    }
}

/// The first index of `c` in `s`, or `s.len()` when `c` does not occur.
pub open spec fn find_char(s: Seq<char>, c: char) -> int {
    find_char_from(s, c, 0)
}

pub proof fn lemma_find_char_from(s: Seq<char>, c: char, from: int)
    requires
        0 <= from <= s.len(),
    ensures
        from <= find_char_from(s, c, from) <= s.len(),
        forall|k: int| from <= k < find_char_from(s, c, from) ==> s[k] != c,
        find_char_from(s, c, from) < s.len() ==> s[find_char_from(s, c, from)] == c,
    decreases s.len() - from,
{
    if from < s.len() && s[from] != c {
        lemma_find_char_from(s, c, from + 1);
    }
}

/// `find_char_from` is pinned down by the three facts of
/// `lemma_find_char_from`.
pub proof fn lemma_find_char_from_unique(s: Seq<char>, c: char, from: int, r: int)
    requires
        0 <= from <= r <= s.len(),
        forall|k: int| from <= k < r ==> s[k] != c,
        r < s.len() ==> s[r] == c,
    ensures
        find_char_from(s, c, from) == r,
    decreases s.len() - from,
{
    if from < r {
        lemma_find_char_from_unique(s, c, from + 1, r);
    }
}

/// The first index at or after `from` where `v` holds `c`, or `v.len()`.
pub fn index_of_char(v: &Vec<char>, c: char, from: usize) -> (r: usize)
    requires
        from <= v@.len(),
    ensures
        r == find_char_from(v@, c, from as int),
{
    let mut i = from;
    while i < v.len()
        invariant
            from <= i <= v@.len(),
            forall|k: int| from <= k < i ==> v@[k] != c,
        decreases v@.len() - i,
    {
        if v[i] == c {
            proof { lemma_find_char_from_unique(v@, c, from as int, i as int); }
            return i;
        }
        i = i + 1;
    }
    proof { lemma_find_char_from_unique(v@, c, from as int, i as int); }
    i
}

/// Whether `needle` occurs in `s` starting at index `at`.
pub open spec fn occurs_at(s: Seq<char>, needle: Seq<char>, at: int) -> bool {
    0 <= at && at + needle.len() <= s.len() && s.subrange(at, at + needle.len()) == needle
}

pub fn matches_at(v: &Vec<char>, needle: &Vec<char>, at: usize) -> (r: bool)
    ensures
        r == occurs_at(v@, needle@, at as int),
{
    if at > v.len() || needle.len() > v.len() - at {
        return false;
    }
    let mut k: usize = 0;
    while k < needle.len()
        invariant
            at + needle@.len() <= v@.len(),
            v@.len() <= usize::MAX,
            k <= needle@.len(),
            forall|j: int| 0 <= j < k ==> v@[at + j] == needle@[j],
        decreases needle@.len() - k,
    {
        if v[at + k] != needle[k] {
            proof {
                assert(v@.subrange(at as int, at + needle@.len())[k as int] != needle@[k as int]);
            }
            return false;
        }
        k = k + 1;
    }
    proof {
        assert(v@.subrange(at as int, at + needle@.len()) =~= needle@);
    }
    true
}

/// `char::is_alphanumeric` beyond ASCII: Unicode `Alphabetic` or
/// `Numeric`, a fixed classification of the character.
pub uninterp spec fn non_ascii_alphanumeric(c: char) -> bool;

/// `char::is_alphanumeric`: among ASCII characters exactly the letters and
/// digits; beyond ASCII, Unicode's `Alphabetic` or `Numeric`.
pub open spec fn is_alphanumeric(c: char) -> bool {
    if (c as u32) < 0x80 {
        ('a' <= c && c <= 'z') || ('A' <= c && c <= 'Z') || ('0' <= c && c <= '9')
    } else {
        non_ascii_alphanumeric(c)
    }
}

/// `char::is_whitespace`: the Unicode `White_Space` property, which holds
/// of exactly these 25 code points.
pub open spec fn is_whitespace(c: char) -> bool {
    let n = c as u32;
    ||| 0x9 <= n && n <= 0xd
    ||| n == 0x20
    ||| n == 0x85
    ||| n == 0xa0
    ||| n == 0x1680
    ||| 0x2000 <= n && n <= 0x200a
    ||| n == 0x2028
    ||| n == 0x2029
    ||| n == 0x202f
    ||| n == 0x205f
    ||| n == 0x3000
}

/// Calls `char::is_alphanumeric`: true of the ASCII letters and digits and
/// of no other ASCII character; beyond ASCII the result is Unicode's fixed
/// classification of `c`, named `non_ascii_alphanumeric`.
#[verifier::external_body]
pub(crate) fn char_is_alphanumeric(c: char) -> (r: bool)
    ensures
        r == is_alphanumeric(c),
        (c as u32) >= 0x80 ==> r == non_ascii_alphanumeric(c),
{
    c.is_alphanumeric()
}

/// Whether `c` is one of the 25 `White_Space` code points.
pub fn char_is_whitespace(c: char) -> (r: bool)
    ensures
        r == is_whitespace(c),
{
    let n: u32 = c as u32;
    (0x9 <= n && n <= 0xd) || n == 0x20 || n == 0x85 || n == 0xa0 || n == 0x1680 || (0x2000 <= n && n <= 0x200a)
        || n == 0x2028 || n == 0x2029 || n == 0x202f || n == 0x205f || n == 0x3000
}

/// The characters of `s`, in order.
pub fn chars_of(s: &str) -> (r: Vec<char>)
    ensures
        r@ == s@,
{
    broadcast use vstd::string::axiom_spec_iter, vstd::string::next_postcondition;
    let mut out: Vec<char> = Vec::new();
    let mut it = s.chars();
    loop
        invariant
            out@ + it.remaining() == s@,
            it.obeys_prophetic_iter_laws(),
            it.decrease() is Some,
        ensures
            out@ == s@,
        decreases it.decrease()->0,
    {
        match it.next() {
            Some(c) => {
                out.push(c);
                proof { assert(out@ + it.remaining() =~= s@); }
            },
            None => {
                proof { assert(out@ =~= s@); }
                break;
            },
        }
    }
    out
}

/// Appends `c` to `s` (`String::push`).
#[verifier::external_body]
fn push_char(s: &mut String, c: char)
    ensures
        final(s)@ == old(s)@.push(c),
{
    s.push(c);
}

/// A `String` holding exactly `v[from..to]`.
pub fn string_of(v: &[char], from: usize, to: usize) -> (r: String)
    requires
        from <= to <= v@.len(),
    ensures
        r@ == v@.subrange(from as int, to as int),
{
    let mut out = String::new();
    let mut i: usize = from;
    while i < to
        invariant
            from <= i <= to <= v@.len(),
            out@ == v@.subrange(from as int, i as int),
        decreases to - i,
    {
        push_char(&mut out, v[i]);
        proof { assert(v@.subrange(from as int, i + 1) =~= v@.subrange(from as int, i as int).push(v@[i as int])); }
        i = i + 1;
    }
    out
}

/// String equality by content, character by character.
pub fn str_eq(a: &str, b: &str) -> (r: bool)
    ensures
        r == (a@ == b@),
{
    let x = chars_of(a);
    let y = chars_of(b);
    if x.len() != y.len() {
        return false;
    }
    let mut i: usize = 0;
    while i < x.len()
        invariant
            i <= x@.len() == y@.len(),
            x@ == a@,
            y@ == b@,
            forall|k: int| 0 <= k < i ==> x@[k] == y@[k],
        decreases x@.len() - i,
    {
        if x[i] != y[i] {
            return false;
        }
        i = i + 1;
    }
    proof { assert(x@ =~= y@); }
    true
}

/// `s[a..b]` by byte offsets: the text between them when both are
/// within the string, in order, and at character boundaries, else
/// nothing.
pub open spec fn byte_slice(s: Seq<char>, a: int, b: int) -> Option<Seq<char>> {
    let bytes = encode_utf8(s);
    if 0 <= a <= b <= bytes.len() && is_char_boundary(bytes, a) && is_char_boundary(bytes, b) {
        Some(decode_utf8(bytes.subrange(a, b)))
    } else {
        None
    }
}

/// Calls `str::get(a..b)`, which is `None` exactly where indexing by
/// `a..b` would panic: `a > b`, `b` past the end, or either offset not
/// on a character boundary; else the text between the two offsets.
#[verifier::external_body]
pub(crate) fn str_get(s: &str, a: usize, b: usize) -> (r: Option<String>)
    ensures
        r.deep_view() == byte_slice(s@, a as int, b as int),
{
    s.get(a..b).map(|t| t.to_string())
}

/// A boundary at or after `a` stays a boundary of the bytes from `a` on.
proof fn lemma_boundary_shift(bytes: Seq<u8>, a: int, b: int)
    requires
        vstd::utf8::valid_utf8(bytes),
        0 <= a <= b <= bytes.len(),
        is_char_boundary(bytes, a),
        is_char_boundary(bytes, b),
    ensures
        vstd::utf8::valid_utf8(bytes.subrange(a, bytes.len() as int)),
        is_char_boundary(bytes.subrange(a, bytes.len() as int), b - a),
{
    let tail = bytes.subrange(a, bytes.len() as int);
    vstd::utf8::valid_utf8_split(bytes, a);
    if b == bytes.len() {
        vstd::utf8::is_char_boundary_start_end_of_seq(tail);
    } else if b > a {
        vstd::utf8::is_char_boundary_iff_not_is_continuation_byte(bytes, b);
        vstd::utf8::is_char_boundary_iff_not_is_continuation_byte(tail, b - a);
        assert(tail[b - a] == bytes[b]);
    }
}

/// A slice between two boundaries encodes to exactly the bytes between
/// them.
pub proof fn lemma_byte_slice(s: Seq<char>, a: int, b: int)
    ensures
        byte_slice(s, a, b) matches Some(t) ==> encode_utf8(t) == encode_utf8(s).subrange(a, b),
{
    let bytes = encode_utf8(s);
    if 0 <= a <= b <= bytes.len() && is_char_boundary(bytes, a) && is_char_boundary(bytes, b) {
        vstd::utf8::encode_utf8_valid_utf8(s);
        vstd::utf8::valid_utf8_split(bytes, a);
        let tail = bytes.subrange(a, bytes.len() as int);
        lemma_boundary_shift(bytes, a, b);
        vstd::utf8::valid_utf8_split(tail, b - a);
        assert(tail.subrange(0, b - a) =~= bytes.subrange(a, b));
        vstd::utf8::decode_utf8_encode_utf8(bytes.subrange(a, b));
    }
}

/// The encoding of a concatenation is the concatenation of the
/// encodings.
pub proof fn lemma_encode_concat(a: Seq<char>, b: Seq<char>)
    ensures
        encode_utf8(a + b) == encode_utf8(a) + encode_utf8(b),
    decreases a.len(),
{
    if a.len() == 0 {
        assert(a + b =~= b);
        assert(encode_utf8(a) =~= Seq::<u8>::empty());
        assert(encode_utf8(a) + encode_utf8(b) =~= encode_utf8(b));
    } else {
        lemma_encode_concat(a.drop_first(), b);
        assert((a + b).drop_first() =~= a.drop_first() + b);
        assert((a + b)[0] == a[0]);
        assert(encode_utf8(a + b) =~= encode_utf8(a) + encode_utf8(b));
    }
}

/// What `{:?}` writes for a text: the text in double quotes, its quotes,
/// backslashes and unprintable characters escaped. A function of the
/// text alone.
pub uninterp spec fn debug_quoted(s: Seq<char>) -> Seq<char>;

/// Formats `s` with `<str as Debug>::fmt`; the result is named
/// `debug_quoted`.
#[verifier::external_body]
pub(crate) fn debug_text(s: &str) -> (r: String)
    ensures
        r@ == debug_quoted(s@),
{
    format!("{:?}", s)
}

/// An owned copy of `s`.
pub fn owned(s: &str) -> (r: String)
    ensures
        r@ == s@,
{
    s.to_owned()
}

/// `s` with leading Unicode whitespace removed.
pub open spec fn trim_start(s: Seq<char>) -> Seq<char>
    decreases s.len(),
{
    if s.len() > 0 && is_whitespace(s[0]) {
        trim_start(s.drop_first())
    } else {
        s
    }
}

/// `s` with trailing Unicode whitespace removed.
pub open spec fn trim_end(s: Seq<char>) -> Seq<char>
    decreases s.len(),
{
    if s.len() > 0 && is_whitespace(s.last()) {
        trim_end(s.drop_last())
    } else {
        s
    }
}

/// `s` with leading and trailing Unicode whitespace removed (`str::trim`).
pub open spec fn trim(s: Seq<char>) -> Seq<char> {
    trim_end(trim_start(s))
}

proof fn lemma_trim_start_step(s: Seq<char>, i: int)
    requires
        0 <= i < s.len(),
        is_whitespace(s[i]),
    ensures
        trim_start(s.subrange(i, s.len() as int)) == trim_start(s.subrange(i + 1, s.len() as int)),
{
    assert(s.subrange(i, s.len() as int).drop_first() =~= s.subrange(i + 1, s.len() as int));
}

proof fn lemma_trim_end_step(s: Seq<char>, a: int, j: int)
    requires
        0 <= a < j <= s.len(),
        is_whitespace(s[j - 1]),
    ensures
        trim_end(s.subrange(a, j)) == trim_end(s.subrange(a, j - 1)),
{
    assert(s.subrange(a, j).drop_last() =~= s.subrange(a, j - 1));
}

/// The bounds `[a, b)` of `trim(v)` within `v`.
pub fn trim_bounds(v: &Vec<char>) -> (r: (usize, usize))
    ensures
        r.0 <= r.1 <= v@.len(),
        v@.subrange(r.0 as int, r.1 as int) == trim(v@),
{
    let n = v.len();
    let mut i: usize = 0;
    proof { assert(v@.subrange(0, n as int) =~= v@); }
    while i < n && char_is_whitespace(v[i])
        invariant
            i <= n == v@.len(),
            trim_start(v@.subrange(i as int, n as int)) == trim_start(v@),
        decreases n - i,
    {
        proof { lemma_trim_start_step(v@, i as int); }
        i = i + 1;
    }
    proof {
        let t = v@.subrange(i as int, n as int);
        if i < n {
            assert(!is_whitespace(t[0]));
        }
        assert(trim_start(t) == t);
    }
    let mut j: usize = n;
    while j > i && char_is_whitespace(v[j - 1])
        invariant
            i <= j <= n == v@.len(),
            trim_end(v@.subrange(i as int, j as int)) == trim(v@),
        decreases j - i,
    {
        proof { lemma_trim_end_step(v@, i as int, j as int); }
        j = j - 1;
    }
    proof {
        let t = v@.subrange(i as int, j as int);
        if j > i {
            assert(t.last() == v@[j - 1]);
        }
        assert(trim_end(t) == t);
    }
    (i, j)
}

/// Where `trim_start(v)` begins within `v`.
pub fn trim_start_index(v: &Vec<char>) -> (r: usize)
    ensures
        r <= v@.len(),
        v@.subrange(r as int, v@.len() as int) == trim_start(v@),
{
    let n = v.len();
    let mut i: usize = 0;
    proof { assert(v@.subrange(0, n as int) =~= v@); }
    while i < n && char_is_whitespace(v[i])
        invariant
            i <= n == v@.len(),
            trim_start(v@.subrange(i as int, n as int)) == trim_start(v@),
        decreases n - i,
    {
        proof { lemma_trim_start_step(v@, i as int); }
        i = i + 1;
    }
    proof {
        let t = v@.subrange(i as int, n as int);
        if i < n {
            assert(!is_whitespace(t[0]));
        }
        assert(trim_start(t) == t);
    }
    i
}

/// `str::trim`, as an owned string.
pub fn trimmed(s: &str) -> (r: String)
    ensures
        r@ == trim(s@),
{
    let v = chars_of(s);
    let (a, b) = trim_bounds(&v);
    string_of(&v, a, b)
}

/// ASCII lowercase of one character; every other character unchanged.
pub open spec fn ascii_lower(c: char) -> char {
    if 'A' <= c && c <= 'Z' {
        ((c as u32) + 32) as char
    } else {
        c
    }
}

/// `str::eq_ignore_ascii_case`.
pub open spec fn eq_ignore_ascii_case(a: Seq<char>, b: Seq<char>) -> bool {
    a.len() == b.len() && forall|i: int| 0 <= i < a.len() ==> ascii_lower(a[i]) == ascii_lower(b[i])
}

/// The ASCII lowercase of `c`: `A` to `Z` become `a` to `z`, every other
/// character stays as it is.
pub fn char_ascii_lower(c: char) -> (r: char)
    ensures
        r == ascii_lower(c),
{
    if 'A' <= c && c <= 'Z' {
        let code: u8 = (c as u8) + 32;
        code as char
    } else {
        c
    }
}

pub fn seq_eq_ignore_ascii_case(a: &Vec<char>, b: &Vec<char>) -> (r: bool)
    ensures
        r == eq_ignore_ascii_case(a@, b@),
{
    if a.len() != b.len() {
        return false;
    }
    let mut i: usize = 0;
    while i < a.len()
        invariant
            a@.len() == b@.len(),
            i <= a@.len(),
            forall|k: int| 0 <= k < i ==> ascii_lower(a@[k]) == ascii_lower(b@[k]),
        decreases a@.len() - i,
    {
        if char_ascii_lower(a[i]) != char_ascii_lower(b[i]) {
            return false;
        }
        i = i + 1;
    }
    true
}

/// Whether `s` contains `needle` anywhere.
pub open spec fn contains_seq(s: Seq<char>, needle: Seq<char>) -> bool {
    exists|i: int| occurs_at(s, needle, i)
}

pub fn contains_chars(v: &Vec<char>, needle: &Vec<char>) -> (r: bool)
    ensures
        r == contains_seq(v@, needle@),
{
    if needle.len() > v.len() {
        return false;
    }
    let last = v.len() - needle.len();
    let mut i: usize = 0;
    loop
        invariant
            needle@.len() <= v@.len(),
            last == v@.len() - needle@.len(),
            i <= last,
            forall|k: int| 0 <= k < i ==> !occurs_at(v@, needle@, k),
        decreases last - i,
    {
        if matches_at(v, needle, i) {
            return true;
        }
        if i == last {
            proof {
                assert forall|k: int| !occurs_at(v@, needle@, k) by {
                    if 0 <= k && k + needle@.len() <= v@.len() {
                        assert(k <= i);
                    }
                }
            }
            return false;
        }
        i = i + 1;
    }
}

/// Whether `s` begins with `p`.
pub open spec fn starts_with(s: Seq<char>, p: Seq<char>) -> bool {
    p.len() <= s.len() && s.take(p.len() as int) == p
}

pub fn chars_start_with(v: &Vec<char>, p: &Vec<char>) -> (r: bool)
    ensures
        r == starts_with(v@, p@),
{
    let r = matches_at(v, p, 0);
    proof {
        if p@.len() <= v@.len() {
            assert(v@.subrange(0, p@.len() as int) =~= v@.take(p@.len() as int));
        }
    }
    r
}

/// The `\n`-separated segments of `s` from index `i` on: `str::lines`,
/// except that a line keeps a trailing `\r` and a text ending in `\n`
/// has one more, empty, segment.
pub open spec fn segments_from(s: Seq<char>, i: int) -> Seq<Seq<char>>
    decreases s.len() - i,
{
    if i < 0 || i > s.len() {
        Seq::empty()
    } else {
        let j = find_char_from(s, '\n', i);
        if j < s.len() && j >= i {
            seq![s.subrange(i, j)] + segments_from(s, j + 1)
        } else {
            seq![s.subrange(i, s.len() as int)]
        }
    }
}

pub proof fn lemma_segments_nonempty(s: Seq<char>, i: int)
    requires
        0 <= i <= s.len(),
    ensures
        segments_from(s, i).len() >= 1,
        segments_from(s, i)[0] == s.subrange(i, find_char_from(s, '\n', i)),
        find_char_from(s, '\n', i) < s.len() ==> segments_from(s, i) == seq![s.subrange(i, find_char_from(s, '\n', i))] + segments_from(s, find_char_from(s, '\n', i) + 1),
        find_char_from(s, '\n', i) >= s.len() ==> segments_from(s, i).len() == 1,
{
    lemma_find_char_from(s, '\n', i);
    let j = find_char_from(s, '\n', i);
    if j < s.len() {
        lemma_find_char_from(s, '\n', j + 1);
    } else {
        assert(j == s.len());
    }
}


/// The `sep`-separated pieces of `s` from index `i` on (`str::split`).
pub open spec fn pieces_from(s: Seq<char>, sep: char, i: int) -> Seq<Seq<char>>
    decreases s.len() - i,
{
    if i < 0 || i > s.len() {
        Seq::empty()
    } else {
        let j = find_char_from(s, sep, i);
        if j < s.len() && j >= i {
            seq![s.subrange(i, j)] + pieces_from(s, sep, j + 1)
        } else {
            seq![s.subrange(i, s.len() as int)]
        }
    }
}

pub proof fn lemma_pieces_nonempty(s: Seq<char>, sep: char, i: int)
    requires
        0 <= i <= s.len(),
    ensures
        pieces_from(s, sep, i).len() >= 1,
        pieces_from(s, sep, i)[0] == s.subrange(i, find_char_from(s, sep, i)),
        find_char_from(s, sep, i) < s.len() ==> pieces_from(s, sep, i) == seq![s.subrange(i, find_char_from(s, sep, i))]
            + pieces_from(s, sep, find_char_from(s, sep, i) + 1),
        find_char_from(s, sep, i) >= s.len() ==> pieces_from(s, sep, i).len() == 1,
{
    lemma_find_char_from(s, sep, i);
    let j = find_char_from(s, sep, i);
    if j < s.len() {
        lemma_find_char_from(s, sep, j + 1);
    } else {
        assert(j == s.len());
    }
}

/// Every piece of `v` split at `sep`, in order.
pub fn split_pieces(v: &Vec<char>, sep: char) -> (r: Vec<Vec<char>>)
    ensures
        r@.map_values(|p: Vec<char>| p@) == pieces_from(v@, sep, 0),
{
    let ghost all = pieces_from(v@, sep, 0);
    let mut out: Vec<Vec<char>> = Vec::new();
    let mut i: usize = 0;
    let mut done = false;
    let ghost mut k: int = 0;
    proof { lemma_pieces_nonempty(v@, sep, 0); }
    while !done
        invariant
            i <= v@.len(),
            all == pieces_from(v@, sep, 0),
            0 <= k <= all.len(),
            out@.map_values(|p: Vec<char>| p@) == all.take(k),
            done ==> k == all.len(),
            !done ==> pieces_from(v@, sep, i as int) == all.skip(k) && k < all.len(),
        decreases (if done { 0 } else { v@.len() - i + 1 }),
    {
        let j = index_of_char(v, sep, i);
        proof {
            lemma_find_char_from(v@, sep, i as int);
            lemma_pieces_nonempty(v@, sep, i as int);
        }
        let piece = chars_of(string_of(v, i, j).as_str());
        let ghost prev = out@.map_values(|p: Vec<char>| p@);
        out.push(piece);
        proof {
            assert(all.skip(k)[0] == all[k]);
            assert(all[k] == piece@);
            assert(out@.map_values(|p: Vec<char>| p@) =~= prev.push(piece@));
            assert(all.take(k + 1) =~= all.take(k).push(all[k]));
        }
        if j < v.len() {
            proof {
                lemma_pieces_nonempty(v@, sep, j + 1);
                assert((seq![v@.subrange(i as int, j as int)] + pieces_from(v@, sep, j + 1)).skip(1) =~= pieces_from(v@, sep, j + 1));
                assert(all.skip(k).skip(1) =~= all.skip(k + 1));
                k = k + 1;
            }
            i = j + 1;
        } else {
            proof {
                assert(all.skip(k).len() == 1);
                k = k + 1;
            }
            done = true;
        }
    }
    proof { assert(all.take(all.len() as int) =~= all); }
    out
}

/// `items`' first `n` joined with `sep` between them (`[T]::join`).
pub open spec fn join_sep(items: Seq<Seq<char>>, sep: Seq<char>, n: int) -> Seq<char>
    decreases n,
{
    if n <= 0 {
        Seq::empty()
    } else if n == 1 {
        items[0]
    } else {
        join_sep(items, sep, n - 1) + sep + items[n - 1]
    }
}

/// `items` joined with `sep` between them.
pub fn join_with(items: &Vec<String>, sep: &str) -> (r: String)
    ensures
        r@ == join_sep(items.deep_view(), sep@, items@.len() as int),
{
    let mut s = String::new();
    let mut i: usize = 0;
    while i < items.len()
        invariant
            i <= items@.len(),
            s@ == join_sep(items.deep_view(), sep@, i as int),
        decreases items@.len() - i,
    {
        if i > 0 {
            s.append(sep);
        }
        s.append(items[i].as_str());
        i = i + 1;
    }
    s
}

/// `items` joined with `/`.
pub fn join_slash(items: &Vec<String>) -> (r: String)
    ensures
        r@ == join_sep(items.deep_view(), "/"@, items@.len() as int),
{
    join_with(items, "/")
}

/// `s` from index `i` on with every match of `p` replaced by `q`: the
/// matches are found from the left and do not overlap, and an empty `p`
/// matches before every character and at the end.
pub open spec fn replace_from(s: Seq<char>, p: Seq<char>, q: Seq<char>, i: int) -> Seq<char>
    decreases s.len() - i,
{
    if i >= s.len() {
        if p.len() == 0 && i == s.len() {
            q
        } else {
            Seq::empty()
        }
    } else if p.len() == 0 {
        q + seq![s[i]] + replace_from(s, p, q, i + 1)
    } else if occurs_at(s, p, i) {
        q + replace_from(s, p, q, i + p.len())
    } else {
        seq![s[i]] + replace_from(s, p, q, i + 1)
    }
}

/// `s` with every match of `p` replaced by `q`, as `str::replace` does.
pub open spec fn replace_all(s: Seq<char>, p: Seq<char>, q: Seq<char>) -> Seq<char> {
    replace_from(s, p, q, 0)
}

fn extend_chars(out: &mut Vec<char>, v: &Vec<char>)
    ensures
        final(out)@ == old(out)@ + v@,
{
    let mut i: usize = 0;
    while i < v.len()
        invariant
            i <= v@.len(),
            out@ == old(out)@ + v@.take(i as int),
        decreases v@.len() - i,
    {
        out.push(v[i]);
        proof { assert(v@.take(i + 1) =~= v@.take(i as int).push(v@[i as int])); }
        i = i + 1;
    }
    proof { assert(v@.take(v@.len() as int) =~= v@); }
}

/// `s` with every match of `p` replaced by `q`.
pub fn replace_text(s: &str, p: &str, q: &str) -> (r: String)
    ensures
        r@ == replace_all(s@, p@, q@),
{
    let sv = chars_of(s);
    let pv = chars_of(p);
    let qv = chars_of(q);
    let mut out: Vec<char> = Vec::new();
    let mut i: usize = 0;
    while i < sv.len()
        invariant
            i <= sv@.len(),
            sv@ == s@,
            pv@ == p@,
            qv@ == q@,
            out@ + replace_from(s@, p@, q@, i as int) == replace_all(s@, p@, q@),
        decreases sv@.len() - i,
    {
        let ghost o = out@;
        if pv.len() == 0 {
            extend_chars(&mut out, &qv);
            out.push(sv[i]);
            proof { assert(out@ + replace_from(s@, p@, q@, i + 1) =~= o + replace_from(s@, p@, q@, i as int)); }
            i = i + 1;
        } else if matches_at(&sv, &pv, i) {
            extend_chars(&mut out, &qv);
            proof { assert(out@ + replace_from(s@, p@, q@, i + pv@.len()) =~= o + replace_from(s@, p@, q@, i as int)); }
            i = i + pv.len();
        } else {
            out.push(sv[i]);
            proof { assert(out@ + replace_from(s@, p@, q@, i + 1) =~= o + replace_from(s@, p@, q@, i as int)); }
            i = i + 1;
        }
    }
    if pv.len() == 0 {
        let ghost o = out@;
        extend_chars(&mut out, &qv);
        proof { assert(out@ =~= o + replace_from(s@, p@, q@, i as int)); }
    } else {
        proof { assert(out@ =~= out@ + replace_from(s@, p@, q@, i as int)); }
    }
    proof { assert(out@.subrange(0, out@.len() as int) =~= out@); }
    string_of(&out, 0, out.len())
}

} // verus!
