//! The corpus configuration: genres, each a glob pattern over
//! corpus-relative paths with the claim kinds its documents may hold and
//! the quadrant they serve.

use vstd::prelude::*;
use crate::model::{Kind, Quadrant};
use crate::text::{owned, str_eq};

verus! {

/// A path matching more than one genre: a configuration error, not a
/// precedence question.
#[derive(Debug, Clone, PartialEq, Eq)]
pub struct AmbiguousGenre {
    pub path: String,
    /// The patterns it matched, in configuration order.
    pub matched: Vec<String>,
}

impl AmbiguousGenre {
    /// The error's text: the path, then every pattern it matched.
    pub fn message(&self) -> (r: String)
        ensures
            r@ == spec_ambiguous_message(self.path@, self.matched.deep_view()),
    {
        let mut s = owned(self.path.as_str());
        s.append(" matches more than one genre: ");
        let mut i: usize = 0;
        proof { reveal_strlit(" matches more than one genre: "); reveal_strlit(", "); }
        while i < self.matched.len()
            invariant
                i <= self.matched@.len(),
                s@ == self.path@ + " matches more than one genre: "@ + joined(self.matched.deep_view(), i as int),
            decreases self.matched@.len() - i,
        {
            if i > 0 {
                s.append(", ");
            }
            s.append(self.matched[i].as_str());
            i = i + 1;
        }
        s
    }
}

/// `items`' first `n`, separated by `, `.
pub open spec fn joined(items: Seq<Seq<char>>, n: int) -> Seq<char>
    decreases n,
{
    if n <= 0 {
        Seq::empty()
    } else if n == 1 {
        items[0]
    } else {
        joined(items, n - 1) + ", "@ + items[n - 1]
    }
}

pub open spec fn spec_ambiguous_message(path: Seq<char>, matched: Seq<Seq<char>>) -> Seq<char> {
    path + " matches more than one genre: "@ + joined(matched, matched.len() as int)
}

/// One genre.
#[derive(Debug, Clone)]
pub struct Genre {
    /// The glob pattern as written in the configuration.
    pub path: String,
    pub kinds: Vec<Kind>,
    pub quadrant: Quadrant,
}

/// The configuration: every genre, in order.
#[derive(Debug, Clone)]
pub struct Config {
    pub genres: Vec<Genre>,
}

/// Whether the glob `pattern` (glob's default options) matches `path`; a
/// pattern that does not compile matches nothing. A function of its
/// arguments alone.
pub uninterp spec fn glob_match(pattern: Seq<char>, path: Seq<char>) -> bool;

/// Compiles `pattern` with `glob::Pattern::new` and tests `path` with
/// `Pattern::matches`. The answer is named `glob_match`; nothing more is
/// claimed of it.
#[verifier::external_body]
pub(crate) fn glob_matches(pattern: &str, path: &str) -> (r: bool)
    ensures
        r == glob_match(pattern@, path@),
{
    glob::Pattern::new(pattern).is_ok_and(|p| p.matches(path))
}

/// The indices of the genres, among the first `n`, whose pattern
/// matches `path`.
pub open spec fn matching_genres(genres: Seq<Genre>, path: Seq<char>, n: int) -> Seq<int>
    decreases n,
{
    if n <= 0 {
        Seq::empty()
    } else {
        matching_genres(genres, path, n - 1) + if glob_match(genres[n - 1].path@, path) { seq![n - 1] } else { Seq::empty() }
    }
}

impl Config {
    /// The genre whose pattern matches `path`: none (the file is not
    /// scanned), exactly one, or an error naming every match when more
    /// than one does.
    pub fn match_genre(&self, path: &str) -> (r: Result<Option<&Genre>, AmbiguousGenre>)
        ensures
            ({
                let m = matching_genres(self.genres@, path@, self.genres@.len() as int);
                match r {
                    Ok(None) => m.len() == 0,
                    Ok(Some(g)) => m.len() == 1 && *g == self.genres@[m[0]],
                    Err(e) => m.len() > 1 && e.path@ == path@ && e.matched.deep_view() == m.map_values(
                        |i: int| self.genres@[i].path@,
                    ),
                }
            }),
    {
        let ghost gs = self.genres@;
        let mut found: Vec<usize> = Vec::new();
        let mut i: usize = 0;
        while i < self.genres.len()
            invariant
                i <= self.genres@.len(),
                gs == self.genres@,
                found@.map_values(|k: usize| k as int) == matching_genres(gs, path@, i as int),
                forall|k: int| 0 <= k < found@.len() ==> found@[k] < gs.len(),
            decreases self.genres@.len() - i,
        {
            let ghost prev = found@.map_values(|k: usize| k as int);
            if glob_matches(self.genres[i].path.as_str(), path) {
                found.push(i);
                proof { assert(found@.map_values(|k: usize| k as int) =~= prev + seq![i as int]); }
            } else {
                proof { assert(found@.map_values(|k: usize| k as int) =~= prev + Seq::<int>::empty()); }
            }
            i = i + 1;
        }
        let ghost m = matching_genres(gs, path@, gs.len() as int);
        if found.len() == 0 {
            Ok(None)
        } else if found.len() == 1 {
            Ok(Some(&self.genres[found[0]]))
        } else {
            let mut matched: Vec<String> = Vec::new();
            let mut j: usize = 0;
            while j < found.len()
                invariant
                    j <= found@.len(),
                    gs == self.genres@,
                    found@.map_values(|k: usize| k as int) == m,
                    forall|k: int| 0 <= k < found@.len() ==> found@[k] < gs.len(),
                    matched.deep_view() == m.take(j as int).map_values(|i: int| gs[i].path@),
                decreases found@.len() - j,
            {
                let ghost prev = matched.deep_view();
                matched.push(self.genres[found[j]].path.clone());
                proof {
                    assert(m[j as int] == found@[j as int] as int);
                    assert(matched.deep_view() =~= prev.push(gs[found@[j as int] as int].path@));
                    assert(m.take(j + 1).map_values(|i: int| gs[i].path@) =~= m.take(j as int).map_values(|i: int| gs[i].path@).push(gs[m[j as int]].path@));
                }
                j = j + 1;
            }
            proof { assert(m.take(m.len() as int) =~= m); }
            Err(AmbiguousGenre { path: owned(path), matched })
        }
    }
}

/// The kind named `s`, if any.
pub open spec fn spec_parse_kind(s: Seq<char>) -> Option<Kind> {
    if s == "requirement"@ {
        Some(Kind::Requirement)
    } else if s == "invariant"@ {
        Some(Kind::Invariant)
    } else if s == "constraint"@ {
        Some(Kind::Constraint)
    } else {
        None
    }
}

/// The quadrant named `s`, if any.
pub open spec fn spec_parse_quadrant(s: Seq<char>) -> Option<Quadrant> {
    if s == "tutorial"@ {
        Some(Quadrant::Tutorial)
    } else if s == "how-to"@ {
        Some(Quadrant::HowTo)
    } else if s == "reference"@ {
        Some(Quadrant::Reference)
    } else if s == "explanation"@ {
        Some(Quadrant::Explanation)
    } else {
        None
    }
}

/// Every kind's name reads back as that kind.
pub proof fn lemma_kind_name_round_trip(k: Kind)
    ensures
        spec_parse_kind(k.spec_name()) == Some(k),
{
    reveal_strlit("requirement");
    reveal_strlit("invariant");
    reveal_strlit("constraint");
    assert("invariant"@[0] != "requirement"@[0]);
    assert("constraint"@[0] != "requirement"@[0] && "constraint"@[0] != "invariant"@[0]);
}

/// Every quadrant's name reads back as that quadrant.
pub proof fn lemma_quadrant_name_round_trip(q: Quadrant)
    ensures
        spec_parse_quadrant(q.spec_name()) == Some(q),
{
    reveal_strlit("tutorial");
    reveal_strlit("how-to");
    reveal_strlit("reference");
    reveal_strlit("explanation");
    assert("how-to"@[0] != "tutorial"@[0]);
    assert("reference"@[0] != "tutorial"@[0] && "reference"@[0] != "how-to"@[0]);
    assert("explanation"@[0] != "tutorial"@[0] && "explanation"@[0] != "how-to"@[0] && "explanation"@[0] != "reference"@[0]);
}

/// A claim kind by its configuration name.
pub fn parse_kind(s: &str) -> (r: Option<Kind>)
    ensures
        r == spec_parse_kind(s@),
        match r {
            Some(k) => k.spec_name() == s@,
            None => s@ != "requirement"@ && s@ != "invariant"@ && s@ != "constraint"@,
        },
{
    proof {
        reveal_strlit("requirement");
        reveal_strlit("invariant");
        reveal_strlit("constraint");
    }
    if str_eq(s, "requirement") {
        Some(Kind::Requirement)
    } else if str_eq(s, "invariant") {
        Some(Kind::Invariant)
    } else if str_eq(s, "constraint") {
        Some(Kind::Constraint)
    } else {
        None
    }
}

/// A quadrant by its configuration name.
pub fn parse_quadrant(s: &str) -> (r: Option<Quadrant>)
    ensures
        r == spec_parse_quadrant(s@),
        match r {
            Some(q) => q.spec_name() == s@,
            None => s@ != "tutorial"@ && s@ != "how-to"@ && s@ != "reference"@ && s@ != "explanation"@,
        },
{
    proof {
        reveal_strlit("tutorial");
        reveal_strlit("how-to");
        reveal_strlit("reference");
        reveal_strlit("explanation");
    }
    if str_eq(s, "tutorial") {
        Some(Quadrant::Tutorial)
    } else if str_eq(s, "how-to") {
        Some(Quadrant::HowTo)
    } else if str_eq(s, "reference") {
        Some(Quadrant::Reference)
    } else if str_eq(s, "explanation") {
        Some(Quadrant::Explanation)
    } else {
        None
    }
}

/// What `glob::Pattern::new` reports when `pattern` does not compile,
/// or nothing when it does. A function of the pattern alone.
pub uninterp spec fn glob_pattern_error(pattern: Seq<char>) -> Option<Seq<char>>;

/// Compiles `pattern` with `glob::Pattern::new`; the text of its error,
/// when there is one, is named `glob_pattern_error`.
#[verifier::external_body]
fn pattern_error(pattern: &str) -> (r: Option<String>)
    ensures
        r.deep_view() == glob_pattern_error(pattern@),
{
    glob::Pattern::new(pattern).err().map(|e| e.to_string())
}

/// A genre whose pattern does not compile: the pattern and glob's
/// account of why.
#[derive(Debug, Clone, PartialEq, Eq)]
pub struct InvalidPattern {
    pub pattern: String,
    pub detail: String,
}

/// The first genre from `k` on whose pattern does not compile.
pub open spec fn first_invalid(genres: Seq<Genre>, k: int) -> Option<int>
    decreases genres.len() - k,
{
    if k < 0 || k >= genres.len() {
        None
    } else if glob_pattern_error(genres[k].path@) is Some {
        Some(k)
    } else {
        first_invalid(genres, k + 1)
    }
}

/// The configuration of `genres`, in order, when every pattern compiles;
/// else the first genre whose pattern does not, which the configuration
/// cannot be used with.
pub fn config_of(genres: Vec<Genre>) -> (r: Result<Config, InvalidPattern>)
    ensures
        match first_invalid(genres@, 0) {
            Some(i) => r matches Err(e) && e.pattern@ == genres@[i].path@ && glob_pattern_error(genres@[i].path@) == Some(e.detail@),
            None => r matches Ok(c) && c.genres@ == genres@,
        },
{
    let mut k: usize = 0;
    while k < genres.len()
        invariant
            k <= genres@.len(),
            first_invalid(genres@, 0) == first_invalid(genres@, k as int),
        decreases genres@.len() - k,
    {
        match pattern_error(genres[k].path.as_str()) {
            Some(detail) => {
                return Err(InvalidPattern { pattern: owned(genres[k].path.as_str()), detail });
            },
            None => {},
        }
        k = k + 1;
    }
    Ok(Config { genres })
}

} // verus!
