//! The loaded corpus: every scanned document's headings and claims, and
//! every diagnostic extraction raised, gathered document by document.

use vstd::prelude::*;
use crate::config::AmbiguousGenre;
use crate::extract::{
    extract_document, spec_extract_document, DocumentLink, MalformedId, NormativeOccurrence, OrphanClaim,
    UnregisteredDefinition,
};
use crate::gitignore::{backtick_refs, find_backtick_references, IgnoredReference};
use crate::text::segments_from;
use crate::model::{Corpus, Document, DocumentV, HeadingV};
use crate::text::{chars_of, owned, string_of};

verus! {

/// Why a corpus could not be loaded.
#[derive(Debug, Clone, PartialEq, Eq)]
pub enum CorpusError {
    /// A directory could not be listed (its path and the reason).
    Walk { path: String, source: String },
    /// A document could not be read as UTF-8 text.
    Read { path: String, source: String },
    /// A path matched more than one genre.
    AmbiguousGenre(AmbiguousGenre),
}

/// A corpus and everything extraction found in it.
#[derive(Debug, Clone)]
pub struct LoadedCorpus {
    pub corpus: Corpus,
    pub orphan_claims: Vec<OrphanClaim>,
    pub normative_occurrences: Vec<NormativeOccurrence>,
    pub unregistered_definitions: Vec<UnregisteredDefinition>,
    pub malformed_ids: Vec<MalformedId>,
    pub unreachable_references: Vec<IgnoredReference>,
    pub links: Vec<DocumentLink>,
    pub code_references: Vec<DocumentLink>,
}

impl LoadedCorpus {
    /// Nothing loaded yet.
    pub fn new() -> (r: LoadedCorpus)
        ensures
            r.corpus.claims@.len() == 0,
            r.corpus.documents@.len() == 0,
            r.orphan_claims@.len() == 0,
            r.normative_occurrences@.len() == 0,
            r.unregistered_definitions@.len() == 0,
            r.malformed_ids@.len() == 0,
            r.unreachable_references@.len() == 0,
            r.links@.len() == 0,
            r.code_references@.len() == 0,
    {
        LoadedCorpus {
            corpus: Corpus { claims: Vec::new(), documents: Vec::new() },
            orphan_claims: Vec::new(),
            normative_occurrences: Vec::new(),
            unregistered_definitions: Vec::new(),
            malformed_ids: Vec::new(),
            unreachable_references: Vec::new(),
            links: Vec::new(),
            code_references: Vec::new(),
        }
    }
}

/// A document's identifier: its path without the `.md` extension.
pub open spec fn spec_doc_path(relative: Seq<char>) -> Seq<char> {
    if relative.len() >= 3 && relative.skip(relative.len() - 3) == ".md"@ {
        relative.take(relative.len() - 3)
    } else {
        relative
    }
}

pub fn doc_path_of(relative: &str) -> (r: String)
    ensures
        r@ == spec_doc_path(relative@),
{
    let v = chars_of(relative);
    let n = v.len();
    proof { reveal_strlit(".md"); }
    if n >= 3 && v[n - 3] == '.' && v[n - 2] == 'm' && v[n - 1] == 'd' {
        proof { assert(v@.skip(n - 3) =~= ".md"@); assert(v@.subrange(0, n - 3) =~= v@.take(n - 3)); }
        string_of(&v, 0, n - 3)
    } else {
        proof {
            if n >= 3 && v@.skip(n - 3) == ".md"@ {
                assert(v@.skip(n - 3)[0] == '.' && v@.skip(n - 3)[1] == 'm' && v@.skip(n - 3)[2] == 'd');
            }
        }
        owned(relative)
    }
}

/// Add one scanned markdown document: extract it, record the document
/// under its genre, and append its claims and diagnostics.
pub fn add_document(loaded: &mut LoadedCorpus, relative: &str, genre_path: &str, contents: &str)
    ensures
        ({
            let x = spec_extract_document(relative@, contents@);
            &&& final(loaded).corpus@.claims == old(loaded).corpus@.claims + x.claims
            &&& final(loaded).corpus@.documents == old(loaded).corpus@.documents.push(DocumentV {
                doc_path: spec_doc_path(relative@),
                file: relative@,
                genre_path: genre_path@,
                headings: x.headings,
            })
            &&& final(loaded).orphan_claims@.map_values(|o: OrphanClaim| o@) == old(loaded).orphan_claims@.map_values(|o: OrphanClaim| o@) + x.orphan_claims
            &&& final(loaded).normative_occurrences@.map_values(|o: NormativeOccurrence| o@) == old(loaded).normative_occurrences@.map_values(|o: NormativeOccurrence| o@) + x.normative_occurrences
            &&& final(loaded).unregistered_definitions@.map_values(|u: UnregisteredDefinition| u@) == old(loaded).unregistered_definitions@.map_values(|u: UnregisteredDefinition| u@) + x.unregistered_definitions
            &&& final(loaded).malformed_ids@.map_values(|m: MalformedId| m@) == old(loaded).malformed_ids@.map_values(|m: MalformedId| m@) + x.malformed_ids
            &&& final(loaded).links@.map_values(|l: DocumentLink| l@) == old(loaded).links@.map_values(|l: DocumentLink| l@) + x.links
            &&& final(loaded).code_references@.map_values(|l: DocumentLink| l@) == old(loaded).code_references@.map_values(|l: DocumentLink| l@) + x.code_references
            &&& final(loaded).unreachable_references@ == old(loaded).unreachable_references@
        }),
{
    let mut result = extract_document(relative, contents);
    let doc = Document {
        doc_path: doc_path_of(relative),
        file: owned(relative),
        genre_path: owned(genre_path),
        headings: result.headings,
    };
    let ghost o0 = loaded.orphan_claims@;
    let ghost n0 = loaded.normative_occurrences@;
    let ghost u0 = loaded.unregistered_definitions@;
    let ghost m0 = loaded.malformed_ids@;
    let ghost l0 = loaded.links@;
    let ghost c0 = loaded.code_references@;
    let ghost cl0 = loaded.corpus.claims@;
    let ghost x_claims = result.claims@;
    let ghost x_orph = result.orphan_claims@;
    let ghost x_norm = result.normative_occurrences@;
    let ghost x_unreg = result.unregistered_definitions@;
    let ghost x_mal = result.malformed_ids@;
    let ghost x_links = result.links@;
    let ghost x_code = result.code_references@;
    loaded.corpus.documents.push(doc);
    loaded.corpus.claims.append(&mut result.claims);
    loaded.orphan_claims.append(&mut result.orphan_claims);
    loaded.normative_occurrences.append(&mut result.normative_occurrences);
    loaded.unregistered_definitions.append(&mut result.unregistered_definitions);
    loaded.malformed_ids.append(&mut result.malformed_ids);
    loaded.links.append(&mut result.links);
    loaded.code_references.append(&mut result.code_references);
    proof {
        assert(loaded.corpus.claims@.map_values(|c: crate::model::Claim| c@) =~= cl0.map_values(|c: crate::model::Claim| c@) + x_claims.map_values(|c: crate::model::Claim| c@));
        assert(loaded.orphan_claims@.map_values(|o: OrphanClaim| o@) =~= o0.map_values(|o: OrphanClaim| o@) + x_orph.map_values(|o: OrphanClaim| o@));
        assert(loaded.normative_occurrences@.map_values(|o: NormativeOccurrence| o@) =~= n0.map_values(|o: NormativeOccurrence| o@) + x_norm.map_values(|o: NormativeOccurrence| o@));
        assert(loaded.unregistered_definitions@.map_values(|u: UnregisteredDefinition| u@) =~= u0.map_values(|u: UnregisteredDefinition| u@) + x_unreg.map_values(|u: UnregisteredDefinition| u@));
        assert(loaded.malformed_ids@.map_values(|m: MalformedId| m@) =~= m0.map_values(|m: MalformedId| m@) + x_mal.map_values(|m: MalformedId| m@));
        assert(loaded.links@.map_values(|l: DocumentLink| l@) =~= l0.map_values(|l: DocumentLink| l@) + x_links.map_values(|l: DocumentLink| l@));
        assert(loaded.code_references@.map_values(|l: DocumentLink| l@) =~= c0.map_values(|l: DocumentLink| l@) + x_code.map_values(|l: DocumentLink| l@));
        assert(loaded.corpus@.documents =~= old(loaded).corpus@.documents.push(doc@));
    }
}

/// Add a scanned file that is not markdown: only its backtick spans
/// count, as code references.
pub fn add_source_file(loaded: &mut LoadedCorpus, relative: &str, contents: &str)
    ensures
        final(loaded).code_references@.map_values(|l: DocumentLink| l@) == old(loaded).code_references@.map_values(|l: DocumentLink| l@)
            + backtick_refs(relative@, segments_from(contents@, 0), segments_from(contents@, 0).len() as int),
        final(loaded).corpus == old(loaded).corpus,
        final(loaded).links == old(loaded).links,
{
    let mut refs = find_backtick_references(relative, contents);
    let ghost r0 = refs@;
    let ghost c0 = loaded.code_references@;
    loaded.code_references.append(&mut refs);
    proof {
        assert(loaded.code_references@.map_values(|l: DocumentLink| l@) =~= c0.map_values(|l: DocumentLink| l@) + r0.map_values(|l: DocumentLink| l@));
    }
}

} // verus!
