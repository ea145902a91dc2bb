//! A claim block's YAML, read best-effort: serde_norway's parse carried as
//! plain values, variant for variant, and the four fields the rest of the
//! crate reads out of it.

use vstd::prelude::*;
use crate::model::{RawClaimBlock, RawClaimBlockV};
use crate::text::{owned, str_eq};
use serde_norway::Value;

verus! {

#[verifier::external_type_specification]
#[verifier::external_body]
pub struct ExValue(Value);

/// A YAML value, by serde_norway's `Value` variant.
#[derive(Debug)]
pub enum YamlValue {
    Null,
    Bool(bool),
    /// A number, as serde_norway writes it.
    Number(String),
    String(String),
    Sequence(Vec<YamlValue>),
    /// A mapping's entries, in document order; no two keys are equal.
    Mapping(Vec<(YamlValue, YamlValue)>),
    /// A tagged value: the tag, and the value it tags.
    Tagged(String, Box<YamlValue>),
}

pub enum YamlValueV {
    Null,
    Bool(bool),
    Number(Seq<char>),
    String(Seq<char>),
    Sequence(Seq<YamlValueV>),
    Mapping(Seq<(YamlValueV, YamlValueV)>),
    Tagged(Seq<char>, Box<YamlValueV>),
}

/// The plain view of a value.
pub open spec fn value_view(v: YamlValue) -> YamlValueV
    decreases v,
{
    match v {
        YamlValue::Null => YamlValueV::Null,
        YamlValue::Bool(b) => YamlValueV::Bool(b),
        YamlValue::Number(n) => YamlValueV::Number(n@),
        YamlValue::String(s) => YamlValueV::String(s@),
        YamlValue::Sequence(items) => YamlValueV::Sequence(values_view(items@)),
        YamlValue::Mapping(entries) => YamlValueV::Mapping(entries_view(entries@)),
        YamlValue::Tagged(tag, inner) => YamlValueV::Tagged(tag@, Box::new(value_view(*inner))),
    }
}

pub open spec fn values_view(s: Seq<YamlValue>) -> Seq<YamlValueV>
    decreases s,
{
    if s.len() == 0 {
        Seq::empty()
    } else {
        values_view(s.drop_last()).push(value_view(s.last()))
    }
}

pub open spec fn entries_view(s: Seq<(YamlValue, YamlValue)>) -> Seq<(YamlValueV, YamlValueV)>
    decreases s,
{
    if s.len() == 0 {
        Seq::empty()
    } else {
        entries_view(s.drop_last()).push((value_view(s.last().0), value_view(s.last().1)))
    }
}

proof fn lemma_values_view(s: Seq<YamlValue>)
    ensures
        values_view(s).len() == s.len(),
        forall|k: int| 0 <= k < s.len() ==> #[trigger] values_view(s)[k] == value_view(s[k]),
    decreases s.len(),
{
    if s.len() > 0 {
        lemma_values_view(s.drop_last());
        assert forall|k: int| 0 <= k < s.len() implies #[trigger] values_view(s)[k] == value_view(s[k]) by {
            if k < s.len() - 1 {
                assert(s.drop_last()[k] == s[k]);
            }
        }
    }
}

proof fn lemma_entries_view(s: Seq<(YamlValue, YamlValue)>)
    ensures
        entries_view(s) == s.map_values(|e: (YamlValue, YamlValue)| (value_view(e.0), value_view(e.1))),
    decreases s.len(),
{
    if s.len() > 0 {
        lemma_entries_view(s.drop_last());
        assert(entries_view(s) =~= s.map_values(|e: (YamlValue, YamlValue)| (value_view(e.0), value_view(e.1))));
    } else {
        assert(entries_view(s) =~= s.map_values(|e: (YamlValue, YamlValue)| (value_view(e.0), value_view(e.1))));
    }
}

impl View for YamlValue {
    type V = YamlValueV;

    open spec fn view(&self) -> YamlValueV {
        value_view(*self)
    }
}

/// What `serde_norway::from_str::<Value>` parses `yaml` to, or nothing
/// when it reports an error: a function of the text alone.
pub uninterp spec fn yaml_value(yaml: Seq<char>) -> Option<YamlValueV>;

/// Parses `yaml` with `serde_norway::from_str::<Value>` and converts the
/// value; the result is named `yaml_value`, and nothing more is claimed
/// of it.
#[verifier::external_body]
fn parse_yaml(yaml: &str) -> (r: Option<YamlValue>)
    ensures
        match r {
            Some(v) => yaml_value(yaml@) == Some(v@),
            None => yaml_value(yaml@) is None,
        },
{
    serde_norway::from_str::<Value>(yaml).ok().map(|v| value_of(&v))
}

/// Converts a `serde_norway::Value`, one arm per variant.
#[verifier::external_body]
fn value_of(v: &Value) -> YamlValue {
    match v {
        Value::Null => YamlValue::Null,
        Value::Bool(b) => YamlValue::Bool(*b),
        Value::Number(n) => YamlValue::Number(n.to_string()),
        Value::String(s) => YamlValue::String(s.clone()),
        Value::Sequence(items) => YamlValue::Sequence(items.iter().map(value_of).collect()),
        Value::Mapping(m) => YamlValue::Mapping(m.iter().map(|(k, v)| (value_of(k), value_of(v))).collect()),
        Value::Tagged(t) => YamlValue::Tagged(t.tag.to_string(), Box::new(value_of(&t.value))),
    }
}

/// The value with its tags looked through (serde_norway's `untag_ref`).
pub open spec fn untag(v: YamlValueV) -> YamlValueV
    decreases v,
{
    match v {
        YamlValueV::Tagged(_, inner) => untag(*inner),
        _ => v,
    }
}

/// `Value::as_str`: the string under any tags.
pub open spec fn as_str(v: YamlValueV) -> Option<Seq<char>> {
    match untag(v) {
        YamlValueV::String(s) => Some(s),
        _ => None,
    }
}

/// `Value::as_sequence`: the items of the sequence under any tags.
pub open spec fn as_sequence(v: YamlValueV) -> Option<Seq<YamlValueV>> {
    match untag(v) {
        YamlValueV::Sequence(items) => Some(items),
        _ => None,
    }
}

/// `Value::as_mapping`: the entries of the mapping under any tags.
pub open spec fn as_mapping(v: YamlValueV) -> Option<Seq<(YamlValueV, YamlValueV)>> {
    match untag(v) {
        YamlValueV::Mapping(entries) => Some(entries),
        _ => None,
    }
}

/// `Mapping::get(name)`: the value of the first entry from `i` on whose
/// key is the plain (untagged) string `name`.
pub open spec fn get_field(m: Seq<(YamlValueV, YamlValueV)>, name: Seq<char>, i: int) -> Option<YamlValueV>
    decreases m.len() - i,
{
    if i < 0 || i >= m.len() {
        None
    } else if m[i].0 == YamlValueV::String(name) {
        Some(m[i].1)
    } else {
        get_field(m, name, i + 1)
    }
}

/// The top-level mapping's value under `name`, if the text parses to a
/// mapping that has one.
pub open spec fn field_value(yaml: Seq<char>, name: Seq<char>) -> Option<YamlValueV> {
    match yaml_value(yaml) {
        Some(v) => match as_mapping(v) {
            Some(m) => get_field(m, name, 0),
            None => None,
        },
        None => None,
    }
}

/// A string field of the block.
pub open spec fn spec_str_field(yaml: Seq<char>, name: Seq<char>) -> Option<Seq<char>> {
    match field_value(yaml, name) {
        Some(v) => as_str(v),
        None => None,
    }
}

/// The string items among the first `n` of `items`, in order.
pub open spec fn string_items(items: Seq<YamlValueV>, n: int) -> Seq<Seq<char>>
    decreases n,
{
    if n <= 0 {
        Seq::empty()
    } else {
        string_items(items, n - 1) + match as_str(items[n - 1]) {
            Some(s) => seq![s],
            None => Seq::empty(),
        }
    }
}

/// A string-array field of the block: its string items, or nothing when
/// the field is missing or not a sequence.
pub open spec fn spec_str_array_field(yaml: Seq<char>, name: Seq<char>) -> Seq<Seq<char>> {
    match field_value(yaml, name) {
        Some(v) => match as_sequence(v) {
            Some(items) => string_items(items, items.len() as int),
            None => Seq::empty(),
        },
        None => Seq::empty(),
    }
}

/// What [`parse_raw_claim_block`] reads out of `yaml`.
pub open spec fn spec_raw_claim_block(yaml: Seq<char>) -> RawClaimBlockV {
    RawClaimBlockV {
        yaml,
        kind: spec_str_field(yaml, "kind"@),
        evaluator: spec_str_field(yaml, "evaluator"@),
        depends: spec_str_array_field(yaml, "depends"@),
        because: spec_str_array_field(yaml, "because"@),
    }
}

/// The value with its tags looked through.
fn untagged(v: &YamlValue) -> (r: &YamlValue)
    ensures
        r@ == untag(v@),
    decreases v,
{
    match v {
        YamlValue::Tagged(_, inner) => untagged(inner),
        _ => v,
    }
}

/// The entries of the value's mapping, if it is one.
fn mapping_of(v: &YamlValue) -> (r: Option<&Vec<(YamlValue, YamlValue)>>)
    ensures
        match r {
            Some(m) => as_mapping(v@) == Some(m@.map_values(|e: (YamlValue, YamlValue)| (e.0@, e.1@))),
            None => as_mapping(v@) is None,
        },
{
    match untagged(v) {
        YamlValue::Mapping(m) => {
            proof {
                lemma_entries_view(m@);
                assert(m@.map_values(|e: (YamlValue, YamlValue)| (e.0@, e.1@)) =~= untag(v@)->Mapping_0);
            }
            Some(m)
        },
        _ => None,
    }
}

/// The string under the value's tags, if it is one.
fn str_of(v: &YamlValue) -> (r: Option<String>)
    ensures
        r.deep_view() == as_str(v@),
{
    match untagged(v) {
        YamlValue::String(s) => Some(owned(s.as_str())),
        _ => None,
    }
}

/// The value under the plain string key `name`.
fn find_field<'a>(m: &'a Vec<(YamlValue, YamlValue)>, name: &str) -> (r: Option<&'a YamlValue>)
    ensures
        match r {
            Some(f) => get_field(m@.map_values(|e: (YamlValue, YamlValue)| (e.0@, e.1@)), name@, 0) == Some(f@),
            None => get_field(m@.map_values(|e: (YamlValue, YamlValue)| (e.0@, e.1@)), name@, 0) is None,
        },
{
    let ghost mv = m@.map_values(|e: (YamlValue, YamlValue)| (e.0@, e.1@));
    let mut i: usize = 0;
    while i < m.len()
        invariant
            i <= m@.len(),
            mv == m@.map_values(|e: (YamlValue, YamlValue)| (e.0@, e.1@)),
            get_field(mv, name@, 0) == get_field(mv, name@, i as int),
        decreases m@.len() - i,
    {
        assert(mv[i as int] == (m@[i as int].0@, m@[i as int].1@));
        let hit = match &m[i].0 {
            YamlValue::String(k) => str_eq(k.as_str(), name),
            _ => false,
        };
        if hit {
            return Some(&m[i].1);
        }
        i = i + 1;
    }
    None
}

fn str_array(v: &YamlValue) -> (r: Vec<String>)
    ensures
        r.deep_view() == match as_sequence(v@) {
            Some(items) => string_items(items, items.len() as int),
            None => Seq::empty(),
        },
{
    let mut out: Vec<String> = Vec::new();
    match untagged(v) {
        YamlValue::Sequence(items) => {
            let ghost iv = untag(v@)->Sequence_0;
            proof { lemma_values_view(items@); }
            assert(iv.len() == items@.len());
            let mut i: usize = 0;
            while i < items.len()
                invariant
                    i <= items@.len(),
                    iv.len() == items@.len(),
                    forall|k: int| 0 <= k < items@.len() ==> iv[k] == #[trigger] items@[k]@,
                    out.deep_view() == string_items(iv, i as int),
                decreases items@.len() - i,
            {
                let ghost prev = out.deep_view();
                assert(iv[i as int] == items@[i as int]@);
                match str_of(&items[i]) {
                    Some(s) => {
                        out.push(s);
                        proof { assert(out.deep_view() =~= prev.push(s@)); }
                    },
                    None => {},
                }
                i = i + 1;
            }
            out
        },
        _ => out,
    }
}

/// A claim block's YAML, verbatim, with `kind`, `evaluator`, `depends`
/// and `because` read out of its top-level mapping where they have the
/// expected shape. A block that does not parse, or parses to something
/// other than a mapping, has none of them; a sequence item that is not a
/// string is skipped.
pub fn parse_raw_claim_block(yaml: &str) -> (r: RawClaimBlock)
    ensures
        r@ == spec_raw_claim_block(yaml@),
{
    proof {
        reveal_strlit("kind");
        reveal_strlit("evaluator");
        reveal_strlit("depends");
        reveal_strlit("because");
    }
    let parsed = parse_yaml(yaml);
    let (kind, evaluator, depends, because) = match &parsed {
        Some(v) => match mapping_of(v) {
            Some(m) => {
                let kind = match find_field(m, "kind") {
                    Some(f) => str_of(f),
                    None => None,
                };
                let evaluator = match find_field(m, "evaluator") {
                    Some(f) => str_of(f),
                    None => None,
                };
                let depends = match find_field(m, "depends") {
                    Some(f) => str_array(f),
                    None => Vec::new(),
                };
                let because = match find_field(m, "because") {
                    Some(f) => str_array(f),
                    None => Vec::new(),
                };
                (kind, evaluator, depends, because)
            },
            None => (None, None, Vec::new(), Vec::new()),
        },
        None => (None, None, Vec::new(), Vec::new()),
    };
    let r = RawClaimBlock { yaml: owned(yaml), kind, evaluator, depends, because };
    proof {
        assert(r@.depends =~= spec_raw_claim_block(yaml@).depends);
        assert(r@.because =~= spec_raw_claim_block(yaml@).because);
    }
    r
}

} // verus!
