//! Reading of the paths that the entries of a YAML document give.

use vstd::prelude::*;
use crate::text::{chars_of, string_of, texts};

verus! {

/// `serde_yaml::Value`, a YAML value of any kind. Nothing is known of what
/// is inside one but through the functions below.
#[verifier::external_type_specification]
#[verifier::external_body]
pub struct ExValue(serde_yaml::Value);

/// `serde_yaml::Mapping`, a YAML mapping. Nothing is known of what is
/// inside one but through the functions below.
#[verifier::external_type_specification]
#[verifier::external_body]
pub struct ExMapping(serde_yaml::Mapping);

/// The document that a YAML text stands for, if it stands for one.
pub uninterp spec fn yaml_document(text: Seq<char>) -> Option<serde_yaml::Value>;

/// What a YAML value holds under a key that is a string, if it is a mapping
/// and holds anything there.
pub uninterp spec fn yaml_member(value: serde_yaml::Value, key: Seq<char>) -> Option<
    serde_yaml::Value,
>;

/// The mapping that a YAML value is, if it is one.
pub uninterp spec fn yaml_mapping(value: serde_yaml::Value) -> Option<serde_yaml::Mapping>;

/// The values of a YAML mapping, in the order of its entries.
pub uninterp spec fn yaml_values(mapping: serde_yaml::Mapping) -> Seq<serde_yaml::Value>;

/// The text of a YAML value, if it is a string.
pub uninterp spec fn yaml_text(value: serde_yaml::Value) -> Option<Seq<char>>;

/// `serde_yaml::from_str` at the type `serde_yaml::Value`: the document
/// of the text, or nothing where the text is no YAML. What it returns is a
/// function of the text alone.
#[verifier::external_body]
fn parse_document(text: &str) -> (document: Option<serde_yaml::Value>)
    ensures
        document == yaml_document(text@),
{
    serde_yaml::from_str::<serde_yaml::Value>(text).ok()
}

/// `serde_yaml::Value::get` with a string: what the value holds under the
/// key, a function of the value and the key alone.
#[verifier::external_body]
fn member<'a>(value: &'a serde_yaml::Value, key: &str) -> (found: Option<&'a serde_yaml::Value>)
    ensures
        match found {
            Some(held) => yaml_member(*value, key@) == Some(*held),
            None => yaml_member(*value, key@) is None,
        },
{
    value.get(key)
}

/// `serde_yaml::Value::as_mapping`: the mapping that the value is, if it
/// is one.
#[verifier::external_body]
fn mapping_of<'a>(value: &'a serde_yaml::Value) -> (found: Option<&'a serde_yaml::Mapping>)
    ensures
        match found {
            Some(mapping) => yaml_mapping(*value) == Some(*mapping),
            None => yaml_mapping(*value) is None,
        },
{
    value.as_mapping()
}

/// The values that the references of `v` point to.
pub open spec fn pointed(v: Seq<&serde_yaml::Value>) -> Seq<serde_yaml::Value> {
    Seq::new(v.len(), |i: int| *v[i])
}

/// `serde_yaml::Mapping::values`: the values of the mapping, which it
/// walks in the order in which the entries were put in.
#[verifier::external_body]
fn values_of<'a>(mapping: &'a serde_yaml::Mapping) -> (values: Vec<&'a serde_yaml::Value>)
    ensures
        pointed(values@) == yaml_values(*mapping),
{
    mapping.values().collect()
}

/// `serde_yaml::Value::as_str`: the text of the value, if it is a string.
#[verifier::external_body]
fn text_of<'a>(value: &'a serde_yaml::Value) -> (text: Option<&'a str>)
    ensures
        match text {
            Some(s) => yaml_text(*value) == Some(s@),
            None => yaml_text(*value) is None,
        },
{
    value.as_str()
}

/// The path that a value gives: the text that it holds under `path`, if it
/// holds a string there.
pub open spec fn path_of(value: serde_yaml::Value) -> Option<Seq<char>> {
    match yaml_member(value, "path"@) {
        Some(held) => yaml_text(held),
        None => None,
    }
}

/// The paths that the values give, in their order.
pub open spec fn paths_among(values: Seq<serde_yaml::Value>) -> Seq<Seq<char>>
    decreases values.len(),
{
    if values.len() == 0 {
        Seq::empty()
    } else {
        let rest = paths_among(values.drop_last());
        match path_of(values.last()) {
            Some(path) => rest.push(path),
            None => rest,
        }
    }
}

/// The paths that the entries of one section of a document give: those of
/// the values of the mapping that the document holds under `section`;
/// none where the text is no YAML or holds no mapping there.
pub open spec fn section_paths(text: Seq<char>, section: Seq<char>) -> Seq<Seq<char>> {
    match yaml_document(text) {
        Some(document) => match yaml_member(document, section) {
            Some(held) => match yaml_mapping(held) {
                Some(mapping) => paths_among(yaml_values(mapping)),
                None => Seq::empty(),
            },
            None => Seq::empty(),
        },
        None => Seq::empty(),
    }
}

/// The paths that the values give, in their order.
fn collect_paths(values: &Vec<&serde_yaml::Value>) -> (paths: Vec<String>)
    ensures
        texts(paths@) == paths_among(pointed(values@)),
{
    let ghost all = pointed(values@);
    let mut paths: Vec<String> = Vec::new();
    let mut i: usize = 0;
    assert(all.take(0) =~= Seq::<serde_yaml::Value>::empty());
    assert(texts(paths@) =~= Seq::<Seq<char>>::empty());
    while i < values.len()
        invariant
            i <= values.len(),
            all == pointed(values@),
            texts(paths@) == paths_among(all.take(i as int)),
        decreases values.len() - i,
    {
        proof {
            let next = all.take(i + 1);
            assert(next.drop_last() =~= all.take(i as int));
            assert(next.last() == *values@[i as int]);
        }
        if let Some(held) = member(values[i], "path") {
            if let Some(path) = text_of(held) {
                let ghost before = paths@;
                paths.push(string_of(&chars_of(path)));
                assert(texts(paths@) =~= texts(before).push(path@));
            }
        }
        i += 1;
    }
    assert(all.take(i as int) =~= all);
    paths
}

/// The paths that the entries of one section of a YAML text give.
pub fn path_values(content: &str, section: &str) -> (paths: Vec<String>)
    ensures
        texts(paths@) == section_paths(content@, section@),
{
    let empty: Vec<String> = Vec::new();
    assert(texts(empty@) =~= Seq::<Seq<char>>::empty());
    match parse_document(content) {
        Some(document) => match member(&document, section) {
            Some(held) => match mapping_of(held) {
                Some(mapping) => collect_paths(&values_of(mapping)),
                None => empty,
            },
            None => empty,
        },
        None => empty,
    }
}

} // verus!
