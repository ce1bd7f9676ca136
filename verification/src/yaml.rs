//! The catalog and category files in YAML, read and written with serde_yaml.

use vstd::prelude::*;
use crate::catalog::{Catalog, names_ascending, pair_views};
use crate::text::texts;

verus! {

/// What `serde_yaml::from_str::<BTreeMap<String, String>>` makes of a text:
/// the entries of the map in its order, or the error's message.
pub uninterp spec fn yaml_catalog(content: Seq<char>) -> Result<Seq<(Seq<char>, Seq<char>)>, Seq<char>>;

/// What `serde_yaml::to_string` makes of the `BTreeMap<String, String>`
/// holding the given entries: the text, or the error's message.
pub uninterp spec fn yaml_of_catalog(entries: Seq<(Seq<char>, Seq<char>)>) -> Result<Seq<char>, Seq<char>>;

/// What `serde_yaml::from_str::<Vec<String>>` makes of a text.
pub uninterp spec fn yaml_list(content: Seq<char>) -> Result<Seq<Seq<char>>, Seq<char>>;

/// What `serde_yaml::to_string` makes of a `Vec<String>`.
pub uninterp spec fn yaml_of_list(items: Seq<Seq<char>>) -> Result<Seq<char>, Seq<char>>;

/// Calls `serde_yaml::from_str` for a `BTreeMap<String, String>` and walks
/// the map. Claims: the outcome is `yaml_catalog` of the text; on success
/// the names come strictly ascending, as `BTreeMap` documents its order
/// (by key; `String`s order by bytes, which for UTF-8 is the order of the
/// characters). What text parses, and to what, is not stated.
#[verifier::external_body]
fn parse_catalog_yaml(content: &str) -> (r: Result<Vec<(String, String)>, String>)
    ensures
        match r {
            Ok(v) => yaml_catalog(content@) == Ok::<Seq<(Seq<char>, Seq<char>)>, Seq<char>>(
                pair_views(v@),
            ) && names_ascending(pair_views(v@)),
            Err(e) => yaml_catalog(content@) == Err::<Seq<(Seq<char>, Seq<char>)>, Seq<char>>(e@),
        },
{
    match serde_yaml::from_str::<std::collections::BTreeMap<String, String>>(content) {
        Ok(m) => Ok(m.into_iter().collect()),
        Err(e) => Err(e.to_string()),
    }
}

/// Calls `serde_yaml::to_string` on the `BTreeMap<String, String>` holding
/// `entries`, whose names ascend strictly, so that the map holds them one for
/// one and in the same order. Claims: the outcome is `yaml_of_catalog` of the
/// entries. The text itself is not stated.
#[verifier::external_body]
fn catalog_yaml(entries: &Vec<(String, String)>) -> (r: Result<String, String>)
    requires
        names_ascending(pair_views(entries@)),
    ensures
        match r {
            Ok(t) => yaml_of_catalog(pair_views(entries@)) == Ok::<Seq<char>, Seq<char>>(t@),
            Err(e) => yaml_of_catalog(pair_views(entries@)) == Err::<Seq<char>, Seq<char>>(e@),
        },
{
    let m: std::collections::BTreeMap<String, String> = entries.iter().cloned().collect();
    serde_yaml::to_string(&m).map_err(|e| e.to_string())
}

/// Calls `serde_yaml::from_str` for a `Vec<String>`. Claims: the outcome is
/// `yaml_list` of the text.
#[verifier::external_body]
fn parse_list_yaml(content: &str) -> (r: Result<Vec<String>, String>)
    ensures
        match r {
            Ok(v) => yaml_list(content@) == Ok::<Seq<Seq<char>>, Seq<char>>(texts(v@)),
            Err(e) => yaml_list(content@) == Err::<Seq<Seq<char>>, Seq<char>>(e@),
        },
{
    serde_yaml::from_str::<Vec<String>>(content).map_err(|e| e.to_string())
}

/// Calls `serde_yaml::to_string` on a `Vec<String>`. Claims: the outcome is
/// `yaml_of_list` of the items.
#[verifier::external_body]
fn list_yaml(items: &Vec<String>) -> (r: Result<String, String>)
    ensures
        match r {
            Ok(t) => yaml_of_list(texts(items@)) == Ok::<Seq<char>, Seq<char>>(t@),
            Err(e) => yaml_of_list(texts(items@)) == Err::<Seq<char>, Seq<char>>(e@),
        },
{
    serde_yaml::to_string(items).map_err(|e| e.to_string())
}

/// The catalog a YAML text holds, or the parser's message.
pub fn parse_catalog(content: &str) -> (r: Result<Catalog, String>)
    ensures
        match r {
            Ok(c) => c.wf() && yaml_catalog(content@) == Ok::<Seq<(Seq<char>, Seq<char>)>, Seq<char>>(
                c.entries(),
            ),
            Err(e) => yaml_catalog(content@) == Err::<Seq<(Seq<char>, Seq<char>)>, Seq<char>>(e@),
        },
{
    match parse_catalog_yaml(content) {
        Ok(v) => Ok(Catalog::from_ascending(v)),
        Err(e) => Err(e),
    }
}

/// The catalog a YAML text holds; an empty one where the text does not parse.
pub fn catalog_from_yaml(content: &str) -> (c: Catalog)
    ensures
        c.wf(),
        match yaml_catalog(content@) {
            Ok(e) => c.entries() == e,
            Err(_) => c.entries().len() == 0,
        },
{
    match parse_catalog(content) {
        Ok(c) => c,
        Err(_) => Catalog::new(),
    }
}

/// The catalog as YAML text, or the serializer's message.
pub fn catalog_to_yaml(c: &Catalog) -> (r: Result<String, String>)
    ensures
        match r {
            Ok(t) => yaml_of_catalog(c.entries()) == Ok::<Seq<char>, Seq<char>>(t@),
            Err(e) => yaml_of_catalog(c.entries()) == Err::<Seq<char>, Seq<char>>(e@),
        },
{
    proof {
        use_type_invariant(c);
    }
    let pairs = c.to_pairs();
    catalog_yaml(&pairs)
}

/// The category list a YAML text holds; an empty list where it does not parse.
pub fn categories_from_yaml(content: &str) -> (r: Vec<String>)
    ensures
        match yaml_list(content@) {
            Ok(l) => texts(r@) == l,
            Err(_) => r@.len() == 0,
        },
{
    match parse_list_yaml(content) {
        Ok(v) => v,
        Err(_) => Vec::new(),
    }
}

/// The category list as YAML text, or the serializer's message.
pub fn categories_to_yaml(items: &Vec<String>) -> (r: Result<String, String>)
    ensures
        match r {
            Ok(t) => yaml_of_list(texts(items@)) == Ok::<Seq<char>, Seq<char>>(t@),
            Err(e) => yaml_of_list(texts(items@)) == Err::<Seq<char>, Seq<char>>(e@),
        },
{
    list_yaml(items)
}

} // verus!
