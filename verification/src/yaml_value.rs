//! YAML documents as values: what serde_yaml parses a text into, and the
//! lookups that settings migration makes in it.

use vstd::prelude::*;
use crate::config::{RootShape, SettingsDoc, MigrationPlan, cat_visible_view, migration, plan_is, plan_migration};
use crate::text::same_text;

verus! {

/// `serde_yaml::Value`, declared so that `yaml_of` can take one.
#[verifier::external_type_specification]
#[verifier::external_body]
pub struct ExYamlValue(serde_yaml::Value);

/// A YAML value, one for one with `serde_yaml::Value`.
pub enum Yaml {
    /// `~`, `null` or nothing.
    Null,
    /// `true` or `false`.
    Bool(bool),
    /// A number, as serde_yaml prints it.
    Number(String),
    /// A string.
    Str(String),
    /// A sequence.
    Sequence(Vec<Yaml>),
    /// A mapping: its entries in document order.
    Mapping(Vec<(Yaml, Yaml)>),
    /// A value with a tag (as serde_yaml prints the tag).
    Tagged(String, Box<Yaml>),
}

/// The mathematical view of a YAML value.
pub enum YamlView {
    Null,
    Bool(bool),
    Number(Seq<char>),
    Str(Seq<char>),
    Sequence(Seq<YamlView>),
    Mapping(Seq<(YamlView, YamlView)>),
    Tagged(Seq<char>, Box<YamlView>),
}

/// The view of a YAML value.
pub open spec fn yaml_view(y: Yaml) -> YamlView
    decreases y,
{
    match y {
        Yaml::Null => YamlView::Null,
        Yaml::Bool(b) => YamlView::Bool(b),
        Yaml::Number(n) => YamlView::Number(n@),
        Yaml::Str(s) => YamlView::Str(s@),
        Yaml::Sequence(v) => YamlView::Sequence(yaml_views(v@)),
        Yaml::Mapping(v) => YamlView::Mapping(entry_views(v@)),
        Yaml::Tagged(t, b) => YamlView::Tagged(t@, Box::new(yaml_view(*b))),
    }
}

/// The views of a sequence of YAML values.
pub open spec fn yaml_views(s: Seq<Yaml>) -> Seq<YamlView>
    decreases s,
{
    if s.len() == 0 {
        Seq::empty()
    } else {
        yaml_views(s.subrange(0, s.len() - 1)).push(yaml_view(s[s.len() - 1]))
    }
}

/// The views of the entries of a mapping.
pub open spec fn entry_views(s: Seq<(Yaml, Yaml)>) -> Seq<(YamlView, YamlView)>
    decreases s,
{
    if s.len() == 0 {
        Seq::empty()
    } else {
        entry_views(s.subrange(0, s.len() - 1)).push(
            (yaml_view(s[s.len() - 1].0), yaml_view(s[s.len() - 1].1)),
        )
    }
}

impl View for Yaml {
    type V = YamlView;

    open spec fn view(&self) -> YamlView {
        yaml_view(*self)
    }
}

/// A sequence of views is as long as the sequence, item by item.
pub proof fn lemma_yaml_views(s: Seq<Yaml>)
    ensures
        yaml_views(s).len() == s.len(),
        forall|i: int| 0 <= i < s.len() ==> #[trigger] yaml_views(s)[i] == yaml_view(s[i]),
    decreases s.len(),
{
    if s.len() > 0 {
        let t = s.subrange(0, s.len() - 1);
        lemma_yaml_views(t);
        assert forall|i: int| 0 <= i < s.len() implies #[trigger] yaml_views(s)[i] == yaml_view(s[i]) by {
            if i < s.len() - 1 {
                assert(t[i] == s[i]);
            }
        }
    }
}

/// The views of entries are as many as the entries, entry by entry.
pub proof fn lemma_entry_views(s: Seq<(Yaml, Yaml)>)
    ensures
        entry_views(s).len() == s.len(),
        forall|i: int| 0 <= i < s.len() ==> #[trigger] entry_views(s)[i] == (yaml_view(s[i].0), yaml_view(s[i].1)),
    decreases s.len(),
{
    if s.len() > 0 {
        let t = s.subrange(0, s.len() - 1);
        lemma_entry_views(t);
        assert forall|i: int| 0 <= i < s.len() implies #[trigger] entry_views(s)[i] == (yaml_view(s[i].0), yaml_view(s[i].1)) by {
            if i < s.len() - 1 {
                assert(t[i] == s[i]);
            }
        }
    }
}

/// What `serde_yaml::from_str::<serde_yaml::Value>` makes of a text: the
/// value, or nothing where the text does not parse.
pub uninterp spec fn yaml_value(content: Seq<char>) -> Option<YamlView>;

/// Converts a `serde_yaml::Value` one for one into a `Yaml`: each variant
/// into the variant of the same name, a number and a tag into the text that
/// their `Display` prints, the entries of a mapping in their order. It is
/// the conversion inside `parse_yaml`, whose contract covers it; it claims
/// nothing of its own.
#[verifier::external_body]
fn yaml_of(v: &serde_yaml::Value) -> (y: Yaml) {
    match v {
        serde_yaml::Value::Null => Yaml::Null,
        serde_yaml::Value::Bool(b) => Yaml::Bool(*b),
        serde_yaml::Value::Number(n) => Yaml::Number(n.to_string()),
        serde_yaml::Value::String(s) => Yaml::Str(s.clone()),
        serde_yaml::Value::Sequence(items) => Yaml::Sequence(items.iter().map(yaml_of).collect()),
        serde_yaml::Value::Mapping(m) => Yaml::Mapping(m.iter().map(|(k, x)| (yaml_of(k), yaml_of(x))).collect()),
        serde_yaml::Value::Tagged(t) => Yaml::Tagged(t.tag.to_string(), Box::new(yaml_of(&t.value))),
    }
}

/// Calls `serde_yaml::from_str::<serde_yaml::Value>` and converts the value
/// with `yaml_of`. Claims: the outcome is `yaml_value` of the text (nothing
/// where the parser fails). What text parses, and to what, is not stated.
#[verifier::external_body]
fn parse_yaml(content: &str) -> (r: Option<Yaml>)
    ensures
        match r {
            Some(y) => yaml_value(content@) == Some(y@),
            None => yaml_value(content@) is None,
        },
{
    match serde_yaml::from_str::<serde_yaml::Value>(content) {
        Ok(v) => Some(yaml_of(&v)),
        Err(_) => None,
    }
}

/// A value with its tags taken off.
pub open spec fn untagged(v: YamlView) -> YamlView
    decreases v,
{
    match v {
        YamlView::Tagged(_, b) => untagged(*b),
        _ => v,
    }
}

/// The value of the first entry whose key is the string `key` (a mapping
/// holds each key once).
pub open spec fn entry_for(ps: Seq<(YamlView, YamlView)>, key: Seq<char>) -> Option<YamlView>
    decreases ps.len(),
{
    if ps.len() == 0 {
        None
    } else if ps[0].0 == YamlView::Str(key) {
        Some(ps[0].1)
    } else {
        entry_for(ps.drop_first(), key)
    }
}

/// What `Value::get` with a string key gives: in a mapping (tagged or not),
/// the value under that key.
pub open spec fn value_at(v: YamlView, key: Seq<char>) -> Option<YamlView> {
    match untagged(v) {
        YamlView::Mapping(ps) => entry_for(ps, key),
        _ => None,
    }
}

/// What `Value::as_mapping` gives: the entries of a mapping, tagged or not.
pub open spec fn entries_of(v: YamlView) -> Option<Seq<(YamlView, YamlView)>> {
    match untagged(v) {
        YamlView::Mapping(ps) => Some(ps),
        _ => None,
    }
}

/// What `Value::as_str` gives: the text of a string, tagged or not.
pub open spec fn text_of(v: YamlView) -> Option<Seq<char>> {
    match untagged(v) {
        YamlView::Str(s) => Some(s),
        _ => None,
    }
}

/// What `Value::as_bool` gives: the value of a boolean, tagged or not.
pub open spec fn flag_of(v: YamlView) -> Option<bool> {
    match untagged(v) {
        YamlView::Bool(b) => Some(b),
        _ => None,
    }
}

/// The shape of a document's root: `Null` only for an untagged null, which
/// takes a new entry; `Mapping` for a mapping, tagged or not; anything else
/// takes no entry.
pub open spec fn root_shape(v: YamlView) -> RootShape {
    if v == YamlView::Null {
        RootShape::Null
    } else if untagged(v) is Mapping {
        RootShape::Mapping
    } else {
        RootShape::Other
    }
}

/// What settings migration reads of a document: the shape of its root, its
/// `cat_visible` entry (the entries, key as text and value as bool where
/// they are such, when it is a mapping), and whether it has a
/// `visible_categories` entry.
pub open spec fn settings_read(v: YamlView) -> (RootShape, Option<Option<Seq<(Option<Seq<char>>, Option<bool>)>>>, bool) {
    (
        root_shape(v),
        match value_at(v, "cat_visible"@) {
            Some(o) => Some(
                match entries_of(o) {
                    Some(ps) => Some(ps.map_values(|p: (YamlView, YamlView)| (text_of(p.0), flag_of(p.1)))),
                    None => None,
                },
            ),
            None => None,
        },
        value_at(v, "visible_categories"@) is Some,
    )
}

/// The document of `config.yaml` with text `content`: what it parses to, and
/// the empty document where it does not parse.
pub open spec fn settings_root(content: Seq<char>) -> YamlView {
    match yaml_value(content) {
        Some(v) => v,
        None => YamlView::Null,
    }
}

/// A value with its tags taken off.
fn untag(y: &Yaml) -> (r: &Yaml)
    ensures
        r@ == untagged(y@),
    decreases y,
{
    match y {
        Yaml::Tagged(_, b) => untag(b),
        _ => y,
    }
}

/// The value under the string key `key`, if `y` is a mapping that has one.
fn lookup<'a>(y: &'a Yaml, key: &str) -> (r: Option<&'a Yaml>)
    ensures
        match r {
            Some(v) => value_at(y@, key@) == Some(v@),
            None => value_at(y@, key@) is None,
        },
{
    let u = untag(y);
    match u {
        Yaml::Mapping(ps) => {
            let ghost pv = entry_views(ps@);
            proof {
                lemma_entry_views(ps@);
                assert(pv.skip(0) =~= pv);
                assert(untagged(y@) == YamlView::Mapping(pv));
            }
            let mut i: usize = 0;
            while i < ps.len()
                invariant
                    i <= ps@.len(),
                    pv == entry_views(ps@),
                    untagged(y@) == YamlView::Mapping(pv),
                    pv.len() == ps@.len(),
                    forall|j: int| 0 <= j < ps@.len() ==> #[trigger] pv[j] == (yaml_view(ps@[j].0), yaml_view(ps@[j].1)),
                    entry_for(pv, key@) == entry_for(pv.skip(i as int), key@),
                decreases ps.len() - i,
            {
                let is_key = match &ps[i].0 {
                    Yaml::Str(s) => same_text(s.as_str(), key),
                    _ => false,
                };
                assert(pv[i as int] == (yaml_view(ps@[i as int].0), yaml_view(ps@[i as int].1)));
                assert(pv.skip(i as int)[0] == pv[i as int]);
                assert(pv.skip(i as int).len() > 0);
                assert(is_key <==> pv[i as int].0 == YamlView::Str(key@));
                if is_key {
                    assert(entry_for(pv.skip(i as int), key@) == Some(pv[i as int].1));
                    assert(value_at(y@, key@) == entry_for(pv, key@));
                    return Some(&ps[i].1);
                }
                assert(pv.skip(i as int).drop_first() =~= pv.skip(i + 1));
                i = i + 1;
            }
            None
        },
        _ => None,
    }
}

/// The text of a string, tagged or not.
fn text_in(y: &Yaml) -> (r: Option<String>)
    ensures
        match r {
            Some(t) => text_of(y@) == Some(t@),
            None => text_of(y@) is None,
        },
{
    match untag(y) {
        Yaml::Str(s) => Some(s.clone()),
        _ => None,
    }
}

/// The value of a boolean, tagged or not.
fn flag_in(y: &Yaml) -> (r: Option<bool>)
    ensures
        r == flag_of(y@),
{
    match untag(y) {
        Yaml::Bool(b) => Some(*b),
        _ => None,
    }
}

/// The entries of the old `cat_visible` mapping: key as text and value as
/// bool, where they are such.
fn flag_entries(ps: &Vec<(Yaml, Yaml)>) -> (r: Vec<(Option<String>, Option<bool>)>)
    ensures
        crate::config::flag_entries_view(r@) == entry_views(ps@).map_values(
            |p: (YamlView, YamlView)| (text_of(p.0), flag_of(p.1)),
        ),
{
    proof {
        lemma_entry_views(ps@);
    }
    let ghost want = entry_views(ps@).map_values(|p: (YamlView, YamlView)| (text_of(p.0), flag_of(p.1)));
    let mut r: Vec<(Option<String>, Option<bool>)> = Vec::new();
    let mut i: usize = 0;
    while i < ps.len()
        invariant
            i <= ps@.len(),
            want == entry_views(ps@).map_values(|p: (YamlView, YamlView)| (text_of(p.0), flag_of(p.1))),
            entry_views(ps@).len() == ps@.len(),
            forall|j: int| 0 <= j < ps@.len() ==> #[trigger] entry_views(ps@)[j] == (yaml_view(ps@[j].0), yaml_view(ps@[j].1)),
            r@.len() == i,
            forall|j: int| 0 <= j < i ==> #[trigger] crate::config::flag_entries_view(r@)[j] == want[j],
        decreases ps.len() - i,
    {
        let k = text_in(&ps[i].0);
        let f = flag_in(&ps[i].1);
        let ghost before = r@;
        r.push((k, f));
        proof {
            assert(entry_views(ps@)[i as int] == (yaml_view(ps@[i as int].0), yaml_view(ps@[i as int].1)));
            assert forall|j: int| 0 <= j < i + 1 implies #[trigger] crate::config::flag_entries_view(r@)[j] == want[j] by {
                if j < i {
                    assert(r@[j] == before[j]);
                    assert(crate::config::flag_entries_view(before)[j] == want[j]);
                }
            }
        }
        i = i + 1;
    }
    assert(crate::config::flag_entries_view(r@) =~= want);
    r
}

/// What settings migration reads of a document.
pub fn settings_doc_of(root: &Yaml) -> (d: SettingsDoc)
    ensures
        (d.shape, cat_visible_view(d.cat_visible), d.has_visible_categories) == settings_read(root@),
{
    let shape = match root {
        Yaml::Null => RootShape::Null,
        _ => match untag(root) {
            Yaml::Mapping(_) => RootShape::Mapping,
            _ => RootShape::Other,
        },
    };
    let cat_visible = match lookup(root, "cat_visible") {
        Some(o) => Some(
            match untag(o) {
                Yaml::Mapping(ps) => Some(flag_entries(ps)),
                _ => None,
            },
        ),
        None => None,
    };
    let has_visible_categories = lookup(root, "visible_categories").is_some();
    SettingsDoc { shape, cat_visible, has_visible_categories }
}

/// The migration that `config.yaml`, with text `content`, calls for: text
/// that does not parse counts as the empty document; `None` where the root
/// is neither empty nor a mapping, so that it cannot take a
/// `visible_categories` entry.
pub fn settings_migration(content: &str) -> (r: Option<MigrationPlan>)
    ensures
        r is None <==> settings_read(settings_root(content@)).0 == RootShape::Other,
        r matches Some(p) ==> plan_is(
            p,
            migration(settings_read(settings_root(content@)).1, settings_read(settings_root(content@)).2),
        ),
{
    let root = match parse_yaml(content) {
        Some(y) => y,
        None => Yaml::Null,
    };
    let doc = settings_doc_of(&root);
    if doc.shape == RootShape::Other {
        None
    } else {
        Some(plan_migration(&doc))
    }
}

} // verus!
