//! Settings: where each operation files projects, which categories the tree
//! shows, and where projects live.

use vstd::prelude::*;
use crate::text::{contains_text, texts, join_texts, join_seq};

verus! {

/// The settings read from `config.yaml`.
pub struct Config {
    /// Category that `rm` moves projects to.
    pub rm_to: String,
    /// Default category for `init`.
    pub init_to: String,
    /// Default category for `clone`.
    pub clone_to: String,
    /// Category of directories that `sync` finds newly.
    pub sync_new_to: String,
    /// Category of projects whose directory `sync` no longer finds.
    pub sync_missing_to: String,
    /// Categories the tree shows by default; empty shows all.
    pub visible_categories: Vec<String>,
    /// Whether the shell function opens the fuzzy picker.
    pub use_fzf: bool,
    /// Whether to skip git when creating and cloning projects.
    pub no_git: bool,
    /// Where projects live on disk.
    pub project_dir: String,
}

/// The categories shown by default.
pub open spec fn default_visible_names() -> Seq<Seq<char>> {
    seq!["develop"@, "stable"@, "uncategorized"@]
}

/// The categories registered on first run.
pub open spec fn default_category_names() -> Seq<Seq<char>> {
    seq!["develop"@, "stable"@, "uncategorized"@, "dormant"@, "archived"@, "removed"@]
}

/// The default project root.
pub fn default_project_dir() -> (r: String)
    ensures
        r@ == "~/Project"@,
{
    "~/Project".to_owned()
}

/// The categories shown by default.
pub fn default_visible_categories() -> (r: Vec<String>)
    ensures
        texts(r@) == default_visible_names(),
{
    let r = vec!["develop".to_owned(), "stable".to_owned(), "uncategorized".to_owned()];
    assert(texts(r@) =~= default_visible_names());
    r
}

/// The categories registered on first run.
pub fn default_categories() -> (r: Vec<String>)
    ensures
        texts(r@) == default_category_names(),
{
    let r = vec![
        "develop".to_owned(),
        "stable".to_owned(),
        "uncategorized".to_owned(),
        "dormant".to_owned(),
        "archived".to_owned(),
        "removed".to_owned(),
    ];
    assert(texts(r@) =~= default_category_names());
    r
}

/// The settings written on first run.
pub open spec fn is_default_config(c: Config) -> bool {
    &&& c.rm_to@ == "removed"@
    &&& c.init_to@ == "develop"@
    &&& c.clone_to@ == "uncategorized"@
    &&& c.sync_new_to@ == "uncategorized"@
    &&& c.sync_missing_to@ == "removed"@
    &&& texts(c.visible_categories@) == default_visible_names()
    &&& !c.use_fzf
    &&& !c.no_git
    &&& c.project_dir@ == "~/Project"@
}

impl Default for Config {
    fn default() -> (c: Self)
        ensures
            is_default_config(c),
    {
        Config {
            rm_to: "removed".to_owned(),
            init_to: "develop".to_owned(),
            clone_to: "uncategorized".to_owned(),
            sync_new_to: "uncategorized".to_owned(),
            sync_missing_to: "removed".to_owned(),
            visible_categories: default_visible_categories(),
            use_fzf: false,
            no_git: false,
            project_dir: default_project_dir(),
        }
    }
}

/// `cat` is shown by a tree filtered by `visible`: an empty list shows all.
pub open spec fn visible_in(visible: Seq<Seq<char>>, cat: Seq<char>) -> bool {
    visible.len() == 0 || visible.contains(cat)
}

impl Config {
    /// Does the default tree show category `cat`?
    pub fn is_category_visible(&self, cat: &str) -> (r: bool)
        ensures
            r == visible_in(texts(self.visible_categories@), cat@),
    {
        let r = self.visible_categories.len() == 0 || contains_text(&self.visible_categories, cat);
        proof {
            let v = texts(self.visible_categories@);
            if r && v.len() > 0 {
                let i = choose|i: int|
                    0 <= i < self.visible_categories@.len() && #[trigger] self.visible_categories@[i]@
                        == cat@;
                assert(v[i] == cat@);
            }
            if v.contains(cat@) {
                let i = choose|i: int| 0 <= i < v.len() && v[i] == cat@;
                assert(self.visible_categories@[i]@ == cat@);
            }
        }
        r
    }
}

/// An empty visibility list shows every category; otherwise exactly the
/// listed ones are shown.
pub proof fn lemma_visibility(visible: Seq<Seq<char>>, cat: Seq<char>)
    ensures
        visible.len() == 0 ==> visible_in(visible, cat),
        visible.len() > 0 ==> (visible_in(visible, cat) <==> visible.contains(cat)),
{
}

/// The categories that the default settings route projects to are all
/// registered on first run.
pub proof fn lemma_default_routes_registered(c: Config)
    requires
        is_default_config(c),
    ensures
        default_category_names().contains(c.rm_to@),
        default_category_names().contains(c.init_to@),
        default_category_names().contains(c.clone_to@),
        default_category_names().contains(c.sync_new_to@),
        default_category_names().contains(c.sync_missing_to@),
        forall|i: int|
            0 <= i < c.visible_categories@.len() ==> default_category_names().contains(
                #[trigger] c.visible_categories@[i]@,
            ),
{
    assert(default_category_names()[5] == c.rm_to@);
    assert(default_category_names()[0] == c.init_to@);
    assert(default_category_names()[2] == c.clone_to@);
    assert forall|i: int| 0 <= i < c.visible_categories@.len() implies default_category_names().contains(
        #[trigger] c.visible_categories@[i]@,
    ) by {
        assert(texts(c.visible_categories@).len() == 3);
        assert(texts(c.visible_categories@)[i] == c.visible_categories@[i]@);
        assert(default_visible_names()[i] == default_category_names()[i]);
        assert(default_category_names()[i] == c.visible_categories@[i]@);
    }
}

/// The text `Display` gives a `bool`.
pub open spec fn bool_word(b: bool) -> Seq<char> {
    if b {
        "true"@
    } else {
        "false"@
    }
}

/// The text `Display` gives a `bool`.
pub fn bool_text(b: bool) -> (r: &'static str)
    ensures
        r@ == bool_word(b),
{
    if b {
        "true"
    } else {
        "false"
    }
}

/// `[a, b, c]`.
pub open spec fn bracketed(items: Seq<Seq<char>>) -> Seq<char> {
    "["@ + join_seq(items, ", "@) + "]"@
}

/// The lines that `config` prints for the settings and the registered
/// categories.
pub open spec fn config_lines(cfg: Config, cats: Seq<Seq<char>>) -> Seq<Seq<char>> {
    let vis = texts(cfg.visible_categories@);
    seq![
        "rm_to:           "@ + cfg.rm_to@,
        "init_to:         "@ + cfg.init_to@,
        "clone_to:        "@ + cfg.clone_to@,
        "sync_new_to:     "@ + cfg.sync_new_to@,
        "sync_missing_to: "@ + cfg.sync_missing_to@,
        "use_fzf:         "@ + bool_word(cfg.use_fzf),
        "no_git:          "@ + bool_word(cfg.no_git),
        "project_dir:     "@ + cfg.project_dir@,
    ] + (if vis.len() > 0 {
        seq!["visible_categories: "@ + bracketed(vis)]
    } else {
        Seq::empty()
    }) + (if cats.len() > 0 {
        seq!["categories:        "@ + bracketed(cats)]
    } else {
        Seq::empty()
    })
}

/// The description of the settings shows the registered categories whenever
/// there are any, whatever `visible_categories` holds: it is the
/// description without categories with one more line, `categories:` and the
/// list, at the end.
pub proof fn lemma_config_shows_categories(cfg: Config, cats: Seq<Seq<char>>)
    ensures
        cats.len() > 0 ==> config_lines(cfg, cats) == config_lines(cfg, Seq::empty()).push(
            "categories:        "@ + bracketed(cats),
        ),
        cats.len() > 0 ==> config_lines(cfg, cats).last() == "categories:        "@ + bracketed(cats),
        cats.len() > 0 ==> config_lines(cfg, cats).len() == config_lines(cfg, Seq::empty()).len() + 1,
{
    if cats.len() > 0 {
        assert(config_lines(cfg, cats) =~= config_lines(cfg, Seq::empty()).push(
            "categories:        "@ + bracketed(cats),
        ));
    }
}

/// Text made of two pieces.
fn concat2(a: &str, b: &str) -> (r: String)
    ensures
        r@ == a@ + b@,
{
    let mut r = String::new();
    r.append(a);
    r.append(b);
    r
}

/// `label` followed by `[a, b, c]`.
fn bracket_line(label: &str, items: &Vec<String>) -> (r: String)
    ensures
        r@ == label@ + bracketed(texts(items@)),
{
    let j = join_texts(items, ", ");
    let mut r = String::new();
    r.append(label);
    r.append("[");
    r.append(j.as_str());
    r.append("]");
    r
}

/// The lines that `config` prints for the settings and the registered
/// categories.
pub fn describe_config(cfg: &Config, cats: &Vec<String>) -> (r: Vec<String>)
    ensures
        texts(r@) == config_lines(*cfg, texts(cats@)),
{
    let mut r: Vec<String> = Vec::new();
    r.push(concat2("rm_to:           ", cfg.rm_to.as_str()));
    r.push(concat2("init_to:         ", cfg.init_to.as_str()));
    r.push(concat2("clone_to:        ", cfg.clone_to.as_str()));
    r.push(concat2("sync_new_to:     ", cfg.sync_new_to.as_str()));
    r.push(concat2("sync_missing_to: ", cfg.sync_missing_to.as_str()));
    r.push(concat2("use_fzf:         ", bool_text(cfg.use_fzf)));
    r.push(concat2("no_git:          ", bool_text(cfg.no_git)));
    r.push(concat2("project_dir:     ", cfg.project_dir.as_str()));
    let ghost base = texts(r@);
    if cfg.visible_categories.len() > 0 {
        r.push(bracket_line("visible_categories: ", &cfg.visible_categories));
    }
    let ghost mid = texts(r@);
    if cats.len() > 0 {
        r.push(bracket_line("categories:        ", cats));
    }
    assert(texts(r@) =~= config_lines(*cfg, texts(cats@)));
    r
}

/// How the root of `config.yaml` is shaped.
#[derive(PartialEq, Eq, Structural, Debug, Clone, Copy)]
pub enum RootShape {
    /// Empty (or not parsed).
    Null,
    /// A mapping.
    Mapping,
    /// Anything else.
    Other,
}

/// What settings migration reads of `config.yaml`.
pub struct SettingsDoc {
    /// The shape of the root.
    pub shape: RootShape,
    /// The old `cat_visible` entry, if present: its entries (key as text if
    /// it is one, value as bool if it is one) when it is a mapping.
    pub cat_visible: Option<Option<Vec<(Option<String>, Option<bool>)>>>,
    /// Whether a `visible_categories` entry is present.
    pub has_visible_categories: bool,
}

/// What to change in `config.yaml`.
pub struct MigrationPlan {
    /// A new value for `visible_categories`.
    pub set_visible: Option<Vec<String>>,
    /// Whether to drop the old `cat_visible` entry.
    pub drop_cat_visible: bool,
    /// Whether the file is to be written back.
    pub migrated: bool,
}

/// The view of the entries of `cat_visible`.
pub open spec fn flag_entries_view(es: Seq<(Option<String>, Option<bool>)>) -> Seq<(Option<Seq<char>>, Option<bool>)> {
    es.map_values(
        |e: (Option<String>, Option<bool>)|
            (
                match e.0 {
                    Some(k) => Some(k@),
                    None => None,
                },
                e.1,
            ),
    )
}

/// The keys (the empty text for a key that is not text) of the entries
/// set to `true`, in order.
pub open spec fn enabled_names(es: Seq<(Option<Seq<char>>, Option<bool>)>) -> Seq<Seq<char>>
    decreases es.len(),
{
    if es.len() == 0 {
        Seq::empty()
    } else if es.last().1 == Some(true) {
        enabled_names(es.drop_last()).push(
            match es.last().0 {
                Some(k) => k,
                None => Seq::empty(),
            },
        )
    } else {
        enabled_names(es.drop_last())
    }
}

/// The plan that migrating `config.yaml` follows: an old `cat_visible`
/// mapping becomes `visible_categories` (its keys set to `true`, if any) and
/// is dropped; a missing `visible_categories` gets the default; either
/// change means the file is written back. The result is (new value of
/// `visible_categories`, drop `cat_visible`, write back).
pub open spec fn migration(
    cat_visible: Option<Option<Seq<(Option<Seq<char>>, Option<bool>)>>>,
    has_visible: bool,
) -> (Option<Seq<Seq<char>>>, bool, bool) {
    let first = match cat_visible {
        Some(Some(es)) => if enabled_names(es).len() > 0 {
            Some(enabled_names(es))
        } else {
            None
        },
        _ => None,
    };
    let present = has_visible || first is Some;
    (if present {
        first
    } else {
        Some(default_visible_names())
    }, cat_visible is Some, cat_visible is Some || !present)
}

/// The view of the `cat_visible` entry.
pub open spec fn cat_visible_view(cv: Option<Option<Vec<(Option<String>, Option<bool>)>>>) -> Option<Option<Seq<(Option<Seq<char>>, Option<bool>)>>> {
    match cv {
        Some(Some(v)) => Some(Some(flag_entries_view(v@))),
        Some(None) => Some(None),
        None => None,
    }
}

/// The keys set to `true` in the old `cat_visible` mapping.
fn enabled_keys(es: &Vec<(Option<String>, Option<bool>)>) -> (r: Vec<String>)
    ensures
        texts(r@) == enabled_names(flag_entries_view(es@)),
{
    let ghost ev = flag_entries_view(es@);
    let mut r: Vec<String> = Vec::new();
    let mut i: usize = 0;
    while i < es.len()
        invariant
            ev == flag_entries_view(es@),
            i <= es@.len(),
            texts(r@) == enabled_names(ev.take(i as int)),
        decreases es.len() - i,
    {
        let ghost t = ev.take(i + 1);
        assert(t.drop_last() =~= ev.take(i as int));
        let ghost before = texts(r@);
        let on = match es[i].1 {
            Some(b) => b,
            None => false,
        };
        if on {
            let k = match &es[i].0 {
                Some(k) => k.clone(),
                None => String::new(),
            };
            r.push(k);
            assert(texts(r@) =~= before.push(t.last().0.unwrap_or(Seq::empty())));
        }
        i = i + 1;
    }
    assert(ev.take(es@.len() as int) =~= ev);
    r
}

/// `p` carries out the migration `m` (new value of `visible_categories`,
/// drop `cat_visible`, write back).
pub open spec fn plan_is(p: MigrationPlan, m: (Option<Seq<Seq<char>>>, bool, bool)) -> bool {
    &&& match p.set_visible {
        Some(v) => m.0 == Some(texts(v@)),
        None => m.0 is None,
    }
    &&& p.drop_cat_visible == m.1
    &&& p.migrated == m.2
}

/// A migrated document needs no second migration: once the plan is carried
/// out, `cat_visible` is gone and `visible_categories` is present, and the
/// migration of that document changes nothing.
pub proof fn lemma_migration_settles(
    cat_visible: Option<Option<Seq<(Option<Seq<char>>, Option<bool>)>>>,
    has_visible: bool,
)
    ensures
        ({
            let (set, drop, migrated) = migration(cat_visible, has_visible);
            let after_cat_visible = if drop { None } else { cat_visible };
            let after_has_visible = has_visible || set is Some;
            &&& after_cat_visible is None
            &&& after_has_visible
            &&& migration(after_cat_visible, after_has_visible) == (None::<Seq<Seq<char>>>, false, false)
        }),
{
}

/// What migrating `config.yaml` changes. A root that is neither empty nor a
/// mapping cannot take a `visible_categories` entry: it is left out.
pub fn plan_migration(doc: &SettingsDoc) -> (p: MigrationPlan)
    requires
        doc.shape != RootShape::Other,
    ensures
        plan_is(p, migration(cat_visible_view(doc.cat_visible), doc.has_visible_categories)),
{
    let mut set_visible: Option<Vec<String>> = None;
    let mut drop_cat_visible = false;
    let mut migrated = false;
    match &doc.cat_visible {
        Some(cv) => {
            match cv {
                Some(es) => {
                    let keys = enabled_keys(es);
                    if keys.len() > 0 {
                        set_visible = Some(keys);
                    }
                },
                None => {},
            }
            drop_cat_visible = true;
            migrated = true;
        },
        None => {},
    }
    if !doc.has_visible_categories && set_visible.is_none() {
        set_visible = Some(default_visible_categories());
        migrated = true;
    }
    MigrationPlan { set_visible, drop_cat_visible, migrated }
}

} // verus!
