//! Text output as lines of styled segments, and the tree drawing of
//! categories and their projects.

use vstd::prelude::*;

verus! {

/// How a segment is shown on a color terminal.
#[derive(PartialEq, Eq, Structural, Debug, Clone, Copy)]
pub enum Style {
    /// As is.
    Plain,
    /// A category name: blue and bold.
    Category,
    /// A remark: dimmed.
    Dim,
}

/// A piece of a line.
pub struct Segment {
    /// The text.
    pub text: String,
    /// Its style.
    pub style: Style,
}

/// A line: its segments side by side.
pub type Line = Vec<Segment>;

/// The view of a line.
pub open spec fn line_view(l: Line) -> Seq<(Seq<char>, Style)> {
    l@.map_values(|s: Segment| (s.text@, s.style))
}

/// The view of lines.
pub open spec fn lines_view(ls: Seq<Line>) -> Seq<Seq<(Seq<char>, Style)>> {
    ls.map_values(|l: Line| line_view(l))
}

/// The text of a line without styles.
pub open spec fn line_text(l: Seq<(Seq<char>, Style)>) -> Seq<char>
    decreases l.len(),
{
    if l.len() == 0 {
        Seq::empty()
    } else {
        line_text(l.drop_last()) + l.last().0
    }
}

/// The text of a line without styles.
pub fn plain_line(l: &Line) -> (r: String)
    ensures
        r@ == line_text(line_view(*l)),
{
    let mut r = String::new();
    let mut i: usize = 0;
    while i < l.len()
        invariant
            i <= l@.len(),
            r@ == line_text(line_view(*l).take(i as int)),
        decreases l.len() - i,
    {
        assert(line_view(*l).take(i + 1).drop_last() =~= line_view(*l).take(i as int));
        r.append(l[i].text.as_str());
        i = i + 1;
    }
    assert(line_view(*l).take(l@.len() as int) =~= line_view(*l));
    r
}

/// The texts of lines without styles, one string per line.
pub fn plain_lines(ls: &Vec<Line>) -> (r: Vec<String>)
    ensures
        r@.len() == ls@.len(),
        forall|i: int| 0 <= i < ls@.len() ==> #[trigger] r@[i]@ == line_text(line_view(ls@[i])),
{
    let mut r: Vec<String> = Vec::new();
    let mut i: usize = 0;
    while i < ls.len()
        invariant
            i <= ls@.len(),
            r@.len() == i,
            forall|k: int| 0 <= k < i ==> #[trigger] r@[k]@ == line_text(line_view(ls@[k])),
        decreases ls.len() - i,
    {
        r.push(plain_line(&ls[i]));
        i = i + 1;
    }
    r
}

/// A plain segment.
pub fn plain(text: String) -> (s: Segment)
    ensures
        s.text@ == text@,
        s.style == Style::Plain,
{
    Segment { text, style: Style::Plain }
}

/// The digit `d` as a character.
pub open spec fn digit_char(d: nat) -> char {
    if d == 0 { '0' }
    else if d == 1 { '1' }
    else if d == 2 { '2' }
    else if d == 3 { '3' }
    else if d == 4 { '4' }
    else if d == 5 { '5' }
    else if d == 6 { '6' }
    else if d == 7 { '7' }
    else if d == 8 { '8' }
    else { '9' }
}

/// `n` in decimal, as `usize`'s `Display` writes it.
pub open spec fn decimal(n: nat) -> Seq<char>
    decreases n,
{
    if n < 10 {
        seq![digit_char(n)]
    } else {
        decimal(n / 10).push(digit_char(n % 10))
    }
}

/// The digit `d` as text.
fn digit_text(d: usize) -> (r: &'static str)
    requires
        d < 10,
    ensures
        r@ == seq![digit_char(d as nat)],
{
    if d == 0 {
        proof { reveal_strlit("0"); }
        "0"
    } else if d == 1 {
        proof { reveal_strlit("1"); }
        "1"
    } else if d == 2 {
        proof { reveal_strlit("2"); }
        "2"
    } else if d == 3 {
        proof { reveal_strlit("3"); }
        "3"
    } else if d == 4 {
        proof { reveal_strlit("4"); }
        "4"
    } else if d == 5 {
        proof { reveal_strlit("5"); }
        "5"
    } else if d == 6 {
        proof { reveal_strlit("6"); }
        "6"
    } else if d == 7 {
        proof { reveal_strlit("7"); }
        "7"
    } else if d == 8 {
        proof { reveal_strlit("8"); }
        "8"
    } else {
        proof { reveal_strlit("9"); }
        "9"
    }
}

/// `n` in decimal.
pub fn decimal_text(n: usize) -> (r: String)
    ensures
        r@ == decimal(n as nat),
    decreases n,
{
    if n < 10 {
        let mut r = String::new();
        r.append(digit_text(n));
        assert(r@ =~= decimal(n as nat));
        r
    } else {
        let mut r = decimal_text(n / 10);
        r.append(digit_text(n % 10));
        r
    }
}

/// The branch drawn before an item: the last item of a level closes it.
pub open spec fn branch(last: bool) -> Seq<char> {
    if last {
        "└── "@
    } else {
        "├── "@
    }
}

/// The indent drawn before the items under a category.
pub open spec fn indent(last: bool) -> Seq<char> {
    if last {
        "    "@
    } else {
        "│   "@
    }
}

/// The line of project `name` under a category; a project whose directory is
/// missing is marked.
pub open spec fn name_line(lead: Seq<char>, name: Seq<char>, last: bool, missing: bool) -> Seq<(Seq<char>, Style)> {
    let first = (lead + branch(last) + name, Style::Plain);
    if missing {
        seq![first, ("  "@, Style::Plain), ("(missing)"@, Style::Dim)]
    } else {
        seq![first]
    }
}

/// The lines of the projects `names` under a category, after `lead`.
pub open spec fn name_lines(lead: Seq<char>, names: Seq<Seq<char>>, on_disk: Seq<Seq<char>>) -> Seq<Seq<(Seq<char>, Style)>> {
    Seq::new(
        names.len(),
        |j: int| name_line(lead, names[j], j == names.len() - 1, !on_disk.contains(names[j])),
    )
}

/// The line of a category, after `lead`, with the number of its projects
/// when `count` is given.
pub open spec fn head_line(lead: Seq<char>, cat: Seq<char>, count: Option<nat>) -> Seq<(Seq<char>, Style)> {
    (if lead.len() > 0 {
        seq![(lead, Style::Plain)]
    } else {
        Seq::empty()
    }) + seq![(cat, Style::Category)] + match count {
        Some(n) => seq![(" ("@ + decimal(n) + ")"@, Style::Plain)],
        None => Seq::empty(),
    }
}

/// The view of groups of (category, project names).
pub open spec fn groups_view(g: Seq<(String, Vec<String>)>) -> Seq<(Seq<char>, Seq<Seq<char>>)> {
    g.map_values(|e: (String, Vec<String>)| (e.0@, crate::text::texts(e.1@)))
}

/// The lines of a category and, unless only counts are shown, of its
/// projects, drawn after `lead` and `under`.
pub open spec fn block_lines(
    lead: Seq<char>,
    under: Seq<char>,
    cat: Seq<char>,
    names: Seq<Seq<char>>,
    counts: bool,
    on_disk: Seq<Seq<char>>,
) -> Seq<Seq<(Seq<char>, Style)>> {
    seq![head_line(lead, cat, if counts { Some(names.len()) } else { None })] + if counts {
        Seq::empty()
    } else {
        name_lines(under, names, on_disk)
    }
}

/// The lines of the first `k` groups of a tree.
pub open spec fn tree_blocks(
    groups: Seq<(Seq<char>, Seq<Seq<char>>)>,
    k: int,
    counts: bool,
    on_disk: Seq<Seq<char>>,
) -> Seq<Seq<(Seq<char>, Style)>>
    decreases k,
{
    if k <= 0 {
        Seq::empty()
    } else {
        let i = k - 1;
        let last = i == groups.len() - 1;
        tree_blocks(groups, i, counts, on_disk) + block_lines(
            branch(last),
            indent(last),
            groups[i].0,
            groups[i].1,
            counts,
            on_disk,
        )
    }
}

/// `l` ends with the dimmed mark of a project whose directory is missing.
pub open spec fn marked_missing(l: Seq<(Seq<char>, Style)>) -> bool {
    l.len() > 0 && l.last() == ("(missing)"@, Style::Dim)
}

/// `l` is a category line: it ends with the category in its style.
pub open spec fn is_category_line(l: Seq<(Seq<char>, Style)>) -> bool {
    l.len() > 0 && l.last().1 == Style::Category
}

/// The project a project line of a tree names: what follows the eight
/// characters of drawing at its start.
pub open spec fn line_project(l: Seq<(Seq<char>, Style)>) -> Seq<char> {
    l[0].0.skip(8)
}

/// The project a project line under a lone category names: what follows
/// the four characters of its branch.
pub open spec fn block_line_project(l: Seq<(Seq<char>, Style)>) -> Seq<char> {
    l[0].0.skip(4)
}

/// Under a lone category (no root, no counts), the first line is the
/// category's, and every other line is a project's, marked missing exactly
/// when the project is not among `on_disk`.
pub proof fn lemma_block_marks(cat: Seq<char>, names: Seq<Seq<char>>, on_disk: Seq<Seq<char>>)
    ensures
        is_category_line(block_lines(Seq::empty(), Seq::empty(), cat, names, false, on_disk)[0]),
        forall|i: int|
            1 <= i < block_lines(Seq::empty(), Seq::empty(), cat, names, false, on_disk).len() ==> !is_category_line(
                #[trigger] block_lines(Seq::empty(), Seq::empty(), cat, names, false, on_disk)[i],
            ) && (marked_missing(block_lines(Seq::empty(), Seq::empty(), cat, names, false, on_disk)[i])
                <==> !on_disk.contains(
                block_line_project(block_lines(Seq::empty(), Seq::empty(), cat, names, false, on_disk)[i]),
            )),
{
    reveal_strlit("└── ");
    reveal_strlit("├── ");
    let e = Seq::<char>::empty();
    let bl = block_lines(e, e, cat, names, false, on_disk);
    let hl = head_line(e, cat, None);
    assert(hl =~= seq![(cat, Style::Category)]);
    assert(bl == seq![hl] + name_lines(e, names, on_disk));
    assert forall|i: int| 1 <= i < bl.len() implies !is_category_line(#[trigger] bl[i]) && (marked_missing(bl[i])
        <==> !on_disk.contains(block_line_project(bl[i]))) by {
        let j = i - 1;
        assert(bl[i] == name_lines(e, names, on_disk)[j]);
        let n = names[j];
        let b = branch(j == names.len() - 1);
        assert(b.len() == 4);
        let first = (e + b + n, Style::Plain);
        assert((e + b + n).skip(4) =~= n);
        if !on_disk.contains(n) {
            assert(bl[i] == seq![first, ("  "@, Style::Plain), ("(missing)"@, Style::Dim)]);
        } else {
            assert(bl[i] == seq![first]);
        }
    }
}

/// Below the root, each line of a tree without counts is a category line
/// or the line of a project, marked missing exactly when the project is not
/// among `on_disk`.
pub proof fn lemma_tree_blocks_marks(groups: Seq<(Seq<char>, Seq<Seq<char>>)>, k: int, on_disk: Seq<Seq<char>>)
    requires
        0 <= k <= groups.len(),
    ensures
        forall|i: int|
            0 <= i < tree_blocks(groups, k, false, on_disk).len() && !is_category_line(
                #[trigger] tree_blocks(groups, k, false, on_disk)[i],
            ) ==> (marked_missing(tree_blocks(groups, k, false, on_disk)[i]) <==> !on_disk.contains(
                line_project(tree_blocks(groups, k, false, on_disk)[i]),
            )),
    decreases k,
{
    if k > 0 {
        lemma_tree_blocks_marks(groups, k - 1, on_disk);
        reveal_strlit("└── ");
        reveal_strlit("├── ");
        reveal_strlit("    ");
        reveal_strlit("│   ");
        let i0 = k - 1;
        let last = i0 == groups.len() - 1;
        let prev = tree_blocks(groups, i0, false, on_disk);
        let names = groups[i0].1;
        let lead = indent(last);
        let block = block_lines(branch(last), lead, groups[i0].0, names, false, on_disk);
        let all = tree_blocks(groups, k, false, on_disk);
        assert(all == prev + block);
        assert(branch(last).len() == 4);
        assert(lead.len() == 4);
        let hl = head_line(branch(last), groups[i0].0, None);
        assert(hl =~= seq![(branch(last), Style::Plain), (groups[i0].0, Style::Category)]);
        assert(is_category_line(hl));
        assert(block == seq![hl] + name_lines(lead, names, on_disk));
        assert forall|i: int|
            0 <= i < all.len() && !is_category_line(#[trigger] all[i]) implies (marked_missing(all[i])
                <==> !on_disk.contains(line_project(all[i]))) by {
            if i < prev.len() {
                assert(all[i] == prev[i]);
            } else if i == prev.len() {
                assert(all[i] == hl);
            } else {
                let j = i - prev.len() - 1;
                assert(all[i] == name_lines(lead, names, on_disk)[j]);
                let n = names[j];
                let b = branch(j == names.len() - 1);
                assert(b.len() == 4);
                let first = (lead + b + n, Style::Plain);
                assert((lead + b + n).skip(8) =~= n);
                if !on_disk.contains(n) {
                    assert(all[i] == seq![first, ("  "@, Style::Plain), ("(missing)"@, Style::Dim)]);
                } else {
                    assert(all[i] == seq![first]);
                }
            }
        }
    }
}

/// A tree: the root, then each category with its projects.
pub open spec fn tree_lines(
    root: Seq<char>,
    groups: Seq<(Seq<char>, Seq<Seq<char>>)>,
    counts: bool,
    on_disk: Seq<Seq<char>>,
) -> Seq<Seq<(Seq<char>, Style)>> {
    seq![seq![(root, Style::Plain)]] + tree_blocks(groups, groups.len() as int, counts, on_disk)
}

/// Text made of three pieces.
fn concat3(a: &str, b: &str, c: &str) -> (r: String)
    ensures
        r@ == a@ + b@ + c@,
{
    let mut r = String::new();
    r.append(a);
    r.append(b);
    r.append(c);
    r
}

/// The branch drawn before an item.
fn branch_text(last: bool) -> (r: &'static str)
    ensures
        r@ == branch(last),
{
    if last {
        "└── "
    } else {
        "├── "
    }
}

/// The indent drawn before the items under a category.
fn indent_text(last: bool) -> (r: &'static str)
    ensures
        r@ == indent(last),
{
    if last {
        "    "
    } else {
        "│   "
    }
}

/// Appends the lines of the projects `names` after `lead`.
fn push_name_lines(out: &mut Vec<Line>, lead: &str, names: &Vec<String>, on_disk: &Vec<String>)
    ensures
        lines_view(final(out)@) == lines_view(old(out)@) + name_lines(
            lead@,
            crate::text::texts(names@),
            crate::text::texts(on_disk@),
        ),
{
    let ghost start = lines_view(out@);
    let ghost ns = crate::text::texts(names@);
    let ghost ds = crate::text::texts(on_disk@);
    let mut j: usize = 0;
    while j < names.len()
        invariant
            j <= names@.len(),
            ns == crate::text::texts(names@),
            ds == crate::text::texts(on_disk@),
            lines_view(out@) == start + name_lines(lead@, ns, ds).take(j as int),
        decreases names.len() - j,
    {
        let last = j == names.len() - 1;
        let name = &names[j];
        let first = concat3(lead, branch_text(last), name.as_str());
        let mut line: Line = Vec::new();
        line.push(plain(first));
        let on = crate::text::contains_text(on_disk, name.as_str());
        proof {
            crate::commands::lemma_contains_texts(on_disk@, name@);
            assert(ns[j as int] == name@);
        }
        if !on {
            line.push(plain("  ".to_owned()));
            line.push(Segment { text: "(missing)".to_owned(), style: Style::Dim });
        }
        assert(line_view(line) =~= name_line(lead@, ns[j as int], j == ns.len() - 1, !ds.contains(ns[j as int])));
        let ghost before = lines_view(out@);
        out.push(line);
        assert(lines_view(out@) =~= before.push(line_view(line)));
        j = j + 1;
        assert(name_lines(lead@, ns, ds).take(j as int) =~= name_lines(lead@, ns, ds).take(j - 1).push(
            name_lines(lead@, ns, ds)[j - 1],
        ));
        assert(lines_view(out@) =~= start + name_lines(lead@, ns, ds).take(j as int));
    }
    assert(name_lines(lead@, ns, ds).take(names@.len() as int) =~= name_lines(lead@, ns, ds));
}

/// The line of a category after `lead`, with its count when given.
fn head(lead: &str, cat: &str, count: Option<usize>) -> (l: Line)
    ensures
        line_view(l) == head_line(
            lead@,
            cat@,
            match count {
                Some(n) => Some(n as nat),
                None => None,
            },
        ),
{
    let mut l: Line = Vec::new();
    if lead.unicode_len() > 0 {
        l.push(plain(lead.to_owned()));
    }
    l.push(Segment { text: cat.to_owned(), style: Style::Category });
    match count {
        Some(n) => {
            let d = decimal_text(n);
            l.push(plain(concat3(" (", d.as_str(), ")")));
        },
        None => {},
    }
    assert(line_view(l) =~= head_line(
        lead@,
        cat@,
        match count {
            Some(n) => Some(n as nat),
            None => None,
        },
    ));
    l
}

/// Appends the lines of one category block.
fn push_block(
    out: &mut Vec<Line>,
    lead: &str,
    under: &str,
    cat: &str,
    names: &Vec<String>,
    counts: bool,
    on_disk: &Vec<String>,
)
    ensures
        lines_view(final(out)@) == lines_view(old(out)@) + block_lines(
            lead@,
            under@,
            cat@,
            crate::text::texts(names@),
            counts,
            crate::text::texts(on_disk@),
        ),
{
    let ghost start = lines_view(out@);
    let h = head(lead, cat, if counts { Some(names.len()) } else { None });
    out.push(h);
    assert(lines_view(out@) =~= start.push(line_view(h)));
    if !counts {
        push_name_lines(out, under, names, on_disk);
    }
    assert(lines_view(out@) =~= start + block_lines(
        lead@,
        under@,
        cat@,
        crate::text::texts(names@),
        counts,
        crate::text::texts(on_disk@),
    ));
}

/// The lines of a single category without a root: the category, then its
/// projects unless only counts are shown.
pub fn single_block(cat: &str, names: &Vec<String>, counts: bool, on_disk: &Vec<String>) -> (r: Vec<Line>)
    ensures
        lines_view(r@) == block_lines(
            Seq::empty(),
            Seq::empty(),
            cat@,
            crate::text::texts(names@),
            counts,
            crate::text::texts(on_disk@),
        ),
{
    let mut r: Vec<Line> = Vec::new();
    proof {
        reveal_strlit("");
    }
    push_block(&mut r, "", "", cat, names, counts, on_disk);
    assert(lines_view(r@) =~= block_lines(
        Seq::empty(),
        Seq::empty(),
        cat@,
        crate::text::texts(names@),
        counts,
        crate::text::texts(on_disk@),
    ));
    r
}

/// The tree: `root`, then each category with its projects (or only its
/// count).
pub fn tree(root: &str, groups: &Vec<(String, Vec<String>)>, counts: bool, on_disk: &Vec<String>) -> (r: Vec<Line>)
    ensures
        lines_view(r@) == tree_lines(root@, groups_view(groups@), counts, crate::text::texts(on_disk@)),
{
    let ghost g = groups_view(groups@);
    let ghost ds = crate::text::texts(on_disk@);
    let mut r: Vec<Line> = Vec::new();
    let mut first: Line = Vec::new();
    first.push(plain(root.to_owned()));
    assert(line_view(first) =~= seq![(root@, Style::Plain)]);
    r.push(first);
    assert(lines_view(r@) =~= seq![line_view(first)]);
    let n = groups.len();
    let mut i: usize = 0;
    assert(lines_view(r@) =~= seq![seq![(root@, Style::Plain)]] + tree_blocks(g, 0, counts, ds));
    while i < n
        invariant
            n == groups@.len(),
            g == groups_view(groups@),
            ds == crate::text::texts(on_disk@),
            i <= n,
            lines_view(r@) == seq![seq![(root@, Style::Plain)]] + tree_blocks(g, i as int, counts, ds),
        decreases n - i,
    {
        let last = i == n - 1;
        let ghost before = lines_view(r@);
        assert(g[i as int] == (groups@[i as int].0@, crate::text::texts(groups@[i as int].1@)));
        push_block(&mut r, branch_text(last), indent_text(last), groups[i].0.as_str(), &groups[i].1, counts, on_disk);
        i = i + 1;
        assert(lines_view(r@) =~= seq![seq![(root@, Style::Plain)]] + tree_blocks(g, i as int, counts, ds));
    }
    r
}

} // verus!
