//! Turns a scanned tree into indented text rows, largest entries first,
//! limited in depth and in entries per directory.
use vstd::prelude::*;
use vstd::string::*;
use crate::node::{Node, NodeKind};
use crate::listing::{LevelPlan, plan_level, kept_count, listing, sum_at};
use crate::node::saturate;
use crate::size_format::{SizeFormat, formatted, decimal, format_size, decimal_string};

verus! {

pub open spec fn error_mark() -> Seq<char> {
    seq![' ', '[', 'e', 'r', 'r', 'o', 'r', ']']
}

pub open spec fn pruned_mark() -> Seq<char> {
    seq![' ', '[', 'p', 'r', 'u', 'n', 'e', 'd', ']']
}

/// The label of a node's row: its name, marked when it was not read or not
/// entered.
pub open spec fn label_of(n: Node) -> Seq<char> {
    match n.kind {
        NodeKind::Error => n.name@ + error_mark(),
        NodeKind::Pruned => n.name@ + pruned_mark(),
        _ => n.name@,
    }
}

/// The label of the row that stands for `count` entries left out.
pub open spec fn fold_label(count: nat) -> Seq<char> {
    seq!['…', ' ', 'a', 'n', 'd', ' '] + decimal(count) + seq![' ', 'm', 'o', 'r', 'e']
}

/// One row: the tree drawing, the formatted size, a space and the label.
pub open spec fn row(prefix: Seq<char>, size: u64, label: Seq<char>, f: SizeFormat) -> Seq<char> {
    prefix + formatted(size as nat, f) + seq![' '] + label
}

/// Drawn before an entry that has siblings below it.
pub open spec fn branch() -> Seq<char> {
    seq!['├', '─', '─', ' ']
}

/// Drawn before the last entry of a level.
pub open spec fn corner() -> Seq<char> {
    seq!['└', '─', '─', ' ']
}

/// Drawn under an entry that has siblings below it, for its descendants.
pub open spec fn bar() -> Seq<char> {
    seq!['│', ' ', ' ', ' ']
}

/// Drawn under the last entry of a level, for its descendants.
pub open spec fn gap() -> Seq<char> {
    seq![' ', ' ', ' ', ' ']
}

/// Whether a directory shown at a level with `levels_left` more levels
/// allowed is itself expanded (`-1`: no limit).
pub open spec fn expands(levels_left: int) -> bool {
    levels_left == -1 || levels_left > 1
}

/// The limit passed on to the level below.
pub open spec fn next_levels(levels_left: int) -> int {
    if levels_left == -1 { -1 } else { levels_left - 1 }
}

/// The texts of a sequence of strings.
pub open spec fn texts(v: Seq<String>) -> Seq<Seq<char>> {
    v.map_values(|s: String| s@)
}

/// The rows below directory `dir` drawn under `prefix`: the rows of the kept
/// entries from listing position `j` on, each followed by the rows below it
/// where it is expanded, then the summary row of the entries left out.
pub open spec fn entry_rows(
    dir: Node,
    prefix: Seq<char>,
    levels_left: int,
    max_entries: int,
    f: SizeFormat,
    j: nat,
) -> Seq<Seq<char>>
    decreases dir, dir.children@.len() - j, 0nat,
{
    let order = listing(dir.children@);
    let n = dir.children@.len();
    let kept = kept_count(n, max_entries);
    let folded = n - kept;
    if j < kept && j < order.len() && order[j as int] < n {
        let child = dir.children@[order[j as int] as int];
        let last = j + 1 == kept && folded == 0;
        let own = row(prefix + (if last { corner() } else { branch() }), child.size, label_of(child), f);
        let below = if child.kind == NodeKind::Directory && expands(levels_left) {
            level_rows(
                child,
                prefix + (if last { gap() } else { bar() }),
                next_levels(levels_left),
                max_entries,
                f,
            )
        } else {
            Seq::empty()
        };
        seq![own] + below + entry_rows(dir, prefix, levels_left, max_entries, f, j + 1)
    } else if j >= kept && folded > 0 {
        seq![
            row(
                prefix + corner(),
                saturate(sum_at(dir.children@, order.skip(kept as int))) as u64,
                fold_label(folded as nat),
                f,
            ),
        ]
    } else {
        Seq::empty()
    }
}

/// All rows below directory `dir`.
pub open spec fn level_rows(
    dir: Node,
    prefix: Seq<char>,
    levels_left: int,
    max_entries: int,
    f: SizeFormat,
) -> Seq<Seq<char>>
    decreases dir, dir.children@.len() + 1, 0nat,
{
    entry_rows(dir, prefix, levels_left, max_entries, f, 0)
}

/// The rows of a whole tree.
pub open spec fn rendered(root: Node, max_depth: int, max_entries: int, f: SizeFormat) -> Seq<
    Seq<char>,
> {
    seq![row(Seq::empty(), root.size, label_of(root), f)] + if max_depth != 0 && root.kind
        == NodeKind::Directory {
        level_rows(root, Seq::empty(), max_depth, max_entries, f)
    } else {
        Seq::empty()
    }
}

fn label(n: &Node) -> (r: String)
    ensures
        r@ == label_of(*n),
{
    let mut s = n.name.clone();
    match n.kind {
        NodeKind::Error => {
            proof { reveal_strlit(" [error]"); }
            s.append(" [error]");
        },
        NodeKind::Pruned => {
            proof { reveal_strlit(" [pruned]"); }
            s.append(" [pruned]");
        },
        _ => {},
    }
    s
}

fn fold_text(count: usize) -> (r: String)
    ensures
        r@ == fold_label(count as nat),
{
    proof {
        reveal_strlit("… and ");
        reveal_strlit(" more");
    }
    let mut s = String::from_str("… and ");
    let digits = decimal_string(count as u128);
    s.append(digits.as_str());
    s.append(" more");
    s
}

fn row_text(prefix: &String, size: u64, label: &String, f: SizeFormat) -> (r: String)
    ensures
        r@ == row(prefix@, size, label@, f),
{
    let mut s = prefix.clone();
    let sz = format_size(size, f);
    s.append(sz.as_str());
    proof { reveal_strlit(" "); }
    s.append(" ");
    s.append(label.as_str());
    s
}

fn extend(prefix: &String, last: bool, cell_if_last: &str, cell_otherwise: &str) -> (r: String)
    ensures
        r@ == prefix@ + (if last { cell_if_last@ } else { cell_otherwise@ }),
{
    let mut s = prefix.clone();
    if last {
        s.append(cell_if_last);
    } else {
        s.append(cell_otherwise);
    }
    s
}

/// Appends the rows below directory `dir`: each kept entry in listing order,
/// followed by its own rows where it is expanded, then the summary row for
/// the entries left out.
pub fn render_level(
    dir: &Node,
    prefix: &String,
    levels_left: i64,
    max_entries: i64,
    f: SizeFormat,
    out: &mut Vec<String>,
)
    ensures
        texts(final(out)@) == texts(old(out)@) + level_rows(
            *dir,
            prefix@,
            levels_left as int,
            max_entries as int,
            f,
        ),
    decreases dir,
{
    let ghost start = texts(out@);
    let ghost whole = level_rows(*dir, prefix@, levels_left as int, max_entries as int, f);
    let plan: LevelPlan = plan_level(&dir.children, max_entries);
    let n = dir.children.len();
    let folded = n - plan.kept;
    proof {
        reveal_strlit("├── ");
        reveal_strlit("└── ");
        reveal_strlit("│   ");
        reveal_strlit("    ");
        assert("├── "@ =~= branch());
        assert("└── "@ =~= corner());
        assert("│   "@ =~= bar());
        assert("    "@ =~= gap());
        assert(texts(out@) + entry_rows(*dir, prefix@, levels_left as int, max_entries as int, f, 0)
            =~= start + whole);
    }
    let mut j: usize = 0;
    while j < plan.kept
        invariant
            plan.kept <= n,
            n == dir.children@.len(),
            plan.order@ == listing(dir.children@),
            plan.order@.len() == n,
            forall|k: int| 0 <= k < n ==> #[trigger] plan.order@[k] < n,
            plan.kept == kept_count(n as nat, max_entries as int),
            plan.folded_size == saturate(sum_at(dir.children@, plan.order@.skip(plan.kept as int))),
            j <= plan.kept,
            folded == n - plan.kept,
            "├── "@ == branch(),
            "└── "@ == corner(),
            "│   "@ == bar(),
            "    "@ == gap(),
            texts(out@) + entry_rows(*dir, prefix@, levels_left as int, max_entries as int, f, j as nat)
                == start + whole,
        decreases plan.kept - j,
    {
        let idx = plan.order[j];
        let child = &dir.children[idx];
        let last = j + 1 == plan.kept && folded == 0;
        let lead = extend(prefix, last, "└── ", "├── ");
        let name = label(child);
        let line = row_text(&lead, child.size, &name, f);
        let ghost rest = entry_rows(*dir, prefix@, levels_left as int, max_entries as int, f, (j + 1) as nat);
        let ghost before = out@;
        out.push(line);
        proof {
            assert(texts(out@) =~= texts(before).push(line@));
        }
        if child.kind == NodeKind::Directory && (levels_left == -1 || levels_left > 1) {
            let below = extend(prefix, last, "    ", "│   ");
            let next = if levels_left == -1 { -1 } else { levels_left - 1 };
            assert(decreases_to!(*dir => dir.children));
            assert(decreases_to!(dir.children => dir.children@));
            let ghost mid = texts(out@);
            render_level(child, &below, next, max_entries, f, out);
            proof {
                let sub = level_rows(*child, below@, next as int, max_entries as int, f);
                assert(entry_rows(*dir, prefix@, levels_left as int, max_entries as int, f, j as nat)
                    == seq![line@] + sub + rest);
                assert(texts(out@) + rest =~= texts(before) + (seq![line@] + sub + rest));
            }
        } else {
            proof {
                assert(entry_rows(*dir, prefix@, levels_left as int, max_entries as int, f, j as nat)
                    == seq![line@] + Seq::<Seq<char>>::empty() + rest);
                assert(texts(out@) + rest =~= texts(before) + (seq![line@] + Seq::<Seq<char>>::empty()
                    + rest));
            }
        }
        j = j + 1;
    }
    if folded > 0 {
        let lead = extend(prefix, true, "└── ", "├── ");
        let text = fold_text(folded);
        let line = row_text(&lead, plan.folded_size, &text, f);
        let ghost before = out@;
        out.push(line);
        proof {
            assert(texts(out@) =~= texts(before).push(line@));
            assert(texts(out@) =~= texts(before) + entry_rows(
                *dir,
                prefix@,
                levels_left as int,
                max_entries as int,
                f,
                j as nat,
            ));
        }
    } else {
        assert(texts(out@) =~= texts(out@) + entry_rows(
            *dir,
            prefix@,
            levels_left as int,
            max_entries as int,
            f,
            j as nat,
        ));
    }
}

/// The rows of the whole tree: the root's row, then, unless `max_depth` is 0
/// or the root is no directory, the rows below it (`max_depth` counts levels
/// below the root, `-1` for no limit; `max_entries` limits each directory,
/// any negative value for no limit).
pub fn render(root: &Node, max_depth: i64, max_entries: i64, f: SizeFormat) -> (r: Vec<String>)
    ensures
        texts(r@) == rendered(*root, max_depth as int, max_entries as int, f),
{
    let mut out: Vec<String> = Vec::new();
    let empty = String::new();
    let name = label(root);
    out.push(row_text(&empty, root.size, &name, f));
    assert(texts(out@) =~= seq![row(Seq::empty(), root.size, label_of(*root), f)]);
    if max_depth != 0 && root.kind == NodeKind::Directory {
        render_level(root, &empty, max_depth, max_entries, f, &mut out);
    } else {
        assert(texts(out@) =~= texts(out@) + Seq::<Seq<char>>::empty());
    }
    out
}

} // verus!
