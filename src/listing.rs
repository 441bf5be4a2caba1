//! The order in which a directory's entries are listed, and which of them
//! are folded into one summary row.
use vstd::prelude::*;
use crate::node::{Node, saturate};
use crate::text::{text_lt, text_less, lemma_text_lt_asymmetric};

verus! {

/// `a` is listed strictly before `b`: larger first, then by name.
pub open spec fn listed_before(a: Node, b: Node) -> bool {
    a.size > b.size || (a.size == b.size && text_lt(a.name@, b.name@))
}

/// `a` may stand directly above `b`: size not increasing, names ascending
/// among equal sizes.
pub open spec fn in_listing_order(a: Node, b: Node) -> bool {
    !listed_before(b, a)
}

/// `order` lists every child index once, in listing order.
pub open spec fn is_listing_order(children: Seq<Node>, order: Seq<usize>) -> bool {
    &&& order.len() == children.len()
    &&& forall|k: int| 0 <= k < order.len() ==> #[trigger] order[k] < children.len()
    &&& forall|j: int, k: int| 0 <= j < k < order.len() ==> order[j] != order[k]
    &&& forall|k: int|
        0 <= k < order.len() - 1 ==> in_listing_order(
            #[trigger] children[order[k] as int],
            children[order[k + 1] as int],
        )
}

/// How many of `n` entries are shown under the limit (negative: no limit).
pub open spec fn kept_count(n: nat, max_entries: int) -> nat {
    if max_entries >= 0 && n > max_entries {
        max_entries as nat
    } else {
        n
    }
}

/// The sum of the sizes of the children at the positions in `idx`.
pub open spec fn sum_at(children: Seq<Node>, idx: Seq<usize>) -> int
    decreases idx.len(),
{
    if idx.len() == 0 {
        0
    } else {
        sum_at(children, idx.drop_last()) + children[idx.last() as int].size
    }
}

/// Where entry `i` goes into `order`: after every entry from position `p`
/// on that it is not listed strictly before.
pub open spec fn insert_pos(children: Seq<Node>, order: Seq<usize>, i: int, p: nat) -> nat
    decreases order.len() - p,
{
    if p < order.len() && !listed_before(children[i], children[order[p as int] as int]) {
        insert_pos(children, order, i, p + 1)
    } else {
        p
    }
}

/// The first `m` entries in listing order: each entry is placed after all
/// earlier ones that are not listed after it, so equal entries keep their
/// relative order.
pub open spec fn listing_upto(children: Seq<Node>, m: nat) -> Seq<usize>
    decreases m,
{
    if m == 0 {
        Seq::empty()
    } else {
        let o = listing_upto(children, (m - 1) as nat);
        o.insert(insert_pos(children, o, m - 1, 0) as int, (m - 1) as usize)
    }
}

/// All entries of a directory in listing order.
pub open spec fn listing(children: Seq<Node>) -> Seq<usize> {
    listing_upto(children, children.len())
}

/// What one directory level shows: its entries in listing order, how many of
/// them get a row, and the total size of the rest.
pub struct LevelPlan {
    pub order: Vec<usize>,
    pub kept: usize,
    pub folded_size: u64,
}

/// Whether `a` is listed strictly before `b`.
pub fn listed_first(a: &Node, b: &Node) -> (r: bool)
    ensures
        r == listed_before(*a, *b),
{
    a.size > b.size || (a.size == b.size && text_less(a.name.as_str(), b.name.as_str()))
}

/// What the insertion point satisfies: every entry it passes may stand
/// above entry `i`, and entry `i` is listed strictly before the one it stops at.
pub proof fn lemma_insert_pos(children: Seq<Node>, order: Seq<usize>, i: int, p: nat)
    requires
        p <= order.len(),
    ensures
        p <= insert_pos(children, order, i, p) <= order.len(),
        forall|q: int|
            p <= q < insert_pos(children, order, i, p) ==> in_listing_order(
                #[trigger] children[order[q] as int],
                children[i],
            ),
        insert_pos(children, order, i, p) < order.len() ==> listed_before(
            children[i],
            children[order[insert_pos(children, order, i, p) as int] as int],
        ),
    decreases order.len() - p,
{
    if p < order.len() && !listed_before(children[i], children[order[p as int] as int]) {
        lemma_insert_pos(children, order, i, p + 1);
    }
}

/// `order` lists each of the first `m` entries once, in listing order.
pub open spec fn ordered_prefix(children: Seq<Node>, order: Seq<usize>, m: nat) -> bool {
    &&& order.len() == m
    &&& forall|k: int| 0 <= k < order.len() ==> #[trigger] order[k] < m
    &&& forall|j: int, k: int| 0 <= j < k < order.len() ==> order[j] != order[k]
    &&& forall|k: int|
        0 <= k < order.len() - 1 ==> in_listing_order(
            #[trigger] children[order[k] as int],
            children[order[k + 1] as int],
        )
}

/// Inserting entry `i` at a point that suits it keeps an ordered prefix
/// ordered.
proof fn lemma_insert_keeps_order(children: Seq<Node>, old_order: Seq<usize>, i: nat, p: int)
    requires
        ordered_prefix(children, old_order, i),
        0 <= p <= old_order.len(),
        i <= usize::MAX,
        forall|q: int|
            0 <= q < p ==> in_listing_order(#[trigger] children[old_order[q] as int], children[i as int]),
        p < old_order.len() ==> listed_before(children[i as int], children[old_order[p] as int]),
    ensures
        ordered_prefix(children, old_order.insert(p, i as usize), i + 1),
{
    let o = old_order.insert(p, i as usize);
    if p < old_order.len() {
        let a = children[i as int];
        let b = children[old_order[p] as int];
        if a.size == b.size {
            lemma_text_lt_asymmetric(a.name@, b.name@);
        }
        assert(in_listing_order(a, b));
    }
    assert(forall|k: int| 0 <= k < p ==> o[k] == old_order[k]);
    assert(o[p] == i);
    assert(forall|k: int| p < k < o.len() ==> o[k] == old_order[k - 1]);
    assert forall|k: int| 0 <= k < o.len() implies #[trigger] o[k] < i + 1 by {
        if k > p {
            assert(old_order[k - 1] < i);
        }
    }
    assert forall|j: int, k: int| 0 <= j < k < o.len() implies o[j] != o[k] by {
        if j < p {
            assert(old_order[j] < i);
        }
        if j > p {
            assert(old_order[j - 1] < i);
        }
        if k > p {
            assert(old_order[k - 1] < i);
        }
    }
    assert forall|k: int| 0 <= k < o.len() - 1 implies in_listing_order(
        #[trigger] children[o[k] as int],
        children[o[k + 1] as int],
    ) by {
        if k + 1 < p {
            assert(in_listing_order(
                children[old_order[k] as int],
                children[old_order[k + 1] as int],
            ));
        } else if k + 1 == p {
        } else if k == p {
        } else {
            assert(in_listing_order(
                children[old_order[k - 1] as int],
                children[old_order[k] as int],
            ));
        }
    }
}

/// The first `m` entries, in listing order, form an ordered prefix.
pub proof fn lemma_listing_upto_ordered(children: Seq<Node>, m: nat)
    requires
        m <= children.len(),
        children.len() <= usize::MAX,
    ensures
        ordered_prefix(children, listing_upto(children, m), m),
    decreases m,
{
    if m > 0 {
        let i = (m - 1) as nat;
        let old_order = listing_upto(children, i);
        lemma_listing_upto_ordered(children, i);
        lemma_insert_pos(children, old_order, i as int, 0);
        let p = insert_pos(children, old_order, i as int, 0) as int;
        lemma_insert_keeps_order(children, old_order, i, p);
    }
}

/// Every directory level is listed in a valid order: each entry once, sizes
/// not increasing from one row to the next, and names ascending among equal
/// sizes.
pub proof fn lemma_listing_ordered(children: Seq<Node>)
    requires
        children.len() <= usize::MAX,
    ensures
        is_listing_order(children, listing(children)),
{
    lemma_listing_upto_ordered(children, children.len());
    assert(ordered_prefix(children, listing(children), children.len()));
}

/// The indices of `children`, in listing order; equal entries keep their
/// relative order.
pub fn listing_order(children: &Vec<Node>) -> (r: Vec<usize>)
    ensures
        is_listing_order(children@, r@),
        r@ == listing(children@),
{
    let n = children.len();
    let mut order: Vec<usize> = Vec::new();
    let mut i: usize = 0;
    while i < n
        invariant
            n == children@.len(),
            i <= n,
            order@ == listing_upto(children@, i as nat),
        decreases n - i,
    {
        proof {
            lemma_listing_upto_ordered(children@, i as nat);
            assert(ordered_prefix(children@, order@, i as nat));
        }
        let mut p: usize = 0;
        while p < order.len() && !listed_first(&children[i], &children[order[p]])
            invariant
                n == children@.len(),
                i < n,
                p <= order@.len(),
                order@.len() == i,
                forall|k: int| 0 <= k < order@.len() ==> #[trigger] order@[k] < i,
                insert_pos(children@, order@, i as int, 0) == insert_pos(
                    children@,
                    order@,
                    i as int,
                    p as nat,
                ),
            decreases order@.len() - p,
        {
            p = p + 1;
        }
        order.insert(p, i);
        i = i + 1;
    }
    proof {
        lemma_listing_ordered(children@);
    }
    order
}

/// Sorts a directory's entries and splits them into the rows shown and the
/// rest, which fold into one summary row.
pub fn plan_level(children: &Vec<Node>, max_entries: i64) -> (r: LevelPlan)
    ensures
        is_listing_order(children@, r.order@),
        r.order@ == listing(children@),
        r.kept == kept_count(children@.len(), max_entries as int),
        r.folded_size == saturate(sum_at(children@, r.order@.skip(r.kept as int))),
{
    let order = listing_order(children);
    let n = order.len();
    let kept: usize = if max_entries >= 0 && (n as u64) > (max_entries as u64) {
        max_entries as usize
    } else {
        n
    };
    let mut folded: u64 = 0;
    let mut i: usize = kept;
    while i < n
        invariant
            n == order@.len(),
            is_listing_order(children@, order@),
            kept <= i <= n,
            folded == saturate(sum_at(children@, order@.subrange(kept as int, i as int))),
        decreases n - i,
    {
        assert(order@.subrange(kept as int, i + 1).drop_last()
            =~= order@.subrange(kept as int, i as int));
        folded = folded.saturating_add(children[order[i]].size);
        i = i + 1;
    }
    assert(order@.subrange(kept as int, n as int) =~= order@.skip(kept as int));
    LevelPlan { order, kept, folded_size: folded }
}

/// At most `max_entries` rows per level, and at most one summary row beside
/// them; the summary row comes exactly when entries were left out.
pub proof fn lemma_rows_per_level(n: nat, max_entries: int)
    requires
        max_entries >= 0,
    ensures
        kept_count(n, max_entries) <= max_entries,
        kept_count(n, max_entries) <= n,
        (kept_count(n, max_entries) < n) == (n > max_entries),
{
}

} // verus!
