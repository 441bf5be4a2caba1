//! The scanned tree: one node per file-system object, with cumulative sizes.
use vstd::prelude::*;

verus! {

/// What a node stands for.
#[derive(Clone, Copy, Debug, PartialEq, Eq, Structural)]
pub enum NodeKind {
    File,
    Directory,
    Symlink,
    Other,
    /// A subtree that could not be read; its size counts as zero.
    Error,
    /// A subtree deliberately not entered: another device, or a link cycle.
    Pruned,
}

/// One file-system object and, for a directory, its children.
pub struct Node {
    pub name: String,
    pub kind: NodeKind,
    pub size: u64,
    pub children: Vec<Node>,
    pub device_id: u64,
}

/// The sum of the sizes in `s`.
pub open spec fn sum_sizes(s: Seq<Node>) -> int
    decreases s.len(),
{
    if s.len() == 0 {
        0
    } else {
        sum_sizes(s.drop_last()) + s.last().size
    }
}

/// `x`, or the largest `u64` where `x` exceeds it.
pub open spec fn saturate(x: int) -> int {
    if x > u64::MAX { u64::MAX as int } else { x }
}

/// Every directory in the tree carries the (saturated) sum of its children's
/// sizes, and only directories have children.
pub open spec fn well_sized(n: Node) -> bool
    decreases n,
{
    &&& (n.kind == NodeKind::Directory ==> n.size == saturate(sum_sizes(n.children@)))
    &&& (n.kind != NodeKind::Directory ==> n.children@.len() == 0)
    &&& forall|i: int|
        0 <= i < n.children@.len() ==> well_sized(#[trigger] n.children@[i])
}

impl Node {
    /// A node without children.
    pub fn leaf(name: String, kind: NodeKind, size: u64, device_id: u64) -> (r: Node)
        requires
            kind != NodeKind::Directory,
        ensures
            r.name@ == name@,
            r.kind == kind,
            r.size == size,
            r.device_id == device_id,
            r.children@.len() == 0,
            well_sized(r),
    {
        Node { name, kind, size, children: Vec::new(), device_id }
    }

    /// A directory whose size is the sum of its children's sizes.
    pub fn directory(name: String, device_id: u64, children: Vec<Node>) -> (r: Node)
        ensures
            r.name@ == name@,
            r.kind == NodeKind::Directory,
            r.device_id == device_id,
            r.children@ == children@,
            r.size == saturate(sum_sizes(children@)),
            (forall|i: int| 0 <= i < children@.len() ==> #[trigger] well_sized(children@[i]))
                ==> well_sized(r),
    {
        let mut total: u64 = 0;
        let mut i: usize = 0;
        while i < children.len()
            invariant
                i <= children@.len(),
                total == saturate(sum_sizes(children@.subrange(0, i as int))),
            decreases children@.len() - i,
        {
            assert(children@.subrange(0, i + 1).drop_last() =~= children@.subrange(0, i as int));
            total = total.saturating_add(children[i].size);
            i = i + 1;
        }
        assert(children@.subrange(0, i as int) =~= children@);
        let ghost cs = children@;
        let r = Node { name, kind: NodeKind::Directory, size: total, children, device_id };
        proof {
            if forall|i: int| 0 <= i < cs.len() ==> #[trigger] well_sized(cs[i]) {
                assert forall|i: int| 0 <= i < r.children@.len() implies well_sized(
                    #[trigger] r.children@[i],
                ) by {
                    assert(well_sized(cs[i]));
                }
            }
        }
        r
    }
}

/// Sizes add up: in a well-sized tree, a directory's size is the sum of its
/// children's sizes, at every level, as long as that sum fits in a `u64`.
pub proof fn lemma_directory_size_is_sum(n: Node)
    requires
        well_sized(n),
        n.kind == NodeKind::Directory,
        sum_sizes(n.children@) <= u64::MAX,
    ensures
        n.size == sum_sizes(n.children@),
        forall|i: int|
            0 <= i < n.children@.len() ==> #[trigger] well_sized(n.children@[i]),
{
}

} // verus!
