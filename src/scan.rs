//! The scanner's decisions. The walk is a state machine: each step takes
//! what the file system answered to the last request and says what to ask
//! for next, building the sized tree on an explicit stack of open
//! directories.
use vstd::prelude::*;
use vstd::string::*;
use crate::node::{Node, NodeKind, well_sized, saturate, sum_sizes};

verus! {

/// What the file system reports of one entry (of the entry itself, without
/// following a link).
#[derive(Clone, Copy, Debug, PartialEq, Eq, Structural)]
pub enum EntryKind {
    File,
    Directory,
    Symlink,
    Other,
    /// Listed, but its metadata could not be read.
    Unreadable,
}

/// One entry of a directory listing, or the metadata of a link's target.
pub struct EntryInfo {
    pub name: String,
    pub kind: EntryKind,
    pub size: u64,
    pub device_id: u64,
    pub inode: u64,
}

/// Whether the walk may leave the root's file system.
#[derive(Clone, Copy, Debug, PartialEq, Eq, Structural)]
pub enum FilesystemBehaviour {
    Traverse,
    OneFileSystemRoot,
}

/// The scanner's policy.
#[derive(Clone, Copy, Debug, PartialEq, Eq, Structural)]
pub struct ScanConfig {
    pub ignore_dotfiles: bool,
    pub follow_symlinks: bool,
    pub boundary: FilesystemBehaviour,
}

/// What becomes of one entry.
#[derive(Clone, Copy, Debug, PartialEq, Eq, Structural)]
pub enum EntryAction {
    /// Left out of the tree.
    Skip,
    /// A node without children of this kind, with the entry's size.
    Leaf(NodeKind),
    /// Shown with its own size but not entered.
    Prune,
    /// A directory to list and enter.
    Descend,
    /// A link whose target must be looked up first.
    Resolve,
}

pub open spec fn is_dotfile(name: Seq<char>) -> bool {
    name.len() > 0 && name[0] == '.'
}

/// The decision for an entry of a listing, before any cycle check.
pub open spec fn entry_action(cfg: ScanConfig, root_device: u64, e: EntryInfo) -> EntryAction {
    if cfg.ignore_dotfiles && is_dotfile(e.name@) {
        EntryAction::Skip
    } else if e.kind == EntryKind::Unreadable {
        EntryAction::Leaf(NodeKind::Error)
    } else if e.kind == EntryKind::Symlink {
        if cfg.follow_symlinks { EntryAction::Resolve } else { EntryAction::Leaf(NodeKind::Symlink) }
    } else if cfg.boundary == FilesystemBehaviour::OneFileSystemRoot && e.device_id != root_device {
        EntryAction::Prune
    } else {
        match e.kind {
            EntryKind::Directory => EntryAction::Descend,
            EntryKind::File => EntryAction::Leaf(NodeKind::File),
            _ => EntryAction::Leaf(NodeKind::Other),
        }
    }
}

/// The decision for a followed link, from its target's metadata: a target
/// already open on the current path is a cycle and is not entered again.
pub open spec fn target_action(
    cfg: ScanConfig,
    root_device: u64,
    t: EntryInfo,
    on_active_path: bool,
) -> EntryAction {
    if on_active_path {
        EntryAction::Prune
    } else if cfg.boundary == FilesystemBehaviour::OneFileSystemRoot && t.device_id != root_device {
        EntryAction::Prune
    } else {
        match t.kind {
            EntryKind::Directory => EntryAction::Descend,
            EntryKind::File => EntryAction::Leaf(NodeKind::File),
            EntryKind::Symlink => EntryAction::Leaf(NodeKind::Symlink),
            EntryKind::Unreadable => EntryAction::Leaf(NodeKind::Error),
            _ => EntryAction::Leaf(NodeKind::Other),
        }
    }
}

/// Whether a name starts with a dot.
pub fn dotfile(name: &String) -> (r: bool)
    ensures
        r == is_dotfile(name@),
{
    let s = name.as_str();
    s.unicode_len() > 0 && s.get_char(0) == '.'
}

/// Decides what to do with an entry of a listing.
pub fn decide_entry(cfg: ScanConfig, root_device: u64, e: &EntryInfo) -> (r: EntryAction)
    ensures
        r == entry_action(cfg, root_device, *e),
{
    if cfg.ignore_dotfiles && dotfile(&e.name) {
        EntryAction::Skip
    } else if e.kind == EntryKind::Unreadable {
        EntryAction::Leaf(NodeKind::Error)
    } else if e.kind == EntryKind::Symlink {
        if cfg.follow_symlinks {
            EntryAction::Resolve
        } else {
            EntryAction::Leaf(NodeKind::Symlink)
        }
    } else if cfg.boundary == FilesystemBehaviour::OneFileSystemRoot && e.device_id != root_device {
        EntryAction::Prune
    } else {
        match e.kind {
            EntryKind::Directory => EntryAction::Descend,
            EntryKind::File => EntryAction::Leaf(NodeKind::File),
            _ => EntryAction::Leaf(NodeKind::Other),
        }
    }
}

/// Decides what to do with a followed link, given its target.
pub fn decide_target(cfg: ScanConfig, root_device: u64, t: &EntryInfo, on_active_path: bool) -> (r:
    EntryAction)
    ensures
        r == target_action(cfg, root_device, *t, on_active_path),
{
    if on_active_path {
        EntryAction::Prune
    } else if cfg.boundary == FilesystemBehaviour::OneFileSystemRoot && t.device_id != root_device {
        EntryAction::Prune
    } else {
        match t.kind {
            EntryKind::Directory => EntryAction::Descend,
            EntryKind::File => EntryAction::Leaf(NodeKind::File),
            EntryKind::Symlink => EntryAction::Leaf(NodeKind::Symlink),
            EntryKind::Unreadable => EntryAction::Leaf(NodeKind::Error),
            _ => EntryAction::Leaf(NodeKind::Other),
        }
    }
}

/// A directory open on the current path, with what is known of it so far.
struct Frame {
    name: String,
    device_id: u64,
    inode: u64,
    entries: Vec<EntryInfo>,
    next: usize,
    children: Vec<Node>,
}

/// What the scanner waits for.
enum Awaiting {
    Nothing,
    /// The listing of a directory to be entered under this name.
    Listing { name: String, device_id: u64, inode: u64 },
    /// The target of a link with this name and own size.
    Target { name: String, size: u64, device_id: u64 },
}

/// What the scanner asks of the file system next. Paths are the names below
/// the root, in order.
pub enum Request {
    /// List the directory at this path.
    List(Vec<String>),
    /// Report the metadata of the link's target at this path.
    Resolve(Vec<String>),
    /// Nothing to read: take the next step.
    Continue,
    /// The tree is complete.
    Done,
}

/// The file system's answer to the last request.
pub enum Reply {
    Listing(Vec<EntryInfo>),
    Target(EntryInfo),
    /// The listing or the lookup failed.
    Failed,
    /// Answer to `Continue`.
    Nothing,
}

/// The walk in progress.
pub struct Scanner {
    cfg: ScanConfig,
    root_device: u64,
    stack: Vec<Frame>,
    awaiting: Awaiting,
    result: Option<Node>,
}

/// What the scanner knows of one open directory.
pub struct OpenDir {
    pub name: Seq<char>,
    pub device_id: u64,
    pub inode: u64,
    /// Its listing.
    pub entries: Seq<EntryInfo>,
    /// How many entries of the listing have been taken.
    pub next: int,
    /// The nodes finished so far.
    pub children: Seq<Node>,
}

/// What the scanner waits for.
pub enum Pending {
    Nothing,
    /// The listing of a directory to be entered under this name.
    Listing { name: Seq<char>, device_id: u64, inode: u64 },
    /// The target of a link with this name and own size.
    Target { name: Seq<char>, size: u64, device_id: u64 },
}

/// The whole state of a walk.
pub struct ScanState {
    /// The open directories, outermost first.
    pub frames: Seq<OpenDir>,
    pub pending: Pending,
    /// The finished tree.
    pub tree: Option<Node>,
}

pub open spec fn ids_of(frames: Seq<OpenDir>) -> Seq<(u64, u64)> {
    frames.map_values(|d: OpenDir| (d.device_id, d.inode))
}

pub open spec fn names_of(v: Seq<String>) -> Seq<Seq<char>> {
    v.map_values(|s: String| s@)
}

/// The path below the root of entry `name` of the innermost directory.
pub open spec fn path_of(frames: Seq<OpenDir>, name: Seq<char>) -> Seq<Seq<char>> {
    frames.skip(1).map_values(|d: OpenDir| d.name).push(name)
}

pub open spec fn with_child(d: OpenDir, n: Node) -> OpenDir {
    OpenDir { children: d.children.push(n), ..d }
}

pub open spec fn bumped(d: OpenDir) -> OpenDir {
    OpenDir { next: d.next + 1, ..d }
}

/// The open directories after `n` is added to the innermost one.
pub open spec fn put_frames(frames: Seq<OpenDir>, n: Node) -> Seq<OpenDir> {
    if frames.len() == 0 {
        frames
    } else {
        frames.update(frames.len() - 1, with_child(frames.last(), n))
    }
}

/// The finished tree after `n` is added: `n` itself when no directory is
/// open.
pub open spec fn put_tree(frames: Seq<OpenDir>, n: Node) -> Option<Node> {
    if frames.len() == 0 { Some(n) } else { None }
}

/// The node that `new` holds where a node added to `frames` goes.
pub open spec fn added(frames: Seq<OpenDir>, new: ScanState) -> Node {
    if frames.len() == 0 {
        new.tree->0
    } else {
        new.frames.last().children.last()
    }
}

/// `new` is `frames` with one node added, and waits for `pending`.
pub open spec fn placed(frames: Seq<OpenDir>, new: ScanState, pending: Pending) -> bool {
    &&& new.frames == put_frames(frames, added(frames, new))
    &&& new.tree == put_tree(frames, added(frames, new))
    &&& new.pending == pending
}

pub open spec fn is_leaf(n: Node, name: Seq<char>, kind: NodeKind, size: u64, device_id: u64) -> bool {
    &&& n.name@ == name
    &&& n.kind == kind
    &&& n.size == size
    &&& n.device_id == device_id
    &&& n.children@.len() == 0
}

pub open spec fn is_dir(n: Node, d: OpenDir) -> bool {
    &&& n.name@ == d.name
    &&& n.kind == NodeKind::Directory
    &&& n.device_id == d.device_id
    &&& n.children@ == d.children
    &&& n.size == saturate(sum_sizes(d.children))
}

/// `new` is `old` waiting for `pending`, with the same directories and tree.
pub open spec fn only_waits(old: ScanState, frames: Seq<OpenDir>, new: ScanState, pending: Pending) -> bool {
    new.frames == frames && new.tree == old.tree && new.pending == pending
}

/// One step of the walk, from `old` with `reply` to `new`, asking `r`.
pub open spec fn step_post(
    cfg: ScanConfig,
    root_device: u64,
    old: ScanState,
    reply: Reply,
    new: ScanState,
    r: Request,
) -> bool {
    match old.pending {
        Pending::Listing { name, device_id, inode } => match reply {
            Reply::Listing(es) => {
                let d = OpenDir { name, device_id, inode, entries: es@, next: 0, children: Seq::empty() };
                only_waits(old, old.frames.push(d), new, Pending::Nothing) && r is Continue
            },
            _ => {
                &&& placed(old.frames, new, Pending::Nothing)
                &&& is_leaf(added(old.frames, new), name, NodeKind::Error, 0, device_id)
                &&& (r is Done) == (old.frames.len() == 0)
                &&& (r is Continue) == (old.frames.len() > 0)
            },
        },
        Pending::Target { name, size, device_id } => match reply {
            Reply::Target(t) => {
                let on = ids_of(old.frames).contains((t.device_id, t.inode));
                match target_action(cfg, root_device, t, on) {
                    EntryAction::Descend => {
                        &&& only_waits(
                            old,
                            old.frames,
                            new,
                            Pending::Listing { name, device_id: t.device_id, inode: t.inode },
                        )
                        &&& r is List
                        &&& names_of(r->List_0@) == path_of(old.frames, name)
                    },
                    EntryAction::Leaf(k) => {
                        &&& placed(old.frames, new, Pending::Nothing)
                        &&& is_leaf(
                            added(old.frames, new),
                            name,
                            k,
                            if k == NodeKind::Error { 0 } else { t.size },
                            t.device_id,
                        )
                        &&& r is Continue
                    },
                    _ => {
                        &&& placed(old.frames, new, Pending::Nothing)
                        &&& is_leaf(
                            added(old.frames, new),
                            name,
                            NodeKind::Pruned,
                            if on { size } else { t.size },
                            device_id,
                        )
                        &&& r is Continue
                    },
                }
            },
            _ => {
                &&& placed(old.frames, new, Pending::Nothing)
                &&& is_leaf(added(old.frames, new), name, NodeKind::Error, 0, device_id)
                &&& r is Continue
            },
        },
        Pending::Nothing => {
            let top = old.frames.last();
            if top.next < top.entries.len() {
                let e = top.entries[top.next];
                let fs = old.frames.update(old.frames.len() - 1, bumped(top));
                let on = ids_of(old.frames).contains((e.device_id, e.inode));
                match entry_action(cfg, root_device, e) {
                    EntryAction::Skip => only_waits(old, fs, new, Pending::Nothing) && r is Continue,
                    EntryAction::Leaf(k) => {
                        &&& placed(fs, new, Pending::Nothing)
                        &&& is_leaf(
                            added(fs, new),
                            e.name@,
                            k,
                            if k == NodeKind::Error { 0 } else { e.size },
                            e.device_id,
                        )
                        &&& r is Continue
                    },
                    EntryAction::Resolve => {
                        &&& only_waits(
                            old,
                            fs,
                            new,
                            Pending::Target { name: e.name@, size: e.size, device_id: e.device_id },
                        )
                        &&& r is Resolve
                        &&& names_of(r->Resolve_0@) == path_of(old.frames, e.name@)
                    },
                    EntryAction::Descend if !on => {
                        &&& only_waits(
                            old,
                            fs,
                            new,
                            Pending::Listing { name: e.name@, device_id: e.device_id, inode: e.inode },
                        )
                        &&& r is List
                        &&& names_of(r->List_0@) == path_of(old.frames, e.name@)
                    },
                    _ => {
                        &&& placed(fs, new, Pending::Nothing)
                        &&& is_leaf(added(fs, new), e.name@, NodeKind::Pruned, e.size, e.device_id)
                        &&& r is Continue
                    },
                }
            } else {
                let fs = old.frames.drop_last();
                &&& placed(fs, new, Pending::Nothing)
                &&& is_dir(added(fs, new), top)
                &&& (r is Done) == (fs.len() == 0)
                &&& (r is Continue) == (fs.len() > 0)
            }
        },
    }
}

/// No identity occurs twice in `ids`.
pub open spec fn distinct_ids(ids: Seq<(u64, u64)>) -> bool {
    forall|i: int, j: int| 0 <= i < j < ids.len() ==> ids[i] != ids[j]
}

/// No directory in the tree lies on a device other than `dev`.
pub open spec fn stays_on_device(n: Node, dev: u64) -> bool
    decreases n,
{
    &&& (n.kind == NodeKind::Directory ==> n.device_id == dev)
    &&& forall|i: int|
        0 <= i < n.children@.len() ==> stays_on_device(#[trigger] n.children@[i], dev)
}

/// No node below `n` has a name that starts with a dot.
pub open spec fn hides_dotfiles(n: Node) -> bool
    decreases n,
{
    forall|i: int|
        0 <= i < n.children@.len() ==> !is_dotfile(n.children@[i].name@) && hides_dotfiles(
            #[trigger] n.children@[i],
        )
}

spec fn frame_hidden(fr: Frame) -> bool {
    forall|i: int|
        0 <= i < fr.children@.len() ==> !is_dotfile(fr.children@[i].name@) && hides_dotfiles(
            #[trigger] fr.children@[i],
        )
}

spec fn frame_bounded(fr: Frame, dev: u64) -> bool {
    &&& fr.device_id == dev
    &&& forall|i: int|
        0 <= i < fr.children@.len() ==> #[trigger] stays_on_device(fr.children@[i], dev)
}

spec fn open_dir(f: Frame) -> OpenDir {
    OpenDir {
        name: f.name@,
        device_id: f.device_id,
        inode: f.inode,
        entries: f.entries@,
        next: f.next as int,
        children: f.children@,
    }
}

spec fn pending_of(a: Awaiting) -> Pending {
    match a {
        Awaiting::Nothing => Pending::Nothing,
        Awaiting::Listing { name, device_id, inode } => Pending::Listing { name: name@, device_id, inode },
        Awaiting::Target { name, size, device_id } => Pending::Target { name: name@, size, device_id },
    }
}

/// The kind of the node for a root that is no directory.
pub open spec fn root_kind(k: EntryKind) -> NodeKind {
    match k {
        EntryKind::File => NodeKind::File,
        EntryKind::Symlink => NodeKind::Symlink,
        _ => NodeKind::Other,
    }
}

spec fn frame_ok(fr: Frame) -> bool {
    &&& fr.next <= fr.entries@.len()
    &&& forall|i: int| 0 <= i < fr.children@.len() ==> #[trigger] well_sized(fr.children@[i])
}

/// Adding a well-sized child that meets the policy keeps a frame's
/// invariants.
proof fn lemma_child_added(before: Frame, after: Frame, c: Node, one_fs: bool, no_dots: bool, rd: u64)
    requires
        frame_ok(before),
        after.next <= after.entries@.len(),
        after.device_id == before.device_id,
        after.children@ == before.children@.push(c),
        well_sized(c),
        one_fs ==> frame_bounded(before, rd) && stays_on_device(c, rd),
        no_dots ==> frame_hidden(before) && !is_dotfile(c.name@) && hides_dotfiles(c),
    ensures
        frame_ok(after),
        one_fs ==> frame_bounded(after, rd),
        no_dots ==> frame_hidden(after),
{
    assert forall|i: int| 0 <= i < after.children@.len() implies #[trigger] well_sized(
        after.children@[i],
    ) by {
        if i < before.children@.len() {
            assert(well_sized(before.children@[i]));
        }
    }
    if one_fs {
        assert forall|i: int| 0 <= i < after.children@.len() implies #[trigger] stays_on_device(
            after.children@[i],
            rd,
        ) by {
            if i < before.children@.len() {
                assert(stays_on_device(before.children@[i], rd));
            }
        }
    }
    if no_dots {
        assert forall|i: int| 0 <= i < after.children@.len() implies !is_dotfile(
            after.children@[i].name@,
        ) && hides_dotfiles(#[trigger] after.children@[i]) by {
            if i < before.children@.len() {
                assert(hides_dotfiles(before.children@[i]));
            }
        }
    }
}

/// A frame whose children are unchanged keeps its invariants.
proof fn lemma_children_kept(before: Frame, after: Frame, one_fs: bool, no_dots: bool, rd: u64)
    requires
        frame_ok(before),
        after.next <= after.entries@.len(),
        after.device_id == before.device_id,
        after.children@ == before.children@,
        one_fs ==> frame_bounded(before, rd),
        no_dots ==> frame_hidden(before),
    ensures
        frame_ok(after),
        one_fs ==> frame_bounded(after, rd),
        no_dots ==> frame_hidden(after),
{
}

impl Scanner {
    /// The (device, inode) pairs of the directories open on the current
    /// path, outermost first.
    pub closed spec fn active_path(&self) -> Seq<(u64, u64)> {
        self.stack@.map_values(|f: Frame| (f.device_id, f.inode))
    }

    /// What the walk holds and waits for.
    pub closed spec fn state(&self) -> ScanState {
        ScanState {
            frames: self.stack@.map_values(|f: Frame| open_dir(f)),
            pending: pending_of(self.awaiting),
            tree: self.result,
        }
    }

    /// The policy the walk runs under.
    pub closed spec fn config(&self) -> ScanConfig {
        self.cfg
    }

    /// The device of the root.
    pub closed spec fn root_device(&self) -> u64 {
        self.root_device
    }

    /// Under `OneFileSystemRoot`, everything open or finished stays on the
    /// root's device.
    closed spec fn bounded(&self) -> bool {
        self.cfg.boundary == FilesystemBehaviour::OneFileSystemRoot ==> {
            &&& forall|i: int|
                0 <= i < self.stack@.len() ==> #[trigger] frame_bounded(
                    self.stack@[i],
                    self.root_device,
                )
            &&& (self.awaiting is Listing ==> self.awaiting->Listing_device_id == self.root_device)
            &&& (self.result is Some ==> stays_on_device(self.result->0, self.root_device))
        }
    }

    /// Under `ignore_dotfiles`, nothing below the root starts with a dot.
    closed spec fn dotfree(&self) -> bool {
        self.cfg.ignore_dotfiles ==> {
            &&& forall|i: int|
                0 <= i < self.stack@.len() ==> #[trigger] frame_hidden(self.stack@[i])
            &&& forall|i: int|
                1 <= i < self.stack@.len() ==> !is_dotfile(#[trigger] self.stack@[i].name@)
            &&& (self.awaiting is Listing && self.stack@.len() > 0 ==> !is_dotfile(
                self.awaiting->Listing_name@,
            ))
            &&& (self.awaiting is Target ==> !is_dotfile(self.awaiting->Target_name@))
            &&& (self.result is Some ==> hides_dotfiles(self.result->0))
        }
    }

    /// The scanner's invariant.
    pub closed spec fn wf(&self) -> bool {
        &&& self.dotfree()
        &&& self.bounded()
        &&& forall|i: int| 0 <= i < self.stack@.len() ==> #[trigger] frame_ok(self.stack@[i])
        &&& distinct_ids(self.active_path())
        &&& (self.result is Some ==> well_sized(self.result->0) && self.stack@.len() == 0)
        &&& (self.result is None && self.awaiting is Nothing ==> self.stack@.len() > 0)
        &&& (self.awaiting is Target ==> self.stack@.len() > 0)
        &&& (self.awaiting is Listing ==> !self.active_path().contains(
            (self.awaiting->Listing_device_id, self.awaiting->Listing_inode),
        ))
    }

    /// The tree is complete.
    pub closed spec fn finished(&self) -> bool {
        self.result is Some
    }

    /// Starts a walk at the root, whose metadata has been read.
    pub fn new(cfg: ScanConfig, root: EntryInfo) -> (r: (Scanner, Request))
        ensures
            r.0.wf(),
            (r.1 is Done) == r.0.finished(),
            r.0.config() == cfg,
            r.0.root_device() == root.device_id,
            root.kind == EntryKind::Directory ==> {
                &&& r.1 is List
                &&& r.1->List_0@.len() == 0
                &&& r.0.state().frames.len() == 0
                &&& r.0.state().tree is None
                &&& r.0.state().pending == Pending::Listing {
                    name: root.name@,
                    device_id: root.device_id,
                    inode: root.inode,
                }
            },
            root.kind != EntryKind::Directory ==> {
                &&& r.1 is Done
                &&& r.0.state().tree is Some
                &&& is_leaf(
                    r.0.state().tree->0,
                    root.name@,
                    root_kind(root.kind),
                    root.size,
                    root.device_id,
                )
            },
    {
        let root_device = root.device_id;
        if root.kind == EntryKind::Directory {
            let s = Scanner {
                cfg,
                root_device,
                stack: Vec::new(),
                awaiting: Awaiting::Listing {
                    name: root.name,
                    device_id: root.device_id,
                    inode: root.inode,
                },
                result: None,
            };
            assert(s.active_path() =~= Seq::empty());
            (s, Request::List(Vec::new()))
        } else {
            let kind = match root.kind {
                EntryKind::File => NodeKind::File,
                EntryKind::Symlink => NodeKind::Symlink,
                _ => NodeKind::Other,
            };
            let leaf = Node::leaf(root.name, kind, root.size, root.device_id);
            proof {
                reveal_with_fuel(stays_on_device, 1);
            }
            let s = Scanner {
                cfg,
                root_device,
                stack: Vec::new(),
                awaiting: Awaiting::Nothing,
                result: Some(leaf),
            };
            assert(s.active_path() =~= Seq::empty());
            (s, Request::Done)
        }
    }

    /// Whether a directory with this identity is open on the current path.
    fn active(&self, device_id: u64, inode: u64) -> (r: bool)
        ensures
            r == self.active_path().contains((device_id, inode)),
    {
        let mut i: usize = 0;
        while i < self.stack.len()
            invariant
                i <= self.stack@.len(),
                forall|j: int| 0 <= j < i ==> self.active_path()[j] != (device_id, inode),
            decreases self.stack@.len() - i,
        {
            if self.stack[i].device_id == device_id && self.stack[i].inode == inode {
                assert(self.active_path()[i as int] == (device_id, inode));
                return true;
            }
            i = i + 1;
        }
        false
    }

    /// The path below the root of entry `name` of the innermost open
    /// directory.
    fn path_to(&self, name: &String) -> (r: Vec<String>)
        requires
            self.stack@.len() > 0,
        ensures
            r@.len() == self.stack@.len(),
            r@.last()@ == name@,
            names_of(r@) == path_of(self.state().frames, name@),
    {
        let mut path: Vec<String> = Vec::new();
        let mut i: usize = 1;
        while i < self.stack.len()
            invariant
                1 <= i <= self.stack@.len(),
                path@.len() == i - 1,
                names_of(path@) == self.state().frames.subrange(1, i as int).map_values(
                    |d: OpenDir| d.name,
                ),
            decreases self.stack@.len() - i,
        {
            let ghost before = path@;
            path.push(self.stack[i].name.clone());
            assert(names_of(path@) =~= names_of(before).push(self.stack@[i as int].name@));
            assert(self.state().frames.subrange(1, i + 1).map_values(|d: OpenDir| d.name)
                =~= self.state().frames.subrange(1, i as int).map_values(|d: OpenDir| d.name).push(
                self.stack@[i as int].name@,
            ));
            i = i + 1;
        }
        let ghost before = path@;
        path.push(name.clone());
        assert(self.state().frames.subrange(1, i as int) =~= self.state().frames.skip(1));
        assert(names_of(path@) =~= names_of(before).push(name@));
        path
    }

    /// Adds a finished node to the innermost open directory, or makes it the
    /// result when none is open.
    fn complete(&mut self, node: Node)
        requires
            well_sized(node),
            old(self).result is None,
            forall|i: int| 0 <= i < old(self).stack@.len() ==> #[trigger] frame_ok(old(self).stack@[i]),
            distinct_ids(old(self).active_path()),
            old(self).cfg.boundary == FilesystemBehaviour::OneFileSystemRoot ==> {
                &&& stays_on_device(node, old(self).root_device)
                &&& forall|i: int|
                    0 <= i < old(self).stack@.len() ==> #[trigger] frame_bounded(
                        old(self).stack@[i],
                        old(self).root_device,
                    )
            },
            old(self).cfg.ignore_dotfiles ==> {
                &&& hides_dotfiles(node)
                &&& (old(self).stack@.len() > 0 ==> !is_dotfile(node.name@))
                &&& forall|i: int|
                    0 <= i < old(self).stack@.len() ==> #[trigger] frame_hidden(old(self).stack@[i])
            },
        ensures
            final(self).awaiting == old(self).awaiting,
            final(self).state().frames == put_frames(old(self).state().frames, node),
            final(self).result == put_tree(old(self).state().frames, node),
            forall|i: int|
                0 <= i < final(self).stack@.len() ==> (#[trigger] final(self).stack@[i]).name
                    == old(self).stack@[i].name,
            final(self).active_path() == old(self).active_path(),
            final(self).stack@.len() == old(self).stack@.len(),
            forall|i: int| 0 <= i < final(self).stack@.len() ==> #[trigger] frame_ok(final(self).stack@[i]),
            (final(self).result is Some) == (old(self).stack@.len() == 0),
            final(self).result is Some ==> well_sized(final(self).result->0),
            final(self).cfg == old(self).cfg,
            final(self).root_device == old(self).root_device,
            final(self).cfg.boundary == FilesystemBehaviour::OneFileSystemRoot ==> {
                &&& forall|i: int|
                    0 <= i < final(self).stack@.len() ==> #[trigger] frame_bounded(
                        final(self).stack@[i],
                        final(self).root_device,
                    )
                &&& (final(self).result is Some ==> stays_on_device(
                    final(self).result->0,
                    final(self).root_device,
                ))
            },
            final(self).cfg.ignore_dotfiles ==> {
                &&& forall|i: int|
                    0 <= i < final(self).stack@.len() ==> #[trigger] frame_hidden(final(self).stack@[i])
                &&& (final(self).result is Some ==> hides_dotfiles(final(self).result->0))
            },
    {
        let ghost one_fs = self.cfg.boundary == FilesystemBehaviour::OneFileSystemRoot;
        let ghost no_dots = self.cfg.ignore_dotfiles;
        let ghost rd = self.root_device;
        match self.stack.pop() {
            None => {
                self.result = Some(node);
            },
            Some(mut fr) => {
                let ghost before = fr;
                fr.children.push(node);
                proof {
                    assert(frame_ok(before));
                    if one_fs {
                        assert(frame_bounded(before, rd));
                    }
                    if no_dots {
                        assert(frame_hidden(before));
                    }
                    lemma_child_added(before, fr, node, one_fs, no_dots, rd);
                }
                let ghost popped = self.stack@;
                self.stack.push(fr);
                assert(self.active_path() =~= old(self).active_path());
                assert(self.state().frames =~= put_frames(old(self).state().frames, node));
                proof {
                    if no_dots {
                        assert forall|i: int| 0 <= i < self.stack@.len() implies #[trigger] frame_hidden(
                            self.stack@[i],
                        ) by {
                            if i < popped.len() {
                                assert(frame_hidden(old(self).stack@[i]));
                            }
                        }
                    }
                }
                proof {
                    if one_fs {
                        assert forall|i: int| 0 <= i < self.stack@.len() implies #[trigger] frame_bounded(
                            self.stack@[i],
                            rd,
                        ) by {
                            if i < popped.len() {
                                assert(frame_bounded(old(self).stack@[i], rd));
                            }
                        }
                    }
                }
                assert forall|i: int| 0 <= i < self.stack@.len() implies #[trigger] frame_ok(
                    self.stack@[i],
                ) by {
                    if i < popped.len() {
                        assert(frame_ok(old(self).stack@[i]));
                    }
                }
            },
        }
    }
    /// Takes the next entry of the innermost open directory, or closes it
    /// when none is left.
    fn advance(&mut self) -> (r: Request)
        requires
            old(self).wf(),
            !old(self).finished(),
            old(self).awaiting is Nothing,
        ensures
            final(self).wf(),
            (r is Done) == final(self).finished(),
            final(self).config() == old(self).config(),
            final(self).root_device() == old(self).root_device(),
            r is List ==> r->List_0@.len() == final(self).active_path().len(),
            r is Resolve ==> r->Resolve_0@.len() == final(self).active_path().len(),
            step_post(
                old(self).cfg,
                old(self).root_device,
                old(self).state(),
                Reply::Nothing,
                final(self).state(),
                r,
            ),
    {
        let ghost one_fs = self.cfg.boundary == FilesystemBehaviour::OneFileSystemRoot;
        let ghost no_dots = self.cfg.ignore_dotfiles;
        let ghost rd = self.root_device;
        let ghost old_state = self.state();
        assert(self.active_path() =~= ids_of(old_state.frames));
        let n = self.stack.len();
        assert(frame_ok(self.stack@[n - 1]));
        let top = &self.stack[n - 1];
        if top.next < top.entries.len() {
            let e = &top.entries[top.next];
            let action = decide_entry(self.cfg, self.root_device, e);
            let on = self.active(e.device_id, e.inode);
            let name = e.name.clone();
            let size = e.size;
            let dev = e.device_id;
            let ino = e.inode;
            let path = self.path_to(&name);
            let ghost old_stack = self.stack@;
            let ghost old_path = self.active_path();
            let ghost fs = old_state.frames.update(n - 1, bumped(old_state.frames.last()));
            let mut fr = self.stack.pop().unwrap();
            let ghost popped = fr;
            fr.next = fr.next + 1;
            assert(open_dir(fr) == bumped(old_state.frames.last()));
            let mut req = Request::Continue;
            match action {
                EntryAction::Skip => {},
                EntryAction::Leaf(k) => {
                    let shown = if k == NodeKind::Error { 0 } else { size };
                    fr.children.push(Node::leaf(name, k, shown, dev));
                },
                EntryAction::Prune => {
                    fr.children.push(Node::leaf(name, NodeKind::Pruned, size, dev));
                },
                EntryAction::Descend => {
                    // A directory already open on this path (reached through
                    // a hard link or a bind mount) would never close.
                    if on {
                        fr.children.push(Node::leaf(name, NodeKind::Pruned, size, dev));
                    } else {
                        self.awaiting = Awaiting::Listing { name, device_id: dev, inode: ino };
                        req = Request::List(path);
                    }
                },
                EntryAction::Resolve => {
                    self.awaiting = Awaiting::Target { name, size, device_id: dev };
                    req = Request::Resolve(path);
                },
            }
            proof {
                assert(frame_ok(popped));
                if one_fs {
                    assert(frame_bounded(popped, rd));
                }
                if no_dots {
                    assert(frame_hidden(popped));
                }
                if fr.children@.len() > popped.children@.len() {
                    let c = fr.children@.last();
                    assert(fr.children@ =~= popped.children@.push(c));
                    reveal_with_fuel(stays_on_device, 1);
                    reveal_with_fuel(hides_dotfiles, 1);
                    lemma_child_added(popped, fr, c, one_fs, no_dots, rd);
                } else {
                    lemma_children_kept(popped, fr, one_fs, no_dots, rd);
                }
            }
            self.stack.push(fr);
            proof {
                if no_dots {
                    assert forall|i: int| 0 <= i < self.stack@.len() implies #[trigger] frame_hidden(
                        self.stack@[i],
                    ) by {
                        if i < n - 1 {
                            assert(frame_hidden(old_stack[i]));
                        }
                    }
                    assert forall|i: int| 1 <= i < self.stack@.len() implies !is_dotfile(
                        #[trigger] self.stack@[i].name@,
                    ) by {
                        assert(self.stack@[i].name == old_stack[i].name);
                    }
                }
            }
            proof {
                if one_fs {
                    assert forall|i: int| 0 <= i < self.stack@.len() implies #[trigger] frame_bounded(
                        self.stack@[i],
                        rd,
                    ) by {
                        if i < n - 1 {
                            assert(frame_bounded(old_stack[i], rd));
                        }
                    }
                }
            }
            assert(self.active_path() =~= old_path);
            proof {
                if fr.children@.len() > popped.children@.len() {
                    assert(open_dir(fr) == with_child(bumped(old_state.frames.last()), fr.children@.last()));
                    assert(self.state().frames =~= put_frames(fs, fr.children@.last()));
                } else {
                    assert(fr.children@ =~= popped.children@);
                    assert(self.state().frames =~= fs);
                }
            }
            assert forall|i: int| 0 <= i < self.stack@.len() implies #[trigger] frame_ok(
                self.stack@[i],
            ) by {
                if i < n - 1 {
                    assert(frame_ok(old_stack[i]));
                }
            }
            req
        } else {
            let ghost old_stack = self.stack@;
            let fr = self.stack.pop().unwrap();
            assert(frame_ok(fr));
            let ghost closed = fr;
            let Frame { name, device_id, children, .. } = fr;
            let node = Node::directory(name, device_id, children);
            proof {
                if one_fs {
                    assert(frame_bounded(closed, rd));
                    assert(node.device_id == rd);
                    assert forall|i: int| 0 <= i < node.children@.len() implies stays_on_device(
                        #[trigger] node.children@[i],
                        rd,
                    ) by {
                        assert(stays_on_device(closed.children@[i], rd));
                    }
                    reveal_with_fuel(stays_on_device, 1);
                    assert(stays_on_device(node, rd));
                    assert forall|i: int| 0 <= i < self.stack@.len() implies #[trigger] frame_bounded(
                        self.stack@[i],
                        rd,
                    ) by {
                        assert(frame_bounded(old_stack[i], rd));
                    }
                }
                if no_dots {
                    assert(frame_hidden(closed));
                    assert forall|i: int| 0 <= i < node.children@.len() implies !is_dotfile(
                        node.children@[i].name@,
                    ) && hides_dotfiles(#[trigger] node.children@[i]) by {
                        assert(!is_dotfile(closed.children@[i].name@) && hides_dotfiles(
                            closed.children@[i],
                        ));
                    }
                    reveal_with_fuel(hides_dotfiles, 1);
                    assert(hides_dotfiles(node));
                    if self.stack@.len() > 0 {
                        assert(!is_dotfile(old_stack[n - 1].name@));
                    }
                    assert forall|i: int| 0 <= i < self.stack@.len() implies #[trigger] frame_hidden(
                        self.stack@[i],
                    ) by {
                        assert(frame_hidden(old_stack[i]));
                    }
                }
            }
            assert(self.active_path() =~= old_stack.map_values(|f: Frame| (f.device_id, f.inode)).drop_last());
            assert forall|i: int| 0 <= i < self.stack@.len() implies #[trigger] frame_ok(
                self.stack@[i],
            ) by {
                assert(frame_ok(old_stack[i]));
            }
            assert(self.state().frames =~= old_state.frames.drop_last());
            assert(open_dir(closed) == old_state.frames.last());
            self.complete(node);
            proof {
                let fs = old_state.frames.drop_last();
                if fs.len() > 0 {
                    assert(put_frames(fs, node).last().children.last() == node);
                }
                assert(added(fs, self.state()) == node);
            }
            if self.result.is_some() {
                Request::Done
            } else {
                Request::Continue
            }
        }
    }

    /// Takes the answer to the last request and says what to do next.
    pub fn step(&mut self, reply: Reply) -> (r: Request)
        requires
            old(self).wf(),
            !old(self).finished(),
        ensures
            final(self).wf(),
            (r is Done) == final(self).finished(),
            final(self).config() == old(self).config(),
            final(self).root_device() == old(self).root_device(),
            r is List ==> r->List_0@.len() == final(self).active_path().len(),
            r is Resolve ==> r->Resolve_0@.len() == final(self).active_path().len(),
            step_post(
                old(self).config(),
                old(self).root_device(),
                old(self).state(),
                reply,
                final(self).state(),
                r,
            ),
    {
        let ghost old_state = self.state();
        assert(self.active_path() =~= ids_of(old_state.frames));
        let ghost one_fs = self.cfg.boundary == FilesystemBehaviour::OneFileSystemRoot;
        let ghost rd = self.root_device;
        let ghost old_awaiting = self.awaiting;
        let mut aw = Awaiting::Nothing;
        std::mem::swap(&mut aw, &mut self.awaiting);
        match aw {
            Awaiting::Listing { name, device_id, inode } => {
                match reply {
                    Reply::Listing(entries) => {
                        let ghost old_stack = self.stack@;
                        let ghost old_path = self.active_path();
                        let fr = Frame { name, device_id, inode, entries, next: 0, children: Vec::new() };
                        let ghost d = open_dir(fr);
                        self.stack.push(fr);
                        assert(self.active_path() =~= old_path.push((device_id, inode)));
                        assert(self.state().frames =~= old_state.frames.push(d));
                        assert forall|i: int| 0 <= i < self.stack@.len() implies #[trigger] frame_ok(
                            self.stack@[i],
                        ) by {
                            if i < old_stack.len() {
                                assert(frame_ok(old_stack[i]));
                            }
                        }
                        assert forall|i: int, j: int|
                            0 <= i < j < self.active_path().len() implies self.active_path()[i]
                            != self.active_path()[j] by {
                            if j == old_path.len() {
                                assert(old_path[i] == self.active_path()[i]);
                            }
                        }
                        Request::Continue
                    },
                    _ => {
                        self.complete(Node::leaf(name, NodeKind::Error, 0, device_id));
                        if self.result.is_some() {
                            Request::Done
                        } else {
                            Request::Continue
                        }
                    },
                }
            },
            Awaiting::Target { name, size, device_id } => {
                match reply {
                    Reply::Target(t) => {
                        let on = self.active(t.device_id, t.inode);
                        match decide_target(self.cfg, self.root_device, &t, on) {
                            EntryAction::Descend => {
                                let path = self.path_to(&name);
                                self.awaiting = Awaiting::Listing {
                                    name,
                                    device_id: t.device_id,
                                    inode: t.inode,
                                };
                                Request::List(path)
                            },
                            EntryAction::Leaf(k) => {
                                let shown = if k == NodeKind::Error { 0 } else { t.size };
                                self.complete(Node::leaf(name, k, shown, t.device_id));
                                Request::Continue
                            },
                            _ => {
                                // A cycle shows the link itself; a target on
                                // another device shows its own size.
                                let shown = if on { size } else { t.size };
                                self.complete(Node::leaf(name, NodeKind::Pruned, shown, device_id));
                                Request::Continue
                            },
                        }
                    },
                    _ => {
                        self.complete(Node::leaf(name, NodeKind::Error, 0, device_id));
                        Request::Continue
                    },
                }
            },
            Awaiting::Nothing => self.advance(),
        }
    }

    /// The finished tree.
    pub fn finish(self) -> (r: Node)
        requires
            self.wf(),
            self.finished(),
        ensures
            r == self.state().tree->0,
            well_sized(r),
            self.config().boundary == FilesystemBehaviour::OneFileSystemRoot ==> stays_on_device(
                r,
                self.root_device(),
            ),
            self.config().ignore_dotfiles ==> hides_dotfiles(r),
    {
        self.result.unwrap()
    }
}

/// The walk never enters a directory twice on one path: the directories
/// open at any time have pairwise distinct identities, so a link back to one
/// of them is pruned rather than followed.
pub proof fn lemma_no_reentry(s: Scanner, cfg: ScanConfig, root_device: u64, t: EntryInfo)
    requires
        s.wf(),
    ensures
        distinct_ids(s.active_path()),
        target_action(cfg, root_device, t, true) == EntryAction::Prune,
{
}

} // verus!
