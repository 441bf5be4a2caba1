use dutree::listing::{listing_order, plan_level};
use dutree::node::{Node, NodeKind};
use dutree::render::render;
use dutree::scan::{
    EntryInfo, EntryKind, FilesystemBehaviour, Reply, Request, ScanConfig, Scanner,
};
use dutree::size_format::SizeFormat;

fn file(name: &str, size: u64) -> Node {
    Node::leaf(name.to_string(), NodeKind::File, size, 1)
}

fn dir(name: &str, children: Vec<Node>) -> Node {
    Node::directory(name.to_string(), 1, children)
}

fn entry(name: &str, kind: EntryKind, size: u64, device_id: u64, inode: u64) -> EntryInfo {
    EntryInfo { name: name.to_string(), kind, size, device_id, inode }
}

fn config(ignore_dotfiles: bool, follow_symlinks: bool, one_fs: bool) -> ScanConfig {
    ScanConfig {
        ignore_dotfiles,
        follow_symlinks,
        boundary: if one_fs {
            FilesystemBehaviour::OneFileSystemRoot
        } else {
            FilesystemBehaviour::Traverse
        },
    }
}

/// Runs a scan, answering each request from `answer`.
fn run_scan(
    cfg: ScanConfig,
    root: EntryInfo,
    mut answer: impl FnMut(&Request) -> Reply,
) -> Node {
    let (mut scanner, mut req) = Scanner::new(cfg, root);
    let mut steps = 0;
    loop {
        if let Request::Done = req {
            break;
        }
        let reply = answer(&req);
        req = scanner.step(reply);
        steps += 1;
        assert!(steps < 10_000);
    }
    scanner.finish()
}

#[test]
fn directory_size_is_sum_of_children() {
    let tree = dir("r", vec![file("a", 3), dir("d", vec![file("b", 4), file("c", 5)])]);
    assert_eq!(tree.size, 12);
    assert_eq!(tree.children[1].size, 9);
}

#[test]
fn directory_size_saturates() {
    let tree = dir("r", vec![file("a", u64::MAX), file("b", 1)]);
    assert_eq!(tree.size, u64::MAX);
}

#[test]
fn listing_is_size_descending_then_by_name() {
    let kids = vec![file("b", 5), file("a", 5), file("big", 9), file("z", 1), file("c", 5)];
    let order = listing_order(&kids);
    let names: Vec<&str> = order.iter().map(|&i| kids[i].name.as_str()).collect();
    assert_eq!(names, vec!["big", "a", "b", "c", "z"]);
}

#[test]
fn plan_keeps_at_most_max_entries() {
    let kids = vec![file("a", 1), file("b", 2), file("c", 3), file("d", 4)];
    let plan = plan_level(&kids, 3);
    assert_eq!(plan.kept, 3);
    assert_eq!(plan.folded_size, 1);
    let unlimited = plan_level(&kids, -1);
    assert_eq!(unlimited.kept, 4);
    assert_eq!(unlimited.folded_size, 0);
    let none = plan_level(&kids, 0);
    assert_eq!(none.kept, 0);
    assert_eq!(none.folded_size, 10);
}

#[test]
fn three_files_two_entries() {
    let tree = dir("top", vec![file("ten", 10), file("thirty", 30), file("twenty", 20)]);
    let lines = render(&tree, -1, 2, SizeFormat::Raw);
    assert_eq!(
        lines,
        vec![
            "60 top".to_string(),
            "├── 30 thirty".to_string(),
            "├── 20 twenty".to_string(),
            "└── 10 … and 1 more".to_string(),
        ]
    );
}

#[test]
fn depth_zero_shows_root_only() {
    let tree = dir("a", vec![dir("b", vec![dir("c", vec![file("f", 7)]), file("g", 5)])]);
    let lines = render(&tree, 0, 5, SizeFormat::Raw);
    assert_eq!(lines, vec!["12 a".to_string()]);
}

#[test]
fn nested_rows_are_drawn() {
    let tree = dir("a", vec![dir("b", vec![file("f", 7), file("g", 5)]), file("h", 1)]);
    let lines = render(&tree, -1, -1, SizeFormat::Raw);
    assert_eq!(
        lines,
        vec![
            "13 a".to_string(),
            "├── 12 b".to_string(),
            "│   ├── 7 f".to_string(),
            "│   └── 5 g".to_string(),
            "└── 1 h".to_string(),
        ]
    );
    let shallow = render(&tree, 1, -1, SizeFormat::Raw);
    assert_eq!(
        shallow,
        vec!["13 a".to_string(), "├── 12 b".to_string(), "└── 1 h".to_string()]
    );
}

#[test]
fn error_and_pruned_are_marked() {
    let tree = dir(
        "a",
        vec![
            Node::leaf("x".to_string(), NodeKind::Error, 0, 1),
            Node::leaf("y".to_string(), NodeKind::Pruned, 4, 2),
        ],
    );
    let lines = render(&tree, -1, -1, SizeFormat::Human);
    assert_eq!(
        lines,
        vec!["4B a".to_string(), "├── 4B y [pruned]".to_string(), "└── 0B x [error]".to_string()]
    );
}

#[test]
fn other_device_is_pruned_leaf() {
    let root = entry("root", EntryKind::Directory, 0, 1, 10);
    let tree = run_scan(config(true, false, true), root, |req| match req {
        Request::List(path) if path.is_empty() => Reply::Listing(vec![
            entry("mnt", EntryKind::Directory, 500, 2, 20),
            entry("f", EntryKind::File, 7, 1, 11),
        ]),
        Request::List(_) => Reply::Listing(vec![entry("deep", EntryKind::File, 99, 2, 21)]),
        _ => Reply::Nothing,
    });
    assert_eq!(tree.kind, NodeKind::Directory);
    assert_eq!(tree.size, 507);
    let mnt = tree.children.iter().find(|c| c.name == "mnt").unwrap();
    assert_eq!(mnt.kind, NodeKind::Pruned);
    assert_eq!(mnt.size, 500);
    assert!(mnt.children.is_empty());
    let lines = render(&tree, -1, -1, SizeFormat::Raw);
    assert_eq!(
        lines,
        vec!["507 root".to_string(), "├── 500 mnt [pruned]".to_string(), "└── 7 f".to_string()]
    );
}

#[test]
fn same_device_is_entered() {
    let root = entry("root", EntryKind::Directory, 0, 1, 10);
    let tree = run_scan(config(true, false, false), root, |req| match req {
        Request::List(path) if path.is_empty() => {
            Reply::Listing(vec![entry("sub", EntryKind::Directory, 500, 2, 20)])
        },
        Request::List(path) => {
            assert_eq!(path, &vec!["sub".to_string()]);
            Reply::Listing(vec![entry("deep", EntryKind::File, 99, 2, 21)])
        },
        _ => Reply::Nothing,
    });
    assert_eq!(tree.size, 99);
    assert_eq!(tree.children[0].kind, NodeKind::Directory);
    assert_eq!(tree.children[0].children[0].size, 99);
}

#[test]
fn symlink_cycle_is_pruned() {
    let root = entry("root", EntryKind::Directory, 0, 1, 10);
    let tree = run_scan(config(true, true, false), root, |req| match req {
        Request::List(path) if path.is_empty() => Reply::Listing(vec![
            entry("back", EntryKind::Symlink, 4, 1, 30),
            entry("f", EntryKind::File, 8, 1, 11),
        ]),
        Request::Resolve(path) => {
            assert_eq!(path, &vec!["back".to_string()]);
            Reply::Target(entry("back", EntryKind::Directory, 64, 1, 10))
        },
        _ => Reply::Nothing,
    });
    let back = tree.children.iter().find(|c| c.name == "back").unwrap();
    assert_eq!(back.kind, NodeKind::Pruned);
    assert!(back.children.is_empty());
}

#[test]
fn followed_link_to_directory_is_entered() {
    let root = entry("root", EntryKind::Directory, 0, 1, 10);
    let tree = run_scan(config(true, true, false), root, |req| match req {
        Request::List(path) if path.is_empty() => {
            Reply::Listing(vec![entry("link", EntryKind::Symlink, 4, 1, 30)])
        },
        Request::Resolve(_) => Reply::Target(entry("link", EntryKind::Directory, 64, 1, 40)),
        Request::List(_) => Reply::Listing(vec![entry("inner", EntryKind::File, 6, 1, 41)]),
        _ => Reply::Nothing,
    });
    assert_eq!(tree.children[0].kind, NodeKind::Directory);
    assert_eq!(tree.size, 6);
}

#[test]
fn unfollowed_link_keeps_own_size() {
    let root = entry("root", EntryKind::Directory, 0, 1, 10);
    let tree = run_scan(config(true, false, false), root, |req| match req {
        Request::List(_) => Reply::Listing(vec![entry("link", EntryKind::Symlink, 4, 1, 30)]),
        _ => Reply::Nothing,
    });
    assert_eq!(tree.children[0].kind, NodeKind::Symlink);
    assert_eq!(tree.size, 4);
}

#[test]
fn dotfiles_are_skipped_unless_asked() {
    let listing = || {
        vec![entry(".hidden", EntryKind::File, 5, 1, 12), entry("seen", EntryKind::File, 3, 1, 13)]
    };
    let root = entry("root", EntryKind::Directory, 0, 1, 10);
    let tree = run_scan(config(true, false, false), root, |req| match req {
        Request::List(_) => Reply::Listing(listing()),
        _ => Reply::Nothing,
    });
    assert_eq!(tree.children.len(), 1);
    assert_eq!(tree.size, 3);
    let root = entry("root", EntryKind::Directory, 0, 1, 10);
    let all = run_scan(config(false, false, false), root, |req| match req {
        Request::List(_) => Reply::Listing(listing()),
        _ => Reply::Nothing,
    });
    assert_eq!(all.children.len(), 2);
    assert_eq!(all.size, 8);
}

#[test]
fn failures_become_error_nodes() {
    let root = entry("root", EntryKind::Directory, 0, 1, 10);
    let tree = run_scan(config(true, false, false), root, |req| match req {
        Request::List(path) if path.is_empty() => Reply::Listing(vec![
            entry("locked", EntryKind::Directory, 4096, 1, 20),
            entry("gone", EntryKind::Unreadable, 77, 1, 0),
            entry("ok", EntryKind::File, 2, 1, 21),
        ]),
        Request::List(_) => Reply::Failed,
        _ => Reply::Nothing,
    });
    assert_eq!(tree.size, 2);
    assert_eq!(tree.children.len(), 3);
    assert_eq!(tree.children[0].kind, NodeKind::Error);
    assert_eq!(tree.children[0].size, 0);
    assert_eq!(tree.children[1].kind, NodeKind::Error);
    assert_eq!(tree.children[1].size, 0);
}

#[test]
fn file_root_is_single_leaf() {
    let root = entry("f.txt", EntryKind::File, 42, 1, 5);
    let (scanner, req) = Scanner::new(config(true, false, false), root);
    assert!(matches!(req, Request::Done));
    let tree = scanner.finish();
    assert_eq!(tree.kind, NodeKind::File);
    assert_eq!(tree.size, 42);
}

#[test]
fn entries_per_level_are_limited() {
    let inner = dir("d", vec![file("p", 4), file("q", 3), file("r", 2), file("s", 1)]);
    let tree = dir("top", vec![inner, file("a", 6), file("b", 5), file("c", 1)]);
    let lines = render(&tree, -1, 2, SizeFormat::Raw);
    assert_eq!(
        lines,
        vec![
            "22 top".to_string(),
            "├── 10 d".to_string(),
            "│   ├── 4 p".to_string(),
            "│   ├── 3 q".to_string(),
            "│   └── 3 … and 2 more".to_string(),
            "├── 6 a".to_string(),
            "└── 6 … and 2 more".to_string(),
        ]
    );
}

#[test]
fn zero_entries_leaves_only_summary() {
    let tree = dir("top", vec![file("a", 2), file("b", 1)]);
    let lines = render(&tree, -1, 0, SizeFormat::Raw);
    assert_eq!(lines, vec!["3 top".to_string(), "└── 3 … and 2 more".to_string()]);
}

#[test]
fn empty_directory_has_no_rows_below() {
    let tree = dir("empty", vec![]);
    assert_eq!(tree.size, 0);
    let lines = render(&tree, -1, 5, SizeFormat::Human);
    assert_eq!(lines, vec!["0B empty".to_string()]);
}
