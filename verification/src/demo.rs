use vstd::prelude::*;

use crate::app::{App, Focus};
use crate::model::{ids_under, lemma_ids_under_new, lemma_ids_under_push, lists_in_id_order, FileNode, FileTree, NodeId, NodeKind};
use crate::path::{join_path, joined};

verus! {

/// Bytes in a gigabyte.
pub const GB: u64 = 1024 * 1024 * 1024;

/// Bytes in a megabyte.
pub const MB: u64 = 1024 * 1024;

/// Adding a fresh leaf under `parent` keeps a tree a tree: `new` is `old`
/// with the leaf appended and listed last among `parent`'s children.
pub proof fn lemma_add_leaf_keeps_wf(old: FileTree, new: FileTree, parent: NodeId, id: NodeId)
    requires
        old.wf(),
        old.valid_id(parent),
        id == NodeId(old.len() as usize),
        new.len() == old.len() + 1,
        new.len() <= usize::MAX,
        new.root_id() == old.root_id(),
        new.node(id).id == id,
        new.node(id).parent == Some(parent),
        new.child_list(id).len() == 0,
        new.child_list(parent) == old.child_list(parent).push(id),
        forall|i: int| 0 <= i < old.len() && i != parent.0 ==> #[trigger] new.nodes()[i] == old.nodes()[i],
        new.node(parent).id == old.node(parent).id,
        new.node(parent).parent == old.node(parent).parent,
    ensures
        new.wf(),
{
    let n = old.len() as int;
    assert forall|i: int| 0 <= i < new.len() implies (#[trigger] new.nodes()[i]).id == NodeId(i as usize) by {
        if i < n && i != parent.0 {
            assert(old.nodes()[i].id == NodeId(i as usize));
        } else if i == parent.0 {
            assert(old.nodes()[i].id == NodeId(i as usize));
        }
    }
    assert forall|i: int|
        #![trigger new.nodes()[i].parent]
        0 <= i < new.len() implies match new.nodes()[i].parent {
            Some(p) => p.0 < i && new.nodes()[p.0 as int].children@.contains(NodeId(i as usize)),
            None => i == 0,
        } by {
        if i == n {
            assert(new.nodes()[i] == new.node(id));
            assert(new.child_list(parent)[old.child_list(parent).len() as int] == id);
        } else {
            assert(old.nodes()[i].parent == new.nodes()[i].parent);
            match old.nodes()[i].parent {
                Some(p) => {
                    if p == parent {
                        let k = choose|k: int| 0 <= k < old.child_list(parent).len() && old.child_list(parent)[k] == NodeId(i as usize);
                        assert(new.child_list(parent)[k] == NodeId(i as usize));
                    } else {
                        assert(new.nodes()[p.0 as int] == old.nodes()[p.0 as int]);
                    }
                },
                None => {},
            }
        }
    }
    assert forall|i: int, k: int|
        #![trigger new.nodes()[i].children@[k]]
        0 <= i < new.len() && 0 <= k < new.nodes()[i].children@.len() implies {
            let c = new.nodes()[i].children@[k];
            &&& i < c.0 < new.len()
            &&& new.nodes()[c.0 as int].parent == Some(NodeId(i as usize))
        } by {
        if i == n {
            assert(new.nodes()[i] == new.node(id));
        } else if i == parent.0 {
            if k < old.child_list(parent).len() {
                let c = old.nodes()[i].children@[k];
                assert(new.nodes()[i].children@[k] == c);
                assert(old.nodes()[c.0 as int].parent == Some(NodeId(i as usize)));
                if c.0 != parent.0 {
                    assert(new.nodes()[c.0 as int] == old.nodes()[c.0 as int]);
                }
            } else {
                assert(new.nodes()[i].children@[k] == id);
                assert(new.nodes()[n] == new.node(id));
                assert(NodeId(i as usize) == parent);
            }
        } else {
            assert(new.nodes()[i] == old.nodes()[i]);
            let c = old.nodes()[i].children@[k];
            assert(old.nodes()[c.0 as int].parent == Some(NodeId(i as usize)));
            if c.0 != parent.0 {
                assert(new.nodes()[c.0 as int] == old.nodes()[c.0 as int]);
            }
        }
    }
    assert forall|i: int, k1: int, k2: int|
        0 <= i < new.len() && 0 <= k1 < k2 < new.nodes()[i].children@.len()
            implies #[trigger] new.nodes()[i].children@[k1] != #[trigger] new.nodes()[i].children@[k2] by {
        if i == n {
            assert(new.nodes()[i] == new.node(id));
        } else if i == parent.0 {
            assert(old.nodes()[i].children@[k1] == new.nodes()[i].children@[k1]);
            if k2 < old.child_list(parent).len() {
                assert(old.nodes()[i].children@[k2] == new.nodes()[i].children@[k2]);
            } else {
                let c = old.nodes()[i].children@[k1];
                assert(c.0 < n);
            }
        } else {
            assert(new.nodes()[i] == old.nodes()[i]);
        }
    }
}

/// The entries of the simulated disk below its root, in the order they
/// are added, entry `k` becoming node `k + 1`: the id of its parent, its
/// name, its kind and its size.
pub open spec fn demo_entries() -> Seq<(usize, Seq<char>, NodeKind, u64)> {
    seq![
        (0, "Users"@, NodeKind::Directory, (198 * GB) as u64),
        (0, "Projects"@, NodeKind::Directory, (96 * GB) as u64),
        (0, "Containers"@, NodeKind::Directory, (72 * GB) as u64),
        (0, "Applications"@, NodeKind::Directory, (48 * GB) as u64),
        (0, "System"@, NodeKind::Directory, (42 * GB) as u64),
        (0, "Media Cache"@, NodeKind::Directory, (31 * GB) as u64),
        (0, "Library"@, NodeKind::Directory, (18 * GB) as u64),
        (0, "hidden space"@, NodeKind::Directory, (7 * GB) as u64),
        (1, "dunc"@, NodeKind::Directory, (122 * GB) as u64),
        (1, "Shared"@, NodeKind::Directory, (38 * GB) as u64),
        (1, "Downloads"@, NodeKind::Directory, (24 * GB) as u64),
        (1, "photo-library.photoslibrary"@, NodeKind::File, (14 * GB) as u64),
        (2, "rust"@, NodeKind::Directory, (35 * GB) as u64),
        (2, "video-renders"@, NodeKind::Directory, (29 * GB) as u64),
        (2, "node_modules"@, NodeKind::Directory, (21 * GB) as u64),
        (2, "archive.tar.zst"@, NodeKind::File, (11 * GB) as u64),
        (3, "Docker.raw"@, NodeKind::Directory, (44 * GB) as u64),
        (3, "postgres-volumes"@, NodeKind::Directory, (15 * GB) as u64),
        (3, "build-cache"@, NodeKind::Directory, (13 * GB) as u64),
        (4, "Xcode.app"@, NodeKind::File, (18 * GB) as u64),
        (4, "Blender.app"@, NodeKind::File, (9 * GB) as u64),
        (4, "Steam.app"@, NodeKind::File, (8 * GB) as u64),
        (4, "Utilities"@, NodeKind::Directory, (13 * GB) as u64),
        (5, "Developer"@, NodeKind::Directory, (19 * GB) as u64),
        (5, "iOS Support"@, NodeKind::Directory, (11 * GB) as u64),
        (5, "Library"@, NodeKind::Directory, (8 * GB) as u64),
        (5, "sleepimage"@, NodeKind::File, (4 * GB) as u64),
        (6, "remotion-cache"@, NodeKind::File, (12 * GB) as u64),
        (6, "podcast-stems"@, NodeKind::File, (9 * GB) as u64),
        (6, "screen-recordings"@, NodeKind::File, (7 * GB) as u64),
        (6, "waveforms"@, NodeKind::File, (3 * GB) as u64),
        (7, "Caches"@, NodeKind::Directory, (9 * GB) as u64),
        (7, "Application Support"@, NodeKind::Directory, (6 * GB) as u64),
        (7, "Safari.db"@, NodeKind::File, (2 * GB) as u64),
        (7, "tiny leftovers"@, NodeKind::File, (900 * MB) as u64),
        (8, "purgeable snapshots"@, NodeKind::File, (4 * GB) as u64),
        (8, "local time machine"@, NodeKind::File, (2 * GB) as u64),
        (8, "smaller objects"@, NodeKind::File, (850 * MB) as u64),
        (9, "Library"@, NodeKind::Directory, (70 * GB) as u64),
        (9, "Documents"@, NodeKind::Directory, (52 * GB) as u64),
        (39, "Caches"@, NodeKind::File, (45 * GB) as u64),
        (39, "Application Support"@, NodeKind::File, (25 * GB) as u64),
        (13, "target"@, NodeKind::File, (20 * GB) as u64),
        (13, "other"@, NodeKind::File, (15 * GB) as u64),
        (15, "large packages"@, NodeKind::File, (16 * GB) as u64),
        (15, "other packages"@, NodeKind::File, (5 * GB) as u64),
        (18, "pgdata"@, NodeKind::File, (10 * GB) as u64),
        (18, "wal"@, NodeKind::File, (5 * GB) as u64),
        (32, "GPUCache"@, NodeKind::File, (4 * GB) as u64),
        (32, "Code Cache"@, NodeKind::File, (3 * GB) as u64),
        (32, "Others"@, NodeKind::File, (2 * GB) as u64),
    ]
}

/// The path of node `i` of the simulated disk.
pub open spec fn demo_path(i: nat) -> Seq<char>
    decreases i,
{
    if i == 0 {
        "/Volumes/DustBunny Demo"@
    } else if i <= 51 && demo_entries()[i - 1].0 < i {
        joined(demo_path(demo_entries()[i - 1].0 as nat), demo_entries()[i - 1].1)
    } else {
        Seq::empty()
    }
}

/// Whether node `i` of `t` is entry `i - 1` of the simulated disk.
pub open spec fn shows_entry(t: FileTree, i: int) -> bool {
    let e = demo_entries()[i - 1];
    &&& t.nodes()[i].parent == Some(NodeId(e.0))
    &&& t.nodes()[i].name@ == e.1
    &&& t.nodes()[i].kind == e.2
    &&& t.nodes()[i].size_bytes == e.3
    &&& t.nodes()[i].path@ == demo_path(i as nat)
}

/// Adds a node named `name` under `parent`, at the parent's path joined
/// with `name`.
fn add_node(tree: &mut FileTree, parent: NodeId, name: &str, kind: NodeKind, size_bytes: u64) -> (id: NodeId)
    requires
        old(tree).wf(),
        old(tree).valid_id(parent),
    ensures
        final(tree).wf(),
        lists_in_id_order(*old(tree)) ==> lists_in_id_order(*final(tree)),
        id == NodeId(old(tree).len() as usize),
        final(tree).len() == old(tree).len() + 1,
        final(tree).root_id() == old(tree).root_id(),
        final(tree).node(id).parent == Some(parent),
        final(tree).node(id).name@ == name@,
        final(tree).node(id).path@ == joined(old(tree).node(parent).path@, name@),
        final(tree).node(id).kind == kind,
        final(tree).node(id).size_bytes == size_bytes,
        final(tree).child_list(parent) == old(tree).child_list(parent).push(id),
        forall|j: int|
            #![trigger final(tree).nodes()[j]]
            0 <= j < old(tree).len() ==> {
                &&& final(tree).nodes()[j].parent == old(tree).nodes()[j].parent
                &&& final(tree).nodes()[j].name == old(tree).nodes()[j].name
                &&& final(tree).nodes()[j].path == old(tree).nodes()[j].path
                &&& final(tree).nodes()[j].kind == old(tree).nodes()[j].kind
                &&& final(tree).nodes()[j].size_bytes == old(tree).nodes()[j].size_bytes
            },
{
    let ghost old_tree = *tree;
    let path = join_path(tree.get(parent).path.as_str(), name);
    let id = tree.add_node(FileNode {
        id: NodeId(0),
        parent: Some(parent),
        name: String::from_str(name),
        path,
        kind,
        size_bytes,
        children: Vec::new(),
    });
    let ghost mid = *tree;
    tree.get_mut(parent).children.push(id);
    proof {
        assert(tree.nodes()[id.0 as int] == mid.nodes()[id.0 as int]);
        assert forall|i: int| 0 <= i < old_tree.len() && i != parent.0 implies #[trigger] tree.nodes()[i] == old_tree.nodes()[i] by {
            assert(mid.nodes()[i] == old_tree.nodes()[i]);
        }
        assert(mid.nodes()[parent.0 as int] == old_tree.nodes()[parent.0 as int]);
        lemma_add_leaf_keeps_wf(old_tree, *tree, parent, id);
        if lists_in_id_order(old_tree) {
            assert forall|j: int| 0 <= j < old_tree.len() implies #[trigger] tree.nodes()[j].parent == old_tree.nodes()[j].parent by {
                if j != parent.0 {
                    assert(tree.nodes()[j] == old_tree.nodes()[j]);
                }
            }
            assert forall|i: int| 0 <= i < tree.len() implies #[trigger] tree.nodes()[i].children@ == ids_under(*tree, i) by {
                if i < old_tree.len() {
                    lemma_ids_under_push(old_tree, *tree, parent, i);
                    assert(old_tree.nodes()[i].children@ == ids_under(old_tree, i));
                    if i == parent.0 {
                        assert(NodeId(i as usize) == parent);
                    } else {
                        assert(tree.nodes()[i] == old_tree.nodes()[i]);
                    }
                } else {
                    lemma_ids_under_new(*tree, i);
                    assert(tree.nodes()[i].children@ =~= Seq::<NodeId>::empty());
                }
            }
        }
        assert forall|j: int| 0 <= j < old_tree.len() implies {
            &&& #[trigger] tree.nodes()[j].parent == old_tree.nodes()[j].parent
            &&& tree.nodes()[j].name == old_tree.nodes()[j].name
            &&& tree.nodes()[j].path == old_tree.nodes()[j].path
            &&& tree.nodes()[j].kind == old_tree.nodes()[j].kind
            &&& tree.nodes()[j].size_bytes == old_tree.nodes()[j].size_bytes
        } by {
            if j != parent.0 {
                assert(tree.nodes()[j] == old_tree.nodes()[j]);
            }
        }
    }
    id
}

/// The view of one entry of the table that the simulated disk is built
/// from.
pub open spec fn entry_view(e: (usize, &str, NodeKind, u64)) -> (usize, Seq<char>, NodeKind, u64) {
    (e.0, e.1@, e.2, e.3)
}

/// A simulated disk, used for screenshots: an explorer over a fixed tree,
/// its root at `/Volumes/DustBunny Demo` and the entries of
/// [`demo_entries`] below it, each directory listing its entries in the
/// order they were added.
pub fn app() -> (r: App)
    ensures
        r.valid(),
        r.tree.wf(),
        r.selection_ok(),
        r.tree.len() == 52,
        lists_in_id_order(r.tree),
        r.tree.nodes()[0].parent is None,
        r.tree.nodes()[0].name@ == "DustBunny Demo"@,
        r.tree.nodes()[0].path@ == demo_path(0),
        r.tree.nodes()[0].kind == NodeKind::Directory,
        r.tree.nodes()[0].size_bytes == 512 * GB,
        forall|i: int| 1 <= i < 52 ==> #[trigger] shows_entry(r.tree, i),
        r.root_path@ == "/Volumes/DustBunny Demo"@,
        r.view_root == NodeId(0),
        r.selected == r.tree.sorted_children(NodeId(0))[0],
        r.focus == Focus::List,
        !r.show_help,
        !r.should_quit,
        r.message@ == "ready"@,
{
    let root_path = String::from_str("/Volumes/DustBunny Demo");
    let root = FileNode {
        id: NodeId(0),
        parent: None,
        name: String::from_str("DustBunny Demo"),
        path: root_path.clone(),
        kind: NodeKind::Directory,
        size_bytes: 512 * GB,
        children: Vec::new(),
    };
    let mut tree = FileTree::new(root);
    proof {
        assert(tree.nodes()[0] == root);
        lemma_ids_under_new(tree, 0);
        assert(tree.nodes()[0].children@ =~= Seq::<NodeId>::empty());
        assert(lists_in_id_order(tree));
    }

    // A little extra nesting (below `dunc`, `rust`, `node_modules`,
    // `postgres-volumes` and `Caches`) so the outer rings are not empty,
    // kept chunky (few, large children per level) so narrow terminals show
    // clean bands.
    let entries: Vec<(usize, &str, NodeKind, u64)> = vec![
        (0, "Users", NodeKind::Directory, 198 * GB),
        (0, "Projects", NodeKind::Directory, 96 * GB),
        (0, "Containers", NodeKind::Directory, 72 * GB),
        (0, "Applications", NodeKind::Directory, 48 * GB),
        (0, "System", NodeKind::Directory, 42 * GB),
        (0, "Media Cache", NodeKind::Directory, 31 * GB),
        (0, "Library", NodeKind::Directory, 18 * GB),
        (0, "hidden space", NodeKind::Directory, 7 * GB),
        (1, "dunc", NodeKind::Directory, 122 * GB),
        (1, "Shared", NodeKind::Directory, 38 * GB),
        (1, "Downloads", NodeKind::Directory, 24 * GB),
        (1, "photo-library.photoslibrary", NodeKind::File, 14 * GB),
        (2, "rust", NodeKind::Directory, 35 * GB),
        (2, "video-renders", NodeKind::Directory, 29 * GB),
        (2, "node_modules", NodeKind::Directory, 21 * GB),
        (2, "archive.tar.zst", NodeKind::File, 11 * GB),
        (3, "Docker.raw", NodeKind::Directory, 44 * GB),
        (3, "postgres-volumes", NodeKind::Directory, 15 * GB),
        (3, "build-cache", NodeKind::Directory, 13 * GB),
        (4, "Xcode.app", NodeKind::File, 18 * GB),
        (4, "Blender.app", NodeKind::File, 9 * GB),
        (4, "Steam.app", NodeKind::File, 8 * GB),
        (4, "Utilities", NodeKind::Directory, 13 * GB),
        (5, "Developer", NodeKind::Directory, 19 * GB),
        (5, "iOS Support", NodeKind::Directory, 11 * GB),
        (5, "Library", NodeKind::Directory, 8 * GB),
        (5, "sleepimage", NodeKind::File, 4 * GB),
        (6, "remotion-cache", NodeKind::File, 12 * GB),
        (6, "podcast-stems", NodeKind::File, 9 * GB),
        (6, "screen-recordings", NodeKind::File, 7 * GB),
        (6, "waveforms", NodeKind::File, 3 * GB),
        (7, "Caches", NodeKind::Directory, 9 * GB),
        (7, "Application Support", NodeKind::Directory, 6 * GB),
        (7, "Safari.db", NodeKind::File, 2 * GB),
        (7, "tiny leftovers", NodeKind::File, 900 * MB),
        (8, "purgeable snapshots", NodeKind::File, 4 * GB),
        (8, "local time machine", NodeKind::File, 2 * GB),
        (8, "smaller objects", NodeKind::File, 850 * MB),
        (9, "Library", NodeKind::Directory, 70 * GB),
        (9, "Documents", NodeKind::Directory, 52 * GB),
        (39, "Caches", NodeKind::File, 45 * GB),
        (39, "Application Support", NodeKind::File, 25 * GB),
        (13, "target", NodeKind::File, 20 * GB),
        (13, "other", NodeKind::File, 15 * GB),
        (15, "large packages", NodeKind::File, 16 * GB),
        (15, "other packages", NodeKind::File, 5 * GB),
        (18, "pgdata", NodeKind::File, 10 * GB),
        (18, "wal", NodeKind::File, 5 * GB),
        (32, "GPUCache", NodeKind::File, 4 * GB),
        (32, "Code Cache", NodeKind::File, 3 * GB),
        (32, "Others", NodeKind::File, 2 * GB),
    ];
    assert(entries@.map_values(|e: (usize, &str, NodeKind, u64)| entry_view(e)) =~= demo_entries());

    let n = entries.len();
    for k in 0..n
        invariant
            n == 51,
            n == entries@.len(),
            entries@.map_values(|e: (usize, &str, NodeKind, u64)| entry_view(e)) == demo_entries(),
            tree.wf(),
            tree.len() == k + 1,
            tree.root_id() == NodeId(0),
            lists_in_id_order(tree),
            tree.nodes()[0].parent is None,
            tree.nodes()[0].name@ == "DustBunny Demo"@,
            tree.nodes()[0].path@ == demo_path(0),
            tree.nodes()[0].kind == NodeKind::Directory,
            tree.nodes()[0].size_bytes == 512 * GB,
            forall|i: int| 1 <= i <= k ==> #[trigger] shows_entry(tree, i),
    {
        let (parent, name, kind, size) = entries[k];
        proof {
            assert(entries@.map_values(|e: (usize, &str, NodeKind, u64)| entry_view(e))[k as int] == entry_view(entries@[k as int]));
            assert(entry_view(entries@[k as int]) == demo_entries()[k as int]);
            assert(parent <= k);
        }
        let ghost before = tree;
        add_node(&mut tree, NodeId(parent), name, kind, size);
        proof {
            assert forall|i: int| 1 <= i <= k + 1 implies #[trigger] shows_entry(tree, i) by {
                if i <= k {
                    assert(shows_entry(before, i));
                    assert(tree.nodes()[i].parent == before.nodes()[i].parent);
                } else {
                    let p = parent as int;
                    if p > 0 {
                        assert(shows_entry(before, p));
                    }
                    assert(before.nodes()[p].path@ == demo_path(p as nat));
                }
            }
            assert(tree.nodes()[0].parent == before.nodes()[0].parent);
        }
    }

    proof {
        tree.lemma_wf_ids_valid();
        tree.lemma_sorted_children(NodeId(0));
        assert(tree.nodes()[0].children@ == ids_under(tree, 0));
        assert(shows_entry(tree, 1));
        assert(ids_under(tree, 0).contains(NodeId(1))) by {
            let all = Seq::new(tree.len(), |k: int| NodeId(k as usize));
            assert(all[1] == NodeId(1));
            all.lemma_filter_contains_rev(|x: NodeId| tree.nodes()[x.0 as int].parent == Some(NodeId(0 as usize)), NodeId(1));
        }
        assert(tree.child_list(NodeId(0)).contains(NodeId(1)));
        assert(tree.sorted_children(NodeId(0)).contains(NodeId(1)));
    }
    App::new(tree, root_path)
}

} // verus!
