use vstd::prelude::*;

use crate::dust::{components, path_components};
use crate::model::{ids_under, lemma_ids_under_new, lemma_ids_under_push, lemma_ids_under_same, lists_in_id_order, FileNode, FileTree, NodeId, NodeKind, ScanError};
use crate::demo::lemma_add_leaf_keeps_wf;
use crate::seqs::lemma_filter_congruent;
use crate::text::string_from_chars;

verus! {

/// The name under which a path is shown: its last component where that is
/// a name, else the whole path.
pub open spec fn shown_name(path: Seq<char>) -> Seq<char> {
    let parts = components(path);
    if parts.len() > 0 && parts.last().0 == 3 {
        parts.last().1
    } else {
        path
    }
}

/// The name under which a path is shown, as `Path::file_name` gives it,
/// or the whole path where it ends in `..` or is a root.
pub fn display_name(path: &str) -> (r: String)
    ensures
        r@ == shown_name(path@),
{
    let parts = path_components(path);
    let n = parts.len();
    if n > 0 && parts[n - 1].rank == 3 {
        string_from_chars(&parts[n - 1].name)
    } else {
        String::from_str(path)
    }
}

/// The kind of an entry from what its file type says.
pub open spec fn kind_of_entry(is_dir: bool, is_file: bool, is_symlink: bool) -> NodeKind {
    if is_dir {
        NodeKind::Directory
    } else if is_file {
        NodeKind::File
    } else if is_symlink {
        NodeKind::Symlink
    } else {
        NodeKind::Other
    }
}

/// The kind of an entry: a directory, else a file, else a symbolic link,
/// else something other.
pub fn node_kind(is_dir: bool, is_file: bool, is_symlink: bool) -> (k: NodeKind)
    ensures
        k == kind_of_entry(is_dir, is_file, is_symlink),
{
    if is_dir {
        NodeKind::Directory
    } else if is_file {
        NodeKind::File
    } else if is_symlink {
        NodeKind::Symlink
    } else {
        NodeKind::Other
    }
}

/// Whether `b` is `a` with only the children lists of nodes changed.
pub open spec fn same_but_children(a: FileTree, b: FileTree) -> bool {
    &&& a.len() == b.len()
    &&& a.root_id() == b.root_id()
    &&& a.error_list() == b.error_list()
    &&& forall|i: int|
        #![trigger b.nodes()[i]]
        0 <= i < a.len() ==> {
            &&& b.nodes()[i].id == a.nodes()[i].id
            &&& b.nodes()[i].parent == a.nodes()[i].parent
            &&& b.nodes()[i].name@ == a.nodes()[i].name@
            &&& b.nodes()[i].path@ == a.nodes()[i].path@
            &&& b.nodes()[i].kind == a.nodes()[i].kind
            &&& b.nodes()[i].size_bytes == a.nodes()[i].size_bytes
        }
}

proof fn lemma_same_desc(a: FileTree, b: FileTree, x: NodeId, d: NodeId)
    requires
        same_but_children(a, b),
    ensures
        a.is_descendant(x, d) == b.is_descendant(x, d),
    decreases d.0,
{
    if d.0 < a.len() {
        assert(b.nodes()[d.0 as int].parent == a.nodes()[d.0 as int].parent);
        match a.node(d).parent {
            Some(p) => {
                if p.0 < d.0 {
                    lemma_same_desc(a, b, x, p);
                }
            },
            None => {},
        }
    }
}

proof fn lemma_same_subtree(a: FileTree, b: FileTree, x: NodeId)
    requires
        same_but_children(a, b),
    ensures
        a.subtree(x) == b.subtree(x),
{
    assert forall|j: int| a.subtree(x).contains(j) <==> b.subtree(x).contains(j) by {
        lemma_same_desc(a, b, x, NodeId(j as usize));
    }
    assert(a.subtree(x) =~= b.subtree(x));
}

proof fn lemma_same_sorted(a: FileTree, b: FileTree, id: NodeId)
    requires
        same_but_children(a, b),
        a.wf(),
        b.wf(),
        a.valid_id(id),
        a.child_list(id) == b.child_list(id),
    ensures
        a.sorted_children(id) == b.sorted_children(id),
{
    let s = a.child_list(id);
    let r = a.sorted_children(id);
    a.lemma_sorted_children(id);
    a.lemma_wf_children_valid();
    assert forall|k: int| 0 <= k < s.len() implies (#[trigger] s[k]).0 < a.len() by {
        assert(a.nodes()[id.0 as int].children@[k] == s[k]);
    }
    assert forall|k: int| 0 <= k < r.len() implies (#[trigger] r[k]).0 < a.len() by {
        assert(r.contains(r[k]));
        assert(s.contains(r[k]));
    }
    assert forall|p: int, q: int| 0 <= p < q < r.len() implies #[trigger] b.precedes(r[p], r[q]) by {
        assert(a.precedes(r[p], r[q]));
        assert(b.nodes()[r[p].0 as int].size_bytes == a.nodes()[r[p].0 as int].size_bytes);
        assert(b.nodes()[r[q].0 as int].size_bytes == a.nodes()[r[q].0 as int].size_bytes);
    }
    assert forall|size: u64, name: Seq<char>| #[trigger] r.filter(b.has_key(size, name)) == s.filter(b.has_key(size, name)) by {
        assert forall|k: int| 0 <= k < r.len() implies a.has_key(size, name)(#[trigger] r[k]) == b.has_key(size, name)(r[k]) by {
            assert(b.nodes()[r[k].0 as int].size_bytes == a.nodes()[r[k].0 as int].size_bytes);
        }
        assert forall|k: int| 0 <= k < s.len() implies a.has_key(size, name)(#[trigger] s[k]) == b.has_key(size, name)(s[k]) by {
            assert(b.nodes()[s[k].0 as int].size_bytes == a.nodes()[s[k].0 as int].size_bytes);
        }
        lemma_filter_congruent(r, a.has_key(size, name), b.has_key(size, name));
        lemma_filter_congruent(s, a.has_key(size, name), b.has_key(size, name));
        assert(r.filter(a.has_key(size, name)) == s.filter(a.has_key(size, name)));
    }
    assert(b.is_stable_sort_of(r, s));
    b.lemma_sorted_children(id);
    b.lemma_stable_sort_unique(r, b.sorted_children(id), s);
}

proof fn lemma_perm_members(s: Seq<NodeId>, r: Seq<NodeId>, x: NodeId)
    requires
        r.to_multiset() == s.to_multiset(),
    ensures
        r.contains(x) <==> s.contains(x),
{
    vstd::seq_lib::to_multiset_contains(r, x);
    vstd::seq_lib::to_multiset_contains(s, x);
}

proof fn lemma_perm_no_dup(s: Seq<NodeId>, r: Seq<NodeId>)
    requires
        r.to_multiset() == s.to_multiset(),
        s.no_duplicates(),
    ensures
        r.no_duplicates(),
{
    s.lemma_multiset_has_no_duplicates();
    r.lemma_multiset_has_no_duplicates_conv();
}

proof fn lemma_wf_children_no_dup(t: FileTree, id: NodeId)
    requires
        t.wf(),
        t.valid_id(id),
    ensures
        t.child_list(id).no_duplicates(),
{
    let s = t.child_list(id);
    assert forall|i: int, j: int| 0 <= i < s.len() && 0 <= j < s.len() && i != j implies s[i] != s[j] by {
        if i < j {
            assert(t.nodes()[id.0 as int].children@[i] != t.nodes()[id.0 as int].children@[j]);
        } else {
            assert(t.nodes()[id.0 as int].children@[j] != t.nodes()[id.0 as int].children@[i]);
        }
    }
}

/// A tree whose node `id` lists its children in another order is still a
/// tree.
proof fn lemma_reordered_wf(a: FileTree, b: FileTree, id: NodeId)
    requires
        a.wf(),
        same_but_children(a, b),
        a.valid_id(id),
        forall|i: int| 0 <= i < a.len() && i != id.0 ==> (#[trigger] b.nodes()[i]).children@ == a.nodes()[i].children@,
        b.child_list(id).to_multiset() == a.child_list(id).to_multiset(),
    ensures
        b.wf(),
{
    let n = a.len();
    let sa = a.child_list(id);
    let sb = b.child_list(id);
    lemma_wf_children_no_dup(a, id);
    lemma_perm_no_dup(sa, sb);
    assert forall|i: int| 0 <= i < b.len() implies (#[trigger] b.nodes()[i]).id == NodeId(i as usize) by {
        assert(a.nodes()[i].id == NodeId(i as usize));
    }
    assert forall|i: int|
        #![trigger b.nodes()[i].parent]
        0 <= i < b.len() implies match b.nodes()[i].parent {
            Some(p) => p.0 < i && b.nodes()[p.0 as int].children@.contains(NodeId(i as usize)),
            None => i == 0,
        } by {
        assert(b.nodes()[i].parent == a.nodes()[i].parent);
        match a.nodes()[i].parent {
            Some(p) => {
                assert(a.nodes()[p.0 as int].children@.contains(NodeId(i as usize)));
                if p.0 == id.0 {
                    lemma_perm_members(sa, sb, NodeId(i as usize));
                } else {
                    assert(b.nodes()[p.0 as int].children@ == a.nodes()[p.0 as int].children@);
                }
            },
            None => {},
        }
    }
    assert forall|i: int, k: int|
        #![trigger b.nodes()[i].children@[k]]
        0 <= i < b.len() && 0 <= k < b.nodes()[i].children@.len() implies {
            let c = b.nodes()[i].children@[k];
            &&& i < c.0 < b.len()
            &&& b.nodes()[c.0 as int].parent == Some(NodeId(i as usize))
        } by {
        let c = b.nodes()[i].children@[k];
        if i == id.0 {
            assert(sb.contains(c));
            lemma_perm_members(sa, sb, c);
            let k2 = choose|k2: int| 0 <= k2 < sa.len() && sa[k2] == c;
            assert(a.nodes()[i].children@[k2] == c);
            assert(id == NodeId(i as usize));
        } else {
            assert(b.nodes()[i].children@ == a.nodes()[i].children@);
            assert(a.nodes()[i].children@[k] == c);
        }
        assert(b.nodes()[c.0 as int].parent == a.nodes()[c.0 as int].parent);
    }
    assert forall|i: int, k1: int, k2: int|
        0 <= i < b.len() && 0 <= k1 < k2 < b.nodes()[i].children@.len()
            implies #[trigger] b.nodes()[i].children@[k1] != #[trigger] b.nodes()[i].children@[k2] by {
        if i == id.0 {
            assert(sb.no_duplicates());
        } else {
            assert(b.nodes()[i].children@ == a.nodes()[i].children@);
            assert(a.nodes()[i].children@[k1] != a.nodes()[i].children@[k2]);
        }
    }
}

/// The subtrees of two different children of one node share no node.
proof fn lemma_sibling_subtrees_disjoint(t: FileTree, a: NodeId, c1: NodeId, c2: NodeId, j: int)
    requires
        t.wf(),
        t.valid_id(a),
        t.child_list(a).contains(c1),
        t.child_list(a).contains(c2),
        c1 != c2,
        t.subtree(c1).contains(j),
    ensures
        !t.subtree(c2).contains(j),
        j != a.0,
        j > a.0,
{
    let cs = t.child_list(a);
    let k1 = choose|k: int| 0 <= k < cs.len() && cs[k] == c1;
    let k2 = choose|k: int| 0 <= k < cs.len() && cs[k] == c2;
    assert(t.nodes()[a.0 as int].children@[k1] == c1);
    assert(t.nodes()[a.0 as int].children@[k2] == c2);
    assert(t.node(c1).parent == Some(a));
    assert(t.node(c2).parent == Some(a));
    let d = NodeId(j as usize);
    if j != c1.0 {
        assert(t.is_descendant(c1, d));
        t.lemma_desc_lt(c1, d);
    }
    if t.subtree(c2).contains(j) {
        if j == c1.0 {
            assert(d == c1);
            assert(t.is_descendant(c2, c1));
            t.lemma_desc_lt(c2, a);
        } else if j == c2.0 {
            assert(d == c2);
            assert(t.is_descendant(c1, c2));
            t.lemma_desc_lt(c1, a);
        } else {
            t.lemma_desc_chain(c1, c2, d);
            if t.is_descendant(c1, c2) {
                t.lemma_desc_lt(c1, a);
            } else if t.is_descendant(c2, c1) {
                t.lemma_desc_lt(c2, a);
            }
        }
    }
}

/// The nodes in the subtrees of the first `k` of `cs`.
pub open spec fn below_first(t: FileTree, cs: Seq<NodeId>, k: int) -> Set<int> {
    Set::new(|j: int| exists|l: int| 0 <= l < k && #[trigger] t.subtree(cs[l]).contains(j))
}

proof fn lemma_below_all(t: FileTree, a: NodeId, cs: Seq<NodeId>)
    requires
        t.wf(),
        t.valid_id(a),
        forall|x: NodeId| cs.contains(x) <==> t.child_list(a).contains(x),
    ensures
        below_first(t, cs, cs.len() as int) == t.descendants(a),
{
    let n = t.child_list(a).len() as int;
    t.lemma_covered_all(a);
    assert forall|j: int| below_first(t, cs, cs.len() as int).contains(j) <==> t.descendants(a).contains(j) by {
        if below_first(t, cs, cs.len() as int).contains(j) {
            let l = choose|l: int| 0 <= l < cs.len() && #[trigger] t.subtree(cs[l]).contains(j);
            assert(cs.contains(cs[l]));
            assert(t.child_list(a).contains(cs[l]));
            let k = choose|k: int| 0 <= k < n && t.child_list(a)[k] == cs[l];
            assert(t.subtree(t.child_list(a)[k]).contains(j));
            t.lemma_wf_children_valid();
            assert(t.nodes()[a.0 as int].children@[k] == cs[l]);
            assert(0 <= j < t.len()) by {
                if j != cs[l].0 {
                }
            }
            assert(t.covered(a, n).contains(j));
        }
        if t.descendants(a).contains(j) {
            assert(t.covered(a, n).contains(j));
            let k = choose|k: int| 0 <= k < n && #[trigger] t.subtree(t.child_list(a)[k]).contains(j);
            assert(t.child_list(a).contains(t.child_list(a)[k]));
            let c = t.child_list(a)[k];
            assert(cs.contains(c));
            let l = choose|l: int| 0 <= l < cs.len() && cs[l] == c;
            assert(t.subtree(cs[l]).contains(j));
        }
    }
    assert(below_first(t, cs, cs.len() as int) =~= t.descendants(a));
}

/// Node `i`'s children after sorting the subtree of `id`: in display
/// order inside that subtree, as they were elsewhere.
pub open spec fn sorted_below(t: FileTree, id: NodeId, i: int) -> Seq<NodeId> {
    if t.subtree(id).contains(i) {
        t.sorted_children(NodeId(i as usize))
    } else {
        t.child_list(NodeId(i as usize))
    }
}

/// Puts the children of every node in the subtree of `id` in display
/// order: largest first, equal sizes by name.
pub fn sort_all_children(tree: &mut FileTree, id: NodeId)
    requires
        old(tree).wf(),
        old(tree).valid_id(id),
    ensures
        final(tree).wf(),
        same_but_children(*old(tree), *final(tree)),
        forall|i: int| 0 <= i < old(tree).len() ==> #[trigger] final(tree).child_list(NodeId(i as usize)) == sorted_below(*old(tree), id, i),
    decreases old(tree).len() - id.0,
{
    let ghost t0 = *tree;
    proof {
        t0.lemma_wf_children_valid();
        t0.lemma_sorted_children_perm(id);
        t0.lemma_sorted_children(id);
        lemma_wf_children_no_dup(t0, id);
        lemma_perm_no_dup(t0.child_list(id), t0.sorted_children(id));
    }
    let sorted = tree.children_sorted(id);
    let kids = sorted.clone();
    tree.get_mut(id).children = kids;
    proof {
        assert(same_but_children(t0, *tree));
        assert forall|i: int| 0 <= i < t0.len() && i != id.0 implies (#[trigger] tree.nodes()[i]).children@ == t0.nodes()[i].children@ by {
        }
        lemma_reordered_wf(t0, *tree, id);
        assert(below_first(t0, sorted@, 0) =~= Set::<int>::empty());
    }
    let n = sorted.len();
    for k in 0..n
        invariant
            t0 == *old(tree),
            t0.wf(),
            t0.valid_id(id),
            tree.wf(),
            same_but_children(t0, *tree),
            sorted@ == t0.sorted_children(id),
            n == sorted@.len(),
            sorted@.no_duplicates(),
            forall|x: NodeId| sorted@.contains(x) <==> t0.child_list(id).contains(x),
            tree.child_list(id) == sorted@,
            forall|i: int|
                0 <= i < t0.len() && i != id.0 ==> #[trigger] tree.child_list(NodeId(i as usize)) == (if below_first(
                    t0,
                    sorted@,
                    k as int,
                ).contains(i) {
                    t0.sorted_children(NodeId(i as usize))
                } else {
                    t0.child_list(NodeId(i as usize))
                }),
    {
        let c = sorted[k];
        let ghost tk = *tree;
        proof {
            assert(sorted@.contains(c));
            assert(t0.child_list(id).contains(c));
            let kk = choose|kk: int| 0 <= kk < t0.child_list(id).len() && t0.child_list(id)[kk] == c;
            assert(t0.nodes()[id.0 as int].children@[kk] == c);
            assert(id.0 < c.0 < t0.len());
        }
        sort_all_children(tree, c);
        proof {
            lemma_same_subtree(t0, tk, c);
            assert(same_but_children(t0, *tree));
            assert forall|i: int| 0 <= i < t0.len() && i != id.0 implies #[trigger] tree.child_list(NodeId(i as usize)) == (if below_first(
                t0,
                sorted@,
                k + 1,
            ).contains(i) {
                t0.sorted_children(NodeId(i as usize))
            } else {
                t0.child_list(NodeId(i as usize))
            }) by {
                let ni = NodeId(i as usize);
                assert(ni.0 as int == i);
                if t0.subtree(c).contains(i) {
                    assert(below_first(t0, sorted@, k + 1).contains(i)) by {
                        assert(t0.subtree(sorted@[k as int]).contains(i));
                    }
                    assert(!below_first(t0, sorted@, k as int).contains(i)) by {
                        if below_first(t0, sorted@, k as int).contains(i) {
                            let l = choose|l: int| 0 <= l < k && #[trigger] t0.subtree(sorted@[l]).contains(i);
                            assert(sorted@[l] != sorted@[k as int]);
                            assert(sorted@.contains(sorted@[l]));
                            lemma_sibling_subtrees_disjoint(t0, id, sorted@[l], c, i);
                        }
                    }
                    assert(tk.child_list(ni) == t0.child_list(ni));
                    lemma_same_sorted(t0, tk, ni);
                } else {
                    assert(below_first(t0, sorted@, k + 1).contains(i) == below_first(t0, sorted@, k as int).contains(i)) by {
                        if below_first(t0, sorted@, k + 1).contains(i) {
                            let l = choose|l: int| 0 <= l < k + 1 && #[trigger] t0.subtree(sorted@[l]).contains(i);
                            assert(l != k);
                        }
                    }
                }
            }
            assert(!t0.subtree(c).contains(id.0 as int)) by {
                if t0.subtree(c).contains(id.0 as int) {
                    assert(NodeId(id.0 as int as usize) == id);
                    if id != c {
                        t0.lemma_desc_lt(c, id);
                    }
                }
            }
            assert(NodeId(id.0 as int as usize) == id);
        }
    }
    proof {
        lemma_below_all(t0, id, sorted@);
        assert forall|i: int| 0 <= i < t0.len() implies #[trigger] tree.child_list(NodeId(i as usize)) == sorted_below(t0, id, i) by {
            let ni = NodeId(i as usize);
            if i == id.0 {
                assert(ni == id);
                assert(t0.subtree(id).contains(i));
            } else {
                assert(t0.subtree(id).contains(i) == t0.descendants(id).contains(i));
            }
        }
    }
}

/// One item of a directory listing, as the scanner met it: an entry whose
/// metadata could be read, or an error met at that point.
pub enum Listing {
    Entry(RawEntry),
    Failure(ScanError),
}

/// An entry as read from disk, with what its listing gave where it is a
/// directory.
pub struct RawEntry {
    pub path: String,
    pub kind: NodeKind,
    /// The length that its metadata reports.
    pub len: u64,
    /// For a directory: why its listing could not be read, if it could not.
    pub read_error: Option<String>,
    /// For a directory: what its listing gave, in order.
    pub items: Vec<Listing>,
}

/// Whether the scanner looks into an entry's listing: it is a directory
/// whose listing could be read.
pub open spec fn listed(e: RawEntry) -> bool {
    e.kind == NodeKind::Directory && e.read_error is None
}

/// `x` capped at the largest `u64`.
pub open spec fn capped(x: int) -> u64 {
    if x > u64::MAX { u64::MAX } else { x as u64 }
}

/// The size of an entry: its length for anything but a directory, nothing
/// for a directory that could not be read, else what its entries add up
/// to, capped at the largest `u64`.
pub open spec fn raw_size(e: RawEntry) -> u64
    decreases e, e.items@.len() + 1,
{
    if e.kind != NodeKind::Directory {
        e.len
    } else if e.read_error is Some {
        0
    } else {
        items_size(e, e.items@.len() as int)
    }
}

/// What the entries among the first `k` items of `e`'s listing add up to,
/// capped at the largest `u64`.
pub open spec fn items_size(e: RawEntry, k: int) -> u64
    decreases e, k,
{
    if k <= 0 || k > e.items@.len() {
        0
    } else {
        let prev = items_size(e, k - 1);
        match e.items@[k - 1] {
            Listing::Entry(c) => {
                proof {
                    assert(decreases_to!(e => e.items@[k - 1]));
                }
                capped(prev + raw_size(c))
            },
            Listing::Failure(_) => prev,
        }
    }
}

/// What a scanned entry becomes in the tree.
pub struct NodeSpec {
    pub parent: Option<NodeId>,
    pub name: Seq<char>,
    pub path: Seq<char>,
    pub kind: NodeKind,
    pub size: u64,
}

/// The node of entry `e` under `parent`.
pub open spec fn spec_of(e: RawEntry, parent: Option<NodeId>) -> NodeSpec {
    NodeSpec { parent: parent, name: shown_name(e.path@), path: e.path@, kind: e.kind, size: raw_size(e) }
}

/// The nodes below entry `e`, which is node `me`, in the order the scan
/// adds them: each entry of its listing, then the nodes below that entry.
pub open spec fn below(e: RawEntry, me: nat) -> Seq<NodeSpec>
    decreases e, e.items@.len() + 1,
{
    if listed(e) {
        items_below(e, me, e.items@.len() as int)
    } else {
        Seq::empty()
    }
}

/// The nodes that the first `k` items of `e`'s listing add below node `me`.
pub open spec fn items_below(e: RawEntry, me: nat, k: int) -> Seq<NodeSpec>
    decreases e, k,
{
    if k <= 0 || k > e.items@.len() {
        Seq::empty()
    } else {
        let prev = items_below(e, me, k - 1);
        match e.items@[k - 1] {
            Listing::Entry(c) => {
                proof {
                    assert(decreases_to!(e => e.items@[k - 1]));
                }
                prev + seq![spec_of(c, Some(NodeId(me as usize)))] + below(c, me + 1 + prev.len())
            },
            Listing::Failure(_) => prev,
        }
    }
}

/// The ids that the first `k` items of `e`'s listing give the children of
/// node `me`.
pub open spec fn items_ids(e: RawEntry, me: nat, k: int) -> Seq<NodeId>
    decreases k,
{
    if k <= 0 || k > e.items@.len() {
        Seq::empty()
    } else {
        items_ids(e, me, k - 1) + match e.items@[k - 1] {
            Listing::Entry(_) => seq![NodeId((me + 1 + items_below(e, me, k - 1).len()) as usize)],
            Listing::Failure(_) => Seq::empty(),
        }
    }
}

/// The ids of the children of node `me`, as the scan lists them.
pub open spec fn kids_of(e: RawEntry, me: nat) -> Seq<NodeId> {
    if listed(e) {
        items_ids(e, me, e.items@.len() as int)
    } else {
        Seq::empty()
    }
}

/// The errors that scanning `e` meets, as (path, message), in order.
pub open spec fn raw_errors(e: RawEntry) -> Seq<(Seq<char>, Seq<char>)>
    decreases e, e.items@.len() + 1,
{
    if e.kind != NodeKind::Directory {
        Seq::empty()
    } else {
        match e.read_error {
            Some(m) => seq![(e.path@, m@)],
            None => items_errors(e, e.items@.len() as int),
        }
    }
}

/// The errors met in the first `k` items of `e`'s listing.
pub open spec fn items_errors(e: RawEntry, k: int) -> Seq<(Seq<char>, Seq<char>)>
    decreases e, k,
{
    if k <= 0 || k > e.items@.len() {
        Seq::empty()
    } else {
        let prev = items_errors(e, k - 1);
        match e.items@[k - 1] {
            Listing::Entry(c) => {
                proof {
                    assert(decreases_to!(e => e.items@[k - 1]));
                }
                prev + raw_errors(c)
            },
            Listing::Failure(err) => prev.push((err.path@, err.message@)),
        }
    }
}

/// The errors of a tree, as (path, message).
pub open spec fn error_views(t: FileTree) -> Seq<(Seq<char>, Seq<char>)> {
    t.error_list().map_values(|e: ScanError| (e.path@, e.message@))
}

/// Whether node `j` of `t` is what `d` describes.
pub open spec fn shows_spec(t: FileTree, j: int, d: NodeSpec) -> bool {
    &&& t.nodes()[j].parent == d.parent
    &&& t.nodes()[j].name@ == d.name
    &&& t.nodes()[j].path@ == d.path
    &&& t.nodes()[j].kind == d.kind
    &&& t.nodes()[j].size_bytes == d.size
}

/// The entries below `e` that a scan meets, depth first: each entry of its
/// listing, then the entries below that one.
pub open spec fn entries_below(e: RawEntry) -> Seq<RawEntry>
    decreases e, e.items@.len() + 1,
{
    if listed(e) {
        items_entries(e, e.items@.len() as int)
    } else {
        Seq::empty()
    }
}

/// The entries that the first `k` items of `e`'s listing lead to.
pub open spec fn items_entries(e: RawEntry, k: int) -> Seq<RawEntry>
    decreases e, k,
{
    if k <= 0 || k > e.items@.len() {
        Seq::empty()
    } else {
        let prev = items_entries(e, k - 1);
        match e.items@[k - 1] {
            Listing::Entry(c) => {
                proof {
                    assert(decreases_to!(e => e.items@[k - 1]));
                }
                prev + seq![c] + entries_below(c)
            },
            Listing::Failure(_) => prev,
        }
    }
}

/// Each node that scanning `e` adds is one of the entries met, in order:
/// it has that entry's path, its name and its kind.
pub proof fn lemma_below_are_entries(e: RawEntry, me: nat)
    ensures
        below(e, me).len() == entries_below(e).len(),
        forall|j: int|
            0 <= j < below(e, me).len() ==> {
                &&& (#[trigger] below(e, me)[j]).kind == entries_below(e)[j].kind
                &&& below(e, me)[j].path == entries_below(e)[j].path@
                &&& below(e, me)[j].name == shown_name(entries_below(e)[j].path@)
            },
    decreases e, e.items@.len() + 1,
{
    if listed(e) {
        lemma_items_are_entries(e, me, e.items@.len() as int);
    }
}

proof fn lemma_items_are_entries(e: RawEntry, me: nat, k: int)
    ensures
        items_below(e, me, k).len() == items_entries(e, k).len(),
        forall|j: int|
            0 <= j < items_below(e, me, k).len() ==> {
                &&& (#[trigger] items_below(e, me, k)[j]).kind == items_entries(e, k)[j].kind
                &&& items_below(e, me, k)[j].path == items_entries(e, k)[j].path@
                &&& items_below(e, me, k)[j].name == shown_name(items_entries(e, k)[j].path@)
            },
    decreases e, k,
{
    if k <= 0 || k > e.items@.len() {
    } else {
        lemma_items_are_entries(e, me, k - 1);
        let prev = items_below(e, me, k - 1);
        let preve = items_entries(e, k - 1);
        match e.items@[k - 1] {
            Listing::Entry(c) => {
                assert(decreases_to!(e => e.items@[k - 1]));
                let cm = (me + 1 + prev.len()) as nat;
                lemma_below_are_entries(c, cm);
                let nb = items_below(e, me, k);
                let ne = items_entries(e, k);
                assert(nb == prev + seq![spec_of(c, Some(NodeId(me as usize)))] + below(c, cm));
                assert(ne == preve + seq![c] + entries_below(c));
                assert forall|j: int| 0 <= j < nb.len() implies {
                    &&& (#[trigger] nb[j]).kind == ne[j].kind
                    &&& nb[j].path == ne[j].path@
                    &&& nb[j].name == shown_name(ne[j].path@)
                } by {
                    if j < prev.len() {
                        assert(nb[j] == prev[j]);
                        assert(ne[j] == preve[j]);
                    } else if j == prev.len() {
                        assert(nb[j] == spec_of(c, Some(NodeId(me as usize))));
                        assert(ne[j] == c);
                    } else {
                        assert(nb[j] == below(c, cm)[j - prev.len() - 1]);
                        assert(ne[j] == entries_below(c)[j - prev.len() - 1]);
                    }
                }
            },
            Listing::Failure(_) => {},
        }
    }
}

/// Changing what a tree's nodes hold, but not how they link, keeps it a
/// tree.
proof fn lemma_same_shape_wf(a: FileTree, b: FileTree)
    requires
        a.wf(),
        a.len() == b.len(),
        a.root_id() == b.root_id(),
        forall|i: int|
            #![trigger b.nodes()[i]]
            0 <= i < a.len() ==> {
                &&& b.nodes()[i].id == a.nodes()[i].id
                &&& b.nodes()[i].parent == a.nodes()[i].parent
                &&& b.nodes()[i].children@ == a.nodes()[i].children@
            },
    ensures
        b.wf(),
{
    assert forall|i: int| 0 <= i < b.len() implies (#[trigger] b.nodes()[i]).id == NodeId(i as usize) by {
        assert(a.nodes()[i].id == NodeId(i as usize));
    }
    assert forall|i: int|
        #![trigger b.nodes()[i].parent]
        0 <= i < b.len() implies match b.nodes()[i].parent {
            Some(p) => p.0 < i && b.nodes()[p.0 as int].children@.contains(NodeId(i as usize)),
            None => i == 0,
        } by {
        assert(b.nodes()[i].parent == a.nodes()[i].parent);
        match a.nodes()[i].parent {
            Some(p) => {
                assert(b.nodes()[p.0 as int].children@ == a.nodes()[p.0 as int].children@);
            },
            None => {},
        }
    }
    assert forall|i: int, k: int|
        #![trigger b.nodes()[i].children@[k]]
        0 <= i < b.len() && 0 <= k < b.nodes()[i].children@.len() implies {
            let c = b.nodes()[i].children@[k];
            &&& i < c.0 < b.len()
            &&& b.nodes()[c.0 as int].parent == Some(NodeId(i as usize))
        } by {
        assert(b.nodes()[i].children@ == a.nodes()[i].children@);
        let c = a.nodes()[i].children@[k];
        assert(b.nodes()[c.0 as int].parent == a.nodes()[c.0 as int].parent);
    }
    assert forall|i: int, k1: int, k2: int|
        0 <= i < b.len() && 0 <= k1 < k2 < b.nodes()[i].children@.len()
            implies #[trigger] b.nodes()[i].children@[k1] != #[trigger] b.nodes()[i].children@[k2] by {
        assert(b.nodes()[i].children@ == a.nodes()[i].children@);
        assert(a.nodes()[i].children@[k1] != a.nodes()[i].children@[k2]);
    }
}

/// Sets the size of node `id`.
fn set_size(tree: &mut FileTree, id: NodeId, size: u64)
    requires
        old(tree).wf(),
        old(tree).valid_id(id),
    ensures
        final(tree).wf(),
        lists_in_id_order(*old(tree)) ==> lists_in_id_order(*final(tree)),
        final(tree).len() == old(tree).len(),
        final(tree).root_id() == old(tree).root_id(),
        final(tree).error_list() == old(tree).error_list(),
        forall|j: int| 0 <= j < old(tree).len() && j != id.0 ==> #[trigger] final(tree).nodes()[j] == old(tree).nodes()[j],
        final(tree).node(id).size_bytes == size,
        final(tree).node(id).id == old(tree).node(id).id,
        final(tree).node(id).parent == old(tree).node(id).parent,
        final(tree).node(id).name == old(tree).node(id).name,
        final(tree).node(id).path == old(tree).node(id).path,
        final(tree).node(id).kind == old(tree).node(id).kind,
        final(tree).node(id).children == old(tree).node(id).children,
{
    let ghost t0 = *tree;
    tree.get_mut(id).size_bytes = size;
    proof {
        lemma_same_shape_wf(t0, *tree);
        if lists_in_id_order(t0) {
            assert forall|i: int| 0 <= i < tree.len() implies #[trigger] tree.nodes()[i].children@ == ids_under(*tree, i) by {
                lemma_ids_under_same(t0, *tree, i);
                assert(t0.nodes()[i].children@ == ids_under(t0, i));
            }
        }
    }
}

/// Adds node `e` under `parent` as its last child, with nothing below it
/// yet and no size.
fn add_entry(tree: &mut FileTree, parent: NodeId, e: &RawEntry) -> (id: NodeId)
    requires
        old(tree).wf(),
        old(tree).valid_id(parent),
    ensures
        final(tree).wf(),
        lists_in_id_order(*old(tree)) ==> lists_in_id_order(*final(tree)),
        id == NodeId(old(tree).len() as usize),
        final(tree).len() == old(tree).len() + 1,
        final(tree).root_id() == old(tree).root_id(),
        final(tree).error_list() == old(tree).error_list(),
        forall|j: int| 0 <= j < old(tree).len() && j != parent.0 ==> #[trigger] final(tree).nodes()[j] == old(tree).nodes()[j],
        final(tree).node(parent).id == old(tree).node(parent).id,
        final(tree).node(parent).parent == old(tree).node(parent).parent,
        final(tree).node(parent).name == old(tree).node(parent).name,
        final(tree).node(parent).path == old(tree).node(parent).path,
        final(tree).node(parent).kind == old(tree).node(parent).kind,
        final(tree).node(parent).size_bytes == old(tree).node(parent).size_bytes,
        final(tree).child_list(parent) == old(tree).child_list(parent).push(id),
        final(tree).child_list(id).len() == 0,
        shows_spec(*final(tree), id.0 as int, NodeSpec { size: 0, ..spec_of(*e, Some(parent)) }),
        final(tree).node(id).kind == e.kind,
        final(tree).node(id).path@ == e.path@,
        final(tree).node(id).parent == Some(parent),
{
    let ghost t0 = *tree;
    let id = tree.add_node(FileNode {
        id: NodeId(0),
        parent: Some(parent),
        name: display_name(e.path.as_str()),
        path: e.path.clone(),
        kind: e.kind,
        size_bytes: 0,
        children: Vec::new(),
    });
    let ghost mid = *tree;
    tree.get_mut(parent).children.push(id);
    proof {
        assert(tree.nodes()[id.0 as int] == mid.nodes()[id.0 as int]);
        assert forall|i: int| 0 <= i < t0.len() && i != parent.0 implies #[trigger] tree.nodes()[i] == t0.nodes()[i] by {
            assert(mid.nodes()[i] == t0.nodes()[i]);
        }
        assert(mid.nodes()[parent.0 as int] == t0.nodes()[parent.0 as int]);
        lemma_add_leaf_keeps_wf(t0, *tree, parent, id);
        if lists_in_id_order(t0) {
            assert forall|j: int| 0 <= j < t0.len() implies #[trigger] tree.nodes()[j].parent == t0.nodes()[j].parent by {
                if j != parent.0 {
                    assert(tree.nodes()[j] == t0.nodes()[j]);
                }
            }
            assert forall|i: int| 0 <= i < tree.len() implies #[trigger] tree.nodes()[i].children@ == ids_under(*tree, i) by {
                if i < t0.len() {
                    lemma_ids_under_push(t0, *tree, parent, i);
                    assert(t0.nodes()[i].children@ == ids_under(t0, i));
                    if i == parent.0 {
                        assert(NodeId(i as usize) == parent);
                    } else {
                        assert(tree.nodes()[i] == t0.nodes()[i]);
                    }
                } else {
                    lemma_ids_under_new(*tree, i);
                    assert(tree.nodes()[i].children@ =~= Seq::<NodeId>::empty());
                }
            }
        }
    }
    id
}

proof fn lemma_error_views_push(a: FileTree, b: FileTree, err: ScanError)
    requires
        b.error_list() == a.error_list().push(err),
    ensures
        error_views(b) == error_views(a).push((err.path@, err.message@)),
{
    assert(error_views(b) =~= error_views(a).push((err.path@, err.message@)));
}

/// Whether `t` is what scanning the first `k` items of entry `e`, node
/// `me` and last of `t0`, makes of `t0`.
pub open spec fn built(t: FileTree, t0: FileTree, e: RawEntry, me: nat, k: int) -> bool {
    &&& listed(e)
    &&& 0 <= k <= e.items@.len()
    &&& t.wf()
    &&& (lists_in_id_order(t0) ==> lists_in_id_order(t))
    &&& me + 1 == t0.len()
    &&& t.len() == me + 1 + items_below(e, me, k).len()
    &&& t.root_id() == t0.root_id()
    &&& forall|j: int| 0 <= j < me ==> #[trigger] t.nodes()[j] == t0.nodes()[j]
    &&& t.nodes()[me as int].id == t0.nodes()[me as int].id
    &&& t.nodes()[me as int].parent == t0.nodes()[me as int].parent
    &&& t.nodes()[me as int].name == t0.nodes()[me as int].name
    &&& t.nodes()[me as int].path == t0.nodes()[me as int].path
    &&& t.nodes()[me as int].kind == t0.nodes()[me as int].kind
    &&& t.nodes()[me as int].size_bytes == t0.nodes()[me as int].size_bytes
    &&& t.nodes()[me as int].children@ == items_ids(e, me, k)
    &&& forall|j: int| me < j < t.len() ==> shows_spec(t, j, #[trigger] items_below(e, me, k)[j - me - 1])
    &&& error_views(t) == error_views(t0) + items_errors(e, k)
}

/// Scans item `k` of the listing of entry `e`, which is node `id`; `total`
/// is what the entries before it add up to, and the result what they add up
/// to with it.
fn scan_item(tree: &mut FileTree, id: NodeId, e: &RawEntry, k: usize, total: u64, Ghost(t0): Ghost<FileTree>) -> (r: u64)
    requires
        built(*old(tree), t0, *e, id.0 as nat, k as int),
        k < e.items@.len(),
        total == items_size(*e, k as int),
    ensures
        built(*final(tree), t0, *e, id.0 as nat, k + 1),
        r == items_size(*e, k + 1),
    decreases *e, 0int,
{
    let ghost me = id.0 as nat;
    let ghost tk = *tree;
    let ghost prev = items_below(*e, me, k as int);
    match &e.items[k] {
        Listing::Entry(c) => {
            proof {
                assert(decreases_to!(*e => e.items@[k as int]));
                assert(tree.nodes()[me as int].children@ == tree.child_list(id));
            }
            let cid = add_entry(tree, id, c);
            let ghost t1 = *tree;
            let child_size = scan_node(tree, cid, c);
            let ghost t2 = *tree;
            set_size(tree, cid, child_size);
            proof {
                let sc = spec_of(*c, Some(NodeId(me as usize)));
                let bc = below(*c, cid.0 as nat);
                let next = items_below(*e, me, k + 1);
                assert(NodeId(me as usize) == id);
                assert(cid.0 == me + 1 + prev.len());
                assert(next == prev + seq![sc] + bc);
                assert(items_ids(*e, me, k + 1) =~= items_ids(*e, me, k as int).push(cid));
                assert forall|j: int| me < j < tree.len() implies shows_spec(*tree, j, #[trigger] next[j - me - 1]) by {
                    if j < cid.0 {
                        assert(t1.nodes()[j] == tk.nodes()[j]);
                        assert(t2.nodes()[j] == t1.nodes()[j]);
                        assert(tree.nodes()[j] == t2.nodes()[j]);
                        assert(shows_spec(tk, j, items_below(*e, me, k as int)[j - me - 1]));
                        assert(next[j - me - 1] == prev[j - me - 1]);
                    } else if j == cid.0 {
                        assert(next[j - me - 1] == sc);
                    } else {
                        assert(tree.nodes()[j] == t2.nodes()[j]);
                        assert(shows_spec(t2, j, bc[j - cid.0 - 1]));
                        assert(next[j - me - 1] == bc[j - cid.0 - 1]);
                    }
                }
                assert forall|j: int| 0 <= j < me implies #[trigger] tree.nodes()[j] == t0.nodes()[j] by {
                    assert(t1.nodes()[j] == tk.nodes()[j]);
                    assert(t2.nodes()[j] == t1.nodes()[j]);
                    assert(tree.nodes()[j] == t2.nodes()[j]);
                }
                assert(t2.nodes()[me as int] == t1.nodes()[me as int]);
                assert(tree.nodes()[me as int] == t2.nodes()[me as int]);
                assert(error_views(*tree) == error_views(t2));
                assert(error_views(t1) == error_views(tk));
                assert(error_views(*tree) =~= error_views(t0) + items_errors(*e, k + 1));
            }
            total.saturating_add(child_size)
        },
        Listing::Failure(err) => {
            let copy = ScanError { path: err.path.clone(), message: err.message.clone() };
            tree.add_error(copy);
            proof {
                lemma_error_views_push(tk, *tree, copy);
                assert(items_below(*e, me, k + 1) == prev);
                assert(items_ids(*e, me, k + 1) =~= items_ids(*e, me, k as int));
                assert(error_views(*tree) =~= error_views(t0) + items_errors(*e, k + 1));
                assert forall|j: int| me < j < tree.len() implies shows_spec(*tree, j, #[trigger] items_below(*e, me, k + 1)[j - me - 1]) by {
                    assert(shows_spec(tk, j, items_below(*e, me, k as int)[j - me - 1]));
                }
            }
            total
        },
    }
}

/// Scans entry `e`, which is node `id`, the last node of the tree: adds
/// the entries of its listing below it, depth first, and records the
/// errors met on the way; returns its size.
fn scan_node(tree: &mut FileTree, id: NodeId, e: &RawEntry) -> (size: u64)
    requires
        old(tree).wf(),
        id.0 + 1 == old(tree).len(),
        old(tree).child_list(id).len() == 0,
        old(tree).node(id).path@ == e.path@,
    ensures
        size == raw_size(*e),
        final(tree).wf(),
        lists_in_id_order(*old(tree)) ==> lists_in_id_order(*final(tree)),
        final(tree).len() == old(tree).len() + below(*e, id.0 as nat).len(),
        final(tree).root_id() == old(tree).root_id(),
        forall|j: int| 0 <= j < id.0 ==> #[trigger] final(tree).nodes()[j] == old(tree).nodes()[j],
        final(tree).node(id).id == old(tree).node(id).id,
        final(tree).node(id).parent == old(tree).node(id).parent,
        final(tree).node(id).name == old(tree).node(id).name,
        final(tree).node(id).path == old(tree).node(id).path,
        final(tree).node(id).kind == old(tree).node(id).kind,
        final(tree).node(id).size_bytes == old(tree).node(id).size_bytes,
        final(tree).child_list(id) == kids_of(*e, id.0 as nat),
        forall|j: int|
            id.0 < j < final(tree).len() ==> shows_spec(*final(tree), j, #[trigger] below(*e, id.0 as nat)[j - id.0 - 1]),
        error_views(*final(tree)) == error_views(*old(tree)) + raw_errors(*e),
    decreases *e, 1int,
{
    let ghost t0 = *tree;
    let ghost me = id.0 as nat;
    if e.kind != NodeKind::Directory {
        proof {
            assert(error_views(t0) + Seq::empty() =~= error_views(t0));
        }
        return e.len;
    }
    match &e.read_error {
        Some(message) => {
            let path = tree.get(id).path.clone();
            let error = ScanError { path, message: message.clone() };
            tree.add_error(error);
            proof {
                lemma_error_views_push(t0, *tree, error);
                assert(error_views(*tree) =~= error_views(t0) + raw_errors(*e));
            }
            return 0;
        },
        None => {},
    }
    let mut total: u64 = 0;
    let n = e.items.len();
    proof {
        assert(error_views(t0) + Seq::empty() =~= error_views(t0));
        assert(tree.nodes()[me as int].children@ == tree.child_list(id));
        assert(items_ids(*e, me, 0) =~= Seq::<NodeId>::empty());
        assert(tree.child_list(id) =~= Seq::<NodeId>::empty());
        assert(items_below(*e, me, 0) =~= Seq::<NodeSpec>::empty());
        assert(items_errors(*e, 0) =~= Seq::<(Seq<char>, Seq<char>)>::empty());
        assert(built(*tree, t0, *e, me, 0));
    }
    for k in 0..n
        invariant
            n == e.items@.len(),
            me == id.0,
            built(*tree, t0, *e, me, k as int),
            total == items_size(*e, k as int),
    {
        total = scan_item(tree, id, e, k, total, Ghost(t0));
    }
    proof {
        assert(below(*e, me) == items_below(*e, me, n as int));
        assert(tree.nodes()[me as int].children@ == tree.child_list(id));
    }
    total
}

/// A stable display-order sort stays one where only children lists change.
proof fn lemma_stable_transfer(a: FileTree, b: FileTree, r: Seq<NodeId>, s: Seq<NodeId>)
    requires
        same_but_children(a, b),
        a.is_stable_sort_of(r, s),
        forall|k: int| 0 <= k < r.len() ==> (#[trigger] r[k]).0 < a.len(),
        forall|k: int| 0 <= k < s.len() ==> (#[trigger] s[k]).0 < a.len(),
    ensures
        b.is_stable_sort_of(r, s),
{
    assert forall|p: int, q: int| 0 <= p < q < r.len() implies #[trigger] b.precedes(r[p], r[q]) by {
        assert(a.precedes(r[p], r[q]));
        assert(b.nodes()[r[p].0 as int].size_bytes == a.nodes()[r[p].0 as int].size_bytes);
        assert(b.nodes()[r[q].0 as int].size_bytes == a.nodes()[r[q].0 as int].size_bytes);
    }
    assert forall|size: u64, name: Seq<char>| #[trigger] r.filter(b.has_key(size, name)) == s.filter(b.has_key(size, name)) by {
        assert forall|k: int| 0 <= k < r.len() implies a.has_key(size, name)(#[trigger] r[k]) == b.has_key(size, name)(r[k]) by {
            assert(b.nodes()[r[k].0 as int].size_bytes == a.nodes()[r[k].0 as int].size_bytes);
        }
        assert forall|k: int| 0 <= k < s.len() implies a.has_key(size, name)(#[trigger] s[k]) == b.has_key(size, name)(s[k]) by {
            assert(b.nodes()[s[k].0 as int].size_bytes == a.nodes()[s[k].0 as int].size_bytes);
        }
        lemma_filter_congruent(r, a.has_key(size, name), b.has_key(size, name));
        lemma_filter_congruent(s, a.has_key(size, name), b.has_key(size, name));
        assert(r.filter(a.has_key(size, name)) == s.filter(a.has_key(size, name)));
    }
}

/// Every node of a tree lies in the subtree of its root.
pub proof fn lemma_all_below_root(t: FileTree, j: int)
    requires
        t.wf(),
        0 <= j < t.len(),
    ensures
        t.subtree(NodeId(0)).contains(j),
    decreases j,
{
    if j > 0 {
        assert(t.nodes()[j].id == NodeId(j as usize));
        let p = t.nodes()[j].parent.unwrap();
        assert(p.0 < j);
        lemma_all_below_root(t, p.0 as int);
        let d = NodeId(j as usize);
        assert(t.node(d).parent == Some(p));
        assert(NodeId(p.0 as int as usize) == p);
        if p.0 == 0 {
            assert(p == NodeId(0));
            assert(t.is_descendant(NodeId(0), d));
        } else {
            assert(t.is_descendant(NodeId(0), p));
            assert(t.is_descendant(NodeId(0), d));
        }
    }
}

/// Builds the tree of a scan from what reading the disk gave, `root` being
/// the scanned path: node 0 is the root, the entries follow depth first in
/// the order their listings gave them, each directory's size is what its
/// entries add up to, and every node's children are then put in display
/// order.
pub fn build_tree(root: &RawEntry) -> (t: FileTree)
    ensures
        t.wf(),
        t.len() == 1 + below(*root, 0).len(),
        shows_spec(t, 0, spec_of(*root, None)),
        forall|j: int| 1 <= j < t.len() ==> shows_spec(t, j, #[trigger] below(*root, 0)[j - 1]),
        error_views(t) == raw_errors(*root),
        forall|i: int| 0 <= i < t.len() ==> t.is_stable_sort_of(#[trigger] t.child_list(NodeId(i as usize)), ids_under(t, i)),
        t.nodes()[0].kind == root.kind,
        t.nodes()[0].path@ == root.path@,
        t.len() == 1 + entries_below(*root).len(),
        forall|j: int|
            1 <= j < t.len() ==> {
                &&& (#[trigger] t.nodes()[j]).kind == entries_below(*root)[j - 1].kind
                &&& t.nodes()[j].path@ == entries_below(*root)[j - 1].path@
                &&& t.nodes()[j].parent is Some
            },
{
    let node = FileNode {
        id: NodeId(0),
        parent: None,
        name: display_name(root.path.as_str()),
        path: root.path.clone(),
        kind: root.kind,
        size_bytes: 0,
        children: Vec::new(),
    };
    let mut tree = FileTree::new(node);
    proof {
        assert(tree.nodes()[0] == node);
        assert(error_views(tree) =~= Seq::<(Seq<char>, Seq<char>)>::empty());
        lemma_ids_under_new(tree, 0);
        assert(tree.nodes()[0].children@ =~= Seq::<NodeId>::empty());
        assert(lists_in_id_order(tree));
    }
    let size = scan_node(&mut tree, NodeId(0), root);
    let ghost scanned = tree;
    set_size(&mut tree, NodeId(0), size);
    let ghost built = tree;
    sort_all_children(&mut tree, NodeId(0));
    proof {
        assert(built.nodes()[0].name == node.name);
        assert forall|j: int| 1 <= j < tree.len() implies shows_spec(tree, j, #[trigger] below(*root, 0)[j - 1]) by {
            assert(shows_spec(scanned, j, below(*root, 0)[j - 0 - 1]));
            assert(built.nodes()[j] == scanned.nodes()[j]);
            assert(tree.nodes()[j].parent == built.nodes()[j].parent);
        }
        assert forall|i: int| 0 <= i < tree.len() implies tree.is_stable_sort_of(#[trigger] tree.child_list(NodeId(i as usize)), ids_under(tree, i)) by {
            let ni = NodeId(i as usize);
            lemma_all_below_root(built, i);
            assert(tree.child_list(ni) == built.sorted_children(ni));
            built.lemma_sorted_children(ni);
            assert(built.nodes()[i].children@ == ids_under(built, i));
            assert(built.child_list(ni) == ids_under(built, i));
            built.lemma_wf_children_valid();
            let s = built.child_list(ni);
            let r = built.sorted_children(ni);
            assert forall|k: int| 0 <= k < s.len() implies (#[trigger] s[k]).0 < built.len() by {
                assert(built.nodes()[i].children@[k] == s[k]);
            }
            assert forall|k: int| 0 <= k < r.len() implies (#[trigger] r[k]).0 < built.len() by {
                assert(r.contains(r[k]));
                assert(s.contains(r[k]));
            }
            lemma_stable_transfer(built, tree, r, s);
            assert forall|j: int| 0 <= j < built.len() implies #[trigger] tree.nodes()[j].parent == built.nodes()[j].parent by {
            }
            lemma_ids_under_same(built, tree, i);
        }
        lemma_below_are_entries(*root, 0);
        assert forall|j: int| 1 <= j < tree.len() implies {
            &&& (#[trigger] tree.nodes()[j]).kind == entries_below(*root)[j - 1].kind
            &&& tree.nodes()[j].path@ == entries_below(*root)[j - 1].path@
            &&& tree.nodes()[j].parent is Some
        } by {
            assert(shows_spec(tree, j, below(*root, 0)[j - 1]));
            assert(below(*root, 0)[j - 1].kind == entries_below(*root)[j - 1].kind);
            tree.lemma_wf_ids_valid();
        }
        assert(shows_spec(tree, 0, spec_of(*root, None)));
    }
    tree
}

} // verus!
