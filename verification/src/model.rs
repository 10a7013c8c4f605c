use vstd::prelude::*;

use crate::order::{chars_le, chars_le_exec, lemma_chars_le_antisym, lemma_chars_le_refl, lemma_chars_le_total, lemma_chars_le_trans};
use crate::seqs::{lemma_filter_congruent, lemma_filter_insert, lemma_filter_none, lemma_filter_push};
use crate::text::{chars_of, decimal, join, join_strings, push_decimal, push_str, views};

verus! {

/// Index of a node inside a [`FileTree`].
#[derive(Debug, Clone, Copy, PartialEq, Eq, Hash, Structural)]
pub struct NodeId(pub usize);

/// What a scanned filesystem entry is.
#[derive(Debug, Clone, Copy, PartialEq, Eq, Structural)]
pub enum NodeKind {
    Directory,
    File,
    Symlink,
    Other,
}

impl NodeKind {
    /// The three-character badge shown for each kind.
    pub open spec fn icon_text(self) -> Seq<char> {
        match self {
            NodeKind::Directory => "[D]"@,
            NodeKind::File => "[F]"@,
            NodeKind::Symlink => "[L]"@,
            NodeKind::Other => "[?]"@,
        }
    }

    /// The short tag shown before an entry of this kind.
    pub fn icon(self) -> (r: &'static str)
        ensures
            r@ == self.icon_text(),
    {
        match self {
            NodeKind::Directory => "[D]",
            NodeKind::File => "[F]",
            NodeKind::Symlink => "[L]",
            NodeKind::Other => "[?]",
        }
    }
}

/// One entry of the scanned tree. Paths are kept as text.
#[derive(Debug)]
pub struct FileNode {
    pub id: NodeId,
    pub parent: Option<NodeId>,
    pub name: String,
    pub path: String,
    pub kind: NodeKind,
    pub size_bytes: u64,
    pub children: Vec<NodeId>,
}

/// A path that could not be read during a scan, with the reason.
#[derive(Debug)]
pub struct ScanError {
    pub path: String,
    pub message: String,
}

/// An arena of nodes; node 0 is the root.
#[derive(Debug)]
pub struct FileTree {
    nodes: Vec<FileNode>,
    root: NodeId,
    errors: Vec<ScanError>,
}

impl FileTree {
    /// The nodes, indexed by id.
    pub closed spec fn nodes(&self) -> Seq<FileNode> {
        self.nodes@
    }

    /// The id of the root.
    pub closed spec fn root_id(&self) -> NodeId {
        self.root
    }

    /// The errors met while scanning, in order.
    pub closed spec fn error_list(&self) -> Seq<ScanError> {
        self.errors@
    }

    /// The number of nodes.
    pub open spec fn len(&self) -> nat {
        self.nodes().len()
    }

    /// Whether `id` names a node of the tree.
    pub open spec fn valid_id(&self, id: NodeId) -> bool {
        id.0 < self.len()
    }

    /// The node named `id`.
    pub open spec fn node(&self, id: NodeId) -> FileNode {
        self.nodes()[id.0 as int]
    }

    /// The children of node `id`, in the order the node lists them.
    pub open spec fn child_list(&self, id: NodeId) -> Seq<NodeId> {
        self.node(id).children@
    }

    /// Every child id of every node names a node of the tree.
    pub open spec fn children_valid(&self) -> bool {
        forall|i: int, k: int|
            #![trigger self.nodes()[i].children@[k]]
            0 <= i < self.len() && 0 <= k < self.nodes()[i].children@.len()
                ==> self.nodes()[i].children@[k].0 < self.len()
    }

    /// The arena is a tree rooted at node 0: ids match positions, a parent
    /// always comes before its child and lists it exactly once, and every
    /// listed child names its parent.
    pub open spec fn wf(&self) -> bool {
        &&& 0 < self.len() <= usize::MAX
        &&& self.root_id() == NodeId(0)
        &&& forall|i: int| 0 <= i < self.len() ==> (#[trigger] self.nodes()[i]).id == NodeId(i as usize)
        &&& forall|i: int|
            #![trigger self.nodes()[i].parent]
            0 <= i < self.len() ==> match self.nodes()[i].parent {
                Some(p) => p.0 < i && self.nodes()[p.0 as int].children@.contains(NodeId(i as usize)),
                None => i == 0,
            }
        &&& forall|i: int, k: int|
            #![trigger self.nodes()[i].children@[k]]
            0 <= i < self.len() && 0 <= k < self.nodes()[i].children@.len() ==> {
                let c = self.nodes()[i].children@[k];
                &&& i < c.0 < self.len()
                &&& self.nodes()[c.0 as int].parent == Some(NodeId(i as usize))
            }
        &&& forall|i: int, k1: int, k2: int|
            0 <= i < self.len() && 0 <= k1 < k2 < self.nodes()[i].children@.len()
                ==> #[trigger] self.nodes()[i].children@[k1] != #[trigger] self.nodes()[i].children@[k2]
    }

    /// In a tree every listed child names a node.
    pub proof fn lemma_wf_children_valid(&self)
        requires
            self.wf(),
        ensures
            self.children_valid(),
    {
    }

    /// Every id stored in the tree (the root, each child, each parent) names
    /// one of its nodes.
    pub open spec fn ids_valid(&self) -> bool {
        &&& self.valid_id(self.root_id())
        &&& self.children_valid()
        &&& forall|i: int|
            #![trigger self.nodes()[i].parent]
            0 <= i < self.len() ==> match self.nodes()[i].parent {
                Some(p) => p.0 < self.len(),
                None => true,
            }
    }

    /// In a tree every stored id names a node.
    pub proof fn lemma_wf_ids_valid(&self)
        requires
            self.wf(),
        ensures
            self.ids_valid(),
    {
        assert forall|i: int| 0 <= i < self.len() implies match #[trigger] self.nodes()[i].parent {
            Some(p) => p.0 < self.len(),
            None => true,
        } by {
            assert(self.nodes()[i].parent == self.nodes()[i].parent);
        }
    }

    /// A tree holding only `root_node`, which becomes node 0.
    pub fn new(root_node: FileNode) -> (t: Self)
        ensures
            t.nodes() == seq![root_node],
            t.root_id() == NodeId(0),
            t.error_list().len() == 0,
            (root_node.id == NodeId(0) && root_node.parent is None && root_node.children@.len() == 0)
                ==> t.wf(),
    {
        let mut nodes: Vec<FileNode> = Vec::new();
        nodes.push(root_node);
        let t = FileTree { nodes, root: NodeId(0), errors: Vec::new() };
        proof {
            assert(t.nodes() =~= seq![root_node]);
        }
        t
    }

    /// The id of the root.
    pub fn root(&self) -> (r: NodeId)
        ensures
            r == self.root_id(),
    {
        self.root
    }

    /// The node named `id`.
    pub fn get(&self, id: NodeId) -> (r: &FileNode)
        requires
            self.valid_id(id),
        ensures
            *r == self.node(id),
    {
        &self.nodes[id.0]
    }

    /// The node named `id`, to change.
    pub fn get_mut(&mut self, id: NodeId) -> (r: &mut FileNode)
        requires
            old(self).valid_id(id),
        ensures
            *r == old(self).node(id),
            final(self).nodes() == old(self).nodes().update(id.0 as int, *final(r)),
            final(self).root_id() == old(self).root_id(),
            final(self).error_list() == old(self).error_list(),
    {
        &mut self.nodes[id.0]
    }

    /// Appends `node` under the next free id, which it returns; the node's
    /// `id` field is overwritten with that id.
    pub fn add_node(&mut self, node: FileNode) -> (id: NodeId)
        ensures
            id == NodeId(old(self).len() as usize),
            final(self).nodes() == old(self).nodes().push(FileNode { id, ..node }),
            final(self).len() <= usize::MAX,
            final(self).root_id() == old(self).root_id(),
            final(self).error_list() == old(self).error_list(),
    {
        let mut node = node;
        let id = NodeId(self.nodes.len());
        node.id = id;
        self.nodes.push(node);
        let _ = self.nodes.len();
        id
    }

    /// Records an error met while scanning.
    pub fn add_error(&mut self, error: ScanError)
        ensures
            final(self).error_list() == old(self).error_list().push(error),
            final(self).nodes() == old(self).nodes(),
            final(self).root_id() == old(self).root_id(),
    {
        self.errors.push(error);
    }

    /// The errors met while scanning, in order.
    pub fn errors(&self) -> (r: &[ScanError])
        ensures
            r@ == self.error_list(),
    {
        self.errors.as_slice()
    }
}


/// Size-then-name order of two sort keys: larger sizes first, equal sizes
/// by name.
pub open spec fn key_precedes(size_a: u64, name_a: Seq<char>, size_b: u64, name_b: Seq<char>) -> bool {
    size_a > size_b || (size_a == size_b && chars_le(name_a, name_b))
}

fn key_precedes_exec(size_a: u64, name_a: &Vec<char>, size_b: u64, name_b: &Vec<char>) -> (r: bool)
    ensures
        r == key_precedes(size_a, name_a@, size_b, name_b@),
{
    size_a > size_b || (size_a == size_b && chars_le_exec(name_a, name_b))
}

impl FileTree {
    /// `a` is listed at or before `b`: it is larger, or as large with a name
    /// that sorts no later.
    pub open spec fn precedes(&self, a: NodeId, b: NodeId) -> bool {
        key_precedes(self.node(a).size_bytes, self.node(a).name@, self.node(b).size_bytes, self.node(b).name@)
    }

    /// The nodes whose size and name are the given ones.
    pub open spec fn has_key(&self, size: u64, name: Seq<char>) -> spec_fn(NodeId) -> bool {
        |c: NodeId| self.node(c).size_bytes == size && self.node(c).name@ == name
    }

    /// `r` is `s` sorted largest first, then by name, keeping the given
    /// relative order of entries with the same size and name.
    pub open spec fn is_stable_sort_of(&self, r: Seq<NodeId>, s: Seq<NodeId>) -> bool {
        &&& forall|i: int, j: int| 0 <= i < j < r.len() ==> #[trigger] self.precedes(r[i], r[j])
        &&& forall|size: u64, name: Seq<char>|
            #[trigger] r.filter(self.has_key(size, name)) == s.filter(self.has_key(size, name))
    }

    /// Of two nodes one is listed at or before the other.
    pub proof fn lemma_precedes_total(&self, a: NodeId, b: NodeId)
        ensures
            self.precedes(a, b) || self.precedes(b, a),
    {
        lemma_chars_le_total(self.node(a).name@, self.node(b).name@);
    }

    /// Display order is transitive.
    pub proof fn lemma_precedes_trans(&self, a: NodeId, b: NodeId, c: NodeId)
        requires
            self.precedes(a, b),
            self.precedes(b, c),
        ensures
            self.precedes(a, c),
    {
        if self.node(a).size_bytes == self.node(b).size_bytes && self.node(b).size_bytes == self.node(c).size_bytes {
            lemma_chars_le_trans(self.node(a).name@, self.node(b).name@, self.node(c).name@);
        }
    }

    /// Two nodes that each precede the other have the same size and name.
    pub proof fn lemma_precedes_antisym(&self, a: NodeId, b: NodeId)
        requires
            self.precedes(a, b),
            self.precedes(b, a),
        ensures
            self.has_key(self.node(a).size_bytes, self.node(a).name@)(b),
    {
        lemma_chars_le_antisym(self.node(a).name@, self.node(b).name@);
    }

    /// The children of `id` in display order.
    pub open spec fn sorted_children(&self, id: NodeId) -> Seq<NodeId> {
        choose|r: Seq<NodeId>| self.is_stable_sort_of(r, self.child_list(id))
    }

    /// A nonempty sequence holds its first item in that item's key class.
    proof fn lemma_class_nonempty(&self, r: Seq<NodeId>)
        requires
            r.len() > 0,
        ensures
            r.filter(self.has_key(self.node(r[0]).size_bytes, self.node(r[0]).name@)).len() > 0,
            r.filter(self.has_key(self.node(r[0]).size_bytes, self.node(r[0]).name@))[0] == r[0],
    {
        let k = self.has_key(self.node(r[0]).size_bytes, self.node(r[0]).name@);
        assert(r =~= seq![r[0]] + r.drop_first());
        r.drop_first().lemma_filter_prepend(r[0], k);
    }

    /// A stable sort keeps exactly the items of what it sorts.
    pub proof fn lemma_stable_sort_members(&self, r: Seq<NodeId>, s: Seq<NodeId>, x: NodeId)
        requires
            self.is_stable_sort_of(r, s),
        ensures
            r.contains(x) <==> s.contains(x),
    {
        let k = self.has_key(self.node(x).size_bytes, self.node(x).name@);
        assert(r.filter(k) == s.filter(k));
        if r.contains(x) {
            let i = choose|i: int| 0 <= i < r.len() && r[i] == x;
            r.lemma_filter_contains(k, i);
            s.lemma_filter_contains_rev(k, x);
        }
        if s.contains(x) {
            let i = choose|i: int| 0 <= i < s.len() && s[i] == x;
            s.lemma_filter_contains(k, i);
            r.lemma_filter_contains_rev(k, x);
        }
    }

    /// There is only one stable size-then-name ordering of a sequence.
    pub proof fn lemma_stable_sort_unique(&self, r1: Seq<NodeId>, r2: Seq<NodeId>, s: Seq<NodeId>)
        requires
            self.is_stable_sort_of(r1, s),
            self.is_stable_sort_of(r2, s),
        ensures
            r1 == r2,
        decreases r1.len(),
    {
        if r1.len() == 0 && r2.len() == 0 {
            assert(r1 =~= r2);
        } else if r1.len() == 0 || r2.len() == 0 {
            let r = if r1.len() == 0 { r2 } else { r1 };
            let e = if r1.len() == 0 { r1 } else { r2 };
            self.lemma_class_nonempty(r);
            let k = self.has_key(self.node(r[0]).size_bytes, self.node(r[0]).name@);
            assert(r.filter(k) == s.filter(k));
            assert(e.filter(k) == s.filter(k));
            assert(e =~= Seq::<NodeId>::empty());
            reveal(Seq::filter);
            assert(e.filter(k).len() == 0);
        } else {
            let x = r1[0];
            let y = r2[0];
            let kx = self.has_key(self.node(x).size_bytes, self.node(x).name@);
            let ky = self.has_key(self.node(y).size_bytes, self.node(y).name@);
            self.lemma_class_nonempty(r1);
            self.lemma_class_nonempty(r2);
            assert(r1.filter(kx) == s.filter(kx) && r2.filter(kx) == s.filter(kx));
            assert(r1.filter(ky) == s.filter(ky) && r2.filter(ky) == s.filter(ky));
            // x occurs in r2, so y precedes x; and symmetrically
            broadcast use vstd::seq_lib::group_filter_ensures;
            assert(r2.filter(kx).contains(x));
            assert(r1.filter(ky).contains(y));
            r2.lemma_filter_contains_rev(kx, x);
            r1.lemma_filter_contains_rev(ky, y);
            let j2 = choose|j: int| 0 <= j < r2.len() && r2[j] == x;
            let j1 = choose|j: int| 0 <= j < r1.len() && r1[j] == y;
            if j2 > 0 {
                assert(self.precedes(r2[0], r2[j2]));
            } else {
                lemma_chars_le_refl(self.node(x).name@);
            }
            if j1 > 0 {
                assert(self.precedes(r1[0], r1[j1]));
            } else {
                lemma_chars_le_refl(self.node(x).name@);
            }
            self.lemma_precedes_antisym(x, y);
            assert(kx == ky);
            assert(x == y);
            let t1 = r1.drop_first();
            let t2 = r2.drop_first();
            let st = r1.filter(kx).drop_first();
            assert forall|size: u64, name: Seq<char>| #[trigger] t1.filter(self.has_key(size, name)) == t2.filter(self.has_key(size, name)) by {
                let k = self.has_key(size, name);
                assert(r1 =~= seq![x] + t1);
                assert(r2 =~= seq![x] + t2);
                t1.lemma_filter_prepend(x, k);
                t2.lemma_filter_prepend(x, k);
                assert(r1.filter(k) == r2.filter(k));
                if k(x) {
                    assert(t1.filter(k) =~= r1.filter(k).drop_first());
                    assert(t2.filter(k) =~= r2.filter(k).drop_first());
                } else {
                    assert(t1.filter(k) =~= r1.filter(k));
                    assert(t2.filter(k) =~= r2.filter(k));
                }
            }
            assert(self.is_stable_sort_of(t1, t1));
            assert forall|size: u64, name: Seq<char>| #[trigger] t2.filter(self.has_key(size, name)) == t1.filter(self.has_key(size, name)) by {
            }
            self.lemma_stable_sort_unique(t1, t2, t1);
            assert(r1 =~= seq![x] + t1);
            assert(r2 =~= seq![x] + t2);
        }
    }


    /// Inserting an item just after everything that precedes it keeps a
    /// stable sort.
    proof fn lemma_insert_keeps_stable(&self, o: Seq<NodeId>, s: Seq<NodeId>, c: NodeId, p: int)
        requires
            self.is_stable_sort_of(o, s),
            0 <= p <= o.len(),
            forall|q: int| 0 <= q < p ==> #[trigger] self.precedes(o[q], c),
            p < o.len() ==> !self.precedes(o[p], c),
        ensures
            self.is_stable_sort_of(o.insert(p, c), s.push(c)),
    {
        // everything from p on comes strictly after c
        assert forall|q: int| p <= q < o.len() implies !#[trigger] self.precedes(o[q], c) by {
            if self.precedes(o[q], c) {
                if q > p {
                    assert(self.precedes(o[p as int], o[q]));
                    self.lemma_precedes_trans(o[p as int], o[q], c);
                }
            }
        }
        let o2 = o.insert(p, c);
        assert forall|a: int, b: int| 0 <= a < b < o2.len() implies #[trigger] self.precedes(o2[a], o2[b]) by {
            if a < p && b == p {
            } else if a == p && b > p {
                assert(o2[b] == o[b - 1]);
                self.lemma_precedes_total(c, o[b - 1]);
            } else if a < p && b > p {
                assert(o2[b] == o[b - 1]);
                assert(self.precedes(o[a], o[b - 1]));
            } else if b < p {
                assert(self.precedes(o[a], o[b]));
            } else {
                assert(o2[a] == o[a - 1]);
                assert(o2[b] == o[b - 1]);
                assert(self.precedes(o[a - 1], o[b - 1]));
            }
        }
        assert forall|sz: u64, nm: Seq<char>|
            #[trigger] o2.filter(self.has_key(sz, nm)) == s.push(c).filter(self.has_key(sz, nm))
        by {
            let k = self.has_key(sz, nm);
            lemma_filter_insert(o, p, c, k);
            lemma_filter_push(s, c, k);
            assert(o.filter(k) == s.filter(k));
            if k(c) {
                assert forall|q: int| 0 <= q < o.skip(p).len() implies !k(#[trigger] o.skip(p)[q]) by {
                    let x = o.skip(p)[q];
                    assert(x == o[p + q]);
                    assert(!self.precedes(x, c));
                    if k(x) {
                        lemma_chars_le_refl(self.node(c).name@);
                    }
                }
                lemma_filter_none(o.skip(p), k);
                assert(o.filter(k) =~= o.take(p).filter(k));
                assert(o2.filter(k) =~= o.filter(k).push(c));
            } else {
                assert(o2.filter(k) =~= o.filter(k));
            }
        }
    }

    /// Where a stable insertion puts `c` in `r`: after every item that
    /// precedes it.
    pub open spec fn insert_pos(&self, r: Seq<NodeId>, c: NodeId) -> int
        decreases r.len(),
    {
        if r.len() == 0 {
            0
        } else if self.precedes(r[0], c) {
            1 + self.insert_pos(r.drop_first(), c)
        } else {
            0
        }
    }

    proof fn lemma_insert_pos(&self, r: Seq<NodeId>, c: NodeId)
        ensures
            0 <= self.insert_pos(r, c) <= r.len(),
            forall|q: int| 0 <= q < self.insert_pos(r, c) ==> #[trigger] self.precedes(r[q], c),
            self.insert_pos(r, c) < r.len() ==> !self.precedes(r[self.insert_pos(r, c)], c),
        decreases r.len(),
    {
        if r.len() > 0 && self.precedes(r[0], c) {
            self.lemma_insert_pos(r.drop_first(), c);
            assert forall|q: int| 0 <= q < self.insert_pos(r, c) implies #[trigger] self.precedes(r[q], c) by {
                if q > 0 {
                    assert(r[q] == r.drop_first()[q - 1]);
                }
            }
        }
    }

    /// Every sequence of ids has a stable size-then-name ordering.
    pub proof fn lemma_stable_sort_exists(&self, s: Seq<NodeId>)
        ensures
            exists|r: Seq<NodeId>| self.is_stable_sort_of(r, s),
        decreases s.len(),
    {
        if s.len() == 0 {
            assert(self.is_stable_sort_of(s, s));
        } else {
            let init = s.drop_last();
            self.lemma_stable_sort_exists(init);
            let r0 = choose|r: Seq<NodeId>| self.is_stable_sort_of(r, init);
            let c = s.last();
            self.lemma_insert_pos(r0, c);
            let p = self.insert_pos(r0, c);
            self.lemma_insert_keeps_stable(r0, init, c, p);
            assert(init.push(c) =~= s);
            assert(self.is_stable_sort_of(r0.insert(p, c), s));
        }
    }

    /// Every sequence of ids has a stable size-then-name ordering that holds
    /// each id as often as the sequence does.
    pub proof fn lemma_stable_sort_perm(&self, s: Seq<NodeId>)
        ensures
            exists|r: Seq<NodeId>| self.is_stable_sort_of(r, s) && r.to_multiset() == s.to_multiset(),
        decreases s.len(),
    {
        broadcast use vstd::seq_lib::group_to_multiset_ensures;

        if s.len() == 0 {
            assert(self.is_stable_sort_of(s, s) && s.to_multiset() == s.to_multiset());
        } else {
            let init = s.drop_last();
            self.lemma_stable_sort_perm(init);
            let r0 = choose|r: Seq<NodeId>| self.is_stable_sort_of(r, init) && r.to_multiset() == init.to_multiset();
            let c = s.last();
            self.lemma_insert_pos(r0, c);
            let p = self.insert_pos(r0, c);
            self.lemma_insert_keeps_stable(r0, init, c, p);
            assert(init.push(c) =~= s);
            assert(self.is_stable_sort_of(r0.insert(p, c), s));
            vstd::seq_lib::to_multiset_insert(r0, p, c);
            vstd::seq_lib::to_multiset_build(init, c);
            assert(r0.insert(p, c).to_multiset() == s.to_multiset());
            let w = r0.insert(p, c);
            assert(self.is_stable_sort_of(w, s) && w.to_multiset() == s.to_multiset());
        }
    }

    /// The display order of a node's children holds each child as often as
    /// the node lists it.
    pub proof fn lemma_sorted_children_perm(&self, id: NodeId)
        ensures
            self.sorted_children(id).to_multiset() == self.child_list(id).to_multiset(),
    {
        self.lemma_stable_sort_perm(self.child_list(id));
        let r = choose|r: Seq<NodeId>| self.is_stable_sort_of(r, self.child_list(id)) && r.to_multiset() == self.child_list(id).to_multiset();
        self.lemma_sorted_children(id);
        self.lemma_stable_sort_unique(r, self.sorted_children(id), self.child_list(id));
    }

    /// The display order of a node's children is a stable sort of them.
    pub proof fn lemma_sorted_children(&self, id: NodeId)
        ensures
            self.is_stable_sort_of(self.sorted_children(id), self.child_list(id)),
            forall|x: NodeId| self.sorted_children(id).contains(x) <==> self.child_list(id).contains(x),
    {
        self.lemma_stable_sort_exists(self.child_list(id));
        assert forall|x: NodeId| self.sorted_children(id).contains(x) <==> self.child_list(id).contains(x) by {
            self.lemma_stable_sort_members(self.sorted_children(id), self.child_list(id), x);
        }
    }

    /// The children of `id`, largest first; equal sizes are ordered by name.
    pub fn children_sorted(&self, id: NodeId) -> (r: Vec<NodeId>)
        requires
            self.valid_id(id),
            self.children_valid(),
        ensures
            self.is_stable_sort_of(r@, self.child_list(id)),
            r@ == self.sorted_children(id),
            forall|j: int| 0 <= j < r@.len() ==> (#[trigger] r@[j]).0 < self.len(),
    {
        let children = &self.nodes[id.0].children;
        let n = children.len();
        let mut out: Vec<NodeId> = Vec::new();
        let mut names: Vec<Vec<char>> = Vec::new();
        proof {
            assert(children@.take(0) =~= Seq::<NodeId>::empty());
            reveal(Seq::filter);
            assert(out@ =~= Seq::<NodeId>::empty());
        }
        for i in 0..n
            invariant
                n == children.len(),
                children@ == self.child_list(id),
                self.children_valid(),
                self.valid_id(id),
                out.len() == names.len(),
                forall|j: int| 0 <= j < out.len() ==> (#[trigger] out@[j]).0 < self.len(),
                forall|j: int| 0 <= j < out.len() ==> (#[trigger] names@[j])@ == self.node(out@[j]).name@,
                self.is_stable_sort_of(out@, children@.take(i as int)),
        {
            let c = children[i];
            assert(c == self.nodes()[id.0 as int].children@[i as int]);
            let node = &self.nodes[c.0];
            let name = chars_of(node.name.as_str());
            let size = node.size_bytes;
            let mut p: usize = 0;
            while p < out.len() && key_precedes_exec(self.nodes[out[p].0].size_bytes, &names[p], size, &name)
                invariant
                    p <= out.len(),
                    out.len() == names.len(),
                    c.0 < self.len(),
                    size == self.node(c).size_bytes,
                    name@ == self.node(c).name@,
                    forall|j: int| 0 <= j < out.len() ==> (#[trigger] out@[j]).0 < self.len(),
                    forall|j: int| 0 <= j < out.len() ==> (#[trigger] names@[j])@ == self.node(out@[j]).name@,
                    forall|q: int| 0 <= q < p ==> #[trigger] self.precedes(out@[q], c),
                decreases out.len() - p,
            {
                p = p + 1;
            }
            proof {
                assert(children@.take(i + 1) =~= children@.take(i as int).push(c));
                self.lemma_insert_keeps_stable(out@, children@.take(i as int), c, p as int);
            }
            out.insert(p, c);
            names.insert(p, name);
        }
        proof {
            assert(children@.take(n as int) =~= children@);
            assert(self.is_stable_sort_of(out@, self.child_list(id)));
            self.lemma_stable_sort_unique(out@, self.sorted_children(id), self.child_list(id));
        }
        out
    }
}


impl FileTree {
    /// `d` lies strictly below `a`: following parent links up from `d`
    /// reaches `a`.
    pub open spec fn is_descendant(&self, a: NodeId, d: NodeId) -> bool
        decreases d.0,
    {
        if d.0 < self.len() {
            match self.node(d).parent {
                Some(p) => if p.0 < d.0 {
                    p == a || self.is_descendant(a, p)
                } else {
                    false
                },
                None => false,
            }
        } else {
            false
        }
    }

    /// The indices of all nodes strictly below `a`.
    pub open spec fn descendants(&self, a: NodeId) -> Set<int> {
        Set::new(|j: int| 0 <= j < self.len() && self.is_descendant(a, NodeId(j as usize)))
    }

    /// `a` itself together with everything below it.
    pub open spec fn subtree(&self, a: NodeId) -> Set<int> {
        self.descendants(a).insert(a.0 as int)
    }

    /// A node lies below only nodes with smaller ids.
    pub proof fn lemma_desc_lt(&self, a: NodeId, d: NodeId)
        requires
            self.is_descendant(a, d),
        ensures
            a.0 < d.0,
        decreases d.0,
    {
        let p = self.node(d).parent.unwrap();
        if p != a {
            self.lemma_desc_lt(a, p);
        }
    }

    /// Lying below is transitive.
    pub proof fn lemma_desc_trans(&self, a: NodeId, b: NodeId, d: NodeId)
        requires
            self.is_descendant(a, b),
            self.is_descendant(b, d),
        ensures
            self.is_descendant(a, d),
        decreases d.0,
    {
        let p = self.node(d).parent.unwrap();
        if p != b {
            self.lemma_desc_trans(a, b, p);
        }
    }

    /// Two ancestors of one node are equal or one lies below the other.
    pub proof fn lemma_desc_chain(&self, x: NodeId, y: NodeId, d: NodeId)
        requires
            self.is_descendant(x, d),
            self.is_descendant(y, d),
        ensures
            x == y || self.is_descendant(x, y) || self.is_descendant(y, x),
        decreases d.0,
    {
        let p = self.node(d).parent.unwrap();
        if p != x && p != y {
            self.lemma_desc_chain(x, y, p);
        }
    }

    /// The nodes below a node are finitely many, fewer than the tree holds.
    pub proof fn lemma_descendants_finite(&self, a: NodeId)
        requires
            self.valid_id(a),
        ensures
            self.descendants(a).finite(),
            self.descendants(a).len() < self.len(),
            self.subtree(a).finite(),
    {
        vstd::set_lib::lemma_int_range(0, self.len() as int);
        let r = vstd::set_lib::set_int_range(0, self.len() as int);
        assert(self.descendants(a).subset_of(r.remove(a.0 as int))) by {
            assert forall|j: int| self.descendants(a).contains(j) implies r.remove(a.0 as int).contains(j) by {
                self.lemma_desc_lt(a, NodeId(j as usize));
            }
        }
        vstd::set_lib::lemma_len_subset(self.descendants(a), r.remove(a.0 as int));
    }

    /// The part of the nodes below `a` reached through its first `i` children.
    pub open spec fn covered(&self, a: NodeId, i: int) -> Set<int> {
        Set::new(
            |j: int|
                0 <= j < self.len() && exists|k: int|
                    0 <= k < i && #[trigger] self.subtree(self.child_list(a)[k]).contains(j),
        )
    }

    /// The subtree of the next child adds nodes not yet covered.
    pub proof fn lemma_covered_step(&self, a: NodeId, i: int)
        requires
            self.wf(),
            self.valid_id(a),
            0 <= i < self.child_list(a).len(),
        ensures
            self.covered(a, i + 1) == self.covered(a, i) + self.subtree(self.child_list(a)[i]),
            self.covered(a, i).disjoint(self.subtree(self.child_list(a)[i])),
            self.covered(a, i).finite(),
            self.covered(a, i + 1).len() <= self.len(),
    {
        let cs = self.child_list(a);
        let c = cs[i];
        assert(self.nodes()[a.0 as int].children@[i] == c);
        assert(c.0 < self.len());
        assert(self.covered(a, i + 1) =~= self.covered(a, i) + self.subtree(c)) by {
            assert forall|j: int| #[trigger] self.subtree(c).contains(j) implies 0 <= j < self.len() by {
                if j != c.0 {
                }
            }
        }
        assert forall|j: int| self.covered(a, i).contains(j) implies !#[trigger] self.subtree(c).contains(j) by {
            let k = choose|k: int| 0 <= k < i && #[trigger] self.subtree(cs[k]).contains(j);
            let c2 = cs[k];
            assert(self.nodes()[a.0 as int].children@[k] == c2);
            assert(c2 != c);
            assert(self.node(c).parent == Some(a));
            assert(self.node(c2).parent == Some(a));
            assert(a.0 < c.0 && a.0 < c2.0);
            if self.subtree(c).contains(j) {
                let d = NodeId(j as usize);
                if j == c.0 {
                    assert(d == c);
                    // c lies below c2, so its parent a is c2 or below c2
                    assert(self.is_descendant(c2, c));
                    self.lemma_desc_lt(c2, a);
                } else if j == c2.0 {
                    assert(d == c2);
                    assert(self.is_descendant(c, c2));
                    self.lemma_desc_lt(c, a);
                } else {
                    self.lemma_desc_chain(c, c2, d);
                    if self.is_descendant(c, c2) {
                        self.lemma_desc_lt(c, a);
                    } else if self.is_descendant(c2, c) {
                        self.lemma_desc_lt(c2, a);
                    }
                }
            }
        }
        vstd::set_lib::lemma_int_range(0, self.len() as int);
        assert(self.covered(a, i).subset_of(vstd::set_lib::set_int_range(0, self.len() as int)));
        vstd::set_lib::lemma_len_subset(self.covered(a, i), vstd::set_lib::set_int_range(0, self.len() as int));
        assert(self.covered(a, i + 1).subset_of(vstd::set_lib::set_int_range(0, self.len() as int)));
        vstd::set_lib::lemma_len_subset(self.covered(a, i + 1), vstd::set_lib::set_int_range(0, self.len() as int));
    }

    /// The subtrees of all children cover exactly the nodes below a node.
    pub proof fn lemma_covered_all(&self, a: NodeId)
        requires
            self.wf(),
            self.valid_id(a),
        ensures
            self.covered(a, self.child_list(a).len() as int) == self.descendants(a),
    {
        let cs = self.child_list(a);
        let n = cs.len() as int;
        assert forall|j: int| self.descendants(a).contains(j) implies #[trigger] self.covered(a, n).contains(j) by {
            assert(0 <= j < self.len());
            assert(NodeId(j as usize).0 as int == j);
            self.lemma_desc_split(a, NodeId(j as usize));
        }
        assert forall|j: int| self.covered(a, n).contains(j) implies #[trigger] self.descendants(a).contains(j) by {
            let k = choose|k: int| 0 <= k < n && #[trigger] self.subtree(cs[k]).contains(j);
            let c = cs[k];
            assert(self.nodes()[a.0 as int].children@[k] == c);
            assert(self.is_descendant(a, c));
            if j != c.0 {
                self.lemma_desc_trans(a, c, NodeId(j as usize));
            }
        }
        assert(self.covered(a, n) =~= self.descendants(a));
    }

    /// Whatever lies below `a` lies in the subtree of one of its children.
    pub proof fn lemma_desc_split(&self, a: NodeId, d: NodeId)
        requires
            self.wf(),
            self.valid_id(a),
            self.is_descendant(a, d),
        ensures
            exists|k: int|
                0 <= k < self.child_list(a).len() && #[trigger] self.subtree(self.child_list(a)[k]).contains(
                    d.0 as int,
                ),
        decreases d.0,
    {
        let p = self.node(d).parent.unwrap();
        let cs = self.child_list(a);
        if p == a {
            assert(self.nodes()[d.0 as int].parent == Some(a));
            assert(cs.contains(NodeId(d.0)));
            let k = choose|k: int| 0 <= k < cs.len() && cs[k] == NodeId(d.0);
            assert(self.subtree(cs[k]).contains(d.0 as int));
        } else {
            self.lemma_desc_split(a, p);
            let k = choose|k: int| 0 <= k < cs.len() && #[trigger] self.subtree(cs[k]).contains(p.0 as int);
            let c = cs[k];
            assert(NodeId(p.0 as int as usize) == p);
            if p != c {
                self.lemma_desc_trans(c, p, d);
            }
            assert(NodeId(d.0 as int as usize) == d);
            assert(self.subtree(c).contains(d.0 as int));
        }
    }

    /// How many nodes lie below `id`.
    pub fn item_count(&self, id: NodeId) -> (r: usize)
        requires
            self.wf(),
            self.valid_id(id),
        ensures
            r == self.descendants(id).len(),
        decreases self.len() - id.0,
    {
        let children = &self.nodes[id.0].children;
        let n = children.len();
        let mut total: usize = 0;
        proof {
            assert(self.covered(id, 0) =~= Set::<int>::empty());
        }
        for i in 0..n
            invariant
                n == children.len(),
                children@ == self.child_list(id),
                self.wf(),
                self.valid_id(id),
                total == self.covered(id, i as int).len(),
        {
            let c = children[i];
            proof {
                assert(self.nodes()[id.0 as int].children@[i as int] == c);
                self.lemma_covered_step(id, i as int);
                self.lemma_descendants_finite(c);
                self.lemma_covered_step(id, i as int);
                vstd::set_lib::lemma_set_disjoint_lens(self.covered(id, i as int), self.subtree(c));
                if i + 1 < n {
                    self.lemma_covered_step(id, i + 1);
                } else {
                    self.lemma_covered_all(id);
                    self.lemma_descendants_finite(id);
                }
                assert(!self.descendants(c).contains(c.0 as int)) by {
                    if self.descendants(c).contains(c.0 as int) {
                        assert(NodeId(c.0 as int as usize) == c);
                        self.lemma_desc_lt(c, c);
                    }
                }
            }
            let sub = self.item_count(c);
            total = total + 1 + sub;
        }
        proof {
            self.lemma_covered_all(id);
        }
        total
    }
}


impl FileTree {
    /// The names from the root down to `id`.
    pub open spec fn ancestry_names(&self, id: NodeId) -> Seq<Seq<char>>
        decreases id.0,
    {
        match self.node(id).parent {
            Some(p) => if p.0 < id.0 {
                self.ancestry_names(p).push(self.node(id).name@)
            } else {
                seq![self.node(id).name@]
            },
            None => seq![self.node(id).name@],
        }
    }

    /// The names from the root down to `id`, joined by " / ".
    pub fn breadcrumb(&self, id: NodeId) -> (r: String)
        requires
            self.wf(),
            self.valid_id(id),
        ensures
            r@ == join(self.ancestry_names(id), " / "@),
    {
        let mut parts: Vec<String> = Vec::new();
        let mut current: Option<NodeId> = Some(id);
        while current.is_some()
            invariant
                self.wf(),
                current matches Some(c) ==> self.valid_id(c) && self.ancestry_names(id) == self.ancestry_names(c) + views(parts@).reverse(),
                current is None ==> self.ancestry_names(id) == views(parts@).reverse(),
            decreases (match current { Some(c) => c.0 + 1, None => 0 }),
        {
            let node_id = current.unwrap();
            let node = &self.nodes[node_id.0];
            let ghost old_parts = parts@;
            parts.push(node.name.clone());
            proof {
                assert(views(parts@) =~= views(old_parts).push(node.name@));
                assert(views(parts@).reverse() =~= seq![node.name@] + views(old_parts).reverse());
                assert(self.nodes()[node_id.0 as int].parent == node.parent);
                match node.parent {
                    Some(p) => {
                        assert(self.ancestry_names(node_id) == self.ancestry_names(p).push(node.name@));
                        assert(self.ancestry_names(p) + views(parts@).reverse() =~= self.ancestry_names(p).push(node.name@) + views(old_parts).reverse());
                    },
                    None => {
                        assert(self.ancestry_names(node_id) =~= seq![node.name@]);
                    },
                }
            }
            current = node.parent;
        }
        let mut ordered: Vec<String> = Vec::new();
        let mut k = parts.len();
        while k > 0
            invariant
                k <= parts.len(),
                views(ordered@) == views(parts@).reverse().take(parts.len() - k),
            decreases k,
        {
            k = k - 1;
            let ghost old_ordered = ordered@;
            ordered.push(parts[k].clone());
            proof {
                assert(views(ordered@) =~= views(old_ordered).push(parts@[k as int]@));
                assert(views(parts@).reverse()[parts.len() - 1 - k] == parts@[k as int]@);
                assert(views(ordered@) =~= views(parts@).reverse().take(parts.len() - k));
            }
        }
        proof {
            assert(views(parts@).reverse().take(parts.len() as int) =~= views(parts@).reverse());
        }
        join_strings(&ordered, " / ")
    }
}


/// `n / d` rounded to the nearest integer, ties to the even one.
pub open spec fn round_half_even(n: nat, d: nat) -> nat {
    let q = n / d;
    let r = n % d;
    if r * 2 > d || (r * 2 == d && q % 2 == 1) {
        q + 1
    } else {
        q
    }
}

/// Two to the power `n`.
pub open spec fn pow2(n: nat) -> nat
    decreases n,
{
    if n == 0 {
        1
    } else {
        2 * pow2((n - 1) as nat)
    }
}

/// The spacing of 64-bit floating-point numbers around `b`: starting from
/// `g`, doubled (at most `steps` times) until `b / g` fits in the 53-bit
/// significand.
pub open spec fn float_grain_from(b: nat, g: nat, steps: nat) -> nat
    decreases steps,
{
    if steps == 0 || b / g < 0x20_0000_0000_0000 {
        g
    } else {
        float_grain_from(b, 2 * g, (steps - 1) as nat)
    }
}

/// The value of `b as f64`: `b` rounded to the nearest multiple of its
/// float spacing, ties to an even significand.
pub open spec fn float_value(b: nat) -> nat {
    let g = float_grain_from(b, 1, 11);
    round_half_even(b, g) * g
}

/// The number of bytes in one unit `u` (bytes, then KB up to PB).
pub open spec fn unit_divisor(u: nat) -> nat {
    if u == 0 {
        1
    } else if u == 1 {
        0x400
    } else if u == 2 {
        0x10_0000
    } else if u == 3 {
        0x4000_0000
    } else if u == 4 {
        0x100_0000_0000
    } else {
        0x4_0000_0000_0000
    }
}

/// The largest unit, up to PB, that `f` bytes reach.
pub open spec fn size_unit(f: nat) -> nat {
    if f < unit_divisor(1) {
        0
    } else if f < unit_divisor(2) {
        1
    } else if f < unit_divisor(3) {
        2
    } else if f < unit_divisor(4) {
        3
    } else if f < unit_divisor(5) {
        4
    } else {
        5
    }
}

/// The name of unit `u`.
pub open spec fn unit_name(u: nat) -> Seq<char> {
    if u == 0 {
        "B"@
    } else if u == 1 {
        "KB"@
    } else if u == 2 {
        "MB"@
    } else if u == 3 {
        "GB"@
    } else if u == 4 {
        "TB"@
    } else {
        "PB"@
    }
}

/// The human-readable size of `bytes`: plain bytes below 1 KB; otherwise the
/// amount in the largest unit it reaches (binary multiples), whole when it is
/// at least 10 and with one decimal below, rounded half to even.
pub open spec fn size_text(bytes: nat) -> Seq<char> {
    let f = float_value(bytes);
    let u = size_unit(f);
    let d = unit_divisor(u);
    if u == 0 {
        decimal(bytes) + " "@ + unit_name(u)
    } else if f >= 10 * d {
        decimal(round_half_even(f, d)) + " "@ + unit_name(u)
    } else {
        let t = round_half_even(f * 10, d);
        decimal(t / 10) + "."@ + decimal(t % 10) + " "@ + unit_name(u)
    }
}

fn unit_label(u: u64) -> (r: &'static str)
    ensures
        r@ == unit_name(u as nat),
{
    if u == 0 {
        "B"
    } else if u == 1 {
        "KB"
    } else if u == 2 {
        "MB"
    } else if u == 3 {
        "GB"
    } else if u == 4 {
        "TB"
    } else {
        "PB"
    }
}

fn round_half_even_exec(n: u128, d: u128) -> (r: u128)
    requires
        0 < d <= 0x1_0000_0000_0000_0000,
        n / d < u128::MAX,
    ensures
        r == round_half_even(n as nat, d as nat),
{
    let q = n / d;
    let rem = n % d;
    assert(rem < d);
    if rem * 2 > d || (rem * 2 == d && q % 2 == 1) {
        q + 1
    } else {
        q
    }
}

/// `bytes` converted to a 64-bit float, as an exact integer.
fn float_value_exec(bytes: u64) -> (f: u128)
    ensures
        f == float_value(bytes as nat),
        f <= 0x1_0000_0000_0000_0000,
{
    let mut g: u64 = 1;
    let mut steps: u64 = 11;
    proof {
        reveal_with_fuel(pow2, 12);
    }
    while steps > 0 && bytes / g >= 0x20_0000_0000_0000
        invariant
            1 <= g,
            g * pow2(steps as nat) == 2048,
            steps <= 11,
            float_grain_from(bytes as nat, g as nat, steps as nat) == float_grain_from(bytes as nat, 1, 11),
        decreases steps,
    {
        proof {
            assert(pow2(steps as nat) == 2 * pow2((steps - 1) as nat));
            assert(pow2((steps - 1) as nat) >= 1) by {
                lemma_pow2_pos((steps - 1) as nat);
            }
            assert(g <= 1024) by (nonlinear_arith)
                requires
                    g * (2 * pow2((steps - 1) as nat)) == 2048,
                    pow2((steps - 1) as nat) >= 1,
            ;
            assert((2 * g) * pow2((steps - 1) as nat) == 2048) by (nonlinear_arith)
                requires
                    g * (2 * pow2((steps - 1) as nat)) == 2048,
            ;
        }
        g = g * 2;
        steps = steps - 1;
    }
    proof {
        lemma_pow2_pos(steps as nat);
        assert(g <= 2048) by (nonlinear_arith)
            requires
                g * pow2(steps as nat) == 2048,
                pow2(steps as nat) >= 1,
        ;
        if steps == 0 {
            lemma_grain_full(g as nat);
            assert(g == 2048);
            assert(bytes / 2048 < 0x20_0000_0000_0000);
        }
    }
    let q = round_half_even_exec(bytes as u128, g as u128);
    proof {
        assert((bytes as nat) / (g as nat) < 0x20_0000_0000_0000);
        assert(q <= 0x20_0000_0000_0000);
        assert(q * g <= 0x1_0000_0000_0000_0000) by (nonlinear_arith)
            requires
                q <= 0x20_0000_0000_0000,
                g <= 2048,
        ;
    }
    q * (g as u128)
}

proof fn lemma_grain_full(g: nat)
    requires
        g * pow2(0) == 2048,
    ensures
        g == 2048,
{
    assert(pow2(0) == 1);
    assert(g * pow2(0) == g) by (nonlinear_arith)
        requires
            pow2(0) == 1,
    ;
}

proof fn lemma_pow2_pos(n: nat)
    ensures
        pow2(n) >= 1,
    decreases n,
{
    if n > 0 {
        lemma_pow2_pos((n - 1) as nat);
    }
}

/// Formats a byte count for display, such as "512 GB" or "1.5 KB".
pub fn format_size(bytes: u64) -> (r: String)
    ensures
        r@ == size_text(bytes as nat),
{
    let f = float_value_exec(bytes);
    let mut u: u64 = 0;
    let mut d: u128 = 1;
    if f >= 0x4_0000_0000_0000 {
        u = 5;
        d = 0x4_0000_0000_0000;
    } else if f >= 0x100_0000_0000 {
        u = 4;
        d = 0x100_0000_0000;
    } else if f >= 0x4000_0000 {
        u = 3;
        d = 0x4000_0000;
    } else if f >= 0x10_0000 {
        u = 2;
        d = 0x10_0000;
    } else if f >= 0x400 {
        u = 1;
        d = 0x400;
    }
    assert(u == size_unit(f as nat) && d == unit_divisor(u as nat));
    let mut out = String::new();
    if u == 0 {
        push_decimal(&mut out, bytes);
    } else if f >= 10 * d {
        let n = round_half_even_exec(f, d);
        assert(n <= 0x40_0000_0000_0001int);
        push_decimal(&mut out, n as u64);
    } else {
        let t = round_half_even_exec(f * 10, d);
        assert(t <= 100);
        push_decimal(&mut out, (t / 10) as u64);
        push_str(&mut out, ".");
        push_decimal(&mut out, (t % 10) as u64);
    }
    push_str(&mut out, " ");
    push_str(&mut out, unit_label(u));
    out
}

/// The ids of the nodes whose parent is node `i`, in increasing order.
pub open spec fn ids_under(t: FileTree, i: int) -> Seq<NodeId> {
    Seq::new(t.len(), |k: int| NodeId(k as usize)).filter(|x: NodeId| t.nodes()[x.0 as int].parent == Some(NodeId(i as usize)))
}

/// Whether every node lists its children in the order of their ids.
pub open spec fn lists_in_id_order(t: FileTree) -> bool {
    forall|i: int| 0 <= i < t.len() ==> #[trigger] t.nodes()[i].children@ == ids_under(t, i)
}

/// Nodes that keep their parents keep their lists of ids below each node.
pub proof fn lemma_ids_under_same(a: FileTree, b: FileTree, i: int)
    requires
        a.len() == b.len(),
        a.len() <= usize::MAX,
        forall|j: int| 0 <= j < a.len() ==> #[trigger] b.nodes()[j].parent == a.nodes()[j].parent,
    ensures
        ids_under(a, i) == ids_under(b, i),
{
    let all = Seq::new(a.len(), |k: int| NodeId(k as usize));
    let pa = |x: NodeId| a.nodes()[x.0 as int].parent == Some(NodeId(i as usize));
    let pb = |x: NodeId| b.nodes()[x.0 as int].parent == Some(NodeId(i as usize));
    assert forall|k: int| 0 <= k < all.len() implies pa(#[trigger] all[k]) == pb(all[k]) by {
        assert(all[k].0 as int == k);
        assert(b.nodes()[k].parent == a.nodes()[k].parent);
    }
    lemma_filter_congruent(all, pa, pb);
}

/// Appending a node below `p` appends it to the ids below `p` alone.
pub proof fn lemma_ids_under_push(a: FileTree, b: FileTree, p: NodeId, i: int)
    requires
        a.wf(),
        b.len() == a.len() + 1,
        forall|j: int| 0 <= j < a.len() ==> #[trigger] b.nodes()[j].parent == a.nodes()[j].parent,
        b.nodes()[a.len() as int].parent == Some(p),
        0 <= i <= a.len(),
    ensures
        ids_under(b, i) == if i == p.0 {
            ids_under(a, i).push(NodeId(a.len() as usize))
        } else {
            ids_under(a, i)
        },
{
    let n = a.len() as int;
    let all_a = Seq::new(a.len(), |k: int| NodeId(k as usize));
    let all_b = Seq::new(b.len(), |k: int| NodeId(k as usize));
    let pa = |x: NodeId| a.nodes()[x.0 as int].parent == Some(NodeId(i as usize));
    let pb = |x: NodeId| b.nodes()[x.0 as int].parent == Some(NodeId(i as usize));
    assert(all_b =~= all_a.push(NodeId(n as usize)));
    lemma_filter_push(all_a, NodeId(n as usize), pb);
    assert forall|k: int| 0 <= k < all_a.len() implies pa(#[trigger] all_a[k]) == pb(all_a[k]) by {
        assert(all_a[k].0 as int == k);
        assert(b.nodes()[k].parent == a.nodes()[k].parent);
    }
    lemma_filter_congruent(all_a, pa, pb);
    assert(NodeId(n as usize).0 as int == n);
    assert(pb(NodeId(n as usize)) == (i == p.0)) by {
        if i == p.0 {
            assert(NodeId(i as usize) == p);
        } else {
            assert(NodeId(i as usize) != p);
        }
    }
}

/// Nothing lies below a node that has just been appended.
pub proof fn lemma_ids_under_new(t: FileTree, c: int)
    requires
        t.wf(),
        c == t.len() - 1,
    ensures
        ids_under(t, c) == Seq::<NodeId>::empty(),
{
    let all = Seq::new(t.len(), |k: int| NodeId(k as usize));
    let pc = |x: NodeId| t.nodes()[x.0 as int].parent == Some(NodeId(c as usize));
    assert forall|k: int| 0 <= k < all.len() implies !pc(#[trigger] all[k]) by {
        assert(all[k].0 as int == k);
        match t.nodes()[k].parent {
            Some(q) => {
                assert(q.0 < k);
                assert(NodeId(c as usize).0 == c);
            },
            None => {},
        }
    }
    lemma_filter_none(all, pc);
}

} // verus!
