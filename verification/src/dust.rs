use vstd::prelude::*;

use crate::text::{chars_of, split_chars, split_on, lemma_split_nonempty};
use crate::order::{chars_le, chars_le_exec, lemma_chars_le_antisym, lemma_chars_le_refl};

verus! {

/// What kind of file system entry a node is.
#[derive(Debug, Clone, Copy, PartialEq, Eq, Structural)]
pub enum DustKind {
    Directory,
    File,
    Symlink,
    Other,
}

/// One entry of a scan, with the entries below it. Besides its total size
/// it keeps what the entry itself takes on disk, read when it was walked,
/// from which sizes are added up again once hard links are dropped.
pub struct DustNode {
    pub path: String,
    pub size_bytes: u64,
    pub kind: DustKind,
    pub children: Vec<DustNode>,
    inode_device: Option<(u64, u64)>,
    own_size: u64,
}

/// A scanned entry as a mathematical value.
pub struct DustModel {
    pub path: Seq<char>,
    pub size: u64,
    pub kind: DustKind,
    pub inode: Option<(u64, u64)>,
    pub own: u64,
    pub children: Seq<DustModel>,
}

/// A placeholder entry with nothing in it.
pub open spec fn empty_model() -> DustModel {
    DustModel { path: Seq::empty(), size: 0, kind: DustKind::Other, inode: None, own: 0, children: Seq::empty() }
}

impl DustNode {
    /// The entry as a mathematical value.
    pub closed spec fn model(&self) -> DustModel
        decreases self,
    {
        DustModel {
            path: self.path@,
            size: self.size_bytes,
            kind: self.kind,
            inode: self.inode_device,
            own: self.own_size,
            children: Seq::new(self.children@.len(), |i: int| if 0 <= i < self.children@.len() { self.children@[i].model() } else { empty_model() }),
        }
    }
}

/// A scan: the cleaned tree and what could not be read.
pub struct DustScan {
    pub root: DustNode,
    pub errors: Vec<DustError>,
}

/// An entry that could not be read, and why.
pub struct DustError {
    pub path: String,
    pub message: String,
}

/// The kind of an entry from what its file type says.
pub open spec fn kind_of(is_dir: bool, is_file: bool, is_symlink: bool) -> DustKind {
    if is_dir {
        DustKind::Directory
    } else if is_file {
        DustKind::File
    } else if is_symlink {
        DustKind::Symlink
    } else {
        DustKind::Other
    }
}

/// The kind of an entry: a directory, else a file, else a symbolic link,
/// else something other.
pub fn kind_from_flags(is_dir: bool, is_file: bool, is_symlink: bool) -> (k: DustKind)
    ensures
        k == kind_of(is_dir, is_file, is_symlink),
{
    if is_dir {
        DustKind::Directory
    } else if is_file {
        DustKind::File
    } else if is_symlink {
        DustKind::Symlink
    } else {
        DustKind::Other
    }
}

/// The block size used for an entry: at least 1.
pub open spec fn block_of(block_size: u64) -> int {
    if block_size < 1 { 1 } else { block_size as int }
}

/// The length rounded up to whole blocks.
pub open spec fn whole_blocks(len: u64, block_size: u64) -> int {
    let bs = block_of(block_size);
    (len as int / bs + if len as int % bs != 0 { 1int } else { 0int }) * bs
}

/// Whether computing the allocated size of an entry stays within `u64`.
pub open spec fn allocation_fits(len: u64, block_size: u64, blocks: u64) -> bool {
    &&& whole_blocks(len, block_size) <= u64::MAX
    &&& blocks as int * 512 <= u64::MAX
    &&& block_of(block_size) * 65536 <= u64::MAX
}

/// The space an entry takes on disk: what its 512-byte blocks add up to,
/// unless that is more than its length in whole blocks plus a buffer of
/// 65536 blocks for preallocation, in which case its length in whole
/// blocks.
pub open spec fn allocated(len: u64, block_size: u64, blocks: u64) -> int {
    let target = whole_blocks(len, block_size);
    let reported = blocks as int * 512;
    let limit = target + block_of(block_size) * 65536;
    let max = if limit > u64::MAX { u64::MAX as int } else { limit };
    if reported > max { target } else { reported }
}

/// The space an entry takes on disk, from its length, block size and
/// number of 512-byte blocks.
pub fn allocated_size(len: u64, block_size: u64, blocks: u64) -> (r: u64)
    requires
        allocation_fits(len, block_size, blocks),
    ensures
        r == allocated(len, block_size, blocks),
        blocks as int * 512 <= whole_blocks(len, block_size) + block_of(block_size) * 65536 ==> r == blocks as int * 512,
        r <= blocks as int * 512,
{
    proof {
        lemma_allocated_size_law(len, block_size, blocks);
    }
    let bs: u64 = if block_size < 1 { 1 } else { block_size };
    proof {
        if len % bs != 0 {
            assert(bs >= 2);
            assert(len / bs <= len / 2) by (nonlinear_arith)
                requires bs >= 2;
        }
    }
    let rounds: u64 = len / bs + if len % bs != 0 { 1 } else { 0 };
    assert(rounds as int * bs as int <= u64::MAX);
    let target: u64 = rounds * bs;
    let reported: u64 = blocks * 512;
    let buffer: u64 = bs * 65536;
    let max = target.saturating_add(buffer);
    if reported > max {
        target
    } else {
        reported
    }
}

/// The sum of the sizes of `nodes`.
pub open spec fn sizes_total(nodes: Seq<DustModel>) -> int
    decreases nodes.len(),
{
    if nodes.len() == 0 {
        0
    } else {
        sizes_total(nodes.drop_last()) + nodes.last().size
    }
}

/// `own` plus `more`, capped at the largest `u64`.
pub open spec fn sat_total(own: u64, more: int) -> u64 {
    if own + more > u64::MAX { u64::MAX } else { (own + more) as u64 }
}

/// The models of a list of entries.
pub open spec fn models(v: Seq<DustNode>) -> Seq<DustModel> {
    Seq::new(v.len(), |i: int| v[i].model())
}

proof fn lemma_model_unfold(n: &DustNode)
    ensures
        n.model().path == n.path@,
        n.model().size == n.size_bytes,
        n.model().kind == n.kind,
        n.model().inode == n.inode_device,
        n.model().own == n.own_size,
        n.model().children == models(n.children@),
{
    assert(n.model().children =~= models(n.children@));
}

/// Adds up the sizes of `nodes`.
fn total_size(nodes: &Vec<DustNode>) -> (t: u64)
    requires
        sizes_total(models(nodes@)) <= u64::MAX,
    ensures
        t == sizes_total(models(nodes@)),
{
    let mut t: u64 = 0;
    for i in 0..nodes.len()
        invariant
            sizes_total(models(nodes@)) <= u64::MAX,
            t == sizes_total(models(nodes@).take(i as int)),
    {
        proof {
            let m = models(nodes@);
            assert(m.take(i + 1).drop_last() =~= m.take(i as int));
            lemma_total_prefix(m, i + 1);
            proof_from_model(&nodes@[i as int]);
        }
        t = t + nodes[i].size_bytes;
    }
    assert(models(nodes@).take(nodes.len() as int) =~= models(nodes@));
    t
}

proof fn proof_from_model(n: &DustNode)
    ensures
        n.model().size == n.size_bytes,
{
    lemma_model_unfold(n);
}

proof fn lemma_total_prefix(m: Seq<DustModel>, k: int)
    requires
        0 <= k <= m.len(),
    ensures
        0 <= sizes_total(m.take(k)) <= sizes_total(m),
    decreases m.len(),
{
    if m.len() > 0 {
        if k == m.len() {
            assert(m.take(k) =~= m);
            lemma_total_prefix(m.drop_last(), 0);
            assert(m.drop_last().take(0) =~= m.take(0));
        } else {
            lemma_total_prefix(m.drop_last(), k);
            assert(m.drop_last().take(k) =~= m.take(k));
            lemma_total_prefix(m.drop_last(), m.len() - 1);
            assert(m.drop_last().take(m.len() - 1) =~= m.drop_last());
        }
    } else {
        assert(m.take(k) =~= m);
    }
}

impl DustNode {
    /// The inode and device number of the entry, where the platform has
    /// them.
    pub closed spec fn inode(&self) -> Option<(u64, u64)> {
        self.inode_device
    }

    /// The space the entry itself takes, as read when it was walked.
    pub closed spec fn own(&self) -> u64 {
        self.own_size
    }

    /// An entry with nothing below it: a file, a link, or a directory that
    /// could not be read. Its size is its own.
    pub fn leaf(path: String, own_size: u64, kind: DustKind, inode_device: Option<(u64, u64)>) -> (n: DustNode)
        ensures
            n.model() == (DustModel { path: path@, size: own_size, kind: kind, inode: inode_device, own: own_size, children: Seq::empty() }),
    {
        let n = DustNode { path, size_bytes: own_size, kind, children: Vec::new(), inode_device, own_size };
        proof {
            lemma_model_unfold(&n);
            assert(models(n.children@) =~= Seq::<DustModel>::empty());
        }
        n
    }

    /// A directory with the entries below it: its size is its own plus
    /// theirs, capped at the largest `u64`.
    pub fn directory(path: String, own_size: u64, kind: DustKind, inode_device: Option<(u64, u64)>, children: Vec<DustNode>) -> (n: DustNode)
        requires
            sizes_total(models(children@)) <= u64::MAX,
        ensures
            n.model() == (DustModel {
                path: path@,
                size: sat_total(own_size, sizes_total(models(children@))),
                kind: kind,
                inode: inode_device,
                own: own_size,
                children: models(children@),
            }),
    {
        let total = total_size(&children);
        let n = DustNode { path, size_bytes: own_size.saturating_add(total), kind, children, inode_device, own_size };
        proof {
            lemma_model_unfold(&n);
        }
        n
    }
}

/// What walking one entry below a directory gave: the entry and the errors
/// met below it, or the error that stopped it.
pub type WalkResult = Result<(DustNode, Vec<DustError>), DustError>;

/// The entries that were walked, in order.
pub open spec fn walked(results: Seq<WalkResult>) -> Seq<DustNode>
    decreases results.len(),
{
    if results.len() == 0 {
        Seq::empty()
    } else {
        match results.last() {
            Ok((n, _)) => walked(results.drop_last()).push(n),
            Err(_) => walked(results.drop_last()),
        }
    }
}

/// The errors of the walk, in order: those met below each entry, and each
/// that stopped an entry.
pub open spec fn walk_errors(results: Seq<WalkResult>) -> Seq<DustError>
    decreases results.len(),
{
    if results.len() == 0 {
        Seq::empty()
    } else {
        match results.last() {
            Ok((_, errs)) => walk_errors(results.drop_last()) + errs@,
            Err(e) => walk_errors(results.drop_last()).push(e),
        }
    }
}

/// Splits the results of walking a directory's entries into the entries,
/// in order, and the errors, which go to the end of `errors` in order.
pub fn collect_children(results: Vec<WalkResult>, errors: &mut Vec<DustError>) -> (children: Vec<DustNode>)
    ensures
        children@ == walked(results@),
        final(errors)@ == old(errors)@ + walk_errors(results@),
{
    let ghost all = results@;
    assert(all.skip(0) =~= all);
    let mut results = results;
    let mut children: Vec<DustNode> = Vec::new();
    let n = results.len();
    let mut i: usize = 0;
    while i < n
        invariant
            n == all.len(),
            results@.len() == n - i,
            results@ == all.skip(i as int),
            i <= n,
            children@ == walked(all.take(i as int)),
            errors@ == old(errors)@ + walk_errors(all.take(i as int)),
        decreases n - i,
    {
        let r = results.remove(0);
        proof {
            assert(r == all[i as int]);
            assert(results@ =~= all.skip(i + 1));
            assert(all.take(i + 1).drop_last() =~= all.take(i as int));
        }
        match r {
            Ok((node, child_errors)) => {
                children.push(node);
                let mut child_errors = child_errors;
                errors.append(&mut child_errors);
            },
            Err(e) => {
                errors.push(e);
            },
        }
        proof {
            assert(errors@ =~= old(errors)@ + walk_errors(all.take(i + 1)));
        }
        i = i + 1;
    }
    assert(all.take(n as int) =~= all);
    children
}

/// The components that the segments `parts` of a path add after its
/// start: empty segments and `.` add none, `..` adds the parent (rank 2),
/// and any other segment a name (rank 3).
pub open spec fn later_parts(parts: Seq<Seq<char>>) -> Seq<(nat, Seq<char>)>
    decreases parts.len(),
{
    if parts.len() == 0 {
        Seq::empty()
    } else {
        let p = parts.last();
        later_parts(parts.drop_last()) + if p.len() == 0 || p == seq!['.'] {
            Seq::empty()
        } else if p == seq!['.', '.'] {
            seq![(2nat, Seq::<char>::empty())]
        } else {
            seq![(3nat, p)]
        }
    }
}

/// The components of a path on Unix, each as a rank and a name, in the
/// order of `std::path::Component`: the root (rank 0), a leading `.`
/// (rank 1), `..` (rank 2) and names (rank 3).
pub open spec fn components(p: Seq<char>) -> Seq<(nat, Seq<char>)> {
    let parts = split_on(p, '/');
    if p.len() > 0 && p[0] == '/' {
        seq![(0nat, Seq::<char>::empty())] + later_parts(parts.drop_first())
    } else if parts[0] == seq!['.'] {
        seq![(1nat, Seq::<char>::empty())] + later_parts(parts.drop_first())
    } else {
        later_parts(parts)
    }
}

/// Whether component `a` comes before component `b`.
pub open spec fn part_lt(a: (nat, Seq<char>), b: (nat, Seq<char>)) -> bool {
    a.0 < b.0 || (a.0 == b.0 && a.0 == 3 && chars_le(a.1, b.1) && a.1 != b.1)
}

/// Whether components `a` and `b` are equal.
pub open spec fn part_eq(a: (nat, Seq<char>), b: (nat, Seq<char>)) -> bool {
    a.0 == b.0 && (a.0 != 3 || a.1 == b.1)
}

/// Whether the components `a` come before the components `b`, compared one
/// by one, a prefix first.
pub open spec fn parts_lt(a: Seq<(nat, Seq<char>)>, b: Seq<(nat, Seq<char>)>) -> bool
    decreases a.len(),
{
    if a.len() == 0 {
        b.len() > 0
    } else if b.len() == 0 {
        false
    } else if part_lt(a[0], b[0]) {
        true
    } else if part_eq(a[0], b[0]) {
        parts_lt(a.drop_first(), b.drop_first())
    } else {
        false
    }
}

/// Whether path `a` comes before path `b`, as `Path`'s order has it.
pub open spec fn path_lt(a: Seq<char>, b: Seq<char>) -> bool {
    parts_lt(components(a), components(b))
}

/// The components of a path, computed.
pub struct Part {
    pub rank: u8,
    pub name: Vec<char>,
}

/// Whether the computed components `v` are the components `c`.
pub open spec fn parts_match(v: Seq<Part>, c: Seq<(nat, Seq<char>)>) -> bool {
    &&& v.len() == c.len()
    &&& forall|i: int| 0 <= i < v.len() ==> (#[trigger] v[i]).rank == c[i].0 && v[i].name@ == c[i].1
}

fn add_later_part(out: &mut Vec<Part>, part: &Vec<char>)
    ensures
        forall|c: Seq<(nat, Seq<char>)>| parts_match(old(out)@, c) ==> parts_match(final(out)@, c + (if part@.len() == 0 || part@ == seq!['.'] {
            Seq::empty()
        } else if part@ == seq!['.', '.'] {
            seq![(2nat, Seq::<char>::empty())]
        } else {
            seq![(3nat, part@)]
        })),
{
    let n = part.len();
    let dot = n == 1 && part[0] == '.';
    let dots = n == 2 && part[0] == '.' && part[1] == '.';
    proof {
        if n == 1 {
            assert(dot == (part@ =~= seq!['.']));
        } else {
            assert(part@.len() != 1);
            assert(!dot && part@ != seq!['.']);
        }
        if n == 2 {
            assert(dots == (part@ =~= seq!['.', '.']));
        } else {
            assert(!dots && part@ != seq!['.', '.']);
        }
    }
    if n == 0 || dot {
    } else if dots {
        out.push(Part { rank: 2, name: Vec::new() });
    } else {
        out.push(Part { rank: 3, name: part.clone() });
    }
    proof {
        assert forall|c: Seq<(nat, Seq<char>)>| parts_match(old(out)@, c) implies parts_match(final(out)@, c + (if part@.len() == 0 || part@ == seq!['.'] {
            Seq::empty()
        } else if part@ == seq!['.', '.'] {
            seq![(2nat, Seq::<char>::empty())]
        } else {
            seq![(3nat, part@)]
        })) by {
            let d = c + (if part@.len() == 0 || part@ == seq!['.'] {
                Seq::empty()
            } else if part@ == seq!['.', '.'] {
                seq![(2nat, Seq::<char>::empty())]
            } else {
                seq![(3nat, part@)]
            });
            assert forall|i: int| 0 <= i < final(out)@.len() implies (#[trigger] final(out)@[i]).rank == d[i].0 && final(out)@[i].name@ == d[i].1 by {
                if i < old(out)@.len() {
                    assert(final(out)@[i] == old(out)@[i]);
                }
            }
        }
    }
}

/// Splits a path into its components.
pub fn path_components(p: &str) -> (v: Vec<Part>)
    ensures
        parts_match(v@, components(p@)),
{
    let chars = chars_of(p);
    let parts = split_chars(&chars, '/');
    proof {
        lemma_split_nonempty(chars@, '/');
    }
    let ghost ps = split_on(chars@, '/');
    let mut out: Vec<Part> = Vec::new();
    let first: usize;
    let ghost head: Seq<(nat, Seq<char>)>;
    if chars.len() > 0 && chars[0] == '/' {
        out.push(Part { rank: 0, name: Vec::new() });
        first = 1;
        proof { head = seq![(0nat, Seq::<char>::empty())]; }
    } else if parts[0].len() == 1 && parts[0][0] == '.' {
        assert(parts@[0]@ =~= seq!['.']);
        out.push(Part { rank: 1, name: Vec::new() });
        first = 1;
        proof { head = seq![(1nat, Seq::<char>::empty())]; }
    } else {
        proof {
            if parts@[0]@.len() == 1 {
                assert(parts@[0]@[0] != '.');
                assert(parts@[0]@ != seq!['.']);
            } else {
                assert(parts@[0]@.len() != seq!['.'].len());
            }
        }
        first = 0;
        proof { head = Seq::empty(); }
    }
    assert(parts_match(out@, head + later_parts(ps.subrange(first as int, first as int)))) by {
        assert(ps.subrange(first as int, first as int) =~= Seq::<Seq<char>>::empty());
        assert(head + Seq::<(nat, Seq<char>)>::empty() =~= head);
    }
    for i in first..parts.len()
        invariant
            parts@.len() == ps.len(),
            forall|k: int| 0 <= k < parts@.len() ==> (#[trigger] parts@[k])@ == ps[k],
            first <= parts@.len(),
            parts_match(out@, head + later_parts(ps.subrange(first as int, i as int))),
    {
        let ghost before = out@;
        add_later_part(&mut out, &parts[i]);
        proof {
            let t = ps.subrange(first as int, i + 1);
            assert(t.drop_last() =~= ps.subrange(first as int, i as int));
            assert(t.last() == parts@[i as int]@);
            assert(head + later_parts(t) =~= head + later_parts(ps.subrange(first as int, i as int)) + (if parts@[i as int]@.len() == 0 || parts@[i as int]@ == seq!['.'] {
                Seq::empty()
            } else if parts@[i as int]@ == seq!['.', '.'] {
                seq![(2nat, Seq::<char>::empty())]
            } else {
                seq![(3nat, parts@[i as int]@)]
            }));
        }
    }
    proof {
        if first == 1 {
            assert(ps.subrange(1, ps.len() as int) =~= ps.drop_first());
        } else {
            assert(ps.subrange(0, ps.len() as int) =~= ps);
        }
    }
    out
}

/// Whether computed component `a` comes before `b`, and whether they are
/// equal.
fn compare_parts(a: &Part, b: &Part) -> (r: (bool, bool))
    ensures
        r.0 == part_lt((a.rank as nat, a.name@), (b.rank as nat, b.name@)),
        r.1 == part_eq((a.rank as nat, a.name@), (b.rank as nat, b.name@)),
{
    if a.rank != b.rank {
        return (a.rank < b.rank, false);
    }
    if a.rank != 3 {
        return (false, true);
    }
    let le = chars_le_exec(&a.name, &b.name);
    let ge = chars_le_exec(&b.name, &a.name);
    proof {
        if le && ge {
            lemma_chars_le_antisym(a.name@, b.name@);
        }
        if a.name@ == b.name@ {
            lemma_chars_le_refl(a.name@);
        }
    }
    (le && !ge, le && ge)
}

/// Whether path `a` comes before path `b`, component by component.
pub fn path_before(a: &str, b: &str) -> (r: bool)
    ensures
        r == path_lt(a@, b@),
{
    let pa = path_components(a);
    let pb = path_components(b);
    let ghost ca = components(a@);
    let ghost cb = components(b@);
    let mut i: usize = 0;
    assert(ca.skip(0) =~= ca);
    assert(cb.skip(0) =~= cb);
    while i < pa.len() && i < pb.len()
        invariant
            ca == components(a@),
            cb == components(b@),
            parts_match(pa@, ca),
            parts_match(pb@, cb),
            i <= pa@.len(),
            i <= pb@.len(),
            parts_lt(ca, cb) == parts_lt(ca.skip(i as int), cb.skip(i as int)),
        decreases pa.len() - i,
    {
        let (lt, eq) = compare_parts(&pa[i], &pb[i]);
        proof {
            assert(ca.skip(i as int).len() > 0 && cb.skip(i as int).len() > 0);
            assert(ca.skip(i as int)[0] == ca[i as int]);
            assert(cb.skip(i as int)[0] == cb[i as int]);
            assert((pa@[i as int].rank as nat, pa@[i as int].name@) == ca[i as int]);
            assert((pb@[i as int].rank as nat, pb@[i as int].name@) == cb[i as int]);
        }
        if lt {
            return true;
        }
        if !eq {
            return false;
        }
        proof {
            assert(ca.skip(i as int).drop_first() =~= ca.skip(i + 1));
            assert(cb.skip(i as int).drop_first() =~= cb.skip(i + 1));
        }
        i = i + 1;
    }
    i == pa.len() && i < pb.len()
}

/// Whether entry `a` goes after entry `b` when entries are ordered by
/// device, then inode; entries without an inode come first, ordered by
/// path.
pub open spec fn goes_after(a: DustModel, b: DustModel) -> bool {
    match (a.inode, b.inode) {
        (Some(x), Some(y)) => x.1 > y.1 || (x.1 == y.1 && x.0 > y.0),
        (Some(_), None) => true,
        (None, Some(_)) => false,
        (None, None) => path_lt(b.path, a.path),
    }
}

fn node_after(a: &DustNode, b: &DustNode) -> (r: bool)
    ensures
        r == goes_after(a.model(), b.model()),
{
    proof {
        lemma_model_unfold(a);
        lemma_model_unfold(b);
    }
    match (a.inode_device, b.inode_device) {
        (Some(x), Some(y)) => x.1 > y.1 || (x.1 == y.1 && x.0 > y.0),
        (Some(_), None) => true,
        (None, Some(_)) => false,
        (None, None) => path_before(b.path.as_str(), a.path.as_str()),
    }
}

/// `s` with `x` put in after the last entry that `x` does not go before.
pub open spec fn insert_by_inode(s: Seq<DustModel>, x: DustModel) -> Seq<DustModel>
    decreases s.len(),
{
    if s.len() > 0 && goes_after(s.last(), x) {
        insert_by_inode(s.drop_last(), x).push(s.last())
    } else {
        s.push(x)
    }
}

/// `s` sorted by inode, stably: each entry in turn put in after those that
/// it does not go before.
pub open spec fn sorted_by_inode(s: Seq<DustModel>) -> Seq<DustModel>
    decreases s.len(),
{
    if s.len() == 0 {
        Seq::empty()
    } else {
        insert_by_inode(sorted_by_inode(s.drop_last()), s.last())
    }
}

proof fn lemma_insert_at(s: Seq<DustModel>, x: DustModel, j: int)
    requires
        0 <= j <= s.len(),
        forall|k: int| j <= k < s.len() ==> goes_after(#[trigger] s[k], x),
        j == 0 || !goes_after(s[j - 1], x),
    ensures
        insert_by_inode(s, x) == s.insert(j, x),
    decreases s.len(),
{
    if j == s.len() {
        assert(s.insert(j, x) =~= s.push(x));
    } else {
        assert(goes_after(s[s.len() - 1], x));
        let t = s.drop_last();
        if j > 0 {
            assert(t[j - 1] == s[j - 1]);
        }
        assert forall|k: int| j <= k < t.len() implies goes_after(#[trigger] t[k], x) by {
            assert(t[k] == s[k]);
        }
        lemma_insert_at(t, x, j);
        assert(t.insert(j, x).push(s.last()) =~= s.insert(j, x));
    }
}

proof fn lemma_insert_members(s: Seq<DustModel>, x: DustModel)
    ensures
        insert_by_inode(s, x).len() == s.len() + 1,
        forall|k: int| 0 <= k < s.len() + 1 ==> insert_by_inode(s, x)[k] == x || s.contains(#[trigger] insert_by_inode(s, x)[k]),
    decreases s.len(),
{
    if s.len() > 0 && goes_after(s.last(), x) {
        let t = s.drop_last();
        lemma_insert_members(t, x);
        assert forall|k: int| 0 <= k < s.len() + 1 implies insert_by_inode(s, x)[k] == x || s.contains(#[trigger] insert_by_inode(s, x)[k]) by {
            if k < s.len() {
                let y = insert_by_inode(t, x)[k];
                assert(insert_by_inode(s, x)[k] == y);
                if y != x {
                    let w = choose|w: int| 0 <= w < t.len() && t[w] == y;
                    assert(s[w] == y);
                }
            } else {
                assert(insert_by_inode(s, x)[k] == s[s.len() - 1]);
            }
        }
    } else {
        assert forall|k: int| 0 <= k < s.len() + 1 implies insert_by_inode(s, x)[k] == x || s.contains(#[trigger] insert_by_inode(s, x)[k]) by {
            if k < s.len() {
                assert(insert_by_inode(s, x)[k] == s[k]);
            }
        }
    }
}

/// Every entry of `s` sorted is an entry of `s`.
pub proof fn lemma_sorted_members(s: Seq<DustModel>)
    ensures
        sorted_by_inode(s).len() == s.len(),
        forall|k: int| 0 <= k < s.len() ==> s.contains(#[trigger] sorted_by_inode(s)[k]),
    decreases s.len(),
{
    if s.len() > 0 {
        let t = s.drop_last();
        lemma_sorted_members(t);
        lemma_insert_members(sorted_by_inode(t), s.last());
        assert forall|k: int| 0 <= k < s.len() implies s.contains(#[trigger] sorted_by_inode(s)[k]) by {
            let y = sorted_by_inode(s)[k];
            if y == s.last() {
                assert(s[s.len() - 1] == y);
            } else {
                assert(sorted_by_inode(t).contains(y));
                let w = choose|w: int| 0 <= w < sorted_by_inode(t).len() && sorted_by_inode(t)[w] == y;
                assert(t.contains(sorted_by_inode(t)[w]));
                let u = choose|u: int| 0 <= u < t.len() && t[u] == y;
                assert(s[u] == y);
            }
        }
    }
}

/// Sorts entries by device and inode, stably; entries without an inode go
/// first, by path.
pub fn sort_by_inode(children: Vec<DustNode>) -> (sorted: Vec<DustNode>)
    ensures
        models(sorted@) == sorted_by_inode(models(children@)),
{
    let ghost all = models(children@);
    let mut rest = children;
    let mut out: Vec<DustNode> = Vec::new();
    let n = rest.len();
    let mut i: usize = 0;
    assert(models(rest@) =~= all.skip(0));
    assert(models(out@) =~= sorted_by_inode(all.take(0)));
    while i < n
        invariant
            n == all.len(),
            i <= n,
            models(rest@) == all.skip(i as int),
            models(out@) == sorted_by_inode(all.take(i as int)),
        decreases n - i,
    {
        proof {
            assert(models(rest@).len() == n - i);
        }
        let ghost rest_before = rest@;
        let x = rest.remove(0);
        proof {
            assert(models(rest_before)[0] == x.model());
            assert forall|k: int| 0 <= k < rest@.len() implies models(rest@)[k] == all.skip(i + 1)[k] by {
                assert(rest@[k] == rest_before[k + 1]);
                assert(models(rest_before)[k + 1] == all.skip(i as int)[k + 1]);
            }
            assert(models(rest@) =~= all.skip(i + 1));
        }
        let mut j = out.len();
        while j > 0 && node_after(&out[j - 1], &x)
            invariant
                j <= out@.len(),
                forall|k: int| j <= k < out@.len() ==> goes_after(#[trigger] models(out@)[k], x.model()),
            decreases j,
        {
            j = j - 1;
        }
        let ghost before = models(out@);
        proof {
            if j > 0 {
                assert(before[j - 1] == out@[j - 1].model());
            }
            lemma_insert_at(before, x.model(), j as int);
            assert(all.take(i + 1).drop_last() =~= all.take(i as int));
            assert(all.take(i + 1).last() == x.model());
        }
        out.insert(j, x);
        proof {
            assert(models(out@) =~= before.insert(j as int, x.model()));
        }
        i = i + 1;
    }
    assert(all.take(n as int) =~= all);
    out
}

/// The key under which an inode and device number are remembered.
pub open spec fn key_of(id: (u64, u64)) -> u128 {
    (id.0 as int * 0x1_0000_0000_0000_0000 + id.1 as int) as u128
}

/// Each inode and device number has a key of its own.
pub proof fn lemma_key_of_injective(a: (u64, u64), b: (u64, u64))
    ensures
        key_of(a) == key_of(b) ==> a == b,
{
    let x = a.0 as int * 0x1_0000_0000_0000_0000 + a.1 as int;
    let y = b.0 as int * 0x1_0000_0000_0000_0000 + b.1 as int;
    assert(0 <= x < 0x1_0000_0000_0000_0000_0000_0000_0000_0000) by (nonlinear_arith)
        requires x == a.0 as int * 0x1_0000_0000_0000_0000 + a.1 as int, 0 <= a.0 < 0x1_0000_0000_0000_0000, 0 <= a.1 < 0x1_0000_0000_0000_0000;
    assert(0 <= y < 0x1_0000_0000_0000_0000_0000_0000_0000_0000) by (nonlinear_arith)
        requires y == b.0 as int * 0x1_0000_0000_0000_0000 + b.1 as int, 0 <= b.0 < 0x1_0000_0000_0000_0000, 0 <= b.1 < 0x1_0000_0000_0000_0000;
    if x == y {
        assert(a.0 == b.0 && a.1 == b.1) by (nonlinear_arith)
            requires x == a.0 as int * 0x1_0000_0000_0000_0000 + a.1 as int, y == b.0 as int * 0x1_0000_0000_0000_0000 + b.1 as int, x == y,
                0 <= a.1 < 0x1_0000_0000_0000_0000, 0 <= b.1 < 0x1_0000_0000_0000_0000;
    }
}

fn inode_key(id: (u64, u64)) -> (k: u128)
    ensures
        k == key_of(id),
{
    assert(id.0 as int * 0x1_0000_0000_0000_0000 + id.1 as int <= u128::MAX) by (nonlinear_arith)
        requires 0 <= id.0 < 0x1_0000_0000_0000_0000, 0 <= id.1 < 0x1_0000_0000_0000_0000;
    (id.0 as u128) * 0x1_0000_0000_0000_0000u128 + (id.1 as u128)
}

/// An entry with its hard links dropped: `None` where its inode is in
/// `seen`; else the entry, its children sorted by inode and each cleaned in
/// turn, what was kept of them added up to its size. With it comes `seen`
/// and every inode met on the way.
pub open spec fn cleaned(m: DustModel, seen: Set<u128>) -> (Option<DustModel>, Set<u128>)
    decreases m, m.children.len() + 1,
{
    if m.inode is Some && seen.contains(key_of(m.inode->0)) {
        (None, seen)
    } else {
        let seen1 = match m.inode {
            Some(id) => seen.insert(key_of(id)),
            None => seen,
        };
        let r = cleaned_list(m, m.children.len() as int, seen1);
        (Some(DustModel { size: sat_total(m.own, sizes_total(r.0)), children: r.0, ..m }), r.1)
    }
}

/// The first `k` children of `m`, sorted by inode, each cleaned in turn
/// from `seen` on: those kept, in order, and the inodes met.
pub open spec fn cleaned_list(m: DustModel, k: int, seen: Set<u128>) -> (Seq<DustModel>, Set<u128>)
    decreases m, k,
{
    if k <= 0 || k > m.children.len() {
        (Seq::empty(), seen)
    } else {
        let prev = cleaned_list(m, k - 1, seen);
        let c = sorted_by_inode(m.children)[k - 1];
        proof {
            lemma_sorted_members(m.children);
            assert(m.children.contains(c));
            let j = choose|j: int| 0 <= j < m.children.len() && m.children[j] == c;
            assert(decreases_to!(m => m.children[j]));
        }
        let r = cleaned(c, prev.1);
        (prev.0 + match r.0 {
            Some(n) => seq![n],
            None => Seq::empty(),
        }, r.1)
    }
}

/// What the entries of a tree take themselves, added up.
pub open spec fn own_total(m: DustModel) -> nat
    decreases m, m.children.len() + 1,
{
    (m.own + own_total_list(m, m.children.len() as int)) as nat
}

/// What the trees of the first `k` children of `m`, sorted by inode, take
/// themselves, added up.
pub open spec fn own_total_list(m: DustModel, k: int) -> nat
    decreases m, k,
{
    if k <= 0 || k > m.children.len() {
        0
    } else {
        let c = sorted_by_inode(m.children)[k - 1];
        proof {
            lemma_sorted_members(m.children);
            assert(m.children.contains(c));
            let j = choose|j: int| 0 <= j < m.children.len() && m.children[j] == c;
            assert(decreases_to!(m => m.children[j]));
        }
        own_total_list(m, k - 1) + own_total(c)
    }
}

proof fn lemma_list_bound(m: DustModel, k: int, seen: Set<u128>)
    ensures
        sizes_total(cleaned_list(m, k, seen).0) <= own_total_list(m, k),
        0 <= sizes_total(cleaned_list(m, k, seen).0),
    decreases m, k,
{
    if k <= 0 || k > m.children.len() {
    } else {
        let prev = cleaned_list(m, k - 1, seen);
        let c = sorted_by_inode(m.children)[k - 1];
        lemma_sorted_members(m.children);
        assert(m.children.contains(c));
        let j = choose|j: int| 0 <= j < m.children.len() && m.children[j] == c;
        assert(decreases_to!(m => m.children[j]));
        lemma_list_bound(m, k - 1, seen);
        lemma_node_bound(c, prev.1);
        let r = cleaned(c, prev.1);
        let l = cleaned_list(m, k, seen).0;
        match r.0 {
            Some(n) => {
                assert(l == prev.0 + seq![n]);
                assert(l.drop_last() =~= prev.0);
            },
            None => {
                assert(l =~= prev.0);
            },
        }
    }
}

proof fn lemma_node_bound(m: DustModel, seen: Set<u128>)
    ensures
        cleaned(m, seen).0 matches Some(n) ==> n.size <= own_total(m),
    decreases m, m.children.len() + 1,
{
    if m.inode is Some && seen.contains(key_of(m.inode->0)) {
    } else {
        let seen1 = match m.inode {
            Some(id) => seen.insert(key_of(id)),
            None => seen,
        };
        lemma_list_bound(m, m.children.len() as int, seen1);
    }
}

proof fn lemma_child_bound(m: DustModel, k: int, i: int)
    requires
        0 <= i < k <= m.children.len(),
    ensures
        own_total(sorted_by_inode(m.children)[i]) <= own_total_list(m, k),
    decreases k,
{
    if i < k - 1 {
        lemma_child_bound(m, k - 1, i);
    }
}

/// The model of an optional entry.
pub open spec fn opt_model(n: Option<DustNode>) -> Option<DustModel> {
    match n {
        Some(x) => Some(x.model()),
        None => None,
    }
}

impl DustNode {
    /// An entry that stands in for one taken out: no path, no size, no
    /// inode, nothing below it.
    fn placeholder() -> (n: DustNode)
        ensures
            n.model() == empty_model(),
    {
        let n = DustNode { path: String::new(), size_bytes: 0, kind: DustKind::Other, children: Vec::new(), inode_device: None, own_size: 0 };
        proof {
            lemma_model_unfold(&n);
            assert(models(n.children@) =~= Seq::<DustModel>::empty());
        }
        n
    }
}

/// Drops every entry whose inode was met before, walking the tree depth
/// first with each directory's entries sorted by inode, so that a file with
/// several hard links is counted once; sizes are added up again from what
/// is kept.
pub fn clean_inodes(node: DustNode, inodes: &mut std::collections::HashSet<u128>) -> (r: Option<DustNode>)
    requires
        own_total(node.model()) <= u64::MAX,
    ensures
        opt_model(r) == cleaned(node.model(), old(inodes)@).0,
        final(inodes)@ == cleaned(node.model(), old(inodes)@).1,
{
    let ghost m = node.model();
    clean_tree(node, inodes, Ghost(m))
}

fn clean_tree(node: DustNode, inodes: &mut std::collections::HashSet<u128>, Ghost(m): Ghost<DustModel>) -> (r: Option<DustNode>)
    requires
        m == node.model(),
        own_total(m) <= u64::MAX,
    ensures
        opt_model(r) == cleaned(m, old(inodes)@).0,
        final(inodes)@ == cleaned(m, old(inodes)@).1,
    decreases m,
{
    broadcast use vstd::std_specs::hash::group_hash_axioms;
    proof {
        lemma_model_unfold(&node);
    }
    match node.inode_device {
        Some(id) => {
            if !inodes.insert(inode_key(id)) {
                return None;
            }
        },
        None => {},
    }
    let ghost seen1 = inodes@;
    let DustNode { path, size_bytes: _, kind, children, inode_device, own_size } = node;
    let mut children = sort_by_inode(children);
    let ghost sorted = sorted_by_inode(m.children);
    proof {
        lemma_sorted_members(m.children);
    }
    let n = children.len();
    let mut kept: Vec<DustNode> = Vec::new();
    for i in 0..n
        invariant
            n == m.children.len(),
            children@.len() == n,
            sorted == sorted_by_inode(m.children),
            sorted.len() == n,
            forall|k: int| i <= k < n ==> (#[trigger] children@[k]).model() == sorted[k],
            own_total(m) <= u64::MAX,
            models(kept@) == cleaned_list(m, i as int, seen1).0,
            inodes@ == cleaned_list(m, i as int, seen1).1,
            forall|k: int| 0 <= k < n ==> m.children.contains(#[trigger] sorted[k]),
            decreases_to!(m => m.children),
    {
        let mut child = DustNode::placeholder();
        children.set_and_swap(i, &mut child);
        let ghost c = sorted[i as int];
        proof {
            assert(child.model() == c);
            let j = choose|j: int| 0 <= j < m.children.len() && m.children[j] == c;
            assert(decreases_to!(m => m.children[j]));
            assert(decreases_to!(m => child.model()));
            lemma_child_bound(m, n as int, i as int);
            assert(own_total_list(m, n as int) <= own_total(m));
        }
        let ghost cm = child.model();
        let r = clean_tree(child, inodes, Ghost(cm));
        match r {
            Some(x) => {
                kept.push(x);
            },
            None => {},
        }
        proof {
            let next = cleaned_list(m, i + 1, seen1);
            assert(models(kept@) =~= next.0);
        }
    }
    proof {
        lemma_list_bound(m, n as int, seen1);
    }
    let result = DustNode::directory(path, own_size, kind, inode_device, kept);
    proof {
        let seen_in = old(inodes)@;
        let expect = cleaned(m, seen_in);
        assert(seen1 == match m.inode {
            Some(id) => seen_in.insert(key_of(id)),
            None => seen_in,
        });
    }
    Some(result)
}

/// Finishes a scan: drops the hard links already met from the walked tree
/// `root` and keeps the errors of the walk. The root is never dropped, as
/// nothing was met before it.
pub fn scan(root: DustNode, errors: Vec<DustError>) -> (r: Result<DustScan, String>)
    requires
        own_total(root.model()) <= u64::MAX,
    ensures
        r matches Ok(s) && cleaned(root.model(), Set::empty()).0 == Some(s.root.model()) && s.errors@ == errors@,
{
    broadcast use vstd::std_specs::hash::group_hash_axioms;
    let ghost m = root.model();
    let mut inodes: std::collections::HashSet<u128> = std::collections::HashSet::new();
    let cleaned_root = clean_inodes(root, &mut inodes);
    match cleaned_root {
        Some(root) => Ok(DustScan { root, errors }),
        None => {
            proof {
                assert(!Set::<u128>::empty().contains(key_of(m.inode->0)));
            }
            Err(String::from_str("scan root was filtered as a duplicate inode"))
        },
    }
}

/// The inode and device numbers of a tree's entries, depth first, each
/// entry before those below it.
pub open spec fn inodes_in(m: DustModel) -> Seq<(u64, u64)>
    decreases m, 0int,
{
    (match m.inode {
        Some(id) => seq![id],
        None => Seq::empty(),
    }) + inodes_in_all(m.children, m.children.len() as int)
}

/// The inode and device numbers of the trees of the first `k` entries of
/// `l`, in order.
pub open spec fn inodes_in_all(l: Seq<DustModel>, k: int) -> Seq<(u64, u64)>
    decreases l, k,
{
    if k <= 0 || k > l.len() {
        Seq::empty()
    } else {
        inodes_in_all(l, k - 1) + inodes_in(l[k - 1])
    }
}

/// The keys of a list of inode and device numbers.
pub open spec fn keys_of(ids: Seq<(u64, u64)>) -> Set<u128> {
    ids.map_values(|id: (u64, u64)| key_of(id)).to_set()
}

/// Whether `ids` are new to `seen`, none twice, and `after` is `seen` with
/// their keys.
pub open spec fn fresh_among(ids: Seq<(u64, u64)>, seen: Set<u128>, after: Set<u128>) -> bool {
    &&& ids.no_duplicates()
    &&& forall|i: int| 0 <= i < ids.len() ==> !seen.contains(key_of(#[trigger] ids[i]))
    &&& after == seen + keys_of(ids)
}

proof fn lemma_fresh_concat(a: Seq<(u64, u64)>, b: Seq<(u64, u64)>, s0: Set<u128>, s1: Set<u128>, s2: Set<u128>)
    requires
        fresh_among(a, s0, s1),
        fresh_among(b, s1, s2),
    ensures
        fresh_among(a + b, s0, s2),
{
    let c = a + b;
    assert forall|i: int, j: int| 0 <= i < c.len() && 0 <= j < c.len() && i != j implies c[i] != c[j] by {
        if i < a.len() && j >= a.len() {
            assert(keys_of(a).contains(key_of(a[i]))) by {
                assert(a.map_values(|id: (u64, u64)| key_of(id))[i] == key_of(a[i]));
            }
            assert(!s1.contains(key_of(b[j - a.len()])));
        } else if j < a.len() && i >= a.len() {
            assert(keys_of(a).contains(key_of(a[j]))) by {
                assert(a.map_values(|id: (u64, u64)| key_of(id))[j] == key_of(a[j]));
            }
            assert(!s1.contains(key_of(b[i - a.len()])));
        } else if i < a.len() {
            assert(c[i] == a[i] && c[j] == a[j]);
        } else {
            assert(c[i] == b[i - a.len()] && c[j] == b[j - a.len()]);
        }
    }
    assert forall|i: int| 0 <= i < c.len() implies !s0.contains(key_of(#[trigger] c[i])) by {
        if i >= a.len() {
            assert(c[i] == b[i - a.len()]);
            assert(!s1.contains(key_of(b[i - a.len()])));
        }
    }
    assert(c.map_values(|id: (u64, u64)| key_of(id)) =~= a.map_values(|id: (u64, u64)| key_of(id)) + b.map_values(|id: (u64, u64)| key_of(id)));
    assert(keys_of(c) =~= keys_of(a) + keys_of(b)) by {
        let ka = a.map_values(|id: (u64, u64)| key_of(id));
        let kb = b.map_values(|id: (u64, u64)| key_of(id));
        assert forall|x: u128| keys_of(c).contains(x) <==> (keys_of(a).contains(x) || keys_of(b).contains(x)) by {
            if keys_of(c).contains(x) {
                let i = choose|i: int| 0 <= i < (ka + kb).len() && (ka + kb)[i] == x;
                if i < ka.len() {
                    assert(ka[i] == x);
                } else {
                    assert(kb[i - ka.len()] == x);
                }
            }
            if keys_of(a).contains(x) {
                let i = choose|i: int| 0 <= i < ka.len() && ka[i] == x;
                assert((ka + kb)[i] == x);
            }
            if keys_of(b).contains(x) {
                let i = choose|i: int| 0 <= i < kb.len() && kb[i] == x;
                assert((ka + kb)[ka.len() + i] == x);
            }
        }
    }
    assert(s2 =~= s0 + keys_of(c));
}

proof fn lemma_fresh_empty(seen: Set<u128>)
    ensures
        fresh_among(Seq::empty(), seen, seen),
{
    let e = Seq::<(u64, u64)>::empty();
    assert(e.map_values(|id: (u64, u64)| key_of(id)) =~= Seq::<u128>::empty());
    assert(keys_of(e) =~= Set::<u128>::empty());
    assert(seen + keys_of(e) =~= seen);
}

proof fn lemma_fresh_one(id: (u64, u64), seen: Set<u128>)
    requires
        !seen.contains(key_of(id)),
    ensures
        fresh_among(seq![id], seen, seen.insert(key_of(id))),
{
    let one = seq![id];
    assert(one.map_values(|x: (u64, u64)| key_of(x)) =~= seq![key_of(id)]);
    assert(keys_of(one) =~= set![key_of(id)]) by {
        assert(seq![key_of(id)].to_set() =~= set![key_of(id)]) by {
            assert(seq![key_of(id)][0] == key_of(id));
        }
    }
    assert(seen.insert(key_of(id)) =~= seen + keys_of(one));
}

proof fn lemma_prefix_inodes(l: Seq<DustModel>, x: DustModel, k: int)
    requires
        0 <= k <= l.len(),
    ensures
        inodes_in_all(l.push(x), k) == inodes_in_all(l, k),
    decreases k,
{
    if k > 0 {
        lemma_prefix_inodes(l, x, k - 1);
        assert(l.push(x)[k - 1] == l[k - 1]);
    }
}

proof fn lemma_list_fresh(m: DustModel, k: int, seen: Set<u128>)
    ensures
        fresh_among(inodes_in_all(cleaned_list(m, k, seen).0, cleaned_list(m, k, seen).0.len() as int), seen, cleaned_list(m, k, seen).1),
    decreases m, k,
{
    if k <= 0 || k > m.children.len() {
        lemma_fresh_empty(seen);
    } else {
        let prev = cleaned_list(m, k - 1, seen);
        let c = sorted_by_inode(m.children)[k - 1];
        lemma_sorted_members(m.children);
        assert(m.children.contains(c));
        let j = choose|j: int| 0 <= j < m.children.len() && m.children[j] == c;
        assert(decreases_to!(m => m.children[j]));
        lemma_list_fresh(m, k - 1, seen);
        lemma_node_fresh(c, prev.1);
        let r = cleaned(c, prev.1);
        let l = cleaned_list(m, k, seen).0;
        match r.0 {
            Some(n) => {
                assert(l == prev.0.push(n));
                lemma_prefix_inodes(prev.0, n, prev.0.len() as int);
                assert(inodes_in_all(l, l.len() as int) == inodes_in_all(prev.0, prev.0.len() as int) + inodes_in(n));
                lemma_fresh_concat(inodes_in_all(prev.0, prev.0.len() as int), inodes_in(n), seen, prev.1, r.1);
            },
            None => {
                assert(l =~= prev.0);
            },
        }
    }
}

proof fn lemma_node_fresh(m: DustModel, seen: Set<u128>)
    ensures
        match cleaned(m, seen).0 {
            Some(n) => fresh_among(inodes_in(n), seen, cleaned(m, seen).1),
            None => cleaned(m, seen).1 == seen,
        },
    decreases m, m.children.len() + 1,
{
    if m.inode is Some && seen.contains(key_of(m.inode->0)) {
    } else {
        let seen1 = match m.inode {
            Some(id) => seen.insert(key_of(id)),
            None => seen,
        };
        let r = cleaned_list(m, m.children.len() as int, seen1);
        lemma_list_fresh(m, m.children.len() as int, seen1);
        let n = cleaned(m, seen).0->Some_0;
        assert(n.children == r.0);
        match m.inode {
            Some(id) => {
                lemma_fresh_one(id, seen);
                lemma_fresh_concat(seq![id], inodes_in_all(r.0, r.0.len() as int), seen, seen1, r.1);
            },
            None => {
                lemma_fresh_empty(seen);
                lemma_fresh_concat(Seq::empty(), inodes_in_all(r.0, r.0.len() as int), seen, seen, r.1);
            },
        }
    }
}

/// A scan counts each file once: no two entries of the cleaned tree have
/// the same inode and device number.
pub proof fn lemma_scan_inodes_unique(root: DustModel)
    ensures
        cleaned(root, Set::empty()).0 matches Some(n) && inodes_in(n).no_duplicates(),
{
    lemma_node_fresh(root, Set::empty());
}

proof fn lemma_insert_multiset(s: Seq<DustModel>, x: DustModel)
    ensures
        insert_by_inode(s, x).to_multiset() == s.to_multiset().insert(x),
    decreases s.len(),
{
    broadcast use vstd::seq_lib::group_to_multiset_ensures;

    if s.len() > 0 && goes_after(s.last(), x) {
        let t = s.drop_last();
        lemma_insert_multiset(t, x);
        assert(t.push(s.last()) =~= s);
        assert(insert_by_inode(s, x).to_multiset() =~= s.to_multiset().insert(x));
    }
}

proof fn lemma_sorted_multiset(s: Seq<DustModel>)
    ensures
        sorted_by_inode(s).to_multiset() == s.to_multiset(),
    decreases s.len(),
{
    broadcast use vstd::seq_lib::group_to_multiset_ensures;

    if s.len() > 0 {
        let t = s.drop_last();
        lemma_sorted_multiset(t);
        lemma_insert_multiset(sorted_by_inode(t), s.last());
        assert(t.push(s.last()) =~= s);
    }
}

/// What the trees of `l` take themselves, added up.
pub open spec fn own_sum(l: Seq<DustModel>) -> nat
    decreases l.len(),
{
    if l.len() == 0 {
        0
    } else {
        own_sum(l.drop_last()) + own_total(l.last())
    }
}

proof fn lemma_own_sum_remove(l: Seq<DustModel>, i: int)
    requires
        0 <= i < l.len(),
    ensures
        own_sum(l) == own_sum(l.remove(i)) + own_total(l[i]),
    decreases l.len(),
{
    if i < l.len() - 1 {
        let t = l.drop_last();
        lemma_own_sum_remove(t, i);
        assert(l.remove(i).drop_last() =~= t.remove(i));
        assert(l.remove(i).last() == l.last());
    } else {
        assert(l.remove(i) =~= l.drop_last());
    }
}

proof fn lemma_own_sum_perm(a: Seq<DustModel>, b: Seq<DustModel>)
    requires
        a.to_multiset() == b.to_multiset(),
    ensures
        own_sum(a) == own_sum(b),
    decreases a.len(),
{
    broadcast use vstd::seq_lib::group_to_multiset_ensures;

    if a.len() == 0 {
        assert(b.to_multiset().len() == 0);
        assert(b.len() == 0);
    } else {
        let x = a.last();
        assert(a.to_multiset().count(x) > 0) by {
            assert(a.drop_last().push(x) =~= a);
        }
        assert(b.contains(x));
        let i = choose|i: int| 0 <= i < b.len() && b[i] == x;
        vstd::seq_lib::to_multiset_remove(b, i);
        assert(a.drop_last().push(x) =~= a);
        assert(a.drop_last().to_multiset() =~= b.remove(i).to_multiset());
        lemma_own_sum_perm(a.drop_last(), b.remove(i));
        lemma_own_sum_remove(b, i);
    }
}

proof fn lemma_own_total_list_sum(m: DustModel, k: int)
    requires
        0 <= k <= m.children.len(),
    ensures
        own_total_list(m, k) == own_sum(sorted_by_inode(m.children).take(k)),
    decreases k,
{
    lemma_sorted_members(m.children);
    if k > 0 {
        lemma_own_total_list_sum(m, k - 1);
        let s = sorted_by_inode(m.children);
        assert(s.take(k).drop_last() =~= s.take(k - 1));
    } else {
        assert(sorted_by_inode(m.children).take(0) =~= Seq::<DustModel>::empty());
    }
}

/// What an entry's tree takes itself: its own size plus that of its
/// children's trees, in any order.
pub proof fn lemma_own_total_unsorted(m: DustModel)
    ensures
        own_total(m) == m.own + own_sum(m.children),
{
    let s = sorted_by_inode(m.children);
    lemma_sorted_members(m.children);
    lemma_own_total_list_sum(m, m.children.len() as int);
    assert(s.take(m.children.len() as int) =~= s);
    lemma_sorted_multiset(m.children);
    lemma_own_sum_perm(s, m.children);
}

/// What the entries of a tree take themselves, added up, where that fits
/// in a `u64`.
pub fn own_total_of(node: &DustNode) -> (r: Option<u64>)
    ensures
        match r {
            Some(t) => t == own_total(node.model()),
            None => own_total(node.model()) > u64::MAX,
        },
    decreases node.model(),
{
    let ghost m = node.model();
    proof {
        lemma_model_unfold(node);
        lemma_own_total_unsorted(m);
    }
    let mut total: u64 = node.own_size;
    let n = node.children.len();
    for i in 0..n
        invariant
            n == node.children@.len(),
            m == node.model(),
            m.children == models(node.children@),
            own_total(m) == m.own + own_sum(m.children),
            total == m.own + own_sum(m.children.take(i as int)),
    {
        let ghost c = m.children[i as int];
        proof {
            assert(node.children@[i as int].model() == c);
            assert(decreases_to!(m => m.children[i as int]));
            assert(m.children.take(i + 1).drop_last() =~= m.children.take(i as int));
            assert(m.children.take(i + 1).last() == c);
            assert(own_sum(m.children.take(i + 1)) == own_sum(m.children.take(i as int)) + own_total(c));
        }
        let sub = own_total_of(&node.children[i]);
        match sub {
            Some(t) => {
                if total > u64::MAX - t {
                    proof {
                        lemma_own_sum_prefix(m.children, i + 1);
                    }
                    return None;
                }
                total = total + t;
            },
            None => {
                proof {
                    lemma_own_sum_prefix(m.children, i + 1);
                }
                return None;
            },
        }
    }
    assert(m.children.take(n as int) =~= m.children);
    Some(total)
}

proof fn lemma_own_sum_prefix(l: Seq<DustModel>, k: int)
    requires
        0 <= k <= l.len(),
    ensures
        own_sum(l.take(k)) <= own_sum(l),
        k > 0 ==> own_total(l[k - 1]) <= own_sum(l.take(k)),
    decreases l.len(),
{
    if l.len() > 0 {
        let t = l.drop_last();
        if k == l.len() {
            assert(l.take(k) =~= l);
        } else {
            lemma_own_sum_prefix(t, k);
            assert(t.take(k) =~= l.take(k));
        }
    } else {
        assert(l.take(k) =~= l);
    }
}

/// What the sizes of `nodes` add up to, where that fits in a `u64`.
pub fn sizes_total_of(nodes: &Vec<DustNode>) -> (r: Option<u64>)
    ensures
        match r {
            Some(t) => t == sizes_total(models(nodes@)),
            None => sizes_total(models(nodes@)) > u64::MAX,
        },
{
    let ghost m = models(nodes@);
    let mut t: u64 = 0;
    for i in 0..nodes.len()
        invariant
            m == models(nodes@),
            t == sizes_total(m.take(i as int)),
    {
        proof {
            assert(m.take(i + 1).drop_last() =~= m.take(i as int));
            proof_from_model(&nodes@[i as int]);
            lemma_total_prefix(m, i + 1);
        }
        let s = nodes[i].size_bytes;
        if t > u64::MAX - s {
            return None;
        }
        t = t + s;
    }
    assert(m.take(nodes.len() as int) =~= m);
    Some(t)
}

/// The length in whole blocks is the least multiple of the block size
/// that holds the length.
pub proof fn lemma_whole_blocks(len: u64, block_size: u64)
    ensures
        whole_blocks(len, block_size) % block_of(block_size) == 0,
        len <= whole_blocks(len, block_size) < len + block_of(block_size),
{
    let b = block_of(block_size);
    let q = len as int / b;
    let r = len as int % b;
    assert(len as int == q * b + r && 0 <= r < b) by (nonlinear_arith)
        requires b >= 1, q == len as int / b, r == len as int % b;
    if r != 0 {
        assert(whole_blocks(len, block_size) == (q + 1) * b);
        assert((q + 1) * b == q * b + b) by (nonlinear_arith);
        assert(((q + 1) * b) % b == 0) by (nonlinear_arith)
            requires b >= 1;
    } else {
        assert(whole_blocks(len, block_size) == q * b);
        assert((q * b) % b == 0) by (nonlinear_arith)
            requires b >= 1;
    }
}

/// The space an entry takes is what its 512-byte blocks add up to whenever
/// that is no more than its length in whole blocks plus a buffer of 65536
/// blocks, and its length in whole blocks otherwise; so it is never more
/// than its blocks add up to.
pub proof fn lemma_allocated_size_law(len: u64, block_size: u64, blocks: u64)
    requires
        allocation_fits(len, block_size, blocks),
    ensures
        blocks as int * 512 <= whole_blocks(len, block_size) + block_of(block_size) * 65536
            ==> allocated(len, block_size, blocks) == blocks as int * 512,
        blocks as int * 512 > whole_blocks(len, block_size) + block_of(block_size) * 65536
            ==> allocated(len, block_size, blocks) == whole_blocks(len, block_size),
        allocated(len, block_size, blocks) <= blocks as int * 512,
{
    lemma_whole_blocks(len, block_size);
}

} // verus!
