//! An explicit model of the filesystem fragment the library manipulates: a
//! flat set of nodes keyed by absolute `/`-separated path, plus a clock in
//! whole seconds. The manager's operations are specified and verified against
//! this model; a host program mirrors each mutation onto the real filesystem.
//!
//! Files carry structured content directly (note text, or a vault metadata
//! record); how a record is laid out as bytes on disk is the host's concern.
//!
//! The model is idealized in two documented ways: mutating operations validate
//! their preconditions before touching any node, so a failed operation leaves
//! the model unchanged (on a real filesystem a mid-operation crash can still
//! leave partial state), and no operation enforces that a node's parent
//! directory exists except where stated.

use vstd::prelude::*;
use crate::models::VaultMetadata;
use crate::models::VaultError;
use crate::paths::joined;
use crate::paths::join_path;
use crate::paths::str_eq;
use crate::paths::strip_prefix;

verus! {

/// What a file node holds: free-form note text, or a vault metadata record.
pub enum FileData {
    Text(String),
    Meta(VaultMetadata),
}

pub ghost enum FileDataV {
    Text(Seq<char>),
    Meta(VaultMetadata),
}

impl View for FileData {
    type V = FileDataV;

    open spec fn view(&self) -> FileDataV {
        match self {
            FileData::Text(s) => FileDataV::Text(s@),
            FileData::Meta(m) => FileDataV::Meta(*m),
        }
    }
}

/// Whether a node is a directory or a file with content.
pub enum NodeKind {
    Dir,
    File(FileData),
}

pub ghost enum NodeKindV {
    Dir,
    File(FileDataV),
}

impl View for NodeKind {
    type V = NodeKindV;

    open spec fn view(&self) -> NodeKindV {
        match self {
            NodeKind::Dir => NodeKindV::Dir,
            NodeKind::File(d) => NodeKindV::File(d@),
        }
    }
}

/// One filesystem object: its absolute path, kind, and timestamps in whole
/// seconds (absent timestamps are modeled by the host as it sees fit).
pub struct FsNode {
    pub path: String,
    pub kind: NodeKind,
    pub created: i64,
    pub modified: i64,
}

pub ghost struct FsNodeV {
    pub path: Seq<char>,
    pub kind: NodeKindV,
    pub created: i64,
    pub modified: i64,
}

impl View for FsNode {
    type V = FsNodeV;

    open spec fn view(&self) -> FsNodeV {
        FsNodeV { path: self.path@, kind: self.kind@, created: self.created, modified: self.modified }
    }
}

/// The modeled filesystem: a set of nodes and the current time.
pub struct FsTree {
    pub nodes: Vec<FsNode>,
    pub now: i64,
}

pub ghost struct FsTreeV {
    pub nodes: Seq<FsNodeV>,
    pub now: i64,
}

impl View for FsTree {
    type V = FsTreeV;

    open spec fn view(&self) -> FsTreeV {
        FsTreeV { nodes: Seq::new(self.nodes@.len(), |i: int| self.nodes@[i]@), now: self.now }
    }
}

/// Whether some node stands at `p`.
pub open spec fn has_path(ns: Seq<FsNodeV>, p: Seq<char>) -> bool {
    exists|i: int| 0 <= i < ns.len() && ns[i].path == p
}

/// The index of the node at `p` (unique under `fs_wf`).
pub open spec fn path_index(ns: Seq<FsNodeV>, p: Seq<char>) -> int {
    choose|i: int| 0 <= i < ns.len() && ns[i].path == p
}

/// The node at `p`.
pub open spec fn node_at(ns: Seq<FsNodeV>, p: Seq<char>) -> FsNodeV {
    ns[path_index(ns, p)]
}

/// A directory stands at `p`.
pub open spec fn is_dir_at(ns: Seq<FsNodeV>, p: Seq<char>) -> bool {
    has_path(ns, p) && node_at(ns, p).kind is Dir
}

/// A file stands at `p`.
pub open spec fn is_file_at(ns: Seq<FsNodeV>, p: Seq<char>) -> bool {
    has_path(ns, p) && node_at(ns, p).kind is File
}

/// The content of the file at `p`.
pub open spec fn file_at(ns: Seq<FsNodeV>, p: Seq<char>) -> FileDataV
    recommends
        is_file_at(ns, p),
{
    match node_at(ns, p).kind {
        NodeKindV::File(d) => d,
        NodeKindV::Dir => arbitrary(),
    }
}

/// `q` lies strictly below `p`.
pub open spec fn is_under(q: Seq<char>, p: Seq<char>) -> bool {
    exists|rest: Seq<char>| q == joined(p, rest)
}

/// `q` is `p` itself or lies below it.
pub open spec fn at_or_under(q: Seq<char>, p: Seq<char>) -> bool {
    q == p || is_under(q, p)
}

/// No two nodes share a path.
pub open spec fn fs_wf(ns: Seq<FsNodeV>) -> bool {
    forall|i: int, j: int|
        0 <= i < ns.len() && 0 <= j < ns.len() && i != j ==> ns[i].path != ns[j].path
}

/// A suffix is determined by the whole: joining a base with two suffixes gives
/// the same path only when the suffixes agree.
pub proof fn lemma_joined_injective(p: Seq<char>, r1: Seq<char>, r2: Seq<char>)
    requires
        joined(p, r1) == joined(p, r2),
    ensures
        r1 == r2,
{
    assert(joined(p, r1).len() == p.len() + 1 + r1.len());
    assert(joined(p, r2).len() == p.len() + 1 + r2.len());
    assert(r1.len() == r2.len());
    assert forall|k: int| 0 <= k < r1.len() implies r1[k] == r2[k] by {
        assert(joined(p, r1)[p.len() + 1 + k] == r1[k]);
        assert(joined(p, r2)[p.len() + 1 + k] == r2[k]);
    }
    assert(r1 =~= r2);
}

/// The file at `p` replaced or created with content `d`: an existing file
/// keeps its creation time; a fresh one is stamped `now` for both times.
pub open spec fn upsert_file(ns: Seq<FsNodeV>, p: Seq<char>, d: FileDataV, now: i64) -> Seq<
    FsNodeV,
> {
    if has_path(ns, p) {
        ns.update(
            path_index(ns, p),
            FsNodeV {
                path: p,
                kind: NodeKindV::File(d),
                created: node_at(ns, p).created,
                modified: now,
            },
        )
    } else {
        ns.push(FsNodeV { path: p, kind: NodeKindV::File(d), created: now, modified: now })
    }
}

/// All nodes at or below `p` removed, original order kept.
pub open spec fn remove_subtree_nodes(ns: Seq<FsNodeV>, p: Seq<char>) -> Seq<FsNodeV>
    decreases ns.len(),
{
    if ns.len() == 0 {
        Seq::empty()
    } else if at_or_under(ns.last().path, p) {
        remove_subtree_nodes(ns.drop_last(), p)
    } else {
        remove_subtree_nodes(ns.drop_last(), p).push(ns.last())
    }
}

/// The node exactly at `p` removed, original order kept.
pub open spec fn remove_node_at(ns: Seq<FsNodeV>, p: Seq<char>) -> Seq<FsNodeV>
    decreases ns.len(),
{
    if ns.len() == 0 {
        Seq::empty()
    } else if ns.last().path == p {
        remove_node_at(ns.drop_last(), p)
    } else {
        remove_node_at(ns.drop_last(), p).push(ns.last())
    }
}

/// What `remove_subtree_nodes` keeps: exactly the nodes not at or below `p`,
/// each coming from the original sequence.
pub proof fn lemma_remove_subtree_members(ns: Seq<FsNodeV>, p: Seq<char>, x: FsNodeV)
    ensures
        remove_subtree_nodes(ns, p).contains(x) <==> ns.contains(x) && !at_or_under(x.path, p),
    decreases ns.len(),
{
    let out = remove_subtree_nodes(ns, p);
    if ns.len() > 0 {
        lemma_remove_subtree_members(ns.drop_last(), p, x);
        let sub = remove_subtree_nodes(ns.drop_last(), p);
        if ns.contains(x) && !at_or_under(x.path, p) {
            if x == ns.last() {
                assert(out[out.len() - 1] == x);
            } else {
                let j = choose|j: int| 0 <= j < ns.len() && ns[j] == x;
                assert(ns.drop_last()[j] == x);
                let k = choose|k: int| 0 <= k < sub.len() && sub[k] == x;
                assert(out[k] == x);
            }
        }
        if out.contains(x) {
            let j = choose|j: int| 0 <= j < out.len() && out[j] == x;
            if !at_or_under(ns.last().path, p) && j == out.len() - 1 {
                assert(ns[ns.len() - 1] == x);
            } else {
                assert(sub[j] == x);
                let k = choose|k: int| 0 <= k < ns.drop_last().len() && ns.drop_last()[k] == x;
                assert(ns[k] == x);
            }
        }
    }
}

/// What `remove_node_at` keeps: exactly the nodes whose path is not `p`,
/// each coming from the original sequence.
pub proof fn lemma_remove_node_members(ns: Seq<FsNodeV>, p: Seq<char>, x: FsNodeV)
    ensures
        remove_node_at(ns, p).contains(x) <==> ns.contains(x) && x.path != p,
    decreases ns.len(),
{
    let out = remove_node_at(ns, p);
    if ns.len() > 0 {
        lemma_remove_node_members(ns.drop_last(), p, x);
        let sub = remove_node_at(ns.drop_last(), p);
        if ns.contains(x) && x.path != p {
            if x == ns.last() {
                assert(out[out.len() - 1] == x);
            } else {
                let j = choose|j: int| 0 <= j < ns.len() && ns[j] == x;
                assert(ns.drop_last()[j] == x);
                let k = choose|k: int| 0 <= k < sub.len() && sub[k] == x;
                assert(out[k] == x);
            }
        }
        if out.contains(x) {
            let j = choose|j: int| 0 <= j < out.len() && out[j] == x;
            if ns.last().path != p && j == out.len() - 1 {
                assert(ns[ns.len() - 1] == x);
            } else {
                assert(sub[j] == x);
                let k = choose|k: int| 0 <= k < ns.drop_last().len() && ns.drop_last()[k] == x;
                assert(ns[k] == x);
            }
        }
    }
}

/// The suffix of `q` below `p`.
pub open spec fn suffix_below(q: Seq<char>, p: Seq<char>) -> Seq<char>
    recommends
        is_under(q, p),
{
    choose|rest: Seq<char>| q == joined(p, rest)
}

/// `q` with the prefix `old_p` replaced by `new_p`.
pub open spec fn replace_prefix(q: Seq<char>, old_p: Seq<char>, new_p: Seq<char>) -> Seq<char>
    recommends
        at_or_under(q, old_p),
{
    if q == old_p {
        new_p
    } else {
        joined(new_p, suffix_below(q, old_p))
    }
}

/// Every node at or below `old_p` moved below `new_p`; timestamps kept.
pub open spec fn rename_nodes(ns: Seq<FsNodeV>, old_p: Seq<char>, new_p: Seq<char>) -> Seq<
    FsNodeV,
> {
    ns.map(
        |i: int, n: FsNodeV|
            if at_or_under(n.path, old_p) {
                FsNodeV {
                    path: replace_prefix(n.path, old_p, new_p),
                    kind: n.kind,
                    created: n.created,
                    modified: n.modified,
                }
            } else {
                n
            },
    )
}

/// Removal keeps distinct paths distinct.
pub proof fn lemma_remove_subtree_wf(ns: Seq<FsNodeV>, p: Seq<char>)
    requires
        fs_wf(ns),
    ensures
        fs_wf(remove_subtree_nodes(ns, p)),
    decreases ns.len(),
{
    if ns.len() > 0 {
        assert(fs_wf(ns.drop_last()));
        lemma_remove_subtree_wf(ns.drop_last(), p);
        let sub = remove_subtree_nodes(ns.drop_last(), p);
        let out = remove_subtree_nodes(ns, p);
        if !at_or_under(ns.last().path, p) {
            assert forall|a: int, b: int|
                0 <= a < out.len() && 0 <= b < out.len() && a != b implies out[a].path
                != out[b].path by {
                if a < sub.len() && b < sub.len() {
                    assert(fs_wf(sub));
                } else {
                    let c = if a < sub.len() {
                        a
                    } else {
                        b
                    };
                    assert(sub.contains(out[c])) by {
                        assert(sub[c] == out[c]);
                    }
                    lemma_remove_subtree_members(ns.drop_last(), p, out[c]);
                    let k = choose|k: int|
                        0 <= k < ns.drop_last().len() && ns.drop_last()[k] == out[c];
                    assert(ns[k] == out[c]);
                    assert(ns[k].path != ns[ns.len() - 1].path);
                }
            }
        }
    }
}

/// Removal keeps distinct paths distinct.
pub proof fn lemma_remove_node_wf(ns: Seq<FsNodeV>, p: Seq<char>)
    requires
        fs_wf(ns),
    ensures
        fs_wf(remove_node_at(ns, p)),
    decreases ns.len(),
{
    if ns.len() > 0 {
        assert(fs_wf(ns.drop_last()));
        lemma_remove_node_wf(ns.drop_last(), p);
        let sub = remove_node_at(ns.drop_last(), p);
        let out = remove_node_at(ns, p);
        if ns.last().path != p {
            assert forall|a: int, b: int|
                0 <= a < out.len() && 0 <= b < out.len() && a != b implies out[a].path
                != out[b].path by {
                if a < sub.len() && b < sub.len() {
                    assert(fs_wf(sub));
                } else {
                    let c = if a < sub.len() {
                        a
                    } else {
                        b
                    };
                    assert(sub.contains(out[c])) by {
                        assert(sub[c] == out[c]);
                    }
                    lemma_remove_node_members(ns.drop_last(), p, out[c]);
                    let k = choose|k: int|
                        0 <= k < ns.drop_last().len() && ns.drop_last()[k] == out[c];
                    assert(ns[k] == out[c]);
                    assert(ns[k].path != ns[ns.len() - 1].path);
                }
            }
        }
    }
}


/// `j` is a segment boundary of `p`: its end, or the position of a separator.
pub open spec fn is_boundary(p: Seq<char>, j: int) -> bool {
    j == p.len() || (0 <= j < p.len() && p[j] == '/')
}

/// The ancestors-or-self of a path are exactly its boundary prefixes.
pub proof fn lemma_ancestor_boundary(p: Seq<char>, q: Seq<char>)
    ensures
        at_or_under(p, q) <==> (q.len() <= p.len() && q == p.take(q.len() as int) && is_boundary(
            p,
            q.len() as int,
        )),
{
    if at_or_under(p, q) {
        if p == q {
            assert(q =~= p.take(q.len() as int));
        } else {
            let rest = choose|rest: Seq<char>| p == joined(q, rest);
            assert(p.len() == q.len() + 1 + rest.len());
            assert forall|k: int| 0 <= k < q.len() implies p.take(q.len() as int)[k] == q[k] by {
                assert(p[k] == joined(q, rest)[k]);
            }
            assert(q =~= p.take(q.len() as int));
            assert(p[q.len() as int] == '/');
        }
    }
    if q.len() <= p.len() && q == p.take(q.len() as int) && is_boundary(p, q.len() as int) {
        if q.len() == p.len() {
            assert(q =~= p);
        } else {
            let rest = p.skip(q.len() as int + 1);
            assert(p =~= joined(q, rest));
        }
    }
}

/// Extending a node sequence leaves the nodes of the prefix in place.
pub proof fn lemma_prefix_preserves_node_at(ns1: Seq<FsNodeV>, ns2: Seq<FsNodeV>, q: Seq<char>)
    requires
        fs_wf(ns2),
        ns1.len() <= ns2.len(),
        ns2.take(ns1.len() as int) == ns1,
        has_path(ns1, q),
    ensures
        has_path(ns2, q),
        node_at(ns2, q) == node_at(ns1, q),
{
    let i = path_index(ns1, q);
    assert(ns2[i] == ns2.take(ns1.len() as int)[i]);
    assert(ns2[i].path == q);
    let j = path_index(ns2, q);
    assert(ns2[j].path == q);
    assert(j == i);
    assert(fs_wf(ns1)) by {
        assert(forall|a: int, b: int|
            0 <= a < ns1.len() && 0 <= b < ns1.len() ==> ns1[a] == ns2.take(ns1.len() as int)[a]
                && ns1[b] == ns2.take(ns1.len() as int)[b]);
    }
}

/// What a rename does, node by node: the source is gone, the destination
/// carries the source node, and untouched paths keep their nodes.
pub proof fn lemma_rename_effects(ns: Seq<FsNodeV>, f: Seq<char>, t: Seq<char>)
    requires
        fs_wf(ns),
        !(exists|i: int| 0 <= i < ns.len() && at_or_under(ns[i].path, t)),
    ensures
        fs_wf(rename_nodes(ns, f, t)),
        !has_path(rename_nodes(ns, f, t), f),
        has_path(ns, f) ==> has_path(rename_nodes(ns, f, t), t) && node_at(
            rename_nodes(ns, f, t),
            t,
        ) == (FsNodeV {
            path: t,
            kind: node_at(ns, f).kind,
            created: node_at(ns, f).created,
            modified: node_at(ns, f).modified,
        }),
        forall|q: Seq<char>|
            !at_or_under(q, f) && !at_or_under(q, t) ==> (#[trigger] has_path(
                rename_nodes(ns, f, t),
                q,
            ) == has_path(ns, q) && (has_path(ns, q) ==> node_at(rename_nodes(ns, f, t), q)
                == node_at(ns, q))),
{
    let out = rename_nodes(ns, f, t);
    assert(out.len() == ns.len());
    assert forall|k: int| 0 <= k < ns.len() implies #[trigger] out[k] == (if at_or_under(
        ns[k].path,
        f,
    ) {
        FsNodeV {
            path: replace_prefix(ns[k].path, f, t),
            kind: ns[k].kind,
            created: ns[k].created,
            modified: ns[k].modified,
        }
    } else {
        ns[k]
    }) by {}
    // A moved node lands at or below the destination.
    assert forall|k: int|
        0 <= k < ns.len() && at_or_under(ns[k].path, f) implies at_or_under(out[k].path, t) by {
        if ns[k].path == f {
        } else {
            let r = suffix_below(ns[k].path, f);
            assert(ns[k].path == joined(f, r));
            assert(out[k].path == joined(t, r));
        }
    }
    // Distinct paths stay distinct.
    assert forall|a: int, b: int|
        0 <= a < out.len() && 0 <= b < out.len() && a != b implies out[a].path != out[b].path by {
        let ma = at_or_under(ns[a].path, f);
        let mb = at_or_under(ns[b].path, f);
        if ma && mb {
            if ns[a].path == f && ns[b].path == f {
                assert(false);
            } else if ns[a].path == f {
                let rb = suffix_below(ns[b].path, f);
                assert(out[b].path == joined(t, rb));
                assert(out[b].path.len() > t.len());
            } else if ns[b].path == f {
                let ra = suffix_below(ns[a].path, f);
                assert(out[a].path == joined(t, ra));
                assert(out[a].path.len() > t.len());
            } else {
                let ra = suffix_below(ns[a].path, f);
                let rb = suffix_below(ns[b].path, f);
                assert(ns[a].path == joined(f, ra));
                assert(ns[b].path == joined(f, rb));
                if out[a].path == out[b].path {
                    lemma_joined_injective(t, ra, rb);
                    assert(false);
                }
            }
        } else if ma {
            if out[a].path == out[b].path {
                assert(at_or_under(ns[b].path, t));
                assert(false);
            }
        } else if mb {
            if out[a].path == out[b].path {
                assert(at_or_under(ns[a].path, t));
                assert(false);
            }
        }
    }
    // Nothing remains at the source.
    assert forall|k: int| 0 <= k < out.len() implies out[k].path != f by {
        if at_or_under(ns[k].path, f) {
            assert(at_or_under(out[k].path, t));
            if out[k].path == f {
                assert(at_or_under(f, t));
                if f == t {
                    assert(at_or_under(ns[k].path, t));
                    assert(false);
                } else {
                    let r = choose|r: Seq<char>| f == joined(t, r);
                    assert(at_or_under(ns[k].path, f));
                    assert(has_path(ns, ns[k].path));
                    if ns[k].path == f {
                        assert(at_or_under(ns[k].path, t));
                    } else {
                        let r2 = suffix_below(ns[k].path, f);
                        assert(ns[k].path == joined(f, r2));
                        assert(ns[k].path =~= joined(t, r + seq!['/'] + r2));
                        assert(at_or_under(ns[k].path, t));
                    }
                    assert(false);
                }
            }
        } else {
            if ns[k].path == f {
                assert(at_or_under(ns[k].path, f));
                assert(false);
            }
        }
    }
    // The source node, if any, now stands at the destination.
    if has_path(ns, f) {
        let i = path_index(ns, f);
        assert(ns[i].path == f);
        assert(node_at(ns, f) == ns[i]);
        assert(out[i].path == t);
        assert(has_path(out, t)) by {
            assert(0 <= i < out.len() && out[i].path == t);
        }
        let j = path_index(out, t);
        assert(out[j].path == t);
        assert(j == i);
    }
    // Untouched paths keep their nodes.
    assert forall|q: Seq<char>| !at_or_under(q, f) && !at_or_under(q, t) implies (#[trigger] has_path(
        out,
        q,
    ) == has_path(ns, q) && (has_path(ns, q) ==> node_at(out, q) == node_at(ns, q))) by {
        if has_path(ns, q) {
            let i = path_index(ns, q);
            assert(ns[i].path == q);
            assert(!at_or_under(ns[i].path, f));
            assert(out[i] == ns[i]);
            assert(has_path(out, q)) by {
                assert(0 <= i < out.len() && out[i].path == q);
            }
            let j = path_index(out, q);
            assert(out[j].path == q);
            if at_or_under(ns[j].path, f) {
                assert(at_or_under(out[j].path, t));
                assert(false);
            }
            assert(ns[j].path == q);
            assert(j == i);
        }
        if has_path(out, q) {
            let i = path_index(out, q);
            assert(out[i].path == q);
            if at_or_under(ns[i].path, f) {
                assert(at_or_under(out[i].path, t));
                assert(false);
            }
            assert(ns[i].path == q);
            assert(has_path(ns, q)) by {
                assert(0 <= i < ns.len() && ns[i].path == q);
            }
        }
    }
}


/// What `create_dir_all(p)` does to the node set: the old nodes stay in
/// place, every ancestor-or-self of `p` is a directory afterwards and was not
/// a file before, and everything added is a fresh ancestor directory of `p`
/// stamped `now`.
pub open spec fn dirs_added(pre: Seq<FsNodeV>, post: Seq<FsNodeV>, p: Seq<char>, now: i64) -> bool {
    &&& fs_wf(post)
    &&& pre.len() <= post.len()
    &&& post.take(pre.len() as int) == pre
    &&& forall|q: Seq<char>| at_or_under(p, q) ==> !is_file_at(pre, q) && is_dir_at(post, q)
    &&& forall|k: int|
        pre.len() <= k < post.len() ==> (#[trigger] post[k]).kind is Dir && at_or_under(
            p,
            post[k].path,
        ) && !has_path(pre, post[k].path) && post[k].created == now && post[k].modified == now
}

impl FsTree {
    /// No two nodes share a path.
    pub open spec fn wf(&self) -> bool {
        fs_wf(self@.nodes)
    }

    /// An empty filesystem at time `now`.
    pub fn new(now: i64) -> (r: FsTree)
        ensures
            r.wf(),
            r@.nodes =~= Seq::<FsNodeV>::empty(),
            r@.now == now,
    {
        FsTree { nodes: Vec::new(), now }
    }

    /// Index of the node at `p`, if any.
    fn find_node(&self, p: &str) -> (r: Option<usize>)
        ensures
            match r {
                Some(i) => i < self@.nodes.len() && self@.nodes[i as int].path == p@,
                None => !has_path(self@.nodes, p@),
            },
    {
        let n = self.nodes.len();
        let mut i: usize = 0;
        while i < n
            invariant
                n == self@.nodes.len(),
                i <= n,
                forall|j: int| 0 <= j < i ==> self@.nodes[j].path != p@,
            decreases n - i,
        {
            assert(self@.nodes[i as int].path == self.nodes@[i as int].path@);
            if str_eq(self.nodes[i].path.as_str(), p) {
                return Some(i);
            }
            i = i + 1;
        }
        None
    }

    /// Whether any node stands at `p`.
    pub fn contains_path(&self, p: &str) -> (r: bool)
        ensures
            r == has_path(self@.nodes, p@),
    {
        self.find_node(p).is_some()
    }

    /// Whether a directory stands at `p`.
    pub fn dir_exists(&self, p: &str) -> (r: bool)
        requires
            self.wf(),
        ensures
            r == is_dir_at(self@.nodes, p@),
    {
        match self.find_node(p) {
            Some(i) => {
                proof {
                    assert(node_at(self@.nodes, p@) == self@.nodes[i as int]);
                }
                match &self.nodes[i].kind {
                    NodeKind::Dir => true,
                    NodeKind::File(_) => false,
                }
            },
            None => false,
        }
    }

    /// Whether a file stands at `p`.
    pub fn file_exists(&self, p: &str) -> (r: bool)
        requires
            self.wf(),
        ensures
            r == is_file_at(self@.nodes, p@),
    {
        match self.find_node(p) {
            Some(i) => {
                proof {
                    assert(node_at(self@.nodes, p@) == self@.nodes[i as int]);
                }
                match &self.nodes[i].kind {
                    NodeKind::Dir => false,
                    NodeKind::File(_) => true,
                }
            },
            None => false,
        }
    }

    /// The content of the file at `p`, if a file stands there.
    pub fn read_file(&self, p: &str) -> (r: Option<&FileData>)
        requires
            self.wf(),
        ensures
            match r {
                Some(d) => is_file_at(self@.nodes, p@) && d@ == file_at(self@.nodes, p@),
                None => !is_file_at(self@.nodes, p@),
            },
    {
        match self.find_node(p) {
            Some(i) => {
                proof {
                    assert(node_at(self@.nodes, p@) == self@.nodes[i as int]);
                }
                match &self.nodes[i].kind {
                    NodeKind::Dir => None,
                    NodeKind::File(d) => Some(d),
                }
            },
            None => None,
        }
    }

    /// Write `data` to the file at `p`, creating or replacing it. Fails, and
    /// changes nothing, exactly when a directory stands at `p`.
    pub fn write_file(&mut self, p: &str, data: FileData) -> (r: Result<(), VaultError>)
        requires
            old(self).wf(),
        ensures
            final(self).wf(),
            final(self)@.now == old(self)@.now,
            match r {
                Ok(()) => !is_dir_at(old(self)@.nodes, p@) && final(self)@.nodes == upsert_file(
                    old(self)@.nodes,
                    p@,
                    data@,
                    old(self)@.now,
                ),
                Err(e) => e == VaultError::IOFailure && is_dir_at(old(self)@.nodes, p@)
                    && final(self)@.nodes == old(self)@.nodes,
            },
    {
        let now = self.now;
        match self.find_node(p) {
            Some(i) => {
                proof {
                    assert(node_at(self@.nodes, p@) == self@.nodes[i as int]);
                    assert(path_index(self@.nodes, p@) == i as int);
                }
                match &self.nodes[i].kind {
                    NodeKind::Dir => Err(VaultError::IOFailure),
                    NodeKind::File(_) => {
                        let created = self.nodes[i].created;
                        let node = FsNode {
                            path: p.to_owned(),
                            kind: NodeKind::File(data),
                            created,
                            modified: now,
                        };
                        let ghost pre = self@.nodes;
                        self.nodes[i] = node;
                        proof {
                            assert(final(self)@.nodes =~= upsert_file(pre, p@, data@, now));
                        }
                        Ok(())
                    },
                }
            },
            None => {
                let node = FsNode {
                    path: p.to_owned(),
                    kind: NodeKind::File(data),
                    created: now,
                    modified: now,
                };
                let ghost pre = self@.nodes;
                self.nodes.push(node);
                proof {
                    assert(final(self)@.nodes =~= upsert_file(pre, p@, data@, now));
                    assert forall|a: int, b: int|
                        0 <= a < final(self)@.nodes.len() && 0 <= b < final(self)@.nodes.len() && a
                            != b implies final(self)@.nodes[a].path
                        != final(self)@.nodes[b].path by {
                        if a < pre.len() && b < pre.len() {
                            assert(pre[a].path != pre[b].path);
                        }
                    }
                }
                Ok(())
            },
        }
    }

    /// Whether any node stands at or below `p`.
    pub fn occupied_at_or_under(&self, p: &str) -> (r: bool)
        ensures
            r == exists|i: int|
                0 <= i < self@.nodes.len() && at_or_under(self@.nodes[i].path, p@),
    {
        let n = self.nodes.len();
        let mut i: usize = 0;
        while i < n
            invariant
                n == self@.nodes.len(),
                i <= n,
                forall|j: int| 0 <= j < i ==> !at_or_under(self@.nodes[j].path, p@),
            decreases n - i,
        {
            assert(self@.nodes[i as int].path == self.nodes@[i as int].path@);
            if str_eq(self.nodes[i].path.as_str(), p) {
                return true;
            }
            if strip_prefix(self.nodes[i].path.as_str(), p).is_some() {
                return true;
            }
            i = i + 1;
        }
        false
    }

    /// Remove every node at or below `p`. Total: removing a missing path is a
    /// no-op.
    pub fn remove_subtree(&mut self, p: &str)
        requires
            old(self).wf(),
        ensures
            final(self).wf(),
            final(self)@.now == old(self)@.now,
            final(self)@.nodes == remove_subtree_nodes(old(self)@.nodes, p@),
    {
        let ghost pre = self@.nodes;
        let n = self.nodes.len();
        let mut out: Vec<FsNode> = Vec::new();
        let mut i: usize = 0;
        while i < n
            invariant
                n == pre.len(),
                i <= n,
                pre == self@.nodes,
                self.wf(),
                Seq::new(out@.len(), |k: int| out@[k]@) =~= remove_subtree_nodes(
                    pre.take(i as int),
                    p@,
                ),
            decreases n - i,
        {
            assert(self@.nodes[i as int].path == self.nodes@[i as int].path@);
            let same = str_eq(self.nodes[i].path.as_str(), p);
            let below = strip_prefix(self.nodes[i].path.as_str(), p).is_some();
            let keep = !same && !below;
            proof {
                assert(same == (pre[i as int].path == p@));
                assert(below == is_under(pre[i as int].path, p@));
                assert(keep == !at_or_under(pre[i as int].path, p@));
                assert(pre.take(i as int + 1).drop_last() =~= pre.take(i as int));
                assert(pre.take(i as int + 1).last() == pre[i as int]);
            }
            if keep {
                let node = FsNode {
                    path: self.nodes[i].path.clone(),
                    kind: clone_kind(&self.nodes[i].kind),
                    created: self.nodes[i].created,
                    modified: self.nodes[i].modified,
                };
                proof {
                    assert(node@ == pre[i as int]);
                }
                out.push(node);
                proof {
                    assert(Seq::new(out@.len(), |k: int| out@[k]@) =~= remove_subtree_nodes(
                        pre.take(i as int + 1),
                        p@,
                    ));
                }
            } else {
                proof {
                    assert(remove_subtree_nodes(pre.take(i as int + 1), p@)
                        =~= remove_subtree_nodes(pre.take(i as int), p@));
                }
            }
            i = i + 1;
        }
        proof {
            assert(pre.take(n as int) =~= pre);
        }
        self.nodes = out;
        proof {
            lemma_remove_subtree_wf(pre, p@);
        }
    }

    /// Remove the node exactly at `p`. Total: removing a missing path is a
    /// no-op; nodes below `p` are kept.
    pub fn remove_node(&mut self, p: &str)
        requires
            old(self).wf(),
        ensures
            final(self).wf(),
            final(self)@.now == old(self)@.now,
            final(self)@.nodes == remove_node_at(old(self)@.nodes, p@),
    {
        let ghost pre = self@.nodes;
        let n = self.nodes.len();
        let mut out: Vec<FsNode> = Vec::new();
        let mut i: usize = 0;
        while i < n
            invariant
                n == pre.len(),
                i <= n,
                pre == self@.nodes,
                self.wf(),
                Seq::new(out@.len(), |k: int| out@[k]@) =~= remove_node_at(
                    pre.take(i as int),
                    p@,
                ),
            decreases n - i,
        {
            assert(self@.nodes[i as int].path == self.nodes@[i as int].path@);
            let keep = !str_eq(self.nodes[i].path.as_str(), p);
            proof {
                assert(keep == (pre[i as int].path != p@));
                assert(pre.take(i as int + 1).drop_last() =~= pre.take(i as int));
                assert(pre.take(i as int + 1).last() == pre[i as int]);
            }
            if keep {
                let node = FsNode {
                    path: self.nodes[i].path.clone(),
                    kind: clone_kind(&self.nodes[i].kind),
                    created: self.nodes[i].created,
                    modified: self.nodes[i].modified,
                };
                proof {
                    assert(node@ == pre[i as int]);
                }
                out.push(node);
                proof {
                    assert(Seq::new(out@.len(), |k: int| out@[k]@) =~= remove_node_at(
                        pre.take(i as int + 1),
                        p@,
                    ));
                }
            } else {
                proof {
                    assert(remove_node_at(pre.take(i as int + 1), p@) =~= remove_node_at(
                        pre.take(i as int),
                        p@,
                    ));
                }
            }
            i = i + 1;
        }
        proof {
            assert(pre.take(n as int) =~= pre);
        }
        self.nodes = out;
        proof {
            lemma_remove_node_wf(pre, p@);
        }
    }

    /// Make `q` a directory node, unless one already stands there.
    fn ensure_dir(&mut self, q: &str)
        requires
            old(self).wf(),
            !is_file_at(old(self)@.nodes, q@),
        ensures
            final(self).wf(),
            final(self)@.now == old(self)@.now,
            is_dir_at(final(self)@.nodes, q@),
            has_path(old(self)@.nodes, q@) ==> final(self)@.nodes == old(self)@.nodes,
            !has_path(old(self)@.nodes, q@) ==> final(self)@.nodes == old(self)@.nodes.push(
                FsNodeV {
                    path: q@,
                    kind: NodeKindV::Dir,
                    created: old(self)@.now,
                    modified: old(self)@.now,
                },
            ),
    {
        let now = self.now;
        match self.find_node(q) {
            Some(i) => {
                proof {
                    assert(node_at(self@.nodes, q@) == self@.nodes[i as int]);
                }
            },
            None => {
                let ghost pre = self@.nodes;
                let node = FsNode {
                    path: q.to_owned(),
                    kind: NodeKind::Dir,
                    created: now,
                    modified: now,
                };
                self.nodes.push(node);
                proof {
                    assert(final(self)@.nodes =~= pre.push(
                        FsNodeV {
                            path: q@,
                            kind: NodeKindV::Dir,
                            created: now,
                            modified: now,
                        },
                    ));
                    let k = pre.len() as int;
                    assert(final(self)@.nodes[k].path == q@);
                    assert(has_path(final(self)@.nodes, q@));
                    assert forall|a: int, b: int|
                        0 <= a < final(self)@.nodes.len() && 0 <= b < final(self)@.nodes.len() && a
                            != b implies final(self)@.nodes[a].path
                        != final(self)@.nodes[b].path by {
                        if a < pre.len() && b < pre.len() {
                            assert(pre[a].path != pre[b].path);
                        }
                    }
                    let j = path_index(final(self)@.nodes, q@);
                    assert(final(self)@.nodes[j].path == q@);
                    assert(j == k);
                }
            },
        }
    }

    /// Make `p` and every ancestor of it a directory. Fails, and changes
    /// nothing, exactly when a file stands at `p` or at one of its ancestors.
    pub fn create_dir_all(&mut self, p: &str) -> (r: Result<(), VaultError>)
        requires
            old(self).wf(),
        ensures
            final(self).wf(),
            final(self)@.now == old(self)@.now,
            match r {
                Ok(()) => dirs_added(old(self)@.nodes, final(self)@.nodes, p@, old(self)@.now),
                Err(e) => e == VaultError::IOFailure && (exists|q: Seq<char>|
                    at_or_under(p@, q) && is_file_at(old(self)@.nodes, q)) && final(self)@.nodes
                    == old(self)@.nodes,
            },
    {
        let len = p.unicode_len();
        // First pass: refuse if a file stands at any boundary prefix.
        let mut i: usize = 0;
        while i < len
            invariant
                len == p@.len(),
                i <= len,
                self.wf(),
                forall|j: int|
                    0 <= j < i && is_boundary(p@, j) ==> !is_file_at(
                        self@.nodes,
                        p@.take(j),
                    ),
            decreases len - i,
        {
            if p.get_char(i) == '/' {
                let q = p.substring_char(0, i);
                proof {
                    assert(q@ == p@.take(i as int));
                }
                if self.file_exists(q) {
                    proof {
                        lemma_ancestor_boundary(p@, q@);
                        assert(at_or_under(p@, q@) && is_file_at(self@.nodes, q@));
                    }
                    return Err(VaultError::IOFailure);
                }
            }
            i = i + 1;
        }
        if self.file_exists(p) {
            proof {
                lemma_ancestor_boundary(p@, p@);
            }
            return Err(VaultError::IOFailure);
        }
        proof {
            assert(p@.take(len as int) =~= p@);
            assert forall|q: Seq<char>| at_or_under(p@, q) implies !is_file_at(
                self@.nodes,
                q,
            ) by {
                lemma_ancestor_boundary(p@, q);
                if q.len() < p@.len() {
                    assert(is_boundary(p@, q.len() as int));
                }
            }
        }
        let ghost pre = self@.nodes;
        // Second pass: insert the missing directories, shortest prefix first.
        let mut i: usize = 0;
        while i < len
            invariant
                len == p@.len(),
                i <= len,
                self.wf(),
                self@.now == old(self)@.now,
                pre.len() <= self@.nodes.len(),
                self@.nodes.take(pre.len() as int) == pre,
                forall|q: Seq<char>| at_or_under(p@, q) ==> !is_file_at(pre, q),
                forall|q: Seq<char>| at_or_under(p@, q) ==> !is_file_at(self@.nodes, q),
                forall|k: int|
                    pre.len() <= k < self@.nodes.len() ==> (#[trigger] self@.nodes[k]).kind
                        is Dir && at_or_under(p@, self@.nodes[k].path) && !has_path(
                        pre,
                        self@.nodes[k].path,
                    ) && self@.nodes[k].created == old(self)@.now && self@.nodes[k].modified
                        == old(self)@.now,
                forall|j: int|
                    0 <= j < i && is_boundary(p@, j) ==> is_dir_at(self@.nodes, p@.take(j)),
            decreases len - i,
        {
            if p.get_char(i) == '/' {
                let q = p.substring_char(0, i);
                proof {
                    assert(q@ == p@.take(i as int));
                    lemma_ancestor_boundary(p@, q@);
                }
                let ghost mid = self@.nodes;
                self.ensure_dir(q);
                proof {
                    lemma_ensure_extends(mid, self@.nodes, pre, p@, old(self)@.now);
                }
            }
            i = i + 1;
        }
        proof {
            assert(p@.take(len as int) =~= p@);
            lemma_ancestor_boundary(p@, p@);
        }
        let ghost mid = self@.nodes;
        self.ensure_dir(p);
        proof {
            lemma_ensure_extends(mid, self@.nodes, pre, p@, old(self)@.now);
            assert forall|q: Seq<char>| at_or_under(p@, q) implies is_dir_at(
                final(self)@.nodes,
                q,
            ) by {
                lemma_ancestor_boundary(p@, q);
                if q.len() < p@.len() {
                    assert(is_boundary(p@, q.len() as int));
                    assert(is_dir_at(mid, q));
                    if has_path(mid, q) {
                        lemma_prefix_preserves_node_at(mid, self@.nodes, q);
                    }
                } else {
                    assert(q =~= p@);
                }
            }
        }
        Ok(())
    }

    /// Move the subtree at `from` to `to`, keeping timestamps. Fails, and
    /// changes nothing, exactly when nothing stands at `from` or anything
    /// stands at or below `to`.
    pub fn rename_subtree(&mut self, from: &str, to: &str) -> (r: Result<(), VaultError>)
        requires
            old(self).wf(),
        ensures
            final(self).wf(),
            final(self)@.now == old(self)@.now,
            match r {
                Ok(()) => has_path(old(self)@.nodes, from@) && !(exists|i: int|
                    0 <= i < old(self)@.nodes.len() && at_or_under(old(self)@.nodes[i].path, to@))
                    && final(self)@.nodes == rename_nodes(old(self)@.nodes, from@, to@)
                    && !has_path(final(self)@.nodes, from@) && has_path(final(self)@.nodes, to@),
                Err(e) => e == VaultError::IOFailure && (!has_path(old(self)@.nodes, from@) || (
                exists|i: int|
                    0 <= i < old(self)@.nodes.len() && at_or_under(old(self)@.nodes[i].path, to@)))
                    && final(self)@.nodes == old(self)@.nodes,
            },
    {
        if !self.contains_path(from) {
            return Err(VaultError::IOFailure);
        }
        if self.occupied_at_or_under(to) {
            return Err(VaultError::IOFailure);
        }
        let ghost pre = self@.nodes;
        let n = self.nodes.len();
        let mut out: Vec<FsNode> = Vec::new();
        let mut i: usize = 0;
        while i < n
            invariant
                n == pre.len(),
                i <= n,
                pre == self@.nodes,
                self.wf(),
                Seq::new(out@.len(), |k: int| out@[k]@) =~= rename_nodes(pre, from@, to@).take(
                    i as int,
                ),
            decreases n - i,
        {
            assert(self@.nodes[i as int].path == self.nodes@[i as int].path@);
            let new_path: String = {
                if str_eq(self.nodes[i].path.as_str(), from) {
                    to.to_owned()
                } else {
                    match strip_prefix(self.nodes[i].path.as_str(), from) {
                        Some(rest) => {
                            proof {
                                let r2 = suffix_below(pre[i as int].path, from@);
                                assert(pre[i as int].path == joined(from@, r2));
                                lemma_joined_injective(from@, rest@, r2);
                            }
                            join_path(to, rest.as_str())
                        },
                        None => self.nodes[i].path.clone(),
                    }
                }
            };
            let ghost mapped = rename_nodes(pre, from@, to@)[i as int];
            proof {
                assert(mapped.path == new_path@);
            }
            let node = FsNode {
                path: new_path,
                kind: clone_kind(&self.nodes[i].kind),
                created: self.nodes[i].created,
                modified: self.nodes[i].modified,
            };
            proof {
                assert(node@.kind == pre[i as int].kind);
                assert(mapped.kind == pre[i as int].kind);
                assert(node@ == mapped);
            }
            let ghost old_out = out@;
            out.push(node);
            proof {
                let lhs = Seq::new(out@.len(), |k: int| out@[k]@);
                let rhs = rename_nodes(pre, from@, to@).take(i as int + 1);
                assert(out@.len() == old_out.len() + 1);
                assert(rename_nodes(pre, from@, to@).len() == pre.len());
                assert(Seq::new(old_out.len(), |k: int| old_out[k]@).len() == old_out.len());
                assert(old_out.len() == i as int);
                assert(lhs.len() == i + 1);
                assert(rhs.len() == i + 1);
                assert forall|k: int| 0 <= k < lhs.len() implies lhs[k] == rhs[k] by {
                    if k < i as int {
                        assert(out@[k] == old_out[k]);
                        assert(lhs[k] == old_out[k]@);
                        assert(old_out[k]@ == Seq::new(old_out.len(), |k2: int| old_out[k2]@)[k]);
                        assert(rhs[k] == rename_nodes(pre, from@, to@)[k]);
                    } else {
                        assert(out@[k] == node);
                        assert(lhs[k] == node@);
                        assert(rhs[k] == mapped);
                    }
                }
                assert(lhs =~= rhs);
            }
            i = i + 1;
        }
        proof {
            assert(rename_nodes(pre, from@, to@).take(n as int) =~= rename_nodes(
                pre,
                from@,
                to@,
            ));
        }
        self.nodes = out;
        proof {
            lemma_rename_effects(pre, from@, to@);
        }
        Ok(())
    }
}

/// Growing a node set by `ensure_dir` keeps the bookkeeping of
/// `create_dir_all`: the original nodes stay a prefix and every added node is
/// a fresh directory under `p` stamped `now`.
proof fn lemma_ensure_extends(
    mid: Seq<FsNodeV>,
    post: Seq<FsNodeV>,
    pre: Seq<FsNodeV>,
    p: Seq<char>,
    now: i64,
)
    requires
        fs_wf(mid),
        pre.len() <= mid.len(),
        mid.take(pre.len() as int) == pre,
        mid == post || (exists|q: Seq<char>|
            at_or_under(p, q) && !has_path(mid, q) && post == mid.push(
                FsNodeV { path: q, kind: NodeKindV::Dir, created: now, modified: now },
            )),
        forall|k: int|
            pre.len() <= k < mid.len() ==> (#[trigger] mid[k]).kind is Dir && at_or_under(
                p,
                mid[k].path,
            ) && !has_path(pre, mid[k].path) && mid[k].created == now && mid[k].modified == now,
        forall|q: Seq<char>| at_or_under(p, q) ==> !is_file_at(mid, q),
    ensures
        pre.len() <= post.len(),
        post.take(pre.len() as int) == pre,
        mid.len() <= post.len(),
        post.take(mid.len() as int) == mid,
        forall|k: int|
            pre.len() <= k < post.len() ==> (#[trigger] post[k]).kind is Dir && at_or_under(
                p,
                post[k].path,
            ) && !has_path(pre, post[k].path) && post[k].created == now && post[k].modified == now,
        forall|q: Seq<char>| at_or_under(p, q) ==> !is_file_at(post, q),
        forall|q: Seq<char>| is_dir_at(mid, q) ==> is_dir_at(post, q),
{
    if mid != post {
        let q0 = choose|q: Seq<char>|
            at_or_under(p, q) && !has_path(mid, q) && post == mid.push(
                FsNodeV { path: q, kind: NodeKindV::Dir, created: now, modified: now },
            );
        assert(post.take(pre.len() as int) =~= mid.take(pre.len() as int));
        assert(post.take(mid.len() as int) =~= mid);
        assert forall|k: int| pre.len() <= k < mid.len() implies post[k] == mid[k] by {}
        assert forall|q: Seq<char>| at_or_under(p, q) implies !is_file_at(post, q) by {
            if has_path(post, q) {
                let i = path_index(post, q);
                assert(post[i].path == q);
                if i < mid.len() {
                    assert(mid[i].path == q);
                    assert(has_path(mid, q)) by {
                        assert(0 <= i < mid.len() && mid[i].path == q);
                    }
                    if node_at(post, q).kind is File {
                        let j = path_index(mid, q);
                        assert(mid[j].path == q);
                        assert(j == i);
                        assert(node_at(post, q) == post[i]);
                        assert(post[i] == mid[i]);
                        assert(is_file_at(mid, q));
                        assert(false);
                    }
                } else {
                    assert(post[i].kind is Dir);
                }
            }
        }
        assert forall|q: Seq<char>| is_dir_at(mid, q) implies is_dir_at(post, q) by {
            let i = path_index(mid, q);
            assert(mid[i].path == q);
            assert(post[i] == mid[i]);
            assert(has_path(post, q)) by {
                assert(0 <= i < post.len() && post[i].path == q);
            }
            let j = path_index(post, q);
            assert(post[j].path == q);
            if j < mid.len() {
                assert(mid[j].path == q);
                assert(j == i);
                assert(node_at(post, q) == post[j]);
            } else {
                assert(post[j].kind is Dir);
            }
        }
    }
}

/// Clone a node kind, content and all.
fn clone_kind(k: &NodeKind) -> (r: NodeKind)
    ensures
        r@ == k@,
{
    match k {
        NodeKind::Dir => NodeKind::Dir,
        NodeKind::File(FileData::Text(s)) => NodeKind::File(FileData::Text(s.clone())),
        NodeKind::File(FileData::Meta(m)) => NodeKind::File(FileData::Meta(*m)),
    }
}

} // verus!
