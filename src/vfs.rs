//! The virtual directory tree of a mounted backup: an inode table built from
//! the file mappings of every depot manifest, with the directories that the
//! paths imply and a map from each directory to its children.
use vstd::prelude::*;
use std::collections::HashMap;
use crate::manifest::{FileMapping, ManifestMetadata};
use crate::path::{PathModel, pview, path_of_name, path_cmp, path_hash, split_name, hash_path,
    paths_equal, copy_prefix, compare_paths, lemma_path_cmp_zero};
use crate::le::copy_range;

verus! {

broadcast use vstd::std_specs::hash::group_hash_axioms;


/// The inode of the root directory.
pub const ROOT_INODE: u64 = 1;

/// A file mapping together with the metadata of the manifest it came from.
pub struct FileEntry {
    pub metadata: ManifestMetadata,
    pub mapping: FileMapping,
}

/// A node of the tree: a file mapping of a manifest, or a directory that the
/// paths of file mappings imply.
pub enum Node {
    Real { metadata: ManifestMetadata, path: Vec<Vec<u8>>, file_mapping: FileMapping },
    Synthetic { metadata: ManifestMetadata, name: Vec<u8>, path: Vec<Vec<u8>> },
}

pub open spec fn node_path(n: Node) -> PathModel {
    match n {
        Node::Real { path, .. } => pview(&path),
        Node::Synthetic { path, .. } => pview(&path),
    }
}

/// The path of inode `i`: empty for the root, else that of node `i - 2`.
pub open spec fn ipath(nodes: Seq<Node>, i: int) -> PathModel {
    if i == 1 {
        Seq::empty()
    } else {
        node_path(nodes[i - 2])
    }
}

pub open spec fn parent_path(p: PathModel) -> PathModel {
    p.drop_last()
}

/// Every node has a non-empty path, and no two nodes share one.
pub open spec fn paths_distinct(nodes: Seq<Node>) -> bool {
    &&& forall|k: int| 0 <= k < nodes.len() ==> #[trigger] node_path(nodes[k]).len() > 0
    &&& forall|k1: int, k2: int|
        0 <= k1 < nodes.len() && 0 <= k2 < nodes.len() && k1 != k2 ==> node_path(
            #[trigger] nodes[k1],
        ) != node_path(#[trigger] nodes[k2])
}

/// Each node's inode is in the bucket of the hash of its path, and each bucket
/// holds only inodes of nodes whose path has its hash.
pub open spec fn index_ok(nodes: Seq<Node>, idx: Map<u64, Vec<u64>>) -> bool {
    &&& forall|k: int|
        0 <= k < nodes.len() ==> idx.contains_key(path_hash(#[trigger] node_path(nodes[k])))
            && idx[path_hash(node_path(nodes[k]))]@.contains((k + 2) as u64)
    &&& forall|h: u64, j: int|
        idx.contains_key(h) && 0 <= j < idx[h]@.len() ==> 2 <= #[trigger] idx[h]@[j] <= nodes.len()
            + 1 && path_hash(node_path(nodes[idx[h]@[j] - 2])) == h
}

fn node_path_ref(n: &Node) -> (r: &Vec<Vec<u8>>)
    ensures
        pview(r) == node_path(*n),
{
    match n {
        Node::Real { path, .. } => path,
        Node::Synthetic { path, .. } => path,
    }
}

/// The metadata a node carries.
pub open spec fn node_meta(n: Node) -> ManifestMetadata {
    match n {
        Node::Real { metadata, .. } => metadata,
        Node::Synthetic { metadata, .. } => metadata,
    }
}

/// A directory added by the walk: its path and the metadata it borrows.
pub type DirModel = (PathModel, ManifestMetadata);

/// `p` is the root's path, a real node's, or that of a directory in `dirs`.
pub open spec fn known_path(reals: Seq<Node>, dirs: Seq<DirModel>, p: PathModel) -> bool {
    ||| p.len() == 0
    ||| exists|i: int| 0 <= i < reals.len() && node_path(#[trigger] reals[i]) == p
    ||| exists|j: int| 0 <= j < dirs.len() && (#[trigger] dirs[j]).0 == p
}

/// The directories that the walk up from `p` adds: the prefixes of `p` of length
/// `k`, `k - 1`, ..., down to the first one that is known; each borrows `m`.
pub open spec fn missing_chain(p: PathModel, m: ManifestMetadata, reals: Seq<Node>, dirs: Seq<DirModel>, k: int) -> Seq<
    DirModel,
>
    decreases k,
{
    if k <= 0 || known_path(reals, dirs, p.take(k)) {
        Seq::empty()
    } else {
        seq![(p.take(k), m)] + missing_chain(p, m, reals, dirs, k - 1)
    }
}

/// The directories added, in order, once the first `r` real nodes hang in the
/// tree: each real node's walk adds the missing proper prefixes of its path,
/// deepest first, and they borrow that node's metadata.
pub open spec fn dir_walk(reals: Seq<Node>, r: int) -> Seq<DirModel>
    decreases r,
{
    if r <= 0 {
        Seq::empty()
    } else {
        let w = dir_walk(reals, r - 1);
        let p = node_path(reals[r - 1]);
        w + missing_chain(p, node_meta(reals[r - 1]), reals, w, p.len() - 1)
    }
}

/// The nodes after the first `rc` are the directories of `w`, in order.
pub open spec fn dirs_match(nodes: Seq<Node>, rc: int, w: Seq<DirModel>) -> bool {
    &&& nodes.len() == rc + w.len()
    &&& forall|j: int|
        0 <= j < w.len() ==> node_path(nodes[rc + j]) == (#[trigger] w[j]).0 && node_meta(nodes[rc + j]) == w[j].1
}

proof fn lemma_lookup_known(
    nodes: Seq<Node>,
    rc: int,
    reals: Seq<Node>,
    w: Seq<DirModel>,
    produced: Seq<DirModel>,
    q: PathModel,
    i: int,
)
    requires
        0 <= rc <= nodes.len(),
        nodes.subrange(0, rc) == reals,
        dirs_match(nodes, rc, w + produced),
        forall|t: int| 0 <= t < produced.len() ==> (#[trigger] produced[t]).0.len() > q.len(),
        1 <= i <= nodes.len() + 1,
        ipath(nodes, i) == q,
    ensures
        known_path(reals, w, q),
{
    if i != 1 {
        if i - 2 < rc {
            assert(reals[i - 2] == nodes[i - 2]);
        } else {
            let j = i - 2 - rc;
            let ws = w + produced;
            assert(node_path(nodes[rc + j]) == ws[j].0);
            if j < w.len() {
                assert(ws[j] == w[j]);
            } else {
                assert(ws[j] == produced[j - w.len()]);
            }
        }
    }
}

proof fn lemma_lookup_unknown(nodes: Seq<Node>, rc: int, reals: Seq<Node>, w: Seq<DirModel>, produced: Seq<DirModel>, q: PathModel)
    requires
        0 <= rc <= nodes.len(),
        nodes.subrange(0, rc) == reals,
        dirs_match(nodes, rc, w + produced),
        q.len() > 0,
        forall|k: int| 0 <= k < nodes.len() ==> #[trigger] node_path(nodes[k]) != q,
    ensures
        !known_path(reals, w, q),
{
    if exists|i: int| 0 <= i < reals.len() && node_path(#[trigger] reals[i]) == q {
        let i = choose|i: int| 0 <= i < reals.len() && node_path(#[trigger] reals[i]) == q;
        assert(reals[i] == nodes[i]);
    }
    if exists|j: int| 0 <= j < w.len() && (#[trigger] w[j]).0 == q {
        let j = choose|j: int| 0 <= j < w.len() && (#[trigger] w[j]).0 == q;
        let ws = w + produced;
        assert(ws[j] == w[j]);
        assert(node_path(nodes[rc + j]) == ws[j].0);
    }
}

/// Finds the inode whose path is `p`.
fn lookup(nodes: &Vec<Node>, idx: &HashMap<u64, Vec<u64>>, p: &Vec<Vec<u8>>) -> (r: Option<u64>)
    requires
        paths_distinct(nodes@),
        index_ok(nodes@, idx@),
        nodes@.len() + 2 <= u64::MAX,
    ensures
        match r {
            Some(i) => 1 <= i <= nodes@.len() + 1 && ipath(nodes@, i as int) == pview(p),
            None => pview(p).len() > 0 && forall|k: int|
                0 <= k < nodes@.len() ==> #[trigger] node_path(nodes@[k]) != pview(p),
        },
{
    if p.len() == 0 {
        assert(pview(p) =~= Seq::<Seq<u8>>::empty());
        return Some(ROOT_INODE);
    }
    let h = hash_path(p);
    match idx.get(&h) {
        None => {
            assert forall|k: int| 0 <= k < nodes@.len() implies #[trigger] node_path(nodes@[k])
                != pview(p) by {
                if node_path(nodes@[k]) == pview(p) {
                    assert(idx@.contains_key(path_hash(node_path(nodes@[k]))));
                }
            }
            None
        },
        Some(bucket) => {
            let n_nodes = nodes.len();
            let ghost n = nodes@.len();
            assert forall|j2: int| 0 <= j2 < bucket@.len() implies 2 <= #[trigger] bucket@[j2]
                <= n + 1 by {
                assert(2 <= idx@[h]@[j2] <= n + 1);
            }
            assert forall|k: int| 0 <= k < n && #[trigger] node_path(nodes@[k]) == pview(p) implies bucket@.contains(
                (k + 2) as u64,
            ) by {
                assert(idx@[path_hash(node_path(nodes@[k]))]@.contains((k + 2) as u64));
            }
            let mut j: usize = 0;
            while j < bucket.len()
                invariant
                    j <= bucket@.len(),
                    n == nodes@.len(),
                    n == n_nodes,
                    n + 2 <= u64::MAX,
                    forall|j2: int| 0 <= j2 < bucket@.len() ==> 2 <= #[trigger] bucket@[j2] <= n + 1,
                    forall|k: int|
                        0 <= k < n && #[trigger] node_path(nodes@[k]) == pview(p)
                            ==> bucket@.contains((k + 2) as u64),
                    forall|j2: int|
                        0 <= j2 < j ==> node_path(nodes@[bucket@[j2] - 2]) != pview(p),
                decreases bucket@.len() - j,
            {
                let ino = bucket[j];
                assert(2 <= bucket@[j as int] <= n + 1);
                let pos: usize = (ino - 2) as usize;
                assert(pos == ino - 2);
                let candidate = node_path_ref(&nodes[pos]);
                assert(pview(candidate) == node_path(nodes@[pos as int]));
                if paths_equal(candidate, p) {
                    assert(ipath(nodes@, ino as int) == node_path(nodes@[ino - 2]));
                    return Some(ino);
                }
                assert(node_path(nodes@[bucket@[j as int] - 2]) != pview(p));
                j = j + 1;
            }
            assert forall|k: int| 0 <= k < n implies #[trigger] node_path(nodes@[k]) != pview(p) by {
                if node_path(nodes@[k]) == pview(p) {
                    assert(bucket@.contains((k + 2) as u64));
                    let jj = choose|jj: int|
                        0 <= jj < bucket@.len() && bucket@[jj] == (k + 2) as u64;
                    assert(node_path(nodes@[bucket@[jj] - 2]) != pview(p));
                }
            }
            None
        },
    }
}

pub open spec fn names_view(names: Seq<Vec<Vec<u8>>>) -> Seq<PathModel> {
    names.map_values(|p: Vec<Vec<u8>>| pview(&p))
}

/// Entries ordered by path, and by position among equal paths.
pub open spec fn entry_le(names: Seq<PathModel>, a: usize, b: usize) -> bool {
    path_cmp(names[a as int], names[b as int]) < 0 || (path_cmp(names[a as int], names[b as int])
        == 0 && a <= b)
}

fn compare_entries(names: &Vec<Vec<Vec<u8>>>, a: usize, b: usize) -> (r: std::cmp::Ordering)
    ensures
        a < names@.len() && b < names@.len() ==> ((r is Less || r is Equal) <==> entry_le(
            names_view(names@),
            a,
            b,
        )),
{
    if a >= names.len() || b >= names.len() {
        return std::cmp::Ordering::Equal;
    }
    let c = compare_paths(&names[a], &names[b]);
    if c < 0 {
        std::cmp::Ordering::Less
    } else if c > 0 {
        std::cmp::Ordering::Greater
    } else if a < b {
        std::cmp::Ordering::Less
    } else if a > b {
        std::cmp::Ordering::Greater
    } else {
        std::cmp::Ordering::Equal
    }
}

/// Relies on `slice::sort_by`: the result is a permutation of its input, sorted by
/// the comparator, here a total order (paths, then positions).
#[verifier::external_body]
fn sort_by_path(order: &mut Vec<usize>, names: &Vec<Vec<Vec<u8>>>)
    requires
        forall|i: int| 0 <= i < old(order)@.len() ==> old(order)@[i] < names@.len(),
    ensures
        final(order)@.to_multiset() == old(order)@.to_multiset(),
        forall|i: int, j: int|
            0 <= i < j < final(order)@.len() ==> entry_le(
                names_view(names@),
                final(order)@[i],
                final(order)@[j],
            ),
{
    order.sort_by(|a, b| compare_entries(names, *a, *b));
}

/// `new` is `old` with `ino` added at the end of the bucket of `h`.
pub open spec fn index_inserted(old: Map<u64, Vec<u64>>, new: Map<u64, Vec<u64>>, h: u64, ino: u64) -> bool {
    &&& new.contains_key(h)
    &&& new[h]@ == (if old.contains_key(h) {
        old[h]@
    } else {
        Seq::<u64>::empty()
    }).push(ino)
    &&& forall|h2: u64|
        h2 != h ==> (#[trigger] new.contains_key(h2) == old.contains_key(h2) && (old.contains_key(h2)
            ==> new[h2] == old[h2]))
}

fn insert_index(idx: &mut HashMap<u64, Vec<u64>>, h: u64, ino: u64)
    ensures
        index_inserted(old(idx)@, final(idx)@, h, ino),
{
    let mut bucket = match idx.remove(&h) {
        Some(b) => b,
        None => Vec::new(),
    };
    bucket.push(ino);
    idx.insert(h, bucket);
}

pub open spec fn push_node_pre(
    old_nodes: Seq<Node>,
    old_idx: Map<u64, Vec<u64>>,
    node: Node,
    new_idx: Map<u64, Vec<u64>>,
) -> bool {
    &&& paths_distinct(old_nodes)
    &&& index_ok(old_nodes, old_idx)
    &&& node_path(node).len() > 0
    &&& forall|k: int| 0 <= k < old_nodes.len() ==> #[trigger] node_path(old_nodes[k]) != node_path(node)
    &&& index_inserted(old_idx, new_idx, path_hash(node_path(node)), (old_nodes.len() + 2) as u64)
    &&& old_nodes.len() + 3 <= u64::MAX
}

proof fn lemma_push_node_distinct(old_nodes: Seq<Node>, old_idx: Map<u64, Vec<u64>>, node: Node, new_idx: Map<u64, Vec<u64>>)
    requires
        push_node_pre(old_nodes, old_idx, node, new_idx),
    ensures
        paths_distinct(old_nodes.push(node)),
{
    let nodes = old_nodes.push(node);
    let k_new = old_nodes.len() as int;
    assert forall|k1: int, k2: int|
        0 <= k1 < nodes.len() && 0 <= k2 < nodes.len() && k1 != k2 implies node_path(
        #[trigger] nodes[k1],
    ) != node_path(#[trigger] nodes[k2]) by {
        if k1 < k_new && k2 < k_new {
            assert(nodes[k1] == old_nodes[k1]);
            assert(nodes[k2] == old_nodes[k2]);
        } else if k1 < k_new {
            assert(nodes[k1] == old_nodes[k1]);
        } else {
            assert(nodes[k2] == old_nodes[k2]);
        }
    }
    assert forall|k: int| 0 <= k < nodes.len() implies #[trigger] node_path(nodes[k]).len() > 0 by {
        if k < k_new {
            assert(nodes[k] == old_nodes[k]);
        }
    }
}

proof fn lemma_bucket_grows(old_idx: Map<u64, Vec<u64>>, new_idx: Map<u64, Vec<u64>>, h: u64, ino: u64, hk: u64, x: u64)
    requires
        index_inserted(old_idx, new_idx, h, ino),
        old_idx.contains_key(hk),
        old_idx[hk]@.contains(x),
    ensures
        new_idx.contains_key(hk),
        new_idx[hk]@.contains(x),
{
    if hk == h {
        let w = choose|w: int| 0 <= w < old_idx[h]@.len() && old_idx[h]@[w] == x;
        assert(new_idx[h]@[w] == x);
    } else {
        assert(new_idx.contains_key(hk) == old_idx.contains_key(hk));
        assert(new_idx[hk] == old_idx[hk]);
    }
}

proof fn lemma_push_node_key(old_nodes: Seq<Node>, old_idx: Map<u64, Vec<u64>>, node: Node, new_idx: Map<u64, Vec<u64>>, k: int)
    requires
        push_node_pre(old_nodes, old_idx, node, new_idx),
        0 <= k <= old_nodes.len(),
    ensures
        new_idx.contains_key(path_hash(node_path(old_nodes.push(node)[k])))
            && new_idx[path_hash(node_path(old_nodes.push(node)[k]))]@.contains((k + 2) as u64),
{
    let nodes = old_nodes.push(node);
    let h = path_hash(node_path(node));
    if k < old_nodes.len() {
        assert(nodes[k] == old_nodes[k]);
        let hk = path_hash(node_path(old_nodes[k]));
        assert(old_idx.contains_key(hk) && old_idx[hk]@.contains((k + 2) as u64));
        lemma_bucket_grows(old_idx, new_idx, h, (old_nodes.len() + 2) as u64, hk, (k + 2) as u64);
    } else {
        assert(new_idx[h]@[new_idx[h]@.len() - 1] == (k + 2) as u64);
    }
}

proof fn lemma_push_node_keys(old_nodes: Seq<Node>, old_idx: Map<u64, Vec<u64>>, node: Node, new_idx: Map<u64, Vec<u64>>)
    requires
        push_node_pre(old_nodes, old_idx, node, new_idx),
    ensures
        forall|k: int|
            0 <= k < old_nodes.len() + 1 ==> new_idx.contains_key(path_hash(#[trigger] node_path(old_nodes.push(node)[k])))
            && new_idx[path_hash(node_path(old_nodes.push(node)[k]))]@.contains((k + 2) as u64),
{
    assert forall|k: int| 0 <= k < old_nodes.len() + 1 implies new_idx.contains_key(path_hash(#[trigger] node_path(old_nodes.push(node)[k])))
            && new_idx[path_hash(node_path(old_nodes.push(node)[k]))]@.contains((k + 2) as u64) by {
        lemma_push_node_key(old_nodes, old_idx, node, new_idx, k);
    }
}

proof fn lemma_push_node_buckets(old_nodes: Seq<Node>, old_idx: Map<u64, Vec<u64>>, node: Node, new_idx: Map<u64, Vec<u64>>)
    requires
        push_node_pre(old_nodes, old_idx, node, new_idx),
    ensures
        forall|h2: u64, w: int|
            new_idx.contains_key(h2) && 0 <= w < new_idx[h2]@.len() ==> 2 <= #[trigger] new_idx[h2]@[w]
                <= old_nodes.len() + 2 && path_hash(node_path(old_nodes.push(node)[new_idx[h2]@[w] - 2])) == h2,
{
    let nodes = old_nodes.push(node);
    let h = path_hash(node_path(node));
    assert forall|h2: u64, w: int|
        new_idx.contains_key(h2) && 0 <= w < new_idx[h2]@.len() implies 2 <= #[trigger] new_idx[h2]@[w]
        <= nodes.len() + 1 && path_hash(node_path(nodes[new_idx[h2]@[w] - 2])) == h2 by {
        if h2 == h {
            if old_idx.contains_key(h) && w < old_idx[h]@.len() {
                assert(new_idx[h2]@[w] == old_idx[h]@[w]);
                assert(nodes[new_idx[h2]@[w] - 2] == old_nodes[new_idx[h2]@[w] - 2]);
            }
        } else {
            assert(new_idx[h2] == old_idx[h2]);
            assert(nodes[new_idx[h2]@[w] - 2] == old_nodes[new_idx[h2]@[w] - 2]);
        }
    }
}

/// Adding a node whose path is new keeps the paths distinct and the index right.
proof fn lemma_push_node(
    old_nodes: Seq<Node>,
    old_idx: Map<u64, Vec<u64>>,
    node: Node,
    new_idx: Map<u64, Vec<u64>>,
)
    requires
        push_node_pre(old_nodes, old_idx, node, new_idx),
    ensures
        paths_distinct(old_nodes.push(node)),
        index_ok(old_nodes.push(node), new_idx),
{
    lemma_push_node_distinct(old_nodes, old_idx, node, new_idx);
    lemma_push_node_keys(old_nodes, old_idx, node, new_idx);
    lemma_push_node_buckets(old_nodes, old_idx, node, new_idx);
}

fn empty_entry() -> FileEntry {
    FileEntry {
        metadata: ManifestMetadata {
            depot_id: 0,
            gid_manifest: 0,
            creation_time: 0,
            filenames_encrypted: false,
            cb_disk_original: 0,
            cb_disk_compressed: 0,
            unique_chunks: 0,
            crc_encrypted: 0,
            crc_clear: 0,
        },
        mapping: FileMapping {
            filename: Vec::new(),
            flags: 0,
            size: 0,
            linktarget: None,
            sha_filename: Vec::new(),
            chunks: Vec::new(),
        },
    }
}

/// The relative path of a file entry.
pub open spec fn entry_path(e: FileEntry) -> PathModel {
    path_of_name(e.mapping.filename@)
}

pub open spec fn real_of_entry(n: Node, e: FileEntry) -> bool {
    match n {
        Node::Real { metadata, path, file_mapping } => metadata == e.metadata && file_mapping
            == e.mapping && pview(&path) == entry_path(e),
        _ => false,
    }
}

/// The positions of `names`, sorted by path and then by position.
fn sorted_order(names: &Vec<Vec<Vec<u8>>>) -> (order: Vec<usize>)
    ensures
        order@.len() == names@.len(),
        order@.no_duplicates(),
        forall|x: usize| x < names@.len() ==> #[trigger] order@.contains(x),
        forall|j: int| 0 <= j < order@.len() ==> #[trigger] order@[j] < names@.len(),
        forall|i: int, j: int|
            0 <= i < j < order@.len() ==> entry_le(names_view(names@), order@[i], order@[j]),
{
    let n0 = names.len();
    let mut order: Vec<usize> = Vec::new();
    let mut i: usize = 0;
    while i < n0
        invariant
            i <= n0 == names@.len(),
            order@.len() == i,
            forall|k: int| 0 <= k < i ==> (#[trigger] order@[k]) == k,
        decreases n0 - i,
    {
        order.push(i);
        i = i + 1;
    }
    let ghost order0 = order@;
    proof {
        assert(order0.no_duplicates());
        order0.lemma_multiset_has_no_duplicates();
    }
    sort_by_path(&mut order, &names);
    proof {
        broadcast use vstd::seq_lib::group_to_multiset_ensures;
        assert forall|x: usize| order@.to_multiset().contains(x) implies order@.to_multiset().count(x) == 1 by {
            assert(order0.to_multiset().contains(x));
        }
        order@.lemma_multiset_has_no_duplicates_conv();
        assert forall|x: usize| x < n0 implies #[trigger] order@.contains(x) by {
            assert(order0[x as int] == x);
            assert(order0.contains(x));
            assert(order0.to_multiset().count(x) > 0);
        }
        assert(order@.to_multiset().len() == order0.to_multiset().len());
        assert(order@.len() == n0);
        assert forall|j: int| 0 <= j < n0 implies #[trigger] order@[j] < n0 by {
            assert(order@.contains(order@[j]));
            assert(order@.to_multiset().count(order@[j]) > 0);
            assert(order0.contains(order@[j]));
        }
    }
    order
}

/// A real node made from the first entry with its path.
pub open spec fn real_from_some(n: Node, entries: Seq<FileEntry>) -> bool {
    exists|e: int| 0 <= e < entries.len() && real_of_entry(n, #[trigger] entries[e]) && first_with_path(entries, e)
}

/// No entry before `e` has the path of entry `e`.
pub open spec fn first_with_path(entries: Seq<FileEntry>, e: int) -> bool {
    forall|e2: int| 0 <= e2 < e ==> entry_path(#[trigger] entries[e2]) != entry_path(entries[e])
}

pub open spec fn reals_from(nodes: Seq<Node>, entries: Seq<FileEntry>) -> bool {
    forall|k: int| 0 <= k < nodes.len() ==> #[trigger] real_from_some(nodes[k], entries)
}

/// Every entry with a non-empty path has a node with that path.
pub open spec fn covers_entries(nodes: Seq<Node>, entries: Seq<FileEntry>) -> bool {
    forall|e: int|
        0 <= e < entries.len() && entry_path(#[trigger] entries[e]).len() > 0 ==> exists|k: int|
            0 <= k < nodes.len() && node_path(nodes[k]) == entry_path(entries[e])
}

/// The longest path among the entries, in components.
pub open spec fn max_path_len(entries: Seq<FileEntry>) -> nat
    decreases entries.len(),
{
    if entries.len() == 0 {
        0
    } else {
        let m = max_path_len(entries.drop_last());
        let l = entry_path(entries.last()).len();
        if m < l {
            l
        } else {
            m
        }
    }
}

proof fn lemma_max_path_len(entries: Seq<FileEntry>, e: int)
    requires
        0 <= e < entries.len(),
    ensures
        entry_path(entries[e]).len() <= max_path_len(entries),
    decreases entries.len(),
{
    if e < entries.len() - 1 {
        lemma_max_path_len(entries.drop_last(), e);
        assert(entries.drop_last()[e] == entries[e]);
    }
}

/// The paths of the first `n` nodes ascend strictly.
pub open spec fn paths_ascending(nodes: Seq<Node>, n: int) -> bool {
    forall|a: int, b: int| 0 <= a < b < n ==> path_cmp(node_path(#[trigger] nodes[a]), node_path(#[trigger] nodes[b])) < 0
}

/// One real node for each distinct non-empty path among the entries, each made
/// from an entry with that path.
fn real_nodes(input: Vec<FileEntry>) -> (r: (Vec<Node>, HashMap<u64, Vec<u64>>))
    requires
        input@.len() + 2 <= u64::MAX,
    ensures
        paths_distinct(r.0@),
        index_ok(r.0@, r.1@),
        r.0@.len() <= input@.len(),
        reals_from(r.0@, input@),
        covers_entries(r.0@, input@),
        paths_ascending(r.0@, r.0@.len() as int),
{
    let ghost orig = input@;
    let mut entries = input;
    let n0 = entries.len();
    let mut names: Vec<Vec<Vec<u8>>> = Vec::new();
    let mut i: usize = 0;
    while i < n0
        invariant
            i <= n0 == entries@.len(),
            entries@ == orig,
            names@.len() == i,
            forall|k: int| 0 <= k < i ==> #[trigger] pview(&names@[k]) == entry_path(orig[k]),
        decreases n0 - i,
    {
        names.push(split_name(entries[i].mapping.filename.as_slice()));
        i = i + 1;
    }
    let order = sorted_order(&names);
    let ghost names0 = names_view(names@);
    let mut nodes: Vec<Node> = Vec::new();
    let mut idx: HashMap<u64, Vec<u64>> = HashMap::new();
    let mut j: usize = 0;
    let ghost mut src: Seq<int> = Seq::empty();
    while j < n0
        invariant
            forall|i1: int, i2: int| 0 <= i1 < i2 < n0 ==> entry_le(names0, order@[i1], order@[i2]),
            src.len() == nodes@.len(),
            forall|k: int| 0 <= k < nodes@.len() ==> 0 <= #[trigger] src[k] < j && node_path(nodes@[k]) == names0[order@[src[k]] as int],
            forall|a: int, b: int| 0 <= a < b < nodes@.len() ==> #[trigger] src[a] < #[trigger] src[b],
            j <= n0 == entries@.len() == names@.len() == order@.len() == orig.len(),
            n0 + 2 <= u64::MAX,
            order@.no_duplicates(),
            forall|x: usize| x < n0 ==> #[trigger] order@.contains(x),
            forall|j2: int| 0 <= j2 < n0 ==> #[trigger] order@[j2] < n0,
            forall|k: int| 0 <= k < n0 ==> #[trigger] names0[k] == entry_path(orig[k]),
            forall|j2: int|
                j <= j2 < n0 ==> pview(&names@[#[trigger] order@[j2] as int]) == names0[order@[j2] as int]
                    && entries@[order@[j2] as int] == orig[order@[j2] as int],
            paths_distinct(nodes@),
            index_ok(nodes@, idx@),
            nodes@.len() <= j,
            reals_from(nodes@, orig),
            forall|j2: int|
                0 <= j2 < j && names0[#[trigger] order@[j2] as int].len() > 0 ==> exists|k: int|
                    0 <= k < nodes@.len() && node_path(nodes@[k]) == names0[order@[j2] as int],
        decreases n0 - j,
    {
        let o = order[j];
        assert(o < n0);
        let ghost nodes_before = nodes@;
        if names[o].len() > 0 {
            match lookup(&nodes, &idx, &names[o]) {
                Some(found) => {
                    assert(node_path(nodes@[found - 2]) == names0[o as int]);
                },
                None => {
                    proof {
                        assert(names0[o as int] == pview(&names@[o as int]));
                        assert forall|e2: int| 0 <= e2 < o implies entry_path(#[trigger] orig[e2]) != entry_path(
                            orig[o as int],
                        ) by {
                            if entry_path(orig[e2]) == entry_path(orig[o as int]) {
                                assert(order@.contains(e2 as usize));
                                let j2 = choose|j2: int| 0 <= j2 < n0 && order@[j2] == e2 as usize;
                                assert(names0[e2] == names0[o as int]);
                                if j2 < j {
                                    assert(names0[order@[j2] as int].len() > 0);
                                    let k = choose|k: int|
                                        0 <= k < nodes@.len() && node_path(nodes@[k]) == names0[order@[j2] as int];
                                    assert(node_path(nodes@[k]) != pview(&names@[o as int]));
                                } else {
                                    assert(j2 != j);
                                    assert(entry_le(names0, order@[j as int], order@[j2]));
                                    lemma_path_cmp_zero(names0[o as int], names0[e2]);
                                }
                            }
                        }
                        assert(first_with_path(orig, o as int));
                    }
                    let mut path: Vec<Vec<u8>> = Vec::new();
                    std::mem::swap(&mut path, &mut names[o]);
                    let mut e = empty_entry();
                    std::mem::swap(&mut e, &mut entries[o]);
                    let ino = nodes.len() as u64 + 2;
                    let h = hash_path(&path);
                    let ghost old_nodes = nodes@;
                    let ghost old_idx = idx@;
                    nodes.push(Node::Real { metadata: e.metadata, path, file_mapping: e.mapping });
                    insert_index(&mut idx, h, ino);
                    proof {
                        lemma_push_node(old_nodes, old_idx, nodes@.last(), idx@);
                        assert(nodes@ == old_nodes.push(nodes@.last()));
                        let k_new = old_nodes.len() as int;
                        src = src.push(j as int);
                        assert forall|k: int| 0 <= k < nodes@.len() implies 0 <= #[trigger] src[k] < j + 1 && node_path(nodes@[k]) == names0[order@[src[k]] as int] by {
                            if k < k_new {
                                assert(nodes@[k] == old_nodes[k]);
                            }
                        }
                        assert(real_of_entry(nodes@[k_new], orig[o as int]));
                        assert(real_of_entry(nodes@[k_new], orig[o as int]));
                        assert(real_from_some(nodes@[k_new], orig));
                        assert forall|k: int| 0 <= k < nodes@.len() implies #[trigger] real_from_some(nodes@[k], orig) by {
                            if k < k_new {
                                assert(nodes@[k] == old_nodes[k]);
                            }
                        }
                        assert(reals_from(nodes@, orig));
                    }
                },
            }
        }
        proof {
            assert forall|j2: int|
                0 <= j2 < j + 1 && names0[#[trigger] order@[j2] as int].len() > 0 implies exists|k: int|
                0 <= k < nodes@.len() && node_path(nodes@[k]) == names0[order@[j2] as int] by {
                if j2 < j {
                    let k = choose|k: int|
                        0 <= k < nodes_before.len() && node_path(nodes_before[k])
                            == names0[order@[j2] as int];
                    assert(nodes@[k] == nodes_before[k]);
                }
            }
            assert forall|j2: int|
                j + 1 <= j2 < n0 implies pview(&names@[#[trigger] order@[j2] as int]) == names0[order@[j2] as int]
                && entries@[order@[j2] as int] == orig[order@[j2] as int] by {
                assert(order@[j2] != order@[j as int]);
            }
        }
        j = j + 1;
    }
    proof {
        assert forall|e: int|
            0 <= e < n0 && entry_path(#[trigger] orig[e]).len() > 0 implies exists|k: int|
            0 <= k < nodes@.len() && node_path(nodes@[k]) == entry_path(orig[e]) by {
            assert(order@.contains(e as usize));
            let w = choose|w: int| 0 <= w < n0 && order@[w] == e as usize;
            assert(names0[order@[w] as int].len() > 0);
        }
    }
    assert(orig == input@);
    proof {
        assert forall|a: int, b: int| 0 <= a < b < nodes@.len() implies path_cmp(
            node_path(#[trigger] nodes@[a]),
            node_path(#[trigger] nodes@[b]),
        ) < 0 by {
            assert(src[a] < src[b]);
            assert(entry_le(names0, order@[src[a]], order@[src[b]]));
            lemma_path_cmp_zero(node_path(nodes@[a]), node_path(nodes@[b]));
        }
    }
    let ghost final_nodes = nodes@;
    let r = (nodes, idx);
    assert(r.0@ == final_nodes);
    assert(reals_from(final_nodes, orig));
    assert(covers_entries(final_nodes, orig));
    r
}

/// Whether the node at position `k` already hangs in the directory map while
/// the reals before `done` have been placed and `pending` waits for its parent.
pub open spec fn linked(rc: int, done: int, pending: int, k: int) -> bool {
    (k < done || k >= rc) && k != pending
}

/// The list of directory `d` (inode `d + 1`) holds only placed inodes whose parent
/// path is the path of `d`, each once; every placed node is in the list of
/// `par[k]`.
#[verifier::opaque]
pub open spec fn dirs_ok(
    nodes: Seq<Node>,
    dirs: Seq<Vec<u64>>,
    par: Seq<int>,
    rc: int,
    done: int,
    pending: int,
) -> bool {
    &&& dirs.len() == nodes.len() + 1
    &&& par.len() == nodes.len()
    &&& forall|d: int, j: int|
        0 <= d < dirs.len() && 0 <= j < dirs[d]@.len() ==> 2 <= #[trigger] dirs[d]@[j] <= nodes.len() + 1
            && linked(rc, done, pending, dirs[d]@[j] - 2) && parent_path(
            node_path(nodes[dirs[d]@[j] - 2]),
        ) == ipath(nodes, d + 1)
    &&& forall|d: int, j1: int, j2: int|
        0 <= d < dirs.len() && 0 <= j1 < dirs[d]@.len() && 0 <= j2 < dirs[d]@.len() && #[trigger] dirs[d]@[j1]
            == #[trigger] dirs[d]@[j2] ==> j1 == j2
    &&& forall|k: int|
        0 <= k < nodes.len() && linked(rc, done, pending, k) ==> 0 <= #[trigger] par[k] < dirs.len()
            && dirs[par[k]]@.contains((k + 2) as u64)
}

proof fn lemma_dirs_shift(nodes: Seq<Node>, dirs: Seq<Vec<u64>>, par: Seq<int>, rc: int, r: int)
    requires
        dirs_ok(nodes, dirs, par, rc, r, -1),
        0 <= r < rc,
    ensures
        dirs_ok(nodes, dirs, par, rc, r + 1, r),
        dirs.len() == nodes.len() + 1,
        par.len() == nodes.len(),
{
    reveal(dirs_ok);
    assert forall|k: int| 0 <= k implies #[trigger] linked(rc, r, -1, k) == linked(rc, r + 1, r, k) by {}
}

proof fn lemma_dirs_len(nodes: Seq<Node>, dirs: Seq<Vec<u64>>, par: Seq<int>, rc: int, done: int, pending: int)
    requires
        dirs_ok(nodes, dirs, par, rc, done, pending),
    ensures
        dirs.len() == nodes.len() + 1,
        par.len() == nodes.len(),
{
    reveal(dirs_ok);
}

proof fn lemma_link_found(
    nodes: Seq<Node>,
    dirs: Seq<Vec<u64>>,
    new_dirs: Seq<Vec<u64>>,
    par: Seq<int>,
    rc: int,
    done: int,
    pending: int,
    d: int,
)
    requires
        dirs_ok(nodes, dirs, par, rc, done, pending),
        0 <= pending < nodes.len(),
        pending < done || pending >= rc,
        nodes.len() + 2 <= u64::MAX,
        0 <= d < dirs.len(),
        ipath(nodes, d + 1) == parent_path(node_path(nodes[pending])),
        new_dirs == dirs.update(d, new_dirs[d]),
        new_dirs[d]@ == dirs[d]@.push((pending + 2) as u64),
    ensures
        dirs_ok(nodes, new_dirs, par.update(pending, d), rc, done, -1),
{
    reveal(dirs_ok);
    let ino = (pending + 2) as u64;
    let par2 = par.update(pending, d);
    assert forall|d2: int, j: int|
        0 <= d2 < new_dirs.len() && 0 <= j < new_dirs[d2]@.len() implies 2 <= #[trigger] new_dirs[d2]@[j]
        <= nodes.len() + 1 && linked(rc, done, -1, new_dirs[d2]@[j] - 2) && parent_path(
        node_path(nodes[new_dirs[d2]@[j] - 2]),
    ) == ipath(nodes, d2 + 1) by {
        if d2 != d || j < dirs[d]@.len() {
            assert(new_dirs[d2]@[j] == dirs[d2]@[j]);
        }
    }
    assert forall|d2: int, j1: int, j2: int|
        0 <= d2 < new_dirs.len() && 0 <= j1 < new_dirs[d2]@.len() && 0 <= j2 < new_dirs[d2]@.len()
            && #[trigger] new_dirs[d2]@[j1] == #[trigger] new_dirs[d2]@[j2] implies j1 == j2 by {
        if d2 == d {
            let n = dirs[d]@.len();
            if j1 < n && j2 < n {
                assert(dirs[d]@[j1] == dirs[d]@[j2]);
            } else if j1 < n {
                assert(dirs[d]@[j1] == ino);
            } else if j2 < n {
                assert(dirs[d]@[j2] == ino);
            }
        } else {
            assert(new_dirs[d2] == dirs[d2]);
        }
    }
    assert forall|k: int|
        0 <= k < nodes.len() && linked(rc, done, -1, k) implies 0 <= #[trigger] par2[k] < new_dirs.len()
        && new_dirs[par2[k]]@.contains((k + 2) as u64) by {
        if k == pending {
            assert(new_dirs[d]@[dirs[d]@.len() as int] == ino);
        } else {
            let w = choose|w: int| 0 <= w < dirs[par[k]]@.len() && dirs[par[k]]@[w] == (k + 2) as u64;
            if par[k] == d {
                assert(new_dirs[d]@[w] == (k + 2) as u64);
            } else {
                assert(new_dirs[par[k]] == dirs[par[k]]);
            }
        }
    }
}

proof fn lemma_link_new(
    nodes: Seq<Node>,
    dirs: Seq<Vec<u64>>,
    new_nodes: Seq<Node>,
    new_dirs: Seq<Vec<u64>>,
    par: Seq<int>,
    rc: int,
    done: int,
    pending: int,
)
    requires
        dirs_ok(nodes, dirs, par, rc, done, pending),
        0 <= pending < nodes.len(),
        pending < done || pending >= rc,
        done <= rc <= nodes.len(),
        nodes.len() + 3 <= u64::MAX,
        new_nodes.len() == nodes.len() + 1,
        forall|k: int| 0 <= k < nodes.len() ==> new_nodes[k] == nodes[k],
        node_path(new_nodes[nodes.len() as int]) == parent_path(node_path(nodes[pending])),
        new_dirs.len() == dirs.len() + 1,
        forall|d: int| 0 <= d < dirs.len() ==> new_dirs[d] == dirs[d],
        new_dirs[dirs.len() as int]@ == seq![(pending + 2) as u64],
    ensures
        dirs_ok(
            new_nodes,
            new_dirs,
            par.update(pending, dirs.len() as int).push(0),
            rc,
            done,
            nodes.len() as int,
        ),
{
    reveal(dirs_ok);
    let ino = (pending + 2) as u64;
    let nd = dirs.len() as int;
    let par2 = par.update(pending, nd).push(0);
    let pn = nodes.len() as int;
    assert forall|d2: int, j: int|
        0 <= d2 < new_dirs.len() && 0 <= j < new_dirs[d2]@.len() implies 2 <= #[trigger] new_dirs[d2]@[j]
        <= new_nodes.len() + 1 && linked(rc, done, pn, new_dirs[d2]@[j] - 2) && parent_path(
        node_path(new_nodes[new_dirs[d2]@[j] - 2]),
    ) == ipath(new_nodes, d2 + 1) by {
        if d2 < nd {
            let c = dirs[d2]@[j];
            assert(new_dirs[d2]@[j] == c);
            assert(new_nodes[c - 2] == nodes[c - 2]);
            if d2 >= 1 {
                assert(new_nodes[d2 - 1] == nodes[d2 - 1]);
            }
        } else {
            assert(new_dirs[d2]@[j] == ino);
            assert(new_nodes[pending] == nodes[pending]);
        }
    }
    assert forall|d2: int, j1: int, j2: int|
        0 <= d2 < new_dirs.len() && 0 <= j1 < new_dirs[d2]@.len() && 0 <= j2 < new_dirs[d2]@.len()
            && #[trigger] new_dirs[d2]@[j1] == #[trigger] new_dirs[d2]@[j2] implies j1 == j2 by {
        if d2 < nd {
            assert(new_dirs[d2] == dirs[d2]);
        }
    }
    assert forall|k: int|
        0 <= k < new_nodes.len() && linked(rc, done, pn, k) implies 0 <= #[trigger] par2[k] < new_dirs.len()
        && new_dirs[par2[k]]@.contains((k + 2) as u64) by {
        if k == pending {
            assert(new_dirs[nd]@[0] == ino);
        } else {
            assert(par2[k] == par[k]);
            assert(new_dirs[par[k]] == dirs[par[k]]);
        }
    }
}

#[derive(Clone, Copy, Debug, PartialEq, Eq, Structural)]
pub enum VfsError {
    /// More nodes than inode numbers.
    TooManyNodes,
}

/// The assembled tree: the node of inode `i` is `inodes[i - 2]`, the children of
/// inode `i` are `dir_map[i - 1]`, and `index` finds an inode by the hash of its path.
pub struct Vfs {
    pub inodes: Vec<Node>,
    pub dir_map: Vec<Vec<u64>>,
    pub real_count: usize,
    pub index: HashMap<u64, Vec<u64>>,
}

/// Every listed child is a non-root inode whose parent path is the path of the
/// directory that lists it, once; every non-root inode is listed somewhere.
pub open spec fn tree_ok(nodes: Seq<Node>, dirs: Seq<Vec<u64>>) -> bool {
    &&& paths_distinct(nodes)
    &&& dirs.len() == nodes.len() + 1
    &&& forall|d: int, j: int|
        0 <= d < dirs.len() && 0 <= j < dirs[d]@.len() ==> 2 <= #[trigger] dirs[d]@[j] <= nodes.len() + 1
            && parent_path(node_path(nodes[dirs[d]@[j] - 2])) == ipath(nodes, d + 1)
    &&& forall|d: int, j1: int, j2: int|
        0 <= d < dirs.len() && 0 <= j1 < dirs[d]@.len() && 0 <= j2 < dirs[d]@.len() && #[trigger] dirs[d]@[j1]
            == #[trigger] dirs[d]@[j2] ==> j1 == j2
    &&& forall|c: u64| 2 <= c <= nodes.len() + 1 ==> #[trigger] listed(dirs, c)
}

/// Some list of the directory map holds `c`.
pub open spec fn listed(dirs: Seq<Vec<u64>>, c: u64) -> bool {
    exists|d: int| 0 <= d < dirs.len() && #[trigger] dirs[d]@.contains(c)
}

pub open spec fn synthetic_ok(n: Node) -> bool {
    match n {
        Node::Synthetic { name, path, .. } => pview(&path).len() > 0 && name@ == pview(&path).last(),
        _ => false,
    }
}

impl Vfs {
    /// The assembled tree is well formed: the tree laws hold, the index is right,
    /// the real nodes come first and each directory node is named by the last
    /// component of its path.
    pub open spec fn wf(&self) -> bool {
        &&& tree_ok(self.inodes@, self.dir_map@)
        &&& index_ok(self.inodes@, self.index@)
        &&& self.inodes@.len() + 3 <= u64::MAX
        &&& self.real_count <= self.inodes@.len()
        &&& forall|k: int| 0 <= k < self.real_count ==> #[trigger] self.inodes@[k] is Real
        &&& forall|k: int|
            self.real_count <= k < self.inodes@.len() ==> synthetic_ok(#[trigger] self.inodes@[k])
    }

    pub open spec fn valid_inode(&self, i: int) -> bool {
        1 <= i <= self.inodes@.len() + 1
    }

    pub open spec fn path_of(&self, i: int) -> PathModel {
        ipath(self.inodes@, i)
    }

    /// Inode `c` is in the child list of inode `d`.
    pub open spec fn lists(&self, d: int, c: int) -> bool {
        1 <= d <= self.dir_map@.len() && 0 <= c <= u64::MAX && self.dir_map@[d - 1]@.contains(c as u64)
    }

    /// Builds the tree from the file entries of every manifest: one real node per
    /// distinct non-empty path, in order of path, then the directories those paths
    /// imply.
    #[verifier::rlimit(60)]
    pub fn assemble(entries: Vec<FileEntry>) -> (r: Result<Vfs, VfsError>)
        requires
            entries@.len() + 3 <= u64::MAX,
        ensures
            r matches Ok(v) ==> {
                &&& v.wf()
                &&& reals_from(v.inodes@.subrange(0, v.real_count as int), entries@)
                &&& covers_entries(v.inodes@.subrange(0, v.real_count as int), entries@)
                &&& paths_ascending(v.inodes@, v.real_count as int)
                &&& dirs_match(
                    v.inodes@,
                    v.real_count as int,
                    dir_walk(v.inodes@.subrange(0, v.real_count as int), v.real_count as int),
                )
            },
            entries@.len() * (max_path_len(entries@) + 1) + 16 <= u64::MAX ==> r is Ok,
    {
        let ghost ents = entries@;
        let (mut nodes, mut idx) = real_nodes(entries);
        assert(nodes@.len() <= ents.len());
        let rc = nodes.len();
        let ghost reals0 = nodes@;
        let mut dirs: Vec<Vec<u64>> = Vec::new();
        dirs.push(Vec::new());
        let mut i: usize = 0;
        while i < rc
            invariant
                i <= rc,
                rc == nodes@.len(),
                dirs@.len() == i + 1,
                forall|d: int| 0 <= d <= i ==> (#[trigger] dirs@[d])@.len() == 0,
            decreases rc - i,
        {
            dirs.push(Vec::new());
            i = i + 1;
        }
        let ghost mut par: Seq<int> = Seq::new(rc as nat, |k: int| 0);
        assert(dirs_ok(nodes@, dirs@, par, rc as int, 0, -1)) by {
            reveal(dirs_ok);
        }
        let mut r: usize = 0;
        while r < rc
            invariant
                r <= rc <= nodes@.len(),
                rc + 3 <= u64::MAX,
                nodes@.len() + 3 <= u64::MAX,
                paths_distinct(nodes@),
                index_ok(nodes@, idx@),
                dirs_ok(nodes@, dirs@, par, rc as int, r as int, -1),
                nodes@.subrange(0, rc as int) == reals0,
                reals_from(reals0, ents),
                forall|k: int| rc <= k < nodes@.len() ==> synthetic_ok(#[trigger] nodes@[k]),
                rc <= ents.len(),
                ents == entries@,
                nodes@.len() <= rc + r * max_path_len(ents),
                dirs_match(nodes@, rc as int, dir_walk(reals0, r as int)),
            decreases rc - r,
        {
            proof {
                assert forall|k: int| 0 <= k < rc implies #[trigger] nodes@[k] is Real by {
                    assert(nodes@[k] == reals0[k]);
                    assert(real_from_some(reals0[k], ents));
                }
            }
            let ghost before = nodes@;
            let ghost mx = max_path_len(ents);
            proof {
                assert(nodes@[r as int] == reals0[r as int]);
                assert(real_from_some(reals0[r as int], ents));
                let e = choose|e: int| 0 <= e < ents.len() && real_of_entry(reals0[r as int], #[trigger] ents[e])
                    && first_with_path(ents, e);
                lemma_max_path_len(ents, e);
                assert(node_path(before[r as int]).len() <= mx);
                assert(r * mx + mx == (r + 1) * mx) by (nonlinear_arith);
                if ents.len() * (mx + 1) + 16 <= u64::MAX {
                    assert((r + 1) * mx <= rc * mx) by (nonlinear_arith)
                        requires
                            r + 1 <= rc,
                    ;
                    assert(rc + rc * mx <= ents.len() * (mx + 1)) by (nonlinear_arith)
                        requires
                            rc <= ents.len(),
                    ;
                }
            }
            let placed = place_node(&mut nodes, &mut idx, &mut dirs, r, rc, Ghost(par));
            match placed {
                Ok(p) => {
                    proof {
                        par = p@;
                        assert(nodes@.subrange(0, rc as int) =~= before.subrange(0, rc as int));
                    }
                },
                Err(e) => {
                    proof {
                        assert(before.len() + node_path(before[r as int]).len() > 0xFFFF_FFFF_FFFF_FFF0);
                        assert(!(ents.len() * (mx + 1) + 16 <= u64::MAX));
                    }
                    return Err(e);
                },
            }
            r = r + 1;
        }
        proof {
            lemma_tree_from_dirs(nodes@, dirs@, par, rc as int);
            assert(nodes@.subrange(0, rc as int) == reals0);
            assert forall|k: int| 0 <= k < rc implies #[trigger] nodes@[k] is Real by {
                assert(nodes@[k] == reals0[k]);
                assert(real_from_some(reals0[k], ents));
            }
            assert forall|a: int, b: int| 0 <= a < b < rc implies path_cmp(
                node_path(#[trigger] nodes@[a]),
                node_path(#[trigger] nodes@[b]),
            ) < 0 by {
                assert(nodes@[a] == reals0[a]);
                assert(nodes@[b] == reals0[b]);
            }
        }
        Ok(Vfs { inodes: nodes, dir_map: dirs, real_count: rc, index: idx })
    }
}

/// Hangs real node `r` under its parent directory, adding the directories of its
/// path that no node has yet.
#[verifier::rlimit(100)]
#[verifier::spinoff_prover]
fn place_node(
    nodes: &mut Vec<Node>,
    idx: &mut HashMap<u64, Vec<u64>>,
    dirs: &mut Vec<Vec<u64>>,
    r: usize,
    rc: usize,
    par0: Ghost<Seq<int>>,
) -> (res: Result<Ghost<Seq<int>>, VfsError>)
    requires
        r < rc <= old(nodes)@.len(),
        old(nodes)@.len() + 3 <= u64::MAX,
        paths_distinct(old(nodes)@),
        index_ok(old(nodes)@, old(idx)@),
        dirs_ok(old(nodes)@, old(dirs)@, par0@, rc as int, r as int, -1),
        forall|k: int| 0 <= k < rc ==> #[trigger] old(nodes)@[k] is Real,
        forall|k: int| rc <= k < old(nodes)@.len() ==> synthetic_ok(#[trigger] old(nodes)@[k]),
        dirs_match(old(nodes)@, rc as int, dir_walk(old(nodes)@.subrange(0, rc as int), r as int)),
    ensures
        res is Ok ==> dirs_match(final(nodes)@, rc as int, dir_walk(old(nodes)@.subrange(0, rc as int), r + 1)),
        res is Ok ==> rc <= final(nodes)@.len(),
        res is Ok ==> final(nodes)@.len() + 3 <= u64::MAX,
        res is Ok ==> paths_distinct(final(nodes)@),
        res is Ok ==> index_ok(final(nodes)@, final(idx)@),
        res matches Ok(par) ==> dirs_ok(final(nodes)@, final(dirs)@, par@, rc as int, r + 1, -1),
        res is Ok ==> forall|k: int| 0 <= k < rc ==> (#[trigger] final(nodes)@[k]) == old(nodes)@[k],
        res is Ok ==> forall|k: int| rc <= k < final(nodes)@.len() ==> synthetic_ok(#[trigger] final(nodes)@[k]),
        res is Ok ==> final(nodes)@.len() < old(nodes)@.len() + node_path(old(nodes)@[r as int]).len(),
        old(nodes)@.len() + node_path(old(nodes)@[r as int]).len() <= 0xFFFF_FFFF_FFFF_FFF0 ==> res is Ok,
{
    let ghost mut par = par0@;
    let ghost len0 = nodes@.len();
    let ghost plen = node_path(nodes@[r as int]).len();
    let ghost reals = nodes@.subrange(0, rc as int);
    let ghost w0 = dir_walk(reals, r as int);
    let ghost p = node_path(reals[r as int]);
    let ghost m = node_meta(reals[r as int]);
    let ghost mut produced: Seq<DirModel> = Seq::empty();
    proof {
        lemma_dirs_shift(nodes@, dirs@, par, rc as int, r as int);
        assert(w0 + produced =~= w0);
    }
            let (meta, mut q) = match &nodes[r] {
        Node::Real { metadata, path, .. } => {
            if path.len() == 0 {
                proof {
                    assert(node_path(nodes@[r as int]).len() > 0);
                }
                return Err(VfsError::TooManyNodes);
            }
            (*metadata, copy_prefix(path, path.len() - 1))
        },
        Node::Synthetic { metadata, path, .. } => {
            proof {
                assert(nodes@[r as int] is Real);
            }
            (*metadata, copy_prefix(path, path.len()))
        },
    };
    let mut ino: u64 = r as u64 + 2;
    let ghost mut pending: int = r as int;
    assert(nodes@[r as int] == reals[r as int]);
    assert(pview(&q) == parent_path(node_path(nodes@[pending])));
    assert(pview(&q) =~= p.take(plen - 1));
    loop
        invariant
            dirs_match(nodes@, rc as int, w0 + produced),
            w0 == dir_walk(reals, r as int),
            p == node_path(reals[r as int]),
            m == node_meta(reals[r as int]),
            meta == m,
            plen == p.len(),
            produced.len() + pview(&q).len() + 1 == plen,
            pview(&q) == p.take(pview(&q).len() as int),
            forall|t: int| 0 <= t < produced.len() ==> (#[trigger] produced[t]) == (p.take(plen - 1 - t), m),
            produced + missing_chain(p, m, reals, w0, pview(&q).len() as int) == missing_chain(
                p,
                m,
                reals,
                w0,
                plen - 1,
            ),
            r < rc <= nodes@.len(),
            nodes@.len() + 3 <= u64::MAX,
            paths_distinct(nodes@),
            index_ok(nodes@, idx@),
            0 <= pending < nodes@.len(),
            pending == r || pending >= rc,
            ino == pending + 2,
            dirs_ok(nodes@, dirs@, par, rc as int, r + 1, pending),
            dirs@.len() == nodes@.len() + 1,
            pview(&q) == parent_path(node_path(nodes@[pending])),
            nodes@.subrange(0, rc as int) == reals,
            reals == old(nodes)@.subrange(0, rc as int),
            len0 == old(nodes)@.len(),
            plen == node_path(old(nodes)@[r as int]).len(),
            nodes@.len() + pview(&q).len() + 1 <= len0 + plen,
            rc <= old(nodes)@.len(),
            forall|k: int| rc <= k < nodes@.len() ==> synthetic_ok(#[trigger] nodes@[k]),
        ensures
            nodes@.len() + 3 <= u64::MAX,
            paths_distinct(nodes@),
            index_ok(nodes@, idx@),
            dirs_ok(nodes@, dirs@, par, rc as int, r + 1, -1),
            nodes@.subrange(0, rc as int) == reals,
            forall|k: int| rc <= k < nodes@.len() ==> synthetic_ok(#[trigger] nodes@[k]),
        decreases pview(&q).len(),
    {
        match lookup(nodes, idx, &q) {
            Some(d) => {
                let ghost old_dirs = dirs@;
                let n_now = nodes.len();
                assert(d - 1 <= n_now);
                let di: usize = (d - 1) as usize;
                assert(di + 1 == d);
                assert(ipath(nodes@, di + 1) == pview(&q));
                proof {
                    lemma_lookup_known(nodes@, rc as int, reals, w0, produced, pview(&q), d as int);
                    assert(missing_chain(p, m, reals, w0, pview(&q).len() as int) =~= Seq::<DirModel>::empty());
                    assert(produced + Seq::<DirModel>::empty() =~= produced);
                    assert(reals[r as int] == old(nodes)@.subrange(0, rc as int)[r as int]);
                    assert(dir_walk(reals, r + 1) == w0 + missing_chain(p, m, reals, w0, p.len() - 1));
                }
                dirs[di].push(ino);
                proof {
                    assert(dirs@ == old_dirs.update(di as int, dirs@[di as int]));
                    lemma_link_found(nodes@, old_dirs, dirs@, par, rc as int, r + 1, pending, di as int);
                    par = par.update(pending, di as int);
                    assert(rc <= nodes@.len());
                    assert(dirs_ok(nodes@, dirs@, par, rc as int, r + 1, -1));
                    assert(nodes@.subrange(0, rc as int) == reals);
                    assert forall|k: int| 0 <= k < rc implies (#[trigger] nodes@[k]) == old(nodes)@[k] by {
                        assert(nodes@.subrange(0, rc as int)[k] == nodes@[k]);
                        assert(old(nodes)@.subrange(0, rc as int)[k] == old(nodes)@[k]);
                    }
                }
                return Ok(Ghost(par));
            },
            None => {
                if nodes.len() as u64 >= 0xFFFF_FFFF_FFFF_FFF0 {
                    assert(len0 + plen > 0xFFFF_FFFF_FFFF_FFF0);
                    return Err(VfsError::TooManyNodes);
                }
                let s_ino: u64 = nodes.len() as u64 + 2;
                let qlen = q.len();
                let name = copy_range(q[qlen - 1].as_slice(), 0, q[qlen - 1].len());
                let next = copy_prefix(&q, qlen - 1);
                let h = hash_path(&q);
                let ghost old_nodes = nodes@;
                let ghost old_idx = idx@;
                let ghost old_dirs = dirs@;
                let ghost qv = pview(&q);
                proof {
                    assert(q@[qlen - 1]@.subrange(0, q@[qlen - 1]@.len() as int) =~= q@[qlen - 1]@);
                    lemma_lookup_unknown(nodes@, rc as int, reals, w0, produced, qv);
                    assert(missing_chain(p, m, reals, w0, qlen as int) == seq![(p.take(qlen as int), m)] + missing_chain(
                        p,
                        m,
                        reals,
                        w0,
                        qlen - 1,
                    ));
                }
                nodes.push(Node::Synthetic { metadata: meta, name, path: q });
                insert_index(idx, h, s_ino);
                let mut list: Vec<u64> = Vec::new();
                list.push(ino);
                dirs.push(list);
                proof {
                    assert(nodes@ == old_nodes.push(nodes@.last()));
                    lemma_push_node(old_nodes, old_idx, nodes@.last(), idx@);
                    assert forall|k: int| 0 <= k < old_nodes.len() implies (#[trigger] nodes@[k]) == old_nodes[k] by {}
                    lemma_new_dir_step(old_nodes, old_idx, old_dirs, nodes@, idx@, dirs@, par, rc as int, r + 1, pending);
                    par = par.update(pending, old_dirs.len() as int).push(0);
                    pending = old_nodes.len() as int;
                    let x: DirModel = (qv, m);
                    assert(nodes@[old_nodes.len() as int] == nodes@.last());
                    assert((w0 + produced).push(x) =~= w0 + produced.push(x));
                    assert forall|j: int| 0 <= j < (w0 + produced.push(x)).len() implies node_path(nodes@[rc + j])
                        == (#[trigger] (w0 + produced.push(x))[j]).0 && node_meta(nodes@[rc + j]) == (w0
                        + produced.push(x))[j].1 by {
                        if j < (w0 + produced).len() {
                            assert(nodes@[rc + j] == old_nodes[rc + j]);
                            assert((w0 + produced.push(x))[j] == (w0 + produced)[j]);
                        }
                    }
                    assert(produced.push(x) + missing_chain(p, m, reals, w0, qlen - 1) =~= produced + (seq![x]
                        + missing_chain(p, m, reals, w0, qlen - 1)));
                    produced = produced.push(x);
                    assert(qv.subrange(0, qlen - 1) =~= p.take(qlen - 1));
                }
                ino = s_ino;
                q = next;
            },
        }
    }
}

proof fn lemma_new_dir_step(
    old_nodes: Seq<Node>,
    old_idx: Map<u64, Vec<u64>>,
    old_dirs: Seq<Vec<u64>>,
    nodes: Seq<Node>,
    idx: Map<u64, Vec<u64>>,
    dirs: Seq<Vec<u64>>,
    par: Seq<int>,
    rc: int,
    done: int,
    pending: int,
)
    requires
        old_nodes.len() + 4 <= u64::MAX,
        dirs_ok(old_nodes, old_dirs, par, rc, done, pending),
        0 <= pending < old_nodes.len(),
        pending < done || pending >= rc,
        0 <= done <= rc <= old_nodes.len(),
        forall|k: int| rc <= k < old_nodes.len() ==> synthetic_ok(#[trigger] old_nodes[k]),
        nodes.len() == old_nodes.len() + 1,
        forall|k: int| 0 <= k < old_nodes.len() ==> (#[trigger] nodes[k]) == old_nodes[k],
        synthetic_ok(nodes[old_nodes.len() as int]),
        node_path(nodes[old_nodes.len() as int]) == parent_path(node_path(old_nodes[pending])),
        dirs.len() == old_dirs.len() + 1,
        forall|d: int| 0 <= d < old_dirs.len() ==> dirs[d] == old_dirs[d],
        dirs[old_dirs.len() as int]@ == seq![(pending + 2) as u64],
    ensures
        dirs_ok(nodes, dirs, par.update(pending, old_dirs.len() as int).push(0), rc, done, old_nodes.len() as int),
        nodes.subrange(0, rc) == old_nodes.subrange(0, rc),
        forall|k: int| rc <= k < nodes.len() ==> synthetic_ok(#[trigger] nodes[k]),
{
    assert forall|k: int| 0 <= k < rc implies #[trigger] nodes.subrange(0, rc)[k] == old_nodes.subrange(0, rc)[k] by {
        assert(nodes[k] == old_nodes[k]);
    }
    assert(nodes.subrange(0, rc) =~= old_nodes.subrange(0, rc));
    assert forall|k: int| rc <= k < nodes.len() implies synthetic_ok(#[trigger] nodes[k]) by {
        if k < old_nodes.len() {
            assert(nodes[k] == old_nodes[k]);
        }
    }
    lemma_dirs_len(old_nodes, old_dirs, par, rc, done, pending);
    lemma_link_new(old_nodes, old_dirs, nodes, dirs, par, rc, done, pending);
}

proof fn lemma_tree_from_dirs(nodes: Seq<Node>, dirs: Seq<Vec<u64>>, par: Seq<int>, rc: int)
    requires
        paths_distinct(nodes),
        rc <= nodes.len(),
        dirs_ok(nodes, dirs, par, rc, rc, -1),
    ensures
        tree_ok(nodes, dirs),
{
    reveal(dirs_ok);
    assert forall|c: u64| 2 <= c <= nodes.len() + 1 implies #[trigger] listed(dirs, c) by {
        let k = c - 2;
        assert(linked(rc, rc, -1, k));
        assert(dirs[par[k]]@.contains((k + 2) as u64));
    }
}

pub proof fn lemma_ipath_injective(nodes: Seq<Node>, a: int, b: int)
    requires
        paths_distinct(nodes),
        1 <= a <= nodes.len() + 1,
        1 <= b <= nodes.len() + 1,
        ipath(nodes, a) == ipath(nodes, b),
    ensures
        a == b,
{
    if a != 1 && b != 1 {
        assert(node_path(nodes[a - 2]) != node_path(nodes[b - 2]) || a - 2 == b - 2);
    } else if a != 1 {
        assert(node_path(nodes[a - 2]).len() > 0);
    } else if b != 1 {
        assert(node_path(nodes[b - 2]).len() > 0);
    }
}

/// Every inode but the root is in the child list of exactly one directory.
pub proof fn lemma_unique_parent(v: &Vfs, i: int)
    requires
        v.wf(),
        2 <= i <= v.inodes@.len() + 1,
    ensures
        exists|d: int| #[trigger] v.lists(d, i),
        forall|d1: int, d2: int| #[trigger] v.lists(d1, i) && #[trigger] v.lists(d2, i) ==> d1 == d2,
{
    let dirs = v.dir_map@;
    let nodes = v.inodes@;
    assert(listed(dirs, i as u64));
    let d = choose|d: int| 0 <= d < dirs.len() && #[trigger] dirs[d]@.contains(i as u64);
    assert(v.lists(d + 1, i));
    assert forall|d1: int, d2: int| #[trigger] v.lists(d1, i) && #[trigger] v.lists(d2, i) implies d1 == d2 by {
        let j1 = choose|j: int| 0 <= j < dirs[d1 - 1]@.len() && #[trigger] dirs[d1 - 1]@[j] == i as u64;
        let j2 = choose|j: int| 0 <= j < dirs[d2 - 1]@.len() && #[trigger] dirs[d2 - 1]@[j] == i as u64;
        assert(parent_path(node_path(nodes[dirs[d1 - 1]@[j1] - 2])) == ipath(nodes, d1));
        assert(parent_path(node_path(nodes[dirs[d2 - 1]@[j2] - 2])) == ipath(nodes, d2));
        lemma_ipath_injective(nodes, d1, d2);
    }
}

/// Some inode has the first `m` components of the path of real node `k`.
proof fn lemma_prefix_inode(v: &Vfs, k: int, m: int)
    requires
        v.wf(),
        0 <= k < v.real_count,
        0 <= m <= node_path(v.inodes@[k]).len(),
    ensures
        exists|a: int| v.valid_inode(a) && #[trigger] v.path_of(a) == node_path(v.inodes@[k]).take(m),
    decreases node_path(v.inodes@[k]).len() - m,
{
    let p = node_path(v.inodes@[k]);
    let nodes = v.inodes@;
    let dirs = v.dir_map@;
    if m == p.len() {
        assert(p.take(m) =~= p);
        assert(v.path_of(k + 2) == p.take(m));
    } else {
        lemma_prefix_inode(v, k, m + 1);
        let x = choose|a: int| v.valid_inode(a) && #[trigger] v.path_of(a) == p.take(m + 1);
        assert(x != 1) by {
            if x == 1 {
                assert(p.take(m + 1).len() == m + 1);
            }
        }
        assert(listed(dirs, x as u64));
        let d = choose|d: int| 0 <= d < dirs.len() && #[trigger] dirs[d]@.contains(x as u64);
        let j = choose|j: int| 0 <= j < dirs[d]@.len() && #[trigger] dirs[d]@[j] == x as u64;
        assert(parent_path(node_path(nodes[dirs[d]@[j] - 2])) == ipath(nodes, d + 1));
        assert(p.take(m + 1).drop_last() =~= p.take(m));
        assert(v.path_of(d + 1) == p.take(m));
    }
}

/// For every real node, each prefix of its path is the path of a directory inode
/// whose child list holds the inode of the next longer prefix; the longest prefix
/// is the node itself. So the node hangs, through these inodes, under the root.
pub proof fn lemma_prefixes_resolve(v: &Vfs, k: int, m: int)
    requires
        v.wf(),
        0 <= k < v.real_count,
        0 <= m < node_path(v.inodes@[k]).len(),
    ensures
        exists|a: int, c: int|
            v.valid_inode(a) && v.valid_inode(c) && #[trigger] v.path_of(a) == node_path(v.inodes@[k]).take(m)
                && #[trigger] v.path_of(c) == node_path(v.inodes@[k]).take(m + 1) && v.lists(a, c),
        v.path_of(k + 2) == node_path(v.inodes@[k]),
{
    let p = node_path(v.inodes@[k]);
    let nodes = v.inodes@;
    let dirs = v.dir_map@;
    lemma_prefix_inode(v, k, m + 1);
    let c = choose|a: int| v.valid_inode(a) && #[trigger] v.path_of(a) == p.take(m + 1);
    assert(c != 1) by {
        if c == 1 {
            assert(p.take(m + 1).len() == m + 1);
        }
    }
    assert(listed(dirs, c as u64));
    let d = choose|d: int| 0 <= d < dirs.len() && #[trigger] dirs[d]@.contains(c as u64);
    let j = choose|j: int| 0 <= j < dirs[d]@.len() && #[trigger] dirs[d]@[j] == c as u64;
    assert(parent_path(node_path(nodes[dirs[d]@[j] - 2])) == ipath(nodes, d + 1));
    assert(p.take(m + 1).drop_last() =~= p.take(m));
    assert(v.lists(d + 1, c));
    assert(v.valid_inode(d + 1) && v.path_of(d + 1) == p.take(m));
}

/// The name of a node: the last component of its path.
pub open spec fn node_name(n: Node) -> Seq<u8> {
    match n {
        Node::Real { path, .. } => pview(&path).last(),
        Node::Synthetic { name, .. } => name@,
    }
}

impl Node {
    pub fn name(&self) -> (r: &[u8])
        requires
            node_path(*self).len() > 0,
        ensures
            r@ == node_name(*self),
    {
        match self {
            Node::Real { path, .. } => path[path.len() - 1].as_slice(),
            Node::Synthetic { name, .. } => name.as_slice(),
        }
    }

    pub fn metadata(&self) -> (r: ManifestMetadata)
        ensures
            r == match *self {
                Node::Real { metadata, .. } => metadata,
                Node::Synthetic { metadata, .. } => metadata,
            },
    {
        match self {
            Node::Real { metadata, .. } => *metadata,
            Node::Synthetic { metadata, .. } => *metadata,
        }
    }

    pub fn file_mapping(&self) -> (r: Option<&FileMapping>)
        ensures
            match *self {
                Node::Real { file_mapping, .. } => r == Some(&file_mapping),
                Node::Synthetic { .. } => r is None,
            },
    {
        match self {
            Node::Real { file_mapping, .. } => Some(file_mapping),
            Node::Synthetic { .. } => None,
        }
    }
}

impl Vfs {
    /// The inode whose path is `path`: the root for the empty path.
    pub fn resolve(&self, path: &Vec<Vec<u8>>) -> (r: Option<u64>)
        requires
            self.wf(),
        ensures
            match r {
                Some(i) => self.valid_inode(i as int) && self.path_of(i as int) == pview(path),
                None => forall|i: int| self.valid_inode(i) ==> #[trigger] self.path_of(i) != pview(path),
            },
    {
        let r = lookup(&self.inodes, &self.index, path);
        proof {
            if r is None {
                assert forall|i: int| self.valid_inode(i) implies #[trigger] self.path_of(i) != pview(path) by {
                    if i != 1 {
                        assert(node_path(self.inodes@[i - 2]) != pview(path));
                    }
                }
            }
        }
        r
    }

    /// The node of inode `ino`; the root has none.
    pub fn get_node(&self, ino: u64) -> (r: Option<&Node>)
        ensures
            match r {
                Some(n) => 2 <= ino <= self.inodes@.len() + 1 && *n == self.inodes@[ino - 2],
                None => !(2 <= ino <= self.inodes@.len() + 1),
            },
    {
        if ino < 2 || ino - 2 >= self.inodes.len() as u64 {
            None
        } else {
            Some(&self.inodes[(ino - 2) as usize])
        }
    }

    /// The child list of inode `ino`.
    pub fn children(&self, ino: u64) -> (r: Option<&Vec<u64>>)
        ensures
            match r {
                Some(c) => 1 <= ino <= self.dir_map@.len() && *c == self.dir_map@[ino - 1],
                None => !(1 <= ino <= self.dir_map@.len()),
            },
    {
        if ino < 1 || ino - 1 >= self.dir_map.len() as u64 {
            None
        } else {
            Some(&self.dir_map[(ino - 1) as usize])
        }
    }
}

} // verus!
