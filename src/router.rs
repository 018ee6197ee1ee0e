//! The chunk router: finds, for a chunk digest, the chunk store and the entry
//! of its manifest that hold the chunk.
use vstd::prelude::*;
use std::collections::HashMap;
use crate::chunkstore::ChunkStore;

verus! {

broadcast use vstd::std_specs::hash::group_hash_axioms;

/// The bucket of a digest: its first eight bytes, least significant first.
pub open spec fn digest_key(sha: Seq<u8>) -> u64 {
    if sha.len() >= 8 {
        crate::le::le_u64_at(sha, 0) as u64
    } else {
        sha.len() as u64
    }
}

fn digest_key_exec(sha: &Vec<u8>) -> (r: u64)
    ensures
        r == digest_key(sha@),
{
    if sha.len() >= 8 {
        crate::le::read_u64_le(sha.as_slice(), 0)
    } else {
        sha.len() as u64
    }
}

pub struct ChunkRouter {
    pub buckets: HashMap<u64, Vec<(usize, usize)>>,
}

/// Chunk `k` of store `s` has digest `sha`.
pub open spec fn holds(stores: Seq<ChunkStore>, s: int, k: int, sha: Seq<u8>) -> bool {
    0 <= s < stores.len() && 0 <= k < stores[s].csm.chunks@.len() && stores[s].csm.chunks@[k].sha@ == sha
}

/// Every entry of a bucket names a chunk whose digest falls in that bucket, and
/// every chunk of the first `n` stores (and of store `n` up to `m`) is in its bucket.
pub open spec fn router_ok(b: Map<u64, Vec<(usize, usize)>>, stores: Seq<ChunkStore>, n: int, m: int) -> bool {
    &&& forall|h: u64, j: int|
        b.contains_key(h) && 0 <= j < b[h]@.len() ==> {
            let e = #[trigger] b[h]@[j];
            &&& e.0 < stores.len()
            &&& e.1 < stores[e.0 as int].csm.chunks@.len()
            &&& digest_key(stores[e.0 as int].csm.chunks@[e.1 as int].sha@) == h
        }
    &&& forall|s: int, k: int|
        0 <= s < stores.len() && 0 <= k < stores[s].csm.chunks@.len() && (s < n || (s == n && k < m))
            ==> b.contains_key(digest_key(#[trigger] stores[s].csm.chunks@[k].sha@)) && has_entry(
            b[digest_key(stores[s].csm.chunks@[k].sha@)]@,
            s,
            k,
        )
}

pub open spec fn has_entry(v: Seq<(usize, usize)>, s: int, k: int) -> bool {
    exists|j: int| 0 <= j < v.len() && (#[trigger] v[j]).0 == s && v[j].1 == k
}

impl ChunkRouter {
    pub open spec fn wf(&self, stores: Seq<ChunkStore>) -> bool {
        router_ok(self.buckets@, stores, stores.len() as int, 0)
    }

    /// Routes every chunk of every store.
    pub fn build(stores: &Vec<ChunkStore>) -> (r: ChunkRouter)
        ensures
            r.wf(stores@),
    {
        let mut b: HashMap<u64, Vec<(usize, usize)>> = HashMap::new();
        let mut s: usize = 0;
        while s < stores.len()
            invariant
                s <= stores@.len(),
                router_ok(b@, stores@, s as int, 0),
            decreases stores@.len() - s,
        {
            let chunks = &stores[s].csm.chunks;
            let mut k: usize = 0;
            while k < chunks.len()
                invariant
                    s < stores@.len(),
                    *chunks == stores@[s as int].csm.chunks,
                    k <= chunks@.len(),
                    router_ok(b@, stores@, s as int, k as int),
                decreases chunks@.len() - k,
            {
                let h = digest_key_exec(&chunks[k].sha);
                let ghost old_b = b@;
                let mut bucket = match b.remove(&h) {
                    Some(v) => v,
                    None => Vec::new(),
                };
                bucket.push((s, k));
                b.insert(h, bucket);
                proof {
                    assert forall|h2: u64, j: int| b@.contains_key(h2) && 0 <= j < b@[h2]@.len() implies {
                        let e = #[trigger] b@[h2]@[j];
                        &&& e.0 < stores@.len()
                        &&& e.1 < stores@[e.0 as int].csm.chunks@.len()
                        &&& digest_key(stores@[e.0 as int].csm.chunks@[e.1 as int].sha@) == h2
                    } by {
                        if h2 == h && old_b.contains_key(h) && j < old_b[h]@.len() {
                            assert(b@[h2]@[j] == old_b[h]@[j]);
                        } else if h2 != h {
                            assert(b@[h2] == old_b[h2]);
                        }
                    }
                    assert forall|s2: int, k2: int|
                        0 <= s2 < stores@.len() && 0 <= k2 < stores@[s2].csm.chunks@.len() && (s2 < s || (s2 == s
                            && k2 < k + 1)) implies b@.contains_key(digest_key(#[trigger] stores@[s2].csm.chunks@[k2].sha@))
                        && has_entry(b@[digest_key(stores@[s2].csm.chunks@[k2].sha@)]@, s2, k2) by {
                        let h2 = digest_key(stores@[s2].csm.chunks@[k2].sha@);
                        if s2 == s && k2 == k {
                            assert(b@[h]@[b@[h]@.len() - 1] == (s, k));
                        } else if h2 == h {
                            let w = choose|w: int| 0 <= w < old_b[h]@.len() && (#[trigger] old_b[h]@[w]).0 == s2 && old_b[h]@[w].1 == k2;
                            assert(b@[h]@[w] == old_b[h]@[w]);
                        } else {
                            assert(b@[h2] == old_b[h2]);
                        }
                    }
                }
                k = k + 1;
            }
            s = s + 1;
        }
        ChunkRouter { buckets: b }
    }

    /// The store and entry that hold the chunk with digest `sha`.
    pub fn route(&self, stores: &Vec<ChunkStore>, sha: &Vec<u8>) -> (r: Option<(usize, usize)>)
        requires
            self.wf(stores@),
        ensures
            match r {
                Some((s, k)) => holds(stores@, s as int, k as int, sha@),
                None => forall|s: int, k: int| !holds(stores@, s, k, sha@),
            },
    {
        let h = digest_key_exec(sha);
        match self.buckets.get(&h) {
            None => {
                proof {
                    assert forall|s: int, k: int| !holds(stores@, s, k, sha@) by {
                        if holds(stores@, s, k, sha@) {
                            assert(self.buckets@.contains_key(digest_key(stores@[s].csm.chunks@[k].sha@)));
                        }
                    }
                }
                None
            },
            Some(bucket) => {
                let mut j: usize = 0;
                while j < bucket.len()
                    invariant
                        self.wf(stores@),
                        self.buckets@.contains_key(h),
                        *bucket == self.buckets@[h],
                        h == digest_key(sha@),
                        j <= bucket@.len(),
                        forall|j2: int| 0 <= j2 < j ==> !holds(stores@, bucket@[j2].0 as int, bucket@[j2].1 as int, sha@),
                    decreases bucket@.len() - j,
                {
                    let (s, k) = bucket[j];
                    assert(self.buckets@[h]@[j as int] == (s, k));
                    if crate::le::bytes_equal(stores[s].csm.chunks[k].sha.as_slice(), sha.as_slice()) {
                        return Some((s, k));
                    }
                    j = j + 1;
                }
                proof {
                    assert forall|s: int, k: int| !holds(stores@, s, k, sha@) by {
                        if holds(stores@, s, k, sha@) {
                            assert(has_entry(bucket@, s, k));
                            let w = choose|w: int| 0 <= w < bucket@.len() && (#[trigger] bucket@[w]).0 == s && bucket@[w].1 == k;
                        }
                    }
                }
                None
            },
        }
    }
}

} // verus!
