//! The read planner: turns a read of `len` bytes at `offset` of a file into the
//! chunks it touches, and assembles the output from their decompressed bytes.
use vstd::prelude::*;
use crate::manifest::{ChunkRef, FileMapping};
use crate::vfs::Node;

verus! {

#[derive(Clone, Copy, Debug, PartialEq, Eq, Structural)]
pub enum ReadError {
    /// A read past the end of the file, or of a directory.
    InvalidParameter,
    /// A chunk could not be read or did not verify.
    Io,
}

pub open spec fn chunk_start(c: ChunkRef) -> int {
    c.offset as int
}

pub open spec fn chunk_end(c: ChunkRef) -> int {
    c.offset + c.cb_original
}

/// Chunk `c` holds bytes of `[start, end)`.
pub open spec fn intersects(c: ChunkRef, start: int, end: int) -> bool {
    start < chunk_end(c) && chunk_start(c) < end
}

/// Chunk `c` holds the byte at `a`.
pub open spec fn covers(c: ChunkRef, a: int) -> bool {
    chunk_start(c) <= a < chunk_end(c)
}

/// No byte of the file is in two chunks.
pub open spec fn chunks_disjoint(chunks: Seq<ChunkRef>) -> bool {
    forall|k1: int, k2: int, a: int|
        0 <= k1 < chunks.len() && 0 <= k2 < chunks.len() && #[trigger] covers(chunks[k1], a) && #[trigger] covers(
            chunks[k2],
            a,
        ) ==> k1 == k2
}

/// Every chunk that a read of `to_read` bytes at `offset` touches has a payload at
/// least as long as the chunk says; other chunks' payloads are not looked at.
pub open spec fn touched_fit(chunks: Seq<ChunkRef>, payloads: Seq<Vec<u8>>, offset: int, to_read: int) -> bool {
    forall|k: int|
        0 <= k < chunks.len() && #[trigger] intersects(chunks[k], offset, offset + to_read) ==> k < payloads.len()
            && payloads[k]@.len() >= chunks[k].cb_original
}

pub open spec fn node_size(n: Node) -> int {
    match n {
        Node::Real { file_mapping, .. } => file_mapping.size as int,
        Node::Synthetic { .. } => 0,
    }
}

/// How many bytes a read of `len` bytes at `offset` returns.
pub open spec fn read_len(size: int, offset: int, len: int) -> int {
    if len < size - offset {
        len
    } else {
        size - offset
    }
}

/// The chunks, by index, that a read of `to_read` bytes at `offset` touches, in order.
pub open spec fn planned(chunks: Seq<ChunkRef>, offset: int, to_read: int, plan: Seq<usize>) -> bool {
    &&& forall|j: int| 0 <= j < plan.len() ==> (#[trigger] plan[j]) < chunks.len()
    &&& forall|j1: int, j2: int| 0 <= j1 < j2 < plan.len() ==> (#[trigger] plan[j1]) < (#[trigger] plan[j2])
    &&& to_read == 0 ==> plan.len() == 0
    &&& to_read > 0 ==> forall|k: int|
        0 <= k < chunks.len() ==> (#[trigger] intersects(chunks[k], offset, offset + to_read) <==> plan.contains(
            k as usize,
        ))
}

fn overlaps(c: &ChunkRef, start: u64, end: u64) -> (r: bool)
    ensures
        r == intersects(*c, start as int, end as int),
{
    let c_end: u128 = c.offset as u128 + c.cb_original as u128;
    (start as u128) < c_end && c.offset < end
}

/// The indices of the chunks of `m` that the first `to_read` bytes at `offset` touch.
pub fn plan_chunks(m: &FileMapping, offset: u64, to_read: u64) -> (r: Vec<usize>)
    requires
        offset + to_read <= u64::MAX,
    ensures
        planned(m.chunks@, offset as int, to_read as int, r@),
{
    let mut plan: Vec<usize> = Vec::new();
    if to_read == 0 {
        return plan;
    }
    let end = offset + to_read;
    let mut k: usize = 0;
    while k < m.chunks.len()
        invariant
            k <= m.chunks@.len(),
            end == offset + to_read,
            to_read > 0,
            forall|j: int| 0 <= j < plan@.len() ==> (#[trigger] plan@[j]) < k,
            forall|j1: int, j2: int| 0 <= j1 < j2 < plan@.len() ==> (#[trigger] plan@[j1]) < (#[trigger] plan@[j2]),
            forall|k2: int|
                0 <= k2 < k ==> (#[trigger] intersects(m.chunks@[k2], offset as int, offset + to_read) <==> plan@.contains(
                    k2 as usize,
                )),
        decreases m.chunks@.len() - k,
    {
        if overlaps(&m.chunks[k], offset, end) {
            let ghost before = plan@;
            plan.push(k);
            proof {
                assert forall|k2: int| 0 <= k2 < k implies (#[trigger] intersects(m.chunks@[k2], offset as int, offset + to_read)
                    <==> plan@.contains(k2 as usize)) by {
                    if before.contains(k2 as usize) {
                        let w = choose|w: int| 0 <= w < before.len() && before[w] == k2 as usize;
                        assert(plan@[w] == k2 as usize);
                    }
                    if plan@.contains(k2 as usize) {
                        let w = choose|w: int| 0 <= w < plan@.len() && plan@[w] == k2 as usize;
                        if w == before.len() {
                        } else {
                            assert(before[w] == k2 as usize);
                        }
                    }
                }
                assert(plan@[before.len() as int] == k);
            }
        } else {
            proof {
                assert(!plan@.contains(k as usize));
            }
        }
        k = k + 1;
    }
    plan
}

/// Reads up to `buf.len()` bytes of node `n` at `offset` into `buf`, taking the
/// decompressed bytes of chunk `k` of the file from `payloads[k]` (only the chunks
/// that the read touches are looked at). Returns how many bytes are valid.
pub fn read_data(n: &Node, offset: u64, buf: &mut Vec<u8>, payloads: &Vec<Vec<u8>>) -> (r: Result<
    u64,
    ReadError,
>)
    ensures
        (n is Synthetic || offset > node_size(*n)) ==> r == Err::<u64, ReadError>(ReadError::InvalidParameter)
            && final(buf)@ == old(buf)@,
        r matches Ok(len) ==> {
            &&& n is Real
            &&& offset <= node_size(*n)
            &&& len == read_len(node_size(*n), offset as int, old(buf)@.len() as int)
            &&& final(buf)@.len() == old(buf)@.len()
        },
        n matches Node::Real { file_mapping, .. } ==> (offset <= node_size(*n) ==> {
            let to_read = read_len(node_size(*n), offset as int, old(buf)@.len() as int);
            &&& (r is Ok || r == Err::<u64, ReadError>(ReadError::Io))
            &&& to_read == 0 ==> r == Ok::<u64, ReadError>(0) && final(buf)@ == old(buf)@
            &&& touched_fit(file_mapping.chunks@, payloads@, offset as int, to_read) ==> r is Ok
            &&& r == Err::<u64, ReadError>(ReadError::Io) ==> !touched_fit(
                file_mapping.chunks@,
                payloads@,
                offset as int,
                to_read,
            )
        }),
        r matches Ok(len) ==> n matches Node::Real { file_mapping, .. } ==> (chunks_disjoint(
            file_mapping.chunks@,
        ) ==> forall|t: int, k: int|
            0 <= t < len && 0 <= k < file_mapping.chunks@.len() && #[trigger] covers(file_mapping.chunks@[k], offset + t)
                ==> (#[trigger] final(buf)@[t]) == payloads@[k]@[offset + t - chunk_start(file_mapping.chunks@[k])]),
{
    let m = match n {
        Node::Real { file_mapping, .. } => file_mapping,
        Node::Synthetic { .. } => {
            return Err(ReadError::InvalidParameter);
        },
    };
    if offset > m.size {
        return Err(ReadError::InvalidParameter);
    }
    let rest = m.size - offset;
    let to_read: u64 = if (buf.len() as u64) < rest {
        buf.len() as u64
    } else {
        rest
    };
    if to_read == 0 {
        return Ok(0);
    }
    assert(node_size(*n) == m.size);
    let plan = plan_chunks(m, offset, to_read);
    let ghost chunks = m.chunks@;
    let ghost b0 = buf@;
    let ghost all_ok = chunks_disjoint(chunks);
    let mut j: usize = 0;
    while j < plan.len()
        invariant
            j <= plan@.len(),
            chunks == m.chunks@,
            n is Real,
            node_size(*n) == m.size,
            offset <= m.size,
            planned(chunks, offset as int, to_read as int, plan@),
            0 < to_read <= buf@.len(),
            buf@.len() == b0.len(),
            offset + to_read <= m.size,
            to_read as int == read_len(node_size(*n), offset as int, b0.len() as int),
            b0 == old(buf)@,
            all_ok == chunks_disjoint(chunks),
            n matches Node::Real { file_mapping, .. } && file_mapping.chunks@ == chunks,
            all_ok ==> forall|t: int, j2: int|
                0 <= t < to_read && 0 <= j2 < j && #[trigger] covers(chunks[plan@[j2] as int], offset + t)
                    ==> (#[trigger] buf@[t]) == payloads@[plan@[j2] as int]@[offset + t - chunk_start(
                    chunks[plan@[j2] as int],
                )],
        decreases plan@.len() - j,
    {
        let k = plan[j];
        if k >= payloads.len() {
            assert(intersects(chunks[k as int], offset as int, offset + to_read));
            return Err(ReadError::Io);
        }
        let c = &m.chunks[k];
        let data = &payloads[k];
        let read_end: u64 = offset + to_read;
        let c_end: u128 = c.offset as u128 + c.cb_original as u128;
        let lo: u64 = if c.offset > offset { c.offset } else { offset };
        let hi: u64 = if c_end < read_end as u128 { c_end as u64 } else { read_end };
        let ghost before = buf@;
        if lo < hi {
            let src: u64 = lo - c.offset;
            let count: u64 = hi - lo;
            if (data.len() as u64) < src || (data.len() as u64) - src < count {
                assert(*c == chunks[k as int]);
                assert(intersects(chunks[k as int], offset as int, offset + to_read));
                assert(c_end == chunk_end(chunks[k as int]));
                return Err(ReadError::Io);
            }
            let dst: u64 = lo - offset;
            let dl = data.len();
            let bl = buf.len();
            let mut i: u64 = 0;
            while i < count
                invariant
                    i <= count,
                    dst + count <= to_read <= buf@.len(),
                    src + count <= data@.len(),
                    dl == data@.len(),
                    bl == buf@.len(),
                    buf@.len() == before.len(),
                    forall|t: int| 0 <= t < buf@.len() && !(dst <= t < dst + i) ==> (#[trigger] buf@[t]) == before[t],
                    forall|t: int| dst <= t < dst + i ==> (#[trigger] buf@[t]) == data@[t - dst + src],
                decreases count - i,
            {
                buf.set((dst + i) as usize, data[(src + i) as usize]);
                i = i + 1;
                proof {
                    assert forall|t: int| dst <= t < dst + i implies (#[trigger] buf@[t]) == data@[t - dst + src] by {}
                }
            }
            proof {
                if all_ok {
                    assert forall|t: int, j2: int|
                        0 <= t < to_read && 0 <= j2 < j + 1 && #[trigger] covers(chunks[plan@[j2] as int], offset + t)
                            implies (#[trigger] buf@[t]) == payloads@[plan@[j2] as int]@[offset + t - chunk_start(
                            chunks[plan@[j2] as int],
                        )] by {
                        if j2 == j {
                        } else {
                            if dst <= t < dst + count {
                                assert(covers(chunks[k as int], offset + t));
                                assert(plan@[j2] < plan@[j as int]);
                            }
                        }
                    }
                }
            }
        } else {
            proof {
                assert(*c == chunks[k as int]);
                assert(c_end == chunk_end(chunks[k as int]));
                assert forall|t: int| 0 <= t < to_read implies !(#[trigger] covers(chunks[k as int], offset + t)) by {}
            }
        }
        j = j + 1;
    }
    let nchunks = m.chunks.len();
    proof {
        if all_ok {
            assert forall|t: int, k: int|
                0 <= t < to_read && 0 <= k < chunks.len() && #[trigger] covers(chunks[k], offset + t)
                    implies (#[trigger] buf@[t]) == payloads@[k]@[offset + t - chunk_start(chunks[k])] by {
                assert(intersects(chunks[k], offset as int, offset + to_read));
                assert(plan@.contains(k as usize));
                let w = choose|w: int| 0 <= w < plan@.len() && plan@[w] == k as usize;
                assert(plan@[w] as int == k);
                assert(covers(chunks[plan@[w] as int], offset + t));
            }
        }
    }
    Ok(to_read)
}

/// The chunks of node `n` that a read of up to `len` bytes at `offset` touches:
/// none for a directory or a read past the end.
pub fn chunks_to_fetch(n: &Node, offset: u64, len: u64) -> (r: Vec<usize>)
    ensures
        match *n {
            Node::Real { file_mapping, .. } => if offset <= file_mapping.size {
                planned(
                    file_mapping.chunks@,
                    offset as int,
                    read_len(file_mapping.size as int, offset as int, len as int),
                    r@,
                )
            } else {
                r@.len() == 0
            },
            Node::Synthetic { .. } => r@.len() == 0,
        },
{
    match n {
        Node::Real { file_mapping, .. } => {
            if offset > file_mapping.size {
                return Vec::new();
            }
            let rest = file_mapping.size - offset;
            let to_read = if len < rest { len } else { rest };
            plan_chunks(file_mapping, offset, to_read)
        },
        Node::Synthetic { .. } => Vec::new(),
    }
}

} // verus!
