//! Byte sequences: little-endian integers, copies and comparison.
use vstd::prelude::*;

verus! {

/// The value of the four bytes of `b` that start at `i`, least significant first.
pub open spec fn le_u32_at(b: Seq<u8>, i: int) -> int {
    b[i] + 256 * (b[i + 1] + 256 * (b[i + 2] + 256 * b[i + 3]))
}

/// The value of the eight bytes of `b` that start at `i`, least significant first.
pub open spec fn le_u64_at(b: Seq<u8>, i: int) -> int {
    le_u32_at(b, i) + 4294967296 * le_u32_at(b, i + 4)
}

/// The four bytes that encode `v`, least significant first.
pub open spec fn u32_le_bytes(v: u32) -> Seq<u8> {
    seq![
        (v % 256) as u8,
        ((v / 256) % 256) as u8,
        ((v / 65536) % 256) as u8,
        ((v / 16777216) % 256) as u8,
    ]
}

pub proof fn lemma_le_u32_bounds(b: Seq<u8>, i: int)
    requires
        0 <= i,
        i + 4 <= b.len(),
    ensures
        0 <= le_u32_at(b, i) <= u32::MAX,
{
    let b0 = b[i] as int;
    let b1 = b[i + 1] as int;
    let b2 = b[i + 2] as int;
    let b3 = b[i + 3] as int;
    assert(0 <= b0 + 256 * (b1 + 256 * (b2 + 256 * b3)) <= u32::MAX) by (nonlinear_arith)
        requires
            0 <= b0 <= 255,
            0 <= b1 <= 255,
            0 <= b2 <= 255,
            0 <= b3 <= 255,
    ;
}

/// Encoding a value and reading it back gives the value.
pub proof fn lemma_u32_le_round_trip(v: u32)
    ensures
        u32_le_bytes(v).len() == 4,
        le_u32_at(u32_le_bytes(v), 0) == v,
{
    let b = u32_le_bytes(v);
    let x = v as int;
    assert(b[0] == x % 256);
    assert(b[1] == (x / 256) % 256);
    assert(b[2] == (x / 65536) % 256);
    assert(b[3] == (x / 16777216) % 256);
    assert(x % 256 + 256 * ((x / 256) % 256 + 256 * ((x / 65536) % 256 + 256 * ((x / 16777216)
        % 256))) == x) by (nonlinear_arith)
        requires
            0 <= x < 4294967296,
    ;
}

pub fn read_u32_le(b: &[u8], i: usize) -> (r: u32)
    requires
        i + 4 <= b@.len(),
    ensures
        r == le_u32_at(b@, i as int),
{
    proof {
        lemma_le_u32_bounds(b@, i as int);
    }
    let b0 = b[i] as u32;
    let b1 = b[i + 1] as u32;
    let b2 = b[i + 2] as u32;
    let b3 = b[i + 3] as u32;
    assert(b2 + 256 * b3 <= 65535) by (nonlinear_arith)
        requires
            b2 <= 255,
            b3 <= 255,
    ;
    assert(b1 + 256 * (b2 + 256 * b3) <= 16777215) by (nonlinear_arith)
        requires
            b1 <= 255,
            b2 + 256 * b3 <= 65535,
    ;
    b0 + 256 * (b1 + 256 * (b2 + 256 * b3))
}

pub fn read_u64_le(b: &[u8], i: usize) -> (r: u64)
    requires
        i + 8 <= b@.len(),
    ensures
        r == le_u64_at(b@, i as int),
{
    let _n = b.len();
    let lo = read_u32_le(b, i) as u64;
    let hi = read_u32_le(b, i + 4) as u64;
    assert(lo + 4294967296 * hi <= u64::MAX) by (nonlinear_arith)
        requires
            lo <= u32::MAX,
            hi <= u32::MAX,
    ;
    lo + 4294967296 * hi
}

/// Appends the four bytes of `v`, least significant first.
pub fn push_u32_le(out: &mut Vec<u8>, v: u32)
    ensures
        final(out)@ == old(out)@ + u32_le_bytes(v),
{
    out.push((v % 256) as u8);
    out.push(((v / 256) % 256) as u8);
    out.push(((v / 65536) % 256) as u8);
    out.push(((v / 16777216) % 256) as u8);
    assert(final(out)@ =~= old(out)@ + u32_le_bytes(v));
}

/// A copy of `b[start..end]`.
pub fn copy_range(b: &[u8], start: usize, end: usize) -> (r: Vec<u8>)
    requires
        start <= end <= b@.len(),
    ensures
        r@ == b@.subrange(start as int, end as int),
{
    let mut r: Vec<u8> = Vec::with_capacity(end - start);
    let mut i: usize = start;
    while i < end
        invariant
            start <= i <= end <= b@.len(),
            r@ == b@.subrange(start as int, i as int),
        decreases end - i,
    {
        r.push(b[i]);
        i = i + 1;
        assert(r@ =~= b@.subrange(start as int, i as int));
    }
    r
}

/// Whether two byte strings are equal.
pub fn bytes_equal(a: &[u8], b: &[u8]) -> (r: bool)
    ensures
        r == (a@ == b@),
{
    if a.len() != b.len() {
        return false;
    }
    let mut i: usize = 0;
    while i < a.len()
        invariant
            i <= a@.len() == b@.len(),
            forall|k: int| 0 <= k < i ==> a@[k] == b@[k],
        decreases a@.len() - i,
    {
        if a[i] != b[i] {
            return false;
        }
        i = i + 1;
    }
    assert(a@ =~= b@);
    true
}

} // verus!
