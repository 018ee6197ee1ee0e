//! Relative paths as sequences of byte-string components: splitting a file
//! name, comparing, copying and hashing paths.
use vstd::prelude::*;
use crate::le::copy_range;

verus! {

pub type PathModel = Seq<Seq<u8>>;

/// The components of a path, as values.
pub open spec fn pview(p: &Vec<Vec<u8>>) -> PathModel {
    p@.map_values(|c: Vec<u8>| c@)
}

/// The components of `s` split at `sep`, where `cur` holds the bytes of the component
/// begun before `s`. Empty components are dropped.
pub open spec fn split_rec(s: Seq<u8>, sep: u8, cur: Seq<u8>) -> PathModel
    decreases s.len(),
{
    if s.len() == 0 {
        if cur.len() > 0 {
            seq![cur]
        } else {
            seq![]
        }
    } else if s[0] == sep {
        (if cur.len() > 0 {
            seq![cur]
        } else {
            seq![]
        }) + split_rec(s.subrange(1, s.len() as int), sep, Seq::empty())
    } else {
        split_rec(s.subrange(1, s.len() as int), sep, cur.push(s[0]))
    }
}

/// The separator of a file name: `/` where the name holds one, else `\`.
pub open spec fn separator_of(s: Seq<u8>) -> u8 {
    if s.contains(0x2fu8) {
        0x2fu8
    } else {
        0x5cu8
    }
}

/// The relative path that a file name of a manifest stands for.
pub open spec fn path_of_name(s: Seq<u8>) -> PathModel {
    split_rec(s, separator_of(s), Seq::empty())
}

fn has_byte(s: &[u8], x: u8) -> (r: bool)
    ensures
        r == s@.contains(x),
{
    let mut i: usize = 0;
    while i < s.len()
        invariant
            i <= s@.len(),
            forall|k: int| 0 <= k < i ==> s@[k] != x,
        decreases s@.len() - i,
    {
        if s[i] == x {
            return true;
        }
        i = i + 1;
    }
    false
}

/// Splits a file name into the components of its relative path.
pub fn split_name(s: &[u8]) -> (r: Vec<Vec<u8>>)
    ensures
        pview(&r) == path_of_name(s@),
{
    let sep: u8 = if has_byte(s, 0x2f) { 0x2f } else { 0x5c };
    let mut out: Vec<Vec<u8>> = Vec::new();
    let mut start: usize = 0;
    let mut i: usize = 0;
    assert(s@.subrange(0, s@.len() as int) =~= s@);
    assert(s@.subrange(0, 0) =~= Seq::<u8>::empty());
    assert(pview(&out) + path_of_name(s@) =~= path_of_name(s@));
    while i < s.len()
        invariant
            start <= i <= s@.len(),
            sep == separator_of(s@),
            path_of_name(s@) == pview(&out) + split_rec(
                s@.subrange(i as int, s@.len() as int),
                sep,
                s@.subrange(start as int, i as int),
            ),
        decreases s@.len() - i,
    {
        let ghost rest = s@.subrange(i as int, s@.len() as int);
        let ghost cur = s@.subrange(start as int, i as int);
        let ghost tail = s@.subrange(i + 1, s@.len() as int);
        assert(rest.subrange(1, rest.len() as int) =~= tail);
        assert(rest[0] == s@[i as int]);
        if s[i] == sep {
            let ghost before = pview(&out);
            assert(split_rec(rest, sep, cur) == (if cur.len() > 0 {
                seq![cur]
            } else {
                seq![]
            }) + split_rec(tail, sep, Seq::empty()));
            if start < i {
                let c = copy_range(s, start, i);
                out.push(c);
                assert(pview(&out) =~= before.push(c@));
                assert(before + (seq![cur] + split_rec(tail, sep, Seq::empty())) =~= before.push(
                    c@,
                ) + split_rec(tail, sep, Seq::empty()));
            } else {
                assert(before + (Seq::<Seq<u8>>::empty() + split_rec(tail, sep, Seq::empty()))
                    =~= before + split_rec(tail, sep, Seq::empty()));
            }
            assert(s@.subrange(i + 1, i + 1) =~= Seq::<u8>::empty());
            start = i + 1;
        } else {
            assert(split_rec(rest, sep, cur) == split_rec(tail, sep, cur.push(s@[i as int])));
            assert(cur.push(s@[i as int]) =~= s@.subrange(start as int, i + 1));
        }
        i = i + 1;
    }
    let ghost last = s@.subrange(start as int, i as int);
    assert(s@.subrange(i as int, s@.len() as int) =~= Seq::<u8>::empty());
    if start < i {
        let c = copy_range(s, start, i);
        let ghost before = pview(&out);
        out.push(c);
        assert(pview(&out) =~= before.push(c@));
        assert(before + seq![last] =~= before.push(c@));
    } else {
        assert(pview(&out) + Seq::<Seq<u8>>::empty() =~= pview(&out));
    }
    out
}

/// Byte strings in lexicographic order: -1, 0 or 1.
pub open spec fn bytes_cmp(a: Seq<u8>, b: Seq<u8>) -> int
    decreases a.len(),
{
    if a.len() == 0 {
        if b.len() == 0 {
            0
        } else {
            -1
        }
    } else if b.len() == 0 {
        1
    } else if a[0] < b[0] {
        -1
    } else if a[0] > b[0] {
        1
    } else {
        bytes_cmp(a.subrange(1, a.len() as int), b.subrange(1, b.len() as int))
    }
}

/// Paths in lexicographic order of their components: -1, 0 or 1.
pub open spec fn path_cmp(a: PathModel, b: PathModel) -> int
    decreases a.len(),
{
    if a.len() == 0 {
        if b.len() == 0 {
            0
        } else {
            -1
        }
    } else if b.len() == 0 {
        1
    } else if bytes_cmp(a[0], b[0]) != 0 {
        bytes_cmp(a[0], b[0])
    } else {
        path_cmp(a.subrange(1, a.len() as int), b.subrange(1, b.len() as int))
    }
}

pub fn compare_bytes(a: &Vec<u8>, b: &Vec<u8>) -> (r: i8)
    ensures
        r == bytes_cmp(a@, b@),
{
    let mut i: usize = 0;
    assert(a@.subrange(0, a@.len() as int) =~= a@);
    assert(b@.subrange(0, b@.len() as int) =~= b@);
    while i < a.len() && i < b.len()
        invariant
            i <= a@.len(),
            i <= b@.len(),
            bytes_cmp(a@, b@) == bytes_cmp(
                a@.subrange(i as int, a@.len() as int),
                b@.subrange(i as int, b@.len() as int),
            ),
        decreases a@.len() - i,
    {
        let ghost sa = a@.subrange(i as int, a@.len() as int);
        let ghost sb = b@.subrange(i as int, b@.len() as int);
        assert(sa[0] == a@[i as int] && sb[0] == b@[i as int]);
        if a[i] < b[i] {
            return -1;
        }
        if a[i] > b[i] {
            return 1;
        }
        assert(sa.subrange(1, sa.len() as int) =~= a@.subrange(i + 1, a@.len() as int));
        assert(sb.subrange(1, sb.len() as int) =~= b@.subrange(i + 1, b@.len() as int));
        i = i + 1;
    }
    if i < a.len() {
        1
    } else if i < b.len() {
        -1
    } else {
        0
    }
}

pub fn compare_paths(a: &Vec<Vec<u8>>, b: &Vec<Vec<u8>>) -> (r: i8)
    ensures
        r == path_cmp(pview(a), pview(b)),
{
    let mut i: usize = 0;
    assert(pview(a).subrange(0, a@.len() as int) =~= pview(a));
    assert(pview(b).subrange(0, b@.len() as int) =~= pview(b));
    while i < a.len() && i < b.len()
        invariant
            i <= a@.len(),
            i <= b@.len(),
            path_cmp(pview(a), pview(b)) == path_cmp(
                pview(a).subrange(i as int, a@.len() as int),
                pview(b).subrange(i as int, b@.len() as int),
            ),
        decreases a@.len() - i,
    {
        let ghost sa = pview(a).subrange(i as int, a@.len() as int);
        let ghost sb = pview(b).subrange(i as int, b@.len() as int);
        assert(sa[0] == a@[i as int]@ && sb[0] == b@[i as int]@);
        let c = compare_bytes(&a[i], &b[i]);
        if c != 0 {
            return c;
        }
        assert(sa.subrange(1, sa.len() as int) =~= pview(a).subrange(i + 1, a@.len() as int));
        assert(sb.subrange(1, sb.len() as int) =~= pview(b).subrange(i + 1, b@.len() as int));
        i = i + 1;
    }
    if i < a.len() {
        1
    } else if i < b.len() {
        -1
    } else {
        0
    }
}

pub proof fn lemma_bytes_cmp_zero(a: Seq<u8>, b: Seq<u8>)
    ensures
        bytes_cmp(a, b) == 0 <==> a == b,
    decreases a.len(),
{
    if a.len() == 0 && b.len() == 0 {
        assert(a =~= b);
    }
    if a.len() > 0 && b.len() > 0 && a[0] == b[0] {
        lemma_bytes_cmp_zero(a.subrange(1, a.len() as int), b.subrange(1, b.len() as int));
        if a.subrange(1, a.len() as int) == b.subrange(1, b.len() as int) {
            assert(a =~= seq![a[0]] + a.subrange(1, a.len() as int));
            assert(b =~= seq![b[0]] + b.subrange(1, b.len() as int));
        }
    }
}

pub proof fn lemma_path_cmp_zero(a: PathModel, b: PathModel)
    ensures
        path_cmp(a, b) == 0 <==> a == b,
    decreases a.len(),
{
    if a.len() == 0 && b.len() == 0 {
        assert(a =~= b);
    }
    if a.len() > 0 && b.len() > 0 {
        lemma_bytes_cmp_zero(a[0], b[0]);
        if a[0] == b[0] {
            lemma_path_cmp_zero(a.subrange(1, a.len() as int), b.subrange(1, b.len() as int));
            if a.subrange(1, a.len() as int) == b.subrange(1, b.len() as int) {
                assert(a =~= seq![a[0]] + a.subrange(1, a.len() as int));
                assert(b =~= seq![b[0]] + b.subrange(1, b.len() as int));
            }
        }
    }
}

pub fn paths_equal(a: &Vec<Vec<u8>>, b: &Vec<Vec<u8>>) -> (r: bool)
    ensures
        r == (pview(a) == pview(b)),
{
    proof {
        lemma_path_cmp_zero(pview(a), pview(b));
    }
    compare_paths(a, b) == 0
}

/// A copy of the first `n` components of `p`.
pub fn copy_prefix(p: &Vec<Vec<u8>>, n: usize) -> (r: Vec<Vec<u8>>)
    requires
        n <= p@.len(),
    ensures
        pview(&r) == pview(p).subrange(0, n as int),
{
    let mut r: Vec<Vec<u8>> = Vec::new();
    let mut i: usize = 0;
    while i < n
        invariant
            i <= n <= p@.len(),
            pview(&r) == pview(p).subrange(0, i as int),
        decreases n - i,
    {
        let c = copy_range(p[i].as_slice(), 0, p[i].len());
        let ghost before = pview(&r);
        r.push(c);
        assert(pview(&r) =~= before.push(c@));
        assert(p[i as int]@.subrange(0, p[i as int]@.len() as int) =~= p[i as int]@);
        i = i + 1;
        assert(pview(&r) =~= pview(p).subrange(0, i as int));
    }
    r
}

pub const HASH_SEED: u64 = 0xcbf29ce484222325;
pub const HASH_PRIME: u64 = 0x100000001b3;

pub open spec fn hash_step(h: u64, x: u8) -> u64 {
    ((h ^ (x as u64)) as int * HASH_PRIME as int % 0x1_0000_0000_0000_0000) as u64
}

pub open spec fn hash_bytes(h: u64, c: Seq<u8>) -> u64
    decreases c.len(),
{
    if c.len() == 0 {
        h
    } else {
        hash_step(hash_bytes(h, c.drop_last()), c.last())
    }
}

/// A 64-bit FNV-1a hash of the components of a path, each closed by `/`.
pub open spec fn path_hash(p: PathModel) -> u64
    decreases p.len(),
{
    if p.len() == 0 {
        HASH_SEED
    } else {
        hash_step(hash_bytes(path_hash(p.drop_last()), p.last()), 0x2fu8)
    }
}

fn step(h: u64, x: u8) -> (r: u64)
    ensures
        r == hash_step(h, x),
{
    (h ^ (x as u64)).wrapping_mul(HASH_PRIME)
}

pub fn hash_path(p: &Vec<Vec<u8>>) -> (r: u64)
    ensures
        r == path_hash(pview(p)),
{
    let mut h: u64 = HASH_SEED;
    let mut i: usize = 0;
    while i < p.len()
        invariant
            i <= p@.len(),
            h == path_hash(pview(p).subrange(0, i as int)),
        decreases p@.len() - i,
    {
        let c = &p[i];
        let ghost h0 = h;
        let mut j: usize = 0;
        assert(c@.subrange(0, 0) =~= Seq::<u8>::empty());
        while j < c.len()
            invariant
                j <= c@.len(),
                h == hash_bytes(h0, c@.subrange(0, j as int)),
            decreases c@.len() - j,
        {
            assert(c@.subrange(0, j + 1).drop_last() =~= c@.subrange(0, j as int));
            h = step(h, c[j]);
            j = j + 1;
        }
        assert(c@.subrange(0, j as int) =~= c@);
        h = step(h, 0x2f);
        assert(pview(p).subrange(0, i + 1).drop_last() =~= pview(p).subrange(0, i as int));
        i = i + 1;
    }
    assert(pview(p).subrange(0, i as int) =~= pview(p));
    h
}

} // verus!
