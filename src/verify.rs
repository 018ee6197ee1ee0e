//! The decisions of the backup verifier: what one chunk store's checks add up
//! to, and what a depot's chunk stores add up to against its manifest.
use vstd::prelude::*;

verus! {

/// How the bytes read from a data file compare with the length the SKU records.
#[derive(Clone, Copy, Debug, PartialEq, Eq, Structural)]
pub enum Accounting {
    Exact,
    /// This many trailing bytes belong to no chunk.
    Excess(u64),
    /// More bytes were read than the file holds.
    Duplicative,
}

#[derive(Clone, Copy, Debug, PartialEq, Eq, Structural)]
pub struct StoreReport {
    /// The data file's size differs from the SKU's length.
    pub size_mismatch: bool,
    pub accounting: Accounting,
    /// No check failed.
    pub valid: bool,
    pub chunks: u64,
}

pub open spec fn sum_lengths(v: Seq<u32>) -> int
    decreases v.len(),
{
    if v.len() == 0 {
        0
    } else {
        sum_lengths(v.drop_last()) + v.last()
    }
}

pub open spec fn all_true(v: Seq<bool>) -> bool {
    forall|i: int| 0 <= i < v.len() ==> #[trigger] v[i]
}

pub open spec fn store_report_spec(expected: u64, csd_len: u64, lengths: Seq<u32>, chunk_ok: Seq<bool>) -> StoreReport {
    let read = sum_lengths(lengths);
    StoreReport {
        size_mismatch: csd_len != expected,
        accounting: if read == expected {
            Accounting::Exact
        } else if read < expected {
            Accounting::Excess((expected - read) as u64)
        } else {
            Accounting::Duplicative
        },
        valid: csd_len == expected && all_true(chunk_ok),
        chunks: lengths.len() as u64,
    }
}

proof fn lemma_sum_bound(v: Seq<u32>)
    ensures
        0 <= sum_lengths(v) <= v.len() * 0xFFFF_FFFF,
    decreases v.len(),
{
    if v.len() > 0 {
        lemma_sum_bound(v.drop_last());
    }
}

/// Sums up the checks of one chunk store: the data file's size against the SKU's
/// length `expected`, each chunk's outcome, and the compressed lengths read.
pub fn verify_chunkstore(expected: u64, csd_len: u64, lengths: &Vec<u32>, chunk_ok: &Vec<bool>) -> (r: StoreReport)
    ensures
        r == store_report_spec(expected, csd_len, lengths@, chunk_ok@),
{
    let mut read: u128 = 0;
    let mut i: usize = 0;
    let n = lengths.len();
    while i < n
        invariant
            n == lengths@.len(),
            i <= n,
            read == sum_lengths(lengths@.take(i as int)),
            read <= i * 0xFFFF_FFFF,
        decreases n - i,
    {
        assert(lengths@.take(i + 1).drop_last() =~= lengths@.take(i as int));
        proof {
            assert(read + lengths@[i as int] <= (i + 1) * 0xFFFF_FFFF) by (nonlinear_arith)
                requires
                    read <= i * 0xFFFF_FFFF,
                    lengths@[i as int] <= 0xFFFF_FFFF,
            ;
            assert((i + 1) * 0xFFFF_FFFF <= 0xFFFF_FFFF_FFFF_FFFF * 0xFFFF_FFFF) by (nonlinear_arith)
                requires
                    i + 1 <= 0xFFFF_FFFF_FFFF_FFFF,
            ;
        }
        read = read + lengths[i] as u128;
        i = i + 1;
    }
    assert(lengths@.take(n as int) =~= lengths@);
    let mut all: bool = true;
    let mut j: usize = 0;
    while j < chunk_ok.len()
        invariant
            j <= chunk_ok@.len(),
            all == forall|k: int| 0 <= k < j ==> #[trigger] chunk_ok@[k],
        decreases chunk_ok@.len() - j,
    {
        all = all && chunk_ok[j];
        j = j + 1;
    }
    let accounting = if read == expected as u128 {
        Accounting::Exact
    } else if read < expected as u128 {
        Accounting::Excess((expected as u128 - read) as u64)
    } else {
        Accounting::Duplicative
    };
    StoreReport { size_mismatch: csd_len != expected, accounting, valid: csd_len == expected && all, chunks: n as u64 }
}

#[derive(Clone, Copy, Debug, PartialEq, Eq, Structural)]
pub struct DepotSummary {
    /// Chunks counted over the chunk stores that verified.
    pub chunks: u64,
    /// Every chunk store verified.
    pub valid: bool,
    /// The manifest's count of unique chunks differs from `chunks`.
    pub unique_mismatch: bool,
}

pub open spec fn counted(v: Seq<Option<u64>>) -> int
    decreases v.len(),
{
    if v.len() == 0 {
        0
    } else {
        counted(v.drop_last()) + match v.last() {
            Some(c) => c as int,
            None => 0,
        }
    }
}

/// Sums up a depot: the chunk count of each chunk store that verified (`None`
/// for one that did not), against the manifest's unique chunks when a manifest
/// was read. A count that does not fit saturates.
pub fn depot_summary(unique_chunks: Option<u32>, stores: &Vec<Option<u64>>) -> (r: DepotSummary)
    ensures
        r.valid == forall|i: int| 0 <= i < stores@.len() ==> (#[trigger] stores@[i]) is Some,
        counted(stores@) <= u64::MAX ==> r.chunks == counted(stores@),
        counted(stores@) > u64::MAX ==> r.chunks == u64::MAX,
        r.unique_mismatch == (unique_chunks matches Some(u) && u as u64 != r.chunks),
{
    let mut total: u64 = 0;
    let mut saturated: bool = false;
    let mut valid: bool = true;
    let mut i: usize = 0;
    while i < stores.len()
        invariant
            i <= stores@.len(),
            valid == forall|k: int| 0 <= k < i ==> (#[trigger] stores@[k]) is Some,
            !saturated ==> total == counted(stores@.take(i as int)),
            saturated ==> total == u64::MAX && counted(stores@.take(i as int)) > u64::MAX,
        decreases stores@.len() - i,
    {
        assert(stores@.take(i + 1).drop_last() =~= stores@.take(i as int));
        proof {
            lemma_counted_nonneg(stores@.take(i as int));
        }
        match stores[i] {
            Some(c) => {
                if saturated || total > u64::MAX - c {
                    total = u64::MAX;
                    saturated = true;
                } else {
                    total = total + c;
                }
            },
            None => {
                valid = false;
            },
        }
        i = i + 1;
    }
    assert(stores@.take(i as int) =~= stores@);
    let unique_mismatch = match unique_chunks {
        Some(u) => u as u64 != total,
        None => false,
    };
    DepotSummary { chunks: total, valid, unique_mismatch }
}

proof fn lemma_counted_nonneg(v: Seq<Option<u64>>)
    ensures
        counted(v) >= 0,
    decreases v.len(),
{
    if v.len() > 0 {
        lemma_counted_nonneg(v.drop_last());
    }
}

} // verus!
