//! Locality-sensitive hashing: bands of sub-fingerprints, hashed into buckets whose
//! members become candidate pairs.
//!
//! Chromaprint sub-fingerprints are highly correlated, so many small bands find
//! nearly every true match, and what they find too much is verified cheaply.

use std::collections::{HashMap, HashSet};

use vstd::prelude::*;

use crate::database::FileFingerprint;
use crate::fingerprint::durations_compatible;
use crate::path::shares_root;

verus! {

broadcast use vstd::std_specs::hash::group_hash_axioms;

/// Number of sub-fingerprints hashed together per band.
pub const LSH_ROWS_PER_BAND: usize = 2;

/// Number of bands.
pub const LSH_NUM_BANDS: usize = 50;

/// Buckets with more members are noise or silence and are skipped.
pub const MAX_BUCKET_SIZE: usize = 1000;

/// The value that FNV-1a starts from.
pub const FNV_OFFSET: u64 = 0xcbf29ce484222325;

/// The factor of FNV-1a.
pub const FNV_PRIME: u64 = 0x100000001b3;

/// FNV-1a takes in one byte.
pub open spec fn fnv_step(hash: u64, byte: u8) -> u64 {
    ((hash ^ (byte as u64)) * FNV_PRIME % 0x1_0000_0000_0000_0000) as u64
}

/// FNV-1a over a sequence of bytes, from a given state.
pub open spec fn fnv_from(hash: u64, bytes: Seq<u8>) -> u64
    decreases bytes.len(),
{
    if bytes.len() == 0 {
        hash
    } else {
        fnv_step(fnv_from(hash, bytes.drop_last()), bytes.last())
    }
}

/// The FNV-1a hash of a band: of its sub-fingerprints' bytes, lowest first.
pub open spec fn band_hash(band: Seq<u32>) -> u64 {
    fnv_from(FNV_OFFSET, crate::database::fingerprint_bytes(band))
}

fn take_byte(hash: u64, byte: u8) -> (r: u64)
    ensures
        r == fnv_step(hash, byte),
{
    (hash ^ (byte as u64)).wrapping_mul(FNV_PRIME)
}

/// Hashes a band of sub-fingerprints into a bucket key, by FNV-1a.
pub fn hash_band(band: &[u32]) -> (r: u64)
    ensures
        r == band_hash(band@),
{
    let mut hash: u64 = FNV_OFFSET;
    let mut i: usize = 0;
    proof {
        assert(band@.take(0) =~= seq![]);
    }
    while i < band.len()
        invariant
            i <= band@.len(),
            hash == band_hash(band@.take(i as int)),
        decreases band@.len() - i,
    {
        let v: u32 = band[i];
        let ghost before = crate::database::fingerprint_bytes(band@.take(i as int));
        let ghost b = crate::database::le_bytes(v);
        proof {
            assert(band@.take(i + 1).drop_last() =~= band@.take(i as int));
            assert(before + b.take(0) =~= before);
            assert((before + b.take(1)).drop_last() =~= before + b.take(0));
            assert((before + b.take(2)).drop_last() =~= before + b.take(1));
            assert((before + b.take(3)).drop_last() =~= before + b.take(2));
            assert((before + b).drop_last() =~= before + b.take(3));
        }
        hash = take_byte(hash, (v % 256) as u8);
        assert(hash == fnv_from(FNV_OFFSET, before + b.take(1)));
        hash = take_byte(hash, (v / 256 % 256) as u8);
        assert(hash == fnv_from(FNV_OFFSET, before + b.take(2)));
        hash = take_byte(hash, (v / 65536 % 256) as u8);
        assert(hash == fnv_from(FNV_OFFSET, before + b.take(3)));
        hash = take_byte(hash, (v / 16777216) as u8);
        i = i + 1;
    }
    proof {
        assert(band@.take(band@.len() as int) =~= band@);
    }
    hash
}

proof fn lemma_fnv_multiplication_injective(x: u64, y: u64)
    requires
        x * FNV_PRIME % 0x1_0000_0000_0000_0000 == y * FNV_PRIME % 0x1_0000_0000_0000_0000,
    ensures
        x == y,
{
    let m: int = 0x1_0000_0000_0000_0000;
    let p: int = FNV_PRIME as int;
    // The inverse of the prime modulo 2^64.
    let q: int = 0xce965057aff6957b;
    let k: int = 887285111055;
    assert(p * q == 1 + k * m);
    lemma_undo_multiplication(x as int, p, q, k, m);
    lemma_undo_multiplication(y as int, p, q, k, m);
}

proof fn lemma_undo_multiplication(x: int, p: int, q: int, k: int, m: int)
    requires
        0 <= x < m,
        p * q == 1 + k * m,
    ensures
        (x * p % m) * q % m == x,
{
    vstd::arithmetic::div_mod::lemma_mul_mod_noop_left(x * p, q, m);
    assert(x * p * q == x + (x * k) * m) by (nonlinear_arith)
        requires
            p * q == 1 + k * m,
    ;
    vstd::arithmetic::div_mod::lemma_mod_multiples_vanish(x * k, x, m);
    assert(m * (x * k) + x == x + (x * k) * m) by (nonlinear_arith);
    vstd::arithmetic::div_mod::lemma_small_mod(x as nat, m as nat);
}

proof fn lemma_fnv_step_injective(g: u64, h: u64, byte: u8)
    requires
        fnv_step(g, byte) == fnv_step(h, byte),
    ensures
        g == h,
{
    let b: u64 = byte as u64;
    lemma_fnv_multiplication_injective(g ^ b, h ^ b);
    assert(g ^ b == h ^ b ==> g == h) by (bit_vector);
}

proof fn lemma_fnv_step_tells_bytes_apart(h: u64, a: u8, b: u8)
    requires
        fnv_step(h, a) == fnv_step(h, b),
    ensures
        a == b,
{
    let x: u64 = a as u64;
    let y: u64 = b as u64;
    lemma_fnv_multiplication_injective(h ^ x, h ^ y);
    assert(h ^ x == h ^ y ==> x == y) by (bit_vector);
}

/// Two byte sequences that differ in exactly one byte have different FNV-1a hashes.
pub proof fn law_fnv_tells_one_byte_apart(h: u64, a: Seq<u8>, b: Seq<u8>, at: int)
    requires
        a.len() == b.len(),
        0 <= at < a.len(),
        a[at] != b[at],
        forall|i: int| 0 <= i < a.len() && i != at ==> a[i] == b[i],
    ensures
        fnv_from(h, a) != fnv_from(h, b),
    decreases a.len(),
{
    let g1 = fnv_from(h, a.drop_last());
    let g2 = fnv_from(h, b.drop_last());
    if at == a.len() - 1 {
        assert(a.drop_last() =~= b.drop_last());
        if fnv_from(h, a) == fnv_from(h, b) {
            lemma_fnv_step_tells_bytes_apart(g1, a.last(), b.last());
        }
    } else {
        law_fnv_tells_one_byte_apart(h, a.drop_last(), b.drop_last(), at);
        if fnv_from(h, a) == fnv_from(h, b) {
            lemma_fnv_step_injective(g1, g2, a.last());
        }
    }
}

/// Two bands that differ in exactly one byte of one sub-fingerprint have different hashes.
pub proof fn law_band_hash_tells_one_byte_apart(a: Seq<u32>, b: Seq<u32>, at: int, byte: int)
    requires
        a.len() == b.len(),
        0 <= at < a.len(),
        0 <= byte < 4,
        forall|i: int| 0 <= i < a.len() && i != at ==> a[i] == b[i],
        forall|j: int|
            0 <= j < 4 ==> (crate::database::le_bytes(a[at])[j] == crate::database::le_bytes(b[at])[j]
                <==> j != byte),
    ensures
        band_hash(a) != band_hash(b),
{
    let x = crate::database::fingerprint_bytes(a);
    let y = crate::database::fingerprint_bytes(b);
    crate::database::lemma_fingerprint_bytes_at(a);
    crate::database::lemma_fingerprint_bytes_at(b);
    assert(x[4 * at + byte] == crate::database::le_bytes(a[at])[byte]);
    assert(y[4 * at + byte] == crate::database::le_bytes(b[at])[byte]);
    assert forall|k: int| 0 <= k < x.len() && k != 4 * at + byte implies x[k] == y[k] by {
        let i = k / 4;
        let j = k % 4;
        assert(k == 4 * i + j);
        assert(x[4 * i + j] == crate::database::le_bytes(a[i])[j]);
        assert(y[4 * i + j] == crate::database::le_bytes(b[i])[j]);
    }
    law_fnv_tells_one_byte_apart(FNV_OFFSET, x, y, 4 * at + byte);
}

/// Whether a fingerprint is long enough for a band.
pub open spec fn has_band(fp: Seq<u32>, band: int) -> bool {
    0 <= band < LSH_NUM_BANDS && (band + 1) * LSH_ROWS_PER_BAND <= fp.len()
}

/// The hash of one band of a fingerprint.
pub open spec fn band_hash_of(fp: Seq<u32>, band: int) -> u64 {
    band_hash(fp.subrange(band * LSH_ROWS_PER_BAND, (band + 1) * LSH_ROWS_PER_BAND))
}

/// How many bands a fingerprint has.
pub open spec fn band_count(fp: Seq<u32>) -> int {
    if fp.len() / 2 < LSH_NUM_BANDS {
        fp.len() as int / 2
    } else {
        LSH_NUM_BANDS as int
    }
}

/// Computes the band hashes of a fingerprint: one for each band that it is long enough for.
pub fn compute_band_hashes(fingerprint: &[u32]) -> (r: Vec<u64>)
    ensures
        r@.len() == band_count(fingerprint@),
        forall|b: int| 0 <= b < r@.len() ==> #[trigger] r@[b] == band_hash_of(fingerprint@, b),
{
    let mut hashes: Vec<u64> = Vec::with_capacity(LSH_NUM_BANDS);
    let mut band: usize = 0;
    while band < LSH_NUM_BANDS && (band + 1) * LSH_ROWS_PER_BAND <= fingerprint.len()
        invariant
            band <= LSH_NUM_BANDS,
            band * LSH_ROWS_PER_BAND <= fingerprint@.len(),
            hashes@.len() == band,
            forall|b: int|
                0 <= b < band ==> #[trigger] hashes@[b] == band_hash_of(fingerprint@, b),
        decreases LSH_NUM_BANDS - band,
    {
        let start: usize = band * LSH_ROWS_PER_BAND;
        hashes.push(hash_band(vstd::slice::slice_subrange(fingerprint, start, start + 2)));
        band = band + 1;
    }
    hashes
}

// --- Buckets ---

/// The members of a bucket among the first `n` files: those whose `band` hashes to `hash`.
pub open spec fn bucket_members(
    fps: Seq<FileFingerprint>,
    band: int,
    hash: u64,
    n: int,
) -> Seq<usize>
    decreases n,
{
    if n <= 0 {
        seq![]
    } else {
        let before = bucket_members(fps, band, hash, n - 1);
        if has_band(fps[n - 1].fingerprint@, band) && band_hash_of(fps[n - 1].fingerprint@, band)
            == hash {
            before.push((n - 1) as usize)
        } else {
            before
        }
    }
}

/// Whether two files fall into the same bucket of a band, and the bucket is not overfull.
pub open spec fn share_bucket(fps: Seq<FileFingerprint>, band: int, i: int, j: int) -> bool {
    let hash = band_hash_of(fps[i].fingerprint@, band);
    &&& has_band(fps[i].fingerprint@, band)
    &&& has_band(fps[j].fingerprint@, band)
    &&& band_hash_of(fps[j].fingerprint@, band) == hash
    &&& bucket_members(fps, band, hash, fps.len() as int).len() <= MAX_BUCKET_SIZE
}

/// Whether a pair passes the filters that need no fingerprints.
pub open spec fn may_pair(fps: Seq<FileFingerprint>, same_tree: bool, i: int, j: int) -> bool {
    &&& crate::fingerprint::spec_durations_compatible(
        fps[i].duration_ns as int,
        fps[j].duration_ns as int,
    )
    &&& same_tree ==> crate::path::spec_shares_root(fps[i].path@, fps[j].path@)
}

/// Whether two files are a candidate pair.
pub open spec fn is_candidate(fps: Seq<FileFingerprint>, same_tree: bool, i: int, j: int) -> bool {
    &&& 0 <= i < j < fps.len()
    &&& exists|band: int| 0 <= band < LSH_NUM_BANDS && #[trigger] share_bucket(fps, band, i, j)
    &&& may_pair(fps, same_tree, i, j)
}

proof fn lemma_bucket_members(fps: Seq<FileFingerprint>, band: int, hash: u64, n: int)
    requires
        0 <= n <= fps.len() <= usize::MAX,
    ensures
        bucket_members(fps, band, hash, n).len() <= n,
        forall|q: int|
            0 <= q < bucket_members(fps, band, hash, n).len() ==> {
                let k = #[trigger] bucket_members(fps, band, hash, n)[q];
                k < n && has_band(fps[k as int].fingerprint@, band) && band_hash_of(
                    fps[k as int].fingerprint@,
                    band,
                ) == hash
            },
        forall|p: int, q: int|
            0 <= p < q < bucket_members(fps, band, hash, n).len() ==> #[trigger] bucket_members(
                fps,
                band,
                hash,
                n,
            )[p] < #[trigger] bucket_members(fps, band, hash, n)[q],
        forall|k: int|
            0 <= k < n && has_band(fps[k].fingerprint@, band) && band_hash_of(
                fps[k].fingerprint@,
                band,
            ) == hash ==> #[trigger] bucket_members(fps, band, hash, n).contains(k as usize),
    decreases n,
{
    if n > 0 {
        lemma_bucket_members(fps, band, hash, n - 1);
        let before = bucket_members(fps, band, hash, n - 1);
        let now = bucket_members(fps, band, hash, n);
        assert forall|k: int|
            0 <= k < n && has_band(fps[k].fingerprint@, band) && band_hash_of(
                fps[k].fingerprint@,
                band,
            ) == hash implies #[trigger] now.contains(k as usize) by {
            if k < n - 1 {
                assert(before.contains(k as usize));
                let w = choose|w: int| 0 <= w < before.len() && before[w] == k as usize;
                assert(now[w] == k as usize);
            } else {
                assert(now[before.len() as int] == k as usize);
            }
        }
    }
}

/// `keys` and `buckets` are the buckets of a band over the first `n` files.
spec fn is_bucketing(
    fps: Seq<FileFingerprint>,
    band: int,
    n: int,
    keys: Seq<u64>,
    buckets: Seq<Vec<usize>>,
) -> bool {
    &&& keys.len() == buckets.len()
    &&& forall|q: int|
        0 <= q < keys.len() ==> #[trigger] buckets[q]@ == bucket_members(fps, band, keys[q], n)
    &&& forall|k: int|
        0 <= k < n && #[trigger] has_band(fps[k].fingerprint@, band) ==> keys.contains(
            band_hash_of(fps[k].fingerprint@, band),
        )
}

/// Sorts the files into the buckets of one band.
fn fill_buckets(fps: &Vec<FileFingerprint>, band: usize) -> (r: (Ghost<Seq<u64>>, Vec<Vec<usize>>))
    requires
        band < LSH_NUM_BANDS,
    ensures
        is_bucketing(fps@, band as int, fps@.len() as int, r.0@, r.1@),
{
    let mut ids: HashMap<u64, usize> = HashMap::new();
    let mut keys: Vec<u64> = Vec::new();
    let mut buckets: Vec<Vec<usize>> = Vec::new();
    let mut n: usize = 0;
    while n < fps.len()
        invariant
            band < LSH_NUM_BANDS,
            n <= fps@.len(),
            is_bucketing(fps@, band as int, n as int, keys@, buckets@),
            forall|h: u64|
                ids@.contains_key(h) ==> #[trigger] ids@[h] < keys@.len() && keys@[ids@[h] as int]
                    == h,
            forall|q: int|
                0 <= q < keys@.len() ==> ids@.contains_key(#[trigger] keys@[q]) && ids@[keys@[q]]
                    == q,
        decreases fps@.len() - n,
    {
        let ghost keys0 = keys@;
        let ghost buckets0 = buckets@;
        let fp = &fps[n].fingerprint;
        let start: usize = band * LSH_ROWS_PER_BAND;
        if fp.len() < start + 2 {
            n = n + 1;
            continue;
        }
        let hash: u64 = hash_band(vstd::slice::slice_subrange(fp.as_slice(), start, start + 2));
        assert(hash == band_hash_of(fps@[n as int].fingerprint@, band as int));
        match ids.get(&hash) {
            Some(id) => {
                let at: usize = *id;
                buckets[at].push(n);
                proof {
                    assert forall|q: int| 0 <= q < keys@.len() implies #[trigger] buckets@[q]@
                        == bucket_members(fps@, band as int, keys@[q], n + 1) by {
                        assert(buckets0[q]@ == bucket_members(
                            fps@,
                            band as int,
                            keys@[q],
                            n as int,
                        ));
                        if q != at {
                            assert(keys@[q] != hash);
                        }
                    }
                    assert forall|k: int|
                        0 <= k < n + 1 && #[trigger] has_band(
                            fps@[k].fingerprint@,
                            band as int,
                        ) implies keys@.contains(band_hash_of(fps@[k].fingerprint@, band as int)) by {
                        if k == n {
                            assert(keys@[at as int] == hash);
                        }
                    }
                }
            },
            None => {
                let id: usize = buckets.len();
                ids.insert(hash, id);
                keys.push(hash);
                let mut first: Vec<usize> = Vec::new();
                first.push(n);
                buckets.push(first);
                proof {
                    assert(bucket_members(fps@, band as int, hash, n as int).len() == 0) by {
                        lemma_bucket_members(fps@, band as int, hash, n as int);
                        if bucket_members(fps@, band as int, hash, n as int).len() > 0 {
                            let k = bucket_members(fps@, band as int, hash, n as int)[0] as int;
                            assert(has_band(fps@[k].fingerprint@, band as int));
                            assert(keys0.contains(hash));
                            let q = choose|q: int| 0 <= q < keys0.len() && keys0[q] == hash;
                        }
                    }
                    assert forall|q: int| 0 <= q < keys@.len() implies #[trigger] buckets@[q]@
                        == bucket_members(fps@, band as int, keys@[q], n + 1) by {
                        if q < keys0.len() {
                            assert(buckets0[q]@ == bucket_members(
                                fps@,
                                band as int,
                                keys0[q],
                                n as int,
                            ));
                            assert(keys0[q] != hash);
                        } else {
                            assert(buckets@[q]@ =~= bucket_members(
                                fps@,
                                band as int,
                                hash,
                                n as int,
                            ).push(n));
                        }
                    }
                    assert forall|k: int|
                        0 <= k < n + 1 && #[trigger] has_band(
                            fps@[k].fingerprint@,
                            band as int,
                        ) implies keys@.contains(band_hash_of(fps@[k].fingerprint@, band as int)) by {
                        if k == n {
                            assert(keys@[id as int] == hash);
                        } else {
                            assert(keys0.contains(band_hash_of(fps@[k].fingerprint@, band as int)));
                            let q = choose|q: int|
                                0 <= q < keys0.len() && keys0[q] == band_hash_of(
                                    fps@[k].fingerprint@,
                                    band as int,
                                );
                            assert(keys@[q] == keys0[q]);
                        }
                    }
                }
            },
        }
        n = n + 1;
    }
    (Ghost(keys@), buckets)
}

// --- Candidate pairs ---

spec fn pair_code(pair: (usize, usize)) -> u128 {
    (pair.0 * 0x1_0000_0000_0000_0000 + pair.1) as u128
}

/// The candidate pairs found so far, each once, with the codes of those in `seen`.
struct PairList {
    seen: HashSet<u128>,
    pairs: Vec<(usize, usize)>,
}

impl PairList {
    spec fn wf(&self) -> bool {
        &&& forall|k: int|
            0 <= k < self.pairs@.len() ==> self.seen@.contains(
                pair_code(#[trigger] self.pairs@[k]),
            )
        &&& forall|c: u128|
            #[trigger] self.seen@.contains(c) ==> exists|k: int|
                0 <= k < self.pairs@.len() && pair_code(#[trigger] self.pairs@[k]) == c
        &&& forall|k: int, l: int|
            0 <= k < l < self.pairs@.len() ==> #[trigger] self.pairs@[k] != #[trigger] self.pairs@[l]
    }

    fn new() -> (r: PairList)
        ensures
            r.wf(),
            r.pairs@.len() == 0,
    {
        PairList { seen: HashSet::new(), pairs: Vec::new() }
    }

    fn insert(&mut self, i: usize, j: usize)
        requires
            old(self).wf(),
        ensures
            final(self).wf(),
            final(self).pairs@.contains((i, j)),
            final(self).pairs@ == old(self).pairs@ || final(self).pairs@ == old(self).pairs@.push(
                (i, j),
            ),
    {
        let code: u128 = i as u128 * 0x1_0000_0000_0000_0000 + j as u128;
        let ghost pair = (i, j);
        proof {
            assert(code == pair_code(pair));
        }
        let fresh = self.seen.insert(code);
        if fresh {
            self.pairs.push((i, j));
            proof {
                let pairs0 = old(self).pairs@;
                let seen0 = old(self).seen@;
                assert(self.pairs@[pairs0.len() as int] == pair);
                assert forall|c: u128| #[trigger] self.seen@.contains(c) implies exists|k: int|
                    0 <= k < self.pairs@.len() && pair_code(#[trigger] self.pairs@[k]) == c by {
                    if c != code {
                        assert(seen0.contains(c));
                        let k = choose|k: int|
                            0 <= k < pairs0.len() && pair_code(#[trigger] pairs0[k]) == c;
                        assert(pair_code(self.pairs@[k]) == c);
                    } else {
                        assert(pair_code(self.pairs@[pairs0.len() as int]) == c);
                    }
                }
                assert forall|k: int, l: int| 0 <= k < l < self.pairs@.len() implies #[trigger] self.pairs@[k]
                    != #[trigger] self.pairs@[l] by {
                    if l == pairs0.len() {
                        assert(seen0.contains(pair_code(pairs0[k])));
                    }
                }
            }
        } else {
            proof {
                let pairs0 = old(self).pairs@;
                assert(old(self).seen@.contains(code));
                let k = choose|k: int| 0 <= k < pairs0.len() && pair_code(#[trigger] pairs0[k]) == code;
                let other = pairs0[k];
                assert(other.0 == i && other.1 == j) by {
                    assert(other.0 * 0x1_0000_0000_0000_0000 + other.1 == i
                        * 0x1_0000_0000_0000_0000 + j);
                }
                assert(self.seen@ =~= old(self).seen@);
            }
        }
    }
}

/// Every candidate pair of the bands before `band` is in `pairs`.
spec fn covers_bands(
    fps: Seq<FileFingerprint>,
    same_tree: bool,
    band: int,
    pairs: Seq<(usize, usize)>,
) -> bool {
    forall|b: int, i: int, j: int|
        #![trigger share_bucket(fps, b, i, j)]
        0 <= b < band && 0 <= i < j < fps.len() && share_bucket(fps, b, i, j) && may_pair(
            fps,
            same_tree,
            i,
            j,
        ) ==> pairs.contains((i as usize, j as usize))
}

/// Every allowed pair of the members of `bucket` is in `pairs`.
spec fn covers_bucket(
    fps: Seq<FileFingerprint>,
    same_tree: bool,
    bucket: Seq<usize>,
    upto: int,
    pairs: Seq<(usize, usize)>,
) -> bool {
    forall|p: int, q: int|
        0 <= p < upto && p < q < bucket.len() && may_pair(
            fps,
            same_tree,
            #[trigger] bucket[p] as int,
            #[trigger] bucket[q] as int,
        ) ==> pairs.contains((bucket[p], bucket[q]))
}

/// Every pair in `pairs` is a candidate pair.
spec fn all_candidates(
    fps: Seq<FileFingerprint>,
    same_tree: bool,
    pairs: Seq<(usize, usize)>,
) -> bool {
    forall|k: int|
        0 <= k < pairs.len() ==> is_candidate(
            fps,
            same_tree,
            (#[trigger] pairs[k]).0 as int,
            pairs[k].1 as int,
        )
}

spec fn keeps(before: Seq<(usize, usize)>, after: Seq<(usize, usize)>) -> bool {
    forall|p: (usize, usize)| before.contains(p) ==> #[trigger] after.contains(p)
}

proof fn lemma_push_keeps(before: Seq<(usize, usize)>, pair: (usize, usize))
    ensures
        keeps(before, before.push(pair)),
{
    let after = before.push(pair);
    assert forall|p: (usize, usize)| before.contains(p) implies #[trigger] after.contains(p) by {
        let k = choose|k: int| 0 <= k < before.len() && before[k] == p;
        assert(after[k] == p);
    }
}

/// Adds the allowed pairs of one bucket.
fn pair_bucket(
    fps: &Vec<FileFingerprint>,
    same_tree: bool,
    bucket: &Vec<usize>,
    list: &mut PairList,
    Ghost(band): Ghost<int>,
    Ghost(hash): Ghost<u64>,
)
    requires
        0 <= band < LSH_NUM_BANDS,
        bucket@ == bucket_members(fps@, band, hash, fps@.len() as int),
        bucket@.len() <= MAX_BUCKET_SIZE,
        old(list).wf(),
        all_candidates(fps@, same_tree, old(list).pairs@),
    ensures
        final(list).wf(),
        all_candidates(fps@, same_tree, final(list).pairs@),
        keeps(old(list).pairs@, final(list).pairs@),
        covers_bucket(fps@, same_tree, bucket@, bucket@.len() as int, final(list).pairs@),
{
    let total: usize = fps.len();
    proof {
        lemma_bucket_members(fps@, band, hash, total as int);
    }
    let mut a: usize = 0;
    while a < bucket.len()
        invariant
            a <= bucket@.len(),
            0 <= band < LSH_NUM_BANDS,
            bucket@ == bucket_members(fps@, band, hash, fps@.len() as int),
            bucket@.len() <= MAX_BUCKET_SIZE,
            forall|q: int|
                0 <= q < bucket@.len() ==> (#[trigger] bucket@[q]) < fps@.len() && has_band(
                    fps@[bucket@[q] as int].fingerprint@,
                    band,
                ) && band_hash_of(fps@[bucket@[q] as int].fingerprint@, band) == hash,
            forall|p: int, q: int|
                0 <= p < q < bucket@.len() ==> #[trigger] bucket@[p] < #[trigger] bucket@[q],
            list.wf(),
            all_candidates(fps@, same_tree, list.pairs@),
            keeps(old(list).pairs@, list.pairs@),
            covers_bucket(fps@, same_tree, bucket@, a as int, list.pairs@),
        decreases bucket@.len() - a,
    {
        let i: usize = bucket[a];
        let mut b: usize = a + 1;
        while b < bucket.len()
            invariant
                a < b <= bucket@.len(),
                i == bucket@[a as int],
                0 <= band < LSH_NUM_BANDS,
                bucket@ == bucket_members(fps@, band, hash, fps@.len() as int),
                bucket@.len() <= MAX_BUCKET_SIZE,
                forall|q: int|
                    0 <= q < bucket@.len() ==> (#[trigger] bucket@[q]) < fps@.len() && has_band(
                        fps@[bucket@[q] as int].fingerprint@,
                        band,
                    ) && band_hash_of(fps@[bucket@[q] as int].fingerprint@, band) == hash,
                forall|p: int, q: int|
                    0 <= p < q < bucket@.len() ==> #[trigger] bucket@[p] < #[trigger] bucket@[q],
                list.wf(),
                all_candidates(fps@, same_tree, list.pairs@),
                keeps(old(list).pairs@, list.pairs@),
                covers_bucket(fps@, same_tree, bucket@, a as int, list.pairs@),
                forall|q: int|
                    a < q < b && may_pair(fps@, same_tree, i as int, #[trigger] bucket@[q] as int)
                        ==> list.pairs@.contains((i, bucket@[q])),
            decreases bucket@.len() - b,
        {
            let j: usize = bucket[b];
            let allowed = durations_compatible(fps[i].duration_ns, fps[j].duration_ns) && (
            !same_tree || shares_root(fps[i].path.as_str(), fps[j].path.as_str()));
            assert(allowed == may_pair(fps@, same_tree, i as int, j as int));
            if allowed {
                let ghost pairs0 = list.pairs@;
                list.insert(i, j);
                proof {
                    lemma_push_keeps(pairs0, (i, j));
                    assert(keeps(pairs0, list.pairs@));
                    assert(share_bucket(fps@, band, i as int, j as int));
                    assert(is_candidate(fps@, same_tree, i as int, j as int));
                    assert(covers_bucket(fps@, same_tree, bucket@, a as int, list.pairs@));
                }
            }
            b = b + 1;
        }
        a = a + 1;
    }
}

proof fn lemma_band_covered(
    fps: Seq<FileFingerprint>,
    same_tree: bool,
    band: int,
    keys: Seq<u64>,
    buckets: Seq<Vec<usize>>,
    before: Seq<(usize, usize)>,
    after: Seq<(usize, usize)>,
)
    requires
        fps.len() <= usize::MAX,
        0 <= band < LSH_NUM_BANDS,
        is_bucketing(fps, band, fps.len() as int, keys, buckets),
        covers_bands(fps, same_tree, band, before),
        keeps(before, after),
        forall|p: int|
            0 <= p < buckets.len() && buckets[p]@.len() <= MAX_BUCKET_SIZE ==> covers_bucket(
                fps,
                same_tree,
                #[trigger] buckets[p]@,
                buckets[p]@.len() as int,
                after,
            ),
    ensures
        covers_bands(fps, same_tree, band + 1, after),
{
    assert forall|b: int, i: int, j: int|
        #![trigger share_bucket(fps, b, i, j)]
        0 <= b < band + 1 && 0 <= i < j < fps.len() && share_bucket(fps, b, i, j) && may_pair(
            fps,
            same_tree,
            i,
            j,
        ) implies after.contains((i as usize, j as usize)) by {
        if b < band {
            assert(before.contains((i as usize, j as usize)));
        } else {
            let hash = band_hash_of(fps[i].fingerprint@, b);
            assert(keys.contains(hash));
            let p = choose|p: int| 0 <= p < keys.len() && keys[p] == hash;
            let bucket = buckets[p]@;
            assert(bucket == bucket_members(fps, b, hash, fps.len() as int));
            lemma_bucket_members(fps, b, hash, fps.len() as int);
            assert(bucket.contains(i as usize));
            assert(bucket.contains(j as usize));
            let x = choose|x: int| 0 <= x < bucket.len() && bucket[x] == i as usize;
            let y = choose|y: int| 0 <= y < bucket.len() && bucket[y] == j as usize;
            if y < x {
                assert(bucket[y] < bucket[x]);
            }
            assert(covers_bucket(fps, same_tree, bucket, bucket.len() as int, after));
            assert(may_pair(fps, same_tree, bucket[x] as int, bucket[y] as int));
        }
    }
}

/// Generates candidate pairs: the pairs of files that share a bucket of some band,
/// are of compatible durations and, with `same_tree`, lie below a common root.
/// Each comes once, its files in ascending order.
pub fn generate_candidates_lsh(fps: &Vec<FileFingerprint>, same_tree: bool) -> (r: Vec<
    (usize, usize),
>)
    ensures
        forall|k: int|
            0 <= k < r@.len() ==> is_candidate(
                fps@,
                same_tree,
                (#[trigger] r@[k]).0 as int,
                r@[k].1 as int,
            ),
        forall|i: int, j: int| #[trigger]
            is_candidate(fps@, same_tree, i, j) ==> r@.contains((i as usize, j as usize)),
        r@.no_duplicates(),
{
    let mut list = PairList::new();
    let total: usize = fps.len();
    let mut band: usize = 0;
    while band < LSH_NUM_BANDS
        invariant
            total == fps@.len(),
            band <= LSH_NUM_BANDS,
            list.wf(),
            all_candidates(fps@, same_tree, list.pairs@),
            covers_bands(fps@, same_tree, band as int, list.pairs@),
        decreases LSH_NUM_BANDS - band,
    {
        let (Ghost(keys), buckets) = fill_buckets(fps, band);
        let ghost pairs0 = list.pairs@;
        let mut q: usize = 0;
        while q < buckets.len()
            invariant
                band < LSH_NUM_BANDS,
                q <= buckets@.len(),
                is_bucketing(fps@, band as int, fps@.len() as int, keys, buckets@),
                list.wf(),
                all_candidates(fps@, same_tree, list.pairs@),
                keeps(pairs0, list.pairs@),
                forall|p: int|
                    0 <= p < q && buckets@[p]@.len() <= MAX_BUCKET_SIZE ==> covers_bucket(
                        fps@,
                        same_tree,
                        #[trigger] buckets@[p]@,
                        buckets@[p]@.len() as int,
                        list.pairs@,
                    ),
            decreases buckets@.len() - q,
        {
            if buckets[q].len() >= 2 && buckets[q].len() <= MAX_BUCKET_SIZE {
                let ghost before = list.pairs@;
                pair_bucket(
                    fps,
                    same_tree,
                    &buckets[q],
                    &mut list,
                    Ghost(band as int),
                    Ghost(keys[q as int]),
                );
                proof {
                    assert forall|p: int|
                        0 <= p < q && buckets@[p]@.len() <= MAX_BUCKET_SIZE implies covers_bucket(
                        fps@,
                        same_tree,
                        #[trigger] buckets@[p]@,
                        buckets@[p]@.len() as int,
                        list.pairs@,
                    ) by {
                        assert(covers_bucket(
                            fps@,
                            same_tree,
                            buckets@[p]@,
                            buckets@[p]@.len() as int,
                            before,
                        ));
                    }
                }
            }
            q = q + 1;
        }
        proof {
            lemma_band_covered(
                fps@,
                same_tree,
                band as int,
                keys,
                buckets@,
                pairs0,
                list.pairs@,
            );
        }
        band = band + 1;
    }
    proof {
        assert forall|i: int, j: int| #[trigger]
            is_candidate(fps@, same_tree, i, j) implies list.pairs@.contains(
            (i as usize, j as usize),
        ) by {
            let b = choose|b: int|
                0 <= b < LSH_NUM_BANDS && #[trigger] share_bucket(fps@, b, i, j);
            assert(share_bucket(fps@, b, i, j));
        }
    }
    list.pairs
}

/// Files with the same fingerprint, of at least one band, are a candidate pair if
/// nothing else speaks against it: their durations, their places or an overfull bucket.
pub proof fn law_identical_fingerprints_are_candidates(
    fps: Seq<FileFingerprint>,
    same_tree: bool,
    i: int,
    j: int,
    band: int,
)
    requires
        0 <= i < j < fps.len(),
        fps[i].fingerprint@ == fps[j].fingerprint@,
        has_band(fps[i].fingerprint@, band),
        may_pair(fps, same_tree, i, j),
        bucket_members(
            fps,
            band,
            band_hash_of(fps[i].fingerprint@, band),
            fps.len() as int,
        ).len() <= MAX_BUCKET_SIZE,
    ensures
        is_candidate(fps, same_tree, i, j),
{
    assert(share_bucket(fps, band, i, j));
}

/// The hash of no sub-fingerprints is the start of FNV-1a, and each further one is taken in
/// byte by byte, the lowest first: the byte is combined by exclusive or, and the result
/// multiplied modulo 2^64.
pub proof fn law_a_hash_takes_in_four_bytes(band: Seq<u32>, v: u32)
    ensures
        band_hash(Seq::empty()) == 0xcbf2_9ce4_8422_2325u64,
        ({
            let prime: int = 0x100_0000_01b3;
            let m: int = 0x1_0000_0000_0000_0000;
            let h0 = band_hash(band);
            let h1 = ((h0 ^ ((v % 256) as u64)) * prime % m) as u64;
            let h2 = ((h1 ^ ((v / 256 % 256) as u64)) * prime % m) as u64;
            let h3 = ((h2 ^ ((v / 65536 % 256) as u64)) * prime % m) as u64;
            let h4 = ((h3 ^ ((v / 16777216) as u64)) * prime % m) as u64;
            band_hash(band.push(v)) == h4
        }),
{
    let before = crate::database::fingerprint_bytes(band);
    let b = crate::database::le_bytes(v);
    assert(band.push(v).drop_last() =~= band);
    assert(crate::database::fingerprint_bytes(band.push(v)) == before + b);
    assert(before + b.take(0) =~= before);
    assert((before + b.take(1)).drop_last() =~= before + b.take(0));
    assert((before + b.take(2)).drop_last() =~= before + b.take(1));
    assert((before + b.take(3)).drop_last() =~= before + b.take(2));
    assert((before + b).drop_last() =~= before + b.take(3));
    assert(fnv_from(FNV_OFFSET, before + b.take(1)) == fnv_step(band_hash(band), b[0]));
    assert(fnv_from(FNV_OFFSET, before + b.take(2)) == fnv_step(
        fnv_from(FNV_OFFSET, before + b.take(1)),
        b[1],
    ));
    assert(fnv_from(FNV_OFFSET, before + b.take(3)) == fnv_step(
        fnv_from(FNV_OFFSET, before + b.take(2)),
        b[2],
    ));
}

/// The hash of a band rests on its two sub-fingerprints alone, wherever in the first hundred
/// they are and whatever else is in the fingerprints.
pub proof fn law_a_band_is_two_sub_fingerprints(a: Seq<u32>, b: Seq<u32>, k: int)
    requires
        0 <= k < 50,
        2 * k + 2 <= a.len(),
        2 * k + 2 <= b.len(),
        a[2 * k] == b[2 * k],
        a[2 * k + 1] == b[2 * k + 1],
    ensures
        band_hash_of(a, k) == band_hash_of(b, k),
        band_hash_of(a, k) == band_hash(seq![a[2 * k], a[2 * k + 1]]),
{
    let pair = seq![a[2 * k], a[2 * k + 1]];
    assert(a.subrange(k * LSH_ROWS_PER_BAND, (k + 1) * LSH_ROWS_PER_BAND) =~= pair);
    assert(b.subrange(k * LSH_ROWS_PER_BAND, (k + 1) * LSH_ROWS_PER_BAND) =~= pair);
}

/// Both sub-fingerprints of a band count: to change the lowest byte of either one changes the
/// hash.
pub proof fn law_a_band_tells_a_changed_byte(a: Seq<u32>, k: int, at: int, v: u32)
    requires
        0 <= k < 50,
        2 * k + 2 <= a.len(),
        at == 2 * k || at == 2 * k + 1,
        v / 256 == a[at] / 256,
        v != a[at],
    ensures
        band_hash_of(a.update(at, v), k) != band_hash_of(a, k),
{
    let changed = a.update(at, v);
    let x = seq![a[2 * k], a[2 * k + 1]];
    let y = seq![changed[2 * k], changed[2 * k + 1]];
    assert(a.subrange(k * LSH_ROWS_PER_BAND, (k + 1) * LSH_ROWS_PER_BAND) =~= x);
    assert(changed.subrange(k * LSH_ROWS_PER_BAND, (k + 1) * LSH_ROWS_PER_BAND) =~= y);
    let w: u32 = a[at];
    assert(w / 256 % 256 == v / 256 % 256);
    assert(w / 65536 == v / 65536 && w / 16777216 == v / 16777216) by {
        assert(w / 65536 == w / 256 / 256 && v / 65536 == v / 256 / 256);
        assert(w / 16777216 == w / 65536 / 256 && v / 16777216 == v / 65536 / 256);
    }
    assert(w % 256 != v % 256);
    law_band_hash_tells_one_byte_apart(x, y, at - 2 * k, 0);
}

/// A fingerprint has a band for every two of its sub-fingerprints, up to fifty bands.
pub proof fn law_every_pair_makes_a_band(fp: Seq<u32>)
    ensures
        0 <= band_count(fp) <= 50,
        2 * band_count(fp) <= fp.len(),
        band_count(fp) < 50 ==> fp.len() < 2 * band_count(fp) + 2,
{
}

/// A bucket lists the files that are long enough for the band and hash to its key, each once,
/// in ascending order.
pub proof fn law_a_bucket_lists_its_files(
    fps: Seq<FileFingerprint>,
    band: int,
    hash: u64,
    k: int,
)
    requires
        fps.len() <= usize::MAX,
        0 <= band < 50,
        0 <= k < fps.len(),
    ensures
        ({
            let bucket = bucket_members(fps, band, hash, fps.len() as int);
            &&& bucket.contains(k as usize) <==> 2 * band + 2 <= fps[k].fingerprint@.len()
                && band_hash_of(fps[k].fingerprint@, band) == hash
            &&& bucket.len() <= fps.len()
            &&& forall|p: int, q: int|
                0 <= p < q < bucket.len() ==> #[trigger] bucket[p] < #[trigger] bucket[q]
        }),
{
    lemma_bucket_members(fps, band, hash, fps.len() as int);
}

/// Two files whose fingerprints agree in the two sub-fingerprints of any band are a candidate
/// pair, if their durations, their places and the size of the bucket allow it.
pub proof fn law_one_equal_band_makes_a_candidate(
    fps: Seq<FileFingerprint>,
    same_tree: bool,
    i: int,
    j: int,
    k: int,
)
    requires
        0 <= i < j < fps.len(),
        0 <= k < 50,
        2 * k + 2 <= fps[i].fingerprint@.len(),
        2 * k + 2 <= fps[j].fingerprint@.len(),
        fps[i].fingerprint@[2 * k] == fps[j].fingerprint@[2 * k],
        fps[i].fingerprint@[2 * k + 1] == fps[j].fingerprint@[2 * k + 1],
        crate::fingerprint::spec_durations_compatible(
            fps[i].duration_ns as int,
            fps[j].duration_ns as int,
        ),
        same_tree ==> crate::path::spec_shares_root(fps[i].path@, fps[j].path@),
        bucket_members(
            fps,
            k,
            band_hash_of(fps[i].fingerprint@, k),
            fps.len() as int,
        ).len() <= 1000,
    ensures
        is_candidate(fps, same_tree, i, j),
{
    law_a_band_is_two_sub_fingerprints(fps[i].fingerprint@, fps[j].fingerprint@, k);
    assert(share_bucket(fps, k, i, j));
}

/// Among at most a thousand files no bucket is overfull: there, files that agree in a band and
/// whose durations and places allow it are a candidate pair.
pub proof fn law_small_collections_miss_no_equal_band(
    fps: Seq<FileFingerprint>,
    same_tree: bool,
    i: int,
    j: int,
    k: int,
)
    requires
        0 <= i < j < fps.len() <= 1000,
        0 <= k < 50,
        2 * k + 2 <= fps[i].fingerprint@.len(),
        2 * k + 2 <= fps[j].fingerprint@.len(),
        fps[i].fingerprint@[2 * k] == fps[j].fingerprint@[2 * k],
        fps[i].fingerprint@[2 * k + 1] == fps[j].fingerprint@[2 * k + 1],
        crate::fingerprint::spec_durations_compatible(
            fps[i].duration_ns as int,
            fps[j].duration_ns as int,
        ),
        same_tree ==> crate::path::spec_shares_root(fps[i].path@, fps[j].path@),
    ensures
        is_candidate(fps, same_tree, i, j),
{
    lemma_bucket_members(fps, k, band_hash_of(fps[i].fingerprint@, k), fps.len() as int);
    law_one_equal_band_makes_a_candidate(fps, same_tree, i, j, k);
}

/// Candidates are two files of compatible durations, below a common root where that is asked
/// for, that are both long enough for some band and hash to the same bucket of it, which has
/// at most a thousand files.
pub proof fn law_candidates_share_a_band(
    fps: Seq<FileFingerprint>,
    same_tree: bool,
    i: int,
    j: int,
) -> (k: int)
    requires
        is_candidate(fps, same_tree, i, j),
    ensures
        0 <= i < j < fps.len(),
        crate::fingerprint::spec_durations_compatible(
            fps[i].duration_ns as int,
            fps[j].duration_ns as int,
        ),
        same_tree ==> crate::path::spec_shares_root(fps[i].path@, fps[j].path@),
        0 <= k < 50,
        2 * k + 2 <= fps[i].fingerprint@.len(),
        2 * k + 2 <= fps[j].fingerprint@.len(),
        band_hash_of(fps[i].fingerprint@, k) == band_hash_of(fps[j].fingerprint@, k),
        bucket_members(
            fps,
            k,
            band_hash_of(fps[i].fingerprint@, k),
            fps.len() as int,
        ).len() <= 1000,
{
    choose|band: int| 0 <= band < LSH_NUM_BANDS && #[trigger] share_bucket(fps, band, i, j)
}

} // verus!
