//! Acoustic fingerprints: collecting decoded audio, running Chromaprint on it, and
//! comparing the results.

use vstd::prelude::*;

use crate::path::extension;
use crate::text::{concat2, concat3, same_text, to_lowercase};

verus! {

/// How many seconds from the start of a file are fingerprinted unless told otherwise.
pub const DEFAULT_FINGERPRINT_DURATION_SECS: u64 = 120;

/// Nanoseconds in a second, the unit of every duration here.
pub const NANOS_PER_SEC: u64 = 1_000_000_000;

/// Categorized reasons why fingerprinting can fail.
#[derive(Debug)]
pub enum FingerprintError {
    /// File could not be opened (permissions, missing, locked), with the system's reason.
    OpenFailed(String),
    /// Audio format not recognized or file too short/corrupted to probe.
    UnrecognizedFormat(String),
    /// No audio track found in the container (e.g. video-only file).
    NoAudioTrack,
    /// Codec is unsupported or audio data is corrupted.
    DecodeFailed(String),
    /// Fingerprint was empty (file may be silence or too short).
    EmptyFingerprint,
}

/// What an error says to the user.
pub open spec fn error_text(e: FingerprintError) -> Seq<char> {
    match e {
        FingerprintError::OpenFailed(reason) => "could not open file ("@ + reason@ + ")"@,
        FingerprintError::UnrecognizedFormat(detail) =>
            "not a recognized audio format or file is too short/corrupted ("@ + detail@ + ")"@,
        FingerprintError::NoAudioTrack => "no audio track found in file"@,
        FingerprintError::DecodeFailed(detail) => "unsupported or corrupted audio codec ("@
            + detail@ + ")"@,
        FingerprintError::EmptyFingerprint =>
            "could not extract audio content (file may be silence or too short)"@,
    }
}

impl FingerprintError {
    /// The error as a message, with its details.
    pub fn message(&self) -> (r: String)
        ensures
            r@ == error_text(*self),
    {
        match self {
            FingerprintError::OpenFailed(reason) => concat3(
                "could not open file (",
                reason.as_str(),
                ")",
            ),
            FingerprintError::UnrecognizedFormat(detail) => concat3(
                "not a recognized audio format or file is too short/corrupted (",
                detail.as_str(),
                ")",
            ),
            FingerprintError::NoAudioTrack => "no audio track found in file".to_owned(),
            FingerprintError::DecodeFailed(detail) => concat3(
                "unsupported or corrupted audio codec (",
                detail.as_str(),
                ")",
            ),
            FingerprintError::EmptyFingerprint =>
                "could not extract audio content (file may be silence or too short)".to_owned(),
        }
    }
}

/// Result of fingerprinting a single audio file.
#[derive(Debug, Clone)]
pub struct FingerprintResult {
    /// Raw fingerprint as a vector of sub-fingerprints.
    pub fingerprint: Vec<u32>,
    /// Full duration of the audio in nanoseconds, not only of the fingerprinted part.
    pub duration_ns: u64,
}

// --- Comparing ---

/// How many of the bits of `n` are one.
pub open spec fn ones(n: nat) -> nat
    decreases n,
{
    if n == 0 {
        0
    } else {
        n % 2 + ones(n / 2)
    }
}

/// `u32::count_ones`: the number of ones in the binary representation.
pub assume_specification[ u32::count_ones ](x: u32) -> (r: u32)
    ensures
        r == ones(x as nat),
;

proof fn lemma_ones_bound(n: nat, width: nat, limit: nat)
    requires
        n < limit,
        limit == vstd::arithmetic::power2::pow2(width),
    ensures
        ones(n) <= width,
    decreases width,
{
    if width == 0 {
        vstd::arithmetic::power2::lemma2_to64();
    } else {
        vstd::arithmetic::power2::lemma_pow2_unfold(width);
        lemma_ones_bound(n / 2, (width - 1) as nat, limit / 2);
    }
}

proof fn lemma_ones_u32(x: u32)
    ensures
        ones(x as nat) <= 32,
        ones(x as nat) == 0 <==> x == 0,
{
    vstd::arithmetic::power2::lemma2_to64();
    lemma_ones_bound(x as nat, 32, 0x1_0000_0000);
    lemma_ones_zero(x as nat);
}

proof fn lemma_ones_zero(n: nat)
    ensures
        ones(n) == 0 <==> n == 0,
    decreases n,
{
    if n > 0 {
        lemma_ones_zero(n / 2);
    }
}

/// In how many of their 32 bits two sub-fingerprints agree.
pub open spec fn agreeing_bits(a: u32, b: u32) -> int {
    32 - ones((a ^ b) as nat)
}

/// In how many bits the first `n` sub-fingerprints of two fingerprints agree.
pub open spec fn agreeing_bits_upto(a: Seq<u32>, b: Seq<u32>, n: int) -> int
    decreases n,
{
    if n <= 0 {
        0
    } else {
        agreeing_bits_upto(a, b, n - 1) + agreeing_bits(a[n - 1], b[n - 1])
    }
}

/// How many sub-fingerprints two fingerprints have in common positions.
pub open spec fn overlap(a: Seq<u32>, b: Seq<u32>) -> int {
    if a.len() <= b.len() {
        a.len() as int
    } else {
        b.len() as int
    }
}

proof fn lemma_fraction_step(a: int, b: int, c: int, d: int)
    requires
        a >= 0,
        b > 0,
        c >= 0,
        d > 0,
    ensures
        a / b > c / d ==> a * d > c * b,
        a / b < c / d ==> a * d < c * b,
        a / b == c / d ==> (a * d > c * b <==> (a % b) * d > (c % d) * b),
{
    let q1 = a / b;
    let r1 = a % b;
    let q2 = c / d;
    let r2 = c % d;
    vstd::arithmetic::div_mod::lemma_fundamental_div_mod(a, b);
    vstd::arithmetic::div_mod::lemma_fundamental_div_mod(c, d);
    assert(a * d == q1 * (b * d) + r1 * d) by (nonlinear_arith)
        requires
            a == b * q1 + r1,
    ;
    assert(c * b == q2 * (b * d) + r2 * b) by (nonlinear_arith)
        requires
            c == d * q2 + r2,
    ;
    assert(0 <= r1 * d < b * d) by (nonlinear_arith)
        requires
            0 <= r1 < b,
            d > 0,
    ;
    assert(0 <= r2 * b < b * d) by (nonlinear_arith)
        requires
            0 <= r2 < d,
            b > 0,
    ;
    if q1 > q2 {
        assert(q1 * (b * d) >= q2 * (b * d) + b * d) by (nonlinear_arith)
            requires
                q1 >= q2 + 1,
                b * d >= 0,
        ;
    }
    if q1 < q2 {
        assert(q2 * (b * d) >= q1 * (b * d) + b * d) by (nonlinear_arith)
            requires
                q2 >= q1 + 1,
                b * d >= 0,
        ;
    }
}

/// Whether `a / b` is greater than `c / d`, as exact fractions.
fn fraction_exceeds(a: u128, b: u128, c: u128, d: u128) -> (r: bool)
    requires
        b > 0,
        d > 0,
    ensures
        r == (a * d > c * b),
    decreases b + d,
{
    let q1: u128 = a / b;
    let r1: u128 = a % b;
    let q2: u128 = c / d;
    let r2: u128 = c % d;
    proof {
        lemma_fraction_step(a as int, b as int, c as int, d as int);
    }
    if q1 != q2 {
        return q1 > q2;
    }
    if r1 == 0 || r2 == 0 {
        proof {
            assert(r1 * d > r2 * b <==> r1 > 0) by (nonlinear_arith)
                requires
                    r1 == 0 || r2 == 0,
                    b > 0,
                    d > 0,
                    r1 >= 0,
                    r2 >= 0,
            ;
        }
        return r1 > 0;
    }
    proof {
        assert(d * r1 == r1 * d && b * r2 == r2 * b) by (nonlinear_arith);
    }
    fraction_exceeds(d, r2, b, r1)
}

/// A similarity score as a fraction: bits that agree out of bits compared.
/// Nothing compared counts as no similarity.
#[derive(Debug, Clone, Copy, PartialEq, Eq, Structural)]
pub struct Similarity {
    /// Bits that agree.
    pub matching: u128,
    /// Bits that were compared.
    pub total: u128,
}

/// The least similarity that counts as a match, as a fraction.
#[derive(Debug, Clone, Copy, PartialEq, Eq, Structural)]
pub struct Threshold {
    /// Numerator.
    pub numer: u32,
    /// Denominator; zero counts as one.
    pub denom: u32,
}

impl Threshold {
    /// The denominator by which the threshold goes.
    pub open spec fn base(self) -> int {
        if self.denom == 0 {
            1
        } else {
            self.denom as int
        }
    }
}

impl Similarity {
    /// The score of files that share nothing.
    pub open spec fn spec_none() -> Similarity {
        Similarity { matching: 0, total: 0 }
    }

    /// No more bits agree than were compared, and a comparison stays far from the
    /// limits of its type.
    pub open spec fn wf(self) -> bool {
        self.matching <= self.total <= 0x20_0000_0000_0000_0000
    }

    /// The denominator by which the score goes.
    pub open spec fn base(self) -> int {
        if self.total == 0 {
            1
        } else {
            self.total as int
        }
    }

    /// Whether the score reaches `t`.
    pub open spec fn spec_reaches(self, t: Threshold) -> bool {
        self.matching * t.base() >= t.numer * self.base()
    }

    /// Whether this score is higher than `other`.
    pub open spec fn spec_exceeds(self, other: Similarity) -> bool {
        self.matching * other.base() > other.matching * self.base()
    }

    /// Whether every compared bit agrees, and there was something to compare.
    pub open spec fn spec_is_perfect(self) -> bool {
        self.total > 0 && self.matching == self.total
    }

    /// The score of files that share nothing.
    pub fn none() -> (r: Similarity)
        ensures
            r == Similarity::spec_none(),
            r.wf(),
    {
        Similarity { matching: 0, total: 0 }
    }

    /// Whether the score reaches `t`.
    pub fn reaches(&self, t: Threshold) -> (r: bool)
        requires
            self.wf(),
        ensures
            r == self.spec_reaches(t),
    {
        let base: u128 = if self.total == 0 {
            1
        } else {
            self.total
        };
        let t_base: u128 = if t.denom == 0 {
            1
        } else {
            t.denom as u128
        };
        proof {
            assert(self.matching * t_base <= 0x20_0000_0000_0000_0000 * 0xffff_ffff)
                by (nonlinear_arith)
                requires
                    self.matching <= 0x20_0000_0000_0000_0000,
                    t_base <= 0xffff_ffff,
            ;
            assert(t.numer * base <= 0xffff_ffff * 0x20_0000_0000_0000_0000) by (nonlinear_arith)
                requires
                    base <= 0x20_0000_0000_0000_0000,
                    t.numer <= 0xffff_ffff,
            ;
        }
        self.matching * t_base >= t.numer as u128 * base
    }

    /// Whether this score is higher than `other`.
    pub fn exceeds(&self, other: &Similarity) -> (r: bool)
        ensures
            r == self.spec_exceeds(*other),
    {
        let base: u128 = if self.total == 0 {
            1
        } else {
            self.total
        };
        let other_base: u128 = if other.total == 0 {
            1
        } else {
            other.total
        };
        fraction_exceeds(self.matching, base, other.matching, other_base)
    }

    /// Whether every compared bit agrees.
    pub fn is_perfect(&self) -> (r: bool)
        ensures
            r == self.spec_is_perfect(),
    {
        self.total > 0 && self.matching == self.total
    }
}

/// The similarity of two fingerprints over the sub-fingerprints that both have.
pub open spec fn similarity_of(a: Seq<u32>, b: Seq<u32>) -> Similarity {
    Similarity {
        matching: agreeing_bits_upto(a, b, overlap(a, b)) as u128,
        total: (32 * overlap(a, b)) as u128,
    }
}

proof fn lemma_agreeing_bounds(a: Seq<u32>, b: Seq<u32>, n: int)
    requires
        0 <= n <= overlap(a, b),
    ensures
        0 <= agreeing_bits_upto(a, b, n) <= 32 * n,
        agreeing_bits_upto(a, b, n) == 32 * n <==> a.take(n) == b.take(n),
    decreases n,
{
    if n > 0 {
        lemma_agreeing_bounds(a, b, n - 1);
        let x = a[n - 1];
        let y = b[n - 1];
        lemma_ones_u32(x ^ y);
        assert(x ^ y == 0 <==> x == y) by (bit_vector);
        assert(a.take(n) =~= a.take(n - 1).push(x));
        assert(b.take(n) =~= b.take(n - 1).push(y));
        if a.take(n) == b.take(n) {
            assert(a.take(n)[n - 1] == b.take(n)[n - 1]);
            assert(a.take(n - 1) =~= a.take(n).drop_last());
            assert(b.take(n - 1) =~= b.take(n).drop_last());
        }
    } else {
        assert(a.take(0) =~= b.take(0));
    }
}

/// Compares two fingerprints: the bits that agree out of those in the
/// sub-fingerprints that both have.
pub fn compare_fingerprints(fp1: &[u32], fp2: &[u32]) -> (r: Similarity)
    ensures
        r == similarity_of(fp1@, fp2@),
        r.total == 32 * overlap(fp1@, fp2@),
        r.matching == agreeing_bits_upto(fp1@, fp2@, overlap(fp1@, fp2@)),
        r.wf(),
{
    let len: usize = if fp1.len() <= fp2.len() {
        fp1.len()
    } else {
        fp2.len()
    };
    let mut matching: u128 = 0;
    let mut i: usize = 0;
    while i < len
        invariant
            i <= len,
            len == overlap(fp1@, fp2@),
            matching == agreeing_bits_upto(fp1@, fp2@, i as int),
            matching <= 32 * i,
        decreases len - i,
    {
        let differing: u32 = (fp1[i] ^ fp2[i]).count_ones();
        proof {
            lemma_ones_u32(fp1@[i as int] ^ fp2@[i as int]);
        }
        matching = matching + (32 - differing) as u128;
        i = i + 1;
    }
    Similarity { matching, total: 32 * len as u128 }
}

/// A fingerprint compared with itself is a perfect match, unless it is empty.
pub proof fn law_identical_fingerprints_match_perfectly(fp: Seq<u32>)
    requires
        0 < fp.len() <= usize::MAX,
    ensures
        similarity_of(fp, fp).spec_is_perfect(),
{
    lemma_agreeing_bounds(fp, fp, fp.len() as int);
}

/// A score is perfect just where the shorter fingerprint is not empty and starts the longer
/// one.
pub proof fn law_perfect_score_means_common_prefix(a: Seq<u32>, b: Seq<u32>)
    requires
        a.len() <= usize::MAX,
        b.len() <= usize::MAX,
    ensures
        ({
            let shorter = if a.len() <= b.len() {
                a.len() as int
            } else {
                b.len() as int
            };
            let score = similarity_of(a, b);
            score.total > 0 && score.matching == score.total <==> shorter > 0 && a.take(shorter)
                == b.take(shorter)
        }),
{
    lemma_agreeing_bounds(a, b, overlap(a, b));
}

/// Every bit that both fingerprints have is compared: 32 for each sub-fingerprint of the
/// shorter one.
pub proof fn law_every_shared_bit_is_compared(a: Seq<u32>, b: Seq<u32>)
    requires
        a.len() <= usize::MAX,
        b.len() <= usize::MAX,
    ensures
        a.len() <= b.len() ==> similarity_of(a, b).total == 32 * a.len(),
        b.len() <= a.len() ==> similarity_of(a, b).total == 32 * b.len(),
        similarity_of(a, b).matching <= similarity_of(a, b).total,
{
    lemma_agreeing_bounds(a, b, overlap(a, b));
}

proof fn lemma_flipped_ones(x: u32, k: u32)
    requires
        k < 32,
    ensures
        ones((x ^ (1u32 << k)) as nat) == ones(x as nat) + if (x >> k) & 1 == 0 {
            1int
        } else {
            -1int
        },
    decreases k,
{
    let y = x ^ (1u32 << k);
    if k == 0 {
        assert(y / 2 == x / 2 && y % 2 == 1 - x % 2 && (x >> k) & 1 == x % 2) by (bit_vector)
            requires
                k == 0,
                y == x ^ (1u32 << k),
        ;
    } else {
        let j: u32 = (k - 1) as u32;
        let half: u32 = x / 2;
        lemma_flipped_ones(half, j);
        assert(y / 2 == half ^ (1u32 << j) && y % 2 == x % 2 && (x >> k) & 1 == (half >> j) & 1)
            by (bit_vector)
            requires
                0 < k < 32,
                k == j + 1,
                half == x / 2,
                y == x ^ (1u32 << k),
        ;
        assert(ones(y as nat) == (y as nat) % 2 + ones((y / 2) as nat));
        assert(ones(x as nat) == (x as nat) % 2 + ones(half as nat));
    }
    assert(ones(y as nat) == (y as nat) % 2 + ones((y / 2) as nat));
    assert(ones(x as nat) == (x as nat) % 2 + ones((x / 2) as nat));
}

proof fn lemma_updated_agreement(a: Seq<u32>, b: Seq<u32>, i: int, v: u32, n: int)
    requires
        0 <= i < a.len(),
        0 <= n <= a.len(),
    ensures
        agreeing_bits_upto(a.update(i, v), b, n) == agreeing_bits_upto(a, b, n) + if i < n {
            agreeing_bits(v, b[i]) - agreeing_bits(a[i], b[i])
        } else {
            0
        },
    decreases n,
{
    if n > 0 {
        lemma_updated_agreement(a, b, i, v, n - 1);
    }
}

/// Each bit counts once: to flip one that both fingerprints have changes the number of those
/// that agree by one, up where it differed and down where it agreed.
pub proof fn law_a_flipped_bit_counts_once(a: Seq<u32>, b: Seq<u32>, i: int, k: u32)
    requires
        a.len() <= usize::MAX,
        b.len() <= usize::MAX,
        0 <= i < a.len(),
        i < b.len(),
        k < 32,
    ensures
        ({
            let flipped = a.update(i, a[i] ^ (1u32 << k));
            &&& similarity_of(flipped, b).total == similarity_of(a, b).total
            &&& (a[i] >> k) & 1 == (b[i] >> k) & 1 ==> similarity_of(flipped, b).matching
                == similarity_of(a, b).matching - 1
            &&& (a[i] >> k) & 1 != (b[i] >> k) & 1 ==> similarity_of(flipped, b).matching
                == similarity_of(a, b).matching + 1
        }),
{
    let x = a[i];
    let y = b[i];
    let v = x ^ (1u32 << k);
    let flipped = a.update(i, v);
    let n = overlap(a, b);
    assert(v ^ y == (x ^ y) ^ (1u32 << k)) by (bit_vector)
        requires
            v == x ^ (1u32 << k),
    ;
    assert(((x ^ y) >> k) & 1 == 0 <==> (x >> k) & 1 == (y >> k) & 1) by (bit_vector);
    lemma_flipped_ones(x ^ y, k);
    lemma_updated_agreement(a, b, i, v, n);
    lemma_agreeing_bounds(a, b, n);
    lemma_agreeing_bounds(flipped, b, n);
}

/// What lies behind the end of the shorter fingerprint makes no difference.
pub proof fn law_only_what_both_have_is_compared(a: Seq<u32>, b: Seq<u32>, tail: Seq<u32>)
    requires
        a.len() <= b.len(),
        b.len() + tail.len() <= usize::MAX,
    ensures
        similarity_of(a, b + tail) == similarity_of(a, b.take(a.len() as int)),
{
    let n = a.len() as int;
    lemma_agreement_by_prefix(a, b + tail, b.take(n), n);
}

proof fn lemma_agreement_by_prefix(a: Seq<u32>, b: Seq<u32>, c: Seq<u32>, n: int)
    requires
        0 <= n <= a.len(),
        forall|i: int| 0 <= i < n ==> #[trigger] b[i] == c[i],
    ensures
        agreeing_bits_upto(a, b, n) == agreeing_bits_upto(a, c, n),
    decreases n,
{
    if n > 0 {
        lemma_agreement_by_prefix(a, b, c, n - 1);
        assert(b[n - 1] == c[n - 1]);
    }
}

/// A score reaches a threshold just where it is no less as a fraction. Where nothing was
/// compared, it reaches a threshold of zero alone.
pub proof fn law_reaching_compares_fractions(score: Similarity, t: Threshold)
    ensures
        score.total > 0 && t.denom > 0 ==> (score.spec_reaches(t) <==> score.matching * t.denom
            >= t.numer * score.total),
        score.total == 0 && score.matching == 0 ==> (score.spec_reaches(t) <==> t.numer == 0),
{
    if score.total == 0 && score.matching == 0 {
        assert(score.matching * t.base() == 0) by (nonlinear_arith)
            requires
                score.matching == 0,
        ;
    }
}

/// A score is higher than another just where it is greater as a fraction. One of nothing
/// compared is lower than every score with a bit that agrees, and higher than none.
pub proof fn law_exceeding_compares_fractions(a: Similarity, b: Similarity)
    ensures
        a.total > 0 && b.total > 0 ==> (a.spec_exceeds(b) <==> a.matching * b.total > b.matching
            * a.total),
        b.total == 0 && b.matching == 0 ==> (a.spec_exceeds(b) <==> a.matching > 0),
        a.total == 0 && a.matching == 0 ==> !a.spec_exceeds(b),
{
    if b.total == 0 && b.matching == 0 {
        assert(b.matching * a.base() == 0) by (nonlinear_arith)
            requires
                b.matching == 0,
        ;
    }
    if a.total == 0 && a.matching == 0 {
        assert(a.matching * b.base() == 0) by (nonlinear_arith)
            requires
                a.matching == 0,
        ;
        assert(b.matching * a.base() >= 0) by (nonlinear_arith)
            requires
                b.matching >= 0,
                a.base() > 0,
        ;
    }
}

/// An empty fingerprint is similar to none.
pub proof fn law_empty_fingerprint_is_not_similar(a: Seq<u32>, b: Seq<u32>)
    requires
        a.len() == 0 || b.len() == 0,
    ensures
        similarity_of(a, b) == Similarity::spec_none(),
{
}

proof fn lemma_agreeing_symmetric(a: Seq<u32>, b: Seq<u32>, n: int)
    requires
        0 <= n <= overlap(a, b),
    ensures
        agreeing_bits_upto(a, b, n) == agreeing_bits_upto(b, a, n),
    decreases n,
{
    if n > 0 {
        lemma_agreeing_symmetric(a, b, n - 1);
        let x = a[n - 1];
        let y = b[n - 1];
        assert(x ^ y == y ^ x) by (bit_vector);
    }
}

/// The order of the two fingerprints makes no difference.
pub proof fn law_similarity_is_symmetric(a: Seq<u32>, b: Seq<u32>)
    ensures
        similarity_of(a, b) == similarity_of(b, a),
{
    lemma_agreeing_symmetric(a, b, overlap(a, b));
}

/// Difference in nanoseconds that is always tolerated: three seconds.
pub const DURATION_TOLERANCE_NS: u64 = 3_000_000_000;

/// Whether two durations can be those of the same recording: they differ by at
/// most three seconds or five percent of the longer one. Zero means unknown.
pub open spec fn spec_durations_compatible(dur1: int, dur2: int) -> bool {
    let longer = if dur1 >= dur2 {
        dur1
    } else {
        dur2
    };
    let shorter = if dur1 >= dur2 {
        dur2
    } else {
        dur1
    };
    ||| dur1 <= 0
    ||| dur2 <= 0
    ||| longer - shorter <= DURATION_TOLERANCE_NS
    ||| 20 * (longer - shorter) <= longer
}

/// Whether two durations in nanoseconds are compatible.
pub fn durations_compatible(dur1: u64, dur2: u64) -> (r: bool)
    ensures
        r == spec_durations_compatible(dur1 as int, dur2 as int),
{
    if dur1 == 0 || dur2 == 0 {
        return true;
    }
    let (longer, shorter): (u64, u64) = if dur1 >= dur2 {
        (dur1, dur2)
    } else {
        (dur2, dur1)
    };
    let diff: u64 = longer - shorter;
    diff <= DURATION_TOLERANCE_NS || diff <= longer / 20
}

/// Which of two durations comes first makes no difference.
pub proof fn law_durations_compatible_symmetric(dur1: int, dur2: int)
    ensures
        spec_durations_compatible(dur1, dur2) == spec_durations_compatible(dur2, dur1),
{
}

/// Two known durations are compatible just where the longer one exceeds the other by at most
/// three seconds, or by at most a twentieth of itself. An unknown one is with every other.
pub proof fn law_durations_may_differ_a_little(shorter: int, longer: int)
    requires
        shorter <= longer,
    ensures
        shorter <= 0 ==> spec_durations_compatible(shorter, longer),
        shorter > 0 ==> (spec_durations_compatible(shorter, longer) <==> (longer
            <= shorter + 3_000_000_000 || 19 * longer <= 20 * shorter)),
        spec_durations_compatible(longer, shorter) == spec_durations_compatible(shorter, longer),
{
}

/// The closer two durations are, the sooner they are compatible.
pub proof fn law_closer_durations_stay_compatible(shorter: int, between: int, longer: int)
    requires
        0 < shorter <= between <= longer,
        spec_durations_compatible(shorter, longer),
    ensures
        spec_durations_compatible(shorter, between),
        spec_durations_compatible(between, longer),
{
}

// --- MP4 containers ---

/// Whether a lowercase extension is one of an MP4 container. Raw AAC is not.
pub open spec fn is_mp4_extension(ext: Seq<char>) -> bool {
    ext == "m4a"@ || ext == "m4b"@ || ext == "m4p"@ || ext == "mp4"@ || ext == "mov"@
}

/// Whether `ext` is one of an MP4 container.
pub fn mp4_extension(ext: &str) -> (r: bool)
    ensures
        r == is_mp4_extension(ext@),
{
    same_text(ext, "m4a") || same_text(ext, "m4b") || same_text(ext, "m4p") || same_text(ext, "mp4")
        || same_text(ext, "mov")
}

/// Whether `path` names an MP4 container, by its extension in any letter case.
pub fn is_mp4_container(path: &str) -> (r: bool)
    ensures
        r == match crate::path::path_extension(path@) {
            Some(ext) => is_mp4_extension(crate::text::unicode_lowercase(ext)),
            None => false,
        },
        match crate::path::path_extension(path@) {
            Some(ext) => vstd::utf8::is_ascii_chars(ext) ==> r == is_mp4_extension(
                crate::text::ascii_lowered(ext),
            ),
            None => !r,
        },
{
    match extension(path) {
        Some(ext) => mp4_extension(to_lowercase(ext.as_str()).as_str()),
        None => false,
    }
}

/// The extensions of MP4 containers are those of audio, audio books, protected audio, video and
/// QuickTime.
pub proof fn law_mp4_extensions(ext: Seq<char>)
    ensures
        is_mp4_extension(ext) <==> (ext == "m4a"@ || ext == "m4b"@ || ext == "m4p"@ || ext
            == "mp4"@ || ext == "mov"@),
        !is_mp4_extension("aac"@),
{
    reveal_strlit("aac");
    reveal_strlit("m4a");
    reveal_strlit("m4b");
    reveal_strlit("m4p");
    reveal_strlit("mp4");
    reveal_strlit("mov");
    assert("aac"@[0] == 'a');
}

// --- Collecting decoded audio ---

/// The highest sample rate that Chromaprint's resampler can represent.
pub const MAX_SAMPLE_RATE: u32 = 8_388_607;

/// What the container says of the audio of a track.
#[derive(Debug, Clone, Copy)]
pub struct AudioParams {
    /// Samples per second and channel.
    pub sample_rate: Option<u32>,
    /// Number of channels.
    pub channels: Option<usize>,
    /// Bits of a sample, where the codec has a fixed size.
    pub bits_per_sample: Option<u32>,
}

/// What the container says of a track.
#[derive(Debug, Clone, Copy)]
pub struct TrackInfo {
    /// Number of the track, as its packets carry it.
    pub id: u32,
    /// Parameters of its audio codec, where it is an audio track.
    pub audio: Option<AudioParams>,
    /// Length of a time unit as a fraction of a second: numerator and denominator.
    pub time_base: Option<(u32, u32)>,
    /// Length of the track in time units.
    pub duration: Option<u64>,
    /// Length of the track in frames.
    pub num_frames: Option<u64>,
}

/// The audio stream that is to be fingerprinted.
#[derive(Debug, Clone, Copy, PartialEq, Eq, Structural)]
pub struct AudioStream {
    /// Number of the track, as its packets carry it.
    pub track_id: u32,
    /// Samples per second and channel.
    pub sample_rate: u32,
    /// Number of channels.
    pub channels: usize,
    /// Length of the track in nanoseconds, where the container gives it.
    pub duration_ns: Option<u64>,
}

/// `count` units of `numer / denom` seconds in whole nanoseconds, as far as they
/// can be represented. A unit without a denominator is endless.
pub open spec fn units_to_ns(count: int, numer: int, denom: int) -> int {
    let product = count * numer * NANOS_PER_SEC;
    if product == 0 {
        0
    } else if denom == 0 || product / denom > u64::MAX {
        u64::MAX as int
    } else {
        product / denom
    }
}

/// `count` units of `numer / denom` seconds in nanoseconds.
pub fn to_nanoseconds(count: u64, numer: u32, denom: u32) -> (r: u64)
    ensures
        r == units_to_ns(count as int, numer as int, denom as int),
{
    proof {
        assert(0 <= count * numer <= 0xffff_ffff_ffff_ffff * 0xffff_ffff) by (nonlinear_arith)
            requires
                0 <= count <= 0xffff_ffff_ffff_ffff,
                0 <= numer <= 0xffff_ffff,
        ;
    }
    let units: u128 = count as u128 * numer as u128;
    let product: u128 = units * 1_000_000_000;
    if product == 0 {
        return 0;
    }
    if denom == 0 {
        return u64::MAX;
    }
    let whole: u128 = product / denom as u128;
    if whole > u64::MAX as u128 {
        u64::MAX
    } else {
        whole as u64
    }
}

/// The nanoseconds of some units are as many as fit in their time, and none is left out.
/// What cannot be represented stops at the largest number.
pub proof fn law_units_are_whole_nanoseconds(count: int, numer: int, denom: int)
    requires
        0 <= count,
        0 <= numer,
        0 < denom,
    ensures
        ({
            let ns = units_to_ns(count, numer, denom);
            &&& 0 <= ns <= u64::MAX
            &&& ns < u64::MAX ==> ns * denom <= count * numer * 1_000_000_000 < (ns + 1) * denom
            &&& ns == u64::MAX ==> u64::MAX * denom <= count * numer * 1_000_000_000
        }),
{
    let product = count * numer * 1_000_000_000;
    assert(product >= 0) by (nonlinear_arith)
        requires
            product == count * numer * 1_000_000_000,
            count >= 0,
            numer >= 0,
    ;
    vstd::arithmetic::div_mod::lemma_fundamental_div_mod(product, denom);
    let q = product / denom;
    let r = product % denom;
    assert(q * denom <= product < (q + 1) * denom && (q > u64::MAX ==> u64::MAX * denom <= product)
        && q >= 0) by (nonlinear_arith)
        requires
            product == denom * q + r,
            0 <= r < denom,
            product >= 0,
    ;
}

/// As many units as make `seconds` last that long.
pub proof fn law_units_of_whole_seconds(seconds: int, denom: int)
    requires
        0 <= seconds <= 0xffff_ffff,
        0 < denom,
    ensures
        units_to_ns(seconds * denom, 1, denom) == seconds * 1_000_000_000,
{
    let product = seconds * denom * 1 * 1_000_000_000;
    assert(product == (seconds * 1_000_000_000) * denom) by (nonlinear_arith)
        requires
            product == seconds * denom * 1 * 1_000_000_000,
    ;
    vstd::arithmetic::div_mod::lemma_div_multiples_vanish(seconds * 1_000_000_000, denom);
    assert(denom * (seconds * 1_000_000_000) == (seconds * 1_000_000_000) * denom)
        by (nonlinear_arith);
    assert(product == 0 ==> seconds == 0) by (nonlinear_arith)
        requires
            product == (seconds * 1_000_000_000) * denom,
            denom > 0,
    ;
}

/// A track is as long as its time base says, whatever its frames; without one, it lasts its
/// frames at the sample rate; without frames its length is not known.
pub proof fn law_track_duration_is_that_of_the_container(track: TrackInfo, sample_rate: u32)
    ensures
        track.time_base matches Some(base) ==> track.duration matches Some(units)
            ==> track_duration(track, sample_rate) == Some(
            units_to_ns(units as int, base.0 as int, base.1 as int),
        ),
        (track.time_base is None || track.duration is None) && track.num_frames is Some
            ==> track_duration(track, sample_rate) == Some(
            units_to_ns(track.num_frames->0 as int, 1, sample_rate as int),
        ),
        (track.time_base is None || track.duration is None) && track.num_frames is None
            ==> track_duration(track, sample_rate) is None,
{
}

/// The length of a track: by its time base, else by its frames.
pub open spec fn track_duration(track: TrackInfo, sample_rate: u32) -> Option<int> {
    match (track.time_base, track.duration) {
        (Some(base), Some(duration)) => Some(
            units_to_ns(duration as int, base.0 as int, base.1 as int),
        ),
        _ => match track.num_frames {
            Some(frames) => Some(units_to_ns(frames as int, 1, sample_rate as int)),
            None => None,
        },
    }
}

/// The length of `track` in nanoseconds, where the container gives it.
pub fn get_track_duration(track: &TrackInfo, sample_rate: u32) -> (r: Option<u64>)
    ensures
        r is Some == track_duration(*track, sample_rate) is Some,
        r is Some ==> r->0 == track_duration(*track, sample_rate)->0,
{
    match (track.time_base, track.duration) {
        (Some(base), Some(duration)) => Some(to_nanoseconds(duration, base.0, base.1)),
        _ => match track.num_frames {
            Some(frames) => Some(to_nanoseconds(frames, 1, sample_rate)),
            None => None,
        },
    }
}

/// Whether `e` is the decoding error with this detail.
pub open spec fn is_decode_failure(e: FingerprintError, detail: Seq<char>) -> bool {
    e is DecodeFailed && e->DecodeFailed_0@ == detail
}

/// The audio stream of the default audio track. Without a channel count it is stereo.
pub fn audio_stream(track: Option<TrackInfo>) -> (r: Result<AudioStream, FingerprintError>)
    ensures
        match track {
            None => r is Err && r->Err_0 is NoAudioTrack,
            Some(t) => match t.audio {
                None => r is Err && is_decode_failure(r->Err_0, "no audio codec params"@),
                Some(audio) => match audio.sample_rate {
                    None => r is Err && is_decode_failure(r->Err_0, "unknown sample rate"@),
                    Some(rate) => r is Ok && {
                        &&& r->Ok_0.track_id == t.id
                        &&& r->Ok_0.sample_rate == rate
                        &&& r->Ok_0.channels == (match audio.channels {
                            Some(n) => n,
                            None => 2,
                        })
                        &&& r->Ok_0.duration_ns is Some == track_duration(t, rate) is Some
                        &&& r->Ok_0.duration_ns is Some ==> r->Ok_0.duration_ns->0
                            == track_duration(t, rate)->0
                    },
                },
            },
        },
{
    match track {
        None => Err(FingerprintError::NoAudioTrack),
        Some(t) => match t.audio {
            None => Err(FingerprintError::DecodeFailed("no audio codec params".to_owned())),
            Some(audio) => match audio.sample_rate {
                None => Err(FingerprintError::DecodeFailed("unknown sample rate".to_owned())),
                Some(sample_rate) => {
                    let channels: usize = match audio.channels {
                        Some(n) => n,
                        None => 2,
                    };
                    let duration_ns = get_track_duration(&t, sample_rate);
                    Ok(AudioStream { track_id: t.id, sample_rate, channels, duration_ns })
                },
            },
        },
    }
}

/// What `chromaprint::fingerprint_audio` says when it refuses a stream.
pub open spec fn start_refusal(sample_rate: u32, channels: u16) -> Option<Seq<char>> {
    if channels == 0 {
        Some("invalid channel count: 0 (must be >= 1)"@)
    } else if sample_rate <= 1000 {
        Some(
            "invalid sample rate: "@ + crate::text::decimal_text(sample_rate as nat)
                + " (must be > 1000)"@,
        )
    } else {
        None
    }
}

/// Whether `chromaprint::fingerprint_audio` gives a raw fingerprint for a stream on some
/// machine.
pub uninterp spec fn possible_fingerprint(
    samples: Seq<i16>,
    sample_rate: u32,
    channels: u16,
    raw: Seq<u32>,
) -> bool;

/// `chromaprint::fingerprint_audio` with the default algorithm: the raw fingerprint of
/// interleaved samples. It refuses a stream without channels or with a sample rate of
/// at most 1000, with the crate's message; every other stream has a fingerprint, and no
/// samples have an empty one. What the fingerprint is otherwise rests on floating-point
/// transforms chosen for the machine: it is one of those possible for the stream, and
/// which one is left unsaid.
#[verifier::external_body]
fn chromaprint_of(samples: &[i16], sample_rate: u32, channels: u16) -> (r: Result<Vec<u32>, String>)
    requires
        sample_rate <= MAX_SAMPLE_RATE,
        channels > 0 ==> samples@.len() % channels as nat == 0,
    ensures
        r is Err == start_refusal(sample_rate, channels) is Some,
        r is Err ==> r->Err_0@ == start_refusal(sample_rate, channels)->0,
        r is Ok ==> possible_fingerprint(samples@, sample_rate, channels, r->Ok_0@),
        r is Ok && samples@.len() == 0 ==> r->Ok_0@.len() == 0,
{
    let algorithm = chromaprint::Algorithm::default();
    match chromaprint::fingerprint_audio(samples, sample_rate, channels, algorithm) {
        Ok(printed) => Ok(printed.raw),
        Err(e) => Err(e.to_string()),
    }
}

/// What reading the next packet of the container came to.
#[derive(Debug)]
pub enum ReadEvent {
    /// A packet of the track with this number.
    Packet(u32),
    /// The end of the stream.
    EndOfStream,
    /// The file ended in the middle of something.
    UnexpectedEof,
    /// The container is malformed here and cannot be read any further.
    Malformed(String),
    /// Any other failure, with its message.
    Failed(String),
}

/// What to do about a packet.
#[derive(Debug)]
pub enum ReadAction {
    /// Decode it.
    Decode,
    /// Leave it and read the next one.
    Skip,
    /// Stop reading; the audio so far is fingerprinted.
    Finish,
    /// Give up.
    Fail(FingerprintError),
}

/// What decoding a packet came to.
#[derive(Debug)]
pub enum DecodeEvent {
    /// A buffer of this many frames with its interleaved samples, which are missing
    /// where they could not be converted.
    Buffer(usize, Option<Vec<i16>>),
    /// The packet is malformed.
    Malformed,
    /// Any other failure, with its message.
    Failed(String),
}

/// What to do after a packet was decoded.
#[derive(Debug)]
pub enum DecodeAction {
    /// Read the next packet.
    Continue,
    /// Stop reading; the audio so far is fingerprinted.
    Finish,
    /// Give up.
    Fail(FingerprintError),
}

/// How far a decoding session has come.
pub struct SessionState {
    /// The samples to fingerprint.
    pub samples: Seq<i16>,
    /// How many samples were decoded.
    pub total: int,
    /// Whether the part to fingerprint is complete.
    pub complete: bool,
}

/// Decodes an audio stream packet by packet, up to the part that is fingerprinted
/// and, where the container does not give its length, to its end.
pub struct DecodeSession {
    stream: AudioStream,
    max_samples: u128,
    total_samples: u64,
    complete: bool,
    samples: Vec<i16>,
}

/// A sum that stops at the largest 64-bit number.
pub open spec fn saturating_total(a: int, b: int) -> int {
    if a + b > u64::MAX {
        u64::MAX as int
    } else {
        a + b
    }
}

/// The samples of the whole frames in `samples`.
pub open spec fn whole_frames(samples: Seq<i16>, channels: u16) -> Seq<i16> {
    samples.take(samples.len() - samples.len() as int % channels as int)
}

impl DecodeSession {
    /// The stream that is decoded.
    pub closed spec fn spec_stream(&self) -> AudioStream {
        self.stream
    }

    /// How many samples complete the part to fingerprint.
    pub closed spec fn spec_max_samples(&self) -> int {
        self.max_samples as int
    }

    /// How far the session has come.
    pub closed spec fn state(&self) -> SessionState {
        SessionState {
            samples: self.samples@,
            total: self.total_samples as int,
            complete: self.complete,
        }
    }

    /// The channel count that Chromaprint is given.
    pub open spec fn print_channels(&self) -> u16 {
        (self.spec_stream().channels as int % 0x1_0000) as u16
    }

    /// Chromaprint takes the stream, and the samples are whole frames.
    pub open spec fn wf(&self) -> bool {
        &&& self.spec_stream().sample_rate <= MAX_SAMPLE_RATE
        &&& start_refusal(self.spec_stream().sample_rate, self.print_channels()) is None
        &&& self.state().samples.len() as int % self.print_channels() as int == 0
    }

    /// Starts on `stream`, of which the first `max_duration_secs` seconds are fingerprinted.
    pub fn start(stream: AudioStream, max_duration_secs: u64) -> (r: Result<
        DecodeSession,
        FingerprintError,
    >)
        requires
            stream.sample_rate <= MAX_SAMPLE_RATE,
            max_duration_secs * stream.sample_rate * stream.channels <= u128::MAX,
        ensures
            match start_refusal(stream.sample_rate, (stream.channels as int % 0x1_0000) as u16) {
                Some(reason) => r is Err && is_decode_failure(
                    r->Err_0,
                    "fingerprinter start: "@ + reason,
                ),
                None => r is Ok && {
                    &&& r->Ok_0.wf()
                    &&& r->Ok_0.spec_stream() == stream
                    &&& r->Ok_0.spec_max_samples() == max_duration_secs * stream.sample_rate
                        * stream.channels
                    &&& r->Ok_0.state() == (SessionState {
                        samples: seq![],
                        total: 0,
                        complete: false,
                    })
                },
            },
    {
        let channels: u16 = (stream.channels % 0x1_0000) as u16;
        let nothing: Vec<i16> = Vec::new();
        proof {
            if channels > 0 {
                vstd::arithmetic::div_mod::lemma_small_mod(0, channels as nat);
            }
        }
        match chromaprint_of(&nothing, stream.sample_rate, channels) {
            Err(reason) => {
                let detail = concat2("fingerprinter start: ", reason.as_str());
                Err(FingerprintError::DecodeFailed(detail))
            },
            Ok(_) => {
                proof {
                    assert(max_duration_secs * stream.sample_rate <= u128::MAX) by (nonlinear_arith)
                        requires
                            0 <= max_duration_secs <= 0xffff_ffff_ffff_ffff,
                            0 <= stream.sample_rate <= 0xffff_ffff,
                    ;
                }
                let max_samples: u128 = max_duration_secs as u128 * stream.sample_rate as u128
                    * stream.channels as u128;
                Ok(
                    DecodeSession {
                        stream,
                        max_samples,
                        total_samples: 0,
                        complete: false,
                        samples: nothing,
                    },
                )
            },
        }
    }

    /// What to do about the outcome of reading a packet.
    pub fn on_read(&self, event: ReadEvent) -> (r: ReadAction)
        ensures
            match event {
                ReadEvent::Packet(track) => if track == self.spec_stream().track_id {
                    r is Decode
                } else {
                    r is Skip
                },
                ReadEvent::EndOfStream => r is Finish,
                ReadEvent::UnexpectedEof => r is Finish,
                ReadEvent::Malformed(_) => r is Finish,
                ReadEvent::Failed(message) => r is Fail && is_decode_failure(r->Fail_0, message@),
            },
    {
        match event {
            ReadEvent::Packet(track) => if track == self.stream.track_id {
                ReadAction::Decode
            } else {
                ReadAction::Skip
            },
            ReadEvent::EndOfStream => ReadAction::Finish,
            ReadEvent::UnexpectedEof => ReadAction::Finish,
            ReadEvent::Malformed(_) => ReadAction::Finish,
            ReadEvent::Failed(message) => ReadAction::Fail(FingerprintError::DecodeFailed(message)),
        }
    }

    /// How a buffer changes the state. Until the part to fingerprint is complete its
    /// samples are kept, in whole frames; from then on its frames are only counted.
    pub open spec fn after_buffer(
        &self,
        frames: usize,
        samples: Option<Seq<i16>>,
    ) -> SessionState {
        let now = self.state();
        if now.complete {
            SessionState {
                total: saturating_total(now.total, frames * self.spec_stream().channels),
                ..now
            }
        } else if frames == 0 || samples is None {
            now
        } else {
            let total = saturating_total(now.total, samples->0.len() as int);
            SessionState {
                samples: now.samples + whole_frames(samples->0, self.print_channels()),
                total,
                complete: total >= self.spec_max_samples(),
            }
        }
    }

    /// Takes in the outcome of decoding a packet.
    pub fn on_decoded(&mut self, event: DecodeEvent) -> (r: DecodeAction)
        requires
            old(self).wf(),
        ensures
            final(self).wf(),
            final(self).spec_stream() == old(self).spec_stream(),
            final(self).spec_max_samples() == old(self).spec_max_samples(),
            match event {
                DecodeEvent::Malformed => r is Continue && final(self).state() == old(
                    self,
                ).state(),
                DecodeEvent::Failed(message) => r is Fail && is_decode_failure(
                    r->Fail_0,
                    message@,
                ) && final(self).state() == old(self).state(),
                DecodeEvent::Buffer(frames, samples) => {
                    &&& final(self).state() == old(self).after_buffer(
                        frames,
                        match samples {
                            Some(s) => Some(s@),
                            None => None,
                        },
                    )
                    &&& r is Continue || r is Finish
                    &&& r is Finish <==> final(self).state().complete && !old(
                        self,
                    ).state().complete && old(self).spec_stream().duration_ns is Some
                },
            },
    {
        let (frames, samples) = match event {
            DecodeEvent::Malformed => {
                return DecodeAction::Continue;
            },
            DecodeEvent::Failed(message) => {
                return DecodeAction::Fail(FingerprintError::DecodeFailed(message));
            },
            DecodeEvent::Buffer(frames, samples) => (frames, samples),
        };
        if self.complete {
            proof {
                assert(0 <= frames * self.stream.channels <= 0xffff_ffff_ffff_ffff
                    * 0xffff_ffff_ffff_ffff) by (nonlinear_arith)
                    requires
                        0 <= frames <= 0xffff_ffff_ffff_ffff,
                        0 <= self.stream.channels <= 0xffff_ffff_ffff_ffff,
                ;
            }
            let counted: u128 = frames as u128 * self.stream.channels as u128;
            let room: u128 = (u64::MAX - self.total_samples) as u128;
            self.total_samples = if counted > room {
                u64::MAX
            } else {
                self.total_samples + counted as u64
            };
            return DecodeAction::Continue;
        }
        let heard = match samples {
            None => {
                return DecodeAction::Continue;
            },
            Some(heard) => heard,
        };
        if frames == 0 {
            return DecodeAction::Continue;
        }
        let channels: u16 = (self.stream.channels % 0x1_0000) as u16;
        proof {
            vstd::arithmetic::div_mod::lemma_mod_decreases(heard@.len(), channels as nat);
        }
        let kept: usize = heard.len() - heard.len() % channels as usize;
        let ghost before = self.samples@;
        let mut i: usize = 0;
        while i < kept
            invariant
                i <= kept <= heard@.len(),
                self.samples@ == before + heard@.take(i as int),
                self.stream == old(self).stream,
                self.max_samples == old(self).max_samples,
                self.total_samples == old(self).total_samples,
                self.complete == old(self).complete,
            decreases kept - i,
        {
            self.samples.push(heard[i]);
            proof {
                assert(self.samples@ =~= before + heard@.take(i + 1));
            }
            i = i + 1;
        }
        proof {
            let c = channels as int;
            assert(kept as int % c == 0) by {
                vstd::arithmetic::div_mod::lemma_fundamental_div_mod(heard@.len() as int, c);
                vstd::arithmetic::div_mod::lemma_mod_multiples_basic(heard@.len() as int / c, c);
                assert(kept == c * (heard@.len() as int / c));
                assert(kept == (heard@.len() as int / c) * c) by (nonlinear_arith)
                    requires
                        kept == c * (heard@.len() as int / c),
                ;
            }
            vstd::arithmetic::div_mod::lemma_add_mod_noop(before.len() as int, kept as int, c);
            vstd::arithmetic::div_mod::lemma_small_mod(0, c as nat);
            assert(self.samples@.len() as int % c == 0);
            assert(self.samples@ =~= before + whole_frames(heard@, channels));
        }
        let length: u64 = heard.len() as u64;
        self.total_samples = if length > u64::MAX - self.total_samples {
            u64::MAX
        } else {
            self.total_samples + length
        };
        if self.total_samples as u128 >= self.max_samples {
            self.complete = true;
            if self.stream.duration_ns.is_some() {
                return DecodeAction::Finish;
            }
        }
        DecodeAction::Continue
    }

    /// The duration of the stream: what the container says, else what was counted.
    pub open spec fn spec_duration(&self) -> int {
        match self.spec_stream().duration_ns {
            Some(ns) => ns as int,
            None => {
                let whole = self.state().total * NANOS_PER_SEC / (self.spec_stream().sample_rate
                    * self.spec_stream().channels);
                if whole > u64::MAX {
                    u64::MAX as int
                } else {
                    whole
                }
            },
        }
    }

    /// The duration of the stream in nanoseconds.
    pub fn duration(&self) -> (r: u64)
        requires
            self.wf(),
        ensures
            r == self.spec_duration(),
    {
        match self.stream.duration_ns {
            Some(ns) => ns,
            None => {
                proof {
                    assert(self.stream.channels as int >= 1);
                    assert(1 <= self.stream.sample_rate * self.stream.channels
                        <= 0xffff_ffff_ffff_ffff * 0xffff_ffff) by (nonlinear_arith)
                        requires
                            1 <= self.stream.sample_rate <= 0xffff_ffff,
                            1 <= self.stream.channels <= 0xffff_ffff_ffff_ffff,
                    ;
                }
                let per_second: u128 = self.stream.sample_rate as u128
                    * self.stream.channels as u128;
                let total: u128 = self.total_samples as u128;
                let units: u128 = total * 1_000_000_000;
                let whole: u128 = units / per_second;
                if whole > u64::MAX as u128 {
                    u64::MAX
                } else {
                    whole as u64
                }
            },
        }
    }

    /// Whether a raw fingerprint is possible for what was decoded.
    pub open spec fn may_print(&self, raw: Seq<u32>) -> bool {
        possible_fingerprint(
            self.state().samples,
            self.spec_stream().sample_rate,
            self.print_channels(),
            raw,
        )
    }

    /// Fingerprints what was decoded. There is no result without audio content.
    pub fn finish(&self) -> (r: Result<FingerprintResult, FingerprintError>)
        requires
            self.wf(),
        ensures
            r is Ok ==> r->Ok_0.fingerprint@.len() > 0 && r->Ok_0.duration_ns
                == self.spec_duration() && self.may_print(r->Ok_0.fingerprint@),
            r is Err ==> r->Err_0 is EmptyFingerprint && self.may_print(Seq::empty()),
            self.state().samples.len() == 0 ==> r is Err,
    {
        let channels: u16 = (self.stream.channels % 0x1_0000) as u16;
        match chromaprint_of(&self.samples, self.stream.sample_rate, channels) {
            Ok(raw) => {
                proof {
                    if raw@.len() == 0 {
                        assert(raw@ =~= Seq::empty());
                    }
                }
                fingerprint_result(raw, self.duration())
            },
            Err(_) => Err(FingerprintError::EmptyFingerprint),
        }
    }
}

/// Audio behind the part to fingerprint changes the counted duration alone.
pub proof fn law_later_audio_only_counts(
    session: DecodeSession,
    frames: usize,
    samples: Option<Seq<i16>>,
)
    requires
        session.state().complete,
    ensures
        session.after_buffer(frames, samples).samples == session.state().samples,
        session.after_buffer(frames, samples).complete,
        session.after_buffer(frames, samples).total == saturating_total(
            session.state().total,
            frames * session.spec_stream().channels,
        ),
{
}

/// Until the part to fingerprint is complete, a buffer of whole frames is kept as it is and
/// counted, and the part is complete once as many samples were counted as it takes.
pub proof fn law_early_audio_is_kept(session: DecodeSession, frames: usize, heard: Seq<i16>)
    requires
        !session.state().complete,
        frames > 0,
        0 < session.spec_stream().channels < 0x1_0000,
        heard.len() == frames * session.spec_stream().channels,
        session.state().total + heard.len() <= u64::MAX,
    ensures
        ({
            let before = session.state();
            let after = session.after_buffer(frames, Some(heard));
            &&& after.samples == before.samples + heard
            &&& after.total == before.total + heard.len()
            &&& after.complete <==> after.total >= session.spec_max_samples()
        }),
{
    let c = session.spec_stream().channels as int;
    vstd::arithmetic::div_mod::lemma_mod_multiples_basic(frames as int, c);
    vstd::arithmetic::div_mod::lemma_small_mod(c as nat, 0x1_0000);
    assert(session.print_channels() == c);
    assert(whole_frames(heard, session.print_channels()) =~= heard);
}

/// A frame that is cut off is not kept: what is kept of a buffer is the longest part of it
/// that is whole frames. A buffer without frames or without samples changes nothing.
pub proof fn law_broken_audio_is_left_out(session: DecodeSession, frames: usize, heard: Seq<i16>)
    requires
        !session.state().complete,
        0 < session.spec_stream().channels < 0x1_0000,
    ensures
        session.after_buffer(frames, None) == session.state(),
        session.after_buffer(0, Some(heard)) == session.state(),
        frames > 0 ==> {
            let c = session.spec_stream().channels as int;
            let before = session.state().samples;
            let after = session.after_buffer(frames, Some(heard)).samples;
            let kept = after.len() - before.len();
            &&& 0 <= kept <= heard.len() < kept + c
            &&& kept % c == 0
            &&& after == before + heard.take(kept)
        },
{
    let c = session.spec_stream().channels as int;
    let n = heard.len() as int;
    vstd::arithmetic::div_mod::lemma_small_mod(c as nat, 0x1_0000);
    assert(session.print_channels() == c);
    vstd::arithmetic::div_mod::lemma_fundamental_div_mod(n, c);
    vstd::arithmetic::div_mod::lemma_mod_decreases(n as nat, c as nat);
    vstd::arithmetic::div_mod::lemma_mod_multiples_basic(n / c, c);
    assert(n - n % c == (n / c) * c) by (nonlinear_arith)
        requires
            n == c * (n / c) + n % c,
    ;
}

/// Where the container gives no length, the duration is that of the audio that was heard: as
/// many nanoseconds as fit in the time of its frames, up to the largest number. Where it gives
/// one, that is the duration.
pub proof fn law_duration_is_that_of_the_frames(session: DecodeSession)
    requires
        session.spec_stream().sample_rate > 0,
        session.spec_stream().channels > 0,
    ensures
        ({
            let ns = session.spec_duration();
            let total = session.state().total;
            let per_second = session.spec_stream().sample_rate * session.spec_stream().channels;
            match session.spec_stream().duration_ns {
                Some(known) => ns == known,
                None => {
                    &&& ns <= u64::MAX
                    &&& ns < u64::MAX ==> ns * per_second <= total * 1_000_000_000 < (ns + 1)
                        * per_second
                    &&& ns == u64::MAX ==> u64::MAX * per_second <= total * 1_000_000_000
                },
            }
        }),
{
    let total = session.state().total;
    let per_second = session.spec_stream().sample_rate * session.spec_stream().channels;
    let product = total * 1_000_000_000;
    assert(per_second > 0) by (nonlinear_arith)
        requires
            per_second == session.spec_stream().sample_rate * session.spec_stream().channels,
            session.spec_stream().sample_rate > 0,
            session.spec_stream().channels > 0,
    ;
    vstd::arithmetic::div_mod::lemma_fundamental_div_mod(product, per_second);
    let q = product / per_second;
    let r = product % per_second;
    assert(q * per_second <= product < (q + 1) * per_second && (q > u64::MAX ==> u64::MAX
        * per_second <= product)) by (nonlinear_arith)
        requires
            product == per_second * q + r,
            0 <= r < per_second,
    ;
}

/// A session that has heard `seconds` of every channel reports that many seconds, where the
/// container gives no length.
pub proof fn law_heard_seconds_are_reported(session: DecodeSession, seconds: int)
    requires
        session.spec_stream().duration_ns is None,
        session.spec_stream().sample_rate > 0,
        session.spec_stream().channels > 0,
        0 <= seconds <= 0xffff_ffff,
        session.state().total == seconds * session.spec_stream().sample_rate
            * session.spec_stream().channels,
    ensures
        session.spec_duration() == seconds * 1_000_000_000,
{
    let rate = session.spec_stream().sample_rate as int;
    let channels = session.spec_stream().channels as int;
    let per_second = rate * channels;
    let product = session.state().total * 1_000_000_000;
    assert(per_second > 0) by (nonlinear_arith)
        requires
            per_second == rate * channels,
            rate > 0,
            channels > 0,
    ;
    assert(product == per_second * (seconds * 1_000_000_000)) by (nonlinear_arith)
        requires
            product == seconds * rate * channels * 1_000_000_000,
            per_second == rate * channels,
    ;
    vstd::arithmetic::div_mod::lemma_div_multiples_vanish(seconds * 1_000_000_000, per_second);
}

/// The result for a raw fingerprint: an error just where it is empty.
pub fn fingerprint_result(raw: Vec<u32>, duration_ns: u64) -> (r: Result<
    FingerprintResult,
    FingerprintError,
>)
    ensures
        raw@.len() == 0 ==> r is Err && r->Err_0 is EmptyFingerprint,
        raw@.len() > 0 ==> r is Ok && r->Ok_0.fingerprint@ == raw@ && r->Ok_0.duration_ns
            == duration_ns,
{
    if raw.len() == 0 {
        Err(FingerprintError::EmptyFingerprint)
    } else {
        Ok(FingerprintResult { fingerprint: raw, duration_ns })
    }
}

/// A score is perfect just where something was compared and no bit differs.
pub proof fn law_a_perfect_score_has_no_differing_bit(score: Similarity)
    requires
        score.wf(),
    ensures
        score.spec_is_perfect() <==> score.total > 0 && score.total - score.matching == 0,
{
}

/// An error tells the user what went wrong, with its detail where it has one.
pub proof fn law_errors_say_what_went_wrong(e: FingerprintError)
    ensures
        e matches FingerprintError::OpenFailed(reason) ==> error_text(e)
            == "could not open file ("@ + reason@ + ")"@,
        e matches FingerprintError::UnrecognizedFormat(detail) ==> error_text(e)
            == "not a recognized audio format or file is too short/corrupted ("@ + detail@ + ")"@,
        e is NoAudioTrack ==> error_text(e) == "no audio track found in file"@,
        e matches FingerprintError::DecodeFailed(detail) ==> error_text(e)
            == "unsupported or corrupted audio codec ("@ + detail@ + ")"@,
        e is EmptyFingerprint ==> error_text(e)
            == "could not extract audio content (file may be silence or too short)"@,
{
}

/// A failure to decode is that error, and it keeps the detail.
pub proof fn law_a_decode_failure_keeps_its_detail(e: FingerprintError, detail: Seq<char>)
    ensures
        is_decode_failure(e, detail) <==> (e matches FingerprintError::DecodeFailed(text) && text@
            == detail),
        is_decode_failure(e, detail) ==> error_text(e) == "unsupported or corrupted audio codec ("@
            + detail + ")"@,
{
}

/// A stream is refused without channels, or where it has no more than a thousand samples a
/// second, and only there.
pub proof fn law_which_streams_are_refused(sample_rate: u32, channels: u16)
    ensures
        start_refusal(sample_rate, channels) is Some <==> channels == 0 || sample_rate <= 1000,
{
}

/// Chromaprint is given the channel count, of which it takes 16 bits.
pub proof fn law_the_channel_count_is_handed_on(session: DecodeSession)
    ensures
        session.spec_stream().channels < 65536 ==> session.print_channels()
            == session.spec_stream().channels,
        (session.spec_stream().channels - session.print_channels()) % 65536 == 0,
{
}

} // verus!
