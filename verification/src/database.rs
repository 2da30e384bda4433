//! What the fingerprint cache holds and when it is used: rows, change detection,
//! the encoding of fingerprints, and the statements that a batch of results takes.

use vstd::prelude::*;

use crate::globs::{read_given_rules, PatternSet};
use crate::text::copy;

verus! {

/// Statistics about the database contents.
#[derive(Debug, Clone, Copy, PartialEq, Eq, Structural)]
pub struct Stats {
    /// Total number of files tracked in the database.
    pub total_files: u64,
    /// Files with a successfully computed fingerprint.
    pub fingerprinted: u64,
    /// Files that failed fingerprinting (decode errors, etc.).
    pub failed: u64,
    /// Files whose metadata on disk no longer matches the cached entry, or that are gone.
    pub stale: u64,
}

/// A file with its fingerprint loaded from the database.
#[derive(Debug, Clone)]
pub struct FileFingerprint {
    /// Absolute path to the audio file.
    pub path: String,
    /// Full duration of the audio in nanoseconds; zero where it is not known.
    pub duration_ns: u64,
    /// Raw Chromaprint fingerprint as a vector of sub-fingerprints.
    pub fingerprint: Vec<u32>,
}

/// Metadata captured from the filesystem at scan time, stored alongside the fingerprint.
#[derive(Debug, Clone, Copy, PartialEq, Eq, Structural)]
pub struct FileMeta {
    /// File size in bytes.
    pub size: i64,
    /// File modification time as seconds since the UNIX epoch.
    pub mtime_secs: i64,
}

/// The four bytes of a number, lowest first.
pub open spec fn le_bytes(v: u32) -> Seq<u8> {
    seq![
        (v % 256) as u8,
        (v / 256 % 256) as u8,
        (v / 65536 % 256) as u8,
        (v / 16777216) as u8,
    ]
}

/// The number that four bytes hold, lowest first.
pub open spec fn from_le(b0: u8, b1: u8, b2: u8, b3: u8) -> u32 {
    (b0 + 256 * b1 + 65536 * b2 + 16777216 * b3) as u32
}

/// A fingerprint as bytes: four for each sub-fingerprint, lowest first.
pub open spec fn fingerprint_bytes(fp: Seq<u32>) -> Seq<u8>
    decreases fp.len(),
{
    if fp.len() == 0 {
        seq![]
    } else {
        fingerprint_bytes(fp.drop_last()) + le_bytes(fp.last())
    }
}

/// The fingerprint that bytes hold. Up to three bytes at the end that make no
/// whole number are dropped.
pub open spec fn fingerprint_from_bytes(bytes: Seq<u8>) -> Seq<u32> {
    Seq::new(
        bytes.len() / 4,
        |i: int| from_le(bytes[4 * i], bytes[4 * i + 1], bytes[4 * i + 2], bytes[4 * i + 3]),
    )
}

/// Encodes a fingerprint for storage.
pub fn fingerprint_to_bytes(fp: &[u32]) -> (r: Vec<u8>)
    ensures
        r@ == fingerprint_bytes(fp@),
{
    let mut out: Vec<u8> = Vec::new();
    let mut i: usize = 0;
    proof {
        assert(fp@.take(0) =~= seq![]);
    }
    while i < fp.len()
        invariant
            i <= fp@.len(),
            out@ == fingerprint_bytes(fp@.take(i as int)),
        decreases fp@.len() - i,
    {
        let v: u32 = fp[i];
        let ghost before = out@;
        out.push((v % 256) as u8);
        out.push((v / 256 % 256) as u8);
        out.push((v / 65536 % 256) as u8);
        out.push((v / 16777216) as u8);
        proof {
            assert(fp@.take(i + 1).drop_last() =~= fp@.take(i as int));
            assert(out@ =~= before + le_bytes(v));
        }
        i = i + 1;
    }
    proof {
        assert(fp@.take(fp@.len() as int) =~= fp@);
    }
    out
}

/// Decodes a stored fingerprint.
pub fn bytes_to_fingerprint(bytes: &[u8]) -> (r: Vec<u32>)
    ensures
        r@ == fingerprint_from_bytes(bytes@),
{
    let mut out: Vec<u32> = Vec::new();
    let count: usize = bytes.len() / 4;
    let mut i: usize = 0;
    while i < count
        invariant
            i <= count,
            count == bytes.len() / 4,
            out@ == fingerprint_from_bytes(bytes@).take(i as int),
        decreases count - i,
    {
        let at: usize = 4 * i;
        let value: u32 = bytes[at] as u32 + 256 * bytes[at + 1] as u32 + 65536 * bytes[at + 2] as u32
            + 16777216 * bytes[at + 3] as u32;
        out.push(value);
        proof {
            assert(out@ =~= fingerprint_from_bytes(bytes@).take(i + 1));
        }
        i = i + 1;
    }
    proof {
        assert(fingerprint_from_bytes(bytes@).take(count as int) =~= fingerprint_from_bytes(bytes@));
    }
    out
}

/// The encoding has four bytes for each sub-fingerprint, each in its place.
pub proof fn lemma_fingerprint_bytes_at(fp: Seq<u32>)
    ensures
        fingerprint_bytes(fp).len() == 4 * fp.len(),
        forall|i: int, j: int|
            #![trigger fingerprint_bytes(fp)[4 * i + j]]
            0 <= i < fp.len() && 0 <= j < 4 ==> fingerprint_bytes(fp)[4 * i + j] == le_bytes(
                fp[i],
            )[j],
    decreases fp.len(),
{
    if fp.len() > 0 {
        let front = fp.drop_last();
        lemma_fingerprint_bytes_at(front);
        assert forall|i: int, j: int|
            #![trigger fingerprint_bytes(fp)[4 * i + j]]
            0 <= i < fp.len() && 0 <= j < 4 implies fingerprint_bytes(fp)[4 * i + j] == le_bytes(
            fp[i],
        )[j] by {
            if i < front.len() {
                assert(fingerprint_bytes(front)[4 * i + j] == le_bytes(front[i])[j]);
            }
        }
    }
}

proof fn lemma_le_roundtrip(v: u32)
    ensures
        from_le(le_bytes(v)[0], le_bytes(v)[1], le_bytes(v)[2], le_bytes(v)[3]) == v,
{
    assert(v % 256 + 256 * (v / 256 % 256) + 65536 * (v / 65536 % 256) + 16777216 * (v / 16777216)
        == v) by (bit_vector);
}

/// Decoding an encoded fingerprint gives it back.
pub proof fn law_fingerprint_bytes_roundtrip(fp: Seq<u32>)
    ensures
        fingerprint_from_bytes(fingerprint_bytes(fp)) == fp,
{
    lemma_fingerprint_bytes_at(fp);
    let bytes = fingerprint_bytes(fp);
    assert forall|i: int| 0 <= i < fp.len() implies #[trigger] fingerprint_from_bytes(bytes)[i]
        == fp[i] by {
        assert(bytes[4 * i + 0] == le_bytes(fp[i])[0]);
        assert(bytes[4 * i + 1] == le_bytes(fp[i])[1]);
        assert(bytes[4 * i + 2] == le_bytes(fp[i])[2]);
        assert(bytes[4 * i + 3] == le_bytes(fp[i])[3]);
        lemma_le_roundtrip(fp[i]);
    }
    assert(fingerprint_from_bytes(bytes) =~= fp);
}

// --- Change detection ---

/// What the database holds of a fingerprinted file.
#[derive(Debug, Clone, Copy, PartialEq, Eq, Structural)]
pub struct CachedMeta {
    /// File size in bytes.
    pub size: i64,
    /// File modification time as seconds since the UNIX epoch.
    pub mtime_secs: i64,
    /// Seconds that were fingerprinted, where they were recorded.
    pub fingerprint_length: Option<i64>,
}

/// Whether a cached fingerprint is current: the file is there with the same size and
/// modification time, and the fingerprint was made with the same length.
pub open spec fn spec_is_current(
    meta: Option<FileMeta>,
    cached: Option<CachedMeta>,
    fingerprint_length: u64,
) -> bool {
    match (meta, cached) {
        (Some(m), Some(c)) => c.size == m.size && c.mtime_secs == m.mtime_secs
            && c.fingerprint_length == Some(fingerprint_length as i64),
        _ => false,
    }
}

/// Whether a file was fingerprinted with this length and has not changed since.
pub fn is_current(
    meta: Option<FileMeta>,
    cached: Option<CachedMeta>,
    fingerprint_length: u64,
) -> (r: bool)
    ensures
        r == spec_is_current(meta, cached, fingerprint_length),
{
    match (meta, cached) {
        (Some(m), Some(c)) => c.size == m.size && c.mtime_secs == m.mtime_secs && (
        match c.fingerprint_length {
            Some(l) => l == fingerprint_length as i64,
            None => false,
        }),
        _ => false,
    }
}

/// Fingerprints of two different lengths are never taken for each other.
pub proof fn law_length_change_is_noticed(
    meta: Option<FileMeta>,
    cached: Option<CachedMeta>,
    before: u64,
    after: u64,
)
    requires
        spec_is_current(meta, cached, before),
        before != after,
    ensures
        !spec_is_current(meta, cached, after),
{
    assert(before as i64 == after as i64 ==> before == after) by (bit_vector);
}

// --- Storing results ---

/// A scan result ready to be stored in the database.
#[derive(Debug)]
pub enum ScanResult {
    /// Successful fingerprint with file metadata and band hashes.
    Success {
        /// Absolute path to the audio file.
        path: String,
        /// File metadata (size, modification time) at scan time.
        meta: FileMeta,
        /// Full duration of the audio in nanoseconds.
        duration_ns: u64,
        /// Chromaprint sub-fingerprints.
        fingerprint: Vec<u32>,
        /// Duration in seconds used for fingerprinting.
        fingerprint_length: u64,
        /// Pre-computed LSH band hashes.
        band_hashes: Vec<u64>,
    },
    /// Fingerprinting failed for a file.
    Error {
        /// Absolute path to the audio file.
        path: String,
        /// File metadata, unless the file disappeared.
        meta: Option<FileMeta>,
        /// Error message describing the failure.
        error: String,
    },
}

/// A write to the database.
#[derive(Debug)]
pub enum Statement {
    /// Starts a transaction.
    Begin,
    /// Replaces the row of a file by one with a fingerprint.
    PutFingerprint {
        /// Absolute path.
        path: String,
        /// Metadata.
        meta: FileMeta,
        /// Full duration in nanoseconds.
        duration_ns: u64,
        /// The encoded fingerprint.
        bytes: Vec<u8>,
        /// Seconds that were fingerprinted.
        fingerprint_length: i64,
    },
    /// Replaces the row of a file by one with an error.
    PutError {
        /// Absolute path.
        path: String,
        /// Metadata.
        meta: FileMeta,
        /// The message.
        error: String,
    },
    /// Deletes the band hashes of the row that was put last.
    DropBands,
    /// Adds a band hash to the row that was put last.
    PutBand {
        /// Number of the band.
        index: i64,
        /// Its hash, as the signed number of the same bits.
        hash: i64,
    },
    /// Ends the transaction.
    Commit,
}

/// The statements that add the first `n` band hashes.
pub open spec fn band_statements(hashes: Seq<u64>, n: int) -> Seq<Statement>
    decreases n,
{
    if n <= 0 {
        seq![]
    } else {
        band_statements(hashes, n - 1).push(
            Statement::PutBand { index: (n - 1) as i64, hash: hashes[n - 1] as i64 },
        )
    }
}

/// Whether `statements` store a result: its row, and for a fingerprint its band hashes in
/// place of old ones. A file that disappeared has zero for size and time.
pub open spec fn stores_result(statements: Seq<Statement>, result: ScanResult) -> bool {
    match result {
        ScanResult::Success {
            path,
            meta,
            duration_ns,
            fingerprint,
            fingerprint_length,
            band_hashes,
        } => {
            &&& statements.len() == 2 + band_hashes@.len()
            &&& statements[0] matches Statement::PutFingerprint {
                path: p,
                meta: m,
                duration_ns: d,
                bytes: b,
                fingerprint_length: l,
            } && p@ == path@ && m == meta && d == duration_ns && b@ == fingerprint_bytes(
                fingerprint@,
            ) && l == fingerprint_length as i64
            &&& statements[1] is DropBands
            &&& statements.skip(2) == band_statements(band_hashes@, band_hashes@.len() as int)
        },
        ScanResult::Error { path, meta, error } => {
            &&& statements.len() == 1
            &&& statements[0] matches Statement::PutError { path: p, meta: m, error: e } && p@
                == path@ && e@ == error@ && m == (match meta {
                Some(known) => known,
                None => FileMeta { size: 0, mtime_secs: 0 },
            })
        },
    }
}

/// How many statements store a result.
pub open spec fn statement_count(result: ScanResult) -> int {
    match result {
        ScanResult::Success { band_hashes, .. } => 2 + band_hashes@.len() as int,
        ScanResult::Error { .. } => 1,
    }
}

/// Whether `statements` store results one after the other.
pub open spec fn stores_results(statements: Seq<Statement>, results: Seq<ScanResult>) -> bool
    decreases results.len(),
{
    if results.len() == 0 {
        statements.len() == 0
    } else {
        let cut = statements.len() - statement_count(results.last());
        cut >= 0 && stores_results(statements.take(cut), results.drop_last()) && stores_result(
            statements.skip(cut),
            results.last(),
        )
    }
}

fn push_result(out: &mut Vec<Statement>, result: &ScanResult)
    ensures
        final(out)@.len() == old(out)@.len() + statement_count(*result),
        final(out)@.take(old(out)@.len() as int) == old(out)@,
        stores_result(final(out)@.skip(old(out)@.len() as int), *result),
{
    let ghost before = out@;
    let ghost start = before.len() as int;
    match result {
        ScanResult::Success {
            path,
            meta,
            duration_ns,
            fingerprint,
            fingerprint_length,
            band_hashes,
        } => {
            let bytes = fingerprint_to_bytes(fingerprint.as_slice());
            out.push(
                Statement::PutFingerprint {
                    path: copy(path),
                    meta: *meta,
                    duration_ns: *duration_ns,
                    bytes,
                    fingerprint_length: *fingerprint_length as i64,
                },
            );
            out.push(Statement::DropBands);
            let ghost head = out@;
            let mut i: usize = 0;
            proof {
                assert(out@ =~= head + band_statements(band_hashes@, 0));
            }
            while i < band_hashes.len()
                invariant
                    i <= band_hashes@.len(),
                    out@ == head + band_statements(band_hashes@, i as int),
                decreases band_hashes@.len() - i,
            {
                out.push(Statement::PutBand { index: i as i64, hash: band_hashes[i] as i64 });
                proof {
                    assert(out@ =~= head + band_statements(band_hashes@, i + 1));
                }
                i = i + 1;
            }
            proof {
                lemma_band_statements_len(band_hashes@, band_hashes@.len() as int);
                assert(head.len() == start + 2);
                assert(out@.take(start) =~= before);
                assert(out@.skip(start).skip(2) =~= band_statements(
                    band_hashes@,
                    band_hashes@.len() as int,
                ));
                assert(out@.skip(start)[0] == head[start]);
                assert(out@.skip(start)[1] == head[start + 1]);
            }
        },
        ScanResult::Error { path, meta, error } => {
            let known = match meta {
                Some(m) => *m,
                None => FileMeta { size: 0, mtime_secs: 0 },
            };
            out.push(Statement::PutError { path: copy(path), meta: known, error: copy(error) });
            proof {
                assert(out@.take(start) =~= before);
                assert(out@.skip(start)[0] == out@[start]);
            }
        },
    }
}

proof fn lemma_band_statements_len(hashes: Seq<u64>, n: int)
    requires
        0 <= n,
    ensures
        band_statements(hashes, n).len() == n,
    decreases n,
{
    if n > 0 {
        lemma_band_statements_len(hashes, n - 1);
    }
}

/// The statements that store a batch of results in a single transaction. An empty batch
/// takes none.
pub fn batch_statements(results: &Vec<ScanResult>) -> (r: Vec<Statement>)
    ensures
        results@.len() == 0 ==> r@.len() == 0,
        results@.len() > 0 ==> {
            &&& r@.len() >= 2
            &&& r@[0] is Begin
            &&& r@.last() is Commit
            &&& stores_results(r@.subrange(1, r@.len() - 1), results@)
        },
{
    let mut out: Vec<Statement> = Vec::new();
    if results.len() == 0 {
        return out;
    }
    out.push(Statement::Begin);
    let mut i: usize = 0;
    while i < results.len()
        invariant
            i <= results@.len(),
            out@.len() >= 1,
            out@[0] is Begin,
            stores_results(out@.skip(1), results@.take(i as int)),
        decreases results@.len() - i,
    {
        let ghost before = out@;
        push_result(&mut out, &results[i]);
        proof {
            let now = results@.take(i + 1);
            assert(now.drop_last() =~= results@.take(i as int));
            let cut = out@.skip(1).len() - statement_count(results@[i as int]);
            assert(cut == before.len() - 1);
            assert(out@.skip(1).take(cut) =~= out@.take(before.len() as int).skip(1));
            assert(out@.skip(1).skip(cut) =~= out@.skip(before.len() as int));
            assert(out@[0] == before[0]) by {
                assert(out@.take(before.len() as int)[0] == before[0]);
            }
        }
        i = i + 1;
    }
    let ghost stored = out@;
    out.push(Statement::Commit);
    proof {
        assert(results@.take(results@.len() as int) =~= results@);
        assert(out@.subrange(1, out@.len() - 1) =~= stored.skip(1));
        assert(out@[0] == stored[0]);
    }
    out
}

/// The statements that store the band hashes of a file that is there, in place of old
/// ones, in a single transaction.
pub fn band_hash_statements(hashes: &Vec<u64>) -> (r: Vec<Statement>)
    ensures
        r@ == seq![Statement::Begin, Statement::DropBands] + band_statements(
            hashes@,
            hashes@.len() as int,
        ) + seq![Statement::Commit],
{
    let mut out: Vec<Statement> = Vec::new();
    out.push(Statement::Begin);
    out.push(Statement::DropBands);
    let ghost head = seq![Statement::Begin, Statement::DropBands];
    let mut i: usize = 0;
    proof {
        assert(out@ =~= head + band_statements(hashes@, 0));
    }
    while i < hashes.len()
        invariant
            i <= hashes@.len(),
            out@ == head + band_statements(hashes@, i as int),
        decreases hashes@.len() - i,
    {
        out.push(Statement::PutBand { index: i as i64, hash: hashes[i] as i64 });
        proof {
            assert(out@ =~= head + band_statements(hashes@, i + 1));
        }
        i = i + 1;
    }
    out.push(Statement::Commit);
    proof {
        assert(out@ =~= head + band_statements(hashes@, hashes@.len() as int) + seq![
            Statement::Commit,
        ]);
    }
    out
}

/// What to do next with the statements of a transaction.
#[derive(Debug, Clone, Copy, PartialEq, Eq, Structural)]
pub enum BatchStep {
    /// Run the statement at this position.
    Run(usize),
    /// Undo the transaction and give up.
    RollBack,
    /// Everything is stored.
    Done,
}

/// What to do next with `count` statements of which those before `position` were run, the
/// last of them perhaps without success.
pub fn next_batch_step(count: usize, position: usize, failed: bool) -> (r: BatchStep)
    ensures
        r == if failed {
            BatchStep::RollBack
        } else if position < count {
            BatchStep::Run(position)
        } else {
            BatchStep::Done
        },
{
    if failed {
        BatchStep::RollBack
    } else if position < count {
        BatchStep::Run(position)
    } else {
        BatchStep::Done
    }
}

/// Band hashes keep apart in the database: different ones are stored as different numbers.
pub proof fn law_stored_hashes_keep_apart(a: u64, b: u64)
    ensures
        a as i64 == b as i64 <==> a == b,
{
    assert(a as i64 == b as i64 <==> a == b) by (bit_vector);
}

// --- Statistics ---

/// What the statistics look at in a row of the database.
#[derive(Debug, Clone, Copy, PartialEq, Eq, Structural)]
pub struct StatRow {
    /// Whether there is a fingerprint.
    pub fingerprinted: bool,
    /// Whether there is an error.
    pub failed: bool,
    /// The metadata that is cached.
    pub cached: FileMeta,
    /// The metadata on disk, where the file exists.
    pub on_disk: Option<FileMeta>,
}

/// How many of some flags are set.
pub open spec fn count_set(flags: Seq<bool>) -> nat
    decreases flags.len(),
{
    if flags.len() == 0 {
        0
    } else {
        count_set(flags.drop_last()) + if flags.last() {
            1nat
        } else {
            0nat
        }
    }
}

/// Whether a row is stale: its file is gone, or has other metadata than the cache.
pub open spec fn is_stale(row: StatRow) -> bool {
    row.on_disk != Some(row.cached)
}

/// Which rows have a fingerprint.
pub open spec fn fingerprinted_flags(rows: Seq<StatRow>) -> Seq<bool> {
    Seq::new(rows.len(), |i: int| rows[i].fingerprinted)
}

/// Which rows have an error.
pub open spec fn failed_flags(rows: Seq<StatRow>) -> Seq<bool> {
    Seq::new(rows.len(), |i: int| rows[i].failed)
}

/// Which rows are stale.
pub open spec fn stale_flags(rows: Seq<StatRow>) -> Seq<bool> {
    Seq::new(rows.len(), |i: int| is_stale(rows[i]))
}

fn stale(row: &StatRow) -> (r: bool)
    ensures
        r == is_stale(*row),
{
    match row.on_disk {
        Some(meta) => meta.size != row.cached.size || meta.mtime_secs != row.cached.mtime_secs,
        None => true,
    }
}

/// Counts the rows of the database.
pub fn count_stats(rows: &Vec<StatRow>) -> (r: Stats)
    ensures
        r.total_files == rows@.len(),
        r.fingerprinted == count_set(fingerprinted_flags(rows@)),
        r.failed == count_set(failed_flags(rows@)),
        r.stale == count_set(stale_flags(rows@)),
{
    let total: usize = rows.len();
    let mut fingerprinted: u64 = 0;
    let mut failed: u64 = 0;
    let mut gone: u64 = 0;
    let mut i: usize = 0;
    while i < rows.len()
        invariant
            i <= rows@.len() <= usize::MAX,
            fingerprinted <= i,
            failed <= i,
            gone <= i,
            fingerprinted == count_set(fingerprinted_flags(rows@).take(i as int)),
            failed == count_set(failed_flags(rows@).take(i as int)),
            gone == count_set(stale_flags(rows@).take(i as int)),
        decreases rows@.len() - i,
    {
        proof {
            assert(fingerprinted_flags(rows@).take(i + 1).drop_last() =~= fingerprinted_flags(
                rows@,
            ).take(i as int));
            assert(failed_flags(rows@).take(i + 1).drop_last() =~= failed_flags(rows@).take(
                i as int,
            ));
            assert(stale_flags(rows@).take(i + 1).drop_last() =~= stale_flags(rows@).take(
                i as int,
            ));
        }
        if rows[i].fingerprinted {
            fingerprinted = fingerprinted + 1;
        }
        if rows[i].failed {
            failed = failed + 1;
        }
        if stale(&rows[i]) {
            gone = gone + 1;
        }
        i = i + 1;
    }
    proof {
        assert(fingerprinted_flags(rows@).take(rows@.len() as int) =~= fingerprinted_flags(rows@));
        assert(failed_flags(rows@).take(rows@.len() as int) =~= failed_flags(rows@));
        assert(stale_flags(rows@).take(rows@.len() as int) =~= stale_flags(rows@));
    }
    Stats { total_files: total as u64, fingerprinted, failed, stale: gone }
}

// --- Cleaning ---

/// Maximum number of rows to delete per transaction.
pub const DELETE_BATCH_SIZE: usize = 1000;

/// All elements of some lists, one behind the other.
pub open spec fn joined(batches: Seq<Vec<i64>>) -> Seq<i64>
    decreases batches.len(),
{
    if batches.len() == 0 {
        seq![]
    } else {
        joined(batches.drop_last()) + batches.last()@
    }
}

/// Splits row numbers into batches for one transaction each: all but the last one are full.
pub fn delete_batches(ids: &Vec<i64>) -> (r: Vec<Vec<i64>>)
    ensures
        joined(r@) == ids@,
        forall|k: int| 0 <= k < r@.len() ==> 0 < (#[trigger] r@[k])@.len() <= 1000,
        forall|k: int| 0 <= k < r@.len() - 1 ==> (#[trigger] r@[k])@.len() == 1000,
{
    let mut out: Vec<Vec<i64>> = Vec::new();
    let mut current: Vec<i64> = Vec::new();
    let mut i: usize = 0;
    proof {
        assert(joined(out@) + current@ =~= ids@.take(0));
    }
    while i < ids.len()
        invariant
            i <= ids@.len(),
            joined(out@) + current@ == ids@.take(i as int),
            current@.len() < DELETE_BATCH_SIZE,
            forall|k: int| 0 <= k < out@.len() ==> (#[trigger] out@[k])@.len() == DELETE_BATCH_SIZE,
        decreases ids@.len() - i,
    {
        let ghost out0 = out@;
        let ghost current0 = current@;
        current.push(ids[i]);
        proof {
            assert(ids@.take(i + 1) =~= ids@.take(i as int).push(ids@[i as int]));
            assert(joined(out0) + current@ =~= (joined(out0) + current0).push(ids@[i as int]));
        }
        if current.len() == DELETE_BATCH_SIZE {
            let ghost full = current;
            out.push(current);
            current = Vec::new();
            proof {
                assert(out@.drop_last() =~= out0);
                assert(joined(out@) + current@ =~= ids@.take(i + 1));
            }
        }
        i = i + 1;
    }
    proof {
        assert(ids@.take(ids@.len() as int) =~= ids@);
    }
    if current.len() > 0 {
        let ghost out0 = out@;
        out.push(current);
        proof {
            assert(out@.drop_last() =~= out0);
            assert(joined(out@) =~= ids@);
        }
    } else {
        proof {
            assert(joined(out@) =~= ids@);
        }
    }
    out
}

/// A row of the database: its number, its path, and whether the file still exists.
#[derive(Debug, Clone)]
pub struct FileRow {
    /// Number of the row.
    pub id: i64,
    /// Absolute path.
    pub path: String,
    /// Whether the file exists.
    pub exists: bool,
}

/// The numbers of the rows whose files no longer exist, in their order.
pub open spec fn missing_ids(rows: Seq<FileRow>) -> Seq<i64>
    decreases rows.len(),
{
    if rows.len() == 0 {
        seq![]
    } else if rows.last().exists {
        missing_ids(rows.drop_last())
    } else {
        missing_ids(rows.drop_last()).push(rows.last().id)
    }
}

/// The rows to remove because their files no longer exist.
pub fn stale_ids(rows: &Vec<FileRow>) -> (r: Vec<i64>)
    ensures
        r@ == missing_ids(rows@),
{
    let mut out: Vec<i64> = Vec::new();
    let mut i: usize = 0;
    while i < rows.len()
        invariant
            i <= rows@.len(),
            out@ == missing_ids(rows@.take(i as int)),
        decreases rows@.len() - i,
    {
        proof {
            assert(rows@.take(i + 1).drop_last() =~= rows@.take(i as int));
        }
        if !rows[i].exists {
            out.push(rows[i].id);
        }
        i = i + 1;
    }
    proof {
        assert(rows@.take(rows@.len() as int) =~= rows@);
    }
    out
}

/// Makes the set of the rules by which entries are removed. `dir` is the directory that
/// rules are relative to.
pub fn removal_set(patterns: &Vec<String>, dir: &str) -> (r: Result<PatternSet, String>)
    ensures
        crate::globs::is_set_of(
            r,
            (crate::globs::RuleList {
                rules: crate::globs::given_rules_of(crate::text::views(patterns@), dir@),
                given: patterns@.len() as int,
            }),
            "pattern"@,
        ),
{
    let rules = read_given_rules(patterns, dir);
    proof {
        assert(crate::globs::rule_views(rules@).len() == patterns@.len());
    }
    PatternSet::build(rules, patterns.len(), "pattern")
}

/// The numbers of the rows whose paths match the rules, in their order.
pub open spec fn ids_matching(rows: Seq<FileRow>, patterns: crate::globs::RuleList) -> Seq<i64>
    decreases rows.len(),
{
    if rows.len() == 0 {
        seq![]
    } else {
        let before = ids_matching(rows.drop_last(), patterns);
        if crate::globs::ignores(patterns, rows.last().path@, 0) {
            before.push(rows.last().id)
        } else {
            before
        }
    }
}

/// The rows to remove because their paths match the rules `patterns`.
pub fn matching_ids(rows: &Vec<FileRow>, patterns: &PatternSet) -> (r: Vec<i64>)
    ensures
        r@ == ids_matching(rows@, patterns@),
{
    let mut out: Vec<i64> = Vec::new();
    let mut i: usize = 0;
    while i < rows.len()
        invariant
            i <= rows@.len(),
            out@ == ids_matching(rows@.take(i as int), patterns@),
        decreases rows@.len() - i,
    {
        proof {
            assert(rows@.take(i + 1).drop_last() =~= rows@.take(i as int));
        }
        if patterns.ignores_file(rows[i].path.as_str(), 0) {
            out.push(rows[i].id);
        }
        i = i + 1;
    }
    proof {
        assert(rows@.take(rows@.len() as int) =~= rows@);
    }
    out
}

// --- Laws ---

/// A cached fingerprint is current just where the file is there, its size and modification time
/// are those in the cache, and as many seconds were fingerprinted.
pub proof fn law_a_file_is_current_until_it_changes(
    meta: Option<FileMeta>,
    cached: Option<CachedMeta>,
    seconds: u64,
)
    requires
        seconds <= i64::MAX,
    ensures
        spec_is_current(meta, cached, seconds) <==> (meta matches Some(m) && cached matches Some(c)
            && m.size == c.size && m.mtime_secs == c.mtime_secs && (
        c.fingerprint_length matches Some(length) && length == seconds)),
{
}

/// A stored fingerprint has four bytes for each sub-fingerprint, the lowest first, and is read
/// the same way.
pub proof fn law_stored_fingerprints_are_little_endian(fp: Seq<u32>, bytes: Seq<u8>, i: int)
    ensures
        fingerprint_bytes(fp).len() == 4 * fp.len(),
        0 <= i < fp.len() ==> fingerprint_bytes(fp)[4 * i] + 0x100 * fingerprint_bytes(fp)[4 * i
            + 1] + 0x1_0000 * fingerprint_bytes(fp)[4 * i + 2] + 0x100_0000 * fingerprint_bytes(fp)[4
            * i + 3] == fp[i],
        fingerprint_from_bytes(bytes).len() == bytes.len() / 4,
        0 <= i < bytes.len() / 4 ==> fingerprint_from_bytes(bytes)[i] == bytes[4 * i] + 0x100
            * bytes[4 * i + 1] + 0x1_0000 * bytes[4 * i + 2] + 0x100_0000 * bytes[4 * i + 3],
{
    lemma_fingerprint_bytes_at(fp);
    if 0 <= i < fp.len() {
        let b = fingerprint_bytes(fp);
        let v: u32 = fp[i];
        assert(b[4 * i + 0] == le_bytes(v)[0]);
        assert(b[4 * i + 1] == le_bytes(v)[1]);
        assert(b[4 * i + 2] == le_bytes(v)[2]);
        assert(b[4 * i + 3] == le_bytes(v)[3]);
        assert(v % 256 + 0x100 * (v / 256 % 256) + 0x1_0000 * (v / 65536 % 256) + 0x100_0000 * (v
            / 16777216) == v);
    }
}

/// Each band hash is stored under its number, with the same 64 bits.
pub proof fn law_band_hashes_are_stored_in_order(hashes: Seq<u64>, n: int, i: int)
    requires
        0 <= i < n <= hashes.len(),
        n <= i64::MAX,
    ensures
        band_statements(hashes, n).len() == n,
        band_statements(hashes, n)[i] matches Statement::PutBand { index, hash } && index == i
            && hash as u64 == hashes[i],
    decreases n,
{
    lemma_band_statements_len(hashes, n);
    lemma_band_statements_len(hashes, n - 1);
    let h: u64 = hashes[n - 1];
    assert((h as i64) as u64 == h) by (bit_vector);
    if i < n - 1 {
        law_band_hashes_are_stored_in_order(hashes, n - 1, i);
    }
}

/// A fingerprint is stored by its row, then the old band hashes go and the new ones come, one
/// statement each. An error is stored by its row alone.
pub proof fn law_one_result_is_stored(statements: Seq<Statement>, result: ScanResult)
    requires
        stores_results(statements, seq![result]),
    ensures
        result matches ScanResult::Success {
            path,
            meta,
            duration_ns,
            fingerprint,
            fingerprint_length,
            band_hashes,
        } ==> {
            &&& statements.len() == 2 + band_hashes@.len()
            &&& statements[0] matches Statement::PutFingerprint {
                path: p,
                meta: m,
                duration_ns: d,
                bytes: b,
                fingerprint_length: l,
            } && p@ == path@ && m.size == meta.size && m.mtime_secs == meta.mtime_secs && d
                == duration_ns && b@ == fingerprint_bytes(fingerprint@) && l as u64
                == fingerprint_length
            &&& statements[1] is DropBands
            &&& forall|i: int|
                0 <= i < band_hashes@.len() && band_hashes@.len() <= i64::MAX ==> (
                #[trigger] statements[2 + i] matches Statement::PutBand { index, hash } && index
                    == i && hash as u64 == band_hashes@[i])
        },
        result matches ScanResult::Error { path, meta, error } ==> {
            &&& statements.len() == 1
            &&& statements[0] matches Statement::PutError { path: p, meta: m, error: e } && p@
                == path@ && e@ == error@ && (meta matches Some(known) ==> m.size == known.size
                && m.mtime_secs == known.mtime_secs) && (meta is None ==> m.size == 0
                && m.mtime_secs == 0)
        },
{
    let one = seq![result];
    assert(one.drop_last() =~= Seq::<ScanResult>::empty());
    let cut = statements.len() - statement_count(result);
    assert(stores_results(statements.take(cut), one.drop_last()));
    assert(statements.skip(0) =~= statements);
    assert(stores_result(statements, result));
    if let ScanResult::Success { fingerprint_length, band_hashes, .. } = result {
        assert((fingerprint_length as i64) as u64 == fingerprint_length) by (bit_vector);
        let n = band_hashes@.len() as int;
        assert forall|i: int| 0 <= i < n && n <= i64::MAX implies (
        #[trigger] statements[2 + i] matches Statement::PutBand { index, hash } && index == i
            && hash as u64 == band_hashes@[i]) by {
            law_band_hashes_are_stored_in_order(band_hashes@, n, i);
            assert(statements.skip(2)[i] == statements[2 + i]);
        }
    }
}

/// The results of a batch are stored one behind the other: the statements of a batch are those
/// of all results but the last, and then those of the last.
pub proof fn law_results_are_stored_one_by_one(
    statements: Seq<Statement>,
    results: Seq<ScanResult>,
) -> (cut: int)
    requires
        results.len() > 0,
        stores_results(statements, results),
    ensures
        0 <= cut <= statements.len(),
        stores_results(statements.take(cut), results.drop_last()),
        stores_results(statements.skip(cut), seq![results.last()]),
{
    let last = results.last();
    let cut = statements.len() - statement_count(last);
    let rest = statements.skip(cut);
    let one = seq![last];
    assert(one.drop_last() =~= Seq::<ScanResult>::empty());
    assert(rest.len() == statement_count(last));
    assert(rest.take(0).len() == 0);
    assert(rest.skip(0) =~= rest);
    assert(stores_results(rest.take(0), one.drop_last()));
    cut
}

/// A row is stale just where its file is gone, or has another size or modification time than
/// the cache has.
pub proof fn law_stale_rows(row: StatRow)
    ensures
        is_stale(row) <==> (row.on_disk matches Some(meta) ==> meta.size != row.cached.size
            || meta.mtime_secs != row.cached.mtime_secs),
{
}

/// Rows are counted one by one, each by what it says of itself.
pub proof fn law_rows_are_counted_one_by_one(rows: Seq<StatRow>, row: StatRow)
    ensures
        count_set(fingerprinted_flags(rows.push(row))) == count_set(fingerprinted_flags(rows))
            + if row.fingerprinted {
            1int
        } else {
            0
        },
        count_set(failed_flags(rows.push(row))) == count_set(failed_flags(rows)) + if row.failed {
            1int
        } else {
            0
        },
        count_set(stale_flags(rows.push(row))) == count_set(stale_flags(rows)) + if is_stale(row) {
            1int
        } else {
            0
        },
        count_set(fingerprinted_flags(Seq::empty())) == 0,
        count_set(failed_flags(Seq::empty())) == 0,
        count_set(stale_flags(Seq::empty())) == 0,
{
    assert(fingerprinted_flags(rows.push(row)).drop_last() =~= fingerprinted_flags(rows));
    assert(failed_flags(rows.push(row)).drop_last() =~= failed_flags(rows));
    assert(stale_flags(rows.push(row)).drop_last() =~= stale_flags(rows));
}

/// Rows are removed one by one: one whose file exists stays, and one whose file does not is
/// removed, in the order of the rows.
pub proof fn law_missing_files_are_removed(rows: Seq<FileRow>, row: FileRow, id: i64)
    ensures
        missing_ids(Seq::empty()) == Seq::<i64>::empty(),
        row.exists ==> missing_ids(rows.push(row)) == missing_ids(rows),
        !row.exists ==> missing_ids(rows.push(row)) == missing_ids(rows).push(row.id),
        missing_ids(rows).contains(id) <==> exists|i: int|
            0 <= i < rows.len() && (#[trigger] rows[i]).id == id && !rows[i].exists,
    decreases rows.len(),
{
    assert(rows.push(row).drop_last() =~= rows);
    if rows.len() > 0 {
        let before = rows.drop_last();
        law_missing_files_are_removed(before, row, id);
        let fewer = missing_ids(before);
        let ids = missing_ids(rows);
        if fewer.contains(id) {
            let k = choose|k: int| 0 <= k < fewer.len() && fewer[k] == id;
            assert(ids[k] == id);
            let i = choose|i: int|
                0 <= i < before.len() && (#[trigger] before[i]).id == id && !before[i].exists;
            assert(rows[i].id == id);
        }
        if !rows.last().exists && rows.last().id == id {
            assert(ids[ids.len() - 1] == id);
            assert(rows[rows.len() - 1].id == id);
        }
        if exists|i: int|
            0 <= i < rows.len() && (#[trigger] rows[i]).id == id && !rows[i].exists {
            let i = choose|i: int|
                0 <= i < rows.len() && (#[trigger] rows[i]).id == id && !rows[i].exists;
            if i < before.len() {
                assert(before[i].id == id);
            }
        }
    }
}

/// Rows are removed one by one: just those whose paths the rules match, in the order of the
/// rows.
pub proof fn law_matching_rows_are_removed(
    rows: Seq<FileRow>,
    row: FileRow,
    patterns: crate::globs::RuleList,
)
    ensures
        ids_matching(Seq::empty(), patterns) == Seq::<i64>::empty(),
        crate::globs::ignores(patterns, row.path@, 0) ==> ids_matching(rows.push(row), patterns)
            == ids_matching(rows, patterns).push(row.id),
        !crate::globs::ignores(patterns, row.path@, 0) ==> ids_matching(rows.push(row), patterns)
            == ids_matching(rows, patterns),
{
    assert(rows.push(row).drop_last() =~= rows);
}

/// Batches joined are their elements one behind the other.
pub proof fn law_batches_join_in_order(batches: Seq<Vec<i64>>, batch: Vec<i64>)
    ensures
        joined(Seq::empty()) == Seq::<i64>::empty(),
        joined(batches.push(batch)) == joined(batches) + batch@,
{
    assert(batches.push(batch).drop_last() =~= batches);
}

} // verus!
