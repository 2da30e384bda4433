//! Presenting duplicate groups: stable identifiers, files by quality, groups by identifier.

use vstd::prelude::*;

use crate::database::FileFingerprint;
use crate::fingerprint::Similarity;
use crate::hash::sha256_hex;
use crate::keep::{quality_score, FileFacts};
use crate::matcher::{DuplicateFile, DuplicateGroup, LinkedGroup, MatchKind};
use crate::order::sort_order;
use crate::path::sort_key;
use crate::text::{copy, to_chars};

verus! {

/// A file of a group, with what is known of it on disk.
#[derive(Debug, Clone)]
pub struct GroupFile {
    /// Absolute path to the audio file.
    pub path: String,
    /// Full duration of the audio in nanoseconds.
    pub duration_ns: u64,
    /// What is known of it on disk.
    pub facts: FileFacts,
}

/// A group as it was found.
#[derive(Debug, Clone)]
pub struct RawGroup {
    /// Its files.
    pub members: Vec<GroupFile>,
    /// Similarity score between them.
    pub similarity: Similarity,
}

// --- Gathering ---

/// `member` is `file`, with what is known of it on disk.
pub open spec fn gathers_file(member: GroupFile, file: FileFingerprint, facts: FileFacts) -> bool {
    &&& member.path@ == file.path@
    &&& member.duration_ns == file.duration_ns
    &&& member.facts == facts
}

/// `raw` holds the files of `linked`, in their order, with what is known of each on disk.
pub open spec fn gathers(
    raw: RawGroup,
    linked: LinkedGroup,
    files: Seq<Option<FileFingerprint>>,
    facts: Seq<FileFacts>,
) -> bool {
    &&& raw.similarity == linked.similarity
    &&& raw.members@.len() == linked.members@.len()
    &&& forall|i: int|
        0 <= i < raw.members@.len() ==> gathers_file(
            #[trigger] raw.members@[i],
            files[linked.members@[i] as int]->0,
            facts[i],
        )
}

/// `raw` gathers each group of `linked`, in their order.
pub open spec fn gathers_all(
    raw: Seq<RawGroup>,
    linked: Seq<LinkedGroup>,
    files: Seq<Option<FileFingerprint>>,
    facts: Seq<Vec<FileFacts>>,
) -> bool {
    &&& raw.len() == linked.len()
    &&& forall|q: int|
        0 <= q < raw.len() ==> gathers(#[trigger] raw[q], linked[q], files, facts[q]@)
}

/// The files of `linked` have fingerprints.
pub open spec fn has_fingerprints(
    linked: LinkedGroup,
    files: Seq<Option<FileFingerprint>>,
) -> bool {
    forall|i: int|
        0 <= i < linked.members@.len() ==> (#[trigger] linked.members@[i]) < files.len()
            && files[linked.members@[i] as int] is Some
}

fn group_file(file: &FileFingerprint, facts: FileFacts) -> (r: GroupFile)
    ensures
        gathers_file(r, *file, facts),
{
    GroupFile { path: copy(&file.path), duration_ns: file.duration_ns, facts }
}

fn raw_group(
    linked: &LinkedGroup,
    files: &Vec<Option<FileFingerprint>>,
    facts: &Vec<FileFacts>,
) -> (r: RawGroup)
    requires
        facts@.len() == linked.members@.len(),
        has_fingerprints(*linked, files@),
    ensures
        gathers(r, *linked, files@, facts@),
{
    let mut members: Vec<GroupFile> = Vec::new();
    let mut i: usize = 0;
    while i < linked.members.len()
        invariant
            i <= linked.members@.len(),
            facts@.len() == linked.members@.len(),
            has_fingerprints(*linked, files@),
            members@.len() == i,
            forall|j: int|
                0 <= j < i ==> gathers_file(
                    #[trigger] members@[j],
                    files@[linked.members@[j] as int]->0,
                    facts@[j],
                ),
        decreases linked.members@.len() - i,
    {
        match &files[linked.members[i]] {
            Some(file) => members.push(group_file(file, facts[i])),
            None => {
                assert(files@[linked.members@[i as int] as int] is Some);
            },
        }
        i = i + 1;
    }
    RawGroup { members, similarity: linked.similarity }
}

/// Gathers the files of each group of `linked`; `facts` holds what is known on disk of each
/// file of each group.
pub fn raw_groups(
    linked: &Vec<LinkedGroup>,
    files: &Vec<Option<FileFingerprint>>,
    facts: &Vec<Vec<FileFacts>>,
) -> (r: Vec<RawGroup>)
    requires
        facts@.len() == linked@.len(),
        forall|q: int|
            0 <= q < linked@.len() ==> (#[trigger] facts@[q])@.len() == linked@[q].members@.len(),
        forall|q: int| 0 <= q < linked@.len() ==> has_fingerprints(#[trigger] linked@[q], files@),
    ensures
        gathers_all(r@, linked@, files@, facts@),
{
    let mut out: Vec<RawGroup> = Vec::new();
    let mut q: usize = 0;
    while q < linked.len()
        invariant
            q <= linked@.len(),
            facts@.len() == linked@.len(),
            forall|p: int|
                0 <= p < linked@.len() ==> (#[trigger] facts@[p])@.len()
                    == linked@[p].members@.len(),
            forall|p: int|
                0 <= p < linked@.len() ==> has_fingerprints(#[trigger] linked@[p], files@),
            out@.len() == q,
            forall|p: int|
                0 <= p < q ==> gathers(#[trigger] out@[p], linked@[p], files@, facts@[p]@),
        decreases linked@.len() - q,
    {
        out.push(raw_group(&linked[q], files, &facts[q]));
        q = q + 1;
    }
    out
}

/// Gathers the group of one file and its duplicates: first the file itself, then those of
/// `found`. `facts` holds what is known on disk of each, in that order.
pub fn target_group(
    target: &FileFingerprint,
    found: &LinkedGroup,
    files: &Vec<FileFingerprint>,
    facts: &Vec<FileFacts>,
) -> (r: RawGroup)
    requires
        facts@.len() == found.members@.len() + 1,
        forall|i: int|
            0 <= i < found.members@.len() ==> (#[trigger] found.members@[i]) < files@.len(),
    ensures
        r.similarity == found.similarity,
        r.members@.len() == facts@.len(),
        gathers_file(r.members@[0], *target, facts@[0]),
        forall|i: int|
            1 <= i < r.members@.len() ==> gathers_file(
                #[trigger] r.members@[i],
                files@[found.members@[i - 1] as int],
                facts@[i],
            ),
{
    let mut members: Vec<GroupFile> = Vec::new();
    members.push(group_file(target, facts[0]));
    let mut i: usize = 0;
    while i < found.members.len()
        invariant
            i <= found.members@.len(),
            facts@.len() == found.members@.len() + 1,
            forall|j: int|
                0 <= j < found.members@.len() ==> (#[trigger] found.members@[j]) < files@.len(),
            members@.len() == i + 1,
            gathers_file(members@[0], *target, facts@[0]),
            forall|j: int|
                1 <= j < members@.len() ==> gathers_file(
                    #[trigger] members@[j],
                    files@[found.members@[j - 1] as int],
                    facts@[j],
                ),
        decreases found.members@.len() - i,
    {
        members.push(group_file(&files[found.members[i]], facts[i + 1]));
        i = i + 1;
    }
    RawGroup { members, similarity: found.similarity }
}

/// The files of the groups that matching pairs make have fingerprints.
pub proof fn law_duplicate_groups_have_fingerprints(
    linked: Seq<LinkedGroup>,
    files: Seq<Option<FileFingerprint>>,
    pairs: Seq<(usize, usize)>,
    threshold: crate::fingerprint::Threshold,
    q: int,
)
    requires
        files.len() <= usize::MAX,
        forall|k: int|
            0 <= k < pairs.len() ==> (#[trigger] pairs[k]).0 < files.len() && pairs[k].1
                < files.len(),
        crate::matcher::are_duplicate_groups(linked, files, pairs, threshold),
        0 <= q < linked.len(),
    ensures
        has_fingerprints(linked[q], files),
{
    let links = crate::matcher::matching_pairs(files, threshold, pairs);
    let total = files.len() as int;
    let group = crate::matcher::linked_groups(links, total, total)[q];
    assert(linked[q].members@ == group);
    assert forall|i: int| 0 <= i < group.len() implies (#[trigger] group[i]) < files.len()
        && files[group[i] as int] is Some by {
        crate::matcher::law_every_file_of_a_group_matches_another(files, threshold, pairs, q, i);
    }
}

// --- Identifiers ---

/// What of a file goes into the identifier of its group.
pub struct IdEntry {
    /// Its path.
    pub path: Seq<char>,
    /// Its size in bytes.
    pub size: u64,
    /// Its modification time.
    pub mtime_secs: i64,
}

/// What of a member goes into the identifier.
pub open spec fn id_entry(member: GroupFile) -> IdEntry {
    IdEntry {
        path: member.path@,
        size: member.facts.size,
        mtime_secs: member.facts.mtime_secs,
    }
}

/// An entry as bytes: the length of the path, the path, the size, the modification time.
pub open spec fn entry_bytes(entry: IdEntry) -> Seq<u8> {
    let path = vstd::utf8::encode_utf8(entry.path);
    vstd::bytes::spec_u64_to_le_bytes(path.len() as u64) + path + (
    vstd::bytes::spec_u64_to_le_bytes(entry.size) + vstd::bytes::spec_u64_to_le_bytes(
        crate::keep::mtime_rank(entry.mtime_secs),
    ))
}

/// Entries as bytes, one behind the other.
pub open spec fn entries_bytes(entries: Seq<IdEntry>) -> Seq<u8>
    decreases entries.len(),
{
    if entries.len() == 0 {
        seq![]
    } else {
        entries_bytes(entries.drop_last()) + entry_bytes(entries.last())
    }
}

/// The keys by which the members of a group sort by path.
pub open spec fn path_keys(members: Seq<GroupFile>) -> Seq<Seq<u64>> {
    Seq::new(members.len(), |i: int| crate::path::path_key(members[i].path@))
}

/// The entries of a group, sorted by path.
pub open spec fn id_entries(members: Seq<GroupFile>) -> Seq<IdEntry> {
    let order = crate::order::stable_order(path_keys(members));
    Seq::new(members.len(), |k: int| id_entry(members[order[k] as int]))
}

/// What of a sequence of bytes is hashed: all of it, unless it is longer than a hash takes.
pub open spec fn hashed_part(bytes: Seq<u8>) -> Seq<u8> {
    if bytes.len() <= crate::hash::MAX_HASHED_BYTES {
        bytes
    } else {
        bytes.take(crate::hash::MAX_HASHED_BYTES as int)
    }
}

/// The identifier of a group: the SHA-256 of its entries, sorted by path.
pub open spec fn group_id_text(members: Seq<GroupFile>) -> Seq<char> {
    crate::text::hex_text(crate::hash::sha256_of(hashed_part(entries_bytes(id_entries(members)))))
}

fn push_entry(out: &mut Vec<u8>, member: &GroupFile)
    ensures
        final(out)@ == old(out)@ + entry_bytes(id_entry(*member)),
{
    let path = member.path.as_str().as_bytes();
    let rank: u64 = (member.facts.mtime_secs as i128 + 0x8000_0000_0000_0000) as u64;
    let ghost before = out@;
    let mut length = vstd::bytes::u64_to_le_bytes(path.len() as u64);
    let mut size = vstd::bytes::u64_to_le_bytes(member.facts.size);
    let mut mtime = vstd::bytes::u64_to_le_bytes(rank);
    out.append(&mut length);
    out.extend_from_slice(path);
    out.append(&mut size);
    out.append(&mut mtime);
    proof {
        assert(out@ =~= before + entry_bytes(id_entry(*member)));
    }
}

fn member_keys(members: &Vec<GroupFile>) -> (r: Vec<Vec<u64>>)
    ensures
        crate::order::key_views(r@) == path_keys(members@),
{
    let mut keys: Vec<Vec<u64>> = Vec::new();
    let mut i: usize = 0;
    while i < members.len()
        invariant
            i <= members@.len(),
            crate::order::key_views(keys@) == path_keys(members@).take(i as int),
        decreases members@.len() - i,
    {
        let ghost keys0 = keys@;
        let key = sort_key(members[i].path.as_str());
        let ghost added = key@;
        keys.push(key);
        proof {
            assert(crate::order::key_views(keys@) =~= crate::order::key_views(keys0).push(added));
            assert(crate::order::key_views(keys@) =~= path_keys(members@).take(i + 1));
        }
        i = i + 1;
    }
    proof {
        assert(path_keys(members@).take(members@.len() as int) =~= path_keys(members@));
    }
    keys
}

/// The identifier of the group of `members`.
pub fn group_id(members: &Vec<GroupFile>) -> (r: String)
    ensures
        r@ == group_id_text(members@),
        r@.len() == 64,
{
    let keys = member_keys(members);
    let order = sort_order(&keys);
    proof {
        assert(crate::order::key_views(keys@).len() == keys@.len());
    }
    let mut bytes: Vec<u8> = Vec::new();
    let mut k: usize = 0;
    let ghost entries = id_entries(members@);
    proof {
        assert(entries.take(0) =~= seq![]);
    }
    while k < order.len()
        invariant
            k <= order@.len(),
            order@.len() == members@.len(),
            entries == id_entries(members@),
            order@ == crate::order::stable_order(path_keys(members@)),
            forall|i: int| 0 <= i < order@.len() ==> #[trigger] order@[i] < members@.len(),
            bytes@ == entries_bytes(entries.take(k as int)),
        decreases order@.len() - k,
    {
        push_entry(&mut bytes, &members[order[k]]);
        proof {
            assert(entries.take(k + 1).drop_last() =~= entries.take(k as int));
            assert(entries.take(k + 1).last() == id_entry(members@[order@[k as int] as int]));
        }
        k = k + 1;
    }
    proof {
        assert(entries.take(members@.len() as int) =~= entries);
    }
    if bytes.len() as u64 <= crate::hash::MAX_HASHED_BYTES {
        sha256_hex(&bytes)
    } else {
        sha256_hex(
            vstd::slice::slice_subrange(
                bytes.as_slice(),
                0,
                crate::hash::MAX_HASHED_BYTES as usize,
            ),
        )
    }
}

proof fn lemma_entry_bytes_injective(a: IdEntry, b: IdEntry, s: Seq<u8>, t: Seq<u8>)
    requires
        entry_bytes(a) + s == entry_bytes(b) + t,
        vstd::utf8::encode_utf8(a.path).len() <= u64::MAX,
        vstd::utf8::encode_utf8(b.path).len() <= u64::MAX,
    ensures
        a == b,
        s == t,
{
    vstd::bytes::lemma_auto_spec_u64_to_from_le_bytes();
    let x = entry_bytes(a) + s;
    let y = entry_bytes(b) + t;
    let p = vstd::utf8::encode_utf8(a.path);
    let q = vstd::utf8::encode_utf8(b.path);
    let m: u64 = p.len() as u64;
    let n: u64 = q.len() as u64;
    assert(x.take(8) =~= vstd::bytes::spec_u64_to_le_bytes(m));
    assert(y.take(8) =~= vstd::bytes::spec_u64_to_le_bytes(n));
    assert(m == n);
    assert(x.subrange(8, 8 + m as int) =~= p);
    assert(y.subrange(8, 8 + m as int) =~= q);
    vstd::utf8::encode_utf8_decode_utf8(a.path);
    vstd::utf8::encode_utf8_decode_utf8(b.path);
    assert(a.path == b.path);
    assert(x.subrange(8 + m as int, 16 + m as int) =~= vstd::bytes::spec_u64_to_le_bytes(a.size));
    assert(y.subrange(8 + m as int, 16 + m as int) =~= vstd::bytes::spec_u64_to_le_bytes(b.size));
    let ra = crate::keep::mtime_rank(a.mtime_secs);
    let rb = crate::keep::mtime_rank(b.mtime_secs);
    assert(x.subrange(16 + m as int, 24 + m as int) =~= vstd::bytes::spec_u64_to_le_bytes(ra));
    assert(y.subrange(16 + m as int, 24 + m as int) =~= vstd::bytes::spec_u64_to_le_bytes(rb));
    assert(s =~= x.skip(24 + m as int));
    assert(t =~= y.skip(24 + m as int));
}

proof fn lemma_entry_bytes_len(entry: IdEntry)
    ensures
        entry_bytes(entry).len() >= 24,
{
    vstd::bytes::lemma_auto_spec_u64_to_from_le_bytes();
    let path = vstd::utf8::encode_utf8(entry.path);
    let rank = crate::keep::mtime_rank(entry.mtime_secs);
    assert(vstd::bytes::spec_u64_to_le_bytes(path.len() as u64).len() == 8);
    assert(vstd::bytes::spec_u64_to_le_bytes(entry.size).len() == 8);
    assert(vstd::bytes::spec_u64_to_le_bytes(rank).len() == 8);
}

proof fn lemma_entries_bytes_front(entries: Seq<IdEntry>)
    requires
        entries.len() > 0,
    ensures
        entries_bytes(entries) == entry_bytes(entries[0]) + entries_bytes(entries.skip(1)),
    decreases entries.len(),
{
    if entries.len() == 1 {
        assert(entries.drop_last() =~= seq![]);
        assert(entries.skip(1) =~= seq![]);
        assert(entries_bytes(entries) =~= entry_bytes(entries[0]) + entries_bytes(entries.skip(1)));
    } else {
        lemma_entries_bytes_front(entries.drop_last());
        assert(entries.drop_last().skip(1) =~= entries.skip(1).drop_last());
        assert(entries_bytes(entries) =~= entry_bytes(entries[0]) + entries_bytes(entries.skip(1)));
    }
}

/// The bytes that are hashed tell groups apart: they are the same only for the same
/// paths, sizes and modification times.
pub proof fn law_id_bytes_tell_groups_apart(a: Seq<IdEntry>, b: Seq<IdEntry>)
    requires
        entries_bytes(a) == entries_bytes(b),
        forall|i: int|
            0 <= i < a.len() ==> vstd::utf8::encode_utf8((#[trigger] a[i]).path).len() <= u64::MAX,
        forall|i: int|
            0 <= i < b.len() ==> vstd::utf8::encode_utf8((#[trigger] b[i]).path).len() <= u64::MAX,
    ensures
        a == b,
    decreases a.len(),
{
    vstd::bytes::lemma_auto_spec_u64_to_from_le_bytes();
    if a.len() > 0 {
        lemma_entries_bytes_front(a);
    }
    if b.len() > 0 {
        lemma_entries_bytes_front(b);
    }
    if a.len() > 0 && b.len() > 0 {
        lemma_entry_bytes_injective(
            a[0],
            b[0],
            entries_bytes(a.skip(1)),
            entries_bytes(b.skip(1)),
        );
        law_id_bytes_tell_groups_apart(a.skip(1), b.skip(1));
        assert(a =~= seq![a[0]] + a.skip(1));
        assert(b =~= seq![b[0]] + b.skip(1));
    } else {
        if a.len() > 0 {
            lemma_entry_bytes_len(a[0]);
            assert(entries_bytes(b).len() == 0);
        }
        if b.len() > 0 {
            lemma_entry_bytes_len(b[0]);
            assert(entries_bytes(a).len() == 0);
        }
        assert(a =~= b);
    }
}

/// The same files give the same identifier, in whatever order they were found.
pub proof fn law_group_id_ignores_order(a: Seq<GroupFile>, b: Seq<GroupFile>)
    requires
        a.len() <= usize::MAX,
        b.len() <= usize::MAX,
        forall|i: int, j: int|
            0 <= i < j < a.len() ==> !crate::path::same_path(
                (#[trigger] a[i]).path@,
                (#[trigger] a[j]).path@,
            ),
        forall|i: int, j: int|
            0 <= i < j < b.len() ==> !crate::path::same_path(
                (#[trigger] b[i]).path@,
                (#[trigger] b[j]).path@,
            ),
        forall|i: int|
            0 <= i < a.len() ==> exists|j: int|
                0 <= j < b.len() && id_entry(#[trigger] b[j]) == id_entry(#[trigger] a[i]),
        forall|j: int|
            0 <= j < b.len() ==> exists|i: int|
                0 <= i < a.len() && id_entry(#[trigger] a[i]) == id_entry(#[trigger] b[j]),
    ensures
        group_id_text(a) == group_id_text(b),
{
    let x = id_entries(a);
    let y = id_entries(b);
    let before = |p: IdEntry, q: IdEntry|
        crate::path::path_key(p.path) != crate::path::path_key(q.path) && crate::order::lex_le(
            crate::path::path_key(p.path),
            crate::path::path_key(q.path),
        );
    assert forall|p: IdEntry, q: IdEntry| #[trigger] before(p, q) implies !before(q, p) by {
        if before(q, p) {
            crate::order::law_lex_le_antisymmetric(
                crate::path::path_key(p.path),
                crate::path::path_key(q.path),
            );
        }
    }
    lemma_entries_sorted(a);
    lemma_entries_sorted(b);
    assert forall|e: IdEntry| #[trigger] x.contains(e) <==> y.contains(e) by {
        if x.contains(e) {
            let i = choose|i: int| 0 <= i < a.len() && id_entry(#[trigger] a[i]) == e;
            let j = choose|j: int|
                0 <= j < b.len() && id_entry(#[trigger] b[j]) == id_entry(a[i]);
            assert(id_entry(b[j]) == e);
        }
        if y.contains(e) {
            let j = choose|j: int| 0 <= j < b.len() && id_entry(#[trigger] b[j]) == e;
            let i = choose|i: int|
                0 <= i < a.len() && id_entry(#[trigger] a[i]) == id_entry(b[j]);
            assert(id_entry(a[i]) == e);
        }
    }
    crate::order::lemma_sorted_lists_equal(x, y, before);
}

/// The entries of a group come in the order of their paths, and are those of its members.
proof fn lemma_entries_sorted(members: Seq<GroupFile>)
    requires
        members.len() <= usize::MAX,
        forall|i: int, j: int|
            0 <= i < j < members.len() ==> !crate::path::same_path(
                (#[trigger] members[i]).path@,
                (#[trigger] members[j]).path@,
            ),
    ensures
        forall|i: int, j: int|
            0 <= i < j < members.len() ==> crate::path::path_key(
                (#[trigger] id_entries(members)[i]).path,
            ) != crate::path::path_key((#[trigger] id_entries(members)[j]).path)
                && crate::order::lex_le(
                crate::path::path_key(id_entries(members)[i].path),
                crate::path::path_key(id_entries(members)[j].path),
            ),
        forall|e: IdEntry| #[trigger]
            id_entries(members).contains(e) <==> exists|i: int|
                0 <= i < members.len() && id_entry(#[trigger] members[i]) == e,
{
    let keys = path_keys(members);
    let order = crate::order::stable_order(keys);
    let entries = id_entries(members);
    let witness = crate::order::law_stable_order_exists(keys, members.len() as int);
    assert(crate::order::is_stable_order(keys, witness, 0, keys.len() as int));
    assert(crate::order::is_stable_order(keys, order, 0, members.len() as int));
    assert forall|i: int, j: int| 0 <= i < j < members.len() implies crate::path::path_key(
        (#[trigger] entries[i]).path,
    ) != crate::path::path_key((#[trigger] entries[j]).path) && crate::order::lex_le(
        crate::path::path_key(entries[i].path),
        crate::path::path_key(entries[j].path),
    ) by {
        let p = order[i] as int;
        let q = order[j] as int;
        assert(crate::order::comes_before(keys, p, q));
        crate::path::law_path_key_tells_paths_apart(members[p].path@, members[q].path@);
        if keys[p] == keys[q] {
            assert(p < q);
            assert(!crate::path::same_path(members[p].path@, members[q].path@));
        }
    }
    assert forall|e: IdEntry| #[trigger] entries.contains(e) <==> exists|i: int|
        0 <= i < members.len() && id_entry(#[trigger] members[i]) == e by {
        if entries.contains(e) {
            let k = choose|k: int| 0 <= k < entries.len() && entries[k] == e;
            assert(id_entry(members[order[k] as int]) == e);
        }
        if exists|i: int| 0 <= i < members.len() && id_entry(#[trigger] members[i]) == e {
            let i = choose|i: int| 0 <= i < members.len() && id_entry(#[trigger] members[i]) == e;
            assert(order.contains(i as usize));
            let k = choose|k: int| 0 <= k < order.len() && order[k] == i as usize;
            assert(entries[k] == e);
        }
    }
}

// --- Presentation ---

/// The quality of a member.
pub open spec fn member_quality(member: GroupFile) -> Seq<u64> {
    crate::keep::quality(crate::keep::is_lossless_path(member.path@), member.facts)
}

/// Numbers in the opposite order.
pub open spec fn reversed(key: Seq<u64>) -> Seq<u64> {
    key.map_values(|v: u64| (u64::MAX - v) as u64)
}

/// The key by which members are presented: best quality first, then by path.
pub open spec fn display_key(member: GroupFile) -> Seq<u64> {
    reversed(member_quality(member)) + crate::path::path_key(member.path@)
}

/// The keys by which the members of a group are presented.
pub open spec fn display_keys(members: Seq<GroupFile>) -> Seq<Seq<u64>> {
    Seq::new(members.len(), |i: int| display_key(members[i]))
}

/// `file` shows `member`, not classified yet.
pub open spec fn shows(file: DuplicateFile, member: GroupFile) -> bool {
    &&& file.path@ == member.path@
    &&& file.duration_ns == member.duration_ns
    &&& file.match_kind == MatchKind::Similar
}

/// `group` presents `raw`: with its identifier, its files by quality.
pub open spec fn presents(group: DuplicateGroup, raw: RawGroup) -> bool {
    let order = crate::order::stable_order(display_keys(raw.members@));
    &&& group.id@ == group_id_text(raw.members@)
    &&& group.similarity == raw.similarity
    &&& group.files@.len() == raw.members@.len()
    &&& forall|k: int|
        0 <= k < group.files@.len() ==> shows(
            #[trigger] group.files@[k],
            raw.members@[order[k] as int],
        )
}

fn presentation_key(member: &GroupFile) -> (r: Vec<u64>)
    ensures
        r@ == display_key(*member),
{
    let quality = quality_score(member.path.as_str(), &member.facts);
    let mut path = sort_key(member.path.as_str());
    let ghost tail = path@;
    let mut key: Vec<u64> = Vec::new();
    let mut i: usize = 0;
    while i < quality.len()
        invariant
            i <= quality@.len(),
            quality@ == member_quality(*member),
            key@ == reversed(quality@).take(i as int),
        decreases quality@.len() - i,
    {
        key.push(u64::MAX - quality[i]);
        proof {
            assert(key@ =~= reversed(quality@).take(i + 1));
        }
        i = i + 1;
    }
    key.append(&mut path);
    proof {
        assert(reversed(quality@).take(quality@.len() as int) =~= reversed(quality@));
        assert(key@ =~= display_key(*member));
    }
    key
}

/// Presents a group.
pub fn present_group(raw: &RawGroup) -> (r: DuplicateGroup)
    ensures
        presents(r, *raw),
{
    let members = &raw.members;
    let mut keys: Vec<Vec<u64>> = Vec::new();
    let mut i: usize = 0;
    while i < members.len()
        invariant
            i <= members@.len(),
            crate::order::key_views(keys@) == display_keys(members@).take(i as int),
        decreases members@.len() - i,
    {
        let ghost keys0 = keys@;
        let key = presentation_key(&members[i]);
        let ghost added = key@;
        keys.push(key);
        proof {
            assert(crate::order::key_views(keys@) =~= crate::order::key_views(keys0).push(added));
            assert(crate::order::key_views(keys@) =~= display_keys(members@).take(i + 1));
        }
        i = i + 1;
    }
    proof {
        assert(display_keys(members@).take(members@.len() as int) =~= display_keys(members@));
        assert(crate::order::key_views(keys@).len() == keys@.len());
    }
    let order = sort_order(&keys);
    let mut files: Vec<DuplicateFile> = Vec::new();
    let mut k: usize = 0;
    while k < order.len()
        invariant
            k <= order@.len(),
            order@.len() == members@.len(),
            order@ == crate::order::stable_order(display_keys(members@)),
            forall|i: int| 0 <= i < order@.len() ==> #[trigger] order@[i] < members@.len(),
            files@.len() == k,
            forall|i: int|
                0 <= i < k ==> shows(#[trigger] files@[i], members@[order@[i] as int]),
        decreases order@.len() - k,
    {
        let member = &members[order[k]];
        files.push(
            DuplicateFile {
                path: copy(&member.path),
                duration_ns: member.duration_ns,
                match_kind: MatchKind::Similar,
            },
        );
        k = k + 1;
    }
    DuplicateGroup { id: group_id(members), files, similarity: raw.similarity }
}

/// The characters of a text as numbers that order as they do.
pub open spec fn text_key(s: Seq<char>) -> Seq<u64> {
    s.map_values(|c: char| (c as u32) as u64)
}

fn key_of_text(s: &str) -> (r: Vec<u64>)
    ensures
        r@ == text_key(s@),
{
    let chars = to_chars(s);
    let mut key: Vec<u64> = Vec::new();
    let mut i: usize = 0;
    while i < chars.len()
        invariant
            i <= chars@.len(),
            chars@ == s@,
            key@ == text_key(s@).take(i as int),
        decreases chars@.len() - i,
    {
        key.push(chars[i] as u32 as u64);
        proof {
            assert(key@ =~= text_key(s@).take(i + 1));
        }
        i = i + 1;
    }
    proof {
        assert(text_key(s@).take(s@.len() as int) =~= text_key(s@));
    }
    key
}

/// The keys by which groups are presented: their identifiers.
pub open spec fn id_keys(groups: Seq<RawGroup>) -> Seq<Seq<u64>> {
    Seq::new(groups.len(), |i: int| text_key(group_id_text(groups[i].members@)))
}

/// `groups` present those of `raw`, sorted by their identifiers.
pub open spec fn presents_all(groups: Seq<DuplicateGroup>, raw: Seq<RawGroup>) -> bool {
    let order = crate::order::stable_order(id_keys(raw));
    &&& groups.len() == raw.len()
    &&& forall|k: int|
        0 <= k < groups.len() ==> presents(#[trigger] groups[k], raw[order[k] as int])
}

/// Presents groups, sorted by their identifiers.
pub fn present_groups(groups: &Vec<RawGroup>) -> (r: Vec<DuplicateGroup>)
    ensures
        presents_all(r@, groups@),
{
    let mut keys: Vec<Vec<u64>> = Vec::new();
    let mut i: usize = 0;
    while i < groups.len()
        invariant
            i <= groups@.len(),
            crate::order::key_views(keys@) == id_keys(groups@).take(i as int),
        decreases groups@.len() - i,
    {
        let ghost keys0 = keys@;
        let key = key_of_text(group_id(&groups[i].members).as_str());
        let ghost added = key@;
        keys.push(key);
        proof {
            assert(crate::order::key_views(keys@) =~= crate::order::key_views(keys0).push(added));
            assert(crate::order::key_views(keys@) =~= id_keys(groups@).take(i + 1));
        }
        i = i + 1;
    }
    proof {
        assert(id_keys(groups@).take(groups@.len() as int) =~= id_keys(groups@));
        assert(crate::order::key_views(keys@).len() == keys@.len());
    }
    let order = sort_order(&keys);
    let mut out: Vec<DuplicateGroup> = Vec::new();
    let mut k: usize = 0;
    while k < order.len()
        invariant
            k <= order@.len(),
            order@.len() == groups@.len(),
            order@ == crate::order::stable_order(id_keys(groups@)),
            forall|i: int| 0 <= i < order@.len() ==> #[trigger] order@[i] < groups@.len(),
            out@.len() == k,
            forall|i: int|
                0 <= i < k ==> presents(#[trigger] out@[i], groups@[order@[i] as int]),
        decreases order@.len() - k,
    {
        out.push(present_group(&groups[order[k]]));
        k = k + 1;
    }
    out
}

proof fn lemma_reversed_order(a: Seq<u64>, b: Seq<u64>, s: Seq<u64>, t: Seq<u64>)
    requires
        a.len() == b.len(),
        crate::order::lex_le(reversed(a) + s, reversed(b) + t),
    ensures
        crate::order::lex_le(b, a),
    decreases a.len(),
{
    if a.len() > 0 {
        let x = reversed(a) + s;
        let y = reversed(b) + t;
        assert(x[0] == u64::MAX - a[0]);
        assert(y[0] == u64::MAX - b[0]);
        if a[0] == b[0] {
            assert(x.skip(1) =~= reversed(a.skip(1)) + s);
            assert(y.skip(1) =~= reversed(b.skip(1)) + t);
            lemma_reversed_order(a.skip(1), b.skip(1), s, t);
        }
    }
}

/// The files of a presented group are sorted by quality, best first.
pub proof fn law_files_are_sorted_by_quality(members: Seq<GroupFile>, i: int, j: int)
    requires
        0 <= i < j < members.len() <= usize::MAX,
    ensures
        ({
            let order = crate::order::stable_order(display_keys(members));
            crate::order::lex_le(
                member_quality(members[order[j] as int]),
                member_quality(members[order[i] as int]),
            )
        }),
{
    let keys = display_keys(members);
    let witness = crate::order::law_stable_order_exists(keys, members.len() as int);
    assert(crate::order::is_stable_order(keys, witness, 0, keys.len() as int));
    let order = crate::order::stable_order(keys);
    assert(crate::order::is_stable_order(keys, order, 0, keys.len() as int));
    let p = order[i] as int;
    let q = order[j] as int;
    assert(crate::order::comes_before(keys, p, q));
    crate::order::law_lex_le_reflexive(keys[p]);
    lemma_reversed_order(
        member_quality(members[p]),
        member_quality(members[q]),
        crate::path::path_key(members[p].path@),
        crate::path::path_key(members[q].path@),
    );
}

/// Presented groups are sorted by their identifiers.
pub proof fn law_groups_are_sorted_by_id(groups: Seq<RawGroup>, i: int, j: int)
    requires
        0 <= i < j < groups.len() <= usize::MAX,
    ensures
        ({
            let order = crate::order::stable_order(id_keys(groups));
            crate::order::lex_le(
                text_key(group_id_text(groups[order[i] as int].members@)),
                text_key(group_id_text(groups[order[j] as int].members@)),
            )
        }),
{
    let keys = id_keys(groups);
    let witness = crate::order::law_stable_order_exists(keys, groups.len() as int);
    assert(crate::order::is_stable_order(keys, witness, 0, keys.len() as int));
    let order = crate::order::stable_order(keys);
    assert(crate::order::is_stable_order(keys, order, 0, keys.len() as int));
    assert(crate::order::comes_before(keys, order[i] as int, order[j] as int));
    crate::order::law_lex_le_reflexive(keys[order[i] as int]);
}

/// Every file of a group is presented.
pub proof fn law_presentation_keeps_every_file(raw: RawGroup, group: DuplicateGroup, i: int)
    requires
        presents(group, raw),
        0 <= i < raw.members@.len() <= usize::MAX,
    ensures
        exists|k: int| 0 <= k < group.files@.len() && shows(
            #[trigger] group.files@[k],
            raw.members@[i],
        ),
{
    let keys = display_keys(raw.members@);
    let witness = crate::order::law_stable_order_exists(keys, keys.len() as int);
    assert(crate::order::is_stable_order(keys, witness, 0, keys.len() as int));
    let order = crate::order::stable_order(keys);
    assert(crate::order::is_stable_order(keys, order, 0, keys.len() as int));
    assert(order.contains(i as usize));
    let k = choose|k: int| 0 <= k < order.len() && order[k] == i as usize;
    assert(shows(group.files@[k], raw.members@[i]));
}

/// The stable order of keys lists each of their positions once.
proof fn lemma_order_lists_each_once(keys: Seq<Seq<u64>>)
    requires
        keys.len() <= usize::MAX,
    ensures
        crate::order::stable_order(keys).len() == keys.len(),
        forall|i: int|
            0 <= i < keys.len() ==> #[trigger] crate::order::stable_order(keys)[i] < keys.len(),
        forall|x: int|
            0 <= x < keys.len() ==> #[trigger] crate::order::stable_order(keys).contains(
                x as usize,
            ),
        forall|i: int, j: int|
            0 <= i < keys.len() && 0 <= j < keys.len() && crate::order::stable_order(keys)[i]
                == crate::order::stable_order(keys)[j] ==> i == j,
{
    let witness = crate::order::law_stable_order_exists(keys, keys.len() as int);
    assert(crate::order::is_stable_order(keys, witness, 0, keys.len() as int));
    let order = crate::order::stable_order(keys);
    assert(crate::order::is_stable_order(keys, order, 0, keys.len() as int));
    assert forall|i: int, j: int|
        0 <= i < keys.len() && 0 <= j < keys.len() && order[i] == order[j] implies i == j by {
        if i < j {
            assert(crate::order::comes_before(keys, order[i] as int, order[j] as int));
        }
        if j < i {
            assert(crate::order::comes_before(keys, order[j] as int, order[i] as int));
        }
    }
}

/// A presented group holds exactly the files that are linked: each file of the linked group
/// is presented, and each presented file is one of them.
pub proof fn law_a_presented_group_holds_exactly_the_linked_files(
    linked: LinkedGroup,
    files: Seq<Option<FileFingerprint>>,
    facts: Seq<FileFacts>,
    raw: RawGroup,
    group: DuplicateGroup,
)
    requires
        linked.members@.len() <= usize::MAX,
        gathers(raw, linked, files, facts),
        presents(group, raw),
    ensures
        group.files@.len() == linked.members@.len(),
        group.similarity == linked.similarity,
        forall|i: int|
            0 <= i < linked.members@.len() ==> exists|k: int|
                0 <= k < group.files@.len() && (#[trigger] group.files@[k]).path@ == files[(
                #[trigger] linked.members@[i]) as int]->0.path@,
        forall|k: int|
            0 <= k < group.files@.len() ==> exists|i: int|
                0 <= i < linked.members@.len() && (#[trigger] group.files@[k]).path@ == files[(
                #[trigger] linked.members@[i]) as int]->0.path@,
{
    let keys = display_keys(raw.members@);
    let order = crate::order::stable_order(keys);
    lemma_order_lists_each_once(keys);
    assert forall|i: int| 0 <= i < linked.members@.len() implies exists|k: int|
        0 <= k < group.files@.len() && (#[trigger] group.files@[k]).path@ == files[(
        #[trigger] linked.members@[i]) as int]->0.path@ by {
        assert(order.contains(i as usize));
        let k = choose|k: int| 0 <= k < order.len() && order[k] == i as usize;
        assert(shows(group.files@[k], raw.members@[order[k] as int]));
        assert(gathers_file(raw.members@[i], files[linked.members@[i] as int]->0, facts[i]));
    }
    assert forall|k: int| 0 <= k < group.files@.len() implies exists|i: int|
        0 <= i < linked.members@.len() && (#[trigger] group.files@[k]).path@ == files[(
        #[trigger] linked.members@[i]) as int]->0.path@ by {
        let i = order[k] as int;
        assert(shows(group.files@[k], raw.members@[i]));
        assert(gathers_file(raw.members@[i], files[linked.members@[i] as int]->0, facts[i]));
    }
}

/// The file of `files` that a presented file of a group stands for.
proof fn lemma_presented_file(
    linked: Seq<LinkedGroup>,
    files: Seq<Option<FileFingerprint>>,
    facts: Seq<Vec<FileFacts>>,
    raw: Seq<RawGroup>,
    groups: Seq<DuplicateGroup>,
    p: int,
    i: int,
) -> (at: (int, int))
    requires
        raw.len() <= usize::MAX,
        forall|q: int| 0 <= q < linked.len() ==> (#[trigger] linked[q]).members@.len() <= usize::MAX,
        gathers_all(raw, linked, files, facts),
        presents_all(groups, raw),
        0 <= p < groups.len(),
        0 <= i < groups[p].files@.len(),
    ensures
        at.0 == crate::order::stable_order(id_keys(raw))[p],
        0 <= at.0 < linked.len(),
        at.1 == crate::order::stable_order(display_keys(raw[at.0].members@))[i],
        0 <= at.1 < linked[at.0].members@.len(),
        raw[at.0].members@.len() == groups[p].files@.len() == linked[at.0].members@.len(),
        groups[p].files@[i].path@ == files[linked[at.0].members@[at.1] as int]->0.path@,
{
    lemma_order_lists_each_once(id_keys(raw));
    let q = crate::order::stable_order(id_keys(raw))[p] as int;
    assert(presents(groups[p], raw[q]));
    assert(gathers(raw[q], linked[q], files, facts[q]@));
    lemma_order_lists_each_once(display_keys(raw[q].members@));
    let x = crate::order::stable_order(display_keys(raw[q].members@))[i] as int;
    assert(shows(groups[p].files@[i], raw[q].members@[x]));
    assert(gathers_file(raw[q].members@[x], files[linked[q].members@[x] as int]->0, facts[q]@[x]));
    (q, x)
}

/// No path is in two presented groups, nor twice in one, where no two files have the same path.
pub proof fn law_no_path_is_presented_twice(
    linked: Seq<LinkedGroup>,
    files: Seq<Option<FileFingerprint>>,
    pairs: Seq<(usize, usize)>,
    threshold: crate::fingerprint::Threshold,
    facts: Seq<Vec<FileFacts>>,
    raw: Seq<RawGroup>,
    groups: Seq<DuplicateGroup>,
    p: int,
    i: int,
    q: int,
    j: int,
)
    requires
        files.len() <= usize::MAX,
        linked.len() <= usize::MAX,
        forall|k: int|
            0 <= k < pairs.len() ==> (#[trigger] pairs[k]).0 < files.len() && pairs[k].1
                < files.len(),
        forall|a: int, b: int|
            0 <= a < b < files.len() && (#[trigger] files[a]) is Some && (#[trigger] files[b]) is Some
                ==> files[a]->0.path@ != files[b]->0.path@,
        crate::matcher::are_duplicate_groups(linked, files, pairs, threshold),
        gathers_all(raw, linked, files, facts),
        presents_all(groups, raw),
        0 <= p < groups.len(),
        0 <= i < groups[p].files@.len(),
        0 <= q < groups.len(),
        0 <= j < groups[q].files@.len(),
        groups[p].files@[i].path@ == groups[q].files@[j].path@,
    ensures
        p == q,
        i == j,
{
    let links = crate::matcher::matching_pairs(files, threshold, pairs);
    let total = files.len() as int;
    assert forall|g: int| 0 <= g < linked.len() implies (#[trigger] linked[g]).members@.len()
        <= usize::MAX by {
        crate::matcher::law_groups_list_files_in_order(links, total, g);
    }
    let a = lemma_presented_file(linked, files, facts, raw, groups, p, i);
    let b = lemma_presented_file(linked, files, facts, raw, groups, q, j);
    law_duplicate_groups_have_fingerprints(linked, files, pairs, threshold, a.0);
    law_duplicate_groups_have_fingerprints(linked, files, pairs, threshold, b.0);
    crate::matcher::law_groups_list_files_in_order(links, total, a.0);
    let x = linked[a.0].members@[a.1];
    let y = linked[b.0].members@[b.1];
    assert(files[x as int] is Some && files[y as int] is Some);
    assert(x == y);
    crate::matcher::law_no_file_is_in_two_groups(links, total, a.0, b.0, x);
    lemma_order_lists_each_once(id_keys(raw));
    assert(p == q);
    assert(a.1 == b.1);
    lemma_order_lists_each_once(display_keys(raw[a.0].members@));
}

/// Of two files of a presented group, the earlier one is no worse: it is lossless if the other
/// one is, and where both are or neither is, its sample rate is no lower; at the same rate, it
/// has no fewer bits per sample; with as many, no fewer bytes. Of files that are as good, the
/// earlier one comes first by its path.
pub proof fn law_better_files_are_presented_first(
    raw: RawGroup,
    group: DuplicateGroup,
    i: int,
    j: int,
) -> (at: (int, int))
    requires
        presents(group, raw),
        raw.members@.len() <= usize::MAX,
        0 <= i < j < group.files@.len(),
    ensures
        0 <= at.0 < raw.members@.len(),
        0 <= at.1 < raw.members@.len(),
        at.0 != at.1,
        ({
            let a = raw.members@[at.0];
            let b = raw.members@[at.1];
            let lossless_a = crate::keep::is_lossless_path(a.path@);
            let lossless_b = crate::keep::is_lossless_path(b.path@);
            let same_rate = lossless_a == lossless_b && a.facts.sample_rate == b.facts.sample_rate;
            let same_depth = same_rate && a.facts.bits_per_sample == b.facts.bits_per_sample;
            &&& group.files@[i].path@ == a.path@ && group.files@[i].duration_ns == a.duration_ns
            &&& group.files@[j].path@ == b.path@ && group.files@[j].duration_ns == b.duration_ns
            &&& lossless_b ==> lossless_a
            &&& lossless_a == lossless_b ==> a.facts.sample_rate >= b.facts.sample_rate
            &&& same_rate ==> a.facts.bits_per_sample >= b.facts.bits_per_sample
            &&& same_depth ==> a.facts.size >= b.facts.size
            &&& same_depth && a.facts.size == b.facts.size ==> crate::order::lex_le(
                crate::path::path_key(a.path@),
                crate::path::path_key(b.path@),
            )
        }),
{
    let members = raw.members@;
    let keys = display_keys(members);
    let order = crate::order::stable_order(keys);
    crate::order::law_a_stable_order_sorts(keys, i, j);
    law_files_are_sorted_by_quality(members, i, j);
    let p = order[i] as int;
    let q = order[j] as int;
    let a = members[p];
    let b = members[q];
    assert(shows(group.files@[i], a));
    assert(shows(group.files@[j], b));
    crate::keep::lemma_quality_order(
        crate::keep::is_lossless_path(b.path@),
        b.facts,
        crate::keep::is_lossless_path(a.path@),
        a.facts,
    );
    if crate::keep::is_lossless_path(a.path@) == crate::keep::is_lossless_path(b.path@)
        && a.facts.sample_rate == b.facts.sample_rate && a.facts.bits_per_sample
        == b.facts.bits_per_sample && a.facts.size == b.facts.size {
        assert(member_quality(a) =~= member_quality(b));
        crate::order::law_a_common_start_does_not_count(
            reversed(member_quality(a)),
            crate::path::path_key(a.path@),
            crate::path::path_key(b.path@),
        );
    }
    (p, q)
}

/// The identifier of a group is the SHA-256, in hexadecimal, of its files' entries, where the
/// entries are the path, the size and the modification time of each file, and of no other.
pub proof fn law_the_id_is_the_hash_of_path_size_and_time(
    members: Seq<GroupFile>,
    path: Seq<char>,
    size: u64,
    mtime_secs: i64,
)
    requires
        members.len() <= usize::MAX,
        entries_bytes(id_entries(members)).len() <= 0x1fff_ffff_ffff_ffff,
    ensures
        group_id_text(members) == crate::text::hex_text(
            crate::hash::sha256_of(entries_bytes(id_entries(members))),
        ),
        id_entries(members).len() == members.len(),
        id_entries(members).contains((IdEntry { path, size, mtime_secs })) <==> exists|i: int|
            0 <= i < members.len() && (#[trigger] members[i]).path@ == path
                && members[i].facts.size == size && members[i].facts.mtime_secs == mtime_secs,
{
    let keys = path_keys(members);
    let order = crate::order::stable_order(keys);
    let entries = id_entries(members);
    let wanted = IdEntry { path, size, mtime_secs };
    lemma_order_lists_each_once(keys);
    if entries.contains(wanted) {
        let k = choose|k: int| 0 <= k < entries.len() && entries[k] == wanted;
        let member = members[order[k] as int];
        assert(id_entry(member) == wanted);
        assert(member.path@ == path);
    }
    if exists|i: int|
        0 <= i < members.len() && (#[trigger] members[i]).path@ == path && members[i].facts.size
            == size && members[i].facts.mtime_secs == mtime_secs {
        let i = choose|i: int|
            0 <= i < members.len() && (#[trigger] members[i]).path@ == path
                && members[i].facts.size == size && members[i].facts.mtime_secs == mtime_secs;
        assert(order.contains(i as usize));
        let k = choose|k: int| 0 <= k < order.len() && order[k] == i as usize;
        assert(entries[k] == wanted);
    }
}

/// Presented groups come in the order of their identifiers, character by character, and each
/// group that was found is presented once.
pub proof fn law_presented_groups_are_those_found(
    groups: Seq<DuplicateGroup>,
    raw: Seq<RawGroup>,
    i: int,
    j: int,
)
    requires
        presents_all(groups, raw),
        raw.len() <= usize::MAX,
        0 <= i < j < groups.len(),
    ensures
        groups.len() == raw.len(),
        crate::order::lex_le(text_key(groups[i].id@), text_key(groups[j].id@)),
        exists|p: int, q: int|
            0 <= p < raw.len() && 0 <= q < raw.len() && p != q && #[trigger] presents(
                groups[i],
                raw[p],
            ) && #[trigger] presents(groups[j], raw[q]),
{
    let keys = id_keys(raw);
    let order = crate::order::stable_order(keys);
    crate::order::law_a_stable_order_sorts(keys, i, j);
    let p = order[i] as int;
    let q = order[j] as int;
    assert(presents(groups[i], raw[p]));
    assert(presents(groups[j], raw[q]));
}

/// A member of a group is the file that was found, with its path and duration and with what is
/// known of it on disk, and it is shown with the same path and duration.
pub proof fn law_members_keep_path_and_duration(
    file: FileFingerprint,
    facts: FileFacts,
    member: GroupFile,
    shown: DuplicateFile,
)
    ensures
        gathers_file(member, file, facts) <==> member.path@ == file.path@ && member.duration_ns
            == file.duration_ns && member.facts == facts,
        gathers_file(member, file, facts) && shows(shown, member) ==> shown.path@ == file.path@
            && shown.duration_ns == file.duration_ns && shown.match_kind is Similar,
{
}

} // verus!
