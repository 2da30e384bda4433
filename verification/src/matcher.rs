//! Duplicate detection and grouping: candidate pairs are verified by comparing their
//! fingerprints, and the files of accepted pairs are grouped transitively.

use std::collections::HashMap;

use vstd::prelude::*;

use crate::database::FileFingerprint;
use crate::fingerprint::{compare_fingerprints, durations_compatible, Similarity, Threshold};

pub use crate::classify::{classify_matches, filter_by_mbids};
pub use crate::lsh::{compute_band_hashes, generate_candidates_lsh, hash_band};
pub use crate::path::shares_root;
pub use crate::union_find::UnionFind;

verus! {

broadcast use vstd::std_specs::hash::group_hash_axioms;

/// How closely two files match (only meaningful for 100% fingerprint matches).
#[derive(Debug, Clone, Copy, PartialEq, Eq, Structural)]
pub enum MatchKind {
    /// Files are byte-for-byte identical (same hash).
    ExactCopy,
    /// Same audio content but different metadata, container, or encoding.
    SameAudio,
    /// Similarity-based match (score below 100%).
    Similar,
}

/// A single file within a duplicate group.
#[derive(Debug, Clone)]
pub struct DuplicateFile {
    /// Absolute path to the audio file.
    pub path: String,
    /// Full duration of the audio in nanoseconds.
    pub duration_ns: u64,
    /// Classification of the match (exact copy, same audio, or similar).
    pub match_kind: MatchKind,
}

/// A group of files that are acoustic duplicates of each other.
#[derive(Debug, Clone)]
pub struct DuplicateGroup {
    /// Identifier that stays the same as long as the files do: a SHA-256 in hexadecimal.
    pub id: String,
    /// Files in this group, sorted by quality (best first).
    pub files: Vec<DuplicateFile>,
    /// Similarity score between files in this group.
    pub similarity: Similarity,
}

/// A candidate pair as the database gives it: two files by number and path.
#[derive(Debug, Clone)]
pub struct CandidatePair {
    /// Number of the first file.
    pub id1: u64,
    /// Path of the first file.
    pub path1: String,
    /// Number of the second file.
    pub id2: u64,
    /// Path of the second file.
    pub path2: String,
}

/// Whether a pair is looked at: with `same_tree` only one below a common root.
pub open spec fn keeps_pair(pair: CandidatePair, same_tree: bool) -> bool {
    same_tree ==> crate::path::spec_shares_root(pair.path1@, pair.path2@)
}

/// The pairs that are looked at, in their order.
pub open spec fn kept_pairs(pairs: Seq<CandidatePair>, same_tree: bool) -> Seq<(u64, u64)>
    decreases pairs.len(),
{
    if pairs.len() == 0 {
        seq![]
    } else {
        let before = kept_pairs(pairs.drop_last(), same_tree);
        if keeps_pair(pairs.last(), same_tree) {
            before.push((pairs.last().id1, pairs.last().id2))
        } else {
            before
        }
    }
}

/// The numbers of the pairs that are looked at.
pub fn select_pairs(pairs: &Vec<CandidatePair>, same_tree: bool) -> (r: Vec<(u64, u64)>)
    ensures
        r@ == kept_pairs(pairs@, same_tree),
{
    let mut out: Vec<(u64, u64)> = Vec::new();
    let mut i: usize = 0;
    while i < pairs.len()
        invariant
            i <= pairs@.len(),
            out@ == kept_pairs(pairs@.take(i as int), same_tree),
        decreases pairs@.len() - i,
    {
        let pair = &pairs[i];
        proof {
            assert(pairs@.take(i + 1).drop_last() =~= pairs@.take(i as int));
        }
        if !same_tree || shares_root(pair.path1.as_str(), pair.path2.as_str()) {
            out.push((pair.id1, pair.id2));
        }
        i = i + 1;
    }
    proof {
        assert(pairs@.take(pairs@.len() as int) =~= pairs@);
    }
    out
}

/// The distinct numbers in a list of pairs, in the order in which they first come.
pub open spec fn first_seen(pairs: Seq<(u64, u64)>) -> Seq<u64>
    decreases pairs.len(),
{
    if pairs.len() == 0 {
        seq![]
    } else {
        with_id(with_id(first_seen(pairs.drop_last()), pairs.last().0), pairs.last().1)
    }
}

/// A list of numbers with one more, unless it is in it.
pub open spec fn with_id(ids: Seq<u64>, id: u64) -> Seq<u64> {
    if ids.contains(id) {
        ids
    } else {
        ids.push(id)
    }
}

/// Pairs of files, and their pairs as positions in the list of files.
#[derive(Debug)]
pub struct IndexedPairs {
    /// The distinct numbers, in the order in which they first come.
    pub ids: Vec<u64>,
    /// The pairs, by positions in `ids`.
    pub pairs: Vec<(usize, usize)>,
}

spec fn indexes(ids: Seq<u64>, slots: Map<u64, usize>) -> bool {
    &&& forall|id: u64|
        #[trigger] slots.contains_key(id) ==> slots[id] < ids.len() && ids[slots[id] as int] == id
    &&& forall|k: int|
        0 <= k < ids.len() ==> slots.contains_key(#[trigger] ids[k]) && slots[ids[k]] == k
}

fn slot_of(ids: &mut Vec<u64>, slots: &mut HashMap<u64, usize>, id: u64) -> (r: usize)
    requires
        indexes(old(ids)@, old(slots)@),
    ensures
        indexes(final(ids)@, final(slots)@),
        final(ids)@ == with_id(old(ids)@, id),
        r < final(ids)@.len(),
        final(ids)@[r as int] == id,
        old(ids)@.len() <= final(ids)@.len(),
        forall|k: int| 0 <= k < old(ids)@.len() ==> final(ids)@[k] == #[trigger] old(ids)@[k],
{
    match slots.get(&id) {
        Some(slot) => {
            let r: usize = *slot;
            proof {
                assert(ids@[r as int] == id);
            }
            r
        },
        None => {
            let r: usize = ids.len();
            proof {
                if ids@.contains(id) {
                    let k = choose|k: int| 0 <= k < ids@.len() && ids@[k] == id;
                    assert(slots@.contains_key(ids@[k]));
                }
            }
            ids.push(id);
            slots.insert(id, r);
            r
        },
    }
}

/// Numbers the files of a list of pairs in the order in which they first come.
pub fn index_pairs(pairs: &Vec<(u64, u64)>) -> (r: IndexedPairs)
    ensures
        r.ids@ == first_seen(pairs@),
        r.pairs@.len() == pairs@.len(),
        forall|k: int|
            0 <= k < pairs@.len() ==> {
                let p = #[trigger] r.pairs@[k];
                p.0 < r.ids@.len() && r.ids@[p.0 as int] == pairs@[k].0 && p.1 < r.ids@.len()
                    && r.ids@[p.1 as int] == pairs@[k].1
            },
{
    let mut ids: Vec<u64> = Vec::new();
    let mut slots: HashMap<u64, usize> = HashMap::new();
    let mut out: Vec<(usize, usize)> = Vec::new();
    let mut i: usize = 0;
    while i < pairs.len()
        invariant
            i <= pairs@.len(),
            indexes(ids@, slots@),
            ids@ == first_seen(pairs@.take(i as int)),
            out@.len() == i,
            forall|k: int|
                0 <= k < i ==> {
                    let p = #[trigger] out@[k];
                    p.0 < ids@.len() && ids@[p.0 as int] == pairs@[k].0 && p.1 < ids@.len()
                        && ids@[p.1 as int] == pairs@[k].1
                },
        decreases pairs@.len() - i,
    {
        proof {
            assert(pairs@.take(i + 1).drop_last() =~= pairs@.take(i as int));
        }
        let a: usize = slot_of(&mut ids, &mut slots, pairs[i].0);
        let b: usize = slot_of(&mut ids, &mut slots, pairs[i].1);
        out.push((a, b));
        i = i + 1;
    }
    proof {
        assert(pairs@.take(pairs@.len() as int) =~= pairs@);
    }
    IndexedPairs { ids, pairs: out }
}

// --- Linking ---

/// The similarity of two files; without a fingerprint there is none.
pub open spec fn file_similarity(
    files: Seq<Option<FileFingerprint>>,
    i: int,
    j: int,
) -> Similarity {
    match (files[i], files[j]) {
        (Some(a), Some(b)) => crate::fingerprint::similarity_of(a.fingerprint@, b.fingerprint@),
        _ => Similarity::spec_none(),
    }
}

/// Whether a candidate pair is a match: both fingerprints are there, the durations
/// are compatible and the similarity reaches the threshold.
pub open spec fn is_match(
    files: Seq<Option<FileFingerprint>>,
    threshold: Threshold,
    i: int,
    j: int,
) -> bool {
    match (files[i], files[j]) {
        (Some(a), Some(b)) => {
            &&& crate::fingerprint::spec_durations_compatible(
                a.duration_ns as int,
                b.duration_ns as int,
            )
            &&& crate::fingerprint::similarity_of(
                a.fingerprint@,
                b.fingerprint@,
            ).spec_reaches(threshold)
        },
        _ => false,
    }
}

/// The candidate pairs that are matches, in their order.
pub open spec fn matching_pairs(
    files: Seq<Option<FileFingerprint>>,
    threshold: Threshold,
    pairs: Seq<(usize, usize)>,
) -> Seq<(usize, usize)>
    decreases pairs.len(),
{
    if pairs.len() == 0 {
        seq![]
    } else {
        let before = matching_pairs(files, threshold, pairs.drop_last());
        if is_match(files, threshold, pairs.last().0 as int, pairs.last().1 as int) {
            before.push(pairs.last())
        } else {
            before
        }
    }
}

/// A file that stands for all that `a` is joined to by `links`.
pub open spec fn representative(links: Seq<(usize, usize)>, a: int) -> int
    decreases links.len(),
{
    if links.len() == 0 {
        a
    } else {
        let before = links.drop_last();
        let x = links.last().0 as int;
        let y = links.last().1 as int;
        if representative(before, a) == representative(before, y) {
            representative(before, x)
        } else {
            representative(before, a)
        }
    }
}

/// Whether `links` join `a` and `b`, directly or through other files.
pub open spec fn linked(links: Seq<(usize, usize)>, a: int, b: int) -> bool {
    representative(links, a) == representative(links, b)
}

/// Being linked is an equivalence.
pub proof fn law_linked_is_an_equivalence(links: Seq<(usize, usize)>, a: int, b: int, c: int)
    ensures
        linked(links, a, a),
        linked(links, a, b) == linked(links, b, a),
        linked(links, a, b) && linked(links, b, c) ==> linked(links, a, c),
{
}

/// The two files of a link are linked.
pub proof fn law_links_are_linked(links: Seq<(usize, usize)>, k: int)
    requires
        0 <= k < links.len(),
    ensures
        linked(links, links[k].0 as int, links[k].1 as int),
    decreases links.len(),
{
    if k < links.len() - 1 {
        law_links_are_linked(links.drop_last(), k);
        assert(links.drop_last()[k] == links[k]);
    }
}

proof fn lemma_representative_related(
    links: Seq<(usize, usize)>,
    related: spec_fn(int, int) -> bool,
    a: int,
)
    requires
        forall|x: int| #[trigger] related(x, x),
        forall|x: int, y: int| #[trigger] related(x, y) ==> related(y, x),
        forall|x: int, y: int, z: int| #[trigger] related(x, y) && #[trigger] related(y, z) ==> related(x, z),
        forall|k: int|
            0 <= k < links.len() ==> related((#[trigger] links[k]).0 as int, links[k].1 as int),
    ensures
        related(a, representative(links, a)),
    decreases links.len(),
{
    if links.len() > 0 {
        let before = links.drop_last();
        let x = links.last().0 as int;
        let y = links.last().1 as int;
        assert forall|k: int| 0 <= k < before.len() implies related(
            (#[trigger] before[k]).0 as int,
            before[k].1 as int,
        ) by {
            assert(before[k] == links[k]);
        }
        lemma_representative_related(before, related, a);
        lemma_representative_related(before, related, x);
        lemma_representative_related(before, related, y);
        assert(related(x, y)) by {
            assert(links[links.len() - 1] == links.last());
        }
        let ra = representative(before, a);
        let rx = representative(before, x);
        let ry = representative(before, y);
        if ra == ry {
            assert(related(a, ry));
            assert(related(ry, y));
            assert(related(a, y));
            assert(related(y, x));
            assert(related(a, x));
            assert(related(x, rx));
            assert(related(a, rx));
        }
    }
}

/// Being linked is the least equivalence that joins the files of every link: what is
/// linked is related in each equivalence that relates the files of every link.
pub proof fn law_linked_is_least(
    links: Seq<(usize, usize)>,
    related: spec_fn(int, int) -> bool,
    a: int,
    b: int,
)
    requires
        forall|x: int| #[trigger] related(x, x),
        forall|x: int, y: int| #[trigger] related(x, y) ==> related(y, x),
        forall|x: int, y: int, z: int| #[trigger] related(x, y) && #[trigger] related(y, z) ==> related(x, z),
        forall|k: int|
            0 <= k < links.len() ==> related((#[trigger] links[k]).0 as int, links[k].1 as int),
        linked(links, a, b),
    ensures
        related(a, b),
{
    lemma_representative_related(links, related, a);
    lemma_representative_related(links, related, b);
    let r = representative(links, a);
    assert(related(r, b));
}

/// The files of a candidate pair that matches are linked.
pub proof fn law_matching_candidates_are_linked(
    files: Seq<Option<FileFingerprint>>,
    threshold: Threshold,
    pairs: Seq<(usize, usize)>,
    k: int,
)
    requires
        0 <= k < pairs.len(),
        is_match(files, threshold, pairs[k].0 as int, pairs[k].1 as int),
    ensures
        linked(
            matching_pairs(files, threshold, pairs),
            pairs[k].0 as int,
            pairs[k].1 as int,
        ),
    decreases pairs.len(),
{
    let links = matching_pairs(files, threshold, pairs);
    if k == pairs.len() - 1 {
        law_links_are_linked(links, links.len() - 1);
    } else {
        let before = pairs.drop_last();
        assert(before[k] == pairs[k]);
        law_matching_candidates_are_linked(files, threshold, before, k);
        let fewer = matching_pairs(files, threshold, before);
        if links != fewer {
            assert(links.drop_last() =~= fewer);
        }
    }
}

/// Files with the same fingerprint match at every threshold up to one, if their durations
/// are compatible.
pub proof fn law_equal_fingerprints_match(
    files: Seq<Option<FileFingerprint>>,
    threshold: Threshold,
    i: int,
    j: int,
)
    requires
        files[i] is Some,
        files[j] is Some,
        0 < files[i]->0.fingerprint@.len() <= usize::MAX,
        files[i]->0.fingerprint@ == files[j]->0.fingerprint@,
        crate::fingerprint::spec_durations_compatible(
            files[i]->0.duration_ns as int,
            files[j]->0.duration_ns as int,
        ),
        threshold.numer <= threshold.base(),
    ensures
        is_match(files, threshold, i, j),
{
    let print = files[i]->0.fingerprint@;
    let score = crate::fingerprint::similarity_of(print, print);
    crate::fingerprint::law_identical_fingerprints_match_perfectly(print);
    let matching = score.matching as int;
    let numer = threshold.numer as int;
    let base = threshold.base();
    assert(matching * base >= numer * matching) by (nonlinear_arith)
        requires
            matching >= 0,
            numer <= base,
    ;
}

/// The first `n` files that are linked to `a`, in ascending order.
pub open spec fn linked_files(links: Seq<(usize, usize)>, a: int, n: int) -> Seq<usize>
    decreases n,
{
    if n <= 0 {
        seq![]
    } else {
        let before = linked_files(links, a, n - 1);
        if linked(links, a, n - 1) {
            before.push((n - 1) as usize)
        } else {
            before
        }
    }
}

/// The best similarity of the first of `members` to the `n` first of them.
pub open spec fn best_similarity(
    files: Seq<Option<FileFingerprint>>,
    members: Seq<usize>,
    n: int,
) -> Similarity
    decreases n,
{
    if n <= 1 {
        Similarity::spec_none()
    } else {
        let before = best_similarity(files, members, n - 1);
        let score = file_similarity(files, members[0] as int, members[n - 1] as int);
        if score.spec_exceeds(before) {
            score
        } else {
            before
        }
    }
}

/// Whether no file before `a` is linked to it.
pub open spec fn leads(links: Seq<(usize, usize)>, a: int) -> bool {
    forall|b: int| 0 <= b < a ==> !#[trigger] linked(links, a, b)
}

/// The groups among `total` files that are led by the first `n` of them: for each
/// file that leads and is linked to another one, the files linked to it.
pub open spec fn linked_groups(links: Seq<(usize, usize)>, n: int, total: int) -> Seq<Seq<usize>>
    decreases n,
{
    if n <= 0 {
        seq![]
    } else {
        let before = linked_groups(links, n - 1, total);
        let members = linked_files(links, n - 1, total);
        if leads(links, n - 1) && members.len() > 1 {
            before.push(members)
        } else {
            before
        }
    }
}

/// A group of linked files, by position, and the best similarity of the first one
/// to the others.
#[derive(Debug)]
pub struct LinkedGroup {
    /// The files, in ascending order.
    pub members: Vec<usize>,
    /// The best similarity of the first file to another one.
    pub similarity: Similarity,
}

/// `groups` are the groups of files that matching candidate pairs link, each with the best
/// similarity of its first file to another one.
pub open spec fn are_duplicate_groups(
    groups: Seq<LinkedGroup>,
    files: Seq<Option<FileFingerprint>>,
    pairs: Seq<(usize, usize)>,
    threshold: Threshold,
) -> bool {
    let links = matching_pairs(files, threshold, pairs);
    let linked = linked_groups(links, files.len() as int, files.len() as int);
    &&& groups.len() == linked.len()
    &&& forall|q: int|
        0 <= q < groups.len() ==> (#[trigger] groups[q]).members@ == linked[q]
            && groups[q].similarity == best_similarity(files, linked[q], linked[q].len() as int)
}

/// Whether the candidate pair of `a` and `b` is a match.
fn matches_pair(
    a: &Option<FileFingerprint>,
    b: &Option<FileFingerprint>,
    threshold: Threshold,
) -> (r: bool)
    ensures
        r == match (*a, *b) {
            (Some(x), Some(y)) => {
                &&& crate::fingerprint::spec_durations_compatible(
                    x.duration_ns as int,
                    y.duration_ns as int,
                )
                &&& crate::fingerprint::similarity_of(
                    x.fingerprint@,
                    y.fingerprint@,
                ).spec_reaches(threshold)
            },
            _ => false,
        },
{
    match (a, b) {
        (Some(x), Some(y)) => durations_compatible(x.duration_ns, y.duration_ns)
            && compare_fingerprints(x.fingerprint.as_slice(), y.fingerprint.as_slice()).reaches(
            threshold,
        ),
        _ => false,
    }
}

/// Joins the files of every matching pair.
fn join_matches(
    files: &Vec<Option<FileFingerprint>>,
    pairs: &Vec<(usize, usize)>,
    threshold: Threshold,
) -> (uf: UnionFind)
    requires
        forall|k: int|
            0 <= k < pairs@.len() ==> (#[trigger] pairs@[k]).0 < files@.len() && pairs@[k].1
                < files@.len(),
    ensures
        uf.wf(),
        uf.spec_len() == files@.len(),
        forall|a: int, b: int|
            0 <= a < files@.len() && 0 <= b < files@.len() ==> (#[trigger] uf.same(a, b) <==> linked(
                matching_pairs(files@, threshold, pairs@),
                a,
                b,
            )),
{
    let mut uf = UnionFind::new(files.len());
    let mut i: usize = 0;
    proof {
        assert(pairs@.take(0) =~= seq![]);
    }
    while i < pairs.len()
        invariant
            i <= pairs@.len(),
            forall|k: int|
                0 <= k < pairs@.len() ==> (#[trigger] pairs@[k]).0 < files@.len() && pairs@[k].1
                    < files@.len(),
            uf.wf(),
            uf.spec_len() == files@.len(),
            forall|a: int, b: int|
                0 <= a < files@.len() && 0 <= b < files@.len() ==> (#[trigger] uf.same(a, b)
                    <==> linked(
                    matching_pairs(files@, threshold, pairs@.take(i as int)),
                    a,
                    b,
                )),
        decreases pairs@.len() - i,
    {
        let (x, y) = pairs[i];
        let ghost seen = pairs@.take(i + 1);
        proof {
            assert(seen.drop_last() =~= pairs@.take(i as int));
        }
        if matches_pair(&files[x], &files[y], threshold) {
            let ghost before = uf;
            uf.union(x, y);
            proof {
                crate::union_find::law_union_joins_two_sets(before, uf, x as int, y as int);
                let links0 = matching_pairs(files@, threshold, pairs@.take(i as int));
                let links = matching_pairs(files@, threshold, seen);
                assert(links.drop_last() =~= links0);
                assert forall|a: int, b: int|
                    0 <= a < files@.len() && 0 <= b < files@.len() implies (#[trigger] uf.same(a, b)
                    <==> linked(links, a, b)) by {
                    assert(before.same(a, b) <==> linked(links0, a, b));
                    assert(before.same(a, x as int) <==> linked(links0, a, x as int));
                    assert(before.same(y as int, b) <==> linked(links0, y as int, b));
                    assert(before.same(a, y as int) <==> linked(links0, a, y as int));
                    assert(before.same(x as int, b) <==> linked(links0, x as int, b));
                }
            }
        }
        i = i + 1;
    }
    proof {
        assert(pairs@.take(pairs@.len() as int) =~= pairs@);
    }
    uf
}

proof fn lemma_linked_files(links: Seq<(usize, usize)>, a: int, n: int)
    requires
        0 <= n <= usize::MAX,
    ensures
        linked_files(links, a, n).len() <= n,
        forall|k: int|
            0 <= k < linked_files(links, a, n).len() ==> (#[trigger] linked_files(links, a, n)[k])
                < n && linked(links, a, linked_files(links, a, n)[k] as int),
        forall|k: int, l: int|
            0 <= k < l < linked_files(links, a, n).len() ==> #[trigger] linked_files(links, a, n)[k]
                < #[trigger] linked_files(links, a, n)[l],
        forall|b: int|
            0 <= b < n && #[trigger] linked(links, a, b) ==> linked_files(links, a, n).contains(
                b as usize,
            ),
    decreases n,
{
    if n > 0 {
        lemma_linked_files(links, a, n - 1);
        let before = linked_files(links, a, n - 1);
        let now = linked_files(links, a, n);
        assert forall|b: int| 0 <= b < n && #[trigger] linked(links, a, b) implies now.contains(
            b as usize,
        ) by {
            if b < n - 1 {
                assert(before.contains(b as usize));
                let k = choose|k: int| 0 <= k < before.len() && before[k] == b as usize;
                assert(now[k] == b as usize);
            } else {
                assert(now[before.len() as int] == b as usize);
            }
        }
    }
}

proof fn lemma_linked_files_of_linked(links: Seq<(usize, usize)>, a: int, b: int, n: int)
    requires
        linked(links, a, b),
    ensures
        linked_files(links, a, n) == linked_files(links, b, n),
    decreases n,
{
    if n > 0 {
        lemma_linked_files_of_linked(links, a, b, n - 1);
    }
}

proof fn lemma_leader_is_first(links: Seq<(usize, usize)>, a: int, n: int)
    requires
        leads(links, a),
        0 <= a,
        n <= a,
    ensures
        linked_files(links, a, n).len() == 0,
    decreases n,
{
    if n > 0 {
        lemma_leader_is_first(links, a, n - 1);
    }
}

spec fn leader_of(class: Vec<usize>) -> int {
    class@[0] as int
}

/// `class` holds the files among the first `n` that are linked to its first one.
spec fn is_class(links: Seq<(usize, usize)>, n: int, class: Vec<usize>) -> bool {
    &&& class@.len() > 0
    &&& leader_of(class) < n
    &&& leads(links, leader_of(class))
    &&& class@ == linked_files(links, leader_of(class), n)
}

/// `classes` are the classes of linked files among the first `n`, by their leaders.
spec fn are_classes(links: Seq<(usize, usize)>, n: int, classes: Seq<Vec<usize>>) -> bool {
    &&& forall|q: int| 0 <= q < classes.len() ==> is_class(links, n, #[trigger] classes[q])
    &&& forall|p: int, q: int|
        0 <= p < q < classes.len() ==> leader_of(#[trigger] classes[p]) < leader_of(
            #[trigger] classes[q],
        )
    &&& forall|a: int|
        0 <= a < n && #[trigger] leads(links, a) ==> exists|q: int|
            0 <= q < classes.len() && leader_of(#[trigger] classes[q]) == a
}

/// `slots` leads from a root to the class of its set, where a file of it came.
spec fn are_slots(
    links: Seq<(usize, usize)>,
    uf: UnionFind,
    n: int,
    classes: Seq<Vec<usize>>,
    slots: Seq<usize>,
) -> bool {
    &&& slots.len() == uf.spec_len()
    &&& forall|r: int|
        0 <= r < slots.len() ==> #[trigger] slots[r] == slots.len() || (slots[r] < classes.len()
            && uf.root(leader_of(classes[slots[r] as int])) == r)
    &&& forall|a: int| 0 <= a < n ==> #[trigger] slots[uf.root(a)] < classes.len()
}

/// Sorts the files into classes of linked ones.
fn collect_classes(uf: &mut UnionFind, total: usize, Ghost(links): Ghost<Seq<(usize, usize)>>) -> (r:
    Vec<Vec<usize>>)
    requires
        old(uf).wf(),
        old(uf).spec_len() == total,
        forall|a: int, b: int|
            0 <= a < total && 0 <= b < total ==> (#[trigger] old(uf).same(a, b) <==> linked(
                links,
                a,
                b,
            )),
    ensures
        are_classes(links, total as int, r@),
{
    let mut slots: Vec<usize> = Vec::with_capacity(total);
    while slots.len() < total
        invariant
            slots@.len() <= total,
            forall|r: int| 0 <= r < slots@.len() ==> #[trigger] slots@[r] == total,
        decreases total - slots@.len(),
    {
        slots.push(total);
    }
    let mut classes: Vec<Vec<usize>> = Vec::new();
    let mut a: usize = 0;
    let ghost uf0 = *uf;
    while a < total
        invariant
            a <= total,
            uf.wf(),
            uf.spec_len() == total,
            uf0.wf(),
            uf0.spec_len() == total,
            forall|y: int| 0 <= y < total ==> #[trigger] uf.root(y) == uf0.root(y),
            forall|x: int, y: int|
                0 <= x < total && 0 <= y < total ==> (#[trigger] uf0.same(x, y) <==> linked(
                    links,
                    x,
                    y,
                )),
            are_classes(links, a as int, classes@),
            are_slots(links, uf0, a as int, classes@, slots@),
        decreases total - a,
    {
        let root: usize = uf.find(a);
        let ghost classes0 = classes@;
        let ghost slots0 = slots@;
        assert(root == uf0.root(a as int));
        let slot: usize = slots[root];
        if slot == total {
            let mut class: Vec<usize> = Vec::new();
            class.push(a);
            slots.set(root, classes.len());
            proof {
                assert(leads(links, a as int)) by {
                    assert forall|b: int| 0 <= b < a implies !#[trigger] linked(
                        links,
                        a as int,
                        b,
                    ) by {
                        assert(uf0.same(a as int, b) <==> linked(links, a as int, b));
                        assert(slots0[uf0.root(b)] < classes0.len());
                        lemma_class_count(links, a as int, classes0);
                    }
                }
                lemma_leader_is_first(links, a as int, a as int);
                lemma_class_count(links, a as int, classes0);
            }
            classes.push(class);
            proof {
                assert(classes@[classes0.len() as int]@ =~= linked_files(
                    links,
                    a as int,
                    a + 1,
                ));
                lemma_new_class(links, a as int, classes0, classes@);
                assert forall|r: int| 0 <= r < slots@.len() implies #[trigger] slots@[r]
                    == slots@.len() || (slots@[r] < classes@.len() && uf0.root(
                    leader_of(classes@[slots@[r] as int]),
                ) == r) by {
                    if r != root {
                        assert(slots@[r] == slots0[r]);
                        if slots0[r] < classes0.len() {
                            assert(classes@[slots0[r] as int] == classes0[slots0[r] as int]);
                        }
                    } else {
                        assert(leader_of(classes@[classes0.len() as int]) == a);
                    }
                }
                assert forall|b: int| 0 <= b < a + 1 implies #[trigger] slots@[uf0.root(b)]
                    < classes@.len() by {
                    crate::union_find::law_root_represents_itself(uf0, b);
                    if b < a {
                        assert(slots0[uf0.root(b)] < classes0.len());
                    }
                }
            }
        } else {
            let ghost leader = leader_of(classes@[slot as int]);
            proof {
                assert(uf0.root(leader) == root);
                assert(leader < a);
                assert(uf0.same(leader, a as int) <==> linked(links, leader, a as int));
                assert(!leads(links, a as int)) by {
                    assert(linked(links, a as int, leader));
                }
            }
            classes[slot].push(a);
            proof {
                lemma_joined_class(links, a as int, slot as int, classes0, classes@);
                assert forall|r: int| 0 <= r < slots@.len() implies #[trigger] slots@[r]
                    == slots@.len() || (slots@[r] < classes@.len() && uf0.root(
                    leader_of(classes@[slots@[r] as int]),
                ) == r) by {
                    if slots@[r] < classes@.len() {
                        assert(leader_of(classes@[slots@[r] as int]) == leader_of(classes0[slots@[r] as int]));
                    }
                }
                assert forall|b: int| 0 <= b < a + 1 implies #[trigger] slots@[uf0.root(b)]
                    < classes@.len() by {
                    if b == a {
                        assert(slots@[root as int] == slot);
                    }
                }
            }
        }
        a = a + 1;
    }
    classes
}

/// There are no more classes than files.
proof fn lemma_class_count(links: Seq<(usize, usize)>, n: int, classes: Seq<Vec<usize>>)
    requires
        0 <= n,
        are_classes(links, n, classes),
    ensures
        classes.len() <= n,
{
    lemma_leaders_spread(links, n, classes, classes.len() as int);
}

proof fn lemma_leaders_spread(
    links: Seq<(usize, usize)>,
    n: int,
    classes: Seq<Vec<usize>>,
    k: int,
)
    requires
        0 <= n,
        are_classes(links, n, classes),
        0 <= k <= classes.len(),
    ensures
        k > 0 ==> k - 1 <= leader_of(classes[k - 1]),
        k <= n,
    decreases k,
{
    if k > 0 {
        lemma_leaders_spread(links, n, classes, k - 1);
        if k > 1 {
            assert(leader_of(classes[k - 2]) < leader_of(classes[k - 1]));
        }
        assert(leader_of(classes[k - 1]) < n);
    }
}

proof fn lemma_new_class(
    links: Seq<(usize, usize)>,
    a: int,
    before: Seq<Vec<usize>>,
    after: Seq<Vec<usize>>,
)
    requires
        0 <= a < usize::MAX,
        are_classes(links, a, before),
        leads(links, a),
        after.len() == before.len() + 1,
        forall|q: int| 0 <= q < before.len() ==> after[q] == before[q],
        after[before.len() as int]@ == linked_files(links, a, a + 1),
        after[before.len() as int]@.len() > 0,
        leader_of(after[before.len() as int]) == a,
    ensures
        are_classes(links, a + 1, after),
{
    assert forall|q: int| 0 <= q < after.len() implies is_class(
        links,
        a + 1,
        #[trigger] after[q],
    ) by {
        if q < before.len() {
            let leader = leader_of(before[q]);
            assert(leads(links, leader));
            assert(!linked(links, a, leader));
        }
    }
    assert forall|p: int, q: int| 0 <= p < q < after.len() implies leader_of(#[trigger] after[p])
        < leader_of(#[trigger] after[q]) by {
        assert(leader_of(before[p]) < a);
        if q < before.len() {
            assert(leader_of(before[p]) < leader_of(before[q]));
        }
    }
    assert forall|b: int| 0 <= b < a + 1 && #[trigger] leads(links, b) implies exists|q: int|
        0 <= q < after.len() && leader_of(#[trigger] after[q]) == b by {
        if b < a {
            let q = choose|q: int| 0 <= q < before.len() && leader_of(#[trigger] before[q]) == b;
            assert(leader_of(after[q]) == b);
        } else {
            assert(leader_of(after[before.len() as int]) == b);
        }
    }
}

proof fn lemma_joined_class(
    links: Seq<(usize, usize)>,
    a: int,
    slot: int,
    before: Seq<Vec<usize>>,
    after: Seq<Vec<usize>>,
)
    requires
        0 <= a < usize::MAX,
        are_classes(links, a, before),
        !leads(links, a),
        0 <= slot < before.len(),
        linked(links, leader_of(before[slot]), a),
        after.len() == before.len(),
        forall|q: int| 0 <= q < before.len() && q != slot ==> after[q] == before[q],
        after[slot]@ == before[slot]@.push(a as usize),
    ensures
        are_classes(links, a + 1, after),
        forall|q: int| 0 <= q < before.len() ==> leader_of(#[trigger] after[q]) == leader_of(before[q]),
{
    let home = leader_of(before[slot]);
    assert forall|q: int| 0 <= q < after.len() implies is_class(links, a + 1, #[trigger] after[q])
        && leader_of(after[q]) == leader_of(before[q]) by {
        let leader = leader_of(before[q]);
        assert(leads(links, leader));
        assert(before[q]@.len() > 0);
        if q != slot {
            if linked(links, leader, a) {
                assert(linked(links, leader, home));
                assert(linked(links, home, leader));
                assert(leads(links, home));
                if q < slot {
                    assert(leader_of(before[q]) < leader_of(before[slot]));
                } else {
                    assert(leader_of(before[slot]) < leader_of(before[q]));
                }
            }
        }
    }
    assert forall|p: int, q: int| 0 <= p < q < after.len() implies leader_of(#[trigger] after[p])
        < leader_of(#[trigger] after[q]) by {
        assert(leader_of(before[p]) < leader_of(before[q]));
    }
    assert forall|b: int| 0 <= b < a + 1 && #[trigger] leads(links, b) implies exists|q: int|
        0 <= q < after.len() && leader_of(#[trigger] after[q]) == b by {
        let q = choose|q: int| 0 <= q < before.len() && leader_of(#[trigger] before[q]) == b;
        assert(leader_of(after[q]) == b);
    }
}

/// The best similarity of the first of `members` to the others.
fn best_of(files: &Vec<Option<FileFingerprint>>, members: &Vec<usize>) -> (r: Similarity)
    requires
        members@.len() > 0,
        forall|k: int| 0 <= k < members@.len() ==> #[trigger] members@[k] < files@.len(),
    ensures
        r == best_similarity(files@, members@, members@.len() as int),
{
    let mut best = Similarity::none();
    let mut k: usize = 1;
    while k < members.len()
        invariant
            1 <= k <= members@.len(),
            forall|k: int| 0 <= k < members@.len() ==> #[trigger] members@[k] < files@.len(),
            best == best_similarity(files@, members@, k as int),
        decreases members@.len() - k,
    {
        let score = match (&files[members[0]], &files[members[k]]) {
            (Some(a), Some(b)) => compare_fingerprints(
                a.fingerprint.as_slice(),
                b.fingerprint.as_slice(),
            ),
            _ => Similarity::none(),
        };
        if score.exceeds(&best) {
            best = score;
        }
        k = k + 1;
    }
    best
}

/// Verifies candidate pairs and groups the files of those that match, transitively.
///
/// `files` are the candidates, some perhaps without a fingerprint, and `pairs` their
/// pairs by position. The groups come in the order of their first files.
pub fn find_duplicates(
    files: &Vec<Option<FileFingerprint>>,
    pairs: &Vec<(usize, usize)>,
    threshold: Threshold,
) -> (r: Vec<LinkedGroup>)
    requires
        forall|k: int|
            0 <= k < pairs@.len() ==> (#[trigger] pairs@[k]).0 < files@.len() && pairs@[k].1
                < files@.len(),
    ensures
        are_duplicate_groups(r@, files@, pairs@, threshold),
{
    let ghost links = matching_pairs(files@, threshold, pairs@);
    let total: usize = files.len();
    let mut uf = join_matches(files, pairs, threshold);
    let mut classes = collect_classes(&mut uf, total, Ghost(links));
    let ghost all = classes@;
    proof {
        lemma_class_count(links, total as int, classes@);
    }
    // The classes are taken from the end, so that each can be moved into its group.
    let mut reversed: Vec<Vec<usize>> = Vec::new();
    while classes.len() > 0
        invariant
            classes@ == all.take(classes@.len() as int),
            classes@.len() + reversed@.len() == all.len(),
            forall|k: int|
                0 <= k < reversed@.len() ==> #[trigger] reversed@[k] == all[all.len() - 1 - k],
        decreases classes@.len(),
    {
        match classes.pop() {
            Some(class) => reversed.push(class),
            None => {},
        }
    }
    let mut out: Vec<LinkedGroup> = Vec::new();
    let mut a: usize = 0;
    while a < total
        invariant
            a <= total,
            total == files@.len(),
            are_classes(links, total as int, all),
            reversed@.len() <= all.len(),
            forall|k: int|
                0 <= k < reversed@.len() ==> #[trigger] reversed@[k] == all[all.len() - 1 - k],
            forall|q: int|
                0 <= q < all.len() - reversed@.len() ==> leader_of(#[trigger] all[q]) < a,
            forall|q: int|
                all.len() - reversed@.len() <= q < all.len() ==> leader_of(#[trigger] all[q]) >= a,
            out@.len() == linked_groups(links, a as int, total as int).len(),
            forall|q: int|
                0 <= q < out@.len() ==> (#[trigger] out@[q]).members@ == linked_groups(
                    links,
                    a as int,
                    total as int,
                )[q] && out@[q].similarity == best_similarity(
                    files@,
                    out@[q].members@,
                    out@[q].members@.len() as int,
                ),
        decreases total - a,
    {
        let ghost q = all.len() - reversed@.len();
        let ghost out0 = out@;
        let waiting: usize = reversed.len();
        proof {
            if waiting > 0 {
                assert(reversed@[waiting - 1] == all[q as int]);
                assert(is_class(links, total as int, all[q as int]));
            }
            if leads(links, a as int) {
                let w = choose|w: int| 0 <= w < all.len() && leader_of(#[trigger] all[w]) == a;
                assert(w >= q);
                if w > q {
                    assert(leader_of(all[q as int]) < leader_of(all[w]));
                }
            }
        }
        if waiting > 0 && reversed[waiting - 1][0] == a {
            match reversed.pop() {
                Some(members) => {
                    proof {
                        assert(members == all[q as int]);
                        lemma_linked_files(links, a as int, total as int);
                        assert(leads(links, a as int));
                    }
                    if members.len() > 1 {
                        let similarity = best_of(files, &members);
                        out.push(LinkedGroup { members, similarity });
                    }
                },
                None => {},
            }
            proof {
                assert forall|w: int| q + 1 <= w < all.len() implies leader_of(#[trigger] all[w])
                    >= a + 1 by {
                    assert(leader_of(all[q as int]) < leader_of(all[w]));
                }
            }
        } else {
            proof {
                assert(!leads(links, a as int));
                assert forall|w: int| q <= w < all.len() implies leader_of(#[trigger] all[w]) >= a
                    + 1 by {
                    if w > q {
                        assert(leader_of(all[q as int]) < leader_of(all[w]));
                    }
                }
            }
        }
        a = a + 1;
    }
    out
}

proof fn lemma_leader_exists(links: Seq<(usize, usize)>, x: int) -> (a: int)
    requires
        0 <= x,
    ensures
        0 <= a <= x,
        leads(links, a),
        linked(links, a, x),
    decreases x,
{
    if leads(links, x) {
        x
    } else {
        let b = choose|b: int| 0 <= b < x && #[trigger] linked(links, x, b);
        lemma_leader_exists(links, b)
    }
}

proof fn lemma_groups(links: Seq<(usize, usize)>, n: int, total: int)
    requires
        0 <= n,
    ensures
        forall|q: int|
            0 <= q < linked_groups(links, n, total).len() ==> exists|a: int|
                0 <= a < n && leads(links, a) && (#[trigger] linked_groups(links, n, total)[q])
                    == #[trigger] linked_files(links, a, total) && linked_files(
                    links,
                    a,
                    total,
                ).len() > 1,
        forall|a: int|
            0 <= a < n && leads(links, a) && (#[trigger] linked_files(links, a, total)).len() > 1
                ==> linked_groups(links, n, total).contains(linked_files(links, a, total)),
    decreases n,
{
    if n > 0 {
        lemma_groups(links, n - 1, total);
        let before = linked_groups(links, n - 1, total);
        let now = linked_groups(links, n, total);
        assert forall|q: int| 0 <= q < now.len() implies exists|a: int|
            0 <= a < n && leads(links, a) && (#[trigger] now[q]) == #[trigger] linked_files(
                links,
                a,
                total,
            ) && linked_files(links, a, total).len() > 1 by {
            if q < before.len() {
                assert(now[q] == before[q]);
                let a = choose|a: int|
                    0 <= a < n - 1 && leads(links, a) && before[q] == #[trigger] linked_files(
                        links,
                        a,
                        total,
                    ) && linked_files(links, a, total).len() > 1;
                assert(now[q] == linked_files(links, a, total));
            } else {
                assert(now[q] == linked_files(links, n - 1, total));
            }
        }
        assert forall|a: int|
            0 <= a < n && leads(links, a) && (#[trigger] linked_files(links, a, total)).len()
                > 1 implies now.contains(linked_files(links, a, total)) by {
            if a < n - 1 {
                assert(before.contains(linked_files(links, a, total)));
                let q = choose|q: int|
                    0 <= q < before.len() && before[q] == linked_files(links, a, total);
                assert(now[q] == before[q]);
            } else {
                assert(now[before.len() as int] == linked_files(links, a, total));
            }
        }
    }
}

/// Two different files are in a group together just where they are linked.
pub proof fn law_groups_are_the_linked_files(
    links: Seq<(usize, usize)>,
    total: int,
    x: usize,
    y: usize,
)
    requires
        0 <= total <= usize::MAX,
        x < total,
        y < total,
        x != y,
    ensures
        linked(links, x as int, y as int) <==> exists|q: int|
            0 <= q < linked_groups(links, total, total).len() && (#[trigger] linked_groups(
                links,
                total,
                total,
            )[q]).contains(x) && linked_groups(links, total, total)[q].contains(y),
{
    lemma_groups(links, total, total);
    let groups = linked_groups(links, total, total);
    if linked(links, x as int, y as int) {
        let a = lemma_leader_exists(links, x as int);
        lemma_linked_files(links, a, total);
        let members = linked_files(links, a, total);
        assert(linked(links, a, x as int) && linked(links, a, y as int));
        assert(members.contains(x));
        assert(members.contains(y));
        let i = choose|i: int| 0 <= i < members.len() && members[i] == x;
        let j = choose|j: int| 0 <= j < members.len() && members[j] == y;
        assert(members.len() > 1);
        assert(groups.contains(members));
        let q = choose|q: int| 0 <= q < groups.len() && groups[q] == members;
        assert(groups[q].contains(x) && groups[q].contains(y));
    }
    if exists|q: int|
        0 <= q < groups.len() && (#[trigger] groups[q]).contains(x) && groups[q].contains(y) {
        let q = choose|q: int|
            0 <= q < groups.len() && (#[trigger] groups[q]).contains(x) && groups[q].contains(y);
        let a = choose|a: int|
            0 <= a < total && leads(links, a) && groups[q] == #[trigger] linked_files(
                links,
                a,
                total,
            ) && linked_files(links, a, total).len() > 1;
        lemma_linked_files(links, a, total);
        let i = choose|i: int| 0 <= i < groups[q].len() && groups[q][i] == x;
        let j = choose|j: int| 0 <= j < groups[q].len() && groups[q][j] == y;
        assert(linked(links, a, linked_files(links, a, total)[i] as int));
        assert(linked(links, a, linked_files(links, a, total)[j] as int));
    }
}

/// A group has at least two files, each once, and only files that are there.
pub proof fn law_groups_have_two_files(links: Seq<(usize, usize)>, total: int, q: int)
    requires
        0 <= total <= usize::MAX,
        0 <= q < linked_groups(links, total, total).len(),
    ensures
        linked_groups(links, total, total)[q].len() >= 2,
        linked_groups(links, total, total)[q].no_duplicates(),
        forall|k: int|
            0 <= k < linked_groups(links, total, total)[q].len() ==> #[trigger] linked_groups(
                links,
                total,
                total,
            )[q][k] < total,
{
    lemma_groups(links, total, total);
    let groups = linked_groups(links, total, total);
    let a = choose|a: int|
        0 <= a < total && leads(links, a) && groups[q] == #[trigger] linked_files(links, a, total)
            && linked_files(links, a, total).len() > 1;
    lemma_linked_files(links, a, total);
    let members = linked_files(links, a, total);
    assert(groups[q] == members);
    assert forall|i: int, j: int| 0 <= i < members.len() && 0 <= j < members.len() && i != j implies members[i] != members[j] by {
        if i < j {
            assert(members[i] < members[j]);
        } else {
            assert(members[j] < members[i]);
        }
    }
}

/// The first file of a group of linked files is the one that leads it.
proof fn lemma_leader_comes_first(links: Seq<(usize, usize)>, a: int, total: int)
    requires
        0 <= a < total <= usize::MAX,
        leads(links, a),
    ensures
        linked_files(links, a, total).len() > 0,
        linked_files(links, a, total)[0] == a,
{
    lemma_linked_files(links, a, total);
    let members = linked_files(links, a, total);
    assert(linked(links, a, a));
    assert(members.contains(a as usize));
    let k = choose|k: int| 0 <= k < members.len() && members[k] == a as usize;
    if k > 0 {
        assert(members[0] < members[k]);
        assert(linked(links, a, members[0] as int));
    }
}

/// The groups come in the order of their first files.
proof fn lemma_groups_ascend(links: Seq<(usize, usize)>, n: int, total: int)
    requires
        0 <= n <= total <= usize::MAX,
    ensures
        forall|q: int|
            0 <= q < linked_groups(links, n, total).len() ==> (#[trigger] linked_groups(
                links,
                n,
                total,
            )[q])[0] < n,
        forall|q: int, p: int|
            0 <= q < p < linked_groups(links, n, total).len() ==> (#[trigger] linked_groups(
                links,
                n,
                total,
            )[q])[0] < (#[trigger] linked_groups(links, n, total)[p])[0],
    decreases n,
{
    if n > 0 {
        lemma_groups_ascend(links, n - 1, total);
        let before = linked_groups(links, n - 1, total);
        let groups = linked_groups(links, n, total);
        if leads(links, n - 1) {
            lemma_leader_comes_first(links, n - 1, total);
        }
        assert forall|q: int| 0 <= q < groups.len() implies (#[trigger] groups[q])[0] < n by {
            if q < before.len() {
                assert(groups[q] == before[q]);
            }
        }
        assert forall|q: int, p: int| 0 <= q < p < groups.len() implies (#[trigger] groups[q])[0]
            < (#[trigger] groups[p])[0] by {
            assert(groups[q] == before[q]);
            if p < before.len() {
                assert(groups[p] == before[p]);
            }
        }
    }
}

/// No file is in two groups.
pub proof fn law_no_file_is_in_two_groups(
    links: Seq<(usize, usize)>,
    total: int,
    p: int,
    q: int,
    x: usize,
)
    requires
        0 <= total <= usize::MAX,
        0 <= p < linked_groups(links, total, total).len(),
        0 <= q < linked_groups(links, total, total).len(),
        linked_groups(links, total, total)[p].contains(x),
        linked_groups(links, total, total)[q].contains(x),
    ensures
        p == q,
{
    lemma_groups(links, total, total);
    lemma_groups_ascend(links, total, total);
    let groups = linked_groups(links, total, total);
    let a = choose|a: int|
        0 <= a < total && leads(links, a) && groups[p] == #[trigger] linked_files(links, a, total)
            && linked_files(links, a, total).len() > 1;
    let b = choose|b: int|
        0 <= b < total && leads(links, b) && groups[q] == #[trigger] linked_files(links, b, total)
            && linked_files(links, b, total).len() > 1;
    lemma_linked_files(links, a, total);
    lemma_linked_files(links, b, total);
    lemma_leader_comes_first(links, a, total);
    lemma_leader_comes_first(links, b, total);
    let i = choose|i: int| 0 <= i < groups[p].len() && groups[p][i] == x;
    let j = choose|j: int| 0 <= j < groups[q].len() && groups[q][j] == x;
    assert(linked(links, a, linked_files(links, a, total)[i] as int));
    assert(linked(links, b, linked_files(links, b, total)[j] as int));
    assert(linked(links, a, b) && linked(links, b, a));
    assert(a == b);
}

/// The files of a group are listed in ascending order.
pub proof fn law_groups_list_files_in_order(links: Seq<(usize, usize)>, total: int, q: int)
    requires
        0 <= total <= usize::MAX,
        0 <= q < linked_groups(links, total, total).len(),
    ensures
        linked_groups(links, total, total)[q].len() <= total,
        forall|i: int, j: int|
            0 <= i < j < linked_groups(links, total, total)[q].len() ==> #[trigger] linked_groups(
                links,
                total,
                total,
            )[q][i] < #[trigger] linked_groups(links, total, total)[q][j],
{
    lemma_groups(links, total, total);
    let group = linked_groups(links, total, total)[q];
    let a = choose|a: int|
        0 <= a < total && leads(links, a) && group == #[trigger] linked_files(links, a, total)
            && linked_files(links, a, total).len() > 1;
    lemma_linked_files(links, a, total);
    lemma_ascending_is_short(group, group.len() as int, total);
}

proof fn lemma_ascending_is_short(list: Seq<usize>, n: int, total: int)
    requires
        0 <= n <= list.len(),
        0 <= total,
        forall|i: int| 0 <= i < list.len() ==> #[trigger] list[i] < total,
        forall|i: int, j: int| 0 <= i < j < list.len() ==> #[trigger] list[i] < #[trigger] list[j],
    ensures
        n <= total,
        n > 0 ==> list[n - 1] >= n - 1,
    decreases n,
{
    if n > 0 {
        lemma_ascending_is_short(list, n - 1, total);
        if n > 1 {
            assert(list[n - 2] < list[n - 1]);
        }
        assert(list[n - 1] < total);
    }
}

/// A file that is linked to another one is in a link with another one.
proof fn lemma_linked_has_a_link(links: Seq<(usize, usize)>, a: int, b: int) -> (k: int)
    requires
        linked(links, a, b),
        a != b,
    ensures
        0 <= k < links.len(),
        (links[k].0 == a) != (links[k].1 == a),
{
    if forall|k: int| 0 <= k < links.len() ==> ((#[trigger] links[k]).0 == a) == (links[k].1 == a) {
        let related = |x: int, y: int| (x == a) == (y == a);
        law_linked_is_least(links, related, a, b);
        assert(related(a, b));
    }
    choose|k: int| 0 <= k < links.len() && ((#[trigger] links[k]).0 == a) != (links[k].1 == a)
}

proof fn lemma_links_are_matches(
    files: Seq<Option<FileFingerprint>>,
    threshold: Threshold,
    pairs: Seq<(usize, usize)>,
    k: int,
)
    requires
        0 <= k < matching_pairs(files, threshold, pairs).len(),
    ensures
        ({
            let link = matching_pairs(files, threshold, pairs)[k];
            is_match(files, threshold, link.0 as int, link.1 as int) && pairs.contains(link)
        }),
    decreases pairs.len(),
{
    let before = pairs.drop_last();
    let fewer = matching_pairs(files, threshold, before);
    let link = matching_pairs(files, threshold, pairs)[k];
    if k < fewer.len() {
        lemma_links_are_matches(files, threshold, before, k);
        let i = choose|i: int| 0 <= i < before.len() && before[i] == link;
        assert(pairs[i] == link);
    } else {
        assert(pairs[pairs.len() - 1] == link);
    }
}

/// Every file of a group matches another file of it: both have a fingerprint, their
/// durations are compatible and their similarity reaches the threshold.
pub proof fn law_every_file_of_a_group_matches_another(
    files: Seq<Option<FileFingerprint>>,
    threshold: Threshold,
    pairs: Seq<(usize, usize)>,
    q: int,
    i: int,
)
    requires
        files.len() <= usize::MAX,
        forall|k: int|
            0 <= k < pairs.len() ==> (#[trigger] pairs[k]).0 < files.len() && pairs[k].1
                < files.len(),
        0 <= q < linked_groups(
            matching_pairs(files, threshold, pairs),
            files.len() as int,
            files.len() as int,
        ).len(),
        0 <= i < linked_groups(
            matching_pairs(files, threshold, pairs),
            files.len() as int,
            files.len() as int,
        )[q].len(),
    ensures
        ({
            let group = linked_groups(
                matching_pairs(files, threshold, pairs),
                files.len() as int,
                files.len() as int,
            )[q];
            group[i] < files.len() && files[group[i] as int] is Some && exists|j: int|
                0 <= j < group.len() && j != i && is_match(
                    files,
                    threshold,
                    group[i] as int,
                    #[trigger] group[j] as int,
                )
        }),
{
    let links = matching_pairs(files, threshold, pairs);
    let total = files.len() as int;
    let group = linked_groups(links, total, total)[q];
    lemma_groups(links, total, total);
    law_groups_have_two_files(links, total, q);
    let a = choose|a: int|
        0 <= a < total && leads(links, a) && group == #[trigger] linked_files(links, a, total)
            && linked_files(links, a, total).len() > 1;
    lemma_linked_files(links, a, total);
    let x = group[i] as int;
    let other: int = if i == 0 {
        1
    } else {
        0
    };
    let y = group[other] as int;
    assert(linked(links, a, linked_files(links, a, total)[i] as int));
    assert(linked(links, a, linked_files(links, a, total)[other] as int));
    assert(x != y);
    let k = lemma_linked_has_a_link(links, x, y);
    lemma_links_are_matches(files, threshold, pairs, k);
    law_links_are_linked(links, k);
    let z = if links[k].0 == x {
        links[k].1 as int
    } else {
        links[k].0 as int
    };
    let at = choose|at: int| 0 <= at < pairs.len() && pairs[at] == links[k];
    assert(pairs[at].0 < files.len() && pairs[at].1 < files.len());
    assert(linked(links, a, z));
    assert(group.contains(z as usize));
    let j = choose|j: int| 0 <= j < group.len() && group[j] == z as usize;
    if links[k].0 != x {
        let first = files[x]->0;
        let second = files[z]->0;
        crate::fingerprint::law_similarity_is_symmetric(first.fingerprint@, second.fingerprint@);
        crate::fingerprint::law_durations_compatible_symmetric(
            first.duration_ns as int,
            second.duration_ns as int,
        );
    }
    assert(is_match(files, threshold, group[i] as int, group[j] as int));
}

proof fn lemma_fractions(a: int, b: int, c: int, d: int, e: int, f: int)
    by (nonlinear_arith)
    requires
        a * d <= c * b,
        c * f <= e * d,
        b > 0,
        d > 0,
        f > 0,
    ensures
        a * f <= e * b,
{
    assert(a * d * f <= c * b * f);
    assert(c * f * b <= e * d * b);
    assert(a * f * d <= e * b * d);
}

proof fn lemma_best_is_not_exceeded(
    files: Seq<Option<FileFingerprint>>,
    members: Seq<usize>,
    n: int,
    m: int,
)
    requires
        1 <= m < n,
    ensures
        !file_similarity(files, members[0] as int, members[m] as int).spec_exceeds(
            best_similarity(files, members, n),
        ),
    decreases n,
{
    let score = file_similarity(files, members[0] as int, members[m] as int);
    let before = best_similarity(files, members, n - 1);
    let last = file_similarity(files, members[0] as int, members[n - 1] as int);
    if m < n - 1 {
        lemma_best_is_not_exceeded(files, members, n - 1, m);
        if last.spec_exceeds(before) {
            lemma_fractions(
                score.matching as int,
                score.base(),
                before.matching as int,
                before.base(),
                last.matching as int,
                last.base(),
            );
        }
    } else {
        if last.spec_exceeds(before) {
            assert(score.matching * score.base() <= score.matching * score.base());
        }
    }
}

/// The similarity of a group reaches the threshold.
pub proof fn law_group_similarity_reaches_the_threshold(
    files: Seq<Option<FileFingerprint>>,
    threshold: Threshold,
    pairs: Seq<(usize, usize)>,
    q: int,
)
    requires
        files.len() <= usize::MAX,
        forall|k: int|
            0 <= k < pairs.len() ==> (#[trigger] pairs[k]).0 < files.len() && pairs[k].1
                < files.len(),
        0 <= q < linked_groups(
            matching_pairs(files, threshold, pairs),
            files.len() as int,
            files.len() as int,
        ).len(),
    ensures
        ({
            let group = linked_groups(
                matching_pairs(files, threshold, pairs),
                files.len() as int,
                files.len() as int,
            )[q];
            best_similarity(files, group, group.len() as int).spec_reaches(threshold)
        }),
{
    let links = matching_pairs(files, threshold, pairs);
    let total = files.len() as int;
    let group = linked_groups(links, total, total)[q];
    law_groups_have_two_files(links, total, q);
    law_every_file_of_a_group_matches_another(files, threshold, pairs, q, 0);
    let j = choose|j: int|
        0 <= j < group.len() && j != 0 && is_match(
            files,
            threshold,
            group[0] as int,
            #[trigger] group[j] as int,
        );
    let score = file_similarity(files, group[0] as int, group[j] as int);
    let best = best_similarity(files, group, group.len() as int);
    lemma_best_is_not_exceeded(files, group, group.len() as int, j);
    lemma_fractions(
        threshold.numer as int,
        threshold.base(),
        score.matching as int,
        score.base(),
        best.matching as int,
        best.base(),
    );
}

// --- Duplicates of one file ---

/// Whether a file is a duplicate of `target`: another file of compatible duration whose
/// similarity reaches the threshold.
pub open spec fn duplicates_target(
    target: FileFingerprint,
    file: FileFingerprint,
    threshold: Threshold,
) -> bool {
    &&& !crate::path::same_path(file.path@, target.path@)
    &&& crate::fingerprint::spec_durations_compatible(
        target.duration_ns as int,
        file.duration_ns as int,
    )
    &&& crate::fingerprint::similarity_of(
        target.fingerprint@,
        file.fingerprint@,
    ).spec_reaches(threshold)
}

/// The duplicates of `target` among the first `n` files, by position.
pub open spec fn duplicates_of(
    target: FileFingerprint,
    files: Seq<FileFingerprint>,
    threshold: Threshold,
    n: int,
) -> Seq<usize>
    decreases n,
{
    if n <= 0 {
        seq![]
    } else {
        let before = duplicates_of(target, files, threshold, n - 1);
        if duplicates_target(target, files[n - 1], threshold) {
            before.push((n - 1) as usize)
        } else {
            before
        }
    }
}

/// The best similarity of `target` to its duplicates among the first `n` files.
pub open spec fn best_duplicate(
    target: FileFingerprint,
    files: Seq<FileFingerprint>,
    threshold: Threshold,
    n: int,
) -> Similarity
    decreases n,
{
    if n <= 0 {
        Similarity::spec_none()
    } else {
        let before = best_duplicate(target, files, threshold, n - 1);
        let score = crate::fingerprint::similarity_of(
            target.fingerprint@,
            files[n - 1].fingerprint@,
        );
        if duplicates_target(target, files[n - 1], threshold) && score.spec_exceeds(before) {
            score
        } else {
            before
        }
    }
}

/// Finds the duplicates of one file among all fingerprints: their positions and the best
/// similarity, or nothing where there are none. The file itself is not among them.
pub fn find_duplicates_for(
    target: &FileFingerprint,
    files: &Vec<FileFingerprint>,
    threshold: Threshold,
) -> (r: Option<LinkedGroup>)
    ensures
        ({
            let found = duplicates_of(*target, files@, threshold, files@.len() as int);
            &&& r is Some <==> found.len() > 0
            &&& r matches Some(group) ==> group.members@ == found && group.similarity
                == best_duplicate(*target, files@, threshold, files@.len() as int)
        }),
{
    let mut members: Vec<usize> = Vec::new();
    let mut best = Similarity::none();
    let mut n: usize = 0;
    while n < files.len()
        invariant
            n <= files@.len(),
            members@ == duplicates_of(*target, files@, threshold, n as int),
            best == best_duplicate(*target, files@, threshold, n as int),
        decreases files@.len() - n,
    {
        let file = &files[n];
        if !crate::path::paths_equal(file.path.as_str(), target.path.as_str())
            && durations_compatible(target.duration_ns, file.duration_ns) {
            let score = compare_fingerprints(
                target.fingerprint.as_slice(),
                file.fingerprint.as_slice(),
            );
            if score.reaches(threshold) {
                if score.exceeds(&best) {
                    best = score;
                }
                members.push(n);
            }
        }
        n = n + 1;
    }
    if members.len() == 0 {
        None
    } else {
        Some(LinkedGroup { members, similarity: best })
    }
}

/// The position of the cached fingerprint of `target`, where there is one.
pub fn find_cached(target: &str, files: &Vec<FileFingerprint>) -> (r: Option<usize>)
    ensures
        r is None <==> forall|i: int|
            0 <= i < files@.len() ==> !crate::path::same_path(
                (#[trigger] files@[i]).path@,
                target@,
            ),
        r matches Some(i) ==> i < files@.len() && crate::path::same_path(
            files@[i as int].path@,
            target@,
        ) && forall|k: int|
            0 <= k < i ==> !crate::path::same_path((#[trigger] files@[k]).path@, target@),
{
    let mut i: usize = 0;
    while i < files.len()
        invariant
            i <= files@.len(),
            forall|k: int|
                0 <= k < i ==> !crate::path::same_path((#[trigger] files@[k]).path@, target@),
        decreases files@.len() - i,
    {
        if crate::path::paths_equal(files[i].path.as_str(), target) {
            return Some(i);
        }
        i = i + 1;
    }
    None
}

// --- What is found ---

/// Two files match just where both have a fingerprint, their durations are compatible and the
/// similarity of the fingerprints reaches the threshold, whichever comes first.
pub proof fn law_matches_sound_alike(
    files: Seq<Option<FileFingerprint>>,
    threshold: Threshold,
    i: int,
    j: int,
)
    ensures
        is_match(files, threshold, i, j) == is_match(files, threshold, j, i),
        is_match(files, threshold, i, j) <==> (files[i] matches Some(a) && files[j] matches Some(b)
            && crate::fingerprint::spec_durations_compatible(
            a.duration_ns as int,
            b.duration_ns as int,
        ) && crate::fingerprint::similarity_of(a.fingerprint@, b.fingerprint@).spec_reaches(
            threshold,
        )),
{
    if files[i] is Some && files[j] is Some {
        crate::fingerprint::law_similarity_is_symmetric(
            files[i]->0.fingerprint@,
            files[j]->0.fingerprint@,
        );
        crate::fingerprint::law_durations_compatible_symmetric(
            files[i]->0.duration_ns as int,
            files[j]->0.duration_ns as int,
        );
    }
}

/// The links are the candidate pairs that match, and no others.
pub proof fn law_links_are_the_matching_candidates(
    files: Seq<Option<FileFingerprint>>,
    threshold: Threshold,
    pairs: Seq<(usize, usize)>,
    pair: (usize, usize),
)
    ensures
        matching_pairs(files, threshold, pairs).contains(pair) <==> pairs.contains(pair)
            && is_match(files, threshold, pair.0 as int, pair.1 as int),
    decreases pairs.len(),
{
    let links = matching_pairs(files, threshold, pairs);
    if links.contains(pair) {
        let k = choose|k: int| 0 <= k < links.len() && links[k] == pair;
        lemma_links_are_matches(files, threshold, pairs, k);
    }
    if pairs.contains(pair) && is_match(files, threshold, pair.0 as int, pair.1 as int) {
        let before = pairs.drop_last();
        let fewer = matching_pairs(files, threshold, before);
        if pairs.last() == pair {
            assert(links[links.len() - 1] == pair);
        } else {
            let k = choose|k: int| 0 <= k < pairs.len() && pairs[k] == pair;
            assert(before[k] == pair);
            law_links_are_the_matching_candidates(files, threshold, before, pair);
            let m = choose|m: int| 0 <= m < fewer.len() && fewer[m] == pair;
            assert(links[m] == pair);
        }
    }
}

/// Two files that sound alike, and are a candidate pair, are in one group.
pub proof fn law_files_that_sound_alike_are_grouped(
    groups: Seq<LinkedGroup>,
    files: Seq<Option<FileFingerprint>>,
    pairs: Seq<(usize, usize)>,
    threshold: Threshold,
    k: int,
)
    requires
        files.len() <= usize::MAX,
        are_duplicate_groups(groups, files, pairs, threshold),
        0 <= k < pairs.len(),
        pairs[k].0 < files.len(),
        pairs[k].1 < files.len(),
        pairs[k].0 != pairs[k].1,
        files[pairs[k].0 as int] is Some,
        files[pairs[k].1 as int] is Some,
        crate::fingerprint::spec_durations_compatible(
            files[pairs[k].0 as int]->0.duration_ns as int,
            files[pairs[k].1 as int]->0.duration_ns as int,
        ),
        crate::fingerprint::similarity_of(
            files[pairs[k].0 as int]->0.fingerprint@,
            files[pairs[k].1 as int]->0.fingerprint@,
        ).spec_reaches(threshold),
    ensures
        exists|q: int|
            0 <= q < groups.len() && (#[trigger] groups[q]).members@.contains(pairs[k].0)
                && groups[q].members@.contains(pairs[k].1),
{
    let links = matching_pairs(files, threshold, pairs);
    let total = files.len() as int;
    law_matching_candidates_are_linked(files, threshold, pairs, k);
    law_groups_are_the_linked_files(links, total, pairs[k].0, pairs[k].1);
    let q = choose|q: int|
        0 <= q < linked_groups(links, total, total).len() && (#[trigger] linked_groups(
            links,
            total,
            total,
        )[q]).contains(pairs[k].0) && linked_groups(links, total, total)[q].contains(pairs[k].1);
    assert(groups[q].members@ == linked_groups(links, total, total)[q]);
}

/// The files of a group are joined by a chain of candidates that match: they are related in
/// every equivalence that relates the matching candidates.
pub proof fn law_grouped_files_are_joined_by_matches(
    groups: Seq<LinkedGroup>,
    files: Seq<Option<FileFingerprint>>,
    pairs: Seq<(usize, usize)>,
    threshold: Threshold,
    related: spec_fn(int, int) -> bool,
    q: int,
    x: usize,
    y: usize,
)
    requires
        files.len() <= usize::MAX,
        are_duplicate_groups(groups, files, pairs, threshold),
        0 <= q < groups.len(),
        groups[q].members@.contains(x),
        groups[q].members@.contains(y),
        x < files.len(),
        y < files.len(),
        forall|x: int| #[trigger] related(x, x),
        forall|x: int, y: int| #[trigger] related(x, y) ==> related(y, x),
        forall|x: int, y: int, z: int| #[trigger] related(x, y) && #[trigger] related(y, z) ==> related(x, z),
        forall|k: int|
            0 <= k < pairs.len() && is_match(
                files,
                threshold,
                (#[trigger] pairs[k]).0 as int,
                pairs[k].1 as int,
            ) ==> related(pairs[k].0 as int, pairs[k].1 as int),
    ensures
        related(x as int, y as int),
{
    let links = matching_pairs(files, threshold, pairs);
    let total = files.len() as int;
    if x != y {
        assert(groups[q].members@ == linked_groups(links, total, total)[q]);
        law_groups_are_the_linked_files(links, total, x, y);
        assert forall|k: int| 0 <= k < links.len() implies related(
            (#[trigger] links[k]).0 as int,
            links[k].1 as int,
        ) by {
            lemma_links_are_matches(files, threshold, pairs, k);
            let m = choose|m: int| 0 <= m < pairs.len() && pairs[m] == links[k];
            assert(related(pairs[m].0 as int, pairs[m].1 as int));
        }
        law_linked_is_least(links, related, x as int, y as int);
    }
}

/// The similarity of a group is that of its first file to another one, and no other file of
/// the group is more similar to the first.
pub proof fn law_a_groups_similarity_is_the_best(
    groups: Seq<LinkedGroup>,
    files: Seq<Option<FileFingerprint>>,
    pairs: Seq<(usize, usize)>,
    threshold: Threshold,
    q: int,
    m: int,
)
    requires
        files.len() <= usize::MAX,
        forall|k: int|
            0 <= k < pairs.len() ==> (#[trigger] pairs[k]).0 < files.len() && pairs[k].1
                < files.len(),
        are_duplicate_groups(groups, files, pairs, threshold),
        0 <= q < groups.len(),
        1 <= m < groups[q].members@.len(),
    ensures
        ({
            let members = groups[q].members@;
            let first = files[members[0] as int]->0.fingerprint@;
            let other = files[members[m] as int]->0.fingerprint@;
            &&& !crate::fingerprint::similarity_of(first, other).spec_exceeds(groups[q].similarity)
            &&& groups[q].similarity.spec_reaches(threshold)
            &&& groups[q].similarity == Similarity::spec_none() || exists|n: int|
                1 <= n < members.len() && groups[q].similarity
                    == crate::fingerprint::similarity_of(
                    first,
                    files[(#[trigger] members[n]) as int]->0.fingerprint@,
                )
        }),
{
    let members = groups[q].members@;
    let total = files.len() as int;
    let links = matching_pairs(files, threshold, pairs);
    assert(members == linked_groups(links, total, total)[q]);
    law_every_file_of_a_group_matches_another(files, threshold, pairs, q, 0);
    law_every_file_of_a_group_matches_another(files, threshold, pairs, q, m);
    law_group_similarity_reaches_the_threshold(files, threshold, pairs, q);
    lemma_best_is_not_exceeded(files, members, members.len() as int, m);
    lemma_best_is_attained(files, members, members.len() as int);
    if groups[q].similarity != Similarity::spec_none() {
        let n = choose|n: int|
            1 <= n < members.len() && best_similarity(files, members, members.len() as int)
                == file_similarity(files, members[0] as int, (#[trigger] members[n]) as int);
        law_every_file_of_a_group_matches_another(files, threshold, pairs, q, n);
        assert(groups[q].similarity == crate::fingerprint::similarity_of(
            files[members[0] as int]->0.fingerprint@,
            files[members[n] as int]->0.fingerprint@,
        ));
    }
}

proof fn lemma_best_is_attained(
    files: Seq<Option<FileFingerprint>>,
    members: Seq<usize>,
    n: int,
)
    requires
        n <= members.len(),
    ensures
        best_similarity(files, members, n) == Similarity::spec_none() || exists|k: int|
            1 <= k < n && best_similarity(files, members, n) == file_similarity(
                files,
                members[0] as int,
                (#[trigger] members[k]) as int,
            ),
    decreases n,
{
    if n > 1 {
        lemma_best_is_attained(files, members, n - 1);
        let before = best_similarity(files, members, n - 1);
        let now = best_similarity(files, members, n);
        if now == before && before != Similarity::spec_none() {
            let k = choose|k: int|
                1 <= k < n - 1 && before == file_similarity(
                    files,
                    members[0] as int,
                    (#[trigger] members[k]) as int,
                );
            assert(now == file_similarity(files, members[0] as int, members[k] as int));
        } else if now != Similarity::spec_none() {
            assert(now == file_similarity(files, members[0] as int, members[n - 1] as int));
        }
    }
}

/// Pairs are looked at one by one: those of a longer list are those of its parts, and a single
/// pair is left out just where a common root is asked for and there is none.
pub proof fn law_pairs_are_kept_one_by_one(
    a: Seq<CandidatePair>,
    b: Seq<CandidatePair>,
    pair: CandidatePair,
    same_tree: bool,
)
    ensures
        kept_pairs(Seq::empty(), same_tree) == Seq::<(u64, u64)>::empty(),
        kept_pairs(a + b, same_tree) == kept_pairs(a, same_tree) + kept_pairs(b, same_tree),
        !same_tree || crate::path::spec_shares_root(pair.path1@, pair.path2@) ==> kept_pairs(
            seq![pair],
            same_tree,
        ) == seq![(pair.id1, pair.id2)],
        same_tree && !crate::path::spec_shares_root(pair.path1@, pair.path2@) ==> kept_pairs(
            seq![pair],
            same_tree,
        ) == Seq::<(u64, u64)>::empty(),
    decreases b.len(),
{
    assert(seq![pair].drop_last() =~= Seq::<CandidatePair>::empty());
    assert(kept_pairs(seq![pair].drop_last(), same_tree) =~= Seq::<(u64, u64)>::empty());
    if b.len() == 0 {
        assert(a + b =~= a);
        assert(kept_pairs(a + b, same_tree) =~= kept_pairs(a, same_tree) + kept_pairs(b, same_tree));
    } else {
        law_pairs_are_kept_one_by_one(a, b.drop_last(), pair, same_tree);
        assert((a + b).drop_last() =~= a + b.drop_last());
        assert((a + b).last() == b.last());
        assert(kept_pairs(a + b, same_tree) =~= kept_pairs(a, same_tree) + kept_pairs(b, same_tree));
    }
}

/// The numbered files are those of the pairs, each once, and further pairs number theirs behind
/// them.
pub proof fn law_every_file_is_numbered_once(
    pairs: Seq<(u64, u64)>,
    more: (u64, u64),
    id: u64,
)
    ensures
        first_seen(pairs).no_duplicates(),
        first_seen(pairs).contains(id) <==> exists|k: int|
            0 <= k < pairs.len() && ((#[trigger] pairs[k]).0 == id || pairs[k].1 == id),
        first_seen(pairs).len() <= first_seen(pairs.push(more)).len(),
        first_seen(pairs.push(more)).take(first_seen(pairs).len() as int) == first_seen(pairs),
    decreases pairs.len(),
{
    assert(pairs.push(more).drop_last() =~= pairs);
    let ids = first_seen(pairs);
    let once = with_id(ids, more.0);
    let twice = with_id(once, more.1);
    assert(twice.take(ids.len() as int) =~= ids);
    if pairs.len() > 0 {
        let before = pairs.drop_last();
        let last = pairs.last();
        law_every_file_is_numbered_once(before, more, id);
        lemma_with_id(first_seen(before), last.0, id);
        lemma_with_id(with_id(first_seen(before), last.0), last.1, id);
        if first_seen(before).contains(id) {
            let k = choose|k: int|
                0 <= k < before.len() && ((#[trigger] before[k]).0 == id || before[k].1 == id);
            assert(pairs[k].0 == id || pairs[k].1 == id);
        }
        if id == last.0 || id == last.1 {
            assert(pairs[pairs.len() - 1].0 == id || pairs[pairs.len() - 1].1 == id);
        }
        if exists|k: int|
            0 <= k < pairs.len() && ((#[trigger] pairs[k]).0 == id || pairs[k].1 == id) {
            let k = choose|k: int|
                0 <= k < pairs.len() && ((#[trigger] pairs[k]).0 == id || pairs[k].1 == id);
            if k < before.len() {
                assert(before[k].0 == id || before[k].1 == id);
            }
        }
    }
}

proof fn lemma_with_id(ids: Seq<u64>, new: u64, id: u64)
    requires
        ids.no_duplicates(),
    ensures
        with_id(ids, new).no_duplicates(),
        with_id(ids, new).contains(id) <==> ids.contains(id) || id == new,
{
    let after = with_id(ids, new);
    if ids.contains(id) {
        let k = choose|k: int| 0 <= k < ids.len() && ids[k] == id;
        assert(after[k] == id);
    }
    if id == new && !ids.contains(new) {
        assert(after[ids.len() as int] == id);
    }
}

/// The duplicates of a file are the other files of compatible duration whose similarity to it
/// reaches the threshold, in ascending order. Their similarity is the best of them: none of
/// them exceeds it.
pub proof fn law_duplicates_of_one_file(
    target: FileFingerprint,
    files: Seq<FileFingerprint>,
    threshold: Threshold,
    n: int,
    k: int,
)
    requires
        0 <= n <= files.len() <= usize::MAX,
        0 <= k < files.len(),
    ensures
        ({
            let found = duplicates_of(target, files, threshold, n);
            let best = best_duplicate(target, files, threshold, n);
            let score = crate::fingerprint::similarity_of(
                target.fingerprint@,
                files[k].fingerprint@,
            );
            &&& found.contains(k as usize) <==> k < n && !crate::path::same_path(
                files[k].path@,
                target.path@,
            ) && crate::fingerprint::spec_durations_compatible(
                target.duration_ns as int,
                files[k].duration_ns as int,
            ) && score.spec_reaches(threshold)
            &&& found.contains(k as usize) ==> !score.spec_exceeds(best)
            &&& best == Similarity::spec_none() || exists|m: int|
                0 <= m < n && found.contains(m as usize) && best
                    == crate::fingerprint::similarity_of(
                    target.fingerprint@,
                    (#[trigger] files[m]).fingerprint@,
                )
            &&& forall|p: int| 0 <= p < found.len() ==> #[trigger] found[p] < n
            &&& forall|p: int, q: int|
                0 <= p < q < found.len() ==> #[trigger] found[p] < #[trigger] found[q]
        }),
    decreases n,
{
    if n > 0 {
        law_duplicates_of_one_file(target, files, threshold, n - 1, k);
        let fewer = duplicates_of(target, files, threshold, n - 1);
        let found = duplicates_of(target, files, threshold, n);
        let before = best_duplicate(target, files, threshold, n - 1);
        let best = best_duplicate(target, files, threshold, n);
        let last = n - 1;
        let new_score = crate::fingerprint::similarity_of(
            target.fingerprint@,
            files[last].fingerprint@,
        );
        let score = crate::fingerprint::similarity_of(target.fingerprint@, files[k].fingerprint@);
        if duplicates_target(target, files[last], threshold) {
            assert(found[fewer.len() as int] == last as usize);
            assert(found.contains(last as usize));
        }
        if fewer.contains(k as usize) {
            let p = choose|p: int| 0 <= p < fewer.len() && fewer[p] == k as usize;
            assert(found[p] == k as usize);
        }
        if found.contains(k as usize) && !fewer.contains(k as usize) {
            let p = choose|p: int| 0 <= p < found.len() && found[p] == k as usize;
            if p < fewer.len() {
                assert(fewer[p] == k as usize);
            }
            assert(k == last);
        }
        if best != before && fewer.contains(k as usize) && score.spec_exceeds(best) {
            lemma_fractions(
                score.matching as int,
                score.base(),
                before.matching as int,
                before.base(),
                best.matching as int,
                best.base(),
            );
        }
        if found.contains(k as usize) && k == last {
            assert(score == new_score);
            if best == score {
                assert(score.matching * score.base() <= score.matching * score.base());
            }
        }
        if best != Similarity::spec_none() {
            if best == before {
                let m = choose|m: int|
                    0 <= m < n - 1 && fewer.contains(m as usize) && before
                        == crate::fingerprint::similarity_of(
                        target.fingerprint@,
                        (#[trigger] files[m]).fingerprint@,
                    );
                let p = choose|p: int| 0 <= p < fewer.len() && fewer[p] == m as usize;
                assert(found[p] == m as usize);
                assert(found.contains(m as usize));
            } else {
                assert(best == new_score);
            }
        }
    }
}

} // verus!
