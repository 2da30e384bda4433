//! Resolving recording MBIDs: which files are looked at, where their IDs come from, and
//! what is reported.

use vstd::prelude::*;

use crate::acoustid::Answer;
use crate::database::FileFingerprint;
use crate::matcher::DuplicateGroup;
use crate::order::{key_le, sort_order};
use crate::path::sort_key;
use crate::text::{concat2, concat3, concat5, decimal};

verus! {

// --- Files to identify ---

/// Whether a path is that of a file in some groups.
pub open spec fn in_groups(groups: Seq<DuplicateGroup>, path: Seq<char>) -> bool {
    exists|g: int, f: int|
        0 <= g < groups.len() && 0 <= f < groups[g].files@.len() && crate::path::same_path(
            (#[trigger] groups[g].files@[f]).path@,
            path,
        )
}

/// Whether a list of keys holds one.
spec fn holds_key(keys: Seq<Seq<u64>>, key: Seq<u64>) -> bool {
    exists|k: int| 0 <= k < keys.len() && #[trigger] keys[k] == key
}

fn group_keys(groups: &Vec<DuplicateGroup>) -> (r: Vec<Vec<u64>>)
    ensures
        forall|path: Seq<char>| #[trigger]
            in_groups(groups@, path) <==> holds_key(
                crate::order::key_views(r@),
                crate::path::path_key(path),
            ),
{
    let mut keys: Vec<Vec<u64>> = Vec::new();
    let mut g: usize = 0;
    while g < groups.len()
        invariant
            g <= groups@.len(),
            forall|path: Seq<char>| #[trigger]
                in_groups(groups@.take(g as int), path) <==> holds_key(
                    crate::order::key_views(keys@),
                    crate::path::path_key(path),
                ),
        decreases groups@.len() - g,
    {
        let files = &groups[g].files;
        let ghost keys0 = crate::order::key_views(keys@);
        let ghost seen = groups@.take(g as int);
        let mut f: usize = 0;
        while f < files.len()
            invariant
                f <= files@.len(),
                keys0.len() + f == keys@.len(),
                forall|k: int|
                    0 <= k < keys0.len() ==> #[trigger] crate::order::key_views(keys@)[k]
                        == keys0[k],
                forall|k: int|
                    0 <= k < f ==> crate::order::key_views(keys@)[keys0.len() + k]
                        == crate::path::path_key((#[trigger] files@[k]).path@),
            decreases files@.len() - f,
        {
            let ghost before = crate::order::key_views(keys@);
            let key = sort_key(files[f].path.as_str());
            let ghost added = key@;
            keys.push(key);
            proof {
                assert(crate::order::key_views(keys@) =~= before.push(added));
            }
            f = f + 1;
        }
        proof {
            let now = groups@.take(g + 1);
            let keys1 = crate::order::key_views(keys@);
            assert forall|path: Seq<char>| #[trigger] in_groups(now, path) <==> holds_key(
                keys1,
                crate::path::path_key(path),
            ) by {
                let key = crate::path::path_key(path);
                if in_groups(now, path) {
                    let (h, f) = choose|h: int, f: int|
                        0 <= h < now.len() && 0 <= f < now[h].files@.len()
                            && crate::path::same_path((#[trigger] now[h].files@[f]).path@, path);
                    crate::path::law_path_key_tells_paths_apart(now[h].files@[f].path@, path);
                    if h < g {
                        assert(seen[h] == now[h]);
                        assert(crate::path::same_path(seen[h].files@[f].path@, path));
                        assert(in_groups(seen, path));
                        let k = choose|k: int| 0 <= k < keys0.len() && #[trigger] keys0[k] == key;
                        assert(keys1[k] == key);
                    } else {
                        assert(files@[f] == now[h].files@[f]);
                        assert(keys1[keys0.len() + f] == key);
                    }
                }
                if holds_key(keys1, key) {
                    let k = choose|k: int| 0 <= k < keys1.len() && #[trigger] keys1[k] == key;
                    if k < keys0.len() {
                        assert(keys0[k] == key);
                        assert(in_groups(seen, path));
                        let (h, f) = choose|h: int, f: int|
                            0 <= h < seen.len() && 0 <= f < seen[h].files@.len()
                                && crate::path::same_path(
                                (#[trigger] seen[h].files@[f]).path@,
                                path,
                            );
                        assert(now[h] == seen[h]);
                        assert(crate::path::same_path(now[h].files@[f].path@, path));
                    } else {
                        let f = k - keys0.len();
                        assert(keys1[keys0.len() + f] == crate::path::path_key(files@[f].path@));
                        crate::path::law_path_key_tells_paths_apart(files@[f].path@, path);
                        assert(now[g as int].files@[f] == files@[f]);
                        assert(crate::path::same_path(now[g as int].files@[f].path@, path));
                    }
                }
            }
        }
        g = g + 1;
    }
    proof {
        assert(groups@.take(groups@.len() as int) =~= groups@);
    }
    keys
}

/// Searches a key in sorted keys.
fn search(keys: &Vec<Vec<u64>>, order: &Vec<usize>, key: &Vec<u64>) -> (r: bool)
    requires
        crate::order::is_stable_order(
            crate::order::key_views(keys@),
            order@,
            0,
            keys@.len() as int,
        ),
    ensures
        r == holds_key(crate::order::key_views(keys@), key@),
{
    let ghost views = crate::order::key_views(keys@);
    let mut lo: usize = 0;
    let mut hi: usize = order.len();
    let total: usize = order.len();
    // Whatever holds the key lies in `lo..hi`.
    while lo < hi
        invariant
            lo <= hi <= order@.len(),
            total == order@.len(),
            total == keys@.len(),
            views == crate::order::key_views(keys@),
            crate::order::is_stable_order(views, order@, 0, keys@.len() as int),
            forall|m: int|
                0 <= m < order@.len() && views[#[trigger] order@[m] as int] == key@ ==> lo <= m
                    < hi,
        decreases hi - lo,
    {
        let mid: usize = lo + (hi - lo) / 2;
        let here: usize = order[mid];
        let below = key_le(&keys[here], key);
        let above = key_le(key, &keys[here]);
        assert(views[here as int] == keys@[here as int]@);
        if below && above {
            proof {
                crate::order::law_lex_le_antisymmetric(views[here as int], key@);
                assert(views[here as int] == key@);
            }
            return true;
        }
        proof {
            crate::order::law_lex_le_total(views[here as int], key@);
            assert forall|m: int|
                0 <= m < order@.len() && views[#[trigger] order@[m] as int] == key@ implies (below
                ==> mid < m) && (above ==> m < mid) by {
                let there = order@[m] as int;
                if m < mid {
                    assert(crate::order::comes_before(views, there, here as int));
                } else if m > mid {
                    assert(crate::order::comes_before(views, here as int, there));
                }
                crate::order::law_lex_le_reflexive(key@);
            }
        }
        if below {
            lo = mid + 1;
        } else {
            hi = mid;
        }
    }
    proof {
        if holds_key(views, key@) {
            let k = choose|k: int| 0 <= k < views.len() && #[trigger] views[k] == key@;
            assert(order@.contains(k as usize));
            let m = choose|m: int| 0 <= m < order@.len() && order@[m] == k as usize;
            assert(views[order@[m] as int] == key@);
        }
    }
    false
}

/// The positions among the first `n` unresolved files of those to identify: those in
/// duplicate groups, or all where no groups are given.
pub open spec fn positions_to_identify(
    unresolved: Seq<FileFingerprint>,
    groups: Option<Seq<DuplicateGroup>>,
    n: int,
) -> Seq<usize>
    decreases n,
{
    if n <= 0 {
        seq![]
    } else {
        let before = positions_to_identify(unresolved, groups, n - 1);
        if groups is None || in_groups(groups->0, unresolved[n - 1].path@) {
            before.push((n - 1) as usize)
        } else {
            before
        }
    }
}

/// The files to identify among those that are not resolved: those in duplicate groups, or
/// all where no groups are given.
pub fn files_to_identify(
    unresolved: &Vec<FileFingerprint>,
    groups: &Option<Vec<DuplicateGroup>>,
) -> (r: Vec<usize>)
    ensures
        r@ == positions_to_identify(
            unresolved@,
            match groups {
                Some(list) => Some(list@),
                None => None,
            },
            unresolved@.len() as int,
        ),
{
    let ghost wanted: Option<Seq<DuplicateGroup>> = match groups {
        Some(list) => Some(list@),
        None => None,
    };
    let (keys, limited) = match groups {
        Some(list) => (group_keys(list), true),
        None => (Vec::new(), false),
    };
    let order = sort_order(&keys);
    let mut out: Vec<usize> = Vec::new();
    let mut n: usize = 0;
    while n < unresolved.len()
        invariant
            n <= unresolved@.len(),
            limited == wanted is Some,
            crate::order::is_stable_order(
                crate::order::key_views(keys@),
                order@,
                0,
                keys@.len() as int,
            ),
            limited ==> forall|path: Seq<char>| #[trigger]
                in_groups(wanted->0, path) <==> holds_key(
                    crate::order::key_views(keys@),
                    crate::path::path_key(path),
                ),
            out@ == positions_to_identify(unresolved@, wanted, n as int),
        decreases unresolved@.len() - n,
    {
        let taken = if limited {
            let key = sort_key(unresolved[n].path.as_str());
            search(&keys, &order, &key)
        } else {
            true
        };
        proof {
            if limited {
                assert(in_groups(wanted->0, unresolved@[n as int].path@) == taken);
            }
        }
        if taken {
            out.push(n);
        }
        n = n + 1;
    }
    out
}

// --- Phases ---

/// The positions among the first `n` files whose tags hold a recording ID, or do not.
pub open spec fn positions_by_tag(found: Seq<Option<String>>, has_id: bool, n: int) -> Seq<usize>
    decreases n,
{
    if n <= 0 {
        seq![]
    } else {
        let before = positions_by_tag(found, has_id, n - 1);
        if found[n - 1] is Some == has_id {
            before.push((n - 1) as usize)
        } else {
            before
        }
    }
}

/// Which files are resolved by their tags and which are left for the lookup.
#[derive(Debug)]
pub struct TagPhase {
    /// The files with a recording ID in their tags.
    pub resolved: Vec<usize>,
    /// The files without.
    pub remaining: Vec<usize>,
}

/// Splits files by whether a recording ID was found in their tags.
pub fn split_by_tags(found: &Vec<Option<String>>) -> (r: TagPhase)
    ensures
        r.resolved@ == positions_by_tag(found@, true, found@.len() as int),
        r.remaining@ == positions_by_tag(found@, false, found@.len() as int),
        r.resolved@.len() + r.remaining@.len() == found@.len(),
{
    let mut resolved: Vec<usize> = Vec::new();
    let mut remaining: Vec<usize> = Vec::new();
    let mut n: usize = 0;
    while n < found.len()
        invariant
            n <= found@.len(),
            resolved@ == positions_by_tag(found@, true, n as int),
            remaining@ == positions_by_tag(found@, false, n as int),
            resolved@.len() + remaining@.len() == n,
        decreases found@.len() - n,
    {
        if found[n].is_some() {
            resolved.push(n);
        } else {
            remaining.push(n);
        }
        n = n + 1;
    }
    TagPhase { resolved, remaining }
}

/// What follows the tags.
#[derive(Debug, Clone, Copy, PartialEq, Eq, Structural)]
pub enum NextPhase {
    /// Everything is resolved.
    Done,
    /// The lookup needs an API key.
    KeyMissing,
    /// The remaining files are looked up.
    Lookup,
}

/// What follows the tags, given how many files remain and whether there is an API key.
pub fn next_phase(remaining: usize, has_key: bool) -> (r: NextPhase)
    ensures
        r == if remaining == 0 {
            NextPhase::Done
        } else if has_key {
            NextPhase::Lookup
        } else {
            NextPhase::KeyMissing
        },
{
    if remaining == 0 {
        NextPhase::Done
    } else if has_key {
        NextPhase::Lookup
    } else {
        NextPhase::KeyMissing
    }
}

/// What is said where the API key is missing.
pub fn missing_key_message() -> (r: String)
    ensures
        r@
            == "AcoustID API key required for online lookup.\nSet ACOUSTID_API_KEY env var or pass --api-key.\nRegister at: https://acoustid.org/new-application"@,
{
    "AcoustID API key required for online lookup.\nSet ACOUSTID_API_KEY env var or pass --api-key.\nRegister at: https://acoustid.org/new-application".to_owned()
}

/// What is stored of an answer: the recording and the AcoustID, where it has a recording.
pub fn resolved_by(answer: Answer) -> (r: Option<(String, String)>)
    ensures
        match answer {
            Answer::Match(found) => match found.recording_mbid {
                Some(mbid) => r matches Some(pair) && pair.0@ == mbid@ && pair.1@
                    == found.acoustid@,
                None => r is None,
            },
            _ => r is None,
        },
{
    match answer {
        Answer::Match(found) => match found.recording_mbid {
            Some(mbid) => Some((mbid, found.acoustid)),
            None => None,
        },
        _ => None,
    }
}

/// What came of a lookup.
#[derive(Debug, Clone, Copy, PartialEq, Eq, Structural)]
pub enum LookupOutcome {
    /// The recording is known.
    Resolved,
    /// The service answered, but with no recording.
    Unresolved,
    /// The request failed.
    Failed,
}

/// What came of a lookup, given its answer, or nothing where the request failed.
pub open spec fn outcome_of(answer: Option<Answer>) -> LookupOutcome {
    match answer {
        None => LookupOutcome::Failed,
        Some(Answer::Match(found)) => if found.recording_mbid is Some {
            LookupOutcome::Resolved
        } else {
            LookupOutcome::Unresolved
        },
        Some(_) => LookupOutcome::Unresolved,
    }
}

/// What came of a lookup, given its answer, or nothing where the request failed.
pub fn lookup_outcome(answer: &Option<Answer>) -> (r: LookupOutcome)
    ensures
        r == outcome_of(*answer),
{
    match answer {
        None => LookupOutcome::Failed,
        Some(Answer::Match(found)) => if found.recording_mbid.is_some() {
            LookupOutcome::Resolved
        } else {
            LookupOutcome::Unresolved
        },
        Some(_) => LookupOutcome::Unresolved,
    }
}

/// How often lookups came out.
#[derive(Debug, Clone, Copy, PartialEq, Eq, Structural)]
pub struct LookupTotals {
    /// Files whose recording is known.
    pub resolved: u64,
    /// Requests that failed.
    pub failures: u64,
}

/// How often `wanted` is among `outcomes`.
pub open spec fn times(outcomes: Seq<LookupOutcome>, wanted: LookupOutcome) -> nat
    decreases outcomes.len(),
{
    if outcomes.len() == 0 {
        0
    } else {
        times(outcomes.drop_last(), wanted) + if outcomes.last() == wanted {
            1nat
        } else {
            0nat
        }
    }
}

/// Counts what came of lookups.
pub fn count_lookups(outcomes: &Vec<LookupOutcome>) -> (r: LookupTotals)
    ensures
        r.resolved == times(outcomes@, LookupOutcome::Resolved),
        r.failures == times(outcomes@, LookupOutcome::Failed),
{
    let mut r = LookupTotals { resolved: 0, failures: 0 };
    let mut i: usize = 0;
    while i < outcomes.len()
        invariant
            i <= outcomes@.len(),
            r.resolved <= i,
            r.failures <= i,
            r.resolved == times(outcomes@.take(i as int), LookupOutcome::Resolved),
            r.failures == times(outcomes@.take(i as int), LookupOutcome::Failed),
        decreases outcomes@.len() - i,
    {
        proof {
            assert(outcomes@.take(i + 1).drop_last() =~= outcomes@.take(i as int));
        }
        match outcomes[i] {
            LookupOutcome::Resolved => {
                r.resolved = r.resolved + 1;
            },
            LookupOutcome::Unresolved => {},
            LookupOutcome::Failed => {
                r.failures = r.failures + 1;
            },
        }
        i = i + 1;
    }
    proof {
        assert(outcomes@.take(outcomes@.len() as int) =~= outcomes@);
    }
    r
}

// --- Reporting ---

/// The line after the tags.
pub fn tags_line(resolved: u64, remaining: u64) -> (r: String)
    ensures
        r@ == "  Resolved "@ + crate::text::decimal_text(resolved as nat) + " from tags, "@
            + crate::text::decimal_text(remaining as nat) + " remaining"@,
{
    concat5(
        "  Resolved ",
        decimal(resolved as u128).as_str(),
        " from tags, ",
        decimal(remaining as u128).as_str(),
        " remaining",
    )
}

/// The closing lines.
pub fn result_lines(from_tags: u64, from_api: u64, failures: u64, total: u64) -> (r: Vec<String>)
    ensures
        crate::text::views(r@) == seq![
            "  Resolved from tags: "@ + crate::text::decimal_text(from_tags as nat),
            "  Resolved from AcoustID: "@ + crate::text::decimal_text(from_api as nat),
            "  API failures: "@ + crate::text::decimal_text(failures as nat),
            "  Total identified: "@ + crate::text::decimal_text((from_tags + from_api) as nat) + (
            "/"@ + crate::text::decimal_text(total as nat)),
        ],
{
    let sum: u128 = from_tags as u128 + from_api as u128;
    let tail = concat2("/", decimal(total as u128).as_str());
    let mut out: Vec<String> = Vec::with_capacity(4);
    out.push(concat2("  Resolved from tags: ", decimal(from_tags as u128).as_str()));
    out.push(concat2("  Resolved from AcoustID: ", decimal(from_api as u128).as_str()));
    out.push(concat2("  API failures: ", decimal(failures as u128).as_str()));
    out.push(concat3("  Total identified: ", decimal(sum).as_str(), tail.as_str()));
    proof {
        assert(crate::text::views(out@) =~= seq![
            out@[0]@,
            out@[1]@,
            out@[2]@,
            out@[3]@,
        ]);
    }
    out
}

// --- Laws ---

/// The files to identify are all that are not resolved, or where groups are given, those of
/// them whose path is that of a file in a group. They come in their order.
pub proof fn law_files_in_groups_are_identified(
    unresolved: Seq<FileFingerprint>,
    groups: Option<Seq<DuplicateGroup>>,
    n: int,
    k: int,
)
    requires
        0 <= n <= unresolved.len() <= usize::MAX,
        0 <= k < unresolved.len(),
    ensures
        ({
            let found = positions_to_identify(unresolved, groups, n);
            &&& found.contains(k as usize) <==> k < n && (groups matches Some(list) ==> exists|
                g: int,
                f: int,
            |
                0 <= g < list.len() && 0 <= f < list[g].files@.len() && crate::path::same_path(
                    (#[trigger] list[g].files@[f]).path@,
                    unresolved[k].path@,
                ))
            &&& forall|p: int| 0 <= p < found.len() ==> #[trigger] found[p] < n
            &&& forall|p: int, q: int|
                0 <= p < q < found.len() ==> #[trigger] found[p] < #[trigger] found[q]
        }),
    decreases n,
{
    if n > 0 {
        law_files_in_groups_are_identified(unresolved, groups, n - 1, k);
        let fewer = positions_to_identify(unresolved, groups, n - 1);
        let found = positions_to_identify(unresolved, groups, n);
        if fewer.contains(k as usize) {
            let p = choose|p: int| 0 <= p < fewer.len() && fewer[p] == k as usize;
            assert(found[p] == k as usize);
        }
        if k == n - 1 && found.len() > fewer.len() {
            assert(found[fewer.len() as int] == k as usize);
        }
        if found.contains(k as usize) && !fewer.contains(k as usize) {
            let p = choose|p: int| 0 <= p < found.len() && found[p] == k as usize;
            if p < fewer.len() {
                assert(fewer[p] == k as usize);
            }
        }
    }
}

/// Each file is resolved by its tags where they hold a recording ID, and remains otherwise,
/// in its order.
pub proof fn law_files_are_split_by_their_tags(
    found: Seq<Option<String>>,
    has_id: bool,
    n: int,
    k: int,
)
    requires
        0 <= n <= found.len() <= usize::MAX,
        0 <= k < found.len(),
    ensures
        ({
            let list = positions_by_tag(found, has_id, n);
            &&& list.contains(k as usize) <==> k < n && (found[k] is Some <==> has_id)
            &&& forall|p: int| 0 <= p < list.len() ==> #[trigger] list[p] < n
            &&& forall|p: int, q: int|
                0 <= p < q < list.len() ==> #[trigger] list[p] < #[trigger] list[q]
        }),
    decreases n,
{
    if n > 0 {
        law_files_are_split_by_their_tags(found, has_id, n - 1, k);
        let fewer = positions_by_tag(found, has_id, n - 1);
        let list = positions_by_tag(found, has_id, n);
        if fewer.contains(k as usize) {
            let p = choose|p: int| 0 <= p < fewer.len() && fewer[p] == k as usize;
            assert(list[p] == k as usize);
        }
        if k == n - 1 && list.len() > fewer.len() {
            assert(list[fewer.len() as int] == k as usize);
        }
        if list.contains(k as usize) && !fewer.contains(k as usize) {
            let p = choose|p: int| 0 <= p < list.len() && list[p] == k as usize;
            if p < fewer.len() {
                assert(fewer[p] == k as usize);
            }
        }
    }
}

/// Lookups are counted one by one. One without an answer failed, and one with an answer is
/// resolved just where the answer is a match with a recording.
pub proof fn law_lookups_are_counted_one_by_one(
    outcomes: Seq<LookupOutcome>,
    outcome: LookupOutcome,
    wanted: LookupOutcome,
    answer: Option<Answer>,
)
    ensures
        times(Seq::empty(), wanted) == 0,
        times(outcomes.push(outcome), wanted) == times(outcomes, wanted) + if outcome == wanted {
            1int
        } else {
            0
        },
        outcome_of(answer) is Failed <==> answer is None,
        outcome_of(answer) is Resolved <==> (answer matches Some(Answer::Match(found))
            && found.recording_mbid is Some),
{
    assert(outcomes.push(outcome).drop_last() =~= outcomes);
}

} // verus!
