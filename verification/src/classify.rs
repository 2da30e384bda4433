//! Telling matches apart: exact copies and same audio among perfect matches, and
//! groups that MusicBrainz knows to be different recordings.

use vstd::prelude::*;

use crate::matcher::{DuplicateGroup, MatchKind};
use crate::text::{copy, same_text, to_chars};

verus! {

// --- Hashes ---

/// The hashes of a file. An empty text stands for a hash that could not be computed.
#[derive(Debug, Clone)]
pub struct FileHashes {
    /// SHA-256 of the whole file.
    pub file: String,
    /// SHA-256 of the audio stream only.
    pub audio: String,
}

/// The hashes of a file as far as they are cached.
#[derive(Debug, Clone)]
pub struct CachedHashes {
    /// SHA-256 of the whole file.
    pub file: Option<String>,
    /// SHA-256 of the audio stream only.
    pub audio: Option<String>,
}

/// The hashes of a file where both are cached; otherwise they have to be computed.
pub fn known_hashes(cached: &Option<CachedHashes>) -> (r: Option<FileHashes>)
    ensures
        r is Some <==> cached is Some && cached->0.file is Some && cached->0.audio is Some,
        r matches Some(h) ==> h.file@ == cached->0.file->0@ && h.audio@ == cached->0.audio->0@,
{
    match cached {
        Some(c) => match (&c.file, &c.audio) {
            (Some(file), Some(audio)) => Some(FileHashes { file: copy(file), audio: copy(audio) }),
            _ => None,
        },
        None => None,
    }
}

/// Whether a known hash occurs at another position too.
pub open spec fn occurs_twice(hashes: Seq<Seq<char>>, i: int) -> bool {
    hashes[i].len() > 0 && exists|j: int|
        0 <= j < hashes.len() && j != i && #[trigger] hashes[j] == hashes[i]
}

/// Whether all hashes are known and the same.
pub open spec fn all_same(hashes: Seq<Seq<char>>) -> bool {
    hashes.len() > 0 && hashes[0].len() > 0 && forall|j: int|
        0 <= j < hashes.len() ==> #[trigger] hashes[j] == hashes[0]
}

/// The file hashes of a group.
pub open spec fn file_hashes(hashes: Seq<FileHashes>) -> Seq<Seq<char>> {
    hashes.map_values(|h: FileHashes| h.file@)
}

/// The audio hashes of a group.
pub open spec fn audio_hashes(hashes: Seq<FileHashes>) -> Seq<Seq<char>> {
    hashes.map_values(|h: FileHashes| h.audio@)
}

/// The kind of match of a file among others with a perfect score: an exact copy where
/// its file hash is that of another one, else the same audio where its audio hash is,
/// else what it was.
pub open spec fn kind_by_hashes(
    hashes: Seq<FileHashes>,
    i: int,
    before: MatchKind,
) -> MatchKind {
    if all_same(file_hashes(hashes)) || occurs_twice(file_hashes(hashes), i) {
        MatchKind::ExactCopy
    } else if before == MatchKind::ExactCopy {
        before
    } else if all_same(audio_hashes(hashes)) || occurs_twice(audio_hashes(hashes), i) {
        MatchKind::SameAudio
    } else {
        before
    }
}

fn is_empty(s: &str) -> (r: bool)
    ensures
        r == (s@.len() == 0),
{
    to_chars(s).len() == 0
}

fn shared(hashes: &Vec<String>, i: usize) -> (r: bool)
    requires
        i < hashes@.len(),
    ensures
        r == (all_same(crate::text::views(hashes@)) || occurs_twice(
            crate::text::views(hashes@),
            i as int,
        )),
{
    let ghost views = crate::text::views(hashes@);
    let mut all = !is_empty(hashes[0].as_str());
    let known = !is_empty(hashes[i].as_str());
    let mut twice = false;
    let mut j: usize = 0;
    proof {
        assert(views[0] == hashes@[0]@);
        assert(views[i as int] == hashes@[i as int]@);
    }
    while j < hashes.len()
        invariant
            j <= hashes@.len(),
            i < hashes@.len(),
            views == crate::text::views(hashes@),
            all == (views[0].len() > 0 && forall|k: int| 0 <= k < j ==> #[trigger] views[k] == views[0]),
            known == (views[i as int].len() > 0),
            twice == exists|k: int| 0 <= k < j && k != i && #[trigger] views[k] == views[i as int],
        decreases hashes@.len() - j,
    {
        proof {
            assert(views[j as int] == hashes@[j as int]@);
            assert(views[0] == hashes@[0]@);
            assert(views[i as int] == hashes@[i as int]@);
        }
        if !same_text(hashes[j].as_str(), hashes[0].as_str()) {
            all = false;
        }
        if j != i && same_text(hashes[j].as_str(), hashes[i].as_str()) {
            twice = true;
        }
        j = j + 1;
    }
    all || (known && twice)
}

/// Classifies the files of one group by their hashes. Only a group with a perfect
/// score is classified.
pub fn classify_group(group: &mut DuplicateGroup, hashes: &Vec<FileHashes>)
    requires
        old(group).similarity.spec_is_perfect() ==> hashes@.len() == old(group).files@.len(),
    ensures
        final(group).id == old(group).id,
        final(group).similarity == old(group).similarity,
        final(group).files@.len() == old(group).files@.len(),
        forall|i: int|
            0 <= i < old(group).files@.len() ==> {
                let before = old(group).files@[i];
                let after = #[trigger] final(group).files@[i];
                &&& after.path == before.path
                &&& after.duration_ns == before.duration_ns
                &&& after.match_kind == if old(group).similarity.spec_is_perfect() {
                    kind_by_hashes(hashes@, i, before.match_kind)
                } else {
                    before.match_kind
                }
            },
{
    if !group.similarity.is_perfect() {
        return;
    }
    let mut by_file: Vec<String> = Vec::new();
    let mut by_audio: Vec<String> = Vec::new();
    let mut k: usize = 0;
    while k < hashes.len()
        invariant
            k <= hashes@.len(),
            crate::text::views(by_file@) == file_hashes(hashes@).take(k as int),
            crate::text::views(by_audio@) == audio_hashes(hashes@).take(k as int),
        decreases hashes@.len() - k,
    {
        let ghost files0 = by_file@;
        let ghost audios0 = by_audio@;
        by_file.push(copy(&hashes[k].file));
        by_audio.push(copy(&hashes[k].audio));
        proof {
            assert(crate::text::views(by_file@) =~= crate::text::views(files0).push(
                hashes@[k as int].file@,
            ));
            assert(crate::text::views(by_audio@) =~= crate::text::views(audios0).push(
                hashes@[k as int].audio@,
            ));
            assert(crate::text::views(by_file@) =~= file_hashes(hashes@).take(k + 1));
            assert(crate::text::views(by_audio@) =~= audio_hashes(hashes@).take(k + 1));
        }
        k = k + 1;
    }
    proof {
        assert(file_hashes(hashes@).take(hashes@.len() as int) =~= file_hashes(hashes@));
        assert(audio_hashes(hashes@).take(hashes@.len() as int) =~= audio_hashes(hashes@));
        assert(crate::text::views(by_file@).len() == by_file@.len());
        assert(crate::text::views(by_audio@).len() == by_audio@.len());
    }
    let mut i: usize = 0;
    let total: usize = group.files.len();
    while i < total
        invariant
            i <= total,
            total == hashes@.len(),
            total == group.files@.len(),
            total == old(group).files@.len(),
            by_file@.len() == hashes@.len(),
            by_audio@.len() == hashes@.len(),
            crate::text::views(by_file@) == file_hashes(hashes@),
            crate::text::views(by_audio@) == audio_hashes(hashes@),
            group.id == old(group).id,
            group.similarity == old(group).similarity,
            forall|j: int|
                0 <= j < total ==> {
                    let before = old(group).files@[j];
                    let after = #[trigger] group.files@[j];
                    &&& after.path == before.path
                    &&& after.duration_ns == before.duration_ns
                    &&& after.match_kind == if j < i {
                        kind_by_hashes(hashes@, j, before.match_kind)
                    } else {
                        before.match_kind
                    }
                },
        decreases total - i,
    {
        if shared(&by_file, i) {
            group.files[i].match_kind = MatchKind::ExactCopy;
        } else if group.files[i].match_kind != MatchKind::ExactCopy && shared(&by_audio, i) {
            group.files[i].match_kind = MatchKind::SameAudio;
        }
        i = i + 1;
    }
}

/// `after` is `before` with its files classified by `hashes`.
pub open spec fn is_classified(
    before: DuplicateGroup,
    after: DuplicateGroup,
    hashes: Seq<FileHashes>,
) -> bool {
    &&& after.id == before.id
    &&& after.similarity == before.similarity
    &&& after.files@.len() == before.files@.len()
    &&& forall|i: int|
        0 <= i < before.files@.len() ==> {
            &&& (#[trigger] after.files@[i]).path == before.files@[i].path
            &&& after.files@[i].duration_ns == before.files@[i].duration_ns
            &&& after.files@[i].match_kind == if before.similarity.spec_is_perfect() {
                kind_by_hashes(hashes, i, before.files@[i].match_kind)
            } else {
                before.files@[i].match_kind
            }
        }
}

/// Classifies perfect matches as exact copies or same audio, by the hashes of their
/// files. `hashes` has a list for each group; that of a group without a perfect score
/// is not looked at, so it needs none.
pub fn classify_matches(groups: &mut Vec<DuplicateGroup>, hashes: &Vec<Vec<FileHashes>>)
    requires
        hashes@.len() == old(groups)@.len(),
        forall|g: int|
            0 <= g < old(groups)@.len() && (#[trigger] old(groups)@[g]).similarity.spec_is_perfect()
                ==> hashes@[g]@.len() == old(groups)@[g].files@.len(),
    ensures
        final(groups)@.len() == old(groups)@.len(),
        forall|g: int|
            0 <= g < old(groups)@.len() ==> is_classified(
                old(groups)@[g],
                #[trigger] final(groups)@[g],
                hashes@[g]@,
            ),
{
    let total: usize = groups.len();
    let mut g: usize = 0;
    while g < total
        invariant
            g <= total,
            total == groups@.len(),
            total == old(groups)@.len(),
            hashes@.len() == total,
            forall|k: int|
                0 <= k < total && (#[trigger] old(groups)@[k]).similarity.spec_is_perfect()
                    ==> hashes@[k]@.len() == old(groups)@[k].files@.len(),
            forall|k: int|
                0 <= k < g ==> is_classified(
                    old(groups)@[k],
                    #[trigger] groups@[k],
                    hashes@[k]@,
                ),
            forall|k: int| g <= k < total ==> #[trigger] groups@[k] == old(groups)@[k],
        decreases total - g,
    {
        classify_group(&mut groups[g], &hashes[g]);
        g = g + 1;
    }
}

/// A file of two or more that becomes an exact copy has a known file hash, and so has
/// another one with it.
pub proof fn law_exact_copies_share_their_file_hash(hashes: Seq<FileHashes>, i: int, before: MatchKind)
    requires
        2 <= hashes.len(),
        0 <= i < hashes.len(),
        before != MatchKind::ExactCopy,
        kind_by_hashes(hashes, i, before) == MatchKind::ExactCopy,
    ensures
        occurs_twice(file_hashes(hashes), i),
{
    let h = file_hashes(hashes);
    if all_same(h) {
        let j: int = if i == 0 {
            1
        } else {
            0
        };
        assert(h[j] == h[0]);
        assert(h[i] == h[0]);
        assert(h[j] == h[i]);
    }
}

/// A file of two or more that becomes one of the same audio shares its audio hash with
/// another one, and its file hash with none.
pub proof fn law_same_audio_shares_only_the_audio_hash(
    hashes: Seq<FileHashes>,
    i: int,
)
    requires
        2 <= hashes.len(),
        0 <= i < hashes.len(),
        kind_by_hashes(hashes, i, MatchKind::Similar) == MatchKind::SameAudio,
    ensures
        occurs_twice(audio_hashes(hashes), i),
        !occurs_twice(file_hashes(hashes), i),
{
    let h = audio_hashes(hashes);
    if all_same(h) {
        let j: int = if i == 0 {
            1
        } else {
            0
        };
        assert(h[j] == h[0]);
        assert(h[i] == h[0]);
        assert(h[j] == h[i]);
    }
}

// --- Recording IDs ---

/// Whether recording IDs leave it open that the files are the same recording: some
/// are not known, or all are the same.
pub open spec fn may_be_same_recording(mbids: Seq<Option<String>>) -> bool {
    ||| exists|i: int| 0 <= i < mbids.len() && #[trigger] mbids[i] is None
    ||| forall|i: int|
        0 <= i < mbids.len() ==> crate::text::opt_view(#[trigger] mbids[i])
            == crate::text::opt_view(mbids[0])
}

/// Whether recording IDs leave it open that the files are the same recording.
pub fn keep_by_mbids(mbids: &Vec<Option<String>>) -> (r: bool)
    ensures
        r == may_be_same_recording(mbids@),
{
    let mut all = true;
    let mut i: usize = 0;
    while i < mbids.len()
        invariant
            i <= mbids@.len(),
            forall|k: int| 0 <= k < i ==> #[trigger] mbids@[k] is Some,
            all == forall|k: int|
                0 <= k < i ==> crate::text::opt_view(#[trigger] mbids@[k])
                    == crate::text::opt_view(mbids@[0]),
        decreases mbids@.len() - i,
    {
        match &mbids[i] {
            None => {
                return true;
            },
            Some(id) => match &mbids[0] {
                None => {
                    return true;
                },
                Some(first) => {
                    if !same_text(id.as_str(), first.as_str()) {
                        all = false;
                    }
                },
            },
        }
        i = i + 1;
    }
    all
}

/// The groups that are not known to be different recordings, in their order.
pub open spec fn kept_by_mbids(
    groups: Seq<DuplicateGroup>,
    mbids: Seq<Vec<Option<String>>>,
) -> Seq<DuplicateGroup>
    decreases groups.len(),
{
    if groups.len() == 0 {
        seq![]
    } else {
        let before = kept_by_mbids(groups.drop_last(), mbids);
        if may_be_same_recording(mbids[groups.len() - 1]@) {
            before.push(groups.last())
        } else {
            before
        }
    }
}

/// Filters out groups whose recording IDs prove that they are different recordings.
/// `mbids` has the recording IDs of the files of each group.
pub fn filter_by_mbids(groups: Vec<DuplicateGroup>, mbids: &Vec<Vec<Option<String>>>) -> (r: Vec<
    DuplicateGroup,
>)
    requires
        mbids@.len() == groups@.len(),
    ensures
        r@ == kept_by_mbids(groups@, mbids@),
{
    let ghost all = groups@;
    let total: usize = groups.len();
    let mut out: Vec<DuplicateGroup> = Vec::new();
    let mut g: usize = 0;
    for group in it: groups.into_iter()
        invariant
            it.seq() == all,
            total == all.len(),
            mbids@.len() == all.len(),
            g == it.index(),
            out@ == kept_by_mbids(all.take(g as int), mbids@),
    {
        proof {
            assert(all.take(g + 1).drop_last() =~= all.take(g as int));
        }
        if keep_by_mbids(&mbids[g]) {
            out.push(group);
        }
        g = g + 1;
    }
    proof {
        assert(all.take(all.len() as int) =~= all);
    }
    out
}

/// Of several files with a perfect score, those whose file hash is known and that of another
/// one are exact copies; else those whose audio hash is known and that of another one have the
/// same audio; the others are similar.
pub proof fn law_files_are_classified_by_shared_hashes(hashes: Seq<FileHashes>, i: int)
    requires
        hashes.len() >= 2,
        0 <= i < hashes.len(),
    ensures
        ({
            let same_file = hashes[i].file@.len() > 0 && exists|j: int|
                0 <= j < hashes.len() && j != i && (#[trigger] hashes[j]).file@ == hashes[i].file@;
            let same_audio = hashes[i].audio@.len() > 0 && exists|j: int|
                0 <= j < hashes.len() && j != i && (#[trigger] hashes[j]).audio@
                    == hashes[i].audio@;
            let kind = kind_by_hashes(hashes, i, MatchKind::Similar);
            &&& same_file ==> kind == MatchKind::ExactCopy
            &&& !same_file && same_audio ==> kind == MatchKind::SameAudio
            &&& !same_file && !same_audio ==> kind == MatchKind::Similar
        }),
{
    lemma_shared(hashes, file_hashes(hashes), i);
    lemma_shared(hashes, audio_hashes(hashes), i);
    let f = file_hashes(hashes);
    let a = audio_hashes(hashes);
    if exists|j: int|
        0 <= j < hashes.len() && j != i && (#[trigger] hashes[j]).file@ == hashes[i].file@ {
        let j = choose|j: int|
            0 <= j < hashes.len() && j != i && (#[trigger] hashes[j]).file@ == hashes[i].file@;
        assert(f[j] == f[i]);
    }
    if exists|j: int|
        0 <= j < hashes.len() && j != i && (#[trigger] hashes[j]).audio@ == hashes[i].audio@ {
        let j = choose|j: int|
            0 <= j < hashes.len() && j != i && (#[trigger] hashes[j]).audio@ == hashes[i].audio@;
        assert(a[j] == a[i]);
    }
    if occurs_twice(f, i) {
        let j = choose|j: int| 0 <= j < f.len() && j != i && #[trigger] f[j] == f[i];
        assert(hashes[j].file@ == hashes[i].file@);
    }
    if occurs_twice(a, i) {
        let j = choose|j: int| 0 <= j < a.len() && j != i && #[trigger] a[j] == a[i];
        assert(hashes[j].audio@ == hashes[i].audio@);
    }
}

proof fn lemma_shared(hashes: Seq<FileHashes>, list: Seq<Seq<char>>, i: int)
    requires
        hashes.len() >= 2,
        list.len() == hashes.len(),
        0 <= i < list.len(),
    ensures
        all_same(list) ==> occurs_twice(list, i),
{
    if all_same(list) {
        let j: int = if i == 0 {
            1
        } else {
            0
        };
        assert(list[j] == list[0]);
        assert(list[i] == list[0]);
    }
}

/// Only files with a perfect score are classified: those of other groups stay as they are.
pub proof fn law_only_perfect_groups_are_classified(
    before: DuplicateGroup,
    after: DuplicateGroup,
    hashes: Seq<FileHashes>,
    i: int,
)
    requires
        is_classified(before, after, hashes),
        0 <= i < before.files@.len(),
    ensures
        after.id@ == before.id@,
        after.similarity == before.similarity,
        after.files@.len() == before.files@.len(),
        after.files@[i].path@ == before.files@[i].path@,
        after.files@[i].duration_ns == before.files@[i].duration_ns,
        before.similarity.total == 0 || before.similarity.matching != before.similarity.total
            ==> after.files@[i].match_kind == before.files@[i].match_kind,
        before.similarity.total > 0 && before.similarity.matching == before.similarity.total
            ==> after.files@[i].match_kind == kind_by_hashes(
            hashes,
            i,
            before.files@[i].match_kind,
        ),
{
}

/// Recording IDs tell files apart just where all are known and two of them differ.
pub proof fn law_only_different_recordings_are_told_apart(mbids: Seq<Option<String>>)
    ensures
        !may_be_same_recording(mbids) <==> (forall|i: int|
            0 <= i < mbids.len() ==> #[trigger] mbids[i] is Some) && exists|i: int, j: int|
            0 <= i < mbids.len() && 0 <= j < mbids.len() && (#[trigger] mbids[i])->0@ != (
            #[trigger] mbids[j])->0@,
{
    if !may_be_same_recording(mbids) {
        let i = choose|i: int|
            0 <= i < mbids.len() && crate::text::opt_view(#[trigger] mbids[i])
                != crate::text::opt_view(mbids[0]);
        assert(mbids[i] is Some && mbids[0] is Some);
        assert(mbids[i]->0@ != mbids[0]->0@);
    }
    if (forall|i: int| 0 <= i < mbids.len() ==> #[trigger] mbids[i] is Some) && exists|
        i: int,
        j: int,
    |
        0 <= i < mbids.len() && 0 <= j < mbids.len() && (#[trigger] mbids[i])->0@ != (
        #[trigger] mbids[j])->0@ {
        let (i, j) = choose|i: int, j: int|
            0 <= i < mbids.len() && 0 <= j < mbids.len() && (#[trigger] mbids[i])->0@ != (
            #[trigger] mbids[j])->0@;
        assert(mbids[i] is Some && mbids[j] is Some && mbids[0] is Some);
        if may_be_same_recording(mbids) {
            assert(crate::text::opt_view(mbids[i]) == crate::text::opt_view(mbids[0]));
            assert(crate::text::opt_view(mbids[j]) == crate::text::opt_view(mbids[0]));
        }
    }
}

/// Groups are filtered one by one, each by the recording IDs of its own files, and those that
/// stay keep their order.
pub proof fn law_groups_are_filtered_one_by_one(
    groups: Seq<DuplicateGroup>,
    group: DuplicateGroup,
    mbids: Seq<Vec<Option<String>>>,
)
    requires
        groups.len() < mbids.len(),
    ensures
        kept_by_mbids(Seq::empty(), mbids) == Seq::<DuplicateGroup>::empty(),
        may_be_same_recording(mbids[groups.len() as int]@) ==> kept_by_mbids(
            groups.push(group),
            mbids,
        ) == kept_by_mbids(groups, mbids).push(group),
        !may_be_same_recording(mbids[groups.len() as int]@) ==> kept_by_mbids(
            groups.push(group),
            mbids,
        ) == kept_by_mbids(groups, mbids),
{
    assert(groups.push(group).drop_last() =~= groups);
}

} // verus!
