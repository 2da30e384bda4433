//! The AcoustID lookup: what is asked, how often, and what is read from the answer.

use vstd::prelude::*;

use crate::text::{copy, copy_option, decimal, same_text};

verus! {

/// Where lookups are sent to.
pub const ACOUSTID_API_URL: &'static str = "https://api.acoustid.org/v2/lookup";

/// Nanoseconds between two requests, at least: about three requests in a second.
pub const MIN_INTERVAL_NS: u64 = 334_000_000;

/// The lowest score, in billionths, of a result that is taken.
pub const MIN_SCORE_PPB: u64 = 500_000_000;

/// Result of an AcoustID lookup for a single fingerprint.
#[derive(Debug, Clone)]
pub struct LookupResult {
    /// The AcoustID UUID.
    pub acoustid: String,
    /// The MusicBrainz Recording ID (if resolved).
    pub recording_mbid: Option<String>,
    /// Confidence score in billionths.
    pub score_ppb: u64,
}

// --- Rate limiting ---

/// Rate-limited AcoustID API client.
#[derive(Debug)]
pub struct AcoustIdClient {
    api_key: String,
    min_interval_ns: u64,
    last_request_ns: Option<u64>,
}

/// How long to wait at time `now` when the last request was at `last`.
pub open spec fn wait_time(last: Option<u64>, now: u64, interval: u64) -> int {
    match last {
        None => 0,
        Some(t) => if now < t {
            interval as int
        } else if now - t < interval {
            interval - (now - t)
        } else {
            0
        },
    }
}

impl AcoustIdClient {
    /// The API key.
    pub closed spec fn spec_api_key(&self) -> Seq<char> {
        self.api_key@
    }

    /// The least interval between requests in nanoseconds.
    pub closed spec fn spec_interval(&self) -> u64 {
        self.min_interval_ns
    }

    /// When the last request was made, on a clock that does not run backwards.
    pub closed spec fn spec_last(&self) -> Option<u64> {
        self.last_request_ns
    }

    /// Create a new client with the given API key.
    /// Rate limit: max 3 requests/second.
    pub fn new(api_key: String) -> (r: AcoustIdClient)
        ensures
            r.spec_api_key() == api_key@,
            r.spec_interval() == MIN_INTERVAL_NS,
            r.spec_last() is None,
    {
        AcoustIdClient { api_key, min_interval_ns: MIN_INTERVAL_NS, last_request_ns: None }
    }

    /// How many nanoseconds to wait before the next request, at time `now`.
    pub fn rate_limit(&self, now: u64) -> (r: u64)
        ensures
            r == wait_time(self.spec_last(), now, self.spec_interval()),
    {
        match self.last_request_ns {
            None => 0,
            Some(last) => {
                let elapsed: u64 = if now < last {
                    0
                } else {
                    now - last
                };
                if elapsed < self.min_interval_ns {
                    self.min_interval_ns - elapsed
                } else {
                    0
                }
            },
        }
    }

    /// Records that a request was made, up to time `now`, whatever came of it.
    pub fn requested(&mut self, now: u64)
        ensures
            final(self).spec_last() == Some(now),
            final(self).spec_api_key() == old(self).spec_api_key(),
            final(self).spec_interval() == old(self).spec_interval(),
    {
        self.last_request_ns = Some(now);
    }

    /// The parameters of a lookup: the key, what is asked for, the duration in whole
    /// seconds and the encoded fingerprint.
    pub fn query(&self, duration_ns: u64, encoded: &str) -> (r: Vec<(String, String)>)
        ensures
            r@.len() == 4,
            r@[0].0@ == "client"@ && r@[0].1@ == self.spec_api_key(),
            r@[1].0@ == "meta"@ && r@[1].1@ == "recordings"@,
            r@[2].0@ == "duration"@ && r@[2].1@ == crate::text::decimal_text(
                whole_seconds(duration_ns) as nat,
            ),
            r@[3].0@ == "fingerprint"@ && r@[3].1@ == encoded@,
    {
        let secs: u64 = duration_ns / 1_000_000_000;
        let duration: u64 = if secs > 0xffff_ffff {
            0xffff_ffff
        } else {
            secs
        };
        let mut out: Vec<(String, String)> = Vec::with_capacity(4);
        out.push(("client".to_owned(), copy(&self.api_key)));
        out.push(("meta".to_owned(), "recordings".to_owned()));
        out.push(("duration".to_owned(), decimal(duration as u128)));
        out.push(("fingerprint".to_owned(), encoded.to_owned()));
        out
    }
}

/// A duration in whole seconds, as far as 32 bits can tell.
pub open spec fn whole_seconds(duration_ns: u64) -> int {
    let secs = duration_ns / 1_000_000_000;
    if secs > 0xffff_ffff {
        0xffff_ffff
    } else {
        secs as int
    }
}

/// After the wait, the interval since the last request has passed.
pub proof fn law_requests_keep_their_distance(last: u64, now: u64, interval: u64)
    requires
        last <= now,
    ensures
        now + wait_time(Some(last), now, interval) >= last + interval,
{
}

/// Requests that keep their distance are never more than three in a second: any four in a
/// row take longer.
pub proof fn law_at_most_three_requests_a_second(times: Seq<int>, i: int)
    requires
        0 <= i,
        i + 3 < times.len(),
        forall|k: int|
            0 <= k < times.len() - 1 ==> #[trigger] times[k] + MIN_INTERVAL_NS <= times[k + 1],
    ensures
        times[i + 3] - times[i] > 1_000_000_000,
{
    assert(times[i] + MIN_INTERVAL_NS <= times[i + 1]);
    assert(times[i + 1] + MIN_INTERVAL_NS <= times[i + 2]);
    assert(times[i + 2] + MIN_INTERVAL_NS <= times[i + 3]);
}

// --- Answers ---

/// A result in an answer.
#[derive(Debug, Clone)]
pub struct ApiResult {
    /// The AcoustID UUID.
    pub id: String,
    /// Confidence score in billionths.
    pub score_ppb: u64,
    /// The IDs of the recordings that are linked to it.
    pub recordings: Option<Vec<String>>,
}

/// An answer to a lookup.
#[derive(Debug, Clone)]
pub struct ApiResponse {
    /// `ok`, unless something went wrong.
    pub status: String,
    /// The results.
    pub results: Option<Vec<ApiResult>>,
    /// What went wrong.
    pub error: Option<String>,
}

/// What an answer says.
#[derive(Debug)]
pub enum Answer {
    /// The lookup failed, with this message.
    Failed(String),
    /// Nothing matches well enough.
    NoMatch,
    /// This matches.
    Match(LookupResult),
}

/// Whether the result at `i` is the best match: it scores high enough, none scores
/// higher, and none before it scores the same.
pub open spec fn is_best_match(results: Seq<ApiResult>, i: int) -> bool {
    &&& 0 <= i < results.len()
    &&& results[i].score_ppb >= MIN_SCORE_PPB
    &&& forall|j: int|
        0 <= j < results.len() ==> (#[trigger] results[j]).score_ppb <= results[i].score_ppb
    &&& forall|j: int| 0 <= j < i ==> (#[trigger] results[j]).score_ppb < results[i].score_ppb
}

/// Whether a match holds what a result says: its ID, its score and its first recording.
pub open spec fn is_match_for(found: LookupResult, result: ApiResult) -> bool {
    &&& found.acoustid@ == result.id@
    &&& found.score_ppb == result.score_ppb
    &&& crate::text::opt_view(found.recording_mbid) == first_recording(result)
}

/// The first recording of a result.
pub open spec fn first_recording(result: ApiResult) -> Option<Seq<char>> {
    match result.recordings {
        Some(list) => if list@.len() > 0 {
            Some(list@[0]@)
        } else {
            None
        },
        None => None,
    }
}

/// The results of an answer.
pub open spec fn results_of(response: ApiResponse) -> Seq<ApiResult> {
    match response.results {
        Some(list) => list@,
        None => Seq::empty(),
    }
}

/// The position of the best match, where a result scores high enough.
fn find_best(results: &Vec<ApiResult>) -> (r: Option<usize>)
    ensures
        match r {
            Some(i) => is_best_match(results@, i as int),
            None => forall|j: int|
                0 <= j < results@.len() ==> (#[trigger] results@[j]).score_ppb < MIN_SCORE_PPB,
        },
{
    let mut best: Option<usize> = None;
    let mut i: usize = 0;
    while i < results.len()
        invariant
            i <= results@.len(),
            match best {
                Some(b) => {
                    &&& b < i
                    &&& results@[b as int].score_ppb >= MIN_SCORE_PPB
                    &&& forall|j: int|
                        0 <= j < i ==> (#[trigger] results@[j]).score_ppb
                            <= results@[b as int].score_ppb
                    &&& forall|j: int|
                        0 <= j < b ==> (#[trigger] results@[j]).score_ppb
                            < results@[b as int].score_ppb
                },
                None => forall|j: int|
                    0 <= j < i ==> (#[trigger] results@[j]).score_ppb < MIN_SCORE_PPB,
            },
        decreases results@.len() - i,
    {
        let score: u64 = results[i].score_ppb;
        let better = match best {
            Some(b) => score > results[b].score_ppb,
            None => score >= MIN_SCORE_PPB,
        };
        if better {
            best = Some(i);
        }
        i = i + 1;
    }
    best
}

/// Reads an answer: the best matching result, with its first recording. Nothing matches
/// where no result scores high enough.
pub fn read_answer(response: &ApiResponse) -> (r: Answer)
    ensures
        response.status@ != "ok"@ ==> (r matches Answer::Failed(message) && message@ == (
        match response.error {
            Some(e) => e@,
            None => "unknown error"@,
        })),
        response.status@ == "ok"@ ==> r !is Failed,
        response.status@ == "ok"@ ==> (r is NoMatch <==> forall|j: int|
            0 <= j < results_of(*response).len() ==> (
            #[trigger] results_of(*response)[j]).score_ppb < MIN_SCORE_PPB),
        r matches Answer::Match(found) ==> exists|i: int| #[trigger]
            is_best_match(results_of(*response), i) && is_match_for(
                found,
                results_of(*response)[i],
            ),
{
    if !same_text(response.status.as_str(), "ok") {
        return Answer::Failed(
            match copy_option(&response.error) {
                Some(message) => message,
                None => "unknown error".to_owned(),
            },
        );
    }
    let results = match &response.results {
        None => {
            return Answer::NoMatch;
        },
        Some(results) => results,
    };
    let at: usize = match find_best(results) {
        None => {
            return Answer::NoMatch;
        },
        Some(at) => at,
    };
    let chosen = &results[at];
    let recording_mbid = match &chosen.recordings {
        Some(list) => if list.len() > 0 {
            Some(copy(&list[0]))
        } else {
            None
        },
        None => None,
    };
    let found = LookupResult {
        acoustid: copy(&chosen.id),
        recording_mbid,
        score_ppb: chosen.score_ppb,
    };
    proof {
        assert(results@ == results_of(*response));
        assert(is_best_match(results_of(*response), at as int));
        assert(results_of(*response)[at as int].score_ppb >= MIN_SCORE_PPB);
        assert(is_match_for(found, results_of(*response)[at as int]));
    }
    Answer::Match(found)
}

/// There is at most one best match.
pub proof fn law_best_match_is_unique(results: Seq<ApiResult>, i: int, j: int)
    requires
        is_best_match(results, i),
        is_best_match(results, j),
    ensures
        i == j,
{
    if i < j {
        assert(results[i].score_ppb < results[j].score_ppb);
    } else if j < i {
        assert(results[j].score_ppb < results[i].score_ppb);
    }
}

/// There is a best match just where some result scores high enough.
pub proof fn law_a_confident_result_has_a_best_match(results: Seq<ApiResult>)
    ensures
        (exists|i: int| is_best_match(results, i)) <==> exists|j: int|
            0 <= j < results.len() && (#[trigger] results[j]).score_ppb >= MIN_SCORE_PPB,
{
    if exists|i: int| is_best_match(results, i) {
        let i = choose|i: int| is_best_match(results, i);
        assert(results[i].score_ppb >= MIN_SCORE_PPB);
    }
    if exists|j: int| 0 <= j < results.len() && (#[trigger] results[j]).score_ppb >= MIN_SCORE_PPB {
        let j = choose|j: int|
            0 <= j < results.len() && (#[trigger] results[j]).score_ppb >= MIN_SCORE_PPB;
        let i = lemma_first_highest(results, results.len() as int);
        assert(results[j].score_ppb <= results[i].score_ppb);
        assert(is_best_match(results, i));
    }
}

proof fn lemma_first_highest(results: Seq<ApiResult>, n: int) -> (i: int)
    requires
        0 < n <= results.len(),
    ensures
        0 <= i < n,
        forall|j: int| 0 <= j < n ==> (#[trigger] results[j]).score_ppb <= results[i].score_ppb,
        forall|j: int| 0 <= j < i ==> (#[trigger] results[j]).score_ppb < results[i].score_ppb,
    decreases n,
{
    if n == 1 {
        0
    } else {
        let before = lemma_first_highest(results, n - 1);
        if results[n - 1].score_ppb > results[before].score_ppb {
            n - 1
        } else {
            before
        }
    }
}

// --- Encoding ---

/// The longest fingerprint that is encoded: its text stays below 2^31 bytes.
pub const MAX_ENCODED_LEN: usize = 0x5ff_ffff;

/// What `rusty_chromaprint::FingerprintCompressor::compress` makes of a fingerprint.
pub uninterp spec fn compressed_fingerprint(fp: Seq<u32>) -> Seq<u8>;

/// The digit for a number below 64.
pub open spec fn base64_digit(n: int) -> char {
    if n < 26 {
        (65 + n) as char
    } else if n < 52 {
        (97 + n - 26) as char
    } else if n < 62 {
        (48 + n - 52) as char
    } else if n == 62 {
        '+'
    } else {
        '/'
    }
}

/// The base64 of bytes: four digits for each three bytes, with `=` in place of those that
/// the last ones do not fill.
pub open spec fn base64_text(bytes: Seq<u8>) -> Seq<char>
    decreases bytes.len(),
{
    if bytes.len() == 0 {
        seq![]
    } else {
        let a = bytes[0] as int;
        let b = if bytes.len() > 1 {
            bytes[1] as int
        } else {
            0
        };
        let c = if bytes.len() > 2 {
            bytes[2] as int
        } else {
            0
        };
        seq![
            base64_digit(a / 4),
            base64_digit(a % 4 * 16 + b / 16),
            if bytes.len() > 1 {
                base64_digit(b % 16 * 4 + c / 64)
            } else {
                '='
            },
            if bytes.len() > 2 {
                base64_digit(c % 64)
            } else {
                '='
            },
        ] + if bytes.len() > 3 {
            base64_text(bytes.skip(3))
        } else {
            seq![]
        }
    }
}

/// `rusty_chromaprint::FingerprintCompressor::compress` for the second test preset: the
/// compressed form, which starts with the number of the algorithm and the length in 24
/// bits, and has at most sixteen bytes for each sub-fingerprint behind six more. What else
/// is in it is left to its name.
#[verifier::external_body]
fn compress(fp: &[u32]) -> (r: Vec<u8>)
    requires
        fp@.len() <= MAX_ENCODED_LEN,
    ensures
        r@ == compressed_fingerprint(fp@),
        4 <= r@.len() <= 16 * fp@.len() + 6,
        r@[0] == 1,
        r@[1] == fp@.len() / 65536 % 256,
        r@[2] == fp@.len() / 256 % 256,
        r@[3] == fp@.len() % 256,
{
    let config = rusty_chromaprint::Configuration::preset_test2();
    rusty_chromaprint::FingerprintCompressor::from(&config).compress(fp)
}

/// `base64::Engine::encode` with the standard engine: the base64 of the bytes, with the
/// standard alphabet and padding.
#[verifier::external_body]
fn encode_base64(bytes: &[u8]) -> (r: String)
    requires
        bytes@.len() <= 0x5fff_fffc,
    ensures
        r@ == base64_text(bytes@),
{
    base64::Engine::encode(&base64::engine::general_purpose::STANDARD, bytes)
}

/// Encodes a raw fingerprint to the compressed base64 form that the AcoustID API expects.
pub fn encode_fingerprint(fingerprint: &[u32]) -> (r: String)
    requires
        fingerprint@.len() <= MAX_ENCODED_LEN,
    ensures
        r@ == base64_text(compressed_fingerprint(fingerprint@)),
{
    encode_base64(&compress(fingerprint))
}

/// The wait before a request is just as long as it takes: it ends when the interval since the
/// last request has passed, and at once where it has, or where there was none.
pub proof fn law_the_wait_is_no_longer_than_needed(last: u64, now: u64, interval: u64)
    requires
        last <= now,
    ensures
        wait_time(None, now, interval) == 0,
        now >= last + interval ==> wait_time(Some(last), now, interval) == 0,
        now < last + interval ==> now + wait_time(Some(last), now, interval) == last + interval,
{
}

/// A duration is asked for in whole seconds, as many as it has passed, up to 32 bits.
pub proof fn law_durations_are_asked_for_in_seconds(duration_ns: u64)
    ensures
        ({
            let secs = whole_seconds(duration_ns);
            &&& 0 <= secs <= 0xffff_ffff
            &&& secs * 1_000_000_000 <= duration_ns
            &&& secs < 0xffff_ffff ==> duration_ns < (secs + 1) * 1_000_000_000
        }),
{
}

/// The best match scores at least one half, no result scores higher, and none before it as
/// high. There is one wherever a result scores at least one half.
pub proof fn law_the_best_match_scores_highest(results: Seq<ApiResult>, i: int, j: int)
    requires
        0 <= j < results.len(),
    ensures
        is_best_match(results, i) ==> 0 <= i < results.len() && results[i].score_ppb >= 500_000_000
            && results[j].score_ppb <= results[i].score_ppb && (j < i ==> results[j].score_ppb
            < results[i].score_ppb),
        results[j].score_ppb >= 500_000_000 ==> exists|k: int| is_best_match(results, k),
        results[j].score_ppb >= 500_000_000 && (forall|k: int|
            0 <= k < results.len() ==> (#[trigger] results[k]).score_ppb <= results[j].score_ppb)
            && (forall|k: int| 0 <= k < j ==> (#[trigger] results[k]).score_ppb
            < results[j].score_ppb) ==> is_best_match(results, j),
{
    if results[j].score_ppb >= 500_000_000 {
        law_a_confident_result_has_a_best_match(results);
    }
}

/// A match holds the ID and the score of its result, and the first of its recordings, where it
/// has any.
pub proof fn law_a_match_holds_what_the_result_says(found: LookupResult, result: ApiResult)
    requires
        is_match_for(found, result),
    ensures
        found.acoustid@ == result.id@,
        found.score_ppb == result.score_ppb,
        result.recordings is None ==> found.recording_mbid is None,
        result.recordings matches Some(list) ==> (list@.len() == 0 ==> found.recording_mbid is None)
            && (list@.len() > 0 ==> (found.recording_mbid matches Some(id) && id@ == list@[0]@)),
{
}

/// The results of an answer are those that it lists; without a list it has none.
pub proof fn law_all_results_of_an_answer_count(response: ApiResponse)
    ensures
        response.results matches Some(list) ==> results_of(response) == list@,
        response.results is None ==> results_of(response).len() == 0,
{
}

} // verus!
