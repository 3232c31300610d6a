//! The downloader's decision logic: where each remote location lands on
//! disk, the retry backoff schedule, the progress state machine, and the
//! partition of per-unit outcomes. The driver performs the transfers and
//! reports each unit's outcome back.

use vstd::prelude::*;
use crate::errors::NetError;
use crate::outside;
use crate::strutil::is_prefix_of;
use crate::strutil::str_starts_with;
use crate::strutil::str_strip_prefix;

verus! {

/// The observable state of a download pass.
#[derive(Debug, Clone, Copy, PartialEq, Eq, Structural)]
pub enum DownloadState {
    /// The download has not started.
    NotStarted,
    /// The given number of units will be downloaded.
    DownloadStart(usize),
    /// A unit of the given byte size was downloaded.
    FileDownload(u64),
    /// A unit exhausted its retries.
    DownloadError,
    /// Every unit has resolved, one way or the other.
    Finish,
}

/// Configuration of a download pass.
#[derive(Debug, Clone)]
pub struct DownloadConfig {
    /// Base delay between retries, in milliseconds; doubles every retry.
    pub retry_delay: u64,
    /// How many extra attempts a unit gets after its first failure.
    pub retry_count: usize,
    /// The output root downloaded files land under.
    pub out_path: String,
    /// The remote locations to fetch.
    pub urls: Vec<String>,
    /// How many units may be in flight at once.
    pub concurrency: usize,
    /// Stripped from the front of a location's path when deriving where the
    /// file lands.
    pub url_strip_prefix: Option<String>,
}

impl DownloadConfig {
    pub fn builder() -> (r: DownloadConfigBuilder)
        ensures
            r.config.is_default(),
    {
        DownloadConfigBuilder::new()
    }

    /// The stock configuration: 500 ms base delay, 3 retries, five units in
    /// flight, no prefix stripping, nothing to fetch.
    pub open spec fn is_default(&self) -> bool {
        &&& self.retry_delay == 500
        &&& self.retry_count == 3
        &&& self.out_path@ == Seq::<char>::empty()
        &&& self.urls@.len() == 0
        &&& self.concurrency == 5
        &&& self.url_strip_prefix is None
    }
}

impl Default for DownloadConfig {
    fn default() -> (r: Self)
        ensures
            r.is_default(),
    {
        DownloadConfig {
            retry_delay: 500,
            retry_count: 3,
            out_path: String::new(),
            urls: Vec::new(),
            concurrency: 5,
            url_strip_prefix: None,
        }
    }
}

/// Builder over the stock configuration.
#[derive(Debug)]
pub struct DownloadConfigBuilder {
    pub config: DownloadConfig,
}

impl DownloadConfigBuilder {
    pub fn new() -> (r: Self)
        ensures
            r.config.is_default(),
    {
        DownloadConfigBuilder { config: DownloadConfig::default() }
    }

    pub fn retry_delay(self, delay_ms: u64) -> (r: Self)
        ensures
            r.config == (DownloadConfig { retry_delay: delay_ms, ..self.config }),
    {
        DownloadConfigBuilder { config: DownloadConfig { retry_delay: delay_ms, ..self.config } }
    }

    pub fn retry_count(self, retry_count: usize) -> (r: Self)
        ensures
            r.config == (DownloadConfig { retry_count, ..self.config }),
    {
        DownloadConfigBuilder { config: DownloadConfig { retry_count, ..self.config } }
    }

    pub fn out_path(self, path: String) -> (r: Self)
        ensures
            r.config == (DownloadConfig { out_path: path, ..self.config }),
    {
        DownloadConfigBuilder { config: DownloadConfig { out_path: path, ..self.config } }
    }

    pub fn urls(self, urls: Vec<String>) -> (r: Self)
        ensures
            r.config == (DownloadConfig { urls, ..self.config }),
    {
        DownloadConfigBuilder { config: DownloadConfig { urls, ..self.config } }
    }

    pub fn concurrency(self, concurrency: usize) -> (r: Self)
        ensures
            r.config == (DownloadConfig { concurrency, ..self.config }),
    {
        DownloadConfigBuilder { config: DownloadConfig { concurrency, ..self.config } }
    }

    pub fn url_strip_prefix(self, strip_prefix: String) -> (r: Self)
        ensures
            r.config == (DownloadConfig { url_strip_prefix: Some(strip_prefix), ..self.config }),
    {
        DownloadConfigBuilder {
            config: DownloadConfig { url_strip_prefix: Some(strip_prefix), ..self.config },
        }
    }

    pub fn build(self) -> (r: DownloadConfig)
        ensures
            r == self.config,
    {
        self.config
    }
}

// ------------------------------------------------------------------
// Destination derivation.
// ------------------------------------------------------------------

/// Joining a relative path onto a directory, as path joining does: an
/// absolute right side replaces the left side entirely.
pub open spec fn spec_join_path(dir: Seq<char>, rel: Seq<char>) -> Seq<char> {
    if rel.len() > 0 && rel[0] == '/' {
        rel
    } else if dir.len() == 0 {
        rel
    } else if dir[dir.len() - 1] == '/' {
        dir + rel
    } else {
        dir + seq!['/'] + rel
    }
}

pub open spec fn opt_str_view(o: Option<String>) -> Option<Seq<char>> {
    match o {
        Some(s) => Some(s@),
        None => None,
    }
}

/// Where a file fetched from a location with path component `url_path`
/// lands: the configured prefix and one leading separator are stripped and
/// the remainder is joined onto the output root.
pub open spec fn spec_derive_out_path(
    url_path: Seq<char>,
    strip_prefix: Option<Seq<char>>,
    out_dir: Seq<char>,
) -> Seq<char> {
    let stripped = match strip_prefix {
        Some(p) => if is_prefix_of(p, url_path) {
            url_path.skip(p.len() as int)
        } else {
            url_path
        },
        None => url_path,
    };
    let relative = if stripped.len() > 0 && stripped[0] == '/' {
        stripped.drop_first()
    } else {
        stripped
    };
    spec_join_path(out_dir, relative)
}

/// Derives the local destination for a URL path component.
pub fn get_url_out_path(url_path: &str, out_dir: &str, strip_prefix: &Option<String>) -> (r:
    String)
    ensures
        r@ == spec_derive_out_path(url_path@, match strip_prefix {
            Some(p) => Some(p@),
            None => None,
        }, out_dir@),
{
    let stripped: String = match strip_prefix {
        Some(p) => {
            match str_strip_prefix(url_path, p.as_str()) {
                Some(rest) => rest,
                None => url_path.to_owned(),
            }
        },
        None => url_path.to_owned(),
    };
    proof {
        let sp = match strip_prefix {
            Some(p) => Some(p@),
            None => None,
        };
        assert(stripped@ == (match sp {
            Some(p) => if is_prefix_of(p, url_path@) {
                url_path@.skip(p.len() as int)
            } else {
                url_path@
            },
            None => url_path@,
        }));
    }
    let relative: String = if str_starts_with(stripped.as_str(), "/") {
        proof {
            reveal_strlit("/");
            assert("/"@.len() == 1);
            assert(stripped@.subrange(0, 1)[0] == stripped@[0]);
            assert(stripped@[0] == '/');
            assert(stripped@.skip(1) =~= stripped@.drop_first());
        }
        let r = stripped.as_str().substring_char(1, stripped.as_str().unicode_len());
        assert(r@ =~= stripped@.drop_first());
        r.to_owned()
    } else {
        proof {
            reveal_strlit("/");
            if stripped@.len() > 0 && stripped@[0] == '/' {
                assert(is_prefix_of("/"@, stripped@)) by {
                    assert(stripped@.subrange(0, 1) =~= "/"@);
                }
            }
        }
        stripped
    };
    join_path(out_dir, relative.as_str())
}

/// Joins `rel` onto `dir` with a single separator.
pub fn join_path(dir: &str, rel: &str) -> (r: String)
    ensures
        r@ == spec_join_path(dir@, rel@),
{
    proof {
        reveal_strlit("/");
    }
    if str_starts_with(rel, "/") {
        proof {
            assert("/"@.len() == 1);
            assert(rel@.subrange(0, 1)[0] == rel@[0]);
            assert(rel@[0] == '/');
        }
        return rel.to_owned();
    }
    proof {
        if rel@.len() > 0 && rel@[0] == '/' {
            assert(is_prefix_of("/"@, rel@)) by {
                assert(rel@.subrange(0, 1) =~= "/"@);
            }
        }
    }
    let dir_len = dir.unicode_len();
    if dir_len == 0 {
        return rel.to_owned();
    }
    let mut out = dir.to_owned();
    if dir.get_char(dir_len - 1) != '/' {
        out.append("/");
        proof {
            assert(out@ =~= dir@ + seq!['/']);
        }
    }
    out.append(rel);
    out
}

// ------------------------------------------------------------------
// Retry backoff schedule.
// ------------------------------------------------------------------

/// Doubling with saturation at the largest representable delay.
pub open spec fn sat_double(x: u64) -> u64 {
    if x > u64::MAX / 2 {
        u64::MAX
    } else {
        (2 * x) as u64
    }
}

/// The delays between attempts: the base delay, then double after every
/// failure, saturating.
pub open spec fn spec_retry_schedule(base: u64, count: nat) -> Seq<u64>
    decreases count,
{
    if count == 0 {
        Seq::empty()
    } else {
        seq![base] + spec_retry_schedule(sat_double(base), (count - 1) as nat)
    }
}

pub proof fn lemma_retry_schedule_shape(base: u64, count: nat)
    ensures
        spec_retry_schedule(base, count).len() == count,
        count > 0 ==> spec_retry_schedule(base, count)[0] == base,
        forall|i: int|
            0 <= i < count - 1 ==> #[trigger] spec_retry_schedule(base, count)[i + 1] == sat_double(
                spec_retry_schedule(base, count)[i],
            ),
    decreases count,
{
    if count > 0 {
        lemma_retry_schedule_shape(sat_double(base), (count - 1) as nat);
        let s = spec_retry_schedule(base, count);
        let rest = spec_retry_schedule(sat_double(base), (count - 1) as nat);
        assert forall|i: int| 0 <= i < count - 1 implies #[trigger] s[i + 1] == sat_double(
            s[i],
        ) by {
            if i == 0 {
                if count > 1 {
                    assert(rest[0] == sat_double(base));
                }
            } else {
                assert(rest[(i - 1) + 1] == sat_double(rest[i - 1]));
            }
        }
    }
}

/// The retry delays a unit will wait through, in order.
pub fn retry_schedule(base: u64, count: usize) -> (r: Vec<u64>)
    ensures
        r@ == spec_retry_schedule(base, count as nat),
{
    let mut out: Vec<u64> = Vec::new();
    let mut cur: u64 = base;
    let mut k: usize = 0;
    while k < count
        invariant
            0 <= k <= count,
            spec_retry_schedule(base, count as nat) == out@ + spec_retry_schedule(
                cur,
                (count - k) as nat,
            ),
        decreases count - k,
    {
        proof {
            assert(spec_retry_schedule(cur, (count - k) as nat) == seq![cur]
                + spec_retry_schedule(sat_double(cur), (count - k - 1) as nat));
            assert(out@ + (seq![cur] + spec_retry_schedule(sat_double(cur), (count - k - 1) as nat))
                =~= (out@ + seq![cur]) + spec_retry_schedule(sat_double(cur), (count - k - 1) as nat));
            assert(out@.push(cur) =~= out@ + seq![cur]);
        }
        out.push(cur);
        cur = if cur > u64::MAX / 2 {
            u64::MAX
        } else {
            2 * cur
        };
        k += 1;
    }
    proof {
        assert(out@ + spec_retry_schedule(cur, 0) =~= out@);
    }
    out
}

// ------------------------------------------------------------------
// The progress state machine and outcome bookkeeping.
// ------------------------------------------------------------------

/// Tracks a download pass: announced unit count, how many units have
/// resolved, and how many of those failed. The driver fetches units under
/// its concurrency bound and records each outcome here; the machine yields
/// the state updates to publish, and `Finish` can only come last.
#[derive(Debug)]
pub struct Downloader {
    pub config: DownloadConfig,
    pub started: bool,
    pub finished: bool,
    pub total: usize,
    pub resolved: usize,
    pub failed: usize,
}

impl Downloader {
    pub open spec fn inv(&self) -> bool {
        &&& self.failed <= self.resolved <= self.total
        &&& (self.finished ==> self.started && self.resolved == self.total)
        &&& (!self.started ==> self.resolved == 0 && !self.finished)
    }

    /// A fresh pass over the given configuration; nothing announced yet.
    pub fn new(config: DownloadConfig) -> (r: (Downloader, DownloadState))
        ensures
            r.0.config == config,
            !r.0.started && !r.0.finished,
            r.0.resolved == 0 && r.0.failed == 0 && r.0.total == 0,
            r.0.inv(),
            r.1 == DownloadState::NotStarted,
    {
        (
            Downloader {
                config,
                started: false,
                finished: false,
                total: 0,
                resolved: 0,
                failed: 0,
            },
            DownloadState::NotStarted,
        )
    }

    /// Derives each unit's destination: the location's path component,
    /// stripped per the configuration, joined onto the output root. Fails,
    /// carrying the offending location, exactly when some location is not
    /// a URL the url crate accepts.
    pub fn make_units(&self) -> (r: Result<Vec<(String, String)>, NetError>)
        ensures
            r matches Ok(units) ==> {
                &&& units@.len() == self.config.urls@.len()
                &&& forall|i: int|
                    0 <= i < units@.len() ==> (#[trigger] units@[i]).0@ == self.config.urls@[i]@
                        && units@[i].1@ == spec_derive_out_path(
                        outside::url_path_of(self.config.urls@[i]@),
                        opt_str_view(self.config.url_strip_prefix),
                        self.config.out_path@,
                    )
            },
            (r is Err) == exists|i: int|
                0 <= i < self.config.urls@.len() && !outside::url_parse_ok(
                    #[trigger] self.config.urls@[i]@,
                ),
    {
        let mut units: Vec<(String, String)> = Vec::new();
        let mut i: usize = 0;
        while i < self.config.urls.len()
            invariant
                0 <= i <= self.config.urls@.len(),
                units@.len() == i,
                forall|k: int| 0 <= k < i ==> outside::url_parse_ok(#[trigger] self.config.urls@[k]@),
                forall|k: int|
                    0 <= k < i ==> (#[trigger] units@[k]).0@ == self.config.urls@[k]@
                        && units@[k].1@ == spec_derive_out_path(
                        outside::url_path_of(self.config.urls@[k]@),
                        opt_str_view(self.config.url_strip_prefix),
                        self.config.out_path@,
                    ),
            decreases self.config.urls@.len() - i,
        {
            let url = &self.config.urls[i];
            let path = match outside::url_path(url.as_str()) {
                Some(p) => p,
                None => {
                    assert(!outside::url_parse_ok(self.config.urls@[i as int]@));
                    return Err(NetError::UrlParse(url.clone()));
                },
            };
            let out = get_url_out_path(
                path.as_str(),
                self.config.out_path.as_str(),
                &self.config.url_strip_prefix,
            );
            units.push((url.clone(), out));
            i += 1;
        }
        Ok(units)
    }

    /// Announces the pass: the driver is about to resolve `unit_count`
    /// units.
    pub fn start(&mut self, unit_count: usize) -> (st: DownloadState)
        requires
            !old(self).started,
            old(self).inv(),
        ensures
            final(self).started && !final(self).finished,
            final(self).total == unit_count,
            final(self).resolved == 0 && final(self).failed == 0,
            final(self).config == old(self).config,
            final(self).inv(),
            st == DownloadState::DownloadStart(unit_count),
    {
        self.started = true;
        self.total = unit_count;
        DownloadState::DownloadStart(unit_count)
    }

    /// Records one unit's outcome: a success carrying its byte size, or a
    /// unit that exhausted its retries. One bad unit never aborts the pass.
    pub fn record_outcome(&mut self, ok: bool, bytes: u64) -> (st: DownloadState)
        requires
            old(self).started,
            !old(self).finished,
            old(self).resolved < old(self).total,
            old(self).inv(),
        ensures
            final(self).resolved == old(self).resolved + 1,
            final(self).failed == old(self).failed + (if ok { 0int } else { 1int }),
            final(self).started && !final(self).finished,
            final(self).total == old(self).total,
            final(self).config == old(self).config,
            final(self).inv(),
            st == (if ok { DownloadState::FileDownload(bytes) } else { DownloadState::DownloadError }),
    {
        self.resolved = self.resolved + 1;
        if ok {
            DownloadState::FileDownload(bytes)
        } else {
            self.failed = self.failed + 1;
            DownloadState::DownloadError
        }
    }

    /// The terminal event: only possible once every unit has resolved, so
    /// `Finish` is guaranteed to be the last state observed.
    pub fn finish(&mut self) -> (st: DownloadState)
        requires
            old(self).started,
            !old(self).finished,
            old(self).resolved == old(self).total,
            old(self).inv(),
        ensures
            final(self).finished,
            *final(self) == (Downloader { finished: true, ..*old(self) }),
            st == DownloadState::Finish,
    {
        self.finished = true;
        DownloadState::Finish
    }
}

/// The locations whose units succeeded, in input order.
pub open spec fn spec_succeeded(urls: Seq<Seq<char>>, ok: Seq<bool>) -> Seq<Seq<char>>
    decreases urls.len(),
{
    if urls.len() == 0 || ok.len() == 0 {
        Seq::empty()
    } else {
        spec_succeeded(urls.drop_last(), ok.drop_last()) + if ok.last() {
            seq![urls.last()]
        } else {
            Seq::empty()
        }
    }
}

/// How many units failed.
pub open spec fn spec_failed_count(ok: Seq<bool>) -> int
    decreases ok.len(),
{
    if ok.len() == 0 {
        0
    } else {
        spec_failed_count(ok.drop_last()) + if ok.last() {
            0int
        } else {
            1int
        }
    }
}

/// Splits per-unit outcomes into the successfully downloaded locations and
/// the failure count.
pub fn split_outcomes(urls: &Vec<String>, ok: &Vec<bool>) -> (r: (Vec<String>, usize))
    requires
        urls@.len() == ok@.len(),
    ensures
        r.0@.map_values(|s: String| s@) == spec_succeeded(
            urls@.map_values(|s: String| s@),
            ok@,
        ),
        r.1 == spec_failed_count(ok@),
{
    let ghost uv = urls@.map_values(|s: String| s@);
    let mut succeeded: Vec<String> = Vec::new();
    let mut failures: usize = 0;
    let mut i: usize = 0;
    proof {
        assert(uv.take(0) =~= Seq::<Seq<char>>::empty());
        assert(ok@.take(0) =~= Seq::<bool>::empty());
        assert(succeeded@.map_values(|s: String| s@) =~= Seq::<Seq<char>>::empty());
    }
    while i < urls.len()
        invariant
            0 <= i <= urls@.len(),
            urls@.len() == ok@.len(),
            uv == urls@.map_values(|s: String| s@),
            failures <= i,
            succeeded@.map_values(|s: String| s@) == spec_succeeded(
                uv.take(i as int),
                ok@.take(i as int),
            ),
            failures == spec_failed_count(ok@.take(i as int)),
        decreases urls@.len() - i,
    {
        proof {
            assert(uv.take(i + 1).drop_last() =~= uv.take(i as int));
            assert(ok@.take(i + 1).drop_last() =~= ok@.take(i as int));
            assert(uv.take(i + 1).last() == uv[i as int]);
            assert(ok@.take(i + 1).last() == ok@[i as int]);
        }
        if ok[i] {
            let ghost old_succ = succeeded@;
            succeeded.push(urls[i].clone());
            proof {
                assert(succeeded@.map_values(|s: String| s@) =~= old_succ.map_values(
                    |s: String| s@,
                ) + seq![uv[i as int]]);
            }
        } else {
            failures += 1;
            proof {
                assert(succeeded@.map_values(|s: String| s@) + Seq::<Seq<char>>::empty()
                    =~= succeeded@.map_values(|s: String| s@));
            }
        }
        i += 1;
    }
    proof {
        assert(uv.take(urls@.len() as int) =~= uv);
        assert(ok@.take(ok@.len() as int) =~= ok@);
    }
    (succeeded, failures)
}

/// Successes and failures account for every unit.
pub proof fn lemma_outcome_counts(urls: Seq<Seq<char>>, ok: Seq<bool>)
    requires
        urls.len() == ok.len(),
    ensures
        spec_succeeded(urls, ok).len() + spec_failed_count(ok) == urls.len(),
        0 <= spec_failed_count(ok) <= ok.len(),
    decreases urls.len(),
{
    if urls.len() > 0 {
        lemma_outcome_counts(urls.drop_last(), ok.drop_last());
    }
}

/// Law: failure isolation. When exactly one unit fails, the pass reports
/// exactly one failure and every other unit's location as succeeded.
pub proof fn lemma_failure_isolation(urls: Seq<Seq<char>>, ok: Seq<bool>, k: int)
    requires
        urls.len() == ok.len(),
        0 <= k < ok.len(),
        !ok[k],
        forall|j: int| 0 <= j < ok.len() && j != k ==> ok[j],
    ensures
        spec_failed_count(ok) == 1,
        spec_succeeded(urls, ok).len() == urls.len() - 1,
        forall|h: Seq<char>|
            spec_succeeded(urls, ok).contains(h) <==> exists|j: int|
                0 <= j < urls.len() && j != k && urls[j] == h,
    decreases urls.len(),
{
    lemma_outcome_counts(urls, ok);
    lemma_failed_count_one(ok, k);
    lemma_succeeded_membership(urls, ok);
    assert forall|h: Seq<char>| spec_succeeded(urls, ok).contains(h) implies exists|j: int|
        0 <= j < urls.len() && j != k && urls[j] == h by {
        let j = choose|j: int| 0 <= j < urls.len() && ok[j] && urls[j] == h;
        assert(j != k);
    }
    assert forall|h: Seq<char>|
        (exists|j: int| 0 <= j < urls.len() && j != k && urls[j] == h)
        implies spec_succeeded(urls, ok).contains(h) by {
        let j = choose|j: int| 0 <= j < urls.len() && j != k && urls[j] == h;
        assert(ok[j]);
    }
}

/// With exactly one false flag, the failure count is one.
pub proof fn lemma_failed_count_one(ok: Seq<bool>, k: int)
    requires
        0 <= k < ok.len(),
        !ok[k],
        forall|j: int| 0 <= j < ok.len() && j != k ==> ok[j],
    ensures
        spec_failed_count(ok) == 1,
    decreases ok.len(),
{
    if k == ok.len() - 1 {
        lemma_failed_count_all_true(ok.drop_last());
    } else {
        lemma_failed_count_one(ok.drop_last(), k);
    }
}

pub proof fn lemma_failed_count_all_true(ok: Seq<bool>)
    requires
        forall|j: int| 0 <= j < ok.len() ==> ok[j],
    ensures
        spec_failed_count(ok) == 0,
    decreases ok.len(),
{
    if ok.len() > 0 {
        lemma_failed_count_all_true(ok.drop_last());
    }
}

/// A location is reported as succeeded exactly when one of its units was
/// flagged as a success.
pub proof fn lemma_succeeded_membership(urls: Seq<Seq<char>>, ok: Seq<bool>)
    requires
        urls.len() == ok.len(),
    ensures
        forall|h: Seq<char>|
            spec_succeeded(urls, ok).contains(h) <==> exists|j: int|
                0 <= j < urls.len() && ok[j] && urls[j] == h,
    decreases urls.len(),
{
    if urls.len() > 0 {
        lemma_succeeded_membership(urls.drop_last(), ok.drop_last());
        let s = spec_succeeded(urls, ok);
        let prev = spec_succeeded(urls.drop_last(), ok.drop_last());
        assert forall|h: Seq<char>| s.contains(h) implies exists|j: int|
            0 <= j < urls.len() && ok[j] && urls[j] == h by {
            if prev.contains(h) {
                let j = choose|j: int|
                    0 <= j < urls.drop_last().len() && ok.drop_last()[j] && urls.drop_last()[j]
                        == h;
                assert(0 <= j < urls.len() && ok[j] && urls[j] == h);
            } else {
                assert(ok.last() && urls.last() == h);
                assert(urls[urls.len() - 1] == h && ok[urls.len() - 1]);
            }
        }
        assert forall|h: Seq<char>|
            (exists|j: int| 0 <= j < urls.len() && ok[j] && urls[j] == h) implies s.contains(
            h,
        ) by {
            let j = choose|j: int| 0 <= j < urls.len() && ok[j] && urls[j] == h;
            if j < urls.len() - 1 {
                assert(ok.drop_last()[j] && urls.drop_last()[j] == h);
                assert(prev.contains(h));
                let idx = choose|idx: int| 0 <= idx < prev.len() && prev[idx] == h;
                assert(s[idx] == h);
            } else {
                assert(s.last() == h);
            }
        }
    }
}

} // verus!
