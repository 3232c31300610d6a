//! The orchestrator's decision core: cache-driven resolution, the
//! deduplicated download worklist, and the hash-set reconciliation after a
//! pass. The driver performs the HTTP calls, the transfers, and the cache
//! file I/O, feeding every result back through these functions.

use vstd::prelude::*;
use crate::cache::FetchCache;
use crate::cache::string_set;
use crate::client::WafuriAPIClient;
use crate::download::DownloadState;
use crate::enums::DeviceType;
use crate::errors::NetError;
use crate::models::AssetPathArchive;
use crate::models::AssetPaths;
use crate::models::AssetVersionInfo;
use crate::models::ArchiveV;
use crate::models::AssetPathsV;
use crate::models::DiffV;
use crate::models::avs;
use crate::strutil::str_eq;

verus! {

/// The state of a resolve-asset-info task.
#[derive(Debug, Clone, Copy, PartialEq, Eq, Structural)]
pub enum FetchAssetInfoState {
    /// The most recent content version is being queried.
    GetAssetVersion,
    /// The manifest and version info are being acquired.
    GetAssetInfo,
    /// The asset info has been retrieved.
    Finish,
}

/// The state of a full asset download.
#[derive(Debug, Clone, Copy, PartialEq, Eq, Structural)]
pub enum DownloadAssetsState {
    /// Asset info is being retrieved.
    FetchAssetInfo,
    /// The given number of bytes will be downloaded.
    DownloadStart(u64),
    /// A downloader state update.
    Download(DownloadState),
    /// The asset download has completed.
    Finish,
}

/// The state of a file-list download.
#[derive(Debug, Clone, Copy, PartialEq, Eq, Structural)]
pub enum DownloadFilesListState {
    /// Asset info is being retrieved.
    FetchAssetInfo,
    /// The given number of file lists will be downloaded.
    DownloadStart(u64),
    /// A downloader state update.
    Download(DownloadState),
    /// The file-list download has completed.
    Finish,
}

/// The observable state of the whole fetch engine.
#[derive(Debug, Clone, Copy, PartialEq, Eq, Structural)]
pub enum FetchState {
    Idle,
    AssetInfo(FetchAssetInfoState),
    DownloadAssets(DownloadAssetsState),
    DownloadFilesList(DownloadFilesListState),
}

/// A single-slot, latest-value-wins state channel: publishing never blocks,
/// an observer that misses updates still sees the latest state.
#[derive(Debug)]
pub struct StateSlot<T> {
    pub latest: T,
}

impl<T> StateSlot<T> {
    pub fn new(initial: T) -> (r: Self)
        ensures
            r.latest == initial,
    {
        StateSlot { latest: initial }
    }

    /// Replaces the slot's value; older values are never observed again.
    pub fn publish(&mut self, value: T)
        ensures
            final(self).latest == value,
    {
        self.latest = value;
    }

    pub fn latest(&self) -> (r: &T)
        ensures
            r == self.latest,
    {
        &self.latest
    }
}

/// Configuration of the fetch engine.
#[derive(Debug)]
pub struct FetchConfig {
    pub cache_path: String,
    pub device_type: Option<DeviceType>,
    pub api_host: Option<String>,
}

impl FetchConfig {
    /// A missing cache path means the conventional file name.
    pub fn new(cache_path: Option<&str>, device_type: Option<DeviceType>, api_host: Option<
        String,
    >) -> (r: Self)
        ensures
            cache_path matches Some(p) ==> r.cache_path@ == p@,
            cache_path is None ==> r.cache_path@ == "starview.cache"@,
            r.device_type == device_type,
            r.api_host == api_host,
    {
        let cache_path = match cache_path {
            Some(p) => p.to_owned(),
            None => "starview.cache".to_owned(),
        };
        FetchConfig { cache_path, device_type, api_host }
    }
}

/// One unit of work for the downloader: a remote location, the content hash
/// that names its bytes, and its declared size.
#[derive(Debug, Clone)]
pub struct DownloadUnit {
    pub location: String,
    pub hash: String,
    pub size: u64,
}

pub ghost struct DownloadUnitV {
    pub location: Seq<char>,
    pub hash: Seq<char>,
    pub size: u64,
}

impl View for DownloadUnit {
    type V = DownloadUnitV;

    open spec fn view(&self) -> DownloadUnitV {
        DownloadUnitV { location: self.location@, hash: self.hash@, size: self.size }
    }
}

/// The archives a manifest schedules: the full set's, then each diff set's,
/// in order.
pub open spec fn manifest_archives(p: AssetPathsV) -> Seq<ArchiveV> {
    p.full.archive + diffs_archives(p.diff)
}

pub open spec fn diffs_archives(ds: Seq<DiffV>) -> Seq<ArchiveV>
    decreases ds.len(),
{
    if ds.len() == 0 {
        Seq::empty()
    } else {
        diffs_archives(ds.drop_last()) + ds.last().archive
    }
}

/// The archives whose hashes are not yet downloaded, in schedule order.
pub open spec fn filter_new(s: Seq<ArchiveV>, have: Set<Seq<char>>) -> Seq<ArchiveV>
    decreases s.len(),
{
    if s.len() == 0 {
        s
    } else {
        filter_new(s.drop_last(), have) + if have.contains(s.last().sha256) {
            Seq::empty()
        } else {
            seq![s.last()]
        }
    }
}

/// The hashes of scheduled archives that are already downloaded.
pub open spec fn filter_have(s: Seq<ArchiveV>, have: Set<Seq<char>>) -> Seq<Seq<char>>
    decreases s.len(),
{
    if s.len() == 0 {
        Seq::empty()
    } else {
        filter_have(s.drop_last(), have) + if have.contains(s.last().sha256) {
            seq![s.last().sha256]
        } else {
            Seq::empty()
        }
    }
}

/// Saturating sum of the sizes of a worklist.
pub open spec fn sat_size_sum(s: Seq<ArchiveV>) -> u64
    decreases s.len(),
{
    if s.len() == 0 {
        0u64
    } else {
        let rest = sat_size_sum(s.drop_last());
        if rest as int + s.last().size as int > u64::MAX {
            u64::MAX
        } else {
            (rest + s.last().size) as u64
        }
    }
}

/// Law: deduplication. No archive whose content hash is already recorded as
/// downloaded ever enters the worklist.
pub proof fn lemma_dedup_invariant(s: Seq<ArchiveV>, have: Set<Seq<char>>)
    ensures
        forall|i: int|
            0 <= i < filter_new(s, have).len() ==> !have.contains(
                #[trigger] filter_new(s, have)[i].sha256,
            ),
    decreases s.len(),
{
    if s.len() > 0 {
        lemma_dedup_invariant(s.drop_last(), have);
        let r = filter_new(s, have);
        let prev = filter_new(s.drop_last(), have);
        assert forall|i: int| 0 <= i < r.len() implies !have.contains(
            #[trigger] r[i].sha256,
        ) by {
            if i < prev.len() {
                assert(r[i] == prev[i]);
            }
        }
    }
}

/// The plan of one download pass, before the transfers start.
#[derive(Debug)]
pub struct DownloadPlan {
    /// What must be fetched: archives not yet on disk.
    pub units: Vec<DownloadUnit>,
    /// Hashes already on disk, carried into the next cache state.
    pub carried: Vec<String>,
    /// Total bytes the pass announces (saturating).
    pub total_bytes: u64,
}

impl DownloadPlan {
    pub open spec fn units_view(&self) -> Seq<DownloadUnitV> {
        self.units@.map_values(|u: DownloadUnit| u@)
    }

    pub open spec fn carried_view(&self) -> Seq<Seq<char>> {
        self.carried@.map_values(|s: String| s@)
    }

    /// The plan matches a manifest and a set of already-downloaded hashes.
    pub open spec fn matches(&self, archives: Seq<ArchiveV>, have: Set<Seq<char>>) -> bool {
        &&& self.units_view().len() == filter_new(archives, have).len()
        &&& forall|i: int|
            0 <= i < self.units_view().len() ==> {
                &&& (#[trigger] self.units_view()[i]).location == filter_new(
                    archives,
                    have,
                )[i].location
                &&& self.units_view()[i].hash == filter_new(archives, have)[i].sha256
                &&& self.units_view()[i].size == filter_new(archives, have)[i].size
            }
        &&& self.carried_view() == filter_have(archives, have)
        &&& self.total_bytes == sat_size_sum(filter_new(archives, have))
    }
}

/// Archive flattening distributes over concatenation of diff lists.
pub proof fn lemma_diffs_archives_concat(a: Seq<DiffV>, b: Seq<DiffV>)
    ensures
        diffs_archives(a + b) =~= diffs_archives(a) + diffs_archives(b),
    decreases b.len(),
{
    if b.len() == 0 {
        assert(a + b =~= a);
    } else {
        lemma_diffs_archives_concat(a, b.drop_last());
        assert((a + b).drop_last() =~= a + b.drop_last());
        assert((a + b).last() == b.last());
    }
}

/// Processing one more archive extends the plan's specification by that
/// archive.
pub proof fn lemma_filter_step(s: Seq<ArchiveV>, k: int, have: Set<Seq<char>>)
    requires
        0 <= k < s.len(),
    ensures
        filter_new(s.take(k + 1), have) == filter_new(s.take(k), have) + (if have.contains(
            s[k].sha256,
        ) {
            Seq::<ArchiveV>::empty()
        } else {
            seq![s[k]]
        }),
        filter_have(s.take(k + 1), have) == filter_have(s.take(k), have) + (if have.contains(
            s[k].sha256,
        ) {
            seq![s[k].sha256]
        } else {
            Seq::<Seq<char>>::empty()
        }),
        sat_size_sum(filter_new(s.take(k + 1), have)) == (if have.contains(s[k].sha256) {
            sat_size_sum(filter_new(s.take(k), have))
        } else {
            if sat_size_sum(filter_new(s.take(k), have)) as int + s[k].size as int > u64::MAX {
                u64::MAX
            } else {
                (sat_size_sum(filter_new(s.take(k), have)) + s[k].size) as u64
            }
        }),
{
    assert(s.take(k + 1).drop_last() =~= s.take(k));
    assert(s.take(k + 1).last() == s[k]);
    if !have.contains(s[k].sha256) {
        let fnew = filter_new(s.take(k), have) + seq![s[k]];
        assert(fnew.drop_last() =~= filter_new(s.take(k), have));
        assert(fnew.last() == s[k]);
    }
}

/// Builds the worklist of one pass: every scheduled archive whose content
/// hash the cache does not record, in schedule order; hashes the cache does
/// record are carried directly into the next cache state, and their bytes
/// are excluded from the announced total.
pub fn plan_asset_downloads(cache: &FetchCache, paths: &AssetPaths) -> (plan: DownloadPlan)
    ensures
        plan.matches(manifest_archives(paths@), cache.hash_set()),
{
    let ghost all = manifest_archives(paths@);
    let ghost have = cache.hash_set();
    let mut plan = DownloadPlan { units: Vec::new(), carried: Vec::new(), total_bytes: 0 };
    proof {
        assert(all.take(0) =~= Seq::<ArchiveV>::empty());
        assert(plan.units_view() =~= Seq::<DownloadUnitV>::empty());
        assert(plan.carried_view() =~= Seq::<Seq<char>>::empty());
    }
    let mut i: usize = 0;
    while i < paths.full.archive.len()
        invariant
            0 <= i <= paths.full.archive@.len(),
            all == manifest_archives(paths@),
            have == cache.hash_set(),
            plan_matches_prefix(plan, all, have, i as int),
        decreases paths.full.archive@.len() - i,
    {
        proof {
            assert(all[i as int] == avs(paths.full.archive@)[i as int]);
            lemma_filter_step(all, i as int, have);
        }
        plan_one(&mut plan, &paths.full.archive[i], cache, Ghost(all), Ghost(i as int));
        i += 1;
    }
    let ghost full_len = paths.full.archive@.len() as int;
    let mut d: usize = 0;
    while d < paths.diff.len()
        invariant
            0 <= d <= paths.diff@.len(),
            all == manifest_archives(paths@),
            have == cache.hash_set(),
            plan_matches_prefix(
                plan,
                all,
                have,
                full_len + diffs_archives(crate::models::dvs(paths.diff@).take(d as int)).len(),
            ),
            full_len == paths.full.archive@.len(),
            full_len + diffs_archives(crate::models::dvs(paths.diff@).take(d as int)).len()
                <= all.len(),
        decreases paths.diff@.len() - d,
    {
        let ghost ds = crate::models::dvs(paths.diff@);
        let ghost base = full_len + diffs_archives(ds.take(d as int)).len();
        let diff = &paths.diff[d];
        proof {
            assert(ds.take(d as int + 1) =~= ds.take(d as int).push(ds[d as int]));
            lemma_diffs_archives_concat(ds.take(d as int), seq![ds[d as int]]);
            assert(ds.take(d as int).push(ds[d as int]) =~= ds.take(d as int) + seq![
                ds[d as int],
            ]);
            assert(diffs_archives(seq![ds[d as int]]) =~= ds[d as int].archive) by {
                reveal_with_fuel(diffs_archives, 3);
                assert(seq![ds[d as int]].drop_last() =~= Seq::<DiffV>::empty());
                assert(seq![ds[d as int]].last() == ds[d as int]);
            }
            assert(ds =~= ds.take(d as int + 1) + ds.skip(d as int + 1));
            lemma_diffs_archives_concat(ds.take(d as int + 1), ds.skip(d as int + 1));
            assert(avs(diff.archive@) == ds[d as int].archive);
            assert(all =~= paths@.full.archive + (diffs_archives(ds.take(d as int))
                + ds[d as int].archive + diffs_archives(ds.skip(d as int + 1))));
            assert(all.len() == full_len + diffs_archives(ds.take(d as int)).len()
                + ds[d as int].archive.len() + diffs_archives(ds.skip(d as int + 1)).len());
            assert forall|t: int| 0 <= t < avs(diff.archive@).len() implies all[base + t] == avs(
                diff.archive@,
            )[t] by {
                assert(all[base + t] == ds[d as int].archive[t]);
            }
        }
        let mut j: usize = 0;
        while j < diff.archive.len()
            invariant
                0 <= j <= diff.archive@.len(),
                all == manifest_archives(paths@),
                have == cache.hash_set(),
                0 <= d < paths.diff@.len(),
                base == full_len + diffs_archives(
                    crate::models::dvs(paths.diff@).take(d as int),
                ).len(),
                full_len == paths.full.archive@.len(),
                avs(diff.archive@) == crate::models::dvs(paths.diff@)[d as int].archive,
                base + avs(diff.archive@).len() <= all.len(),
                forall|t: int|
                    0 <= t < avs(diff.archive@).len() ==> all[base + t] == avs(diff.archive@)[t],
                plan_matches_prefix(plan, all, have, base + j),
            decreases diff.archive@.len() - j,
        {
            proof {
                assert(all[base + j] == avs(diff.archive@)[j as int]);
                lemma_filter_step(all, base + j, have);
            }
            plan_one(&mut plan, &diff.archive[j], cache, Ghost(all), Ghost(base + j));
            j += 1;
        }
        proof {
            assert(diffs_archives(crate::models::dvs(paths.diff@).take(d as int + 1)).len()
                == diffs_archives(crate::models::dvs(paths.diff@).take(d as int)).len()
                + avs(diff.archive@).len());
        }
        d += 1;
    }
    proof {
        assert(crate::models::dvs(paths.diff@).take(paths.diff@.len() as int) =~= crate::models::dvs(
            paths.diff@,
        ));
        assert(all.take(all.len() as int) =~= all);
    }
    plan
}

/// The plan built so far matches the first `k` scheduled archives.
pub open spec fn plan_matches_prefix(
    plan: DownloadPlan,
    all: Seq<ArchiveV>,
    have: Set<Seq<char>>,
    k: int,
) -> bool {
    &&& 0 <= k <= all.len()
    &&& plan.units_view().len() == filter_new(all.take(k), have).len()
    &&& forall|i: int|
        0 <= i < plan.units_view().len() ==> {
            &&& (#[trigger] plan.units_view()[i]).location == filter_new(
                all.take(k),
                have,
            )[i].location
            &&& plan.units_view()[i].hash == filter_new(all.take(k), have)[i].sha256
            &&& plan.units_view()[i].size == filter_new(all.take(k), have)[i].size
        }
    &&& plan.carried_view() == filter_have(all.take(k), have)
    &&& plan.total_bytes == sat_size_sum(filter_new(all.take(k), have))
}

/// Appends one archive to the plan, skipping it when its hash is already
/// recorded as downloaded.
fn plan_one(
    plan: &mut DownloadPlan,
    a: &AssetPathArchive,
    cache: &FetchCache,
    Ghost(all): Ghost<Seq<ArchiveV>>,
    Ghost(k): Ghost<int>,
)
    requires
        0 <= k < all.len(),
        all[k] == a@,
        plan_matches_prefix(*old(plan), all, cache.hash_set(), k),
    ensures
        plan_matches_prefix(*final(plan), all, cache.hash_set(), k + 1),
{
    let ghost have = cache.hash_set();
    proof {
        lemma_filter_step(all, k, have);
    }
    if cache.contains_hash(a.sha256.as_str()) {
        let ghost oldc = plan.carried@;
        plan.carried.push(a.sha256.clone());
        proof {
            assert(plan.carried_view() =~= oldc.map_values(|s: String| s@).push(a@.sha256));
            assert(filter_have(all.take(k + 1), have) =~= filter_have(all.take(k), have).push(
                all[k].sha256,
            ));
            assert(filter_new(all.take(k + 1), have) =~= filter_new(all.take(k), have));
        }
    } else {
        let unit = DownloadUnit {
            location: a.location.clone(),
            hash: a.sha256.clone(),
            size: a.size,
        };
        let ghost oldu = plan.units@;
        plan.units.push(unit);
        if u64::MAX - plan.total_bytes < a.size {
            plan.total_bytes = u64::MAX;
        } else {
            plan.total_bytes = plan.total_bytes + a.size;
        }
        proof {
            assert(plan.units_view() =~= oldu.map_values(|u: DownloadUnit| u@).push(
                DownloadUnitV { location: a@.location, hash: a@.sha256, size: a@.size },
            ));
            assert(filter_new(all.take(k + 1), have) =~= filter_new(all.take(k), have).push(
                all[k],
            ));
            assert(filter_have(all.take(k + 1), have) =~= filter_have(all.take(k), have));
            assert forall|i: int| 0 <= i < plan.units_view().len() implies {
                &&& (#[trigger] plan.units_view()[i]).location == filter_new(
                    all.take(k + 1),
                    have,
                )[i].location
                &&& plan.units_view()[i].hash == filter_new(all.take(k + 1), have)[i].sha256
                &&& plan.units_view()[i].size == filter_new(all.take(k + 1), have)[i].size
            } by {
                if i < oldu.len() {
                    assert(plan.units_view()[i] == old(plan).units_view()[i]);
                    assert(filter_new(all.take(k + 1), have)[i] == filter_new(
                        all.take(k),
                        have,
                    )[i]);
                }
            }
        }
    }
}

/// Stripped from asset locations when deriving their destinations.
pub fn download_url_strip_prefix() -> (r: &'static str)
    ensures
        r@ == "/patch/gf/upload_assets"@,
{
    "/patch/gf/upload_assets"
}

/// Stripped from file-list locations when deriving their destinations.
pub fn download_files_list_url_strip_prefix() -> (r: &'static str)
    ensures
        r@ == "/patch/gf/upload_assets/entities"@,
{
    "/patch/gf/upload_assets/entities"
}

/// The hash set after a pass: hashes carried over because they were already
/// on disk, plus the hashes of units the pass confirmed written. Entries
/// not re-confirmed are dropped, so a failed unit is retried next run.
pub open spec fn reconciled_hashes(
    carried: Seq<Seq<char>>,
    units: Seq<DownloadUnitV>,
    ok: Seq<bool>,
) -> Set<Seq<char>> {
    Set::new(
        |h: Seq<char>|
            carried.contains(h) || exists|i: int|
                0 <= i < units.len() && i < ok.len() && ok[i] && units[i].hash == h,
    )
}

/// Law: a unit that exhausted its retries leaves no trace in the new hash
/// set, provided its hash was not already on disk and no successful unit
/// shares it.
pub proof fn lemma_failed_hash_excluded(
    carried: Seq<Seq<char>>,
    units: Seq<DownloadUnitV>,
    ok: Seq<bool>,
    k: int,
)
    requires
        0 <= k < units.len(),
        units.len() == ok.len(),
        !ok[k],
        !carried.contains(units[k].hash),
        forall|i: int| 0 <= i < units.len() && i != k ==> units[i].hash != units[k].hash,
    ensures
        !reconciled_hashes(carried, units, ok).contains(units[k].hash),
{
    if reconciled_hashes(carried, units, ok).contains(units[k].hash) {
        let i = choose|i: int|
            0 <= i < units.len() && i < ok.len() && ok[i] && units[i].hash == units[k].hash;
        assert(i != k);
    }
}

/// Appends `h` unless an equal string is present.
fn push_hash_if_absent(v: &mut Vec<String>, h: &String)
    requires
        forall|a: int, b: int|
            0 <= a < b < old(v)@.len() ==> old(v)@[a]@ != old(v)@[b]@,
    ensures
        string_set(final(v)@) =~= string_set(old(v)@).insert(h@),
        forall|a: int, b: int| 0 <= a < b < final(v)@.len() ==> final(v)@[a]@ != final(v)@[b]@,
{
    let mut i: usize = 0;
    while i < v.len()
        invariant
            0 <= i <= v@.len(),
            v@ == old(v)@,
            forall|a: int, b: int| 0 <= a < b < v@.len() ==> v@[a]@ != v@[b]@,
            forall|k: int| 0 <= k < i ==> v@[k]@ != h@,
        decreases v@.len() - i,
    {
        if str_eq(v[i].as_str(), h.as_str()) {
            proof {
                assert(string_set(v@).contains(h@));
                assert(string_set(v@) =~= string_set(old(v)@).insert(h@));
            }
            return;
        }
        i += 1;
    }
    let ghost oldv = v@;
    v.push(h.clone());
    proof {
        assert forall|x: Seq<char>| string_set(v@).contains(x) implies string_set(oldv).insert(
            h@,
        ).contains(x) by {
            let j = choose|j: int| 0 <= j < v@.len() && v@[j]@ == x;
            if j < oldv.len() {
                assert(oldv[j]@ == x);
            }
        }
        assert forall|x: Seq<char>| string_set(oldv).insert(h@).contains(x)
            implies string_set(v@).contains(x) by {
            if string_set(oldv).contains(x) {
                let j = choose|j: int| 0 <= j < oldv.len() && oldv[j]@ == x;
                assert(v@[j]@ == x);
            } else {
                assert(v@[v@.len() - 1]@ == x);
            }
        }
        assert forall|a: int, b: int| 0 <= a < b < v@.len() implies v@[a]@ != v@[b]@ by {
            if b < oldv.len() {
                assert(oldv[a]@ != oldv[b]@);
            } else {
                assert(v@[a]@ == oldv[a]@ && v@[b]@ == h@);
            }
        }
    }
}

/// Rebuilds the downloaded-hash list from a finished pass: carried hashes
/// plus the hashes of confirmed units, without duplicates.
pub fn reconcile_downloaded_hashes(plan: &DownloadPlan, ok: &Vec<bool>) -> (r: Vec<String>)
    requires
        plan.units@.len() == ok@.len(),
    ensures
        string_set(r@) =~= reconciled_hashes(plan.carried_view(), plan.units_view(), ok@),
        forall|a: int, b: int| 0 <= a < b < r@.len() ==> r@[a]@ != r@[b]@,
{
    let mut out: Vec<String> = Vec::new();
    let ghost target = reconciled_hashes(plan.carried_view(), plan.units_view(), ok@);
    let mut i: usize = 0;
    proof {
        assert(string_set(out@) =~= Set::<Seq<char>>::empty());
    }
    while i < plan.carried.len()
        invariant
            0 <= i <= plan.carried@.len(),
            plan.units@.len() == ok@.len(),
            string_set(out@) =~= Set::new(
                |h: Seq<char>|
                    exists|j: int| 0 <= j < i && #[trigger] plan.carried_view()[j] == h,
            ),
            forall|a: int, b: int| 0 <= a < b < out@.len() ==> out@[a]@ != out@[b]@,
        decreases plan.carried@.len() - i,
    {
        let ghost prev = string_set(out@);
        push_hash_if_absent(&mut out, &plan.carried[i]);
        proof {
            let next = Set::new(
                |h: Seq<char>|
                    exists|j: int| 0 <= j < i + 1 && #[trigger] plan.carried_view()[j] == h,
            );
            assert forall|h: Seq<char>| next.contains(h) implies string_set(out@).contains(
                h,
            ) by {
                let j = choose|j: int| 0 <= j < i + 1 && plan.carried_view()[j] == h;
                if j < i {
                    assert(prev.contains(h));
                } else {
                    assert(h == plan.carried@[i as int]@);
                }
            }
            assert forall|h: Seq<char>| string_set(out@).contains(h) implies next.contains(
                h,
            ) by {
                if prev.contains(h) {
                    let j = choose|j: int| 0 <= j < i && plan.carried_view()[j] == h;
                    assert(plan.carried_view()[j] == h);
                } else {
                    assert(h == plan.carried@[i as int]@);
                    assert(plan.carried_view()[i as int] == h);
                }
            }
            assert(string_set(out@) =~= next);
        }
        i += 1;
    }
    let mut k: usize = 0;
    while k < plan.units.len()
        invariant
            0 <= k <= plan.units@.len(),
            plan.units@.len() == ok@.len(),
            string_set(out@) =~= Set::new(
                |h: Seq<char>|
                    plan.carried_view().contains(h) || exists|j: int|
                        0 <= j < k && ok@[j] && #[trigger] plan.units_view()[j].hash == h,
            ),
            forall|a: int, b: int| 0 <= a < b < out@.len() ==> out@[a]@ != out@[b]@,
        decreases plan.units@.len() - k,
    {
        let ghost prev = string_set(out@);
        let taken = ok[k];
        if taken {
            push_hash_if_absent(&mut out, &plan.units[k].hash);
        }
        proof {
            let next = Set::new(
                |h: Seq<char>|
                    plan.carried_view().contains(h) || exists|j: int|
                        0 <= j < k + 1 && ok@[j] && #[trigger] plan.units_view()[j].hash == h,
            );
            assert forall|h: Seq<char>| next.contains(h) implies string_set(out@).contains(
                h,
            ) by {
                if plan.carried_view().contains(h) {
                    assert(prev.contains(h));
                } else {
                    let j = choose|j: int|
                        0 <= j < k + 1 && ok@[j] && plan.units_view()[j].hash == h;
                    if j < k {
                        assert(prev.contains(h));
                    } else {
                        assert(taken && h == plan.units@[k as int].hash@);
                    }
                }
            }
            assert forall|h: Seq<char>| string_set(out@).contains(h) implies next.contains(
                h,
            ) by {
                if prev.contains(h) {
                    if !plan.carried_view().contains(h) {
                        let j = choose|j: int|
                            0 <= j < k && ok@[j] && plan.units_view()[j].hash == h;
                        assert(ok@[j] && plan.units_view()[j].hash == h);
                    }
                } else {
                    assert(taken && h == plan.units@[k as int].hash@);
                    assert(ok@[k as int] && plan.units_view()[k as int].hash == h);
                }
            }
            assert(string_set(out@) =~= next);
        }
        k += 1;
    }
    proof {
        assert(string_set(out@) =~= target);
    }
    out
}

/// The first two file-list locations of the resolved version infos: one
/// per concrete platform, taken verbatim, no merge.
pub fn files_list_locations(infos: &Vec<AssetVersionInfo>) -> (r: Vec<String>)
    ensures
        r@.len() == (if infos@.len() < 2 {
            infos@.len() as int
        } else {
            2int
        }),
        forall|i: int| 0 <= i < r@.len() ==> #[trigger] r@[i]@ == infos@[i]@.files_list,
{
    let mut out: Vec<String> = Vec::new();
    let take_n = if infos.len() < 2 {
        infos.len()
    } else {
        2
    };
    let mut i: usize = 0;
    while i < take_n
        invariant
            0 <= i <= take_n,
            take_n <= infos@.len(),
            out@.len() == i,
            forall|j: int| 0 <= j < i ==> #[trigger] out@[j]@ == infos@[j]@.files_list,
        decreases take_n - i,
    {
        out.push(infos[i].files_list.clone());
        i += 1;
    }
    out
}

/// Bridges a downloader state update into the fetch engine's state stream.
pub fn bridge_download_state(ds: DownloadState) -> (r: FetchState)
    ensures
        r == FetchState::DownloadAssets(DownloadAssetsState::Download(ds)),
{
    FetchState::DownloadAssets(DownloadAssetsState::Download(ds))
}

/// The fetch engine: protocol client, persistent cache, and the state slot
/// observers read.
#[derive(Debug)]
pub struct Fetcher {
    pub client: WafuriAPIClient,
    pub cache_path: String,
    pub cache: FetchCache,
    pub state: StateSlot<FetchState>,
}

impl Fetcher {
    /// Assembles the engine from its configuration and whatever cache
    /// record the driver could load. A loaded cache lends its session
    /// identity to the client; no cache means a fresh identity, an empty
    /// manifest, and an empty hash set.
    pub fn assemble(config: FetchConfig, loaded_cache: Option<FetchCache>) -> (r: Result<
        Fetcher,
        NetError,
    >)
        ensures
            (r is Err) == !crate::outside::url_parse_ok(
                match config.api_host {
                    Some(h) => h@,
                    None => "https://shijtswygamegf.leiting.com/api/index.php/"@,
                },
            ),
            r matches Ok(f) ==> {
                &&& f.state.latest == FetchState::Idle
                &&& f.cache_path == config.cache_path
                &&& (loaded_cache matches Some(c) ==> f.cache == c && f.client.uuid == c.udid)
                &&& (loaded_cache is None ==> f.cache.asset_paths is None
                    && f.cache.version_info@.len() == 0 && f.cache.hash_set()
                    =~= Set::<Seq<char>>::empty() && f.cache.wf() && f.cache.udid == f.client.uuid
                    && f.cache.device_type == f.client.device_type)
                &&& (config.device_type matches Some(d) ==> f.client.device_type == d)
                &&& f.client.login_token is None
                &&& f.client.viewer_id is None
                &&& f.client.headers.wf()
            },
    {
        let builder = match &loaded_cache {
            Some(c) => WafuriAPIClient::builder().uuid(c.udid.clone()),
            None => WafuriAPIClient::builder(),
        };
        let builder = match config.api_host {
            Some(h) => builder.api_host(h),
            None => builder,
        };
        let builder = match config.device_type {
            Some(d) => builder.device_type(d),
            None => builder,
        };
        let client = match builder.build() {
            Ok(c) => c,
            Err(e) => {
                return Err(e);
            },
        };
        let cache = match loaded_cache {
            Some(c) => c,
            None => FetchCache::new(client.uuid.clone(), client.device_type),
        };
        Ok(
            Fetcher {
                client,
                cache_path: config.cache_path,
                cache,
                state: StateSlot::new(FetchState::Idle),
            },
        )
    }

    /// Decides whether resolution may short-circuit from the cache: only
    /// when the cached manifest's client version equals the requested one
    /// and the cached device variant equals the configured one.
    pub fn asset_info_plan(&self, asset_version: &str) -> (use_cache: bool)
        ensures
            use_cache == self.cache.valid_for(asset_version@, self.client.device_type),
    {
        self.cache.is_valid_for(asset_version, self.client.device_type)
    }

    /// Applies a fresh resolution: stamps the manifest as fully synced (its
    /// client version becomes its target version) and replaces the cached
    /// manifest, version info, and device variant.
    pub fn apply_asset_info(&mut self, paths: AssetPaths, infos: Vec<AssetVersionInfo>)
        ensures
            final(self).cache.asset_paths matches Some(p) && p@ == (crate::models::AssetPathsV {
                info: crate::models::PathsInfoV {
                    client_asset_version: paths@.info.target_asset_version,
                    ..paths@.info
                },
                ..paths@
            }),
            final(self).cache.version_info == infos,
            final(self).cache.device_type == old(self).client.device_type,
            final(self).cache.udid == old(self).cache.udid,
            final(self).cache.downloaded_asset_hashes == old(self).cache.downloaded_asset_hashes,
            final(self).client == old(self).client,
            final(self).cache_path == old(self).cache_path,
            final(self).cache.valid_for(
                paths@.info.target_asset_version,
                old(self).client.device_type,
            ),
    {
        let mut stamped = paths;
        stamped.info.client_asset_version = stamped.info.target_asset_version.clone();
        self.cache.asset_paths = Some(stamped);
        self.cache.version_info = infos;
        self.cache.device_type = self.client.device_type;
    }

    /// Replaces — never merges — the downloaded-hash set from a finished
    /// pass, so the cache never claims an asset without corroboration from
    /// the most recent pass.
    pub fn finish_asset_downloads(&mut self, plan: &DownloadPlan, ok: &Vec<bool>)
        requires
            plan.units@.len() == ok@.len(),
        ensures
            final(self).cache.hash_set() =~= reconciled_hashes(
                plan.carried_view(),
                plan.units_view(),
                ok@,
            ),
            final(self).cache.wf(),
            final(self).cache.udid == old(self).cache.udid,
            final(self).cache.device_type == old(self).cache.device_type,
            final(self).cache.asset_paths == old(self).cache.asset_paths,
            final(self).cache.version_info == old(self).cache.version_info,
            final(self).client == old(self).client,
            final(self).cache_path == old(self).cache_path,
    {
        let hashes = reconcile_downloaded_hashes(plan, ok);
        self.cache.downloaded_asset_hashes = hashes;
    }
}

} // verus!
