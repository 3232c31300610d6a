//! Typed request and response payloads of the protocol, the asset manifest,
//! and the manifest merge algorithm used when resolving for every platform.

use vstd::prelude::*;

verus! {

/// Session metadata the server wraps around every response payload.
#[derive(Debug, Clone)]
pub struct DataHeaders {
    pub short_udid: u32,
    pub viewer_id: u32,
    pub servertime: u32,
    pub result_code: u8,
    pub udid: Option<String>,
}

/// A decoded response: server session metadata plus the typed payload.
#[derive(Debug, Clone)]
pub struct ApiResponse<T> {
    pub data_headers: DataHeaders,
    pub data: T,
}

/// IEEE-754 bits of the fixed device id the stock client reports.
pub const DEVICE_ID_BITS: u32 = 0x503A_1A3A;

/// The fixed storage path the stock client reports.
pub const STORAGE_DIRECTORY_PATH: &'static str =
    "/data/user/0/com.leiting.wf/com.leiting.wf/Local Store/custom_Release_Android";

/// The fixed-shape payload of a register-session call.
#[derive(Debug, Clone)]
pub struct SignupRequest {
    pub oaid: String,
    pub mac: String,
    pub media: String,
    pub os_er: String,
    pub android_id: String,
    pub storage_directory_path: String,
    pub channel_no: String,
    pub device_id_bits: u32,
    pub termin_info: String,
}

impl Default for SignupRequest {
    /// The stock signup payload: empty identifiers, fixed paths and device id.
    fn default() -> (r: Self)
        ensures
            r.oaid@ == ""@,
            r.mac@ == ""@,
            r.media@ == "none"@,
            r.os_er@ == ""@,
            r.android_id@ == ""@,
            r.storage_directory_path@ == STORAGE_DIRECTORY_PATH@,
            r.channel_no@ == ""@,
            r.device_id_bits == DEVICE_ID_BITS,
            r.termin_info@ == ""@,
    {
        SignupRequest {
            oaid: "".to_owned(),
            mac: "".to_owned(),
            media: "none".to_owned(),
            os_er: "".to_owned(),
            android_id: "".to_owned(),
            storage_directory_path: STORAGE_DIRECTORY_PATH.to_owned(),
            channel_no: "".to_owned(),
            device_id_bits: DEVICE_ID_BITS,
            termin_info: "".to_owned(),
        }
    }
}

/// What the server returns for a successful register-session call.
#[derive(Debug, Clone)]
pub struct SignupResponse {
    pub login_token: String,
    pub new_account: u8,
    pub sign: Option<String>,
    pub create_date: Option<String>,
    pub role_name: Option<String>,
    pub role_id: Option<u32>,
    pub server_name: Option<String>,
    pub server_id: Option<String>,
    pub time_used: Option<u32>,
    pub account_name: Option<String>,
    pub login_mode: Option<u8>,
    pub login_type: Option<u8>,
    pub credit_account: Option<u8>,
    pub physical_value: Option<u8>,
    pub role_level: Option<u8>,
    pub ip: Option<String>,
}

/// The payload of a load-profile call.
#[derive(Debug, Clone)]
pub struct LoadRequest {
    pub oaid: String,
    pub viewer_id: u32,
    pub device_token: String,
    pub mac: String,
    pub imei: String,
    pub keychain: u32,
    pub graphics_device_name: String,
    pub storage_directory_path: String,
    pub platform_os_version: String,
    pub device_id_bits: u32,
}

impl LoadRequest {
    /// The stock load payload for a given viewer session id.
    pub fn from_viewer_id(viewer_id: u32) -> (r: Self)
        ensures
            r.viewer_id == viewer_id,
            r.keychain == viewer_id,
            r.oaid@ == ""@,
            r.device_token@ == "noDeviceToken"@,
            r.mac@ == ""@,
            r.imei@ == "none"@,
            r.graphics_device_name@ == "OpenGL (Baseline Extended)"@,
            r.storage_directory_path@ == STORAGE_DIRECTORY_PATH@,
            r.platform_os_version@ == "Android 12"@,
            r.device_id_bits == DEVICE_ID_BITS,
    {
        LoadRequest {
            oaid: "".to_owned(),
            viewer_id,
            device_token: "noDeviceToken".to_owned(),
            mac: "".to_owned(),
            imei: "none".to_owned(),
            keychain: viewer_id,
            graphics_device_name: "OpenGL (Baseline Extended)".to_owned(),
            storage_directory_path: STORAGE_DIRECTORY_PATH.to_owned(),
            platform_os_version: "Android 12".to_owned(),
            device_id_bits: DEVICE_ID_BITS,
        }
    }
}

/// What load-profile returns: the content version the server publishes.
#[derive(Debug, Clone)]
pub struct LoadResponse {
    pub available_asset_version: String,
}

/// The payload of a resolve-asset-paths call.
#[derive(Debug, Clone)]
pub struct GetAssetPathRequest {
    pub target_asset_version: String,
    pub viewer_id: u32,
}

impl GetAssetPathRequest {
    pub fn new(target_asset_version: String, viewer_id: u32) -> (r: Self)
        ensures
            r.target_asset_version@ == target_asset_version@,
            r.viewer_id == viewer_id,
    {
        GetAssetPathRequest { target_asset_version, viewer_id }
    }
}

/// The payload of a resolve-version-info call.
#[derive(Debug, Clone)]
pub struct GetAssetVersionInfoRequest {
    pub asset_version: String,
    pub viewer_id: u32,
}

impl GetAssetVersionInfoRequest {
    pub fn new(asset_version: String, viewer_id: u32) -> (r: Self)
        ensures
            r.asset_version@ == asset_version@,
            r.viewer_id == viewer_id,
    {
        GetAssetVersionInfoRequest { asset_version, viewer_id }
    }
}

/// Resolution metadata carried at the top of an asset manifest.
#[derive(Debug, Clone)]
pub struct AssetPathsInfo {
    pub client_asset_version: String,
    pub target_asset_version: String,
    pub eventual_target_asset_version: String,
    pub is_initial: bool,
    pub latest_maj_first_version: String,
}

/// One archive of the asset set: where it lives, how large it is, and the
/// content hash that is the sole deduplication key.
#[derive(Debug, Clone)]
pub struct AssetPathArchive {
    pub location: String,
    pub size: u64,
    pub sha256: String,
}

/// The archive list of the full asset set for one version.
#[derive(Debug, Clone)]
pub struct AssetPathsFull {
    pub version: String,
    pub archive: Vec<AssetPathArchive>,
}

/// A diff archive set from `original_version` up to `version`.
#[derive(Debug, Clone)]
pub struct AssetPathDiff {
    pub version: String,
    pub original_version: String,
    pub archive: Vec<AssetPathArchive>,
}

/// The asset manifest: top-level metadata, the full archive set, and any
/// diff sets.
#[derive(Debug, Clone)]
pub struct AssetPaths {
    pub info: AssetPathsInfo,
    pub full: AssetPathsFull,
    pub diff: Vec<AssetPathDiff>,
    pub asset_version_hash: String,
}

/// Per-variant version info: base URL, file-list location, and sizes.
#[derive(Debug, Clone)]
pub struct AssetVersionInfo {
    pub base_url: String,
    pub files_list: String,
    pub total_size: u64,
    pub delayed_assets_size: u64,
}

// ------------------------------------------------------------------
// Mathematical views of the manifest types.
// ------------------------------------------------------------------

pub ghost struct ArchiveV {
    pub location: Seq<char>,
    pub size: u64,
    pub sha256: Seq<char>,
}

pub ghost struct FullV {
    pub version: Seq<char>,
    pub archive: Seq<ArchiveV>,
}

pub ghost struct DiffV {
    pub version: Seq<char>,
    pub original_version: Seq<char>,
    pub archive: Seq<ArchiveV>,
}

pub ghost struct PathsInfoV {
    pub client_asset_version: Seq<char>,
    pub target_asset_version: Seq<char>,
    pub eventual_target_asset_version: Seq<char>,
    pub is_initial: bool,
    pub latest_maj_first_version: Seq<char>,
}

pub ghost struct AssetPathsV {
    pub info: PathsInfoV,
    pub full: FullV,
    pub diff: Seq<DiffV>,
    pub asset_version_hash: Seq<char>,
}

pub ghost struct VersionInfoV {
    pub base_url: Seq<char>,
    pub files_list: Seq<char>,
    pub total_size: u64,
    pub delayed_assets_size: u64,
}

impl View for AssetPathArchive {
    type V = ArchiveV;

    open spec fn view(&self) -> ArchiveV {
        ArchiveV { location: self.location@, size: self.size, sha256: self.sha256@ }
    }
}

/// The views of a sequence of archives.
pub open spec fn avs(s: Seq<AssetPathArchive>) -> Seq<ArchiveV> {
    s.map_values(|a: AssetPathArchive| a@)
}

impl View for AssetPathsFull {
    type V = FullV;

    open spec fn view(&self) -> FullV {
        FullV { version: self.version@, archive: avs(self.archive@) }
    }
}

impl View for AssetPathDiff {
    type V = DiffV;

    open spec fn view(&self) -> DiffV {
        DiffV {
            version: self.version@,
            original_version: self.original_version@,
            archive: avs(self.archive@),
        }
    }
}

/// The views of a sequence of diff sets.
pub open spec fn dvs(s: Seq<AssetPathDiff>) -> Seq<DiffV> {
    s.map_values(|d: AssetPathDiff| d@)
}

impl View for AssetPathsInfo {
    type V = PathsInfoV;

    open spec fn view(&self) -> PathsInfoV {
        PathsInfoV {
            client_asset_version: self.client_asset_version@,
            target_asset_version: self.target_asset_version@,
            eventual_target_asset_version: self.eventual_target_asset_version@,
            is_initial: self.is_initial,
            latest_maj_first_version: self.latest_maj_first_version@,
        }
    }
}

impl View for AssetPaths {
    type V = AssetPathsV;

    open spec fn view(&self) -> AssetPathsV {
        AssetPathsV {
            info: self.info@,
            full: self.full@,
            diff: dvs(self.diff@),
            asset_version_hash: self.asset_version_hash@,
        }
    }
}

impl View for AssetVersionInfo {
    type V = VersionInfoV;

    open spec fn view(&self) -> VersionInfoV {
        VersionInfoV {
            base_url: self.base_url@,
            files_list: self.files_list@,
            total_size: self.total_size,
            delayed_assets_size: self.delayed_assets_size,
        }
    }
}

// ------------------------------------------------------------------
// The merge algorithm and its specification.
// ------------------------------------------------------------------

/// The set of content hashes appearing in a sequence of archives.
pub open spec fn archive_hashes(s: Seq<ArchiveV>) -> Set<Seq<char>> {
    Set::new(|h: Seq<char>| exists|i: int| 0 <= i < s.len() && s[i].sha256 == h)
}

/// Keeps the first archive carrying each content hash, in discovery order.
pub open spec fn dedup_archives(s: Seq<ArchiveV>) -> Seq<ArchiveV>
    decreases s.len(),
{
    if s.len() == 0 {
        s
    } else {
        let prefix = s.drop_last();
        let rest = dedup_archives(prefix);
        if archive_hashes(prefix).contains(s.last().sha256) {
            rest
        } else {
            rest.push(s.last())
        }
    }
}

/// The identity of a diff set: (target version, source version).
pub open spec fn diff_key(d: DiffV) -> (Seq<char>, Seq<char>) {
    (d.version, d.original_version)
}

/// A freshly admitted diff set: its own archives deduplicated.
pub open spec fn normalize_diff(d: DiffV) -> DiffV {
    DiffV {
        version: d.version,
        original_version: d.original_version,
        archive: dedup_archives(d.archive),
    }
}

/// The entry for an already-present diff identity absorbs the incoming
/// archives, deduplicating by content hash with first occurrence winning.
pub open spec fn combine_diff(e: DiffV, d: DiffV) -> DiffV {
    DiffV {
        version: e.version,
        original_version: e.original_version,
        archive: dedup_archives(e.archive + d.archive),
    }
}

/// Inserts a diff set into an accumulator keyed by diff identity.
pub open spec fn upsert_diff(acc: Seq<DiffV>, d: DiffV) -> Seq<DiffV>
    decreases acc.len(),
{
    if acc.len() == 0 {
        seq![normalize_diff(d)]
    } else if diff_key(acc[0]) == diff_key(d) {
        seq![combine_diff(acc[0], d)] + acc.drop_first()
    } else {
        seq![acc[0]] + upsert_diff(acc.drop_first(), d)
    }
}

/// Folds a sequence of diff sets into an accumulator, in order.
pub open spec fn merge_diffs(acc: Seq<DiffV>, ds: Seq<DiffV>) -> Seq<DiffV>
    decreases ds.len(),
{
    if ds.len() == 0 {
        acc
    } else {
        merge_diffs(upsert_diff(acc, ds[0]), ds.drop_first())
    }
}

impl AssetPathArchive {
    /// A field-for-field copy with a known view.
    pub fn duplicate(&self) -> (r: Self)
        ensures
            r@ == self@,
    {
        AssetPathArchive {
            location: self.location.clone(),
            size: self.size,
            sha256: self.sha256.clone(),
        }
    }
}

/// Whether any archive in `v` carries the content hash `h`.
fn archives_contain_hash(v: &Vec<AssetPathArchive>, h: &String) -> (r: bool)
    ensures
        r == archive_hashes(avs(v@)).contains(h@),
{
    let mut j: usize = 0;
    while j < v.len()
        invariant
            0 <= j <= v@.len(),
            forall|k: int| 0 <= k < j ==> avs(v@)[k].sha256 != h@,
        decreases v@.len() - j,
    {
        if v[j].sha256.eq(h) {
            assert(avs(v@)[j as int].sha256 == h@);
            assert(archive_hashes(avs(v@)).contains(h@));
            return true;
        }
        j += 1;
    }
    assert(!archive_hashes(avs(v@)).contains(h@));
    false
}

/// Appends `x` to `out` unless its content hash is already present.
fn push_if_new_hash(out: &mut Vec<AssetPathArchive>, x: &AssetPathArchive)
    ensures
        avs(final(out)@) == if archive_hashes(avs(old(out)@)).contains(x@.sha256) {
            avs(old(out)@)
        } else {
            avs(old(out)@).push(x@)
        },
{
    if !archives_contain_hash(out, &x.sha256) {
        out.push(x.duplicate());
        proof {
            assert(avs(out@) =~= avs(old(out)@).push(x@));
        }
    }
}

/// The hash set survives deduplication, and deduplicating twice is the same
/// as deduplicating once.
pub proof fn lemma_dedup_fixed(s: Seq<ArchiveV>)
    ensures
        archive_hashes(dedup_archives(s)) =~= archive_hashes(s),
        dedup_archives(dedup_archives(s)) == dedup_archives(s),
    decreases s.len(),
{
    if s.len() > 0 {
        let prefix = s.drop_last();
        let x = s.last();
        lemma_dedup_fixed(prefix);
        assert(s =~= prefix.push(x));
        lemma_hashes_push(prefix, x);
        if archive_hashes(prefix).contains(x.sha256) {
            assert(archive_hashes(s) =~= archive_hashes(prefix));
        } else {
            let r = dedup_archives(prefix);
            lemma_hashes_push(r, x);
            assert(archive_hashes(r.push(x)) =~= archive_hashes(s));
            assert(r.push(x).drop_last() =~= r);
            assert(r.push(x).last() == x);
            assert(dedup_archives(r.push(x)) == dedup_archives(r).push(x));
        }
    }
}

/// Deduplicating after pushing onto a deduplicated sequence is the same as
/// deduplicating the extended sequence.
pub proof fn lemma_dedup_push(s: Seq<ArchiveV>, x: ArchiveV)
    ensures
        dedup_archives(s.push(x)) == if archive_hashes(s).contains(x.sha256) {
            dedup_archives(s)
        } else {
            dedup_archives(s).push(x)
        },
{
    assert(s.push(x).drop_last() =~= s);
    assert(s.push(x).last() == x);
}

/// Pushing an archive adds exactly its hash to the hash set.
pub proof fn lemma_hashes_push(s: Seq<ArchiveV>, x: ArchiveV)
    ensures
        archive_hashes(s.push(x)) =~= archive_hashes(s).insert(x.sha256),
{
    assert forall|h: Seq<char>| archive_hashes(s.push(x)).contains(h) implies archive_hashes(
        s,
    ).insert(x.sha256).contains(h) by {
        let i = choose|i: int| 0 <= i < s.push(x).len() && s.push(x)[i].sha256 == h;
        if i < s.len() {
            assert(s[i].sha256 == h);
        }
    }
    assert forall|h: Seq<char>| archive_hashes(s).insert(x.sha256).contains(h)
        implies archive_hashes(s.push(x)).contains(h) by {
        if archive_hashes(s).contains(h) {
            let i = choose|i: int| 0 <= i < s.len() && s[i].sha256 == h;
            assert(s.push(x)[i].sha256 == h);
        } else {
            assert(s.push(x)[s.len() as int].sha256 == h);
        }
    }
}

/// The hash set of a concatenation is the union of the hash sets.
pub proof fn lemma_hashes_concat(a: Seq<ArchiveV>, b: Seq<ArchiveV>)
    ensures
        archive_hashes(a + b) =~= archive_hashes(a) + archive_hashes(b),
{
    assert forall|h: Seq<char>| archive_hashes(a + b).contains(h) implies (archive_hashes(a)
        + archive_hashes(b)).contains(h) by {
        let i = choose|i: int| 0 <= i < (a + b).len() && (a + b)[i].sha256 == h;
        if i < a.len() {
            assert(a[i].sha256 == h);
        } else {
            assert(b[i - a.len()].sha256 == h);
        }
    }
    assert forall|h: Seq<char>| (archive_hashes(a) + archive_hashes(b)).contains(h)
        implies archive_hashes(a + b).contains(h) by {
        if archive_hashes(a).contains(h) {
            let i = choose|i: int| 0 <= i < a.len() && a[i].sha256 == h;
            assert((a + b)[i].sha256 == h);
        } else {
            let i = choose|i: int| 0 <= i < b.len() && b[i].sha256 == h;
            assert((a + b)[a.len() + i].sha256 == h);
        }
    }
}

/// Merges two archive lists, keeping the first archive of each content hash.
fn merge_archives(a: &Vec<AssetPathArchive>, b: &Vec<AssetPathArchive>) -> (r: Vec<
    AssetPathArchive,
>)
    ensures
        avs(r@) == dedup_archives(avs(a@) + avs(b@)),
{
    let ghost all = avs(a@) + avs(b@);
    let mut out: Vec<AssetPathArchive> = Vec::new();
    let mut i: usize = 0;
    proof {
        assert(avs(out@) =~= dedup_archives(all.take(0)));
    }
    while i < a.len()
        invariant
            0 <= i <= a@.len(),
            all == avs(a@) + avs(b@),
            avs(out@) == dedup_archives(all.take(i as int)),
        decreases a@.len() - i,
    {
        proof {
            assert(all.take(i + 1) =~= all.take(i as int).push(a@[i as int]@));
            lemma_dedup_fixed(all.take(i as int));
            lemma_dedup_push(all.take(i as int), a@[i as int]@);
        }
        push_if_new_hash(&mut out, &a[i]);
        i += 1;
    }
    let mut j: usize = 0;
    while j < b.len()
        invariant
            0 <= j <= b@.len(),
            all == avs(a@) + avs(b@),
            avs(out@) == dedup_archives(all.take(a@.len() + j)),
        decreases b@.len() - j,
    {
        proof {
            assert(all.take(a@.len() + j + 1) =~= all.take(a@.len() + j).push(b@[j as int]@));
            lemma_dedup_fixed(all.take(a@.len() + j));
            lemma_dedup_push(all.take(a@.len() + j), b@[j as int]@);
        }
        push_if_new_hash(&mut out, &b[j]);
        j += 1;
    }
    proof {
        assert(all.take(a@.len() as int + b@.len() as int) =~= all);
    }
    out
}

impl AssetPaths {
    /// Merges two manifests resolved for different platforms.
    ///
    /// Full archives are unioned by content hash, first occurrence winning
    /// and discovery order kept: `self`'s archives come before `with`'s.
    /// Diff sets are unioned by (version, source version) identity, and the
    /// archives within a matched identity are unioned by content hash the
    /// same way. Top-level metadata stays `self`'s.
    pub fn extend(self, with: AssetPaths) -> (r: AssetPaths)
        ensures
            r@.info == self@.info,
            r@.full.version == self@.full.version,
            r@.asset_version_hash == self@.asset_version_hash,
            r@.full.archive == dedup_archives(self@.full.archive + with@.full.archive),
            r@.diff == merge_diffs(Seq::<DiffV>::empty(), self@.diff + with@.diff),
    {
        let merged_full = merge_archives(&self.full.archive, &with.full.archive);
        let mut diffs: Vec<AssetPathDiff> = Vec::new();
        let ghost all = dvs(self.diff@) + dvs(with.diff@);
        let mut i: usize = 0;
        proof {
            assert(dvs(diffs@) =~= Seq::<DiffV>::empty());
            assert(all.skip(0) =~= all);
        }
        while i < self.diff.len()
            invariant
                0 <= i <= self.diff@.len(),
                all == dvs(self.diff@) + dvs(with.diff@),
                merge_diffs(Seq::<DiffV>::empty(), all) == merge_diffs(
                    dvs(diffs@),
                    all.skip(i as int),
                ),
            decreases self.diff@.len() - i,
        {
            proof {
                assert(all.skip(i as int)[0] == dvs(self.diff@)[i as int]);
                assert(all.skip(i as int).drop_first() =~= all.skip(i + 1));
            }
            upsert_diff_exec(&mut diffs, &self.diff[i]);
            i += 1;
        }
        let mut j: usize = 0;
        while j < with.diff.len()
            invariant
                0 <= j <= with.diff@.len(),
                all == dvs(self.diff@) + dvs(with.diff@),
                merge_diffs(Seq::<DiffV>::empty(), all) == merge_diffs(
                    dvs(diffs@),
                    all.skip(self.diff@.len() + j),
                ),
            decreases with.diff@.len() - j,
        {
            proof {
                assert(all.skip(self.diff@.len() + j)[0] == dvs(with.diff@)[j as int]);
                assert(all.skip(self.diff@.len() + j).drop_first() =~= all.skip(
                    self.diff@.len() + j + 1,
                ));
            }
            upsert_diff_exec(&mut diffs, &with.diff[j]);
            j += 1;
        }
        proof {
            assert(all.skip(all.len() as int) =~= Seq::<DiffV>::empty());
        }
        AssetPaths {
            info: self.info,
            full: AssetPathsFull { version: self.full.version, archive: merged_full },
            diff: diffs,
            asset_version_hash: self.asset_version_hash,
        }
    }
}

/// Folds one diff set into the accumulator vector.
fn upsert_diff_exec(acc: &mut Vec<AssetPathDiff>, d: &AssetPathDiff)
    ensures
        dvs(final(acc)@) == upsert_diff(dvs(old(acc)@), d@),
{
    let mut j: usize = 0;
    while j < acc.len()
        invariant
            0 <= j <= acc@.len(),
            acc@ == old(acc)@,
            forall|k: int| 0 <= k < j ==> diff_key(dvs(acc@)[k]) != diff_key(d@),
        decreases acc@.len() - j,
    {
        if acc[j].version.eq(&d.version) && acc[j].original_version.eq(&d.original_version) {
            assert(diff_key(dvs(acc@)[j as int]) == diff_key(d@));
            let entry = acc.remove(j);
            let merged = merge_archives(&entry.archive, &d.archive);
            let combined = AssetPathDiff {
                version: entry.version,
                original_version: entry.original_version,
                archive: merged,
            };
            assert(combined@ == combine_diff(dvs(old(acc)@)[j as int], d@));
            acc.insert(j, combined);
            proof {
                assert(dvs(acc@) =~= dvs(old(acc)@).update(
                    j as int,
                    combine_diff(dvs(old(acc)@)[j as int], d@),
                ));
                lemma_upsert_found(dvs(old(acc)@), d@, j as int);
            }
            return;
        }
        j += 1;
    }
    let empty: Vec<AssetPathArchive> = Vec::new();
    let fresh_archive = merge_archives(&empty, &d.archive);
    proof {
        assert(avs(empty@) + avs(d.archive@) =~= avs(d.archive@));
    }
    let fresh = AssetPathDiff {
        version: d.version.clone(),
        original_version: d.original_version.clone(),
        archive: fresh_archive,
    };
    assert(fresh@ == normalize_diff(d@));
    acc.push(fresh);
    proof {
        assert(dvs(acc@) =~= dvs(old(acc)@).push(normalize_diff(d@)));
        lemma_upsert_missing(dvs(old(acc)@), d@);
    }
}

// ------------------------------------------------------------------
// Set-level laws of the merge.
// ------------------------------------------------------------------

/// The set of diff identities in a sequence of diff sets.
pub open spec fn diff_keys(ds: Seq<DiffV>) -> Set<(Seq<char>, Seq<char>)> {
    Set::new(|k: (Seq<char>, Seq<char>)| exists|i: int| 0 <= i < ds.len() && diff_key(ds[i]) == k)
}

/// The content hashes of the archives filed under identity `k`.
pub open spec fn key_hashes(ds: Seq<DiffV>, k: (Seq<char>, Seq<char>)) -> Set<Seq<char>> {
    Set::new(
        |h: Seq<char>|
            exists|i: int|
                0 <= i < ds.len() && diff_key(ds[i]) == k && archive_hashes(ds[i].archive).contains(
                    h,
                ),
    )
}

/// All content hashes across every diff set.
pub open spec fn diff_hashes(ds: Seq<DiffV>) -> Set<Seq<char>> {
    Set::new(
        |h: Seq<char>|
            exists|i: int| 0 <= i < ds.len() && archive_hashes(ds[i].archive).contains(h),
    )
}

pub proof fn lemma_diff_keys_cons(e: DiffV, rest: Seq<DiffV>)
    ensures
        diff_keys(seq![e] + rest) =~= diff_keys(rest).insert(diff_key(e)),
{
    assert forall|k: (Seq<char>, Seq<char>)| diff_keys(seq![e] + rest).contains(k)
        implies diff_keys(rest).insert(diff_key(e)).contains(k) by {
        let i = choose|i: int|
            0 <= i < (seq![e] + rest).len() && diff_key((seq![e] + rest)[i]) == k;
        if i > 0 {
            assert(diff_key(rest[i - 1]) == k);
        }
    }
    assert forall|k: (Seq<char>, Seq<char>)| diff_keys(rest).insert(diff_key(e)).contains(k)
        implies diff_keys(seq![e] + rest).contains(k) by {
        if diff_keys(rest).contains(k) {
            let i = choose|i: int| 0 <= i < rest.len() && diff_key(rest[i]) == k;
            assert(diff_key((seq![e] + rest)[i + 1]) == k);
        } else {
            assert(diff_key((seq![e] + rest)[0]) == k);
        }
    }
}

pub proof fn lemma_key_hashes_cons(e: DiffV, rest: Seq<DiffV>, k: (Seq<char>, Seq<char>))
    ensures
        key_hashes(seq![e] + rest, k) =~= if diff_key(e) == k {
            archive_hashes(e.archive) + key_hashes(rest, k)
        } else {
            key_hashes(rest, k)
        },
{
    let s = seq![e] + rest;
    assert forall|h: Seq<char>| key_hashes(s, k).contains(h) implies (if diff_key(e) == k {
        archive_hashes(e.archive) + key_hashes(rest, k)
    } else {
        key_hashes(rest, k)
    }).contains(h) by {
        let i = choose|i: int|
            0 <= i < s.len() && diff_key(s[i]) == k && archive_hashes(s[i].archive).contains(h);
        if i > 0 {
            assert(diff_key(rest[i - 1]) == k && archive_hashes(rest[i - 1].archive).contains(h));
        }
    }
    assert forall|h: Seq<char>| (if diff_key(e) == k {
        archive_hashes(e.archive) + key_hashes(rest, k)
    } else {
        key_hashes(rest, k)
    }).contains(h) implies key_hashes(s, k).contains(h) by {
        if diff_key(e) == k && archive_hashes(e.archive).contains(h) {
            assert(diff_key(s[0]) == k && archive_hashes(s[0].archive).contains(h));
        } else {
            let i = choose|i: int|
                0 <= i < rest.len() && diff_key(rest[i]) == k && archive_hashes(
                    rest[i].archive,
                ).contains(h);
            assert(diff_key(s[i + 1]) == k && archive_hashes(s[i + 1].archive).contains(h));
        }
    }
}

pub proof fn lemma_key_hashes_concat(a: Seq<DiffV>, b: Seq<DiffV>, k: (Seq<char>, Seq<char>))
    ensures
        key_hashes(a + b, k) =~= key_hashes(a, k) + key_hashes(b, k),
        diff_keys(a + b) =~= diff_keys(a) + diff_keys(b),
{
    assert forall|h: Seq<char>| key_hashes(a + b, k).contains(h) implies (key_hashes(a, k)
        + key_hashes(b, k)).contains(h) by {
        let i = choose|i: int|
            0 <= i < (a + b).len() && diff_key((a + b)[i]) == k && archive_hashes(
                (a + b)[i].archive,
            ).contains(h);
        if i < a.len() {
            assert(diff_key(a[i]) == k && archive_hashes(a[i].archive).contains(h));
        } else {
            assert(diff_key(b[i - a.len()]) == k && archive_hashes(
                b[i - a.len()].archive,
            ).contains(h));
        }
    }
    assert forall|h: Seq<char>| (key_hashes(a, k) + key_hashes(b, k)).contains(h)
        implies key_hashes(a + b, k).contains(h) by {
        if key_hashes(a, k).contains(h) {
            let i = choose|i: int|
                0 <= i < a.len() && diff_key(a[i]) == k && archive_hashes(a[i].archive).contains(
                    h,
                );
            assert(diff_key((a + b)[i]) == k && archive_hashes((a + b)[i].archive).contains(h));
        } else {
            let i = choose|i: int|
                0 <= i < b.len() && diff_key(b[i]) == k && archive_hashes(b[i].archive).contains(
                    h,
                );
            assert(diff_key((a + b)[a.len() + i]) == k && archive_hashes(
                (a + b)[a.len() + i].archive,
            ).contains(h));
        }
    }
    assert forall|kk: (Seq<char>, Seq<char>)| diff_keys(a + b).contains(kk) implies (diff_keys(a)
        + diff_keys(b)).contains(kk) by {
        let i = choose|i: int| 0 <= i < (a + b).len() && diff_key((a + b)[i]) == kk;
        if i < a.len() {
            assert(diff_key(a[i]) == kk);
        } else {
            assert(diff_key(b[i - a.len()]) == kk);
        }
    }
    assert forall|kk: (Seq<char>, Seq<char>)| (diff_keys(a) + diff_keys(b)).contains(kk)
        implies diff_keys(a + b).contains(kk) by {
        if diff_keys(a).contains(kk) {
            let i = choose|i: int| 0 <= i < a.len() && diff_key(a[i]) == kk;
            assert(diff_key((a + b)[i]) == kk);
        } else {
            let i = choose|i: int| 0 <= i < b.len() && diff_key(b[i]) == kk;
            assert(diff_key((a + b)[a.len() + i]) == kk);
        }
    }
}

/// Upserting one diff set adds its identity and files its hashes under it.
pub proof fn lemma_upsert_sets(acc: Seq<DiffV>, d: DiffV)
    ensures
        diff_keys(upsert_diff(acc, d)) =~= diff_keys(acc).insert(diff_key(d)),
        forall|k: (Seq<char>, Seq<char>)|
            key_hashes(upsert_diff(acc, d), k) =~= (if k == diff_key(d) {
                key_hashes(acc, k) + archive_hashes(d.archive)
            } else {
                key_hashes(acc, k)
            }),
    decreases acc.len(),
{
    if acc.len() == 0 {
        lemma_dedup_fixed(d.archive);
        assert(upsert_diff(acc, d) =~= seq![normalize_diff(d)] + Seq::<DiffV>::empty());
        lemma_diff_keys_cons(normalize_diff(d), Seq::<DiffV>::empty());
        assert(diff_keys(Seq::<DiffV>::empty()) =~= Set::<(Seq<char>, Seq<char>)>::empty());
        assert forall|k: (Seq<char>, Seq<char>)|
            key_hashes(upsert_diff(acc, d), k) =~= (if k == diff_key(d) {
                key_hashes(acc, k) + archive_hashes(d.archive)
            } else {
                key_hashes(acc, k)
            }) by {
            lemma_key_hashes_cons(normalize_diff(d), Seq::<DiffV>::empty(), k);
            assert(key_hashes(Seq::<DiffV>::empty(), k) =~= Set::<Seq<char>>::empty());
            if k == diff_key(d) {
                assert(archive_hashes(normalize_diff(d).archive) + key_hashes(
                    Seq::<DiffV>::empty(),
                    k,
                ) =~= key_hashes(acc, k) + archive_hashes(d.archive));
            }
        }
    } else if diff_key(acc[0]) == diff_key(d) {
        let c = combine_diff(acc[0], d);
        let rest = acc.drop_first();
        lemma_dedup_fixed(acc[0].archive + d.archive);
        lemma_hashes_concat(acc[0].archive, d.archive);
        lemma_diff_keys_cons(c, rest);
        lemma_diff_keys_cons(acc[0], rest);
        assert(acc =~= seq![acc[0]] + rest);
        assert(diff_keys(upsert_diff(acc, d)) =~= diff_keys(acc).insert(diff_key(d)));
        assert forall|k: (Seq<char>, Seq<char>)|
            key_hashes(upsert_diff(acc, d), k) =~= (if k == diff_key(d) {
                key_hashes(acc, k) + archive_hashes(d.archive)
            } else {
                key_hashes(acc, k)
            }) by {
            lemma_key_hashes_cons(c, rest, k);
            lemma_key_hashes_cons(acc[0], rest, k);
        }
    } else {
        let rest = acc.drop_first();
        lemma_upsert_sets(rest, d);
        lemma_diff_keys_cons(acc[0], upsert_diff(rest, d));
        lemma_diff_keys_cons(acc[0], rest);
        assert(acc =~= seq![acc[0]] + rest);
        assert(diff_keys(upsert_diff(acc, d)) =~= diff_keys(acc).insert(diff_key(d)));
        assert forall|k: (Seq<char>, Seq<char>)|
            key_hashes(upsert_diff(acc, d), k) =~= (if k == diff_key(d) {
                key_hashes(acc, k) + archive_hashes(d.archive)
            } else {
                key_hashes(acc, k)
            }) by {
            lemma_key_hashes_cons(acc[0], upsert_diff(rest, d), k);
            lemma_key_hashes_cons(acc[0], rest, k);
        }
    }
}

/// Folding diff sets into an accumulator unions identities and per-identity
/// hash sets.
pub proof fn lemma_merge_diffs_sets(acc: Seq<DiffV>, ds: Seq<DiffV>)
    ensures
        diff_keys(merge_diffs(acc, ds)) =~= diff_keys(acc) + diff_keys(ds),
        forall|k: (Seq<char>, Seq<char>)|
            key_hashes(merge_diffs(acc, ds), k) =~= key_hashes(acc, k) + key_hashes(ds, k),
    decreases ds.len(),
{
    if ds.len() == 0 {
        assert(diff_keys(ds) =~= Set::<(Seq<char>, Seq<char>)>::empty());
        assert(diff_keys(merge_diffs(acc, ds)) =~= diff_keys(acc) + diff_keys(ds));
        assert forall|k: (Seq<char>, Seq<char>)|
            key_hashes(merge_diffs(acc, ds), k) =~= key_hashes(acc, k) + key_hashes(ds, k) by {
            assert(key_hashes(ds, k) =~= Set::<Seq<char>>::empty());
        }
    } else {
        let up = upsert_diff(acc, ds[0]);
        lemma_upsert_sets(acc, ds[0]);
        lemma_merge_diffs_sets(up, ds.drop_first());
        assert(ds =~= seq![ds[0]] + ds.drop_first());
        lemma_diff_keys_cons(ds[0], ds.drop_first());
        assert(diff_keys(merge_diffs(acc, ds)) =~= diff_keys(acc) + diff_keys(ds));
        assert forall|k: (Seq<char>, Seq<char>)|
            key_hashes(merge_diffs(acc, ds), k) =~= key_hashes(acc, k) + key_hashes(ds, k) by {
            lemma_key_hashes_cons(ds[0], ds.drop_first(), k);
        }
    }
}

/// Every hash filed across the diff sets is filed under some identity.
pub proof fn lemma_diff_hashes_via_keys(ds: Seq<DiffV>, h: Seq<char>)
    ensures
        diff_hashes(ds).contains(h) <==> exists|k: (Seq<char>, Seq<char>)|
            key_hashes(ds, k).contains(h),
{
    if diff_hashes(ds).contains(h) {
        let i = choose|i: int| 0 <= i < ds.len() && archive_hashes(ds[i].archive).contains(h);
        assert(key_hashes(ds, diff_key(ds[i])).contains(h));
    }
}

/// Law: the manifest merge is idempotent. Merging a manifest with itself
/// keeps the set of full-archive content hashes, the diff identities, and
/// the hashes filed under each identity.
pub proof fn lemma_merge_idempotent(m: AssetPathsV)
    ensures
        archive_hashes(dedup_archives(m.full.archive + m.full.archive)) =~= archive_hashes(
            m.full.archive,
        ),
        diff_keys(merge_diffs(Seq::<DiffV>::empty(), m.diff + m.diff)) =~= diff_keys(m.diff),
        forall|k: (Seq<char>, Seq<char>)|
            key_hashes(merge_diffs(Seq::<DiffV>::empty(), m.diff + m.diff), k) =~= key_hashes(
                m.diff,
                k,
            ),
{
    lemma_dedup_fixed(m.full.archive + m.full.archive);
    lemma_hashes_concat(m.full.archive, m.full.archive);
    lemma_merge_diffs_sets(Seq::<DiffV>::empty(), m.diff + m.diff);
    assert(diff_keys(Seq::<DiffV>::empty()) =~= Set::<(Seq<char>, Seq<char>)>::empty());
    assert forall|k: (Seq<char>, Seq<char>)|
        key_hashes(merge_diffs(Seq::<DiffV>::empty(), m.diff + m.diff), k) =~= key_hashes(
            m.diff,
            k,
        ) by {
        lemma_key_hashes_concat(m.diff, m.diff, k);
        assert(key_hashes(Seq::<DiffV>::empty(), k) =~= Set::<Seq<char>>::empty());
    }
    assert(diff_keys(m.diff + m.diff) =~= diff_keys(m.diff) + diff_keys(m.diff)) by {
        lemma_key_hashes_concat(m.diff, m.diff, (Seq::<char>::empty(), Seq::<char>::empty()));
    }
}

/// Law: the manifest merge commutes up to set equality. Merging (a, b) and
/// (b, a) yields equal full-archive hash sets, equal diff identities, equal
/// hashes under each identity, and so equal overall diff hash sets — even
/// though top-level metadata provenance differs.
pub proof fn lemma_merge_commutative(a: AssetPathsV, b: AssetPathsV)
    ensures
        archive_hashes(dedup_archives(a.full.archive + b.full.archive)) =~= archive_hashes(
            dedup_archives(b.full.archive + a.full.archive),
        ),
        diff_keys(merge_diffs(Seq::<DiffV>::empty(), a.diff + b.diff)) =~= diff_keys(
            merge_diffs(Seq::<DiffV>::empty(), b.diff + a.diff),
        ),
        forall|k: (Seq<char>, Seq<char>)|
            key_hashes(merge_diffs(Seq::<DiffV>::empty(), a.diff + b.diff), k) =~= key_hashes(
                merge_diffs(Seq::<DiffV>::empty(), b.diff + a.diff),
                k,
            ),
        forall|h: Seq<char>|
            diff_hashes(merge_diffs(Seq::<DiffV>::empty(), a.diff + b.diff)).contains(h)
                == diff_hashes(merge_diffs(Seq::<DiffV>::empty(), b.diff + a.diff)).contains(h),
{
    lemma_dedup_fixed(a.full.archive + b.full.archive);
    lemma_dedup_fixed(b.full.archive + a.full.archive);
    lemma_hashes_concat(a.full.archive, b.full.archive);
    lemma_hashes_concat(b.full.archive, a.full.archive);
    lemma_merge_diffs_sets(Seq::<DiffV>::empty(), a.diff + b.diff);
    lemma_merge_diffs_sets(Seq::<DiffV>::empty(), b.diff + a.diff);
    lemma_key_hashes_concat(a.diff, b.diff, (Seq::<char>::empty(), Seq::<char>::empty()));
    lemma_key_hashes_concat(b.diff, a.diff, (Seq::<char>::empty(), Seq::<char>::empty()));
    assert(diff_keys(merge_diffs(Seq::<DiffV>::empty(), a.diff + b.diff)) =~= diff_keys(
        merge_diffs(Seq::<DiffV>::empty(), b.diff + a.diff),
    ));
    assert forall|k: (Seq<char>, Seq<char>)|
        key_hashes(merge_diffs(Seq::<DiffV>::empty(), a.diff + b.diff), k) =~= key_hashes(
            merge_diffs(Seq::<DiffV>::empty(), b.diff + a.diff),
            k,
        ) by {
        lemma_key_hashes_concat(a.diff, b.diff, k);
        lemma_key_hashes_concat(b.diff, a.diff, k);
        assert(key_hashes(Seq::<DiffV>::empty(), k) =~= Set::<Seq<char>>::empty());
    }
    assert forall|h: Seq<char>|
        diff_hashes(merge_diffs(Seq::<DiffV>::empty(), a.diff + b.diff)).contains(h)
            == diff_hashes(merge_diffs(Seq::<DiffV>::empty(), b.diff + a.diff)).contains(h) by {
        lemma_diff_hashes_via_keys(merge_diffs(Seq::<DiffV>::empty(), a.diff + b.diff), h);
        lemma_diff_hashes_via_keys(merge_diffs(Seq::<DiffV>::empty(), b.diff + a.diff), h);
    }
}

/// When the accumulator holds the incoming identity at position `j` (and not
/// earlier), upserting updates exactly that entry.
pub proof fn lemma_upsert_found(acc: Seq<DiffV>, d: DiffV, j: int)
    requires
        0 <= j < acc.len(),
        diff_key(acc[j]) == diff_key(d),
        forall|k: int| 0 <= k < j ==> diff_key(acc[k]) != diff_key(d),
    ensures
        upsert_diff(acc, d) =~= acc.update(j, combine_diff(acc[j], d)),
    decreases acc.len(),
{
    if j == 0 {
        assert(upsert_diff(acc, d) =~= seq![combine_diff(acc[0], d)] + acc.drop_first());
        assert(seq![combine_diff(acc[0], d)] + acc.drop_first() =~= acc.update(
            0,
            combine_diff(acc[0], d),
        ));
    } else {
        assert forall|k: int| 0 <= k < j - 1 implies diff_key(acc.drop_first()[k]) != diff_key(
            d,
        ) by {
            assert(acc[k + 1] == acc.drop_first()[k]);
        }
        lemma_upsert_found(acc.drop_first(), d, j - 1);
        assert(upsert_diff(acc, d) =~= seq![acc[0]] + upsert_diff(acc.drop_first(), d));
        assert(seq![acc[0]] + acc.drop_first().update(j - 1, combine_diff(acc[j], d))
            =~= acc.update(j, combine_diff(acc[j], d)));
    }
}

/// When the incoming identity is absent, upserting appends a fresh entry.
pub proof fn lemma_upsert_missing(acc: Seq<DiffV>, d: DiffV)
    requires
        forall|k: int| 0 <= k < acc.len() ==> diff_key(acc[k]) != diff_key(d),
    ensures
        upsert_diff(acc, d) =~= acc.push(normalize_diff(d)),
    decreases acc.len(),
{
    if acc.len() > 0 {
        assert forall|k: int| 0 <= k < acc.drop_first().len() implies diff_key(
            acc.drop_first()[k],
        ) != diff_key(d) by {
            assert(acc[k + 1] == acc.drop_first()[k]);
        }
        lemma_upsert_missing(acc.drop_first(), d);
        assert(seq![acc[0]] + acc.drop_first().push(normalize_diff(d)) =~= acc.push(
            normalize_diff(d),
        ));
    } else {
        assert(upsert_diff(acc, d) =~= seq![normalize_diff(d)]);
        assert(acc.push(normalize_diff(d)) =~= seq![normalize_diff(d)]);
    }
}

} // verus!
