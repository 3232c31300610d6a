//! The durable fetch cache record: session identity, device variant, the
//! last resolved manifest and version info, and the set of content hashes
//! already confirmed downloaded.

use vstd::prelude::*;
use crate::enums::DeviceType;
use crate::models::AssetPaths;
use crate::models::AssetVersionInfo;
use crate::strutil::str_eq;

verus! {

/// The persisted record. Loading and storing the file is the caller's
/// business; a load failure means "start fresh", never a hard error.
#[derive(Debug, Clone)]
pub struct FetchCache {
    pub device_type: DeviceType,
    pub udid: String,
    pub version_info: Vec<AssetVersionInfo>,
    pub asset_paths: Option<AssetPaths>,
    /// Content hashes of assets confirmed downloaded by the most recent
    /// pass; kept free of duplicates.
    pub downloaded_asset_hashes: Vec<String>,
}

/// The set of character strings in a vector of strings.
pub open spec fn string_set(v: Seq<String>) -> Set<Seq<char>> {
    Set::new(|h: Seq<char>| exists|i: int| 0 <= i < v.len() && v[i]@ == h)
}

impl FetchCache {
    /// The hashes this cache claims are already on disk.
    pub open spec fn hash_set(&self) -> Set<Seq<char>> {
        string_set(self.downloaded_asset_hashes@)
    }

    /// The hash list never files the same hash twice.
    pub open spec fn wf(&self) -> bool {
        forall|i: int, j: int|
            0 <= i < j < self.downloaded_asset_hashes@.len()
                ==> self.downloaded_asset_hashes@[i]@ != self.downloaded_asset_hashes@[j]@
    }

    /// The cache may be reused only if it holds a manifest whose recorded
    /// client version equals the version being requested, and its recorded
    /// device variant equals the configured one.
    pub open spec fn valid_for(&self, requested_version: Seq<char>, device: DeviceType) -> bool {
        &&& self.asset_paths matches Some(p) && p@.info.client_asset_version == requested_version
        &&& self.device_type == device
    }

    /// A fresh cache: the given identity, no manifest, no version info, and
    /// an empty hash set.
    pub fn new(udid: String, device_type: DeviceType) -> (r: Self)
        ensures
            r.udid == udid,
            r.device_type == device_type,
            r.version_info@.len() == 0,
            r.asset_paths is None,
            r.hash_set() =~= Set::<Seq<char>>::empty(),
            r.wf(),
    {
        let r = FetchCache {
            udid,
            device_type,
            version_info: Vec::new(),
            asset_paths: None,
            downloaded_asset_hashes: Vec::new(),
        };
        proof {
            assert(r.hash_set() =~= Set::<Seq<char>>::empty());
        }
        r
    }

    /// Whether `h` is recorded as already downloaded.
    pub fn contains_hash(&self, h: &str) -> (r: bool)
        ensures
            r == self.hash_set().contains(h@),
    {
        let v = &self.downloaded_asset_hashes;
        let mut i: usize = 0;
        while i < v.len()
            invariant
                0 <= i <= v@.len(),
                v == &self.downloaded_asset_hashes,
                forall|k: int| 0 <= k < i ==> v@[k]@ != h@,
            decreases v@.len() - i,
        {
            if str_eq(v[i].as_str(), h) {
                assert(self.hash_set().contains(h@));
                return true;
            }
            i += 1;
        }
        assert(!self.hash_set().contains(h@));
        false
    }

    /// Decides cache reuse, exactly per `valid_for`.
    pub fn is_valid_for(&self, requested_version: &str, device: DeviceType) -> (r: bool)
        ensures
            r == self.valid_for(requested_version@, device),
    {
        match &self.asset_paths {
            Some(p) => {
                str_eq(p.info.client_asset_version.as_str(), requested_version) && self.device_type
                    == device
            },
            None => false,
        }
    }
}

/// Law: a cached record whose device variant differs from the configured
/// one is never valid for reuse, whatever version it records. Resolution
/// must then fetch fresh data rather than short-circuit from the cache.
pub proof fn lemma_variant_change_invalidates(
    c: FetchCache,
    requested_version: Seq<char>,
    device: DeviceType,
)
    requires
        c.device_type != device,
    ensures
        !c.valid_for(requested_version, device),
{
}

} // verus!
