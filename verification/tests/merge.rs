use starview::models::AssetPathArchive;
use starview::models::AssetPathDiff;
use starview::models::AssetPaths;
use starview::models::AssetPathsFull;
use starview::models::AssetPathsInfo;

fn info(tag: &str) -> AssetPathsInfo {
    AssetPathsInfo {
        client_asset_version: tag.to_string(),
        target_asset_version: "2.0".to_string(),
        eventual_target_asset_version: "2.0".to_string(),
        is_initial: false,
        latest_maj_first_version: "2.0".to_string(),
    }
}

fn archive(location: &str, size: u64, hash: &str) -> AssetPathArchive {
    AssetPathArchive {
        location: location.to_string(),
        size,
        sha256: hash.to_string(),
    }
}

fn manifest(tag: &str, full: Vec<AssetPathArchive>, diff: Vec<AssetPathDiff>) -> AssetPaths {
    AssetPaths {
        info: info(tag),
        full: AssetPathsFull { version: "2.0".to_string(), archive: full },
        diff,
        asset_version_hash: tag.to_string(),
    }
}

fn hash_set_of(paths: &AssetPaths) -> std::collections::BTreeSet<String> {
    paths.full.archive.iter().map(|a| a.sha256.clone()).collect()
}

#[test]
fn merge_unions_by_hash_first_wins() {
    let a = manifest(
        "a",
        vec![archive("a/one", 1, "H1"), archive("a/two", 2, "H2")],
        vec![],
    );
    let b = manifest(
        "b",
        vec![archive("b/one", 9, "H1"), archive("b/three", 3, "H3")],
        vec![],
    );
    let merged = a.extend(b);
    // Discovery order kept, first occurrence of each hash wins.
    let locations: Vec<&str> = merged.full.archive.iter().map(|x| x.location.as_str()).collect();
    assert_eq!(locations, vec!["a/one", "a/two", "b/three"]);
    // Top-level metadata stays the first manifest's.
    assert_eq!(merged.info.client_asset_version, "a");
    assert_eq!(merged.asset_version_hash, "a");
}

#[test]
fn merge_idempotent_hash_set() {
    let a = manifest(
        "a",
        vec![archive("a/one", 1, "H1"), archive("a/two", 2, "H2")],
        vec![AssetPathDiff {
            version: "2.0".to_string(),
            original_version: "1.0".to_string(),
            archive: vec![archive("a/d", 4, "H4")],
        }],
    );
    let b = manifest(
        "a",
        vec![archive("a/one", 1, "H1"), archive("a/two", 2, "H2")],
        vec![AssetPathDiff {
            version: "2.0".to_string(),
            original_version: "1.0".to_string(),
            archive: vec![archive("a/d", 4, "H4")],
        }],
    );
    let merged = a.extend(b);
    assert_eq!(merged.full.archive.len(), 2);
    assert_eq!(merged.diff.len(), 1);
    assert_eq!(merged.diff[0].archive.len(), 1);
    let baseline = manifest("a", vec![archive("a/one", 1, "H1"), archive("a/two", 2, "H2")], vec![]);
    assert_eq!(hash_set_of(&merged), hash_set_of(&baseline));
}

#[test]
fn merge_commutes_up_to_set_equality() {
    let a = manifest(
        "a",
        vec![archive("a/one", 1, "H1"), archive("a/two", 2, "H2")],
        vec![AssetPathDiff {
            version: "2.0".to_string(),
            original_version: "1.0".to_string(),
            archive: vec![archive("a/d", 4, "H4")],
        }],
    );
    let b = manifest(
        "b",
        vec![archive("b/three", 3, "H3"), archive("b/one", 9, "H1")],
        vec![AssetPathDiff {
            version: "2.0".to_string(),
            original_version: "1.0".to_string(),
            archive: vec![archive("b/d", 5, "H5")],
        }],
    );
    let a2 = manifest(
        "a",
        vec![archive("a/one", 1, "H1"), archive("a/two", 2, "H2")],
        vec![AssetPathDiff {
            version: "2.0".to_string(),
            original_version: "1.0".to_string(),
            archive: vec![archive("a/d", 4, "H4")],
        }],
    );
    let b2 = manifest(
        "b",
        vec![archive("b/three", 3, "H3"), archive("b/one", 9, "H1")],
        vec![AssetPathDiff {
            version: "2.0".to_string(),
            original_version: "1.0".to_string(),
            archive: vec![archive("b/d", 5, "H5")],
        }],
    );
    let ab = a.extend(b);
    let ba = b2.extend(a2);
    assert_eq!(hash_set_of(&ab), hash_set_of(&ba));
    let diff_hashes = |m: &AssetPaths| -> std::collections::BTreeSet<String> {
        m.diff
            .iter()
            .flat_map(|d| d.archive.iter().map(|x| x.sha256.clone()))
            .collect()
    };
    assert_eq!(diff_hashes(&ab), diff_hashes(&ba));
    // Provenance differs even though the sets agree.
    assert_eq!(ab.asset_version_hash, "a");
    assert_eq!(ba.asset_version_hash, "b");
}

#[test]
fn merge_unions_diffs_by_identity_pair() {
    let a = manifest(
        "a",
        vec![],
        vec![AssetPathDiff {
            version: "2.0".to_string(),
            original_version: "1.0".to_string(),
            archive: vec![archive("a/d", 4, "H4")],
        }],
    );
    let b = manifest(
        "b",
        vec![],
        vec![
            AssetPathDiff {
                version: "2.0".to_string(),
                original_version: "1.0".to_string(),
                archive: vec![archive("b/d", 5, "H4"), archive("b/e", 6, "H6")],
            },
            AssetPathDiff {
                version: "2.0".to_string(),
                original_version: "1.5".to_string(),
                archive: vec![archive("b/f", 7, "H7")],
            },
        ],
    );
    let merged = a.extend(b);
    assert_eq!(merged.diff.len(), 2);
    assert_eq!(merged.diff[0].original_version, "1.0");
    let first: Vec<&str> = merged.diff[0].archive.iter().map(|x| x.sha256.as_str()).collect();
    assert_eq!(first, vec!["H4", "H6"]);
    assert_eq!(merged.diff[1].original_version, "1.5");
}
