use starview::cache::FetchCache;
use starview::download::get_url_out_path;
use starview::download::join_path;
use starview::download::retry_schedule;
use starview::download::split_outcomes;
use starview::download::DownloadConfig;
use starview::download::DownloadState;
use starview::download::Downloader;
use starview::enums::AssetSize;
use starview::enums::DeviceType;
use starview::fetch::download_url_strip_prefix;
use starview::fetch::files_list_locations;
use starview::fetch::plan_asset_downloads;
use starview::fetch::FetchConfig;
use starview::fetch::FetchState;
use starview::fetch::Fetcher;
use starview::models::ApiResponse;
use starview::models::AssetPathArchive;
use starview::models::AssetPathDiff;
use starview::models::AssetPaths;
use starview::models::AssetPathsFull;
use starview::models::AssetPathsInfo;
use starview::models::AssetVersionInfo;
use starview::models::DataHeaders;
use starview::models::LoadResponse;
use starview::models::SignupResponse;

fn stub_signup_response() -> ApiResponse<SignupResponse> {
    ApiResponse {
        data_headers: DataHeaders {
            short_udid: 7,
            viewer_id: 42,
            servertime: 1,
            result_code: 1,
            udid: None,
        },
        data: SignupResponse {
            login_token: "tok".into(),
            new_account: 1,
            sign: None,
            create_date: None,
            role_name: None,
            role_id: None,
            server_name: None,
            server_id: None,
            time_used: None,
            account_name: None,
            login_mode: None,
            login_type: None,
            credit_account: None,
            physical_value: None,
            role_level: None,
            ip: None,
        },
    }
}

fn stub_manifest(client_version: &str, archives: Vec<AssetPathArchive>) -> AssetPaths {
    AssetPaths {
        info: AssetPathsInfo {
            client_asset_version: client_version.to_string(),
            target_asset_version: "2.0".to_string(),
            eventual_target_asset_version: "2.0".to_string(),
            is_initial: false,
            latest_maj_first_version: "2.0".to_string(),
        },
        full: AssetPathsFull {
            version: "2.0".to_string(),
            archive: archives,
        },
        diff: Vec::new(),
        asset_version_hash: "h".to_string(),
    }
}

fn archive(location: &str, size: u64, hash: &str) -> AssetPathArchive {
    AssetPathArchive {
        location: location.to_string(),
        size,
        sha256: hash.to_string(),
    }
}

#[test]
fn destination_derivation() {
    // The documented example: strip the configured prefix and the leading
    // separator, then join onto the output root.
    let parsed = url::Url::parse("https://host/patch/gf/upload_assets/x/y.bin").unwrap();
    let out = get_url_out_path(parsed.path(), "out/", &Some(download_url_strip_prefix().to_string()));
    assert_eq!(out, "out/x/y.bin");
}

#[test]
fn destination_without_prefix_match_keeps_whole_path() {
    let out = get_url_out_path("/other/z.bin", "out", &Some("/patch/gf/upload_assets".to_string()));
    assert_eq!(out, "out/other/z.bin");
    let out = get_url_out_path("/a/b.bin", "out", &None);
    assert_eq!(out, "out/a/b.bin");
}

#[test]
fn destination_joins_stripped_remainder_even_without_separator() {
    // Stripping the prefix leaves "x" with no leading separator; the
    // stripped remainder is still what lands under the output root.
    let out = get_url_out_path("/px", "o", &Some("/p".to_string()));
    assert_eq!(out, "o/x");
}

#[test]
fn join_path_is_plain() {
    assert_eq!(join_path("out", "x/y.bin"), "out/x/y.bin");
    assert_eq!(join_path("out/", "x/y.bin"), "out/x/y.bin");
    assert_eq!(join_path("", "x/y.bin"), "x/y.bin");
    assert_eq!(join_path("out", "/abs.bin"), "/abs.bin");
}

#[test]
fn retry_schedule_doubles_from_base() {
    assert_eq!(retry_schedule(500, 3), vec![500, 1000, 2000]);
    assert_eq!(retry_schedule(1, 0), Vec::<u64>::new());
    let capped = retry_schedule(u64::MAX / 2 + 1, 2);
    assert_eq!(capped, vec![u64::MAX / 2 + 1, u64::MAX]);
}

#[test]
fn downloader_state_machine_announces_then_finishes_last() {
    let config = DownloadConfig::builder()
        .urls(vec!["https://host/patch/gf/upload_assets/x/y.bin".to_string()])
        .out_path("out".to_string())
        .url_strip_prefix(download_url_strip_prefix().to_string())
        .concurrency(4)
        .build();
    let (mut downloader, state) = Downloader::new(config);
    assert_eq!(state, DownloadState::NotStarted);
    let units = downloader.make_units().unwrap();
    assert_eq!(units.len(), 1);
    assert_eq!(units[0].1, "out/x/y.bin");
    assert_eq!(downloader.start(1), DownloadState::DownloadStart(1));
    assert_eq!(downloader.record_outcome(true, 100), DownloadState::FileDownload(100));
    assert_eq!(downloader.finish(), DownloadState::Finish);
}

#[test]
fn failure_isolation() {
    // Three units; the middle one always fails.
    let urls = vec!["u0".to_string(), "u1".to_string(), "u2".to_string()];
    let ok = vec![true, false, true];
    let (succeeded, failures) = split_outcomes(&urls, &ok);
    assert_eq!(succeeded, vec!["u0".to_string(), "u2".to_string()]);
    assert_eq!(failures, 1);

    // The resulting hash set excludes the failed unit's hash.
    let config = FetchConfig::new(None, Some(DeviceType::Android), None);
    let mut fetcher = Fetcher::assemble(config, None).unwrap();
    let manifest = stub_manifest(
        "1.0",
        vec![archive("a", 1, "H0"), archive("b", 2, "H1"), archive("c", 3, "H2")],
    );
    fetcher.apply_asset_info(manifest, Vec::new());
    let paths = fetcher.cache.asset_paths.clone().unwrap();
    let plan = plan_asset_downloads(&fetcher.cache, &paths);
    assert_eq!(plan.units.len(), 3);
    fetcher.finish_asset_downloads(&plan, &ok);
    assert_eq!(
        fetcher.cache.downloaded_asset_hashes,
        vec!["H0".to_string(), "H2".to_string()]
    );
}

#[test]
fn cache_validity_requires_matching_variant() {
    // A cached record for another device variant must never short-circuit
    // resolution, whatever version it records.
    let mut cached = FetchCache::new("id".to_string(), DeviceType::Ios);
    cached.asset_paths = Some(stub_manifest("2.0", vec![]));
    let config = FetchConfig::new(None, Some(DeviceType::Android), None);
    let fetcher = Fetcher::assemble(config, Some(cached)).unwrap();
    assert!(!fetcher.asset_info_plan("2.0"));

    let mut cached = FetchCache::new("id".to_string(), DeviceType::Android);
    cached.asset_paths = Some(stub_manifest("2.0", vec![]));
    let config = FetchConfig::new(None, Some(DeviceType::Android), None);
    let fetcher = Fetcher::assemble(config, Some(cached)).unwrap();
    assert!(fetcher.asset_info_plan("2.0"));
    assert!(!fetcher.asset_info_plan("3.0"));
}

#[test]
fn dedup_skips_hashes_already_downloaded() {
    let config = FetchConfig::new(None, Some(DeviceType::Android), None);
    let mut fetcher = Fetcher::assemble(config, None).unwrap();
    let manifest = stub_manifest("1.0", vec![archive("a", 1, "H1"), archive("b", 2, "H2")]);
    fetcher.apply_asset_info(manifest, Vec::new());
    fetcher.cache.downloaded_asset_hashes = vec!["H1".to_string()];
    let paths = fetcher.cache.asset_paths.clone().unwrap();
    let plan = plan_asset_downloads(&fetcher.cache, &paths);
    assert_eq!(plan.units.len(), 1);
    assert_eq!(plan.units[0].hash, "H2");
    assert_eq!(plan.carried, vec!["H1".to_string()]);
    assert_eq!(plan.total_bytes, 2);
}

#[test]
fn files_list_takes_first_two() {
    let info = |n: &str| AssetVersionInfo {
        base_url: "https://host/".to_string(),
        files_list: n.to_string(),
        total_size: 1,
        delayed_assets_size: 0,
    };
    let lists = files_list_locations(&vec![info("a"), info("b"), info("c")]);
    assert_eq!(lists, vec!["a".to_string(), "b".to_string()]);
    let lists = files_list_locations(&vec![info("a")]);
    assert_eq!(lists, vec!["a".to_string()]);
}

#[test]
fn fresh_run_full_download_pass() {
    // A fresh run: no cache file, a stub service publishing version "2.0"
    // with one 100-byte archive of hash H1.
    let config = FetchConfig::new(None, Some(DeviceType::Android), None);
    let mut fetcher = Fetcher::assemble(config, None).unwrap();
    assert_eq!(*fetcher.state.latest(), FetchState::Idle);

    // Register a session, then apply the stub's response.
    assert!(fetcher.client.signup_request().is_some());
    let signup = stub_signup_response();
    fetcher.client.apply_signup(&signup);
    assert_eq!(fetcher.client.viewer_id, Some(42));

    // The stub's profile says version "2.0"; no cache, so resolve fresh.
    assert!(fetcher.client.load_request().is_some());
    let version = "2.0".to_string();
    assert!(!fetcher.asset_info_plan(&version));
    let requests = fetcher
        .client
        .get_asset_path_requests(&version, AssetSize::Full)
        .unwrap()
        .unwrap();
    assert_eq!(requests.len(), 1);

    // The stub returns one full archive; stamp and store it.
    let manifest = stub_manifest(
        "1.0",
        vec![archive("https://host/patch/gf/upload_assets/x/y.bin", 100, "H1")],
    );
    fetcher.apply_asset_info(manifest, Vec::new());
    assert!(fetcher.asset_info_plan(&version));

    // One unit of 100 bytes to download, landing under the output root.
    let paths = fetcher.cache.asset_paths.clone().unwrap();
    let plan = plan_asset_downloads(&fetcher.cache, &paths);
    assert_eq!(plan.units.len(), 1);
    assert_eq!(plan.total_bytes, 100);
    let config = DownloadConfig::builder()
        .urls(vec![plan.units[0].location.clone()])
        .out_path("out".to_string())
        .url_strip_prefix(download_url_strip_prefix().to_string())
        .concurrency(4)
        .build();
    let (mut downloader, _) = Downloader::new(config);
    let units = downloader.make_units().unwrap();
    assert_eq!(units[0].1, "out/x/y.bin");
    assert_eq!(downloader.start(1), DownloadState::DownloadStart(1));
    assert_eq!(downloader.record_outcome(true, 100), DownloadState::FileDownload(100));
    assert_eq!(downloader.finish(), DownloadState::Finish);

    // Reconcile: the cache records the configured variant and {H1}.
    fetcher.finish_asset_downloads(&plan, &vec![true]);
    assert_eq!(fetcher.cache.device_type, DeviceType::Android);
    assert_eq!(fetcher.cache.downloaded_asset_hashes, vec!["H1".to_string()]);
    assert_eq!(fetcher.cache.udid, fetcher.client.uuid);
}

#[test]
fn unparseable_location_fails_unit_derivation() {
    let config = DownloadConfig::builder()
        .urls(vec!["not a url".to_string()])
        .out_path("out".to_string())
        .build();
    let (downloader, _) = Downloader::new(config);
    assert!(downloader.make_units().is_err());
}
