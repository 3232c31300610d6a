use starview::envelope::decode_load_envelope;
use starview::envelope::decode_signup_envelope;
use starview::envelope::encode_api_load;
use starview::envelope::encode_asset_paths;
use starview::envelope::encode_data_headers;
use starview::envelope::encode_get_asset_path_request;
use starview::envelope::encode_signup_request;
use starview::envelope::encode_signup_response;
use starview::envelope::open_envelope;
use starview::envelope::seal_envelope;
use starview::models::ApiResponse;
use starview::models::AssetPathArchive;
use starview::models::AssetPathDiff;
use starview::models::AssetPaths;
use starview::models::AssetPathsFull;
use starview::models::AssetPathsInfo;
use starview::models::DataHeaders;
use starview::models::GetAssetPathRequest;
use starview::models::LoadResponse;
use starview::models::SignupRequest;
use starview::models::SignupResponse;
use starview::msgpack::ByteReader;

fn sample_paths() -> AssetPaths {
    AssetPaths {
        info: AssetPathsInfo {
            client_asset_version: "1.0".into(),
            target_asset_version: "2.0".into(),
            eventual_target_asset_version: "2.0".into(),
            is_initial: false,
            latest_maj_first_version: "2.0".into(),
        },
        full: AssetPathsFull {
            version: "2.0".into(),
            archive: vec![AssetPathArchive {
                location: "https://host/patch/gf/upload_assets/x/y.bin".into(),
                size: 100,
                sha256: "H1".into(),
            }],
        },
        diff: vec![AssetPathDiff {
            version: "2.0".into(),
            original_version: "1.0".into(),
            archive: vec![AssetPathArchive {
                location: "https://host/patch/gf/upload_assets/d/e.bin".into(),
                size: 7,
                sha256: "H2".into(),
            }],
        }],
        asset_version_hash: "deadbeef".into(),
    }
}

#[test]
fn test_encode_decode_base64_msgpack() {
    // A response carrying the example values: name "stella", level 254.
    let message = ApiResponse {
        data_headers: DataHeaders {
            short_udid: 1,
            viewer_id: 2,
            servertime: 3,
            result_code: 254,
            udid: Some("stella".to_string()),
        },
        data: LoadResponse {
            available_asset_version: "stella".to_string(),
        },
    };
    let bytes = encode_api_load(&message).unwrap();
    let encoded = seal_envelope(&bytes);
    let decoded = decode_load_envelope(&encoded).unwrap();
    assert_eq!(decoded.data.available_asset_version, "stella");
    assert_eq!(decoded.data_headers.result_code, 254);
    assert_eq!(decoded.data_headers.udid, Some("stella".to_string()));
}

#[test]
fn envelope_round_trip_signup() {
    let response = ApiResponse {
        data_headers: DataHeaders {
            short_udid: 218921312,
            viewer_id: 890659012,
            servertime: 1700000000,
            result_code: 1,
            udid: None,
        },
        data: SignupResponse {
            login_token: "login-token".into(),
            new_account: 1,
            sign: None,
            create_date: Some("today".into()),
            role_name: None,
            role_id: Some(12),
            server_name: None,
            server_id: None,
            time_used: None,
            account_name: None,
            login_mode: Some(2),
            login_type: None,
            credit_account: None,
            physical_value: None,
            role_level: Some(255),
            ip: None,
        },
    };
    let mut bytes: Vec<u8> = Vec::new();
    assert!(starview::msgpack::put_map_header(&mut bytes, 2));
    assert!(starview::msgpack::put_str(&mut bytes, "data_headers"));
    assert!(encode_data_headers(&mut bytes, &response.data_headers));
    assert!(starview::msgpack::put_str(&mut bytes, "data"));
    assert!(encode_signup_response(&mut bytes, &response.data));
    let sealed = seal_envelope(&bytes);
    let decoded = decode_signup_envelope(&sealed).unwrap();
    assert_eq!(decoded.data.login_token, "login-token");
    assert_eq!(decoded.data.role_level, Some(255));
    assert_eq!(decoded.data.create_date, Some("today".to_string()));
    assert_eq!(decoded.data_headers.short_udid, 218921312);
    assert_eq!(decoded.data_headers.viewer_id, 890659012);
}

#[test]
fn envelope_round_trip_asset_paths() {
    let paths = sample_paths();
    let mut bytes: Vec<u8> = Vec::new();
    assert!(encode_asset_paths(&mut bytes, &paths));
    let mut rd = ByteReader::new(&bytes);
    let decoded = rd.take_asset_paths().unwrap();
    assert!(rd.done());
    assert_eq!(decoded.info.target_asset_version, "2.0");
    assert_eq!(decoded.full.archive.len(), 1);
    assert_eq!(decoded.full.archive[0].sha256, "H1");
    assert_eq!(decoded.full.archive[0].size, 100);
    assert_eq!(decoded.diff.len(), 1);
    assert_eq!(decoded.diff[0].original_version, "1.0");
    assert_eq!(decoded.diff[0].archive[0].sha256, "H2");
    assert_eq!(decoded.asset_version_hash, "deadbeef");
}

#[test]
fn envelope_round_trip_signup_request() {
    let payload = SignupRequest::default();
    let bytes = encode_signup_request(&payload).unwrap();
    let mut rd = ByteReader::new(&bytes);
    let decoded = rd.take_signup_request().unwrap();
    assert!(rd.done());
    assert_eq!(decoded.media, "none");
    assert_eq!(decoded.device_id_bits, payload.device_id_bits);
    assert_eq!(decoded.storage_directory_path, payload.storage_directory_path);
}

#[test]
fn request_bytes_are_valid_msgpack() {
    // Decode the framed request with an independent MessagePack reader and
    // check the named fields arrive intact.
    let payload = GetAssetPathRequest::new("2.0".to_string(), 890659012);
    let bytes = encode_get_asset_path_request(&payload).unwrap();
    let value: serde_json::Value = rmp_serde::from_slice(&bytes).unwrap();
    let map = value.as_object().unwrap();
    assert_eq!(map.len(), 2);
    assert_eq!(map["target_asset_version"], serde_json::Value::String("2.0".into()));
    assert_eq!(map["viewer_id"], serde_json::Value::from(890659012u32));
}

#[test]
fn sealed_envelope_is_standard_base64() {
    let bytes: Vec<u8> = vec![0xde, 0xad, 0xbe, 0xef];
    let sealed = seal_envelope(&bytes);
    assert_eq!(sealed, "3q2+7w==");
    assert_eq!(open_envelope(&sealed).unwrap(), bytes);
    assert!(open_envelope("not base64!").is_none());
}

#[test]
fn malformed_envelopes_are_rejected() {
    assert!(decode_load_envelope("####").is_err());
    let empty = seal_envelope(&Vec::new());
    assert!(decode_load_envelope(&empty).is_err());
}
