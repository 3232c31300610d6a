use starview::client::WafuriAPIClient;
use starview::crypto::get_request_checksum;
use starview::enums::AssetSize;
use starview::enums::DeviceType;
use starview::headers::Headers;

#[test]
fn test_generate_checksum() {
    let expected = "4749e61694c31600ad5e564bf22b8e3c68d8d26d";
    assert_eq!(
        get_request_checksum(
            "EA5D7426-42A6-474B-26B7-624F5F9B3AF102B3",
            "",
            "/api/index.php/tool/signup",
            "A="
        ),
        expected
    )
}

#[test]
fn checksum_is_deterministic() {
    let a = get_request_checksum("user", "77", "/api/x", "body");
    let b = get_request_checksum("user", "77", "/api/x", "body");
    assert_eq!(a, b);
    let c = get_request_checksum("user", "78", "/api/x", "body");
    assert_ne!(a, c);
}

#[test]
fn test_api_client_builder() {
    let uuid: String = "my-uuid".into();
    let short_uuid: u32 = 218921312;
    let login_token: String = "login-token".into();
    let viewer_id: u32 = 890659012;

    let client = WafuriAPIClient::builder()
        .uuid(uuid.clone())
        .short_uuid(short_uuid)
        .login_token(login_token.clone())
        .viewer_id(viewer_id)
        .build()
        .unwrap();

    assert_eq!(client.uuid, uuid);
    assert_eq!(client.short_uuid, Some(short_uuid));
    assert_eq!(client.login_token, Some(login_token));
    assert_eq!(client.viewer_id, Some(viewer_id));
}

#[test]
fn new_headers() {
    let headers = Headers::new();
    assert_eq!(headers.pairs.len(), 5);
    assert_eq!(headers.get("device_name").unwrap(), "stella");
}

#[test]
fn headers_insert_str() {
    let mut headers = Headers::new();
    let header_value: &str = "param";
    headers.insert_str("param", header_value);

    let inner = headers.get_cloned_inner();
    let found = inner.iter().find(|(n, _)| n == "param").unwrap();
    assert_eq!(found.1, header_value);
}

#[test]
fn signup_is_idempotent_once_logged_in() {
    let client = WafuriAPIClient::builder()
        .login_token("token".to_string())
        .build()
        .unwrap();
    assert!(client.signup_request().is_none());

    let fresh = WafuriAPIClient::builder().build().unwrap();
    assert!(fresh.signup_request().is_some());
}

#[test]
fn load_requires_viewer_session() {
    let client = WafuriAPIClient::builder().build().unwrap();
    assert!(client.load_request().is_none());
    let client = WafuriAPIClient::builder().viewer_id(9).build().unwrap();
    let req = client.load_request().unwrap();
    assert_eq!(req.path, "/api/index.php/load");
}

#[test]
fn signed_request_carries_signature_header() {
    let client = WafuriAPIClient::builder()
        .uuid("EA5D7426-42A6-474B-26B7-624F5F9B3AF102B3".to_string())
        .build()
        .unwrap();
    let req = client.build_post("tool/signup", "A=".to_string());
    assert_eq!(req.path, "/api/index.php/tool/signup");
    assert_eq!(req.url, "https://shijtswygamegf.leiting.com/api/index.php/tool/signup");
    assert_eq!(
        req.headers.get("param").unwrap(),
        "4749e61694c31600ad5e564bf22b8e3c68d8d26d"
    );
}

#[test]
fn all_variant_issues_two_asset_path_calls() {
    let client = WafuriAPIClient::builder()
        .viewer_id(5)
        .device_type(DeviceType::All)
        .build()
        .unwrap();
    let reqs = client
        .get_asset_path_requests("2.0", AssetSize::Full)
        .unwrap()
        .unwrap();
    assert_eq!(reqs.len(), 2);
    assert_eq!(reqs[0].headers.get("device").unwrap(), "2");
    assert_eq!(reqs[1].headers.get("device").unwrap(), "1");
    assert_eq!(reqs[0].headers.get("asset_size").unwrap(), "fulfill");

    let single = WafuriAPIClient::builder()
        .viewer_id(5)
        .device_type(DeviceType::Ios)
        .build()
        .unwrap();
    let reqs = single
        .get_asset_version_info_requests("2.0")
        .unwrap()
        .unwrap();
    assert_eq!(reqs.len(), 1);
    assert_eq!(reqs[0].headers.get("device").unwrap(), "1");
}

#[test]
fn wire_names() {
    assert_eq!(AssetSize::Full.to_string(), "fulfill");
    assert_eq!(AssetSize::Short.to_string(), "shortened");
    assert_eq!(DeviceType::Ios.to_string(), "1");
    assert_eq!(DeviceType::Android.to_string(), "2");
    assert_eq!(DeviceType::All.to_string(), "3");
}
