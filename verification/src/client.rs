//! The protocol client's decision core: session state, request construction
//! with signing, and the handling of server responses. The driver performs
//! the HTTP exchange; everything it sends is assembled and signed here, and
//! everything it receives is applied here.

use vstd::prelude::*;
use vstd::string::*;
use crate::api_url;
use crate::crypto::checksum_spec;
use crate::crypto::get_request_checksum;
use crate::enums::AssetSize;
use crate::enums::DeviceType;
use crate::errors::NetError;
use crate::envelope::encode_get_asset_path_request;
use crate::envelope::encode_get_asset_version_info_request;
use crate::envelope::encode_load_request;
use crate::envelope::encode_signup_request;
use crate::envelope::seal_envelope;
use crate::headers::Headers;
use crate::headers::lookup;
use crate::headers::lemma_lookup_insert;
use crate::headers::spec_insert;
use crate::models::ApiResponse;
use crate::models::GetAssetPathRequest;
use crate::models::GetAssetVersionInfoRequest;
use crate::models::LoadRequest;
use crate::models::SignupRequest;
use crate::models::SignupResponse;
use crate::outside;
use crate::strutil::dec_digits;
use crate::strutil::u32_to_string;

verus! {

/// One fully assembled, signed call: the URL to post to, the path component
/// the signature covers, the sealed body, and every header to attach.
#[derive(Debug)]
pub struct SignedRequest {
    pub url: String,
    pub path: String,
    pub body: String,
    pub headers: Headers,
}

/// API client state for the game service. Holds no sockets: the driver
/// posts the requests this produces and feeds the decoded responses back.
#[derive(Debug)]
pub struct WafuriAPIClient {
    /// The API user's self-generated session identity.
    pub uuid: String,
    /// The user id the server assigned; not known until login.
    pub short_uuid: Option<u32>,
    /// The token required for authenticated endpoints.
    pub login_token: Option<String>,
    /// The server-issued session handle; no authenticated call may be
    /// attempted before it exists.
    pub viewer_id: Option<u32>,
    /// The fixed identification headers, plus any session headers set.
    pub headers: Headers,
    /// The service's base URL, ending in a separator.
    pub api_host: String,
    /// The path component of `api_host`, which signatures cover.
    pub api_path: String,
    /// The platform this client resolves assets for.
    pub device_type: DeviceType,
}

impl WafuriAPIClient {
    /// The viewer id as the signature sees it: its decimal digits, or the
    /// empty string before login.
    pub open spec fn viewer_id_chars(&self) -> Seq<char> {
        match self.viewer_id {
            Some(v) => dec_digits(v as nat),
            None => Seq::empty(),
        }
    }

    pub fn builder() -> (r: WafuriAPIClientBuilder)
        ensures
            r.uuid is None && r.short_uuid is None && r.login_token is None && r.viewer_id
                is None && r.api_host is None && r.device_type is None,
    {
        WafuriAPIClientBuilder::new()
    }

    /// Assembles a signed POST: the body is signed together with the
    /// session identity, the viewer id (or empty), and the URL's path.
    pub fn build_post(&self, relative: &str, body: String) -> (r: SignedRequest)
        ensures
            r.url@ == self.api_host@ + relative@,
            r.path@ == self.api_path@ + relative@,
            r.body == body,
            r.headers@ == spec_insert(
                self.headers@,
                "param"@,
                checksum_spec(self.uuid@, self.viewer_id_chars(), self.api_path@ + relative@, body@),
            ),
            lookup(r.headers@, "param"@) == Some(
                checksum_spec(self.uuid@, self.viewer_id_chars(), self.api_path@ + relative@, body@),
            ),
            self.headers.wf() ==> r.headers.wf(),
    {
        let mut url = self.api_host.clone();
        url.append(relative);
        let mut path = self.api_path.clone();
        path.append(relative);
        let viewer = match &self.viewer_id {
            Some(v) => u32_to_string(*v),
            None => String::new(),
        };
        let checksum = get_request_checksum(
            self.uuid.as_str(),
            viewer.as_str(),
            path.as_str(),
            body.as_str(),
        );
        let mut headers = Headers { pairs: self.headers.get_cloned_inner() };
        headers.insert_str("param", checksum.as_str());
        proof {
            lemma_lookup_insert(self.headers@, "param"@, checksum@);
        }
        SignedRequest { url, path, body, headers }
    }

    /// Sets the login token and files it as a header.
    pub fn set_login_token(&mut self, login_token: String)
        ensures
            final(self).login_token == Some(login_token),
            final(self).headers@ == spec_insert(old(self).headers@, "login_token"@, login_token@),
            *final(self) == (WafuriAPIClient {
                login_token: final(self).login_token,
                headers: final(self).headers,
                ..*old(self)
            }),
    {
        self.headers.insert_str("login_token", login_token.as_str());
        self.login_token = Some(login_token);
    }

    /// Sets the server-assigned user id and files it as a header.
    pub fn set_short_uuid(&mut self, short_uuid: u32)
        ensures
            final(self).short_uuid == Some(short_uuid),
            final(self).headers@ == spec_insert(
                old(self).headers@,
                "short_udid"@,
                dec_digits(short_uuid as nat),
            ),
            *final(self) == (WafuriAPIClient {
                short_uuid: final(self).short_uuid,
                headers: final(self).headers,
                ..*old(self)
            }),
    {
        let rendered = u32_to_string(short_uuid);
        self.headers.insert_str("short_udid", rendered.as_str());
        self.short_uuid = Some(short_uuid);
    }

    /// The register-session call. A client that already holds a login token
    /// is already registered: the call is a no-op, never a re-registration.
    pub fn signup_request(&self) -> (r: Option<SignedRequest>)
        ensures
            (r is None) == (self.login_token is Some),
            r matches Some(req) ==> req.path@ == self.api_path@ + "tool/signup"@ && lookup(
                req.headers@,
                "param"@,
            ) == Some(
                checksum_spec(self.uuid@, self.viewer_id_chars(), req.path@, req.body@),
            ),
    {
        if self.login_token.is_some() {
            return None;
        }
        let payload = SignupRequest::default();
        let bytes = match encode_signup_request(&payload) {
            Ok(b) => b,
            Err(_) => {
                proof {
                    crate::envelope::lemma_default_signup_wf(payload);
                }
                assert(false);
                return None;
            },
        };
        let body = seal_envelope(&bytes);
        Some(self.build_post(api_url::tool_signup(), body))
    }

    /// Applies a successful register-session response: stores the login
    /// token, the short user id, and the viewer session id.
    pub fn apply_signup(&mut self, resp: &ApiResponse<SignupResponse>)
        ensures
            final(self).login_token == Some(resp.data.login_token),
            final(self).short_uuid == Some(resp.data_headers.short_udid),
            final(self).viewer_id == Some(resp.data_headers.viewer_id),
            final(self).headers@ == spec_insert(
                spec_insert(old(self).headers@, "login_token"@, resp.data.login_token@),
                "short_udid"@,
                dec_digits(resp.data_headers.short_udid as nat),
            ),
            final(self).uuid == old(self).uuid,
            final(self).device_type == old(self).device_type,
            final(self).api_host == old(self).api_host,
            final(self).api_path == old(self).api_path,
    {
        self.set_login_token(resp.data.login_token.clone());
        self.set_short_uuid(resp.data_headers.short_udid);
        self.viewer_id = Some(resp.data_headers.viewer_id);
    }

    /// The load-profile call. Unavailable — not an error — while no viewer
    /// session exists.
    pub fn load_request(&self) -> (r: Option<SignedRequest>)
        ensures
            (r is None) == (self.viewer_id is None),
            r matches Some(req) ==> req.path@ == self.api_path@ + "load"@ && lookup(
                req.headers@,
                "param"@,
            ) == Some(
                checksum_spec(self.uuid@, self.viewer_id_chars(), req.path@, req.body@),
            ),
    {
        let viewer_id = match &self.viewer_id {
            Some(v) => *v,
            None => {
                return None;
            },
        };
        let payload = LoadRequest::from_viewer_id(viewer_id);
        let bytes = match encode_load_request(&payload) {
            Ok(b) => b,
            Err(_) => {
                proof {
                    crate::envelope::lemma_load_payload_wf(payload);
                }
                assert(false);
                return None;
            },
        };
        let body = seal_envelope(&bytes);
        Some(self.build_post(api_url::load(), body))
    }

    /// One resolve-asset-paths call for a concrete platform: the size class
    /// and the platform ride as headers on top of the signed request.
    pub fn get_asset_path_device_type(
        &self,
        target_asset_version: &str,
        asset_size: AssetSize,
        device_type: DeviceType,
    ) -> (r: Result<Option<SignedRequest>, NetError>)
        ensures
            self.viewer_id is None ==> r == Result::<Option<SignedRequest>, NetError>::Ok(None),
            self.viewer_id is Some ==> ((r is Err) == !crate::codec::wf_chars(
                target_asset_version@,
            )),
            self.viewer_id is Some && crate::codec::wf_chars(target_asset_version@)
                ==> r matches Ok(Some(_)),
            r matches Ok(Some(req)) ==> req.path@ == self.api_path@ + "asset/get_path"@ && lookup(
                req.headers@,
                "asset_size"@,
            ) == Some(asset_size.wire_name()) && lookup(req.headers@, "device"@) == Some(
                device_type.wire_name(),
            ),
    {
        let viewer_id = match &self.viewer_id {
            Some(v) => *v,
            None => {
                return Ok(None);
            },
        };
        let payload = GetAssetPathRequest::new(String::from_str(target_asset_version), viewer_id);
        let bytes = match encode_get_asset_path_request(&payload) {
            Ok(b) => b,
            Err(e) => {
                return Err(e);
            },
        };
        let body = seal_envelope(&bytes);
        let mut req = self.build_post(api_url::asset_get_path(), body);
        let size_name = asset_size.to_string();
        let device_name = device_type.to_string();
        let ghost h0 = req.headers@;
        req.headers.insert_str("asset_size", size_name.as_str());
        let ghost h1 = req.headers@;
        req.headers.insert_str("device", device_name.as_str());
        proof {
            reveal_strlit("asset_size");
            reveal_strlit("device");
            assert("asset_size"@.len() == 10 && "device"@.len() == 6);
            lemma_lookup_insert(h0, "asset_size"@, asset_size.wire_name());
            lemma_lookup_insert(h1, "device"@, device_type.wire_name());
        }
        Ok(Some(req))
    }

    /// The resolve-asset-paths calls to issue: one for a concrete platform,
    /// two — one per platform, merged by the caller — when resolving for
    /// every platform. Both must succeed before any merge.
    pub fn get_asset_path_requests(
        &self,
        target_asset_version: &str,
        asset_size: AssetSize,
    ) -> (r: Result<Option<Vec<SignedRequest>>, NetError>)
        ensures
            self.viewer_id is None ==> r == Result::<Option<Vec<SignedRequest>>, NetError>::Ok(
                None,
            ),
            self.viewer_id is Some ==> ((r is Err) == !crate::codec::wf_chars(
                target_asset_version@,
            )),
            self.viewer_id is Some && crate::codec::wf_chars(target_asset_version@)
                ==> r matches Ok(Some(_)),
            r matches Ok(Some(reqs)) ==> {
                &&& reqs@.len() == (if self.device_type == DeviceType::All {
                    2int
                } else {
                    1int
                })
                &&& forall|i: int|
                    0 <= i < reqs@.len() ==> (#[trigger] reqs@[i]).path@ == self.api_path@
                        + "asset/get_path"@ && lookup(reqs@[i].headers@, "asset_size"@) == Some(
                        asset_size.wire_name(),
                    ) && (lookup(reqs@[i].headers@, "device"@) == Some(
                        DeviceType::Android.wire_name(),
                    ) || lookup(reqs@[i].headers@, "device"@) == Some(DeviceType::Ios.wire_name()))
                &&& (self.device_type == DeviceType::All ==> lookup(
                    reqs@[0].headers@,
                    "device"@,
                ) == Some(DeviceType::Android.wire_name()) && lookup(reqs@[1].headers@, "device"@)
                    == Some(DeviceType::Ios.wire_name()))
                &&& (self.device_type != DeviceType::All ==> lookup(reqs@[0].headers@, "device"@)
                    == Some(self.device_type.wire_name()))
            },
    {
        match self.device_type {
            DeviceType::Android | DeviceType::Ios => {
                match self.get_asset_path_device_type(
                    target_asset_version,
                    asset_size,
                    self.device_type,
                ) {
                    Ok(Some(req)) => {
                        let mut v: Vec<SignedRequest> = Vec::new();
                        v.push(req);
                        assert(v@[0] == req);
                        Ok(Some(v))
                    },
                    Ok(None) => Ok(None),
                    Err(e) => Err(e),
                }
            },
            DeviceType::All => {
                let android = match self.get_asset_path_device_type(
                    target_asset_version,
                    asset_size,
                    DeviceType::Android,
                ) {
                    Ok(Some(req)) => req,
                    Ok(None) => {
                        return Ok(None);
                    },
                    Err(e) => {
                        return Err(e);
                    },
                };
                let ios = match self.get_asset_path_device_type(
                    target_asset_version,
                    asset_size,
                    DeviceType::Ios,
                ) {
                    Ok(Some(req)) => req,
                    Ok(None) => {
                        return Ok(None);
                    },
                    Err(e) => {
                        return Err(e);
                    },
                };
                let mut v: Vec<SignedRequest> = Vec::new();
                v.push(android);
                v.push(ios);
                assert(v@.len() == 2 && v@[0] == android && v@[1] == ios);
                Ok(Some(v))
            },
        }
    }

    /// One resolve-version-info call for a concrete platform.
    pub fn get_asset_version_info_device_type(
        &self,
        asset_version: &str,
        device_type: DeviceType,
    ) -> (r: Result<Option<SignedRequest>, NetError>)
        ensures
            self.viewer_id is None ==> r == Result::<Option<SignedRequest>, NetError>::Ok(None),
            self.viewer_id is Some ==> ((r is Err) == !crate::codec::wf_chars(asset_version@)),
            self.viewer_id is Some && crate::codec::wf_chars(asset_version@) ==> r matches Ok(
                Some(_),
            ),
            r matches Ok(Some(req)) ==> req.path@ == self.api_path@ + "asset/version_info"@
                && lookup(req.headers@, "device"@) == Some(device_type.wire_name()),
    {
        let viewer_id = match &self.viewer_id {
            Some(v) => *v,
            None => {
                return Ok(None);
            },
        };
        let payload = GetAssetVersionInfoRequest::new(String::from_str(asset_version), viewer_id);
        let bytes = match encode_get_asset_version_info_request(&payload) {
            Ok(b) => b,
            Err(e) => {
                return Err(e);
            },
        };
        let body = seal_envelope(&bytes);
        let mut req = self.build_post(api_url::asset_version_info(), body);
        let device_name = device_type.to_string();
        let ghost h0 = req.headers@;
        req.headers.insert_str("device", device_name.as_str());
        proof {
            lemma_lookup_insert(h0, "device"@, device_type.wire_name());
        }
        Ok(Some(req))
    }

    /// The resolve-version-info calls to issue, one per concrete platform.
    pub fn get_asset_version_info_requests(&self, asset_version: &str) -> (r: Result<
        Option<Vec<SignedRequest>>,
        NetError,
    >)
        ensures
            self.viewer_id is None ==> r == Result::<Option<Vec<SignedRequest>>, NetError>::Ok(
                None,
            ),
            self.viewer_id is Some ==> ((r is Err) == !crate::codec::wf_chars(asset_version@)),
            self.viewer_id is Some && crate::codec::wf_chars(asset_version@) ==> r matches Ok(
                Some(_),
            ),
            r matches Ok(Some(reqs)) ==> {
                &&& reqs@.len() == (if self.device_type == DeviceType::All {
                    2int
                } else {
                    1int
                })
                &&& forall|i: int|
                    0 <= i < reqs@.len() ==> (#[trigger] reqs@[i]).path@ == self.api_path@
                        + "asset/version_info"@ && (lookup(reqs@[i].headers@, "device"@) == Some(
                        DeviceType::Android.wire_name(),
                    ) || lookup(reqs@[i].headers@, "device"@) == Some(DeviceType::Ios.wire_name()))
                &&& (self.device_type == DeviceType::All ==> lookup(
                    reqs@[0].headers@,
                    "device"@,
                ) == Some(DeviceType::Android.wire_name()) && lookup(reqs@[1].headers@, "device"@)
                    == Some(DeviceType::Ios.wire_name()))
                &&& (self.device_type != DeviceType::All ==> lookup(reqs@[0].headers@, "device"@)
                    == Some(self.device_type.wire_name()))
            },
    {
        match self.device_type {
            DeviceType::Android | DeviceType::Ios => {
                match self.get_asset_version_info_device_type(asset_version, self.device_type) {
                    Ok(Some(req)) => {
                        let mut v: Vec<SignedRequest> = Vec::new();
                        v.push(req);
                        assert(v@[0] == req);
                        Ok(Some(v))
                    },
                    Ok(None) => Ok(None),
                    Err(e) => Err(e),
                }
            },
            DeviceType::All => {
                let android = match self.get_asset_version_info_device_type(
                    asset_version,
                    DeviceType::Android,
                ) {
                    Ok(Some(req)) => req,
                    Ok(None) => {
                        return Ok(None);
                    },
                    Err(e) => {
                        return Err(e);
                    },
                };
                let ios = match self.get_asset_version_info_device_type(
                    asset_version,
                    DeviceType::Ios,
                ) {
                    Ok(Some(req)) => req,
                    Ok(None) => {
                        return Ok(None);
                    },
                    Err(e) => {
                        return Err(e);
                    },
                };
                let mut v: Vec<SignedRequest> = Vec::new();
                v.push(android);
                v.push(ios);
                assert(v@.len() == 2 && v@[0] == android && v@[1] == ios);
                Ok(Some(v))
            },
        }
    }
}

/// The host a builder will call: the one set, or the stock one.
pub open spec fn chosen_api_host(b: WafuriAPIClientBuilder) -> Seq<char> {
    match b.api_host {
        Some(h) => h@,
        None => "https://shijtswygamegf.leiting.com/api/index.php/"@,
    }
}

/// Builder for the client; unset knobs get the stock values.
#[derive(Debug)]
pub struct WafuriAPIClientBuilder {
    pub uuid: Option<String>,
    pub short_uuid: Option<u32>,
    pub login_token: Option<String>,
    pub viewer_id: Option<u32>,
    pub api_host: Option<String>,
    pub device_type: Option<DeviceType>,
}

impl WafuriAPIClientBuilder {
    pub fn new() -> (r: Self)
        ensures
            r.uuid is None && r.short_uuid is None && r.login_token is None && r.viewer_id
                is None && r.api_host is None && r.device_type is None,
    {
        WafuriAPIClientBuilder {
            uuid: None,
            short_uuid: None,
            login_token: None,
            viewer_id: None,
            api_host: None,
            device_type: None,
        }
    }

    /// Sets this client's session identity.
    pub fn uuid(self, uuid: String) -> (r: Self)
        ensures
            r == (WafuriAPIClientBuilder { uuid: Some(uuid), ..self }),
    {
        WafuriAPIClientBuilder { uuid: Some(uuid), ..self }
    }

    /// Sets the user id the server assigned previously.
    pub fn short_uuid(self, short_uuid: u32) -> (r: Self)
        ensures
            r == (WafuriAPIClientBuilder { short_uuid: Some(short_uuid), ..self }),
    {
        WafuriAPIClientBuilder { short_uuid: Some(short_uuid), ..self }
    }

    /// Sets the login token for authenticated requests.
    pub fn login_token(self, login_token: String) -> (r: Self)
        ensures
            r == (WafuriAPIClientBuilder { login_token: Some(login_token), ..self }),
    {
        WafuriAPIClientBuilder { login_token: Some(login_token), ..self }
    }

    /// Sets the viewer session handle.
    pub fn viewer_id(self, viewer_id: u32) -> (r: Self)
        ensures
            r == (WafuriAPIClientBuilder { viewer_id: Some(viewer_id), ..self }),
    {
        WafuriAPIClientBuilder { viewer_id: Some(viewer_id), ..self }
    }

    /// Sets the base URL the client will call.
    pub fn api_host(self, api_host: String) -> (r: Self)
        ensures
            r == (WafuriAPIClientBuilder { api_host: Some(api_host), ..self }),
    {
        WafuriAPIClientBuilder { api_host: Some(api_host), ..self }
    }

    /// Sets the platform the client resolves assets for.
    pub fn device_type(self, device_type: DeviceType) -> (r: Self)
        ensures
            r == (WafuriAPIClientBuilder { device_type: Some(device_type), ..self }),
    {
        WafuriAPIClientBuilder { device_type: Some(device_type), ..self }
    }

    /// Builds the client. A missing identity gets a fresh random one; a
    /// missing host gets the stock one; a missing platform means the
    /// primary platform. Fails exactly when the url crate rejects the
    /// chosen host.
    pub fn build(self) -> (r: Result<WafuriAPIClient, NetError>)
        ensures
            (r is Err) == !outside::url_parse_ok(chosen_api_host(self)),
            r matches Ok(c) ==> {
                &&& (self.uuid matches Some(u) ==> c.uuid == u)
                &&& c.short_uuid == self.short_uuid
                &&& c.login_token == self.login_token
                &&& c.viewer_id == self.viewer_id
                &&& c.device_type == (match self.device_type {
                    Some(d) => d,
                    None => DeviceType::Android,
                })
                &&& c.api_host@ == chosen_api_host(self)
                &&& (self.api_host matches Some(h) ==> c.api_host == h)
                &&& c.api_path@ == outside::url_path_of(c.api_host@)
                &&& c.headers.wf()
                &&& (self.uuid matches Some(u) ==> lookup(c.headers@, "udid"@) == Some(u@))
                &&& (self.short_uuid matches Some(s) ==> lookup(c.headers@, "short_udid"@)
                    == Some(dec_digits(s as nat)))
                &&& (self.login_token matches Some(t) ==> lookup(c.headers@, "login_token"@)
                    == Some(t@))
            },
    {
        proof {
            reveal_strlit("udid");
            reveal_strlit("short_udid");
            reveal_strlit("login_token");
            assert("udid"@.len() == 4 && "short_udid"@.len() == 10 && "login_token"@.len() == 11);
        }
        let uuid = match self.uuid {
            Some(u) => u,
            None => {
                let fresh = outside::new_uuid_string();
                crate::strutil::upper_hex_str(fresh.as_str())
            },
        };
        let device_type = match self.device_type {
            Some(d) => d,
            None => DeviceType::Android,
        };
        let api_host = match self.api_host {
            Some(h) => h,
            None => String::from_str(api_url::api_host()),
        };
        let api_path = match outside::url_path(api_host.as_str()) {
            Some(p) => p,
            None => {
                return Err(NetError::UrlParse(api_host));
            },
        };
        let mut headers = Headers::new();
        let ghost base = headers@;
        headers.insert_str("udid", uuid.as_str());
        proof {
            lemma_lookup_insert(base, "udid"@, uuid@);
        }
        let mut client = WafuriAPIClient {
            uuid,
            short_uuid: None,
            login_token: None,
            viewer_id: self.viewer_id,
            headers,
            api_host,
            api_path,
            device_type,
        };
        if let Some(short_uuid) = self.short_uuid {
            let ghost hv = client.headers@;
            client.set_short_uuid(short_uuid);
            proof {
                crate::headers::lemma_spec_insert_wf(
                    hv,
                    "short_udid"@,
                    dec_digits(short_uuid as nat),
                );
                lemma_lookup_insert(hv, "short_udid"@, dec_digits(short_uuid as nat));
            }
        }
        if let Some(login_token) = self.login_token {
            let ghost hv = client.headers@;
            let ghost tok = login_token@;
            client.set_login_token(login_token);
            proof {
                crate::headers::lemma_spec_insert_wf(hv, "login_token"@, tok);
                lemma_lookup_insert(hv, "login_token"@, tok);
            }
        }
        Ok(client)
    }
}

} // verus!
