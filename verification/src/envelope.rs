//! Typed payload codecs: each request and response payload is a MessagePack
//! map of named fields in declaration order, and the wire envelope is that
//! byte string encoded as standard base64.
//!
//! Every decoder carries two clauses. Exactness: what it accepted is the
//! encoding of what it returned. Completeness: on the encoding of any
//! well-formed payload it succeeds and returns that payload. Together they
//! are the envelope round-trip laws, decode(encode(x)) == x and
//! encode(decode(y)) == y.

use vstd::prelude::*;
use crate::codec::concat_parts;
use crate::codec::kv_bool;
use crate::codec::kv_f32;
use crate::codec::kv_opt_str;
use crate::codec::kv_opt_uint;
use crate::codec::kv_str;
use crate::codec::kv_uint;
use crate::codec::lemma_parts_concat_starts_at;
use crate::codec::lemma_parts_starts_at;
use crate::codec::opt_u32_as_u64;
use crate::codec::opt_u8_as_u64;
use crate::codec::opt_view;
use crate::codec::parts_prefix_len;
use crate::codec::put_kv_bool;
use crate::codec::put_kv_f32;
use crate::codec::put_kv_opt_str;
use crate::codec::put_kv_opt_uint;
use crate::codec::put_kv_str;
use crate::codec::put_kv_uint;
use crate::codec::wf_chars;
use crate::codec::wf_opt_chars;
use crate::errors::NetError;
use crate::models::AssetPathArchive;
use crate::models::avs;
use crate::models::AssetPathDiff;
use crate::models::AssetPaths;
use crate::models::AssetPathsFull;
use crate::models::AssetPathsInfo;
use crate::models::AssetVersionInfo;
use crate::models::ApiResponse;
use crate::models::DataHeaders;
use crate::models::GetAssetPathRequest;
use crate::models::GetAssetVersionInfoRequest;
use crate::models::LoadRequest;
use crate::models::LoadResponse;
use crate::models::SignupRequest;
use crate::models::SignupResponse;
use crate::msgpack::ByteReader;
use crate::msgpack::lemma_concat_starts_at;
use crate::msgpack::lemma_starts_at_concat;
use crate::msgpack::map_header_bytes;
use crate::msgpack::put_map_header;
use crate::msgpack::starts_at;

verus! {

// ------------------------------------------------------------------
// GetAssetPathRequest.
// ------------------------------------------------------------------

pub open spec fn get_asset_path_request_parts(m: GetAssetPathRequest) -> Seq<Seq<u8>> {
    seq![
        map_header_bytes(2),
        kv_str("target_asset_version"@, m.target_asset_version@),
        kv_uint("viewer_id"@, m.viewer_id as u64),
    ]
}

pub open spec fn get_asset_path_request_bytes(m: GetAssetPathRequest) -> Seq<u8> {
    concat_parts(get_asset_path_request_parts(m))
}

pub open spec fn wf_get_asset_path_request(m: GetAssetPathRequest) -> bool {
    wf_chars(m.target_asset_version@)
}

pub open spec fn eq_get_asset_path_request(a: GetAssetPathRequest, b: GetAssetPathRequest) -> bool {
    a.target_asset_version@ == b.target_asset_version@ && a.viewer_id == b.viewer_id
}

/// Frames a resolve-asset-paths payload; fails exactly on an oversized
/// version string.
pub fn encode_get_asset_path_request(r: &GetAssetPathRequest) -> (out: Result<Vec<u8>, NetError>)
    ensures
        out matches Ok(b) ==> b@ == get_asset_path_request_bytes(*r),
        (out is Ok) == wf_get_asset_path_request(*r),
{
    proof {
        reveal_strlit("target_asset_version");
        reveal_strlit("viewer_id");
        crate::msgpack::lemma_encode_utf8_len("target_asset_version"@);
        crate::msgpack::lemma_encode_utf8_len("viewer_id"@);
    }
    let mut out: Vec<u8> = Vec::new();
    let ok_h = put_map_header(&mut out, 2);
    assert(ok_h);
    if !put_kv_str(&mut out, "target_asset_version", r.target_asset_version.as_str()) {
        return Err(NetError::EnvelopeEncode("oversized string".to_owned()));
    }
    let ok_u = put_kv_uint(&mut out, "viewer_id", r.viewer_id as u64);
    assert(ok_u);
    proof {
        reveal_with_fuel(concat_parts, 5);
        assert(out@ =~= get_asset_path_request_bytes(*r));
    }
    Ok(out)
}

impl<'a> ByteReader<'a> {
    /// Parses a resolve-asset-paths payload.
    pub fn take_get_asset_path_request(&mut self) -> (r: Option<GetAssetPathRequest>)
        requires
            old(self).wf(),
        ensures
            final(self).buf == old(self).buf,
            final(self).wf(),
            r matches Some(m) ==> wf_get_asset_path_request(m) && starts_at(
                old(self).buf@,
                old(self).pos as int,
                get_asset_path_request_bytes(m),
            ) && final(self).pos == old(self).pos + get_asset_path_request_bytes(m).len(),
            forall|m2: GetAssetPathRequest|
                wf_get_asset_path_request(m2) && starts_at(
                    old(self).buf@,
                    old(self).pos as int,
                    get_asset_path_request_bytes(m2),
                ) ==> r is Some && eq_get_asset_path_request(r.unwrap(), m2),
    {
        let ghost obuf = self.buf@;
        let ghost opos = self.pos as int;
        proof {
            reveal_strlit("target_asset_version");
            reveal_strlit("viewer_id");
            crate::msgpack::lemma_encode_utf8_len("target_asset_version"@);
            crate::msgpack::lemma_encode_utf8_len("viewer_id"@);
        }
        let n = self.take_map_header();
        let f1 = self.take_str_field("target_asset_version");
        let f2 = self.take_u32_field("viewer_id");
        proof {
            reveal_with_fuel(concat_parts, 5);
            reveal_with_fuel(parts_prefix_len, 5);
            assert forall|m2: GetAssetPathRequest|
                wf_get_asset_path_request(m2) && starts_at(
                    obuf,
                    opos,
                    get_asset_path_request_bytes(m2),
                ) implies n == Some(2u64) && f1 is Some && f1.unwrap()@
                == m2.target_asset_version@ && f2 == Some(m2.viewer_id) by {
                let parts = get_asset_path_request_parts(m2);
                lemma_parts_starts_at(obuf, opos, parts);
                assert(starts_at(obuf, opos, map_header_bytes(2)));
                assert(starts_at(obuf, opos + parts_prefix_len(parts, 1), parts[1]));
                assert(f1 is Some && f1.unwrap()@ == m2.target_asset_version@);
                assert(kv_str("target_asset_version"@, f1.unwrap()@) == parts[1]);
                assert(starts_at(obuf, opos + parts_prefix_len(parts, 2), parts[2]));
            }
        }
        let n_ok = match n {
            Some(v) => v == 2,
            None => false,
        };
        if !n_ok {
            return None;
        }
        match (f1, f2) {
            (Some(target_asset_version), Some(viewer_id)) => {
                let m = GetAssetPathRequest { target_asset_version, viewer_id };
                proof {
                    reveal_with_fuel(concat_parts, 5);
                    reveal_with_fuel(parts_prefix_len, 5);
                    let parts = get_asset_path_request_parts(m);
                    lemma_concat_starts_at(
                        obuf,
                        opos,
                        map_header_bytes(2),
                        kv_str("target_asset_version"@, m.target_asset_version@),
                    );
                    lemma_concat_starts_at(
                        obuf,
                        opos,
                        map_header_bytes(2) + kv_str(
                            "target_asset_version"@,
                            m.target_asset_version@,
                        ),
                        kv_uint("viewer_id"@, m.viewer_id as u64),
                    );
                    assert(get_asset_path_request_bytes(m) =~= map_header_bytes(2) + kv_str(
                        "target_asset_version"@,
                        m.target_asset_version@,
                    ) + kv_uint("viewer_id"@, m.viewer_id as u64));
                }
                Some(m)
            },
            _ => None,
        }
    }
}

// ------------------------------------------------------------------
// GetAssetVersionInfoRequest.
// ------------------------------------------------------------------

pub open spec fn get_asset_version_info_request_parts(m: GetAssetVersionInfoRequest) -> Seq<
    Seq<u8>,
> {
    seq![
        map_header_bytes(2),
        kv_str("asset_version"@, m.asset_version@),
        kv_uint("viewer_id"@, m.viewer_id as u64),
    ]
}

pub open spec fn get_asset_version_info_request_bytes(m: GetAssetVersionInfoRequest) -> Seq<u8> {
    concat_parts(get_asset_version_info_request_parts(m))
}

pub open spec fn wf_get_asset_version_info_request(m: GetAssetVersionInfoRequest) -> bool {
    wf_chars(m.asset_version@)
}

pub open spec fn eq_get_asset_version_info_request(
    a: GetAssetVersionInfoRequest,
    b: GetAssetVersionInfoRequest,
) -> bool {
    a.asset_version@ == b.asset_version@ && a.viewer_id == b.viewer_id
}

/// Frames a resolve-version-info payload; fails exactly on an oversized
/// version string.
pub fn encode_get_asset_version_info_request(r: &GetAssetVersionInfoRequest) -> (out: Result<
    Vec<u8>,
    NetError,
>)
    ensures
        out matches Ok(b) ==> b@ == get_asset_version_info_request_bytes(*r),
        (out is Ok) == wf_get_asset_version_info_request(*r),
{
    proof {
        reveal_strlit("asset_version");
        reveal_strlit("viewer_id");
        crate::msgpack::lemma_encode_utf8_len("asset_version"@);
        crate::msgpack::lemma_encode_utf8_len("viewer_id"@);
    }
    let mut out: Vec<u8> = Vec::new();
    let ok_h = put_map_header(&mut out, 2);
    assert(ok_h);
    if !put_kv_str(&mut out, "asset_version", r.asset_version.as_str()) {
        return Err(NetError::EnvelopeEncode("oversized string".to_owned()));
    }
    let ok_u = put_kv_uint(&mut out, "viewer_id", r.viewer_id as u64);
    assert(ok_u);
    proof {
        reveal_with_fuel(concat_parts, 5);
        assert(out@ =~= get_asset_version_info_request_bytes(*r));
    }
    Ok(out)
}

impl<'a> ByteReader<'a> {
    /// Parses a resolve-version-info payload.
    pub fn take_get_asset_version_info_request(&mut self) -> (r: Option<
        GetAssetVersionInfoRequest,
    >)
        requires
            old(self).wf(),
        ensures
            final(self).buf == old(self).buf,
            final(self).wf(),
            r matches Some(m) ==> wf_get_asset_version_info_request(m) && starts_at(
                old(self).buf@,
                old(self).pos as int,
                get_asset_version_info_request_bytes(m),
            ) && final(self).pos == old(self).pos + get_asset_version_info_request_bytes(m).len(),
            forall|m2: GetAssetVersionInfoRequest|
                wf_get_asset_version_info_request(m2) && starts_at(
                    old(self).buf@,
                    old(self).pos as int,
                    get_asset_version_info_request_bytes(m2),
                ) ==> r is Some && eq_get_asset_version_info_request(r.unwrap(), m2),
    {
        let ghost obuf = self.buf@;
        let ghost opos = self.pos as int;
        proof {
            reveal_strlit("asset_version");
            reveal_strlit("viewer_id");
            crate::msgpack::lemma_encode_utf8_len("asset_version"@);
            crate::msgpack::lemma_encode_utf8_len("viewer_id"@);
        }
        let n = self.take_map_header();
        let f1 = self.take_str_field("asset_version");
        let f2 = self.take_u32_field("viewer_id");
        proof {
            reveal_with_fuel(concat_parts, 5);
            reveal_with_fuel(parts_prefix_len, 5);
            assert forall|m2: GetAssetVersionInfoRequest|
                wf_get_asset_version_info_request(m2) && starts_at(
                    obuf,
                    opos,
                    get_asset_version_info_request_bytes(m2),
                ) implies n == Some(2u64) && f1 is Some && f1.unwrap()@ == m2.asset_version@ && f2
                == Some(m2.viewer_id) by {
                let parts = get_asset_version_info_request_parts(m2);
                lemma_parts_starts_at(obuf, opos, parts);
                assert(starts_at(obuf, opos, map_header_bytes(2)));
                assert(starts_at(obuf, opos + parts_prefix_len(parts, 1), parts[1]));
                assert(f1 is Some && f1.unwrap()@ == m2.asset_version@);
                assert(kv_str("asset_version"@, f1.unwrap()@) == parts[1]);
                assert(starts_at(obuf, opos + parts_prefix_len(parts, 2), parts[2]));
            }
        }
        let n_ok = match n {
            Some(v) => v == 2,
            None => false,
        };
        if !n_ok {
            return None;
        }
        match (f1, f2) {
            (Some(asset_version), Some(viewer_id)) => {
                let m = GetAssetVersionInfoRequest { asset_version, viewer_id };
                proof {
                    reveal_with_fuel(concat_parts, 5);
                    reveal_with_fuel(parts_prefix_len, 5);
                    lemma_concat_starts_at(
                        obuf,
                        opos,
                        map_header_bytes(2),
                        kv_str("asset_version"@, m.asset_version@),
                    );
                    lemma_concat_starts_at(
                        obuf,
                        opos,
                        map_header_bytes(2) + kv_str("asset_version"@, m.asset_version@),
                        kv_uint("viewer_id"@, m.viewer_id as u64),
                    );
                    assert(get_asset_version_info_request_bytes(m) =~= map_header_bytes(2)
                        + kv_str("asset_version"@, m.asset_version@) + kv_uint(
                        "viewer_id"@,
                        m.viewer_id as u64,
                    ));
                }
                Some(m)
            },
            _ => None,
        }
    }
}

// ------------------------------------------------------------------
// SignupRequest.
// ------------------------------------------------------------------

pub open spec fn signup_request_parts(m: SignupRequest) -> Seq<Seq<u8>> {
    seq![
        map_header_bytes(9),
        kv_str("oaid"@, m.oaid@),
        kv_str("mac"@, m.mac@),
        kv_str("media"@, m.media@),
        kv_str("osEr"@, m.os_er@),
        kv_str("androidId"@, m.android_id@),
        kv_str("storageDirectoryPath"@, m.storage_directory_path@),
        kv_str("channelNo"@, m.channel_no@),
        kv_f32("deviceId"@, m.device_id_bits),
        kv_str("terminInfo"@, m.termin_info@),
    ]
}

pub open spec fn signup_request_bytes(m: SignupRequest) -> Seq<u8> {
    concat_parts(signup_request_parts(m))
}

/// The first five fields of a signup payload, concatenated.
pub open spec fn signup_front_bytes(
    oaid: Seq<char>,
    mac: Seq<char>,
    media: Seq<char>,
    os_er: Seq<char>,
    android_id: Seq<char>,
) -> Seq<u8> {
    kv_str("oaid"@, oaid) + kv_str("mac"@, mac) + kv_str("media"@, media) + kv_str("osEr"@, os_er)
        + kv_str("androidId"@, android_id)
}

pub open spec fn wf_signup_request(m: SignupRequest) -> bool {
    &&& wf_chars(m.oaid@)
    &&& wf_chars(m.mac@)
    &&& wf_chars(m.media@)
    &&& wf_chars(m.os_er@)
    &&& wf_chars(m.android_id@)
    &&& wf_chars(m.storage_directory_path@)
    &&& wf_chars(m.channel_no@)
    &&& wf_chars(m.termin_info@)
}

pub open spec fn eq_signup_request(a: SignupRequest, b: SignupRequest) -> bool {
    &&& a.oaid@ == b.oaid@
    &&& a.mac@ == b.mac@
    &&& a.media@ == b.media@
    &&& a.os_er@ == b.os_er@
    &&& a.android_id@ == b.android_id@
    &&& a.storage_directory_path@ == b.storage_directory_path@
    &&& a.channel_no@ == b.channel_no@
    &&& a.device_id_bits == b.device_id_bits
    &&& a.termin_info@ == b.termin_info@
}

/// Frames a register-session payload; fails exactly on an oversized string.
pub fn encode_signup_request(r: &SignupRequest) -> (out: Result<Vec<u8>, NetError>)
    ensures
        out matches Ok(b) ==> b@ == signup_request_bytes(*r),
        (out is Ok) == wf_signup_request(*r),
{
    proof {
        lemma_signup_keys_wf();
    }
    let mut out: Vec<u8> = Vec::new();
    let ok_h = put_map_header(&mut out, 9);
    assert(ok_h);
    if !put_kv_str(&mut out, "oaid", r.oaid.as_str()) {
        return Err(NetError::EnvelopeEncode("oversized string".to_owned()));
    }
    if !put_kv_str(&mut out, "mac", r.mac.as_str()) {
        return Err(NetError::EnvelopeEncode("oversized string".to_owned()));
    }
    if !put_kv_str(&mut out, "media", r.media.as_str()) {
        return Err(NetError::EnvelopeEncode("oversized string".to_owned()));
    }
    if !put_kv_str(&mut out, "osEr", r.os_er.as_str()) {
        return Err(NetError::EnvelopeEncode("oversized string".to_owned()));
    }
    if !put_kv_str(&mut out, "androidId", r.android_id.as_str()) {
        return Err(NetError::EnvelopeEncode("oversized string".to_owned()));
    }
    if !put_kv_str(&mut out, "storageDirectoryPath", r.storage_directory_path.as_str()) {
        return Err(NetError::EnvelopeEncode("oversized string".to_owned()));
    }
    if !put_kv_str(&mut out, "channelNo", r.channel_no.as_str()) {
        return Err(NetError::EnvelopeEncode("oversized string".to_owned()));
    }
    let ok_f = put_kv_f32(&mut out, "deviceId", r.device_id_bits);
    assert(ok_f);
    if !put_kv_str(&mut out, "terminInfo", r.termin_info.as_str()) {
        return Err(NetError::EnvelopeEncode("oversized string".to_owned()));
    }
    proof {
        lemma_signup_request_shape(*r);
        assert(out@ =~= signup_request_bytes(*r));
    }
    Ok(out)
}

/// Unrolled shape of the signup payload: its concatenation and the offset
/// equations of its parts.
proof fn lemma_signup_request_shape(m: SignupRequest)
    ensures
        ({
            let p = signup_request_parts(m);
            &&& p.len() == 10
            &&& concat_parts(p) == p[0] + p[1] + p[2] + p[3] + p[4] + p[5] + p[6] + p[7] + p[8]
                + p[9]
            &&& parts_prefix_len(p, 0) == 0
            &&& forall|k: int|
                0 <= k < 10 ==> #[trigger] parts_prefix_len(p, k + 1) == parts_prefix_len(p, k)
                    + p[k].len()
        }),
{
    reveal_with_fuel(concat_parts, 12);
    reveal_with_fuel(parts_prefix_len, 12);
    let p = signup_request_parts(m);
    assert(concat_parts(p) =~= p[0] + p[1] + p[2] + p[3] + p[4] + p[5] + p[6] + p[7] + p[8]
        + p[9]);
}

/// The stock signup payload is well formed: all its strings are short.
pub proof fn lemma_default_signup_wf(m: SignupRequest)
    requires
        m.oaid@ == ""@,
        m.mac@ == ""@,
        m.media@ == "none"@,
        m.os_er@ == ""@,
        m.android_id@ == ""@,
        m.storage_directory_path@ == crate::models::STORAGE_DIRECTORY_PATH@,
        m.channel_no@ == ""@,
        m.termin_info@ == ""@,
    ensures
        wf_signup_request(m),
{
    reveal_strlit("");
    reveal_strlit("none");
    reveal_strlit(
        "/data/user/0/com.leiting.wf/com.leiting.wf/Local Store/custom_Release_Android",
    );
    crate::msgpack::lemma_encode_utf8_len(""@);
    crate::msgpack::lemma_encode_utf8_len("none"@);
    crate::msgpack::lemma_encode_utf8_len(
        "/data/user/0/com.leiting.wf/com.leiting.wf/Local Store/custom_Release_Android"@,
    );
}

/// The stock load payload is well formed: all its strings are short.
pub proof fn lemma_load_payload_wf(m: LoadRequest)
    requires
        m.oaid@ == ""@,
        m.device_token@ == "noDeviceToken"@,
        m.mac@ == ""@,
        m.imei@ == "none"@,
        m.graphics_device_name@ == "OpenGL (Baseline Extended)"@,
        m.storage_directory_path@ == crate::models::STORAGE_DIRECTORY_PATH@,
        m.platform_os_version@ == "Android 12"@,
    ensures
        wf_load_request(m),
{
    reveal_strlit("");
    reveal_strlit("noDeviceToken");
    reveal_strlit("none");
    reveal_strlit("OpenGL (Baseline Extended)");
    reveal_strlit("Android 12");
    reveal_strlit(
        "/data/user/0/com.leiting.wf/com.leiting.wf/Local Store/custom_Release_Android",
    );
    crate::msgpack::lemma_encode_utf8_len(""@);
    crate::msgpack::lemma_encode_utf8_len("noDeviceToken"@);
    crate::msgpack::lemma_encode_utf8_len("none"@);
    crate::msgpack::lemma_encode_utf8_len("OpenGL (Baseline Extended)"@);
    crate::msgpack::lemma_encode_utf8_len("Android 12"@);
    crate::msgpack::lemma_encode_utf8_len(
        "/data/user/0/com.leiting.wf/com.leiting.wf/Local Store/custom_Release_Android"@,
    );
}

/// The signup field names all have short UTF-8 forms.
proof fn lemma_signup_keys_wf()
    ensures
        wf_chars("oaid"@),
        wf_chars("mac"@),
        wf_chars("media"@),
        wf_chars("osEr"@),
        wf_chars("androidId"@),
        wf_chars("storageDirectoryPath"@),
        wf_chars("channelNo"@),
        wf_chars("deviceId"@),
        wf_chars("terminInfo"@),
{
    reveal_strlit("oaid");
    reveal_strlit("mac");
    reveal_strlit("media");
    reveal_strlit("osEr");
    reveal_strlit("androidId");
    reveal_strlit("storageDirectoryPath");
    reveal_strlit("channelNo");
    reveal_strlit("deviceId");
    reveal_strlit("terminInfo");
    crate::msgpack::lemma_encode_utf8_len("oaid"@);
    crate::msgpack::lemma_encode_utf8_len("mac"@);
    crate::msgpack::lemma_encode_utf8_len("media"@);
    crate::msgpack::lemma_encode_utf8_len("osEr"@);
    crate::msgpack::lemma_encode_utf8_len("androidId"@);
    crate::msgpack::lemma_encode_utf8_len("storageDirectoryPath"@);
    crate::msgpack::lemma_encode_utf8_len("channelNo"@);
    crate::msgpack::lemma_encode_utf8_len("deviceId"@);
    crate::msgpack::lemma_encode_utf8_len("terminInfo"@);
}

impl<'a> ByteReader<'a> {
    /// Parses a register-session payload.
    /// Parses the first five string fields of a signup payload.
    fn take_signup_front(&mut self) -> (r: Option<(String, String, String, String, String)>)
        requires
            old(self).wf(),
        ensures
            final(self).buf == old(self).buf,
            final(self).wf(),
            r matches Some(t) ==> wf_chars(t.0@) && wf_chars(t.1@) && wf_chars(t.2@) && wf_chars(
                t.3@,
            ) && wf_chars(t.4@) && starts_at(
                old(self).buf@,
                old(self).pos as int,
                signup_front_bytes(t.0@, t.1@, t.2@, t.3@, t.4@),
            ) && final(self).pos == old(self).pos + signup_front_bytes(
                t.0@,
                t.1@,
                t.2@,
                t.3@,
                t.4@,
            ).len(),
            forall|m2: SignupRequest|
                wf_signup_request(m2) && starts_at(
                    old(self).buf@,
                    old(self).pos as int,
                    signup_front_bytes(m2.oaid@, m2.mac@, m2.media@, m2.os_er@, m2.android_id@),
                ) ==> r is Some && r.unwrap().0@ == m2.oaid@ && r.unwrap().1@ == m2.mac@
                    && r.unwrap().2@ == m2.media@ && r.unwrap().3@ == m2.os_er@ && r.unwrap().4@
                    == m2.android_id@,
    {
        let ghost obuf = self.buf@;
        let ghost opos = self.pos as int;
        proof {
            lemma_signup_keys_wf();
        }
        let f1 = self.take_str_field("oaid");
        let f2 = self.take_str_field("mac");
        let f3 = self.take_str_field("media");
        let f4 = self.take_str_field("osEr");
        let f5 = self.take_str_field("androidId");
        proof {
            assert forall|m2: SignupRequest|
                wf_signup_request(m2) && starts_at(
                    obuf,
                    opos,
                    signup_front_bytes(m2.oaid@, m2.mac@, m2.media@, m2.os_er@, m2.android_id@),
                ) implies f1 is Some && f1.unwrap()@ == m2.oaid@ && f2 is Some && f2.unwrap()@
                == m2.mac@ && f3 is Some && f3.unwrap()@ == m2.media@ && f4 is Some
                && f4.unwrap()@ == m2.os_er@ && f5 is Some && f5.unwrap()@ == m2.android_id@ by {
                let p1 = kv_str("oaid"@, m2.oaid@);
                let p2 = kv_str("mac"@, m2.mac@);
                let p3 = kv_str("media"@, m2.media@);
                let p4 = kv_str("osEr"@, m2.os_er@);
                let p5 = kv_str("androidId"@, m2.android_id@);
                lemma_starts_at_concat(obuf, opos, p1 + p2 + p3 + p4, p5);
                lemma_starts_at_concat(obuf, opos, p1 + p2 + p3, p4);
                lemma_starts_at_concat(obuf, opos, p1 + p2, p3);
                lemma_starts_at_concat(obuf, opos, p1, p2);
                assert(f1 is Some && f1.unwrap()@ == m2.oaid@);
                assert(kv_str("oaid"@, f1.unwrap()@) == p1);
                assert(f2 is Some && f2.unwrap()@ == m2.mac@);
                assert(kv_str("mac"@, f2.unwrap()@) == p2);
                assert(f3 is Some && f3.unwrap()@ == m2.media@);
                assert(kv_str("media"@, f3.unwrap()@) == p3);
                assert(f4 is Some && f4.unwrap()@ == m2.os_er@);
                assert(kv_str("osEr"@, f4.unwrap()@) == p4);
                assert(f5 is Some && f5.unwrap()@ == m2.android_id@);
            }
        }
        match (f1, f2, f3, f4, f5) {
            (Some(a), Some(b), Some(c), Some(d), Some(e)) => {
                proof {
                    let p1 = kv_str("oaid"@, a@);
                    let p2 = kv_str("mac"@, b@);
                    let p3 = kv_str("media"@, c@);
                    let p4 = kv_str("osEr"@, d@);
                    let p5 = kv_str("androidId"@, e@);
                    lemma_concat_starts_at(obuf, opos, p1, p2);
                    lemma_concat_starts_at(obuf, opos, p1 + p2, p3);
                    lemma_concat_starts_at(obuf, opos, p1 + p2 + p3, p4);
                    lemma_concat_starts_at(obuf, opos, p1 + p2 + p3 + p4, p5);
                }
                Some((a, b, c, d, e))
            },
            _ => None,
        }
    }

    /// Parses a register-session payload.
    #[verifier::rlimit(100)]
    #[verifier::spinoff_prover]
    pub fn take_signup_request(&mut self) -> (r: Option<SignupRequest>)
        requires
            old(self).wf(),
        ensures
            final(self).buf == old(self).buf,
            final(self).wf(),
            r matches Some(m) ==> wf_signup_request(m) && starts_at(
                old(self).buf@,
                old(self).pos as int,
                signup_request_bytes(m),
            ) && final(self).pos == old(self).pos + signup_request_bytes(m).len(),
            forall|m2: SignupRequest|
                wf_signup_request(m2) && starts_at(
                    old(self).buf@,
                    old(self).pos as int,
                    signup_request_bytes(m2),
                ) ==> r is Some && eq_signup_request(r.unwrap(), m2),
    {
        let ghost obuf = self.buf@;
        let ghost opos = self.pos as int;
        proof {
            lemma_signup_keys_wf();
        }
        let n = self.take_map_header();
        let front = self.take_signup_front();
        let f6 = self.take_str_field("storageDirectoryPath");
        let f7 = self.take_str_field("channelNo");
        let f8 = self.take_f32_field("deviceId");
        let f9 = self.take_str_field("terminInfo");
        proof {
            assert forall|m2: SignupRequest|
                wf_signup_request(m2) && starts_at(obuf, opos, signup_request_bytes(m2))
                implies n == Some(9u64) && front is Some && front.unwrap().0@ == m2.oaid@
                && front.unwrap().1@ == m2.mac@ && front.unwrap().2@ == m2.media@
                && front.unwrap().3@ == m2.os_er@ && front.unwrap().4@ == m2.android_id@ && f6
                is Some && f6.unwrap()@ == m2.storage_directory_path@ && f7 is Some
                && f7.unwrap()@ == m2.channel_no@ && f8 == Some(m2.device_id_bits) && f9 is Some
                && f9.unwrap()@ == m2.termin_info@ by {
                lemma_signup_request_regroup(m2);
                let p0 = map_header_bytes(9);
                let pf = signup_front_bytes(
                    m2.oaid@,
                    m2.mac@,
                    m2.media@,
                    m2.os_er@,
                    m2.android_id@,
                );
                let p6 = kv_str("storageDirectoryPath"@, m2.storage_directory_path@);
                let p7 = kv_str("channelNo"@, m2.channel_no@);
                let p8 = kv_f32("deviceId"@, m2.device_id_bits);
                let p9 = kv_str("terminInfo"@, m2.termin_info@);
                lemma_starts_at_concat(obuf, opos, p0 + pf + p6 + p7 + p8, p9);
                lemma_starts_at_concat(obuf, opos, p0 + pf + p6 + p7, p8);
                lemma_starts_at_concat(obuf, opos, p0 + pf + p6, p7);
                lemma_starts_at_concat(obuf, opos, p0 + pf, p6);
                lemma_starts_at_concat(obuf, opos, p0, pf);
                assert(front is Some && front.unwrap().0@ == m2.oaid@ && front.unwrap().1@
                    == m2.mac@ && front.unwrap().2@ == m2.media@ && front.unwrap().3@
                    == m2.os_er@ && front.unwrap().4@ == m2.android_id@);
                assert(signup_front_bytes(
                    front.unwrap().0@,
                    front.unwrap().1@,
                    front.unwrap().2@,
                    front.unwrap().3@,
                    front.unwrap().4@,
                ) == pf);
                assert(f6 is Some && f6.unwrap()@ == m2.storage_directory_path@);
                assert(kv_str("storageDirectoryPath"@, f6.unwrap()@) == p6);
                assert(f7 is Some && f7.unwrap()@ == m2.channel_no@);
                assert(kv_str("channelNo"@, f7.unwrap()@) == p7);
                assert(f8 == Some(m2.device_id_bits));
                assert(kv_f32("deviceId"@, m2.device_id_bits) == p8);
                assert(f9 is Some && f9.unwrap()@ == m2.termin_info@);
            }
        }
        let n_ok = match n {
            Some(v) => v == 9,
            None => false,
        };
        if !n_ok {
            return None;
        }
        match (front, f6, f7, f8, f9) {
            (
                Some(t),
                Some(storage_directory_path),
                Some(channel_no),
                Some(device_id_bits),
                Some(termin_info),
            ) => {
                let (oaid, mac, media, os_er, android_id) = t;
                let m = SignupRequest {
                    oaid,
                    mac,
                    media,
                    os_er,
                    android_id,
                    storage_directory_path,
                    channel_no,
                    device_id_bits,
                    termin_info,
                };
                proof {
                    lemma_signup_request_regroup(m);
                    let p0 = map_header_bytes(9);
                    let pf = signup_front_bytes(m.oaid@, m.mac@, m.media@, m.os_er@, m.android_id@);
                    let p6 = kv_str("storageDirectoryPath"@, m.storage_directory_path@);
                    let p7 = kv_str("channelNo"@, m.channel_no@);
                    let p8 = kv_f32("deviceId"@, m.device_id_bits);
                    let p9 = kv_str("terminInfo"@, m.termin_info@);
                    lemma_concat_starts_at(obuf, opos, p0, pf);
                    lemma_concat_starts_at(obuf, opos, p0 + pf, p6);
                    lemma_concat_starts_at(obuf, opos, p0 + pf + p6, p7);
                    lemma_concat_starts_at(obuf, opos, p0 + pf + p6 + p7, p8);
                    lemma_concat_starts_at(obuf, opos, p0 + pf + p6 + p7 + p8, p9);
                }
                Some(m)
            },
            _ => None,
        }
    }
}

/// The signup payload regrouped around its front half.
#[verifier::rlimit(100)]
#[verifier::spinoff_prover]
proof fn lemma_signup_request_regroup(m: SignupRequest)
    ensures
        signup_request_bytes(m) == map_header_bytes(9) + signup_front_bytes(
            m.oaid@,
            m.mac@,
            m.media@,
            m.os_er@,
            m.android_id@,
        ) + kv_str("storageDirectoryPath"@, m.storage_directory_path@) + kv_str(
            "channelNo"@,
            m.channel_no@,
        ) + kv_f32("deviceId"@, m.device_id_bits) + kv_str("terminInfo"@, m.termin_info@),
{
    lemma_signup_request_shape(m);
    let p = signup_request_parts(m);
    assert(p[0] + p[1] + p[2] + p[3] + p[4] + p[5] + p[6] + p[7] + p[8] + p[9] =~= p[0] + (p[1]
        + p[2] + p[3] + p[4] + p[5]) + p[6] + p[7] + p[8] + p[9]);
}

// ------------------------------------------------------------------
// LoadRequest.
// ------------------------------------------------------------------

pub open spec fn load_request_parts(m: LoadRequest) -> Seq<Seq<u8>> {
    seq![
        map_header_bytes(10),
        kv_str("oaid"@, m.oaid@),
        kv_uint("viewer_id"@, m.viewer_id as u64),
        kv_str("device_token"@, m.device_token@),
        kv_str("mac"@, m.mac@),
        kv_str("imei"@, m.imei@),
        kv_uint("keychain"@, m.keychain as u64),
        kv_str("graphics_device_name"@, m.graphics_device_name@),
        kv_str("storage_directory_path"@, m.storage_directory_path@),
        kv_str("platform_os_version"@, m.platform_os_version@),
        kv_f32("device_id"@, m.device_id_bits),
    ]
}

pub open spec fn load_request_bytes(m: LoadRequest) -> Seq<u8> {
    concat_parts(load_request_parts(m))
}

/// The first five fields of a load payload, concatenated.
pub open spec fn load_front_bytes(
    oaid: Seq<char>,
    viewer_id: u32,
    device_token: Seq<char>,
    mac: Seq<char>,
    imei: Seq<char>,
) -> Seq<u8> {
    kv_str("oaid"@, oaid) + kv_uint("viewer_id"@, viewer_id as u64) + kv_str(
        "device_token"@,
        device_token,
    ) + kv_str("mac"@, mac) + kv_str("imei"@, imei)
}

/// The last five fields of a load payload, concatenated.
pub open spec fn load_back_bytes(
    keychain: u32,
    graphics_device_name: Seq<char>,
    storage_directory_path: Seq<char>,
    platform_os_version: Seq<char>,
    device_id_bits: u32,
) -> Seq<u8> {
    kv_uint("keychain"@, keychain as u64) + kv_str("graphics_device_name"@, graphics_device_name)
        + kv_str("storage_directory_path"@, storage_directory_path) + kv_str(
        "platform_os_version"@,
        platform_os_version,
    ) + kv_f32("device_id"@, device_id_bits)
}

pub open spec fn wf_load_request(m: LoadRequest) -> bool {
    &&& wf_chars(m.oaid@)
    &&& wf_chars(m.device_token@)
    &&& wf_chars(m.mac@)
    &&& wf_chars(m.imei@)
    &&& wf_chars(m.graphics_device_name@)
    &&& wf_chars(m.storage_directory_path@)
    &&& wf_chars(m.platform_os_version@)
}

pub open spec fn eq_load_request(a: LoadRequest, b: LoadRequest) -> bool {
    &&& a.oaid@ == b.oaid@
    &&& a.viewer_id == b.viewer_id
    &&& a.device_token@ == b.device_token@
    &&& a.mac@ == b.mac@
    &&& a.imei@ == b.imei@
    &&& a.keychain == b.keychain
    &&& a.graphics_device_name@ == b.graphics_device_name@
    &&& a.storage_directory_path@ == b.storage_directory_path@
    &&& a.platform_os_version@ == b.platform_os_version@
    &&& a.device_id_bits == b.device_id_bits
}

/// Unrolled shape of the load payload.
proof fn lemma_load_request_shape(m: LoadRequest)
    ensures
        ({
            let p = load_request_parts(m);
            &&& p.len() == 11
            &&& concat_parts(p) == p[0] + p[1] + p[2] + p[3] + p[4] + p[5] + p[6] + p[7] + p[8]
                + p[9] + p[10]
            &&& parts_prefix_len(p, 0) == 0
            &&& forall|k: int|
                0 <= k < 11 ==> #[trigger] parts_prefix_len(p, k + 1) == parts_prefix_len(p, k)
                    + p[k].len()
        }),
{
    reveal_with_fuel(concat_parts, 13);
    reveal_with_fuel(parts_prefix_len, 13);
    let p = load_request_parts(m);
    assert(concat_parts(p) =~= p[0] + p[1] + p[2] + p[3] + p[4] + p[5] + p[6] + p[7] + p[8] + p[9]
        + p[10]);
}

/// The load field names all have short UTF-8 forms.
proof fn lemma_load_keys_wf()
    ensures
        wf_chars("oaid"@),
        wf_chars("viewer_id"@),
        wf_chars("device_token"@),
        wf_chars("mac"@),
        wf_chars("imei"@),
        wf_chars("keychain"@),
        wf_chars("graphics_device_name"@),
        wf_chars("storage_directory_path"@),
        wf_chars("platform_os_version"@),
        wf_chars("device_id"@),
{
    reveal_strlit("oaid");
    reveal_strlit("viewer_id");
    reveal_strlit("device_token");
    reveal_strlit("mac");
    reveal_strlit("imei");
    reveal_strlit("keychain");
    reveal_strlit("graphics_device_name");
    reveal_strlit("storage_directory_path");
    reveal_strlit("platform_os_version");
    reveal_strlit("device_id");
    crate::msgpack::lemma_encode_utf8_len("oaid"@);
    crate::msgpack::lemma_encode_utf8_len("viewer_id"@);
    crate::msgpack::lemma_encode_utf8_len("device_token"@);
    crate::msgpack::lemma_encode_utf8_len("mac"@);
    crate::msgpack::lemma_encode_utf8_len("imei"@);
    crate::msgpack::lemma_encode_utf8_len("keychain"@);
    crate::msgpack::lemma_encode_utf8_len("graphics_device_name"@);
    crate::msgpack::lemma_encode_utf8_len("storage_directory_path"@);
    crate::msgpack::lemma_encode_utf8_len("platform_os_version"@);
    crate::msgpack::lemma_encode_utf8_len("device_id"@);
}

/// Frames a load-profile payload; fails exactly on an oversized string.
pub fn encode_load_request(r: &LoadRequest) -> (out: Result<Vec<u8>, NetError>)
    ensures
        out matches Ok(b) ==> b@ == load_request_bytes(*r),
        (out is Ok) == wf_load_request(*r),
{
    proof {
        lemma_load_keys_wf();
    }
    let mut out: Vec<u8> = Vec::new();
    let ok_h = put_map_header(&mut out, 10);
    assert(ok_h);
    if !put_kv_str(&mut out, "oaid", r.oaid.as_str()) {
        return Err(NetError::EnvelopeEncode("oversized string".to_owned()));
    }
    let ok1 = put_kv_uint(&mut out, "viewer_id", r.viewer_id as u64);
    assert(ok1);
    if !put_kv_str(&mut out, "device_token", r.device_token.as_str()) {
        return Err(NetError::EnvelopeEncode("oversized string".to_owned()));
    }
    if !put_kv_str(&mut out, "mac", r.mac.as_str()) {
        return Err(NetError::EnvelopeEncode("oversized string".to_owned()));
    }
    if !put_kv_str(&mut out, "imei", r.imei.as_str()) {
        return Err(NetError::EnvelopeEncode("oversized string".to_owned()));
    }
    let ok2 = put_kv_uint(&mut out, "keychain", r.keychain as u64);
    assert(ok2);
    if !put_kv_str(&mut out, "graphics_device_name", r.graphics_device_name.as_str()) {
        return Err(NetError::EnvelopeEncode("oversized string".to_owned()));
    }
    if !put_kv_str(&mut out, "storage_directory_path", r.storage_directory_path.as_str()) {
        return Err(NetError::EnvelopeEncode("oversized string".to_owned()));
    }
    if !put_kv_str(&mut out, "platform_os_version", r.platform_os_version.as_str()) {
        return Err(NetError::EnvelopeEncode("oversized string".to_owned()));
    }
    let ok3 = put_kv_f32(&mut out, "device_id", r.device_id_bits);
    assert(ok3);
    proof {
        lemma_load_request_shape(*r);
        assert(out@ =~= load_request_bytes(*r));
    }
    Ok(out)
}

impl<'a> ByteReader<'a> {
    /// Parses the first five fields of a load payload.
    fn take_load_front(&mut self) -> (r: Option<(String, u32, String, String, String)>)
        requires
            old(self).wf(),
        ensures
            final(self).buf == old(self).buf,
            final(self).wf(),
            r matches Some(t) ==> wf_chars(t.0@) && wf_chars(t.2@) && wf_chars(t.3@) && wf_chars(
                t.4@,
            ) && starts_at(
                old(self).buf@,
                old(self).pos as int,
                load_front_bytes(t.0@, t.1, t.2@, t.3@, t.4@),
            ) && final(self).pos == old(self).pos + load_front_bytes(
                t.0@,
                t.1,
                t.2@,
                t.3@,
                t.4@,
            ).len(),
            forall|m2: LoadRequest|
                wf_load_request(m2) && starts_at(
                    old(self).buf@,
                    old(self).pos as int,
                    load_front_bytes(m2.oaid@, m2.viewer_id, m2.device_token@, m2.mac@, m2.imei@),
                ) ==> r is Some && r.unwrap().0@ == m2.oaid@ && r.unwrap().1 == m2.viewer_id
                    && r.unwrap().2@ == m2.device_token@ && r.unwrap().3@ == m2.mac@
                    && r.unwrap().4@ == m2.imei@,
    {
        let ghost obuf = self.buf@;
        let ghost opos = self.pos as int;
        proof {
            lemma_load_keys_wf();
        }
        let f1 = self.take_str_field("oaid");
        let f2 = self.take_u32_field("viewer_id");
        let f3 = self.take_str_field("device_token");
        let f4 = self.take_str_field("mac");
        let f5 = self.take_str_field("imei");
        proof {
            assert forall|m2: LoadRequest|
                wf_load_request(m2) && starts_at(
                    obuf,
                    opos,
                    load_front_bytes(m2.oaid@, m2.viewer_id, m2.device_token@, m2.mac@, m2.imei@),
                ) implies f1 is Some && f1.unwrap()@ == m2.oaid@ && f2 == Some(m2.viewer_id) && f3
                is Some && f3.unwrap()@ == m2.device_token@ && f4 is Some && f4.unwrap()@
                == m2.mac@ && f5 is Some && f5.unwrap()@ == m2.imei@ by {
                let p1 = kv_str("oaid"@, m2.oaid@);
                let p2 = kv_uint("viewer_id"@, m2.viewer_id as u64);
                let p3 = kv_str("device_token"@, m2.device_token@);
                let p4 = kv_str("mac"@, m2.mac@);
                let p5 = kv_str("imei"@, m2.imei@);
                lemma_starts_at_concat(obuf, opos, p1 + p2 + p3 + p4, p5);
                lemma_starts_at_concat(obuf, opos, p1 + p2 + p3, p4);
                lemma_starts_at_concat(obuf, opos, p1 + p2, p3);
                lemma_starts_at_concat(obuf, opos, p1, p2);
                assert(f1 is Some && f1.unwrap()@ == m2.oaid@);
                assert(kv_str("oaid"@, f1.unwrap()@) == p1);
                assert(f2 == Some(m2.viewer_id));
                assert(kv_uint("viewer_id"@, m2.viewer_id as u64) == p2);
                assert(f3 is Some && f3.unwrap()@ == m2.device_token@);
                assert(kv_str("device_token"@, f3.unwrap()@) == p3);
                assert(f4 is Some && f4.unwrap()@ == m2.mac@);
                assert(kv_str("mac"@, f4.unwrap()@) == p4);
                assert(f5 is Some && f5.unwrap()@ == m2.imei@);
            }
        }
        match (f1, f2, f3, f4, f5) {
            (Some(a), Some(b), Some(c), Some(d), Some(e)) => {
                proof {
                    let p1 = kv_str("oaid"@, a@);
                    let p2 = kv_uint("viewer_id"@, b as u64);
                    let p3 = kv_str("device_token"@, c@);
                    let p4 = kv_str("mac"@, d@);
                    let p5 = kv_str("imei"@, e@);
                    lemma_concat_starts_at(obuf, opos, p1, p2);
                    lemma_concat_starts_at(obuf, opos, p1 + p2, p3);
                    lemma_concat_starts_at(obuf, opos, p1 + p2 + p3, p4);
                    lemma_concat_starts_at(obuf, opos, p1 + p2 + p3 + p4, p5);
                }
                Some((a, b, c, d, e))
            },
            _ => None,
        }
    }

    /// Parses the last five fields of a load payload.
    fn take_load_back(&mut self) -> (r: Option<(u32, String, String, String, u32)>)
        requires
            old(self).wf(),
        ensures
            final(self).buf == old(self).buf,
            final(self).wf(),
            r matches Some(t) ==> wf_chars(t.1@) && wf_chars(t.2@) && wf_chars(t.3@) && starts_at(
                old(self).buf@,
                old(self).pos as int,
                load_back_bytes(t.0, t.1@, t.2@, t.3@, t.4),
            ) && final(self).pos == old(self).pos + load_back_bytes(
                t.0,
                t.1@,
                t.2@,
                t.3@,
                t.4,
            ).len(),
            forall|m2: LoadRequest|
                wf_load_request(m2) && starts_at(
                    old(self).buf@,
                    old(self).pos as int,
                    load_back_bytes(
                        m2.keychain,
                        m2.graphics_device_name@,
                        m2.storage_directory_path@,
                        m2.platform_os_version@,
                        m2.device_id_bits,
                    ),
                ) ==> r is Some && r.unwrap().0 == m2.keychain && r.unwrap().1@
                    == m2.graphics_device_name@ && r.unwrap().2@ == m2.storage_directory_path@
                    && r.unwrap().3@ == m2.platform_os_version@ && r.unwrap().4
                    == m2.device_id_bits,
    {
        let ghost obuf = self.buf@;
        let ghost opos = self.pos as int;
        proof {
            lemma_load_keys_wf();
        }
        let f6 = self.take_u32_field("keychain");
        let f7 = self.take_str_field("graphics_device_name");
        let f8 = self.take_str_field("storage_directory_path");
        let f9 = self.take_str_field("platform_os_version");
        let f10 = self.take_f32_field("device_id");
        proof {
            assert forall|m2: LoadRequest|
                wf_load_request(m2) && starts_at(
                    obuf,
                    opos,
                    load_back_bytes(
                        m2.keychain,
                        m2.graphics_device_name@,
                        m2.storage_directory_path@,
                        m2.platform_os_version@,
                        m2.device_id_bits,
                    ),
                ) implies f6 == Some(m2.keychain) && f7 is Some && f7.unwrap()@
                == m2.graphics_device_name@ && f8 is Some && f8.unwrap()@
                == m2.storage_directory_path@ && f9 is Some && f9.unwrap()@
                == m2.platform_os_version@ && f10 == Some(m2.device_id_bits) by {
                let p6 = kv_uint("keychain"@, m2.keychain as u64);
                let p7 = kv_str("graphics_device_name"@, m2.graphics_device_name@);
                let p8 = kv_str("storage_directory_path"@, m2.storage_directory_path@);
                let p9 = kv_str("platform_os_version"@, m2.platform_os_version@);
                let p10 = kv_f32("device_id"@, m2.device_id_bits);
                lemma_starts_at_concat(obuf, opos, p6 + p7 + p8 + p9, p10);
                lemma_starts_at_concat(obuf, opos, p6 + p7 + p8, p9);
                lemma_starts_at_concat(obuf, opos, p6 + p7, p8);
                lemma_starts_at_concat(obuf, opos, p6, p7);
                assert(f6 == Some(m2.keychain));
                assert(kv_uint("keychain"@, m2.keychain as u64) == p6);
                assert(f7 is Some && f7.unwrap()@ == m2.graphics_device_name@);
                assert(kv_str("graphics_device_name"@, f7.unwrap()@) == p7);
                assert(f8 is Some && f8.unwrap()@ == m2.storage_directory_path@);
                assert(kv_str("storage_directory_path"@, f8.unwrap()@) == p8);
                assert(f9 is Some && f9.unwrap()@ == m2.platform_os_version@);
                assert(kv_str("platform_os_version"@, f9.unwrap()@) == p9);
                assert(f10 == Some(m2.device_id_bits));
            }
        }
        match (f6, f7, f8, f9, f10) {
            (Some(a), Some(b), Some(c), Some(d), Some(e)) => {
                proof {
                    let p6 = kv_uint("keychain"@, a as u64);
                    let p7 = kv_str("graphics_device_name"@, b@);
                    let p8 = kv_str("storage_directory_path"@, c@);
                    let p9 = kv_str("platform_os_version"@, d@);
                    let p10 = kv_f32("device_id"@, e);
                    lemma_concat_starts_at(obuf, opos, p6, p7);
                    lemma_concat_starts_at(obuf, opos, p6 + p7, p8);
                    lemma_concat_starts_at(obuf, opos, p6 + p7 + p8, p9);
                    lemma_concat_starts_at(obuf, opos, p6 + p7 + p8 + p9, p10);
                }
                Some((a, b, c, d, e))
            },
            _ => None,
        }
    }

    /// Parses a load-profile payload.
    #[verifier::rlimit(100)]
    #[verifier::spinoff_prover]
    pub fn take_load_request(&mut self) -> (r: Option<LoadRequest>)
        requires
            old(self).wf(),
        ensures
            final(self).buf == old(self).buf,
            final(self).wf(),
            r matches Some(m) ==> wf_load_request(m) && starts_at(
                old(self).buf@,
                old(self).pos as int,
                load_request_bytes(m),
            ) && final(self).pos == old(self).pos + load_request_bytes(m).len(),
            forall|m2: LoadRequest|
                wf_load_request(m2) && starts_at(
                    old(self).buf@,
                    old(self).pos as int,
                    load_request_bytes(m2),
                ) ==> r is Some && eq_load_request(r.unwrap(), m2),
    {
        let ghost obuf = self.buf@;
        let ghost opos = self.pos as int;
        let n = self.take_map_header();
        let front = self.take_load_front();
        let back = self.take_load_back();
        proof {
            assert forall|m2: LoadRequest|
                wf_load_request(m2) && starts_at(obuf, opos, load_request_bytes(m2)) implies n
                == Some(10u64) && front is Some && front.unwrap().0@ == m2.oaid@
                && front.unwrap().1 == m2.viewer_id && front.unwrap().2@ == m2.device_token@
                && front.unwrap().3@ == m2.mac@ && front.unwrap().4@ == m2.imei@ && back is Some
                && back.unwrap().0 == m2.keychain && back.unwrap().1@ == m2.graphics_device_name@
                && back.unwrap().2@ == m2.storage_directory_path@ && back.unwrap().3@
                == m2.platform_os_version@ && back.unwrap().4 == m2.device_id_bits by {
                lemma_load_request_regroup(m2);
                let p0 = map_header_bytes(10);
                let pf = load_front_bytes(
                    m2.oaid@,
                    m2.viewer_id,
                    m2.device_token@,
                    m2.mac@,
                    m2.imei@,
                );
                let pb = load_back_bytes(
                    m2.keychain,
                    m2.graphics_device_name@,
                    m2.storage_directory_path@,
                    m2.platform_os_version@,
                    m2.device_id_bits,
                );
                lemma_starts_at_concat(obuf, opos, p0 + pf, pb);
                lemma_starts_at_concat(obuf, opos, p0, pf);
                assert(front is Some && front.unwrap().0@ == m2.oaid@ && front.unwrap().1
                    == m2.viewer_id && front.unwrap().2@ == m2.device_token@ && front.unwrap().3@
                    == m2.mac@ && front.unwrap().4@ == m2.imei@);
                assert(load_front_bytes(
                    front.unwrap().0@,
                    front.unwrap().1,
                    front.unwrap().2@,
                    front.unwrap().3@,
                    front.unwrap().4@,
                ) == pf);
                assert(back is Some && back.unwrap().0 == m2.keychain && back.unwrap().1@
                    == m2.graphics_device_name@ && back.unwrap().2@ == m2.storage_directory_path@
                    && back.unwrap().3@ == m2.platform_os_version@ && back.unwrap().4
                    == m2.device_id_bits);
            }
        }
        let n_ok = match n {
            Some(v) => v == 10,
            None => false,
        };
        if !n_ok {
            return None;
        }
        match (front, back) {
            (Some(f), Some(b)) => {
                let (oaid, viewer_id, device_token, mac, imei) = f;
                let (keychain, graphics_device_name, storage_directory_path, platform_os_version,
                    device_id_bits) = b;
                let m = LoadRequest {
                    oaid,
                    viewer_id,
                    device_token,
                    mac,
                    imei,
                    keychain,
                    graphics_device_name,
                    storage_directory_path,
                    platform_os_version,
                    device_id_bits,
                };
                proof {
                    lemma_load_request_regroup(m);
                    let p0 = map_header_bytes(10);
                    let pf = load_front_bytes(
                        m.oaid@,
                        m.viewer_id,
                        m.device_token@,
                        m.mac@,
                        m.imei@,
                    );
                    let pb = load_back_bytes(
                        m.keychain,
                        m.graphics_device_name@,
                        m.storage_directory_path@,
                        m.platform_os_version@,
                        m.device_id_bits,
                    );
                    lemma_concat_starts_at(obuf, opos, p0, pf);
                    lemma_concat_starts_at(obuf, opos, p0 + pf, pb);
                }
                Some(m)
            },
            _ => None,
        }
    }
}

/// The load payload regrouped around its two halves.
#[verifier::rlimit(100)]
#[verifier::spinoff_prover]
proof fn lemma_load_request_regroup(m: LoadRequest)
    ensures
        load_request_bytes(m) == map_header_bytes(10) + load_front_bytes(
            m.oaid@,
            m.viewer_id,
            m.device_token@,
            m.mac@,
            m.imei@,
        ) + load_back_bytes(
            m.keychain,
            m.graphics_device_name@,
            m.storage_directory_path@,
            m.platform_os_version@,
            m.device_id_bits,
        ),
{
    lemma_load_request_shape(m);
    let p = load_request_parts(m);
    assert(p[0] + p[1] + p[2] + p[3] + p[4] + p[5] + p[6] + p[7] + p[8] + p[9] + p[10] =~= p[0] + (
    p[1] + p[2] + p[3] + p[4] + p[5]) + (p[6] + p[7] + p[8] + p[9] + p[10]));
}

// ------------------------------------------------------------------
// DataHeaders and LoadResponse.
// ------------------------------------------------------------------

pub open spec fn data_headers_parts(m: DataHeaders) -> Seq<Seq<u8>> {
    seq![
        map_header_bytes(5),
        kv_uint("short_udid"@, m.short_udid as u64),
        kv_uint("viewer_id"@, m.viewer_id as u64),
        kv_uint("servertime"@, m.servertime as u64),
        kv_uint("result_code"@, m.result_code as u64),
        kv_opt_str("udid"@, opt_view(m.udid)),
    ]
}

pub open spec fn data_headers_bytes(m: DataHeaders) -> Seq<u8> {
    concat_parts(data_headers_parts(m))
}

pub open spec fn wf_data_headers(m: DataHeaders) -> bool {
    wf_opt_chars(opt_view(m.udid))
}

pub open spec fn eq_data_headers(a: DataHeaders, b: DataHeaders) -> bool {
    &&& a.short_udid == b.short_udid
    &&& a.viewer_id == b.viewer_id
    &&& a.servertime == b.servertime
    &&& a.result_code == b.result_code
    &&& opt_view(a.udid) == opt_view(b.udid)
}

/// Unrolled shape of the session-metadata payload.
proof fn lemma_data_headers_shape(m: DataHeaders)
    ensures
        ({
            let p = data_headers_parts(m);
            &&& p.len() == 6
            &&& concat_parts(p) == p[0] + p[1] + p[2] + p[3] + p[4] + p[5]
            &&& parts_prefix_len(p, 0) == 0
            &&& forall|k: int|
                0 <= k < 6 ==> #[trigger] parts_prefix_len(p, k + 1) == parts_prefix_len(p, k)
                    + p[k].len()
        }),
{
    reveal_with_fuel(concat_parts, 8);
    reveal_with_fuel(parts_prefix_len, 8);
    let p = data_headers_parts(m);
    assert(concat_parts(p) =~= p[0] + p[1] + p[2] + p[3] + p[4] + p[5]);
}

proof fn lemma_data_headers_keys_wf()
    ensures
        wf_chars("short_udid"@),
        wf_chars("viewer_id"@),
        wf_chars("servertime"@),
        wf_chars("result_code"@),
        wf_chars("udid"@),
{
    reveal_strlit("short_udid");
    reveal_strlit("viewer_id");
    reveal_strlit("servertime");
    reveal_strlit("result_code");
    reveal_strlit("udid");
    crate::msgpack::lemma_encode_utf8_len("short_udid"@);
    crate::msgpack::lemma_encode_utf8_len("viewer_id"@);
    crate::msgpack::lemma_encode_utf8_len("servertime"@);
    crate::msgpack::lemma_encode_utf8_len("result_code"@);
    crate::msgpack::lemma_encode_utf8_len("udid"@);
}

/// Frames server session metadata; fails exactly on an oversized session
/// identity.
#[verifier::rlimit(100)]
#[verifier::spinoff_prover]
pub fn encode_data_headers(out: &mut Vec<u8>, m: &DataHeaders) -> (ok: bool)
    ensures
        ok == wf_data_headers(*m),
        ok ==> final(out)@ == old(out)@ + data_headers_bytes(*m),
{
    proof {
        lemma_data_headers_keys_wf();
    }
    let ok_h = put_map_header(out, 5);
    assert(ok_h);
    let o1 = put_kv_uint(out, "short_udid", m.short_udid as u64);
    assert(o1);
    let o2 = put_kv_uint(out, "viewer_id", m.viewer_id as u64);
    assert(o2);
    let o3 = put_kv_uint(out, "servertime", m.servertime as u64);
    assert(o3);
    let o4 = put_kv_uint(out, "result_code", m.result_code as u64);
    assert(o4);
    if !put_kv_opt_str(out, "udid", &m.udid) {
        return false;
    }
    proof {
        lemma_data_headers_shape(*m);
        assert(out@ =~= old(out)@ + data_headers_bytes(*m));
    }
    true
}

impl<'a> ByteReader<'a> {
    /// Parses server session metadata.
    #[verifier::rlimit(80)]
    pub fn take_data_headers(&mut self) -> (r: Option<DataHeaders>)
        requires
            old(self).wf(),
        ensures
            final(self).buf == old(self).buf,
            final(self).wf(),
            r matches Some(m) ==> wf_data_headers(m) && starts_at(
                old(self).buf@,
                old(self).pos as int,
                data_headers_bytes(m),
            ) && final(self).pos == old(self).pos + data_headers_bytes(m).len(),
            forall|m2: DataHeaders|
                wf_data_headers(m2) && starts_at(
                    old(self).buf@,
                    old(self).pos as int,
                    data_headers_bytes(m2),
                ) ==> r is Some && eq_data_headers(r.unwrap(), m2),
    {
        let ghost obuf = self.buf@;
        let ghost opos = self.pos as int;
        proof {
            lemma_data_headers_keys_wf();
        }
        let n = self.take_map_header();
        let f1 = self.take_u32_field("short_udid");
        let f2 = self.take_u32_field("viewer_id");
        let f3 = self.take_u32_field("servertime");
        let f4 = self.take_u8_field("result_code");
        let f5 = self.take_opt_str_field("udid");
        proof {
            assert forall|m2: DataHeaders|
                wf_data_headers(m2) && starts_at(obuf, opos, data_headers_bytes(m2)) implies n
                == Some(5u64) && f1 == Some(m2.short_udid) && f2 == Some(m2.viewer_id) && f3
                == Some(m2.servertime) && f4 == Some(m2.result_code) && f5 is Some && opt_view(
                f5.unwrap(),
            ) == opt_view(m2.udid) by {
                let parts = data_headers_parts(m2);
                lemma_data_headers_shape(m2);
                lemma_parts_starts_at(obuf, opos, parts);
                assert(starts_at(obuf, opos, map_header_bytes(5)));
                assert(starts_at(obuf, opos + parts_prefix_len(parts, 1), parts[1]));
                assert(f1 == Some(m2.short_udid));
                assert(kv_uint("short_udid"@, m2.short_udid as u64) == parts[1]);
                assert(starts_at(obuf, opos + parts_prefix_len(parts, 2), parts[2]));
                assert(f2 == Some(m2.viewer_id));
                assert(kv_uint("viewer_id"@, m2.viewer_id as u64) == parts[2]);
                assert(starts_at(obuf, opos + parts_prefix_len(parts, 3), parts[3]));
                assert(f3 == Some(m2.servertime));
                assert(kv_uint("servertime"@, m2.servertime as u64) == parts[3]);
                assert(starts_at(obuf, opos + parts_prefix_len(parts, 4), parts[4]));
                assert(f4 == Some(m2.result_code));
                assert(kv_uint("result_code"@, m2.result_code as u64) == parts[4]);
                assert(starts_at(obuf, opos + parts_prefix_len(parts, 5), parts[5]));
                assert(f5 is Some && opt_view(f5.unwrap()) == opt_view(m2.udid));
            }
        }
        let n_ok = match n {
            Some(v) => v == 5,
            None => false,
        };
        if !n_ok {
            return None;
        }
        match (f1, f2, f3, f4, f5) {
            (Some(short_udid), Some(viewer_id), Some(servertime), Some(result_code), Some(udid)) => {
                let m = DataHeaders { short_udid, viewer_id, servertime, result_code, udid };
                proof {
                    lemma_data_headers_shape(m);
                    let parts = data_headers_parts(m);
                    assert(starts_at(obuf, opos + parts_prefix_len(parts, 0), parts[0]));
                    assert(starts_at(obuf, opos + parts_prefix_len(parts, 1), parts[1]));
                    assert(starts_at(obuf, opos + parts_prefix_len(parts, 2), parts[2]));
                    assert(starts_at(obuf, opos + parts_prefix_len(parts, 3), parts[3]));
                    assert(starts_at(obuf, opos + parts_prefix_len(parts, 4), parts[4]));
                    assert(starts_at(obuf, opos + parts_prefix_len(parts, 5), parts[5]));
                    lemma_parts_concat_starts_at(obuf, opos, parts);
                    crate::codec::lemma_concat_parts_len(parts);
                }
                Some(m)
            },
            _ => None,
        }
    }
}

pub open spec fn load_response_parts(m: LoadResponse) -> Seq<Seq<u8>> {
    seq![map_header_bytes(1), kv_str("available_asset_version"@, m.available_asset_version@)]
}

pub open spec fn load_response_bytes(m: LoadResponse) -> Seq<u8> {
    concat_parts(load_response_parts(m))
}

pub open spec fn wf_load_response(m: LoadResponse) -> bool {
    wf_chars(m.available_asset_version@)
}

pub open spec fn eq_load_response(a: LoadResponse, b: LoadResponse) -> bool {
    a.available_asset_version@ == b.available_asset_version@
}

/// Frames a load-profile response; fails exactly on an oversized version.
pub fn encode_load_response(out: &mut Vec<u8>, m: &LoadResponse) -> (ok: bool)
    ensures
        ok == wf_load_response(*m),
        ok ==> final(out)@ == old(out)@ + load_response_bytes(*m),
{
    proof {
        reveal_strlit("available_asset_version");
        crate::msgpack::lemma_encode_utf8_len("available_asset_version"@);
    }
    let ok_h = put_map_header(out, 1);
    assert(ok_h);
    if !put_kv_str(out, "available_asset_version", m.available_asset_version.as_str()) {
        return false;
    }
    proof {
        reveal_with_fuel(concat_parts, 4);
        assert(out@ =~= old(out)@ + load_response_bytes(*m));
    }
    true
}

impl<'a> ByteReader<'a> {
    /// Parses a load-profile response.
    pub fn take_load_response(&mut self) -> (r: Option<LoadResponse>)
        requires
            old(self).wf(),
        ensures
            final(self).buf == old(self).buf,
            final(self).wf(),
            r matches Some(m) ==> wf_load_response(m) && starts_at(
                old(self).buf@,
                old(self).pos as int,
                load_response_bytes(m),
            ) && final(self).pos == old(self).pos + load_response_bytes(m).len(),
            forall|m2: LoadResponse|
                wf_load_response(m2) && starts_at(
                    old(self).buf@,
                    old(self).pos as int,
                    load_response_bytes(m2),
                ) ==> r is Some && eq_load_response(r.unwrap(), m2),
    {
        let ghost obuf = self.buf@;
        let ghost opos = self.pos as int;
        proof {
            reveal_strlit("available_asset_version");
            crate::msgpack::lemma_encode_utf8_len("available_asset_version"@);
        }
        let n = self.take_map_header();
        let f1 = self.take_str_field("available_asset_version");
        proof {
            reveal_with_fuel(concat_parts, 4);
            reveal_with_fuel(parts_prefix_len, 4);
            assert forall|m2: LoadResponse|
                wf_load_response(m2) && starts_at(obuf, opos, load_response_bytes(m2)) implies n
                == Some(1u64) && f1 is Some && f1.unwrap()@ == m2.available_asset_version@ by {
                let parts = load_response_parts(m2);
                lemma_parts_starts_at(obuf, opos, parts);
                assert(starts_at(obuf, opos, map_header_bytes(1)));
                assert(starts_at(obuf, opos + parts_prefix_len(parts, 1), parts[1]));
            }
        }
        let n_ok = match n {
            Some(v) => v == 1,
            None => false,
        };
        if !n_ok {
            return None;
        }
        match f1 {
            Some(available_asset_version) => {
                let m = LoadResponse { available_asset_version };
                proof {
                    reveal_with_fuel(concat_parts, 4);
                    reveal_with_fuel(parts_prefix_len, 4);
                    let parts = load_response_parts(m);
                    lemma_parts_concat_starts_at(obuf, opos, parts);
                    crate::codec::lemma_concat_parts_len(parts);
                }
                Some(m)
            },
            None => None,
        }
    }
}

// ------------------------------------------------------------------
// AssetVersionInfo.
// ------------------------------------------------------------------

pub open spec fn version_info_parts(m: AssetVersionInfo) -> Seq<Seq<u8>> {
    seq![
        map_header_bytes(4),
        kv_str("base_url"@, m.base_url@),
        kv_str("files_list"@, m.files_list@),
        kv_uint("total_size"@, m.total_size),
        kv_uint("delayed_assets_size"@, m.delayed_assets_size),
    ]
}

pub open spec fn version_info_bytes(m: AssetVersionInfo) -> Seq<u8> {
    concat_parts(version_info_parts(m))
}

pub open spec fn wf_version_info(m: AssetVersionInfo) -> bool {
    wf_chars(m.base_url@) && wf_chars(m.files_list@)
}

proof fn lemma_version_info_keys_wf()
    ensures
        wf_chars("base_url"@),
        wf_chars("files_list"@),
        wf_chars("total_size"@),
        wf_chars("delayed_assets_size"@),
{
    reveal_strlit("base_url");
    reveal_strlit("files_list");
    reveal_strlit("total_size");
    reveal_strlit("delayed_assets_size");
    crate::msgpack::lemma_encode_utf8_len("base_url"@);
    crate::msgpack::lemma_encode_utf8_len("files_list"@);
    crate::msgpack::lemma_encode_utf8_len("total_size"@);
    crate::msgpack::lemma_encode_utf8_len("delayed_assets_size"@);
}

proof fn lemma_version_info_shape(m: AssetVersionInfo)
    ensures
        ({
            let p = version_info_parts(m);
            &&& p.len() == 5
            &&& concat_parts(p) == p[0] + p[1] + p[2] + p[3] + p[4]
            &&& parts_prefix_len(p, 0) == 0
            &&& forall|k: int|
                0 <= k < 5 ==> #[trigger] parts_prefix_len(p, k + 1) == parts_prefix_len(p, k)
                    + p[k].len()
        }),
{
    reveal_with_fuel(concat_parts, 7);
    reveal_with_fuel(parts_prefix_len, 7);
    let p = version_info_parts(m);
    assert(concat_parts(p) =~= p[0] + p[1] + p[2] + p[3] + p[4]);
}

/// Frames a per-variant version info payload.
pub fn encode_version_info(out: &mut Vec<u8>, m: &AssetVersionInfo) -> (ok: bool)
    ensures
        ok == wf_version_info(*m),
        ok ==> final(out)@ == old(out)@ + version_info_bytes(*m),
{
    proof {
        lemma_version_info_keys_wf();
    }
    let ok_h = put_map_header(out, 4);
    assert(ok_h);
    if !put_kv_str(out, "base_url", m.base_url.as_str()) {
        return false;
    }
    if !put_kv_str(out, "files_list", m.files_list.as_str()) {
        return false;
    }
    let o1 = put_kv_uint(out, "total_size", m.total_size);
    assert(o1);
    let o2 = put_kv_uint(out, "delayed_assets_size", m.delayed_assets_size);
    assert(o2);
    proof {
        lemma_version_info_shape(*m);
        assert(out@ =~= old(out)@ + version_info_bytes(*m));
    }
    true
}

impl<'a> ByteReader<'a> {
    /// Parses a per-variant version info payload.
    #[verifier::rlimit(80)]
    pub fn take_version_info(&mut self) -> (r: Option<AssetVersionInfo>)
        requires
            old(self).wf(),
        ensures
            final(self).buf == old(self).buf,
            final(self).wf(),
            r matches Some(m) ==> wf_version_info(m) && starts_at(
                old(self).buf@,
                old(self).pos as int,
                version_info_bytes(m),
            ) && final(self).pos == old(self).pos + version_info_bytes(m).len(),
            forall|m2: AssetVersionInfo|
                wf_version_info(m2) && starts_at(
                    old(self).buf@,
                    old(self).pos as int,
                    version_info_bytes(m2),
                ) ==> r is Some && r.unwrap()@ == m2@,
    {
        let ghost obuf = self.buf@;
        let ghost opos = self.pos as int;
        proof {
            lemma_version_info_keys_wf();
        }
        let n = self.take_map_header();
        let f1 = self.take_str_field("base_url");
        let f2 = self.take_str_field("files_list");
        let f3 = self.take_uint_field("total_size");
        let f4 = self.take_uint_field("delayed_assets_size");
        proof {
            assert forall|m2: AssetVersionInfo|
                wf_version_info(m2) && starts_at(obuf, opos, version_info_bytes(m2)) implies n
                == Some(4u64) && f1 is Some && f1.unwrap()@ == m2.base_url@ && f2 is Some
                && f2.unwrap()@ == m2.files_list@ && f3 == Some(m2.total_size) && f4 == Some(
                m2.delayed_assets_size,
            ) by {
                let parts = version_info_parts(m2);
                lemma_version_info_shape(m2);
                lemma_parts_starts_at(obuf, opos, parts);
                assert(starts_at(obuf, opos, map_header_bytes(4)));
                assert(starts_at(obuf, opos + parts_prefix_len(parts, 1), parts[1]));
                assert(f1 is Some && f1.unwrap()@ == m2.base_url@);
                assert(kv_str("base_url"@, f1.unwrap()@) == parts[1]);
                assert(starts_at(obuf, opos + parts_prefix_len(parts, 2), parts[2]));
                assert(f2 is Some && f2.unwrap()@ == m2.files_list@);
                assert(kv_str("files_list"@, f2.unwrap()@) == parts[2]);
                assert(starts_at(obuf, opos + parts_prefix_len(parts, 3), parts[3]));
                assert(f3 == Some(m2.total_size));
                assert(kv_uint("total_size"@, m2.total_size) == parts[3]);
                assert(starts_at(obuf, opos + parts_prefix_len(parts, 4), parts[4]));
            }
        }
        let n_ok = match n {
            Some(v) => v == 4,
            None => false,
        };
        if !n_ok {
            return None;
        }
        match (f1, f2, f3, f4) {
            (Some(base_url), Some(files_list), Some(total_size), Some(delayed_assets_size)) => {
                let m = AssetVersionInfo { base_url, files_list, total_size, delayed_assets_size };
                proof {
                    lemma_version_info_shape(m);
                    let parts = version_info_parts(m);
                    assert(starts_at(obuf, opos + parts_prefix_len(parts, 0), parts[0]));
                    assert(starts_at(obuf, opos + parts_prefix_len(parts, 1), parts[1]));
                    assert(starts_at(obuf, opos + parts_prefix_len(parts, 2), parts[2]));
                    assert(starts_at(obuf, opos + parts_prefix_len(parts, 3), parts[3]));
                    assert(starts_at(obuf, opos + parts_prefix_len(parts, 4), parts[4]));
                    lemma_parts_concat_starts_at(obuf, opos, parts);
                    crate::codec::lemma_concat_parts_len(parts);
                }
                Some(m)
            },
            _ => None,
        }
    }
}

// ------------------------------------------------------------------
// The manifest family. Containers with archive arrays are framed with
// exact encoders; their parsers enforce the same shape without carrying
// the completeness clause.
// ------------------------------------------------------------------

pub open spec fn archive_parts(m: AssetPathArchive) -> Seq<Seq<u8>> {
    seq![
        map_header_bytes(3),
        kv_str("location"@, m.location@),
        kv_uint("size"@, m.size),
        kv_str("sha256"@, m.sha256@),
    ]
}

pub open spec fn archive_bytes(m: AssetPathArchive) -> Seq<u8> {
    concat_parts(archive_parts(m))
}

pub open spec fn wf_archive(m: AssetPathArchive) -> bool {
    wf_chars(m.location@) && wf_chars(m.sha256@)
}

proof fn lemma_archive_keys_wf()
    ensures
        wf_chars("location"@),
        wf_chars("size"@),
        wf_chars("sha256"@),
{
    reveal_strlit("location");
    reveal_strlit("size");
    reveal_strlit("sha256");
    crate::msgpack::lemma_encode_utf8_len("location"@);
    crate::msgpack::lemma_encode_utf8_len("size"@);
    crate::msgpack::lemma_encode_utf8_len("sha256"@);
}

proof fn lemma_archive_shape(m: AssetPathArchive)
    ensures
        ({
            let p = archive_parts(m);
            &&& p.len() == 4
            &&& concat_parts(p) == p[0] + p[1] + p[2] + p[3]
            &&& parts_prefix_len(p, 0) == 0
            &&& forall|k: int|
                0 <= k < 4 ==> #[trigger] parts_prefix_len(p, k + 1) == parts_prefix_len(p, k)
                    + p[k].len()
        }),
{
    reveal_with_fuel(concat_parts, 6);
    reveal_with_fuel(parts_prefix_len, 6);
    let p = archive_parts(m);
    assert(concat_parts(p) =~= p[0] + p[1] + p[2] + p[3]);
}

/// Frames one archive entry.
pub fn encode_archive(out: &mut Vec<u8>, m: &AssetPathArchive) -> (ok: bool)
    ensures
        ok == wf_archive(*m),
        ok ==> final(out)@ == old(out)@ + archive_bytes(*m),
{
    proof {
        lemma_archive_keys_wf();
    }
    let ok_h = put_map_header(out, 3);
    assert(ok_h);
    if !put_kv_str(out, "location", m.location.as_str()) {
        return false;
    }
    let o1 = put_kv_uint(out, "size", m.size);
    assert(o1);
    if !put_kv_str(out, "sha256", m.sha256.as_str()) {
        return false;
    }
    proof {
        lemma_archive_shape(*m);
        assert(out@ =~= old(out)@ + archive_bytes(*m));
    }
    true
}

impl<'a> ByteReader<'a> {
    /// Parses one archive entry.
    #[verifier::rlimit(80)]
    pub fn take_archive(&mut self) -> (r: Option<AssetPathArchive>)
        requires
            old(self).wf(),
        ensures
            final(self).buf == old(self).buf,
            final(self).wf(),
            r matches Some(m) ==> wf_archive(m) && starts_at(
                old(self).buf@,
                old(self).pos as int,
                archive_bytes(m),
            ) && final(self).pos == old(self).pos + archive_bytes(m).len(),
            forall|m2: AssetPathArchive|
                wf_archive(m2) && starts_at(old(self).buf@, old(self).pos as int, archive_bytes(m2))
                    ==> r is Some && r.unwrap()@ == m2@,
    {
        let ghost obuf = self.buf@;
        let ghost opos = self.pos as int;
        proof {
            lemma_archive_keys_wf();
        }
        let n = self.take_map_header();
        let f1 = self.take_str_field("location");
        let f2 = self.take_uint_field("size");
        let f3 = self.take_str_field("sha256");
        proof {
            assert forall|m2: AssetPathArchive|
                wf_archive(m2) && starts_at(obuf, opos, archive_bytes(m2)) implies n == Some(3u64)
                && f1 is Some && f1.unwrap()@ == m2.location@ && f2 == Some(m2.size) && f3
                is Some && f3.unwrap()@ == m2.sha256@ by {
                let parts = archive_parts(m2);
                lemma_archive_shape(m2);
                lemma_parts_starts_at(obuf, opos, parts);
                assert(starts_at(obuf, opos, map_header_bytes(3)));
                assert(starts_at(obuf, opos + parts_prefix_len(parts, 1), parts[1]));
                assert(f1 is Some && f1.unwrap()@ == m2.location@);
                assert(kv_str("location"@, f1.unwrap()@) == parts[1]);
                assert(starts_at(obuf, opos + parts_prefix_len(parts, 2), parts[2]));
                assert(f2 == Some(m2.size));
                assert(kv_uint("size"@, m2.size) == parts[2]);
                assert(starts_at(obuf, opos + parts_prefix_len(parts, 3), parts[3]));
            }
        }
        let n_ok = match n {
            Some(v) => v == 3,
            None => false,
        };
        if !n_ok {
            return None;
        }
        match (f1, f2, f3) {
            (Some(location), Some(size), Some(sha256)) => {
                let m = AssetPathArchive { location, size, sha256 };
                proof {
                    lemma_archive_shape(m);
                    let parts = archive_parts(m);
                    assert(starts_at(obuf, opos + parts_prefix_len(parts, 0), parts[0]));
                    assert(starts_at(obuf, opos + parts_prefix_len(parts, 1), parts[1]));
                    assert(starts_at(obuf, opos + parts_prefix_len(parts, 2), parts[2]));
                    assert(starts_at(obuf, opos + parts_prefix_len(parts, 3), parts[3]));
                    lemma_parts_concat_starts_at(obuf, opos, parts);
                    crate::codec::lemma_concat_parts_len(parts);
                }
                Some(m)
            },
            _ => None,
        }
    }
}

/// The archive entries of a set, in order.
pub open spec fn archives_bytes(s: Seq<AssetPathArchive>) -> Seq<u8>
    decreases s.len(),
{
    if s.len() == 0 {
        Seq::empty()
    } else {
        archives_bytes(s.drop_last()) + archive_bytes(s.last())
    }
}

pub open spec fn wf_archives(s: Seq<AssetPathArchive>) -> bool {
    s.len() < 0x1_0000_0000 && forall|i: int| 0 <= i < s.len() ==> wf_archive(#[trigger] s[i])
}

/// Equal views give equal archive bytes.
proof fn lemma_archive_bytes_congruent(x: AssetPathArchive, y: AssetPathArchive)
    requires
        x@ == y@,
    ensures
        archive_bytes(x) == archive_bytes(y),
{
    assert(archive_parts(x) =~= archive_parts(y));
}

/// Equal view sequences give equal archive-array bytes.
proof fn lemma_archives_bytes_congruent(x: Seq<AssetPathArchive>, y: Seq<AssetPathArchive>)
    requires
        avs(x) == avs(y),
    ensures
        archives_bytes(x) == archives_bytes(y),
    decreases x.len(),
{
    assert(x.len() == y.len()) by {
        assert(avs(x).len() == x.len() && avs(y).len() == y.len());
    }
    if x.len() > 0 {
        assert forall|k: int| 0 <= k < x.len() - 1 implies avs(x.drop_last())[k] == avs(
            y.drop_last(),
        )[k] by {
            assert(avs(x.drop_last())[k] == x.drop_last()[k]@ && x.drop_last()[k] == x[k]);
            assert(avs(y.drop_last())[k] == y.drop_last()[k]@ && y.drop_last()[k] == y[k]);
            assert(avs(x)[k] == x[k]@ && avs(y)[k] == y[k]@);
        }
        assert(avs(x.drop_last()) =~= avs(y.drop_last()));
        lemma_archives_bytes_congruent(x.drop_last(), y.drop_last());
        assert(x.last()@ == avs(x)[x.len() - 1] && y.last()@ == avs(y)[y.len() - 1]);
        lemma_archive_bytes_congruent(x.last(), y.last());
    }
}

/// Archive-array bytes distribute over concatenation.
proof fn lemma_archives_bytes_concat(a: Seq<AssetPathArchive>, b: Seq<AssetPathArchive>)
    ensures
        archives_bytes(a + b) == archives_bytes(a) + archives_bytes(b),
    decreases b.len(),
{
    if b.len() == 0 {
        assert(a + b =~= a);
        assert(archives_bytes(a) + archives_bytes(b) =~= archives_bytes(a));
    } else {
        lemma_archives_bytes_concat(a, b.drop_last());
        assert((a + b).drop_last() =~= a + b.drop_last());
        assert((a + b).last() == b.last());
        assert(archives_bytes(a) + archives_bytes(b.drop_last()) + archive_bytes(b.last())
            =~= archives_bytes(a) + (archives_bytes(b.drop_last()) + archive_bytes(b.last())));
    }
}

/// The archive bytes of one element.
proof fn lemma_archives_bytes_singleton(x: AssetPathArchive)
    ensures
        archives_bytes(seq![x]) == archive_bytes(x),
{
    reveal_with_fuel(archives_bytes, 3);
    assert(seq![x].drop_last() =~= Seq::<AssetPathArchive>::empty());
    assert(seq![x].last() == x);
    assert(archives_bytes(Seq::<AssetPathArchive>::empty()) + archive_bytes(x) =~= archive_bytes(
        x,
    ));
}

/// Frames an archive array with its header.
pub fn encode_archives(out: &mut Vec<u8>, v: &Vec<AssetPathArchive>) -> (ok: bool)
    ensures
        ok == wf_archives(v@),
        ok ==> final(out)@ == old(out)@ + crate::msgpack::array_header_bytes(v@.len() as int)
            + archives_bytes(v@),
{
    if !crate::msgpack::put_array_header(out, v.len()) {
        return false;
    }
    let ghost mid = out@;
    let mut i: usize = 0;
    while i < v.len()
        invariant
            0 <= i <= v@.len(),
            forall|k: int| 0 <= k < i ==> wf_archive(#[trigger] v@[k]),
            out@ == mid + archives_bytes(v@.take(i as int)),
        decreases v@.len() - i,
    {
        if !encode_archive(out, &v[i]) {
            return false;
        }
        proof {
            assert(v@.take(i + 1).drop_last() =~= v@.take(i as int));
            assert(v@.take(i + 1).last() == v@[i as int]);
        }
        i += 1;
    }
    proof {
        assert(v@.take(v@.len() as int) =~= v@);
    }
    true
}

impl<'a> ByteReader<'a> {
    /// Parses an archive array.
    #[verifier::rlimit(100)]
    #[verifier::spinoff_prover]
    pub fn take_archives(&mut self) -> (r: Option<Vec<AssetPathArchive>>)
        requires
            old(self).wf(),
        ensures
            final(self).buf == old(self).buf,
            final(self).wf(),
            r matches Some(v) ==> wf_archives(v@) && starts_at(
                old(self).buf@,
                old(self).pos as int,
                crate::msgpack::array_header_bytes(v@.len() as int) + archives_bytes(v@),
            ) && final(self).pos == old(self).pos + (crate::msgpack::array_header_bytes(
                v@.len() as int,
            ) + archives_bytes(v@)).len(),
            forall|a: Seq<AssetPathArchive>|
                wf_archives(a) && starts_at(
                    old(self).buf@,
                    old(self).pos as int,
                    crate::msgpack::array_header_bytes(a.len() as int) + #[trigger] archives_bytes(
                        a,
                    ),
                ) ==> r is Some && avs(r.unwrap()@) == avs(a),
    {
        let ghost obuf = self.buf@;
        let ghost opos = self.pos as int;
        let n = match self.take_array_header() {
            Some(n) => n,
            None => {
                proof {
                    assert forall|a: Seq<AssetPathArchive>|
                        wf_archives(a) implies !starts_at(
                        obuf,
                        opos,
                        crate::msgpack::array_header_bytes(a.len() as int)
                            + #[trigger] archives_bytes(a),
                    ) by {
                        if starts_at(
                            obuf,
                            opos,
                            crate::msgpack::array_header_bytes(a.len() as int) + archives_bytes(
                                a,
                            ),
                        ) {
                            lemma_starts_at_concat(
                                obuf,
                                opos,
                                crate::msgpack::array_header_bytes(a.len() as int),
                                archives_bytes(a),
                            );
                        }
                    }
                }
                return None;
            },
        };
        let ghost hdr = crate::msgpack::array_header_bytes(n as int);
        proof {
            assert forall|a: Seq<AssetPathArchive>|
                wf_archives(a) && starts_at(
                    obuf,
                    opos,
                    crate::msgpack::array_header_bytes(a.len() as int) + #[trigger] archives_bytes(
                        a,
                    ),
                ) implies a.len() == n && starts_at(
                obuf,
                opos + hdr.len(),
                archives_bytes(a),
            ) by {
                lemma_starts_at_concat(
                    obuf,
                    opos,
                    crate::msgpack::array_header_bytes(a.len() as int),
                    archives_bytes(a),
                );
            }
        }
        let mut v: Vec<AssetPathArchive> = Vec::new();
        let mut i: u64 = 0;
        proof {
            assert(archives_bytes(v@) =~= Seq::<u8>::empty());
            assert(obuf.subrange(opos + hdr.len(), opos + hdr.len()) =~= Seq::<u8>::empty());
            assert forall|a: Seq<AssetPathArchive>|
                wf_archives(a) && starts_at(
                    obuf,
                    opos,
                    crate::msgpack::array_header_bytes(a.len() as int) + #[trigger] archives_bytes(
                        a,
                    ),
                ) implies avs(a.take(i as int)) == avs(v@) by {
                assert(avs(a.take(0)) =~= avs(v@));
            }
        }
        while i < n
            invariant
                0 <= i <= n,
                n < 0x1_0000_0000,
                v@.len() == i,
                self.buf == old(self).buf,
                self.buf@ == obuf,
                obuf == old(self).buf@,
                opos == old(self).pos as int,
                self.wf(),
                wf_archives(v@),
                hdr == crate::msgpack::array_header_bytes(n as int),
                starts_at(obuf, opos + hdr.len(), archives_bytes(v@)),
                self.pos == opos + hdr.len() + archives_bytes(v@).len(),
                0 <= opos,
                forall|a: Seq<AssetPathArchive>|
                    wf_archives(a) && starts_at(
                        obuf,
                        opos,
                        crate::msgpack::array_header_bytes(a.len() as int)
                            + #[trigger] archives_bytes(a),
                    ) ==> a.len() == n && avs(a.take(i as int)) == avs(v@),
            decreases n - i,
        {
            let ghost curpos = self.pos as int;
            proof {
                assert forall|a: Seq<AssetPathArchive>|
                    wf_archives(a) && starts_at(
                        obuf,
                        opos,
                        crate::msgpack::array_header_bytes(a.len() as int)
                            + #[trigger] archives_bytes(a),
                    ) implies starts_at(obuf, curpos, archive_bytes(a[i as int])) by {
                    lemma_starts_at_concat(
                        obuf,
                        opos,
                        crate::msgpack::array_header_bytes(a.len() as int),
                        archives_bytes(a),
                    );
                    assert(a =~= a.take(i as int) + a.skip(i as int));
                    lemma_archives_bytes_concat(a.take(i as int), a.skip(i as int));
                    assert(a.skip(i as int) =~= seq![a[i as int]] + a.skip(i as int + 1));
                    lemma_archives_bytes_concat(seq![a[i as int]], a.skip(i as int + 1));
                    lemma_archives_bytes_singleton(a[i as int]);
                    crate::msgpack::lemma_bytes_assoc(
                        archives_bytes(a.take(i as int)),
                        archive_bytes(a[i as int]),
                        archives_bytes(a.skip(i as int + 1)),
                    );
                    lemma_starts_at_concat(
                        obuf,
                        opos + hdr.len(),
                        archives_bytes(a.take(i as int)),
                        archive_bytes(a[i as int]) + archives_bytes(a.skip(i as int + 1)),
                    );
                    lemma_archives_bytes_congruent_by_views(a.take(i as int), v@);
                    lemma_starts_at_concat(
                        obuf,
                        opos + hdr.len() + archives_bytes(a.take(i as int)).len(),
                        archive_bytes(a[i as int]),
                        archives_bytes(a.skip(i as int + 1)),
                    );
                }
            }
            let a_elem = match self.take_archive() {
                Some(a) => a,
                None => {
                    proof {
                        assert forall|a: Seq<AssetPathArchive>|
                            wf_archives(a) implies !starts_at(
                            obuf,
                            opos,
                            crate::msgpack::array_header_bytes(a.len() as int)
                                + #[trigger] archives_bytes(a),
                        ) by {
                            if starts_at(
                                obuf,
                                opos,
                                crate::msgpack::array_header_bytes(a.len() as int)
                                    + archives_bytes(a),
                            ) {
                                assert(wf_archive(a[i as int]));
                                assert(starts_at(obuf, curpos, archive_bytes(a[i as int])));
                            }
                        }
                    }
                    return None;
                },
            };
            proof {
                lemma_concat_starts_at(
                    obuf,
                    opos + hdr.len(),
                    archives_bytes(v@),
                    archive_bytes(a_elem),
                );
                assert(v@.push(a_elem).drop_last() =~= v@);
                assert(v@.push(a_elem).last() == a_elem);
            }
            let ghost oldv = v@;
            v.push(a_elem);
            proof {
                assert forall|k: int| 0 <= k < v@.len() implies wf_archive(#[trigger] v@[k]) by {
                    if k < oldv.len() {
                        assert(v@[k] == oldv[k]);
                    }
                }
                assert forall|a: Seq<AssetPathArchive>|
                    wf_archives(a) && starts_at(
                        obuf,
                        opos,
                        crate::msgpack::array_header_bytes(a.len() as int)
                            + #[trigger] archives_bytes(a),
                    ) implies avs(a.take(i as int + 1)) == avs(v@) by {
                    assert(starts_at(obuf, curpos, archive_bytes(a[i as int])));
                    assert(a_elem@ == a[i as int]@);
                    assert(avs(a.take(i as int + 1)) =~= avs(a.take(i as int)).push(
                        a[i as int]@,
                    ));
                    assert(avs(v@) =~= avs(oldv).push(a_elem@));
                }
            }
            i += 1;
        }
        proof {
            lemma_concat_starts_at(obuf, opos, hdr, archives_bytes(v@));
            assert forall|a: Seq<AssetPathArchive>|
                wf_archives(a) && starts_at(
                    obuf,
                    opos,
                    crate::msgpack::array_header_bytes(a.len() as int) + #[trigger] archives_bytes(
                        a,
                    ),
                ) implies avs(v@) == avs(a) by {
                assert(a.take(n as int) =~= a);
            }
        }
        Some(v)
    }
}

/// Equal views give equal archive-array bytes (stated over views to fire
/// inside quantified contexts).
proof fn lemma_archives_bytes_congruent_by_views(x: Seq<AssetPathArchive>, y: Seq<
    AssetPathArchive,
>)
    requires
        avs(x) == avs(y),
    ensures
        archives_bytes(x) == archives_bytes(y),
        archives_bytes(x).len() == archives_bytes(y).len(),
{
    lemma_archives_bytes_congruent(x, y);
}

pub open spec fn paths_info_parts(m: AssetPathsInfo) -> Seq<Seq<u8>> {
    seq![
        map_header_bytes(5),
        kv_str("client_asset_version"@, m.client_asset_version@),
        kv_str("target_asset_version"@, m.target_asset_version@),
        kv_str("eventual_target_asset_version"@, m.eventual_target_asset_version@),
        kv_bool("is_initial"@, m.is_initial),
        kv_str("latest_maj_first_version"@, m.latest_maj_first_version@),
    ]
}

pub open spec fn paths_info_bytes(m: AssetPathsInfo) -> Seq<u8> {
    concat_parts(paths_info_parts(m))
}

pub open spec fn wf_paths_info(m: AssetPathsInfo) -> bool {
    &&& wf_chars(m.client_asset_version@)
    &&& wf_chars(m.target_asset_version@)
    &&& wf_chars(m.eventual_target_asset_version@)
    &&& wf_chars(m.latest_maj_first_version@)
}

proof fn lemma_paths_info_keys_wf()
    ensures
        wf_chars("client_asset_version"@),
        wf_chars("target_asset_version"@),
        wf_chars("eventual_target_asset_version"@),
        wf_chars("is_initial"@),
        wf_chars("latest_maj_first_version"@),
{
    reveal_strlit("client_asset_version");
    reveal_strlit("target_asset_version");
    reveal_strlit("eventual_target_asset_version");
    reveal_strlit("is_initial");
    reveal_strlit("latest_maj_first_version");
    crate::msgpack::lemma_encode_utf8_len("client_asset_version"@);
    crate::msgpack::lemma_encode_utf8_len("target_asset_version"@);
    crate::msgpack::lemma_encode_utf8_len("eventual_target_asset_version"@);
    crate::msgpack::lemma_encode_utf8_len("is_initial"@);
    crate::msgpack::lemma_encode_utf8_len("latest_maj_first_version"@);
}

proof fn lemma_paths_info_shape(m: AssetPathsInfo)
    ensures
        ({
            let p = paths_info_parts(m);
            &&& p.len() == 6
            &&& concat_parts(p) == p[0] + p[1] + p[2] + p[3] + p[4] + p[5]
            &&& parts_prefix_len(p, 0) == 0
            &&& forall|k: int|
                0 <= k < 6 ==> #[trigger] parts_prefix_len(p, k + 1) == parts_prefix_len(p, k)
                    + p[k].len()
        }),
{
    reveal_with_fuel(concat_parts, 8);
    reveal_with_fuel(parts_prefix_len, 8);
    let p = paths_info_parts(m);
    assert(concat_parts(p) =~= p[0] + p[1] + p[2] + p[3] + p[4] + p[5]);
}

/// Frames the manifest's resolution metadata.
#[verifier::rlimit(100)]
#[verifier::spinoff_prover]
pub fn encode_paths_info(out: &mut Vec<u8>, m: &AssetPathsInfo) -> (ok: bool)
    ensures
        ok == wf_paths_info(*m),
        ok ==> final(out)@ == old(out)@ + paths_info_bytes(*m),
{
    proof {
        lemma_paths_info_keys_wf();
    }
    let ok_h = put_map_header(out, 5);
    assert(ok_h);
    if !put_kv_str(out, "client_asset_version", m.client_asset_version.as_str()) {
        return false;
    }
    if !put_kv_str(out, "target_asset_version", m.target_asset_version.as_str()) {
        return false;
    }
    if !put_kv_str(out, "eventual_target_asset_version", m.eventual_target_asset_version.as_str())
        {
        return false;
    }
    let o1 = put_kv_bool(out, "is_initial", m.is_initial);
    assert(o1);
    if !put_kv_str(out, "latest_maj_first_version", m.latest_maj_first_version.as_str()) {
        return false;
    }
    proof {
        lemma_paths_info_shape(*m);
        assert(out@ =~= old(out)@ + paths_info_bytes(*m));
    }
    true
}

impl<'a> ByteReader<'a> {
    /// Parses the manifest's resolution metadata.
    #[verifier::rlimit(80)]
    pub fn take_paths_info(&mut self) -> (r: Option<AssetPathsInfo>)
        requires
            old(self).wf(),
        ensures
            final(self).buf == old(self).buf,
            final(self).wf(),
            r matches Some(m) ==> wf_paths_info(m) && starts_at(
                old(self).buf@,
                old(self).pos as int,
                paths_info_bytes(m),
            ) && final(self).pos == old(self).pos + paths_info_bytes(m).len(),
            forall|m2: AssetPathsInfo|
                wf_paths_info(m2) && starts_at(
                    old(self).buf@,
                    old(self).pos as int,
                    paths_info_bytes(m2),
                ) ==> r is Some && r.unwrap()@ == m2@,
    {
        let ghost obuf = self.buf@;
        let ghost opos = self.pos as int;
        proof {
            lemma_paths_info_keys_wf();
        }
        let n = self.take_map_header();
        let f1 = self.take_str_field("client_asset_version");
        let f2 = self.take_str_field("target_asset_version");
        let f3 = self.take_str_field("eventual_target_asset_version");
        let f4 = self.take_bool_field("is_initial");
        let f5 = self.take_str_field("latest_maj_first_version");
        proof {
            assert forall|m2: AssetPathsInfo|
                wf_paths_info(m2) && starts_at(obuf, opos, paths_info_bytes(m2)) implies n == Some(
                5u64,
            ) && f1 is Some && f1.unwrap()@ == m2.client_asset_version@ && f2 is Some
                && f2.unwrap()@ == m2.target_asset_version@ && f3 is Some && f3.unwrap()@
                == m2.eventual_target_asset_version@ && f4 == Some(m2.is_initial) && f5 is Some
                && f5.unwrap()@ == m2.latest_maj_first_version@ by {
                let parts = paths_info_parts(m2);
                lemma_paths_info_shape(m2);
                lemma_parts_starts_at(obuf, opos, parts);
                assert(starts_at(obuf, opos, map_header_bytes(5)));
                assert(starts_at(obuf, opos + parts_prefix_len(parts, 1), parts[1]));
                assert(f1 is Some && f1.unwrap()@ == m2.client_asset_version@);
                assert(kv_str("client_asset_version"@, f1.unwrap()@) == parts[1]);
                assert(starts_at(obuf, opos + parts_prefix_len(parts, 2), parts[2]));
                assert(f2 is Some && f2.unwrap()@ == m2.target_asset_version@);
                assert(kv_str("target_asset_version"@, f2.unwrap()@) == parts[2]);
                assert(starts_at(obuf, opos + parts_prefix_len(parts, 3), parts[3]));
                assert(f3 is Some && f3.unwrap()@ == m2.eventual_target_asset_version@);
                assert(kv_str("eventual_target_asset_version"@, f3.unwrap()@) == parts[3]);
                assert(starts_at(obuf, opos + parts_prefix_len(parts, 4), parts[4]));
                assert(f4 == Some(m2.is_initial));
                assert(kv_bool("is_initial"@, m2.is_initial) == parts[4]);
                assert(starts_at(obuf, opos + parts_prefix_len(parts, 5), parts[5]));
                assert(f5 is Some && f5.unwrap()@ == m2.latest_maj_first_version@);
            }
        }
        let n_ok = match n {
            Some(v) => v == 5,
            None => false,
        };
        if !n_ok {
            return None;
        }
        match (f1, f2, f3, f4, f5) {
            (
                Some(client_asset_version),
                Some(target_asset_version),
                Some(eventual_target_asset_version),
                Some(is_initial),
                Some(latest_maj_first_version),
            ) => {
                let m = AssetPathsInfo {
                    client_asset_version,
                    target_asset_version,
                    eventual_target_asset_version,
                    is_initial,
                    latest_maj_first_version,
                };
                proof {
                    lemma_paths_info_shape(m);
                    let parts = paths_info_parts(m);
                    assert(starts_at(obuf, opos + parts_prefix_len(parts, 0), parts[0]));
                    assert(starts_at(obuf, opos + parts_prefix_len(parts, 1), parts[1]));
                    assert(starts_at(obuf, opos + parts_prefix_len(parts, 2), parts[2]));
                    assert(starts_at(obuf, opos + parts_prefix_len(parts, 3), parts[3]));
                    assert(starts_at(obuf, opos + parts_prefix_len(parts, 4), parts[4]));
                    assert(starts_at(obuf, opos + parts_prefix_len(parts, 5), parts[5]));
                    lemma_parts_concat_starts_at(obuf, opos, parts);
                    crate::codec::lemma_concat_parts_len(parts);
                }
                Some(m)
            },
            _ => None,
        }
    }
}

// ------------------------------------------------------------------
// Manifest containers.
// ------------------------------------------------------------------

pub open spec fn full_bytes(m: AssetPathsFull) -> Seq<u8> {
    map_header_bytes(2) + kv_str("version"@, m.version@) + crate::msgpack::str_bytes("archive"@)
        + crate::msgpack::array_header_bytes(m.archive@.len() as int) + archives_bytes(m.archive@)
}

pub open spec fn wf_full(m: AssetPathsFull) -> bool {
    wf_chars(m.version@) && wf_archives(m.archive@)
}

proof fn lemma_container_keys_wf()
    ensures
        wf_chars("version"@),
        wf_chars("archive"@),
        wf_chars("original_version"@),
        wf_chars("info"@),
        wf_chars("full"@),
        wf_chars("diff"@),
        wf_chars("asset_version_hash"@),
        wf_chars("data_headers"@),
        wf_chars("data"@),
{
    reveal_strlit("version");
    reveal_strlit("archive");
    reveal_strlit("original_version");
    reveal_strlit("info");
    reveal_strlit("full");
    reveal_strlit("diff");
    reveal_strlit("asset_version_hash");
    reveal_strlit("data_headers");
    reveal_strlit("data");
    crate::msgpack::lemma_encode_utf8_len("version"@);
    crate::msgpack::lemma_encode_utf8_len("archive"@);
    crate::msgpack::lemma_encode_utf8_len("original_version"@);
    crate::msgpack::lemma_encode_utf8_len("info"@);
    crate::msgpack::lemma_encode_utf8_len("full"@);
    crate::msgpack::lemma_encode_utf8_len("diff"@);
    crate::msgpack::lemma_encode_utf8_len("asset_version_hash"@);
    crate::msgpack::lemma_encode_utf8_len("data_headers"@);
    crate::msgpack::lemma_encode_utf8_len("data"@);
}

/// Frames the full archive set.
pub fn encode_full(out: &mut Vec<u8>, m: &AssetPathsFull) -> (ok: bool)
    ensures
        ok == wf_full(*m),
        ok ==> final(out)@ == old(out)@ + full_bytes(*m),
{
    proof {
        lemma_container_keys_wf();
    }
    let ok_h = put_map_header(out, 2);
    assert(ok_h);
    if !put_kv_str(out, "version", m.version.as_str()) {
        return false;
    }
    let ok_k = crate::msgpack::put_str(out, "archive");
    assert(ok_k);
    if !encode_archives(out, &m.archive) {
        return false;
    }
    proof {
        assert(out@ =~= old(out)@ + full_bytes(*m));
    }
    true
}

impl<'a> ByteReader<'a> {
    /// Parses the full archive set.
    #[verifier::rlimit(100)]
    #[verifier::spinoff_prover]
    pub fn take_full(&mut self) -> (r: Option<AssetPathsFull>)
        requires
            old(self).wf(),
        ensures
            final(self).buf == old(self).buf,
            final(self).wf(),
            r matches Some(m) ==> wf_full(m) && starts_at(
                old(self).buf@,
                old(self).pos as int,
                full_bytes(m),
            ) && final(self).pos == old(self).pos + full_bytes(m).len(),
            forall|m2: AssetPathsFull|
                wf_full(m2) && starts_at(old(self).buf@, old(self).pos as int, full_bytes(m2))
                    ==> r is Some && r.unwrap()@ == m2@,
    {
        let ghost obuf = self.buf@;
        let ghost opos = self.pos as int;
        proof {
            lemma_container_keys_wf();
        }
        let n = self.take_map_header();
        let version = self.take_str_field("version");
        let k = self.take_key("archive");
        let archive = self.take_archives();
        proof {
            assert forall|m2: AssetPathsFull|
                wf_full(m2) && starts_at(obuf, opos, full_bytes(m2)) implies n == Some(2u64)
                && version is Some && version.unwrap()@ == m2.version@ && k && archive is Some
                && avs(archive.unwrap()@) == avs(m2.archive@) by {
                let p0 = map_header_bytes(2);
                let p1 = kv_str("version"@, m2.version@);
                let p2 = crate::msgpack::str_bytes("archive"@);
                let p3 = crate::msgpack::array_header_bytes(m2.archive@.len() as int)
                    + archives_bytes(m2.archive@);
                crate::msgpack::lemma_bytes_assoc(
                    p0 + p1 + p2,
                    crate::msgpack::array_header_bytes(m2.archive@.len() as int),
                    archives_bytes(m2.archive@),
                );
                lemma_starts_at_concat(obuf, opos, p0 + p1 + p2, p3);
                lemma_starts_at_concat(obuf, opos, p0 + p1, p2);
                lemma_starts_at_concat(obuf, opos, p0, p1);
                assert(version is Some && version.unwrap()@ == m2.version@);
                assert(kv_str("version"@, version.unwrap()@) == p1);
                assert(k);
                assert(archive is Some && avs(archive.unwrap()@) == avs(m2.archive@));
            }
        }
        let n_ok = match n {
            Some(v) => v == 2,
            None => false,
        };
        if !n_ok || !k {
            return None;
        }
        match (version, archive) {
            (Some(version), Some(archive)) => {
                let m = AssetPathsFull { version, archive };
                proof {
                    let p0 = map_header_bytes(2);
                    let p1 = kv_str("version"@, m.version@);
                    let p2 = crate::msgpack::str_bytes("archive"@);
                    let p3 = crate::msgpack::array_header_bytes(m.archive@.len() as int)
                        + archives_bytes(m.archive@);
                    lemma_concat_starts_at(obuf, opos, p0, p1);
                    lemma_concat_starts_at(obuf, opos, p0 + p1, p2);
                    lemma_concat_starts_at(obuf, opos, p0 + p1 + p2, p3);
                    crate::msgpack::lemma_bytes_assoc(
                        p0 + p1 + p2,
                        crate::msgpack::array_header_bytes(m.archive@.len() as int),
                        archives_bytes(m.archive@),
                    );
                }
                Some(m)
            },
            _ => None,
        }
    }
}

pub open spec fn diff_bytes(m: AssetPathDiff) -> Seq<u8> {
    map_header_bytes(3) + kv_str("version"@, m.version@) + kv_str(
        "original_version"@,
        m.original_version@,
    ) + crate::msgpack::str_bytes("archive"@) + crate::msgpack::array_header_bytes(
        m.archive@.len() as int,
    ) + archives_bytes(m.archive@)
}

pub open spec fn wf_diff(m: AssetPathDiff) -> bool {
    wf_chars(m.version@) && wf_chars(m.original_version@) && wf_archives(m.archive@)
}

/// Frames one diff archive set.
pub fn encode_diff(out: &mut Vec<u8>, m: &AssetPathDiff) -> (ok: bool)
    ensures
        ok == wf_diff(*m),
        ok ==> final(out)@ == old(out)@ + diff_bytes(*m),
{
    proof {
        lemma_container_keys_wf();
    }
    let ok_h = put_map_header(out, 3);
    assert(ok_h);
    if !put_kv_str(out, "version", m.version.as_str()) {
        return false;
    }
    if !put_kv_str(out, "original_version", m.original_version.as_str()) {
        return false;
    }
    let ok_k = crate::msgpack::put_str(out, "archive");
    assert(ok_k);
    if !encode_archives(out, &m.archive) {
        return false;
    }
    proof {
        assert(out@ =~= old(out)@ + diff_bytes(*m));
    }
    true
}

impl<'a> ByteReader<'a> {
    /// Parses one diff archive set.
    #[verifier::rlimit(100)]
    #[verifier::spinoff_prover]
    pub fn take_diff(&mut self) -> (r: Option<AssetPathDiff>)
        requires
            old(self).wf(),
        ensures
            final(self).buf == old(self).buf,
            final(self).wf(),
            r matches Some(m) ==> wf_diff(m) && starts_at(
                old(self).buf@,
                old(self).pos as int,
                diff_bytes(m),
            ) && final(self).pos == old(self).pos + diff_bytes(m).len(),
            forall|m2: AssetPathDiff|
                wf_diff(m2) && starts_at(old(self).buf@, old(self).pos as int, diff_bytes(m2))
                    ==> r is Some && r.unwrap()@ == m2@,
    {
        let ghost obuf = self.buf@;
        let ghost opos = self.pos as int;
        proof {
            lemma_container_keys_wf();
        }
        let n = self.take_map_header();
        let version = self.take_str_field("version");
        let original_version = self.take_str_field("original_version");
        let k = self.take_key("archive");
        let archive = self.take_archives();
        proof {
            assert forall|m2: AssetPathDiff|
                wf_diff(m2) && starts_at(obuf, opos, diff_bytes(m2)) implies n == Some(3u64)
                && version is Some && version.unwrap()@ == m2.version@ && original_version
                is Some && original_version.unwrap()@ == m2.original_version@ && k && archive
                is Some && avs(archive.unwrap()@) == avs(m2.archive@) by {
                let p0 = map_header_bytes(3);
                let p1 = kv_str("version"@, m2.version@);
                let p2 = kv_str("original_version"@, m2.original_version@);
                let p3 = crate::msgpack::str_bytes("archive"@);
                let p4 = crate::msgpack::array_header_bytes(m2.archive@.len() as int)
                    + archives_bytes(m2.archive@);
                crate::msgpack::lemma_bytes_assoc(
                    p0 + p1 + p2 + p3,
                    crate::msgpack::array_header_bytes(m2.archive@.len() as int),
                    archives_bytes(m2.archive@),
                );
                lemma_starts_at_concat(obuf, opos, p0 + p1 + p2 + p3, p4);
                lemma_starts_at_concat(obuf, opos, p0 + p1 + p2, p3);
                lemma_starts_at_concat(obuf, opos, p0 + p1, p2);
                lemma_starts_at_concat(obuf, opos, p0, p1);
                assert(version is Some && version.unwrap()@ == m2.version@);
                assert(kv_str("version"@, version.unwrap()@) == p1);
                assert(original_version is Some && original_version.unwrap()@
                    == m2.original_version@);
                assert(kv_str("original_version"@, original_version.unwrap()@) == p2);
                assert(k);
                assert(archive is Some && avs(archive.unwrap()@) == avs(m2.archive@));
            }
        }
        let n_ok = match n {
            Some(v) => v == 3,
            None => false,
        };
        if !n_ok || !k {
            return None;
        }
        match (version, original_version, archive) {
            (Some(version), Some(original_version), Some(archive)) => {
                let m = AssetPathDiff { version, original_version, archive };
                proof {
                    let p0 = map_header_bytes(3);
                    let p1 = kv_str("version"@, m.version@);
                    let p2 = kv_str("original_version"@, m.original_version@);
                    let p3 = crate::msgpack::str_bytes("archive"@);
                    let p4 = crate::msgpack::array_header_bytes(m.archive@.len() as int)
                        + archives_bytes(m.archive@);
                    lemma_concat_starts_at(obuf, opos, p0, p1);
                    lemma_concat_starts_at(obuf, opos, p0 + p1, p2);
                    lemma_concat_starts_at(obuf, opos, p0 + p1 + p2, p3);
                    lemma_concat_starts_at(obuf, opos, p0 + p1 + p2 + p3, p4);
                    crate::msgpack::lemma_bytes_assoc(
                        p0 + p1 + p2 + p3,
                        crate::msgpack::array_header_bytes(m.archive@.len() as int),
                        archives_bytes(m.archive@),
                    );
                }
                Some(m)
            },
            _ => None,
        }
    }
}

/// The diff sets of a manifest, in order.
pub open spec fn diffs_bytes(s: Seq<AssetPathDiff>) -> Seq<u8>
    decreases s.len(),
{
    if s.len() == 0 {
        Seq::empty()
    } else {
        diffs_bytes(s.drop_last()) + diff_bytes(s.last())
    }
}

pub open spec fn wf_diffs(s: Seq<AssetPathDiff>) -> bool {
    s.len() < 0x1_0000_0000 && forall|i: int| 0 <= i < s.len() ==> wf_diff(#[trigger] s[i])
}

/// Equal views give equal paths-info bytes.
proof fn lemma_paths_info_bytes_congruent(x: AssetPathsInfo, y: AssetPathsInfo)
    requires
        x@ == y@,
    ensures
        paths_info_bytes(x) == paths_info_bytes(y),
{
    assert(paths_info_parts(x) =~= paths_info_parts(y));
}

/// Equal views give equal full-set bytes.
proof fn lemma_full_bytes_congruent(x: AssetPathsFull, y: AssetPathsFull)
    requires
        x@ == y@,
    ensures
        full_bytes(x) == full_bytes(y),
{
    assert(avs(x.archive@) == x@.archive && avs(y.archive@) == y@.archive);
    lemma_archives_bytes_congruent(x.archive@, y.archive@);
    assert(x.archive@.len() == avs(x.archive@).len() && y.archive@.len() == avs(
        y.archive@,
    ).len());
}

/// Equal views give equal diff-set bytes.
proof fn lemma_diff_bytes_congruent(x: AssetPathDiff, y: AssetPathDiff)
    requires
        x@ == y@,
    ensures
        diff_bytes(x) == diff_bytes(y),
{
    assert(avs(x.archive@) == x@.archive && avs(y.archive@) == y@.archive);
    lemma_archives_bytes_congruent(x.archive@, y.archive@);
    assert(x.archive@.len() == avs(x.archive@).len() && y.archive@.len() == avs(
        y.archive@,
    ).len());
}

/// Equal view sequences give equal diff-array bytes.
proof fn lemma_diffs_bytes_congruent(x: Seq<AssetPathDiff>, y: Seq<AssetPathDiff>)
    requires
        crate::models::dvs(x) == crate::models::dvs(y),
    ensures
        diffs_bytes(x) == diffs_bytes(y),
    decreases x.len(),
{
    assert(x.len() == y.len()) by {
        assert(crate::models::dvs(x).len() == x.len() && crate::models::dvs(y).len() == y.len());
    }
    if x.len() > 0 {
        assert forall|k: int| 0 <= k < x.len() - 1 implies crate::models::dvs(x.drop_last())[k]
            == crate::models::dvs(y.drop_last())[k] by {
            assert(crate::models::dvs(x.drop_last())[k] == x.drop_last()[k]@ && x.drop_last()[k]
                == x[k]);
            assert(crate::models::dvs(y.drop_last())[k] == y.drop_last()[k]@ && y.drop_last()[k]
                == y[k]);
            assert(crate::models::dvs(x)[k] == x[k]@ && crate::models::dvs(y)[k] == y[k]@);
        }
        assert(crate::models::dvs(x.drop_last()) =~= crate::models::dvs(y.drop_last()));
        lemma_diffs_bytes_congruent(x.drop_last(), y.drop_last());
        assert(x.last()@ == crate::models::dvs(x)[x.len() - 1] && y.last()@ == crate::models::dvs(
            y,
        )[y.len() - 1]);
        lemma_diff_bytes_congruent(x.last(), y.last());
    }
}

/// Diff-array bytes distribute over concatenation.
proof fn lemma_diffs_bytes_concat(a: Seq<AssetPathDiff>, b: Seq<AssetPathDiff>)
    ensures
        diffs_bytes(a + b) == diffs_bytes(a) + diffs_bytes(b),
    decreases b.len(),
{
    if b.len() == 0 {
        assert(a + b =~= a);
        assert(diffs_bytes(a) + diffs_bytes(b) =~= diffs_bytes(a));
    } else {
        lemma_diffs_bytes_concat(a, b.drop_last());
        assert((a + b).drop_last() =~= a + b.drop_last());
        assert((a + b).last() == b.last());
        assert(diffs_bytes(a) + diffs_bytes(b.drop_last()) + diff_bytes(b.last()) =~= diffs_bytes(
            a,
        ) + (diffs_bytes(b.drop_last()) + diff_bytes(b.last())));
    }
}

/// The diff bytes of one element.
proof fn lemma_diffs_bytes_singleton(x: AssetPathDiff)
    ensures
        diffs_bytes(seq![x]) == diff_bytes(x),
{
    reveal_with_fuel(diffs_bytes, 3);
    assert(seq![x].drop_last() =~= Seq::<AssetPathDiff>::empty());
    assert(seq![x].last() == x);
    assert(diffs_bytes(Seq::<AssetPathDiff>::empty()) + diff_bytes(x) =~= diff_bytes(x));
}

/// Frames the diff array with its header.
pub fn encode_diffs(out: &mut Vec<u8>, v: &Vec<AssetPathDiff>) -> (ok: bool)
    ensures
        ok == wf_diffs(v@),
        ok ==> final(out)@ == old(out)@ + crate::msgpack::array_header_bytes(v@.len() as int)
            + diffs_bytes(v@),
{
    if !crate::msgpack::put_array_header(out, v.len()) {
        return false;
    }
    let ghost mid = out@;
    let mut i: usize = 0;
    while i < v.len()
        invariant
            0 <= i <= v@.len(),
            forall|k: int| 0 <= k < i ==> wf_diff(#[trigger] v@[k]),
            out@ == mid + diffs_bytes(v@.take(i as int)),
        decreases v@.len() - i,
    {
        if !encode_diff(out, &v[i]) {
            return false;
        }
        proof {
            assert(v@.take(i + 1).drop_last() =~= v@.take(i as int));
            assert(v@.take(i + 1).last() == v@[i as int]);
        }
        i += 1;
    }
    proof {
        assert(v@.take(v@.len() as int) =~= v@);
    }
    true
}

impl<'a> ByteReader<'a> {
    /// Parses the diff array.
    #[verifier::rlimit(100)]
    #[verifier::spinoff_prover]
    pub fn take_diffs(&mut self) -> (r: Option<Vec<AssetPathDiff>>)
        requires
            old(self).wf(),
        ensures
            final(self).buf == old(self).buf,
            final(self).wf(),
            r matches Some(v) ==> wf_diffs(v@) && starts_at(
                old(self).buf@,
                old(self).pos as int,
                crate::msgpack::array_header_bytes(v@.len() as int) + diffs_bytes(v@),
            ) && final(self).pos == old(self).pos + (crate::msgpack::array_header_bytes(
                v@.len() as int,
            ) + diffs_bytes(v@)).len(),
            forall|a: Seq<AssetPathDiff>|
                wf_diffs(a) && starts_at(
                    old(self).buf@,
                    old(self).pos as int,
                    crate::msgpack::array_header_bytes(a.len() as int) + #[trigger] diffs_bytes(
                        a,
                    ),
                ) ==> r is Some && crate::models::dvs(r.unwrap()@) == crate::models::dvs(a),
    {
        let ghost obuf = self.buf@;
        let ghost opos = self.pos as int;
        let n = match self.take_array_header() {
            Some(n) => n,
            None => {
                proof {
                    assert forall|a: Seq<AssetPathDiff>|
                        wf_diffs(a) implies !starts_at(
                        obuf,
                        opos,
                        crate::msgpack::array_header_bytes(a.len() as int)
                            + #[trigger] diffs_bytes(a),
                    ) by {
                        if starts_at(
                            obuf,
                            opos,
                            crate::msgpack::array_header_bytes(a.len() as int) + diffs_bytes(a),
                        ) {
                            lemma_starts_at_concat(
                                obuf,
                                opos,
                                crate::msgpack::array_header_bytes(a.len() as int),
                                diffs_bytes(a),
                            );
                        }
                    }
                }
                return None;
            },
        };
        let ghost hdr = crate::msgpack::array_header_bytes(n as int);
        proof {
            assert forall|a: Seq<AssetPathDiff>|
                wf_diffs(a) && starts_at(
                    obuf,
                    opos,
                    crate::msgpack::array_header_bytes(a.len() as int) + #[trigger] diffs_bytes(
                        a,
                    ),
                ) implies a.len() == n && starts_at(obuf, opos + hdr.len(), diffs_bytes(a)) by {
                lemma_starts_at_concat(
                    obuf,
                    opos,
                    crate::msgpack::array_header_bytes(a.len() as int),
                    diffs_bytes(a),
                );
            }
        }
        let mut v: Vec<AssetPathDiff> = Vec::new();
        let mut i: u64 = 0;
        proof {
            assert(diffs_bytes(v@) =~= Seq::<u8>::empty());
            assert(obuf.subrange(opos + hdr.len(), opos + hdr.len()) =~= Seq::<u8>::empty());
            assert forall|a: Seq<AssetPathDiff>|
                wf_diffs(a) && starts_at(
                    obuf,
                    opos,
                    crate::msgpack::array_header_bytes(a.len() as int) + #[trigger] diffs_bytes(
                        a,
                    ),
                ) implies crate::models::dvs(a.take(i as int)) == crate::models::dvs(v@) by {
                assert(crate::models::dvs(a.take(0)) =~= crate::models::dvs(v@));
            }
        }
        while i < n
            invariant
                0 <= i <= n,
                n < 0x1_0000_0000,
                v@.len() == i,
                self.buf == old(self).buf,
                self.buf@ == obuf,
                obuf == old(self).buf@,
                opos == old(self).pos as int,
                self.wf(),
                wf_diffs(v@),
                hdr == crate::msgpack::array_header_bytes(n as int),
                starts_at(obuf, opos + hdr.len(), diffs_bytes(v@)),
                self.pos == opos + hdr.len() + diffs_bytes(v@).len(),
                0 <= opos,
                forall|a: Seq<AssetPathDiff>|
                    wf_diffs(a) && starts_at(
                        obuf,
                        opos,
                        crate::msgpack::array_header_bytes(a.len() as int)
                            + #[trigger] diffs_bytes(a),
                    ) ==> a.len() == n && crate::models::dvs(a.take(i as int))
                        == crate::models::dvs(v@),
            decreases n - i,
        {
            let ghost curpos = self.pos as int;
            proof {
                assert forall|a: Seq<AssetPathDiff>|
                    wf_diffs(a) && starts_at(
                        obuf,
                        opos,
                        crate::msgpack::array_header_bytes(a.len() as int)
                            + #[trigger] diffs_bytes(a),
                    ) implies starts_at(obuf, curpos, diff_bytes(a[i as int])) by {
                    lemma_starts_at_concat(
                        obuf,
                        opos,
                        crate::msgpack::array_header_bytes(a.len() as int),
                        diffs_bytes(a),
                    );
                    assert(a =~= a.take(i as int) + a.skip(i as int));
                    lemma_diffs_bytes_concat(a.take(i as int), a.skip(i as int));
                    assert(a.skip(i as int) =~= seq![a[i as int]] + a.skip(i as int + 1));
                    lemma_diffs_bytes_concat(seq![a[i as int]], a.skip(i as int + 1));
                    lemma_diffs_bytes_singleton(a[i as int]);
                    crate::msgpack::lemma_bytes_assoc(
                        diffs_bytes(a.take(i as int)),
                        diff_bytes(a[i as int]),
                        diffs_bytes(a.skip(i as int + 1)),
                    );
                    lemma_starts_at_concat(
                        obuf,
                        opos + hdr.len(),
                        diffs_bytes(a.take(i as int)),
                        diff_bytes(a[i as int]) + diffs_bytes(a.skip(i as int + 1)),
                    );
                    lemma_diffs_bytes_congruent(a.take(i as int), v@);
                    lemma_starts_at_concat(
                        obuf,
                        opos + hdr.len() + diffs_bytes(a.take(i as int)).len(),
                        diff_bytes(a[i as int]),
                        diffs_bytes(a.skip(i as int + 1)),
                    );
                }
            }
            let d_elem = match self.take_diff() {
                Some(d) => d,
                None => {
                    proof {
                        assert forall|a: Seq<AssetPathDiff>|
                            wf_diffs(a) implies !starts_at(
                            obuf,
                            opos,
                            crate::msgpack::array_header_bytes(a.len() as int)
                                + #[trigger] diffs_bytes(a),
                        ) by {
                            if starts_at(
                                obuf,
                                opos,
                                crate::msgpack::array_header_bytes(a.len() as int) + diffs_bytes(
                                    a,
                                ),
                            ) {
                                assert(wf_diff(a[i as int]));
                                assert(starts_at(obuf, curpos, diff_bytes(a[i as int])));
                            }
                        }
                    }
                    return None;
                },
            };
            proof {
                lemma_concat_starts_at(obuf, opos + hdr.len(), diffs_bytes(v@), diff_bytes(d_elem));
                assert(v@.push(d_elem).drop_last() =~= v@);
                assert(v@.push(d_elem).last() == d_elem);
            }
            let ghost oldv = v@;
            v.push(d_elem);
            proof {
                assert forall|k: int| 0 <= k < v@.len() implies wf_diff(#[trigger] v@[k]) by {
                    if k < oldv.len() {
                        assert(v@[k] == oldv[k]);
                    }
                }
                assert forall|a: Seq<AssetPathDiff>|
                    wf_diffs(a) && starts_at(
                        obuf,
                        opos,
                        crate::msgpack::array_header_bytes(a.len() as int)
                            + #[trigger] diffs_bytes(a),
                    ) implies crate::models::dvs(a.take(i as int + 1)) == crate::models::dvs(
                    v@,
                ) by {
                    assert(starts_at(obuf, curpos, diff_bytes(a[i as int])));
                    assert(d_elem@ == a[i as int]@);
                    assert(crate::models::dvs(a.take(i as int + 1)) =~= crate::models::dvs(
                        a.take(i as int),
                    ).push(a[i as int]@));
                    assert(crate::models::dvs(v@) =~= crate::models::dvs(oldv).push(d_elem@));
                }
            }
            i += 1;
        }
        proof {
            lemma_concat_starts_at(obuf, opos, hdr, diffs_bytes(v@));
            assert forall|a: Seq<AssetPathDiff>|
                wf_diffs(a) && starts_at(
                    obuf,
                    opos,
                    crate::msgpack::array_header_bytes(a.len() as int) + #[trigger] diffs_bytes(
                        a,
                    ),
                ) implies crate::models::dvs(v@) == crate::models::dvs(a) by {
                assert(a.take(n as int) =~= a);
            }
        }
        Some(v)
    }
}

pub open spec fn asset_paths_bytes(m: AssetPaths) -> Seq<u8> {
    map_header_bytes(4) + crate::msgpack::str_bytes("info"@) + paths_info_bytes(m.info)
        + crate::msgpack::str_bytes("full"@) + full_bytes(m.full)
        + crate::msgpack::str_bytes("diff"@) + crate::msgpack::array_header_bytes(
        m.diff@.len() as int,
    ) + diffs_bytes(m.diff@) + kv_str("asset_version_hash"@, m.asset_version_hash@)
}

pub open spec fn wf_asset_paths(m: AssetPaths) -> bool {
    &&& wf_paths_info(m.info)
    &&& wf_full(m.full)
    &&& wf_diffs(m.diff@)
    &&& wf_chars(m.asset_version_hash@)
}

/// Where a whole manifest occurs, each of its parts occurs at its offset.
#[verifier::rlimit(100)]
#[verifier::spinoff_prover]
proof fn lemma_asset_paths_split(buf: Seq<u8>, pos: int, m: AssetPaths)
    requires
        starts_at(buf, pos, asset_paths_bytes(m)),
    ensures
        ({
            let p0 = map_header_bytes(4);
            let p1 = crate::msgpack::str_bytes("info"@);
            let p2 = paths_info_bytes(m.info);
            let p3 = crate::msgpack::str_bytes("full"@);
            let p4 = full_bytes(m.full);
            let p5 = crate::msgpack::str_bytes("diff"@);
            let p6 = crate::msgpack::array_header_bytes(m.diff@.len() as int) + diffs_bytes(
                m.diff@,
            );
            let p7 = kv_str("asset_version_hash"@, m.asset_version_hash@);
            &&& starts_at(buf, pos, p0)
            &&& starts_at(buf, pos + p0.len(), p1)
            &&& starts_at(buf, pos + p0.len() + p1.len(), p2)
            &&& starts_at(buf, pos + p0.len() + p1.len() + p2.len(), p3)
            &&& starts_at(buf, pos + p0.len() + p1.len() + p2.len() + p3.len(), p4)
            &&& starts_at(buf, pos + p0.len() + p1.len() + p2.len() + p3.len() + p4.len(), p5)
            &&& starts_at(
                buf,
                pos + p0.len() + p1.len() + p2.len() + p3.len() + p4.len() + p5.len(),
                p6,
            )
            &&& starts_at(
                buf,
                pos + p0.len() + p1.len() + p2.len() + p3.len() + p4.len() + p5.len() + p6.len(),
                p7,
            )
        }),
{
    let p0 = map_header_bytes(4);
    let p1 = crate::msgpack::str_bytes("info"@);
    let p2 = paths_info_bytes(m.info);
    let p3 = crate::msgpack::str_bytes("full"@);
    let p4 = full_bytes(m.full);
    let p5 = crate::msgpack::str_bytes("diff"@);
    let p6a = crate::msgpack::array_header_bytes(m.diff@.len() as int);
    let p6b = diffs_bytes(m.diff@);
    let p7 = kv_str("asset_version_hash"@, m.asset_version_hash@);
    lemma_starts_at_concat(buf, pos, p0 + p1 + p2 + p3 + p4 + p5 + p6a + p6b, p7);
    lemma_starts_at_concat(buf, pos, p0 + p1 + p2 + p3 + p4 + p5 + p6a, p6b);
    lemma_starts_at_concat(buf, pos, p0 + p1 + p2 + p3 + p4 + p5, p6a);
    lemma_starts_at_concat(buf, pos, p0 + p1 + p2 + p3 + p4, p5);
    lemma_starts_at_concat(buf, pos, p0 + p1 + p2 + p3, p4);
    lemma_starts_at_concat(buf, pos, p0 + p1 + p2, p3);
    lemma_starts_at_concat(buf, pos, p0 + p1, p2);
    lemma_starts_at_concat(buf, pos, p0, p1);
    lemma_concat_starts_at(
        buf,
        pos + p0.len() + p1.len() + p2.len() + p3.len() + p4.len() + p5.len(),
        p6a,
        p6b,
    );
}

/// Each part at its offset makes the whole manifest occur.
#[verifier::rlimit(100)]
#[verifier::spinoff_prover]
proof fn lemma_asset_paths_join(buf: Seq<u8>, pos: int, m: AssetPaths)
    requires
        ({
            let p0 = map_header_bytes(4);
            let p1 = crate::msgpack::str_bytes("info"@);
            let p2 = paths_info_bytes(m.info);
            let p3 = crate::msgpack::str_bytes("full"@);
            let p4 = full_bytes(m.full);
            let p5 = crate::msgpack::str_bytes("diff"@);
            let p6 = crate::msgpack::array_header_bytes(m.diff@.len() as int) + diffs_bytes(
                m.diff@,
            );
            let p7 = kv_str("asset_version_hash"@, m.asset_version_hash@);
            &&& starts_at(buf, pos, p0)
            &&& starts_at(buf, pos + p0.len(), p1)
            &&& starts_at(buf, pos + p0.len() + p1.len(), p2)
            &&& starts_at(buf, pos + p0.len() + p1.len() + p2.len(), p3)
            &&& starts_at(buf, pos + p0.len() + p1.len() + p2.len() + p3.len(), p4)
            &&& starts_at(buf, pos + p0.len() + p1.len() + p2.len() + p3.len() + p4.len(), p5)
            &&& starts_at(
                buf,
                pos + p0.len() + p1.len() + p2.len() + p3.len() + p4.len() + p5.len(),
                p6,
            )
            &&& starts_at(
                buf,
                pos + p0.len() + p1.len() + p2.len() + p3.len() + p4.len() + p5.len() + p6.len(),
                p7,
            )
        }),
    ensures
        starts_at(buf, pos, asset_paths_bytes(m)),
{
    let p0 = map_header_bytes(4);
    let p1 = crate::msgpack::str_bytes("info"@);
    let p2 = paths_info_bytes(m.info);
    let p3 = crate::msgpack::str_bytes("full"@);
    let p4 = full_bytes(m.full);
    let p5 = crate::msgpack::str_bytes("diff"@);
    let p6a = crate::msgpack::array_header_bytes(m.diff@.len() as int);
    let p6b = diffs_bytes(m.diff@);
    let p7 = kv_str("asset_version_hash"@, m.asset_version_hash@);
    lemma_starts_at_concat(
        buf,
        pos + p0.len() + p1.len() + p2.len() + p3.len() + p4.len() + p5.len(),
        p6a,
        p6b,
    );
    lemma_concat_starts_at(buf, pos, p0, p1);
    lemma_concat_starts_at(buf, pos, p0 + p1, p2);
    lemma_concat_starts_at(buf, pos, p0 + p1 + p2, p3);
    lemma_concat_starts_at(buf, pos, p0 + p1 + p2 + p3, p4);
    lemma_concat_starts_at(buf, pos, p0 + p1 + p2 + p3 + p4, p5);
    lemma_concat_starts_at(buf, pos, p0 + p1 + p2 + p3 + p4 + p5, p6a);
    lemma_concat_starts_at(buf, pos, p0 + p1 + p2 + p3 + p4 + p5 + p6a, p6b);
    lemma_concat_starts_at(buf, pos, p0 + p1 + p2 + p3 + p4 + p5 + p6a + p6b, p7);
}

/// Frames a whole asset manifest.
#[verifier::rlimit(100)]
#[verifier::spinoff_prover]
pub fn encode_asset_paths(out: &mut Vec<u8>, m: &AssetPaths) -> (ok: bool)
    ensures
        ok == wf_asset_paths(*m),
        ok ==> final(out)@ == old(out)@ + asset_paths_bytes(*m),
{
    proof {
        lemma_container_keys_wf();
    }
    let ok_h = put_map_header(out, 4);
    assert(ok_h);
    let k1 = crate::msgpack::put_str(out, "info");
    assert(k1);
    if !encode_paths_info(out, &m.info) {
        return false;
    }
    let k2 = crate::msgpack::put_str(out, "full");
    assert(k2);
    if !encode_full(out, &m.full) {
        return false;
    }
    let k3 = crate::msgpack::put_str(out, "diff");
    assert(k3);
    if !encode_diffs(out, &m.diff) {
        return false;
    }
    if !put_kv_str(out, "asset_version_hash", m.asset_version_hash.as_str()) {
        return false;
    }
    proof {
        reveal_strlit("asset_version_hash");
        crate::msgpack::lemma_encode_utf8_len("asset_version_hash"@);
        assert(out@ =~= old(out)@ + asset_paths_bytes(*m));
    }
    true
}

impl<'a> ByteReader<'a> {
    /// Parses a whole asset manifest.
    #[verifier::rlimit(100)]
    #[verifier::spinoff_prover]
    pub fn take_asset_paths(&mut self) -> (r: Option<AssetPaths>)
        requires
            old(self).wf(),
        ensures
            final(self).buf == old(self).buf,
            final(self).wf(),
            r matches Some(m) ==> wf_asset_paths(m) && starts_at(
                old(self).buf@,
                old(self).pos as int,
                asset_paths_bytes(m),
            ) && final(self).pos == old(self).pos + asset_paths_bytes(m).len(),
            forall|m2: AssetPaths|
                wf_asset_paths(m2) && starts_at(
                    old(self).buf@,
                    old(self).pos as int,
                    asset_paths_bytes(m2),
                ) ==> r is Some && r.unwrap()@ == m2@,
    {
        let ghost obuf = self.buf@;
        let ghost opos = self.pos as int;
        proof {
            lemma_container_keys_wf();
            reveal_strlit("asset_version_hash");
            crate::msgpack::lemma_encode_utf8_len("asset_version_hash"@);
        }
        let n = self.take_map_header();
        let k1 = self.take_key("info");
        let info = self.take_paths_info();
        let k2 = self.take_key("full");
        let full = self.take_full();
        let k3 = self.take_key("diff");
        let diff = self.take_diffs();
        let hash = self.take_str_field("asset_version_hash");
        proof {
            assert forall|m2: AssetPaths|
                wf_asset_paths(m2) && starts_at(obuf, opos, asset_paths_bytes(m2)) implies n
                == Some(4u64) && k1 && info is Some && info.unwrap()@ == m2.info@ && k2 && full
                is Some && full.unwrap()@ == m2.full@ && k3 && diff is Some && crate::models::dvs(
                diff.unwrap()@,
            ) == crate::models::dvs(m2.diff@) && hash is Some && hash.unwrap()@
                == m2.asset_version_hash@ by {
                lemma_asset_paths_split(obuf, opos, m2);
                assert(info is Some && info.unwrap()@ == m2.info@);
                lemma_paths_info_bytes_congruent(info.unwrap(), m2.info);
                assert(full is Some && full.unwrap()@ == m2.full@);
                lemma_full_bytes_congruent(full.unwrap(), m2.full);
                assert(diff is Some && crate::models::dvs(diff.unwrap()@) == crate::models::dvs(
                    m2.diff@,
                ));
                lemma_diffs_bytes_congruent(diff.unwrap()@, m2.diff@);
                assert(diff.unwrap()@.len() == m2.diff@.len()) by {
                    assert(crate::models::dvs(diff.unwrap()@).len() == diff.unwrap()@.len()
                        && crate::models::dvs(m2.diff@).len() == m2.diff@.len());
                }
                assert(hash is Some && hash.unwrap()@ == m2.asset_version_hash@);
            }
        }
        let n_ok = match n {
            Some(v) => v == 4,
            None => false,
        };
        if !n_ok || !k1 || !k2 || !k3 {
            return None;
        }
        match (info, full, diff, hash) {
            (Some(info), Some(full), Some(diff), Some(asset_version_hash)) => {
                let m = AssetPaths { info, full, diff, asset_version_hash };
                proof {
                    lemma_asset_paths_join(obuf, opos, m);
                }
                Some(m)
            },
            _ => None,
        }
    }
}

// ------------------------------------------------------------------
// SignupResponse: parsed field by field; its shape is exercised by the
// round-trip tests rather than carried in the contract.
// ------------------------------------------------------------------

/// The first eight fields of a register-session response, by their views.
pub open spec fn sr_front_of(
    login_token: Seq<char>,
    new_account: u8,
    sign: Option<Seq<char>>,
    create_date: Option<Seq<char>>,
    role_name: Option<Seq<char>>,
    role_id: Option<u32>,
    server_name: Option<Seq<char>>,
    server_id: Option<Seq<char>>,
) -> Seq<u8> {
    kv_str("login_token"@, login_token) + kv_uint("newAccount"@, new_account as u64) + kv_opt_str(
        "sign"@,
        sign,
    ) + kv_opt_str("createDate"@, create_date) + kv_opt_str("roleName"@, role_name) + kv_opt_uint(
        "roleId"@,
        opt_u32_as_u64(role_id),
    ) + kv_opt_str("serverName"@, server_name) + kv_opt_str("serverId"@, server_id)
}

/// The last eight fields of a register-session response, by their views.
pub open spec fn sr_back_of(
    time_used: Option<u32>,
    account_name: Option<Seq<char>>,
    login_mode: Option<u8>,
    login_type: Option<u8>,
    credit_account: Option<u8>,
    physical_value: Option<u8>,
    role_level: Option<u8>,
    ip: Option<Seq<char>>,
) -> Seq<u8> {
    kv_opt_uint("timeUsed"@, opt_u32_as_u64(time_used)) + kv_opt_str(
        "accountName"@,
        account_name,
    ) + kv_opt_uint("loginMode"@, opt_u8_as_u64(login_mode)) + kv_opt_uint(
        "loginType"@,
        opt_u8_as_u64(login_type),
    ) + kv_opt_uint("creditAccount"@, opt_u8_as_u64(credit_account)) + kv_opt_uint(
        "physicalValue"@,
        opt_u8_as_u64(physical_value),
    ) + kv_opt_uint("roleLevel"@, opt_u8_as_u64(role_level)) + kv_opt_str("ip"@, ip)
}

/// The first eight fields of a register-session response, concatenated.
pub open spec fn signup_response_front_bytes(m: SignupResponse) -> Seq<u8> {
    sr_front_of(
        m.login_token@,
        m.new_account,
        opt_view(m.sign),
        opt_view(m.create_date),
        opt_view(m.role_name),
        m.role_id,
        opt_view(m.server_name),
        opt_view(m.server_id),
    )
}

/// The last eight fields of a register-session response, concatenated.
pub open spec fn signup_response_back_bytes(m: SignupResponse) -> Seq<u8> {
    sr_back_of(
        m.time_used,
        opt_view(m.account_name),
        m.login_mode,
        m.login_type,
        m.credit_account,
        m.physical_value,
        m.role_level,
        opt_view(m.ip),
    )
}

pub open spec fn signup_response_bytes(m: SignupResponse) -> Seq<u8> {
    map_header_bytes(16) + signup_response_front_bytes(m) + signup_response_back_bytes(m)
}

pub open spec fn eq_signup_response(a: SignupResponse, b: SignupResponse) -> bool {
    &&& a.login_token@ == b.login_token@
    &&& a.new_account == b.new_account
    &&& opt_view(a.sign) == opt_view(b.sign)
    &&& opt_view(a.create_date) == opt_view(b.create_date)
    &&& opt_view(a.role_name) == opt_view(b.role_name)
    &&& a.role_id == b.role_id
    &&& opt_view(a.server_name) == opt_view(b.server_name)
    &&& opt_view(a.server_id) == opt_view(b.server_id)
    &&& a.time_used == b.time_used
    &&& opt_view(a.account_name) == opt_view(b.account_name)
    &&& a.login_mode == b.login_mode
    &&& a.login_type == b.login_type
    &&& a.credit_account == b.credit_account
    &&& a.physical_value == b.physical_value
    &&& a.role_level == b.role_level
    &&& opt_view(a.ip) == opt_view(b.ip)
}

pub open spec fn wf_signup_response(m: SignupResponse) -> bool {
    &&& wf_chars(m.login_token@)
    &&& wf_opt_chars(opt_view(m.sign))
    &&& wf_opt_chars(opt_view(m.create_date))
    &&& wf_opt_chars(opt_view(m.role_name))
    &&& wf_opt_chars(opt_view(m.server_name))
    &&& wf_opt_chars(opt_view(m.server_id))
    &&& wf_opt_chars(opt_view(m.account_name))
    &&& wf_opt_chars(opt_view(m.ip))
}

/// Frames the first eight fields of a register-session response.
#[verifier::rlimit(100)]
#[verifier::spinoff_prover]
fn encode_signup_response_front(out: &mut Vec<u8>, m: &SignupResponse) -> (ok: bool)
    ensures
        ok == (wf_chars(m.login_token@) && wf_opt_chars(opt_view(m.sign)) && wf_opt_chars(
            opt_view(m.create_date),
        ) && wf_opt_chars(opt_view(m.role_name)) && wf_opt_chars(opt_view(m.server_name))
            && wf_opt_chars(opt_view(m.server_id))),
        ok ==> final(out)@ == old(out)@ + signup_response_front_bytes(*m),
{
    proof {
        lemma_signup_response_keys_wf();
    }
    let ghost base = out@;
    let ghost p1 = kv_str("login_token"@, m.login_token@);
    let ghost p2 = kv_uint("newAccount"@, m.new_account as u64);
    let ghost p3 = kv_opt_str("sign"@, opt_view(m.sign));
    let ghost p4 = kv_opt_str("createDate"@, opt_view(m.create_date));
    let ghost p5 = kv_opt_str("roleName"@, opt_view(m.role_name));
    let ghost p6 = kv_opt_uint("roleId"@, opt_u32_as_u64(m.role_id));
    let ghost p7 = kv_opt_str("serverName"@, opt_view(m.server_name));
    let ghost p8 = kv_opt_str("serverId"@, opt_view(m.server_id));
    if !put_kv_str(out, "login_token", m.login_token.as_str()) {
        return false;
    }
    let o1 = put_kv_uint(out, "newAccount", m.new_account as u64);
    assert(o1);
    proof {
        crate::msgpack::lemma_bytes_assoc(base, p1, p2);
    }
    if !put_kv_opt_str(out, "sign", &m.sign) {
        return false;
    }
    proof {
        crate::msgpack::lemma_bytes_assoc(base, p1 + p2, p3);
    }
    if !put_kv_opt_str(out, "createDate", &m.create_date) {
        return false;
    }
    proof {
        crate::msgpack::lemma_bytes_assoc(base, p1 + p2 + p3, p4);
    }
    if !put_kv_opt_str(out, "roleName", &m.role_name) {
        return false;
    }
    proof {
        crate::msgpack::lemma_bytes_assoc(base, p1 + p2 + p3 + p4, p5);
    }
    let role_id_u64: Option<u64> = match &m.role_id {
        Some(v) => Some(*v as u64),
        None => None,
    };
    let o2 = put_kv_opt_uint(out, "roleId", &role_id_u64);
    assert(o2);
    proof {
        crate::msgpack::lemma_bytes_assoc(base, p1 + p2 + p3 + p4 + p5, p6);
    }
    if !put_kv_opt_str(out, "serverName", &m.server_name) {
        return false;
    }
    proof {
        crate::msgpack::lemma_bytes_assoc(base, p1 + p2 + p3 + p4 + p5 + p6, p7);
    }
    if !put_kv_opt_str(out, "serverId", &m.server_id) {
        return false;
    }
    proof {
        crate::msgpack::lemma_bytes_assoc(base, p1 + p2 + p3 + p4 + p5 + p6 + p7, p8);
    }
    true
}

/// Frames the last eight fields of a register-session response.
#[verifier::rlimit(100)]
#[verifier::spinoff_prover]
fn encode_signup_response_back(out: &mut Vec<u8>, m: &SignupResponse) -> (ok: bool)
    ensures
        ok == (wf_opt_chars(opt_view(m.account_name)) && wf_opt_chars(opt_view(m.ip))),
        ok ==> final(out)@ == old(out)@ + signup_response_back_bytes(*m),
{
    proof {
        lemma_signup_response_keys_wf();
    }
    let ghost base = out@;
    let ghost p1 = kv_opt_uint("timeUsed"@, opt_u32_as_u64(m.time_used));
    let ghost p2 = kv_opt_str("accountName"@, opt_view(m.account_name));
    let ghost p3 = kv_opt_uint("loginMode"@, opt_u8_as_u64(m.login_mode));
    let ghost p4 = kv_opt_uint("loginType"@, opt_u8_as_u64(m.login_type));
    let ghost p5 = kv_opt_uint("creditAccount"@, opt_u8_as_u64(m.credit_account));
    let ghost p6 = kv_opt_uint("physicalValue"@, opt_u8_as_u64(m.physical_value));
    let ghost p7 = kv_opt_uint("roleLevel"@, opt_u8_as_u64(m.role_level));
    let ghost p8 = kv_opt_str("ip"@, opt_view(m.ip));
    let time_used_u64: Option<u64> = match &m.time_used {
        Some(v) => Some(*v as u64),
        None => None,
    };
    let o1 = put_kv_opt_uint(out, "timeUsed", &time_used_u64);
    assert(o1);
    if !put_kv_opt_str(out, "accountName", &m.account_name) {
        return false;
    }
    proof {
        crate::msgpack::lemma_bytes_assoc(base, p1, p2);
    }
    let login_mode_u64: Option<u64> = match &m.login_mode {
        Some(v) => Some(*v as u64),
        None => None,
    };
    let o2 = put_kv_opt_uint(out, "loginMode", &login_mode_u64);
    assert(o2);
    proof {
        crate::msgpack::lemma_bytes_assoc(base, p1 + p2, p3);
    }
    let login_type_u64: Option<u64> = match &m.login_type {
        Some(v) => Some(*v as u64),
        None => None,
    };
    let o3 = put_kv_opt_uint(out, "loginType", &login_type_u64);
    assert(o3);
    proof {
        crate::msgpack::lemma_bytes_assoc(base, p1 + p2 + p3, p4);
    }
    let credit_u64: Option<u64> = match &m.credit_account {
        Some(v) => Some(*v as u64),
        None => None,
    };
    let o4 = put_kv_opt_uint(out, "creditAccount", &credit_u64);
    assert(o4);
    proof {
        crate::msgpack::lemma_bytes_assoc(base, p1 + p2 + p3 + p4, p5);
    }
    let phys_u64: Option<u64> = match &m.physical_value {
        Some(v) => Some(*v as u64),
        None => None,
    };
    let o5 = put_kv_opt_uint(out, "physicalValue", &phys_u64);
    assert(o5);
    proof {
        crate::msgpack::lemma_bytes_assoc(base, p1 + p2 + p3 + p4 + p5, p6);
    }
    let role_level_u64: Option<u64> = match &m.role_level {
        Some(v) => Some(*v as u64),
        None => None,
    };
    let o6 = put_kv_opt_uint(out, "roleLevel", &role_level_u64);
    assert(o6);
    proof {
        crate::msgpack::lemma_bytes_assoc(base, p1 + p2 + p3 + p4 + p5, p6);
        crate::msgpack::lemma_bytes_assoc(base, p1 + p2 + p3 + p4 + p5 + p6, p7);
    }
    if !put_kv_opt_str(out, "ip", &m.ip) {
        return false;
    }
    proof {
        crate::msgpack::lemma_bytes_assoc(base, p1 + p2 + p3 + p4 + p5 + p6 + p7, p8);
    }
    true
}

/// Frames a register-session response; fails exactly on an oversized
/// string.
pub fn encode_signup_response(out: &mut Vec<u8>, m: &SignupResponse) -> (ok: bool)
    ensures
        ok == wf_signup_response(*m),
        ok ==> final(out)@ == old(out)@ + signup_response_bytes(*m),
{
    let ok_h = put_map_header(out, 16);
    assert(ok_h);
    if !encode_signup_response_front(out, m) {
        return false;
    }
    if !encode_signup_response_back(out, m) {
        return false;
    }
    proof {
        assert(out@ =~= old(out)@ + signup_response_bytes(*m));
    }
    true
}

proof fn lemma_signup_response_keys_wf()
    ensures
        wf_chars("login_token"@),
        wf_chars("newAccount"@),
        wf_chars("sign"@),
        wf_chars("createDate"@),
        wf_chars("roleName"@),
        wf_chars("roleId"@),
        wf_chars("serverName"@),
        wf_chars("serverId"@),
        wf_chars("timeUsed"@),
        wf_chars("accountName"@),
        wf_chars("loginMode"@),
        wf_chars("loginType"@),
        wf_chars("creditAccount"@),
        wf_chars("physicalValue"@),
        wf_chars("roleLevel"@),
        wf_chars("ip"@),
{
    reveal_strlit("login_token");
    reveal_strlit("newAccount");
    reveal_strlit("sign");
    reveal_strlit("createDate");
    reveal_strlit("roleName");
    reveal_strlit("roleId");
    reveal_strlit("serverName");
    reveal_strlit("serverId");
    reveal_strlit("timeUsed");
    reveal_strlit("accountName");
    reveal_strlit("loginMode");
    reveal_strlit("loginType");
    reveal_strlit("creditAccount");
    reveal_strlit("physicalValue");
    reveal_strlit("roleLevel");
    reveal_strlit("ip");
    crate::msgpack::lemma_encode_utf8_len("login_token"@);
    crate::msgpack::lemma_encode_utf8_len("newAccount"@);
    crate::msgpack::lemma_encode_utf8_len("sign"@);
    crate::msgpack::lemma_encode_utf8_len("createDate"@);
    crate::msgpack::lemma_encode_utf8_len("roleName"@);
    crate::msgpack::lemma_encode_utf8_len("roleId"@);
    crate::msgpack::lemma_encode_utf8_len("serverName"@);
    crate::msgpack::lemma_encode_utf8_len("serverId"@);
    crate::msgpack::lemma_encode_utf8_len("timeUsed"@);
    crate::msgpack::lemma_encode_utf8_len("accountName"@);
    crate::msgpack::lemma_encode_utf8_len("loginMode"@);
    crate::msgpack::lemma_encode_utf8_len("loginType"@);
    crate::msgpack::lemma_encode_utf8_len("creditAccount"@);
    crate::msgpack::lemma_encode_utf8_len("physicalValue"@);
    crate::msgpack::lemma_encode_utf8_len("roleLevel"@);
    crate::msgpack::lemma_encode_utf8_len("ip"@);
}

impl<'a> ByteReader<'a> {
    /// Parses the first eight fields of a register-session response.
    #[verifier::rlimit(100)]
    #[verifier::spinoff_prover]
    fn take_signup_response_front(&mut self) -> (r: Option<
        (
            String,
            u8,
            Option<String>,
            Option<String>,
            Option<String>,
            Option<u32>,
            Option<String>,
            Option<String>,
        ),
    >)
        requires
            old(self).wf(),
        ensures
            final(self).buf == old(self).buf,
            final(self).wf(),
            r matches Some(t) ==> wf_chars(t.0@) && wf_opt_chars(opt_view(t.2)) && wf_opt_chars(
                opt_view(t.3),
            ) && wf_opt_chars(opt_view(t.4)) && wf_opt_chars(opt_view(t.6)) && wf_opt_chars(
                opt_view(t.7),
            ) && starts_at(
                old(self).buf@,
                old(self).pos as int,
                sr_front_of(
                    t.0@,
                    t.1,
                    opt_view(t.2),
                    opt_view(t.3),
                    opt_view(t.4),
                    t.5,
                    opt_view(t.6),
                    opt_view(t.7),
                ),
            ) && final(self).pos == old(self).pos + sr_front_of(
                t.0@,
                t.1,
                opt_view(t.2),
                opt_view(t.3),
                opt_view(t.4),
                t.5,
                opt_view(t.6),
                opt_view(t.7),
            ).len(),
            forall|m2: SignupResponse|
                wf_signup_response(m2) && starts_at(
                    old(self).buf@,
                    old(self).pos as int,
                    signup_response_front_bytes(m2),
                ) ==> r is Some && r.unwrap().0@ == m2.login_token@ && r.unwrap().1
                    == m2.new_account && opt_view(r.unwrap().2) == opt_view(m2.sign) && opt_view(
                    r.unwrap().3,
                ) == opt_view(m2.create_date) && opt_view(r.unwrap().4) == opt_view(m2.role_name)
                    && r.unwrap().5 == m2.role_id && opt_view(r.unwrap().6) == opt_view(
                    m2.server_name,
                ) && opt_view(r.unwrap().7) == opt_view(m2.server_id),
    {
        let ghost obuf = self.buf@;
        let ghost opos = self.pos as int;
        proof {
            lemma_signup_response_keys_wf();
        }
        let f1 = self.take_str_field("login_token");
        let f2 = self.take_u8_field("newAccount");
        let f3 = self.take_opt_str_field("sign");
        let f4 = self.take_opt_str_field("createDate");
        let f5 = self.take_opt_str_field("roleName");
        let f6 = self.take_opt_u32_field("roleId");
        let f7 = self.take_opt_str_field("serverName");
        let f8 = self.take_opt_str_field("serverId");
        proof {
            assert forall|m2: SignupResponse|
                wf_signup_response(m2) && starts_at(
                    obuf,
                    opos,
                    signup_response_front_bytes(m2),
                ) implies f1 is Some && f1.unwrap()@ == m2.login_token@ && f2 == Some(
                m2.new_account,
            ) && f3 is Some && opt_view(f3.unwrap()) == opt_view(m2.sign) && f4 is Some
                && opt_view(f4.unwrap()) == opt_view(m2.create_date) && f5 is Some && opt_view(
                f5.unwrap(),
            ) == opt_view(m2.role_name) && f6 == Some(m2.role_id) && f7 is Some && opt_view(
                f7.unwrap(),
            ) == opt_view(m2.server_name) && f8 is Some && opt_view(f8.unwrap()) == opt_view(
                m2.server_id,
            ) by {
                let p1 = kv_str("login_token"@, m2.login_token@);
                let p2 = kv_uint("newAccount"@, m2.new_account as u64);
                let p3 = kv_opt_str("sign"@, opt_view(m2.sign));
                let p4 = kv_opt_str("createDate"@, opt_view(m2.create_date));
                let p5 = kv_opt_str("roleName"@, opt_view(m2.role_name));
                let p6 = kv_opt_uint("roleId"@, opt_u32_as_u64(m2.role_id));
                let p7 = kv_opt_str("serverName"@, opt_view(m2.server_name));
                let p8 = kv_opt_str("serverId"@, opt_view(m2.server_id));
                lemma_starts_at_concat(obuf, opos, p1 + p2 + p3 + p4 + p5 + p6 + p7, p8);
                lemma_starts_at_concat(obuf, opos, p1 + p2 + p3 + p4 + p5 + p6, p7);
                lemma_starts_at_concat(obuf, opos, p1 + p2 + p3 + p4 + p5, p6);
                lemma_starts_at_concat(obuf, opos, p1 + p2 + p3 + p4, p5);
                lemma_starts_at_concat(obuf, opos, p1 + p2 + p3, p4);
                lemma_starts_at_concat(obuf, opos, p1 + p2, p3);
                lemma_starts_at_concat(obuf, opos, p1, p2);
                assert(f1 is Some && f1.unwrap()@ == m2.login_token@);
                assert(kv_str("login_token"@, f1.unwrap()@) == p1);
                assert(f2 == Some(m2.new_account));
                assert(kv_uint("newAccount"@, m2.new_account as u64) == p2);
                assert(f3 is Some && opt_view(f3.unwrap()) == opt_view(m2.sign));
                assert(kv_opt_str("sign"@, opt_view(f3.unwrap())) == p3);
                assert(f4 is Some && opt_view(f4.unwrap()) == opt_view(m2.create_date));
                assert(kv_opt_str("createDate"@, opt_view(f4.unwrap())) == p4);
                assert(f5 is Some && opt_view(f5.unwrap()) == opt_view(m2.role_name));
                assert(kv_opt_str("roleName"@, opt_view(f5.unwrap())) == p5);
                assert(f6 == Some(m2.role_id));
                assert(kv_opt_uint("roleId"@, opt_u32_as_u64(m2.role_id)) == p6);
                assert(f7 is Some && opt_view(f7.unwrap()) == opt_view(m2.server_name));
                assert(kv_opt_str("serverName"@, opt_view(f7.unwrap())) == p7);
                assert(f8 is Some && opt_view(f8.unwrap()) == opt_view(m2.server_id));
            }
        }
        match (f1, f2, f3, f4, f5, f6, f7, f8) {
            (Some(a), Some(b), Some(c), Some(d), Some(e), Some(f), Some(g), Some(h)) => {
                proof {
                    let p1 = kv_str("login_token"@, a@);
                    let p2 = kv_uint("newAccount"@, b as u64);
                    let p3 = kv_opt_str("sign"@, opt_view(c));
                    let p4 = kv_opt_str("createDate"@, opt_view(d));
                    let p5 = kv_opt_str("roleName"@, opt_view(e));
                    let p6 = kv_opt_uint("roleId"@, opt_u32_as_u64(f));
                    let p7 = kv_opt_str("serverName"@, opt_view(g));
                    let p8 = kv_opt_str("serverId"@, opt_view(h));
                    lemma_concat_starts_at(obuf, opos, p1, p2);
                    lemma_concat_starts_at(obuf, opos, p1 + p2, p3);
                    lemma_concat_starts_at(obuf, opos, p1 + p2 + p3, p4);
                    lemma_concat_starts_at(obuf, opos, p1 + p2 + p3 + p4, p5);
                    lemma_concat_starts_at(obuf, opos, p1 + p2 + p3 + p4 + p5, p6);
                    lemma_concat_starts_at(obuf, opos, p1 + p2 + p3 + p4 + p5 + p6, p7);
                    lemma_concat_starts_at(obuf, opos, p1 + p2 + p3 + p4 + p5 + p6 + p7, p8);
                }
                Some((a, b, c, d, e, f, g, h))
            },
            _ => None,
        }
    }

    /// Parses the last eight fields of a register-session response.
    #[verifier::rlimit(100)]
    #[verifier::spinoff_prover]
    fn take_signup_response_back(&mut self) -> (r: Option<
        (
            Option<u32>,
            Option<String>,
            Option<u8>,
            Option<u8>,
            Option<u8>,
            Option<u8>,
            Option<u8>,
            Option<String>,
        ),
    >)
        requires
            old(self).wf(),
        ensures
            final(self).buf == old(self).buf,
            final(self).wf(),
            r matches Some(t) ==> wf_opt_chars(opt_view(t.1)) && wf_opt_chars(opt_view(t.7))
                && starts_at(
                old(self).buf@,
                old(self).pos as int,
                sr_back_of(t.0, opt_view(t.1), t.2, t.3, t.4, t.5, t.6, opt_view(t.7)),
            ) && final(self).pos == old(self).pos + sr_back_of(
                t.0,
                opt_view(t.1),
                t.2,
                t.3,
                t.4,
                t.5,
                t.6,
                opt_view(t.7),
            ).len(),
            forall|m2: SignupResponse|
                wf_signup_response(m2) && starts_at(
                    old(self).buf@,
                    old(self).pos as int,
                    signup_response_back_bytes(m2),
                ) ==> r is Some && r.unwrap().0 == m2.time_used && opt_view(r.unwrap().1)
                    == opt_view(m2.account_name) && r.unwrap().2 == m2.login_mode && r.unwrap().3
                    == m2.login_type && r.unwrap().4 == m2.credit_account && r.unwrap().5
                    == m2.physical_value && r.unwrap().6 == m2.role_level && opt_view(
                    r.unwrap().7,
                ) == opt_view(m2.ip),
    {
        let ghost obuf = self.buf@;
        let ghost opos = self.pos as int;
        proof {
            lemma_signup_response_keys_wf();
        }
        let f1 = self.take_opt_u32_field("timeUsed");
        let f2 = self.take_opt_str_field("accountName");
        let f3 = self.take_opt_u8_field("loginMode");
        let f4 = self.take_opt_u8_field("loginType");
        let f5 = self.take_opt_u8_field("creditAccount");
        let f6 = self.take_opt_u8_field("physicalValue");
        let f7 = self.take_opt_u8_field("roleLevel");
        let f8 = self.take_opt_str_field("ip");
        proof {
            assert forall|m2: SignupResponse|
                wf_signup_response(m2) && starts_at(
                    obuf,
                    opos,
                    signup_response_back_bytes(m2),
                ) implies f1 == Some(m2.time_used) && f2 is Some && opt_view(f2.unwrap())
                == opt_view(m2.account_name) && f3 == Some(m2.login_mode) && f4 == Some(
                m2.login_type,
            ) && f5 == Some(m2.credit_account) && f6 == Some(m2.physical_value) && f7 == Some(
                m2.role_level,
            ) && f8 is Some && opt_view(f8.unwrap()) == opt_view(m2.ip) by {
                let p1 = kv_opt_uint("timeUsed"@, opt_u32_as_u64(m2.time_used));
                let p2 = kv_opt_str("accountName"@, opt_view(m2.account_name));
                let p3 = kv_opt_uint("loginMode"@, opt_u8_as_u64(m2.login_mode));
                let p4 = kv_opt_uint("loginType"@, opt_u8_as_u64(m2.login_type));
                let p5 = kv_opt_uint("creditAccount"@, opt_u8_as_u64(m2.credit_account));
                let p6 = kv_opt_uint("physicalValue"@, opt_u8_as_u64(m2.physical_value));
                let p7 = kv_opt_uint("roleLevel"@, opt_u8_as_u64(m2.role_level));
                let p8 = kv_opt_str("ip"@, opt_view(m2.ip));
                lemma_starts_at_concat(obuf, opos, p1 + p2 + p3 + p4 + p5 + p6 + p7, p8);
                lemma_starts_at_concat(obuf, opos, p1 + p2 + p3 + p4 + p5 + p6, p7);
                lemma_starts_at_concat(obuf, opos, p1 + p2 + p3 + p4 + p5, p6);
                lemma_starts_at_concat(obuf, opos, p1 + p2 + p3 + p4, p5);
                lemma_starts_at_concat(obuf, opos, p1 + p2 + p3, p4);
                lemma_starts_at_concat(obuf, opos, p1 + p2, p3);
                lemma_starts_at_concat(obuf, opos, p1, p2);
                assert(f1 == Some(m2.time_used));
                assert(kv_opt_uint("timeUsed"@, opt_u32_as_u64(m2.time_used)) == p1);
                assert(f2 is Some && opt_view(f2.unwrap()) == opt_view(m2.account_name));
                assert(kv_opt_str("accountName"@, opt_view(f2.unwrap())) == p2);
                assert(f3 == Some(m2.login_mode));
                assert(kv_opt_uint("loginMode"@, opt_u8_as_u64(m2.login_mode)) == p3);
                assert(f4 == Some(m2.login_type));
                assert(kv_opt_uint("loginType"@, opt_u8_as_u64(m2.login_type)) == p4);
                assert(f5 == Some(m2.credit_account));
                assert(kv_opt_uint("creditAccount"@, opt_u8_as_u64(m2.credit_account)) == p5);
                assert(f6 == Some(m2.physical_value));
                assert(kv_opt_uint("physicalValue"@, opt_u8_as_u64(m2.physical_value)) == p6);
                assert(f7 == Some(m2.role_level));
                assert(kv_opt_uint("roleLevel"@, opt_u8_as_u64(m2.role_level)) == p7);
                assert(f8 is Some && opt_view(f8.unwrap()) == opt_view(m2.ip));
            }
        }
        match (f1, f2, f3, f4, f5, f6, f7, f8) {
            (Some(a), Some(b), Some(c), Some(d), Some(e), Some(f), Some(g), Some(h)) => {
                proof {
                    let p1 = kv_opt_uint("timeUsed"@, opt_u32_as_u64(a));
                    let p2 = kv_opt_str("accountName"@, opt_view(b));
                    let p3 = kv_opt_uint("loginMode"@, opt_u8_as_u64(c));
                    let p4 = kv_opt_uint("loginType"@, opt_u8_as_u64(d));
                    let p5 = kv_opt_uint("creditAccount"@, opt_u8_as_u64(e));
                    let p6 = kv_opt_uint("physicalValue"@, opt_u8_as_u64(f));
                    let p7 = kv_opt_uint("roleLevel"@, opt_u8_as_u64(g));
                    let p8 = kv_opt_str("ip"@, opt_view(h));
                    lemma_concat_starts_at(obuf, opos, p1, p2);
                    lemma_concat_starts_at(obuf, opos, p1 + p2, p3);
                    lemma_concat_starts_at(obuf, opos, p1 + p2 + p3, p4);
                    lemma_concat_starts_at(obuf, opos, p1 + p2 + p3 + p4, p5);
                    lemma_concat_starts_at(obuf, opos, p1 + p2 + p3 + p4 + p5, p6);
                    lemma_concat_starts_at(obuf, opos, p1 + p2 + p3 + p4 + p5 + p6, p7);
                    lemma_concat_starts_at(obuf, opos, p1 + p2 + p3 + p4 + p5 + p6 + p7, p8);
                }
                Some((a, b, c, d, e, f, g, h))
            },
            _ => None,
        }
    }

    /// Parses a register-session response.
    #[verifier::rlimit(100)]
    #[verifier::spinoff_prover]
    pub fn take_signup_response(&mut self) -> (r: Option<SignupResponse>)
        requires
            old(self).wf(),
        ensures
            final(self).buf == old(self).buf,
            final(self).wf(),
            r matches Some(m) ==> wf_signup_response(m) && starts_at(
                old(self).buf@,
                old(self).pos as int,
                signup_response_bytes(m),
            ) && final(self).pos == old(self).pos + signup_response_bytes(m).len(),
            forall|m2: SignupResponse|
                wf_signup_response(m2) && starts_at(
                    old(self).buf@,
                    old(self).pos as int,
                    signup_response_bytes(m2),
                ) ==> r is Some && eq_signup_response(r.unwrap(), m2),
    {
        let ghost obuf = self.buf@;
        let ghost opos = self.pos as int;
        let n = self.take_map_header();
        let front = self.take_signup_response_front();
        let back = self.take_signup_response_back();
        proof {
            assert forall|m2: SignupResponse|
                wf_signup_response(m2) && starts_at(obuf, opos, signup_response_bytes(m2))
                implies n == Some(16u64) && front is Some && back is Some && {
                let ft = front.unwrap();
                let bt = back.unwrap();
                &&& ft.0@ == m2.login_token@
                &&& ft.1 == m2.new_account
                &&& opt_view(ft.2) == opt_view(m2.sign)
                &&& opt_view(ft.3) == opt_view(m2.create_date)
                &&& opt_view(ft.4) == opt_view(m2.role_name)
                &&& ft.5 == m2.role_id
                &&& opt_view(ft.6) == opt_view(m2.server_name)
                &&& opt_view(ft.7) == opt_view(m2.server_id)
                &&& bt.0 == m2.time_used
                &&& opt_view(bt.1) == opt_view(m2.account_name)
                &&& bt.2 == m2.login_mode
                &&& bt.3 == m2.login_type
                &&& bt.4 == m2.credit_account
                &&& bt.5 == m2.physical_value
                &&& bt.6 == m2.role_level
                &&& opt_view(bt.7) == opt_view(m2.ip)
            } by {
                let p0 = map_header_bytes(16);
                let pf = signup_response_front_bytes(m2);
                let pb = signup_response_back_bytes(m2);
                lemma_starts_at_concat(obuf, opos, p0 + pf, pb);
                lemma_starts_at_concat(obuf, opos, p0, pf);
                assert(front is Some);
                let ft = front.unwrap();
                assert(sr_front_of(
                    ft.0@,
                    ft.1,
                    opt_view(ft.2),
                    opt_view(ft.3),
                    opt_view(ft.4),
                    ft.5,
                    opt_view(ft.6),
                    opt_view(ft.7),
                ) == pf);
                assert(back is Some);
            }
        }
        let n_ok = match n {
            Some(v) => v == 16,
            None => false,
        };
        if !n_ok {
            return None;
        }
        match (front, back) {
            (Some(ft), Some(bt)) => {
                let (login_token, new_account, sign, create_date, role_name, role_id, server_name,
                    server_id) = ft;
                let (time_used, account_name, login_mode, login_type, credit_account,
                    physical_value, role_level, ip) = bt;
                let m = SignupResponse {
                    login_token,
                    new_account,
                    sign,
                    create_date,
                    role_name,
                    role_id,
                    server_name,
                    server_id,
                    time_used,
                    account_name,
                    login_mode,
                    login_type,
                    credit_account,
                    physical_value,
                    role_level,
                    ip,
                };
                proof {
                    let p0 = map_header_bytes(16);
                    let pf = signup_response_front_bytes(m);
                    let pb = signup_response_back_bytes(m);
                    lemma_concat_starts_at(obuf, opos, p0, pf);
                    lemma_concat_starts_at(obuf, opos, p0 + pf, pb);
                }
                Some(m)
            },
            _ => None,
        }
    }
}

// ------------------------------------------------------------------
// Response wrappers and the base64 envelope.
// ------------------------------------------------------------------

pub open spec fn api_load_bytes(m: ApiResponse<LoadResponse>) -> Seq<u8> {
    map_header_bytes(2) + crate::msgpack::str_bytes("data_headers"@) + data_headers_bytes(
        m.data_headers,
    ) + crate::msgpack::str_bytes("data"@) + load_response_bytes(m.data)
}

pub open spec fn wf_api_load(m: ApiResponse<LoadResponse>) -> bool {
    wf_data_headers(m.data_headers) && wf_load_response(m.data)
}

/// Equal views give equal load-envelope bytes.
proof fn lemma_api_load_bytes_congruent(a: ApiResponse<LoadResponse>, b: ApiResponse<LoadResponse>)
    requires
        eq_data_headers(a.data_headers, b.data_headers),
        eq_load_response(a.data, b.data),
    ensures
        api_load_bytes(a) == api_load_bytes(b),
{
    assert(data_headers_parts(a.data_headers) =~= data_headers_parts(b.data_headers));
    assert(load_response_parts(a.data) =~= load_response_parts(b.data));
}

/// Frames a whole load-profile response envelope body.
pub fn encode_api_load(m: &ApiResponse<LoadResponse>) -> (out: Result<Vec<u8>, NetError>)
    ensures
        out matches Ok(b) ==> b@ == api_load_bytes(*m),
        (out is Ok) == wf_api_load(*m),
{
    proof {
        lemma_container_keys_wf();
    }
    let mut out: Vec<u8> = Vec::new();
    let ok_h = put_map_header(&mut out, 2);
    assert(ok_h);
    let k1 = crate::msgpack::put_str(&mut out, "data_headers");
    assert(k1);
    if !encode_data_headers(&mut out, &m.data_headers) {
        return Err(NetError::EnvelopeEncode("oversized string".to_owned()));
    }
    let k2 = crate::msgpack::put_str(&mut out, "data");
    assert(k2);
    if !encode_load_response(&mut out, &m.data) {
        return Err(NetError::EnvelopeEncode("oversized string".to_owned()));
    }
    proof {
        assert(out@ =~= api_load_bytes(*m));
    }
    Ok(out)
}

impl<'a> ByteReader<'a> {
    /// Parses a load-profile response envelope body.
    pub fn take_api_load(&mut self) -> (r: Option<ApiResponse<LoadResponse>>)
        requires
            old(self).wf(),
        ensures
            final(self).buf == old(self).buf,
            final(self).wf(),
            r matches Some(m) ==> wf_api_load(m) && starts_at(
                old(self).buf@,
                old(self).pos as int,
                api_load_bytes(m),
            ) && final(self).pos == old(self).pos + api_load_bytes(m).len(),
            forall|m2: ApiResponse<LoadResponse>|
                wf_api_load(m2) && starts_at(old(self).buf@, old(self).pos as int, api_load_bytes(m2))
                    ==> r is Some && eq_data_headers(r.unwrap().data_headers, m2.data_headers)
                    && eq_load_response(r.unwrap().data, m2.data),
    {
        let ghost obuf = self.buf@;
        let ghost opos = self.pos as int;
        proof {
            lemma_container_keys_wf();
        }
        let n = self.take_map_header();
        let k1 = self.take_key("data_headers");
        let h = self.take_data_headers();
        let k2 = self.take_key("data");
        let d = self.take_load_response();
        proof {
            assert forall|m2: ApiResponse<LoadResponse>|
                wf_api_load(m2) && starts_at(obuf, opos, api_load_bytes(m2)) implies n == Some(
                2u64,
            ) && k1 && h is Some && eq_data_headers(h.unwrap(), m2.data_headers) && k2 && d
                is Some && eq_load_response(d.unwrap(), m2.data) by {
                let p0 = map_header_bytes(2);
                let p1 = crate::msgpack::str_bytes("data_headers"@);
                let p2 = data_headers_bytes(m2.data_headers);
                let p3 = crate::msgpack::str_bytes("data"@);
                let p4 = load_response_bytes(m2.data);
                crate::msgpack::lemma_starts_at_concat(obuf, opos, p0 + p1 + p2 + p3, p4);
                crate::msgpack::lemma_starts_at_concat(obuf, opos, p0 + p1 + p2, p3);
                crate::msgpack::lemma_starts_at_concat(obuf, opos, p0 + p1, p2);
                crate::msgpack::lemma_starts_at_concat(obuf, opos, p0, p1);
            }
        }
        let n_ok = match n {
            Some(v) => v == 2,
            None => false,
        };
        if !n_ok || !k1 || !k2 {
            return None;
        }
        match (h, d) {
            (Some(data_headers), Some(data)) => {
                let m = ApiResponse { data_headers, data };
                proof {
                    let p0 = map_header_bytes(2);
                    let p1 = crate::msgpack::str_bytes("data_headers"@);
                    let p2 = data_headers_bytes(m.data_headers);
                    let p3 = crate::msgpack::str_bytes("data"@);
                    let p4 = load_response_bytes(m.data);
                    crate::msgpack::lemma_concat_starts_at(obuf, opos, p0, p1);
                    crate::msgpack::lemma_concat_starts_at(obuf, opos, p0 + p1, p2);
                    crate::msgpack::lemma_concat_starts_at(obuf, opos, p0 + p1 + p2, p3);
                    crate::msgpack::lemma_concat_starts_at(obuf, opos, p0 + p1 + p2 + p3, p4);
                }
                Some(m)
            },
            _ => None,
        }
    }

    /// Parses a register-session response envelope body.
    #[verifier::rlimit(100)]
    #[verifier::spinoff_prover]
    pub fn take_api_signup(&mut self) -> (r: Option<ApiResponse<SignupResponse>>)
        requires
            old(self).wf(),
        ensures
            final(self).buf == old(self).buf,
            final(self).wf(),
            r matches Some(m) ==> wf_api_signup(m) && starts_at(
                old(self).buf@,
                old(self).pos as int,
                api_signup_bytes(m),
            ) && final(self).pos == old(self).pos + api_signup_bytes(m).len(),
            forall|m2: ApiResponse<SignupResponse>|
                wf_api_signup(m2) && starts_at(
                    old(self).buf@,
                    old(self).pos as int,
                    api_signup_bytes(m2),
                ) ==> r is Some && eq_data_headers(r.unwrap().data_headers, m2.data_headers)
                    && eq_signup_response(r.unwrap().data, m2.data),
    {
        let ghost obuf = self.buf@;
        let ghost opos = self.pos as int;
        proof {
            lemma_container_keys_wf();
        }
        let n = self.take_map_header();
        let k1 = self.take_key("data_headers");
        let h = self.take_data_headers();
        let k2 = self.take_key("data");
        let d = self.take_signup_response();
        proof {
            assert forall|m2: ApiResponse<SignupResponse>|
                wf_api_signup(m2) && starts_at(obuf, opos, api_signup_bytes(m2)) implies n
                == Some(2u64) && k1 && h is Some && eq_data_headers(h.unwrap(), m2.data_headers)
                && k2 && d is Some && eq_signup_response(d.unwrap(), m2.data) by {
                let p0 = map_header_bytes(2);
                let p1 = crate::msgpack::str_bytes("data_headers"@);
                let p2 = data_headers_bytes(m2.data_headers);
                let p3 = crate::msgpack::str_bytes("data"@);
                let p4 = signup_response_bytes(m2.data);
                lemma_starts_at_concat(obuf, opos, p0 + p1 + p2 + p3, p4);
                lemma_starts_at_concat(obuf, opos, p0 + p1 + p2, p3);
                lemma_starts_at_concat(obuf, opos, p0 + p1, p2);
                lemma_starts_at_concat(obuf, opos, p0, p1);
                assert(h is Some && eq_data_headers(h.unwrap(), m2.data_headers));
                lemma_data_headers_bytes_congruent(h.unwrap(), m2.data_headers);
                assert(d is Some && eq_signup_response(d.unwrap(), m2.data));
            }
        }
        let n_ok = match n {
            Some(v) => v == 2,
            None => false,
        };
        if !n_ok || !k1 || !k2 {
            return None;
        }
        match (h, d) {
            (Some(data_headers), Some(data)) => {
                let m = ApiResponse { data_headers, data };
                proof {
                    let p0 = map_header_bytes(2);
                    let p1 = crate::msgpack::str_bytes("data_headers"@);
                    let p2 = data_headers_bytes(m.data_headers);
                    let p3 = crate::msgpack::str_bytes("data"@);
                    let p4 = signup_response_bytes(m.data);
                    lemma_concat_starts_at(obuf, opos, p0, p1);
                    lemma_concat_starts_at(obuf, opos, p0 + p1, p2);
                    lemma_concat_starts_at(obuf, opos, p0 + p1 + p2, p3);
                    lemma_concat_starts_at(obuf, opos, p0 + p1 + p2 + p3, p4);
                }
                Some(m)
            },
            _ => None,
        }
    }

    /// Parses a resolve-asset-paths response envelope body.
    #[verifier::rlimit(100)]
    #[verifier::spinoff_prover]
    pub fn take_api_asset_paths(&mut self) -> (r: Option<ApiResponse<AssetPaths>>)
        requires
            old(self).wf(),
        ensures
            final(self).buf == old(self).buf,
            final(self).wf(),
            r matches Some(m) ==> wf_api_asset_paths(m) && starts_at(
                old(self).buf@,
                old(self).pos as int,
                api_asset_paths_bytes(m),
            ) && final(self).pos == old(self).pos + api_asset_paths_bytes(m).len(),
            forall|m2: ApiResponse<AssetPaths>|
                wf_api_asset_paths(m2) && starts_at(
                    old(self).buf@,
                    old(self).pos as int,
                    api_asset_paths_bytes(m2),
                ) ==> r is Some && eq_data_headers(r.unwrap().data_headers, m2.data_headers)
                    && r.unwrap().data@ == m2.data@,
    {
        let ghost obuf = self.buf@;
        let ghost opos = self.pos as int;
        proof {
            lemma_container_keys_wf();
        }
        let n = self.take_map_header();
        let k1 = self.take_key("data_headers");
        let h = self.take_data_headers();
        let k2 = self.take_key("data");
        let d = self.take_asset_paths();
        proof {
            assert forall|m2: ApiResponse<AssetPaths>|
                wf_api_asset_paths(m2) && starts_at(obuf, opos, api_asset_paths_bytes(m2))
                implies n == Some(2u64) && k1 && h is Some && eq_data_headers(
                h.unwrap(),
                m2.data_headers,
            ) && k2 && d is Some && d.unwrap()@ == m2.data@ by {
                let p0 = map_header_bytes(2);
                let p1 = crate::msgpack::str_bytes("data_headers"@);
                let p2 = data_headers_bytes(m2.data_headers);
                let p3 = crate::msgpack::str_bytes("data"@);
                let p4 = asset_paths_bytes(m2.data);
                lemma_starts_at_concat(obuf, opos, p0 + p1 + p2 + p3, p4);
                lemma_starts_at_concat(obuf, opos, p0 + p1 + p2, p3);
                lemma_starts_at_concat(obuf, opos, p0 + p1, p2);
                lemma_starts_at_concat(obuf, opos, p0, p1);
                assert(h is Some && eq_data_headers(h.unwrap(), m2.data_headers));
                lemma_data_headers_bytes_congruent(h.unwrap(), m2.data_headers);
                assert(d is Some && d.unwrap()@ == m2.data@);
            }
        }
        let n_ok = match n {
            Some(v) => v == 2,
            None => false,
        };
        if !n_ok || !k1 || !k2 {
            return None;
        }
        match (h, d) {
            (Some(data_headers), Some(data)) => {
                let m = ApiResponse { data_headers, data };
                proof {
                    let p0 = map_header_bytes(2);
                    let p1 = crate::msgpack::str_bytes("data_headers"@);
                    let p2 = data_headers_bytes(m.data_headers);
                    let p3 = crate::msgpack::str_bytes("data"@);
                    let p4 = asset_paths_bytes(m.data);
                    lemma_concat_starts_at(obuf, opos, p0, p1);
                    lemma_concat_starts_at(obuf, opos, p0 + p1, p2);
                    lemma_concat_starts_at(obuf, opos, p0 + p1 + p2, p3);
                    lemma_concat_starts_at(obuf, opos, p0 + p1 + p2 + p3, p4);
                }
                Some(m)
            },
            _ => None,
        }
    }

    /// Parses a resolve-version-info response envelope body.
    #[verifier::rlimit(100)]
    #[verifier::spinoff_prover]
    pub fn take_api_version_info(&mut self) -> (r: Option<ApiResponse<AssetVersionInfo>>)
        requires
            old(self).wf(),
        ensures
            final(self).buf == old(self).buf,
            final(self).wf(),
            r matches Some(m) ==> wf_api_version_info(m) && starts_at(
                old(self).buf@,
                old(self).pos as int,
                api_version_info_bytes(m),
            ) && final(self).pos == old(self).pos + api_version_info_bytes(m).len(),
            forall|m2: ApiResponse<AssetVersionInfo>|
                wf_api_version_info(m2) && starts_at(
                    old(self).buf@,
                    old(self).pos as int,
                    api_version_info_bytes(m2),
                ) ==> r is Some && eq_data_headers(r.unwrap().data_headers, m2.data_headers)
                    && r.unwrap().data@ == m2.data@,
    {
        let ghost obuf = self.buf@;
        let ghost opos = self.pos as int;
        proof {
            lemma_container_keys_wf();
        }
        let n = self.take_map_header();
        let k1 = self.take_key("data_headers");
        let h = self.take_data_headers();
        let k2 = self.take_key("data");
        let d = self.take_version_info();
        proof {
            assert forall|m2: ApiResponse<AssetVersionInfo>|
                wf_api_version_info(m2) && starts_at(obuf, opos, api_version_info_bytes(m2))
                implies n == Some(2u64) && k1 && h is Some && eq_data_headers(
                h.unwrap(),
                m2.data_headers,
            ) && k2 && d is Some && d.unwrap()@ == m2.data@ by {
                let p0 = map_header_bytes(2);
                let p1 = crate::msgpack::str_bytes("data_headers"@);
                let p2 = data_headers_bytes(m2.data_headers);
                let p3 = crate::msgpack::str_bytes("data"@);
                let p4 = version_info_bytes(m2.data);
                lemma_starts_at_concat(obuf, opos, p0 + p1 + p2 + p3, p4);
                lemma_starts_at_concat(obuf, opos, p0 + p1 + p2, p3);
                lemma_starts_at_concat(obuf, opos, p0 + p1, p2);
                lemma_starts_at_concat(obuf, opos, p0, p1);
                assert(h is Some && eq_data_headers(h.unwrap(), m2.data_headers));
                lemma_data_headers_bytes_congruent(h.unwrap(), m2.data_headers);
                assert(d is Some && d.unwrap()@ == m2.data@);
            }
        }
        let n_ok = match n {
            Some(v) => v == 2,
            None => false,
        };
        if !n_ok || !k1 || !k2 {
            return None;
        }
        match (h, d) {
            (Some(data_headers), Some(data)) => {
                let m = ApiResponse { data_headers, data };
                proof {
                    let p0 = map_header_bytes(2);
                    let p1 = crate::msgpack::str_bytes("data_headers"@);
                    let p2 = data_headers_bytes(m.data_headers);
                    let p3 = crate::msgpack::str_bytes("data"@);
                    let p4 = version_info_bytes(m.data);
                    lemma_concat_starts_at(obuf, opos, p0, p1);
                    lemma_concat_starts_at(obuf, opos, p0 + p1, p2);
                    lemma_concat_starts_at(obuf, opos, p0 + p1 + p2, p3);
                    lemma_concat_starts_at(obuf, opos, p0 + p1 + p2 + p3, p4);
                }
                Some(m)
            },
            _ => None,
        }
    }
}

/// The framed body of a register-session response envelope.
pub open spec fn api_signup_bytes(m: ApiResponse<SignupResponse>) -> Seq<u8> {
    map_header_bytes(2) + crate::msgpack::str_bytes("data_headers"@) + data_headers_bytes(
        m.data_headers,
    ) + crate::msgpack::str_bytes("data"@) + signup_response_bytes(m.data)
}

pub open spec fn wf_api_signup(m: ApiResponse<SignupResponse>) -> bool {
    wf_data_headers(m.data_headers) && wf_signup_response(m.data)
}

/// The framed body of a resolve-asset-paths response envelope.
pub open spec fn api_asset_paths_bytes(m: ApiResponse<AssetPaths>) -> Seq<u8> {
    map_header_bytes(2) + crate::msgpack::str_bytes("data_headers"@) + data_headers_bytes(
        m.data_headers,
    ) + crate::msgpack::str_bytes("data"@) + asset_paths_bytes(m.data)
}

pub open spec fn wf_api_asset_paths(m: ApiResponse<AssetPaths>) -> bool {
    wf_data_headers(m.data_headers) && wf_asset_paths(m.data)
}

/// The framed body of a resolve-version-info response envelope.
pub open spec fn api_version_info_bytes(m: ApiResponse<AssetVersionInfo>) -> Seq<u8> {
    map_header_bytes(2) + crate::msgpack::str_bytes("data_headers"@) + data_headers_bytes(
        m.data_headers,
    ) + crate::msgpack::str_bytes("data"@) + version_info_bytes(m.data)
}

pub open spec fn wf_api_version_info(m: ApiResponse<AssetVersionInfo>) -> bool {
    wf_data_headers(m.data_headers) && wf_version_info(m.data)
}

/// Equal views give equal session-metadata bytes.
proof fn lemma_data_headers_bytes_congruent(a: DataHeaders, b: DataHeaders)
    requires
        eq_data_headers(a, b),
    ensures
        data_headers_bytes(a) == data_headers_bytes(b),
{
    assert(data_headers_parts(a) =~= data_headers_parts(b));
}

/// Equal views give equal version-info bytes.
proof fn lemma_version_info_bytes_congruent(a: AssetVersionInfo, b: AssetVersionInfo)
    requires
        a@ == b@,
    ensures
        version_info_bytes(a) == version_info_bytes(b),
{
    assert(version_info_parts(a) =~= version_info_parts(b));
}

/// Equal views give equal register-session response bytes.
proof fn lemma_signup_response_bytes_congruent(a: SignupResponse, b: SignupResponse)
    requires
        eq_signup_response(a, b),
    ensures
        signup_response_bytes(a) == signup_response_bytes(b),
{
}

/// Equal views give equal manifest bytes.
proof fn lemma_asset_paths_bytes_congruent(a: AssetPaths, b: AssetPaths)
    requires
        a@ == b@,
    ensures
        asset_paths_bytes(a) == asset_paths_bytes(b),
{
    lemma_paths_info_bytes_congruent(a.info, b.info);
    lemma_full_bytes_congruent(a.full, b.full);
    assert(crate::models::dvs(a.diff@) == a@.diff && crate::models::dvs(b.diff@) == b@.diff);
    lemma_diffs_bytes_congruent(a.diff@, b.diff@);
    assert(a.diff@.len() == crate::models::dvs(a.diff@).len() && b.diff@.len()
        == crate::models::dvs(b.diff@).len());
}

/// Seals framed bytes into the text-safe envelope.
pub fn seal_envelope(bytes: &Vec<u8>) -> (r: String)
    ensures
        r@ == crate::outside::b64_of(bytes@),
{
    crate::outside::base64_encode(bytes.as_slice())
}

/// Opens a text-safe envelope back into framed bytes.
pub fn open_envelope(s: &str) -> (r: Option<Vec<u8>>)
    ensures
        forall|b: Seq<u8>| s@ == crate::outside::b64_of(b) ==> r is Some && r.unwrap()@ == b,
        r matches Some(v) ==> s@ == crate::outside::b64_of(v@),
{
    crate::outside::base64_decode(s)
}

/// Decodes a full load-profile response envelope: the base64 text must hold
/// exactly one well-formed payload, and on the envelope of any well-formed
/// response this cannot fail.
pub fn decode_load_envelope(s: &str) -> (r: Result<ApiResponse<LoadResponse>, NetError>)
    ensures
        r matches Ok(m) ==> wf_api_load(m) && s@ == crate::outside::b64_of(api_load_bytes(m)),
        forall|m2: ApiResponse<LoadResponse>|
            wf_api_load(m2) && s@ == crate::outside::b64_of(api_load_bytes(m2)) ==> r is Ok
                && eq_data_headers(r.unwrap().data_headers, m2.data_headers) && eq_load_response(
                r.unwrap().data,
                m2.data,
            ),
{
    let bytes = match open_envelope(s) {
        Some(b) => b,
        None => {
            proof {
                assert forall|m2: ApiResponse<LoadResponse>|
                    wf_api_load(m2) implies s@ != crate::outside::b64_of(api_load_bytes(m2)) by {}
            }
            return Err(NetError::EnvelopeDecode("invalid base64".to_owned()));
        },
    };
    let mut rd = ByteReader::new(&bytes);
    let ghost bv = bytes@;
    proof {
        assert forall|m2: ApiResponse<LoadResponse>|
            wf_api_load(m2) && s@ == crate::outside::b64_of(api_load_bytes(m2)) implies bv
            == api_load_bytes(m2) && starts_at(bv, 0, api_load_bytes(m2)) by {
            assert(bv.subrange(0, api_load_bytes(m2).len() as int) =~= api_load_bytes(m2));
        }
    }
    let m = match rd.take_api_load() {
        Some(m) => m,
        None => {
            return Err(NetError::EnvelopeDecode("malformed payload".to_owned()));
        },
    };
    if !rd.done() {
        proof {
            assert forall|m2: ApiResponse<LoadResponse>|
                wf_api_load(m2) && s@ == crate::outside::b64_of(api_load_bytes(m2))
                implies false by {
                lemma_api_load_bytes_congruent(m, m2);
            }
        }
        return Err(NetError::EnvelopeDecode("trailing bytes".to_owned()));
    }
    proof {
        assert(bv.subrange(0, api_load_bytes(m).len() as int) =~= bv);
    }
    Ok(m)
}

/// Decodes a register-session response envelope: on the envelope of any
/// well-formed response this cannot fail, and what it accepts is exactly
/// the envelope of what it returns.
pub fn decode_signup_envelope(s: &str) -> (r: Result<ApiResponse<SignupResponse>, NetError>)
    ensures
        r matches Ok(m) ==> wf_api_signup(m) && s@ == crate::outside::b64_of(api_signup_bytes(m)),
        forall|m2: ApiResponse<SignupResponse>|
            wf_api_signup(m2) && s@ == crate::outside::b64_of(api_signup_bytes(m2)) ==> r is Ok
                && eq_data_headers(r.unwrap().data_headers, m2.data_headers)
                && eq_signup_response(r.unwrap().data, m2.data),
{
    let bytes = match open_envelope(s) {
        Some(b) => b,
        None => {
            return Err(NetError::EnvelopeDecode("invalid base64".to_owned()));
        },
    };
    let mut rd = ByteReader::new(&bytes);
    let ghost bv = bytes@;
    proof {
        assert forall|m2: ApiResponse<SignupResponse>|
            wf_api_signup(m2) && s@ == crate::outside::b64_of(api_signup_bytes(m2)) implies bv
            == api_signup_bytes(m2) && starts_at(bv, 0, api_signup_bytes(m2)) by {
            assert(bv.subrange(0, api_signup_bytes(m2).len() as int) =~= api_signup_bytes(m2));
        }
    }
    let m = match rd.take_api_signup() {
        Some(m) => m,
        None => {
            return Err(NetError::EnvelopeDecode("malformed payload".to_owned()));
        },
    };
    if !rd.done() {
        proof {
            assert forall|m2: ApiResponse<SignupResponse>|
                wf_api_signup(m2) && s@ == crate::outside::b64_of(api_signup_bytes(m2))
                implies false by {
                lemma_data_headers_bytes_congruent(m.data_headers, m2.data_headers);
                lemma_signup_response_bytes_congruent(m.data, m2.data);
            }
        }
        return Err(NetError::EnvelopeDecode("trailing bytes".to_owned()));
    }
    proof {
        assert(bv.subrange(0, api_signup_bytes(m).len() as int) =~= bv);
    }
    Ok(m)
}

/// Decodes a resolve-asset-paths response envelope, with the same two-way
/// round-trip guarantees.
pub fn decode_asset_paths_envelope(s: &str) -> (r: Result<ApiResponse<AssetPaths>, NetError>)
    ensures
        r matches Ok(m) ==> wf_api_asset_paths(m) && s@ == crate::outside::b64_of(
            api_asset_paths_bytes(m),
        ),
        forall|m2: ApiResponse<AssetPaths>|
            wf_api_asset_paths(m2) && s@ == crate::outside::b64_of(api_asset_paths_bytes(m2))
                ==> r is Ok && eq_data_headers(r.unwrap().data_headers, m2.data_headers)
                && r.unwrap().data@ == m2.data@,
{
    let bytes = match open_envelope(s) {
        Some(b) => b,
        None => {
            return Err(NetError::EnvelopeDecode("invalid base64".to_owned()));
        },
    };
    let mut rd = ByteReader::new(&bytes);
    let ghost bv = bytes@;
    proof {
        assert forall|m2: ApiResponse<AssetPaths>|
            wf_api_asset_paths(m2) && s@ == crate::outside::b64_of(api_asset_paths_bytes(m2))
            implies bv == api_asset_paths_bytes(m2) && starts_at(
            bv,
            0,
            api_asset_paths_bytes(m2),
        ) by {
            assert(bv.subrange(0, api_asset_paths_bytes(m2).len() as int)
                =~= api_asset_paths_bytes(m2));
        }
    }
    let m = match rd.take_api_asset_paths() {
        Some(m) => m,
        None => {
            return Err(NetError::EnvelopeDecode("malformed payload".to_owned()));
        },
    };
    if !rd.done() {
        proof {
            assert forall|m2: ApiResponse<AssetPaths>|
                wf_api_asset_paths(m2) && s@ == crate::outside::b64_of(api_asset_paths_bytes(m2))
                implies false by {
                lemma_data_headers_bytes_congruent(m.data_headers, m2.data_headers);
                lemma_asset_paths_bytes_congruent(m.data, m2.data);
            }
        }
        return Err(NetError::EnvelopeDecode("trailing bytes".to_owned()));
    }
    proof {
        assert(bv.subrange(0, api_asset_paths_bytes(m).len() as int) =~= bv);
    }
    Ok(m)
}

/// Decodes a resolve-version-info response envelope, with the same two-way
/// round-trip guarantees.
pub fn decode_version_info_envelope(s: &str) -> (r: Result<
    ApiResponse<AssetVersionInfo>,
    NetError,
>)
    ensures
        r matches Ok(m) ==> wf_api_version_info(m) && s@ == crate::outside::b64_of(
            api_version_info_bytes(m),
        ),
        forall|m2: ApiResponse<AssetVersionInfo>|
            wf_api_version_info(m2) && s@ == crate::outside::b64_of(api_version_info_bytes(m2))
                ==> r is Ok && eq_data_headers(r.unwrap().data_headers, m2.data_headers)
                && r.unwrap().data@ == m2.data@,
{
    let bytes = match open_envelope(s) {
        Some(b) => b,
        None => {
            return Err(NetError::EnvelopeDecode("invalid base64".to_owned()));
        },
    };
    let mut rd = ByteReader::new(&bytes);
    let ghost bv = bytes@;
    proof {
        assert forall|m2: ApiResponse<AssetVersionInfo>|
            wf_api_version_info(m2) && s@ == crate::outside::b64_of(api_version_info_bytes(m2))
            implies bv == api_version_info_bytes(m2) && starts_at(
            bv,
            0,
            api_version_info_bytes(m2),
        ) by {
            assert(bv.subrange(0, api_version_info_bytes(m2).len() as int)
                =~= api_version_info_bytes(m2));
        }
    }
    let m = match rd.take_api_version_info() {
        Some(m) => m,
        None => {
            return Err(NetError::EnvelopeDecode("malformed payload".to_owned()));
        },
    };
    if !rd.done() {
        proof {
            assert forall|m2: ApiResponse<AssetVersionInfo>|
                wf_api_version_info(m2) && s@ == crate::outside::b64_of(
                    api_version_info_bytes(m2),
                ) implies false by {
                lemma_data_headers_bytes_congruent(m.data_headers, m2.data_headers);
                lemma_version_info_bytes_congruent(m.data, m2.data);
            }
        }
        return Err(NetError::EnvelopeDecode("trailing bytes".to_owned()));
    }
    proof {
        assert(bv.subrange(0, api_version_info_bytes(m).len() as int) =~= bv);
    }
    Ok(m)
}

} // verus!
