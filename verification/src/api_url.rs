//! The service's endpoints.

use vstd::prelude::*;

verus! {

/// The stock base URL of the game service's API.
pub fn api_host() -> (r: &'static str)
    ensures
        r@ == "https://shijtswygamegf.leiting.com/api/index.php/"@,
{
    "https://shijtswygamegf.leiting.com/api/index.php/"
}

/// Endpoint that creates accounts.
pub fn tool_signup() -> (r: &'static str)
    ensures
        r@ == "tool/signup"@,
{
    "tool/signup"
}

/// Endpoint that returns user data.
pub fn load() -> (r: &'static str)
    ensures
        r@ == "load"@,
{
    "load"
}

/// Endpoint that returns content-delivery asset paths.
pub fn asset_get_path() -> (r: &'static str)
    ensures
        r@ == "asset/get_path"@,
{
    "asset/get_path"
}

/// Endpoint that returns the current content-delivery version.
pub fn asset_version_info() -> (r: &'static str)
    ensures
        r@ == "asset/version_info"@,
{
    "asset/version_info"
}

} // verus!
