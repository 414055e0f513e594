//! Account-profile types at the interface boundary; the account server
//! itself (HTTP, database, key handling) is an outside collaborator.

use vstd::prelude::*;

verus! {

/// Seconds in the validity window of keys used without an account:
/// ninety days.
pub const ACCOUNTLESS_VALIDITY_SECS: u64 = 7_776_000;

/// How long keys without an account stay valid, in seconds.
pub fn accountless_validy_range() -> (r: u64)
    ensures
        r == ACCOUNTLESS_VALIDITY_SECS,
        r == 60 * 60 * 24 * 30 * 3,
{
    ACCOUNTLESS_VALIDITY_SECS
}

/// One stored account profile.
#[derive(Clone, Debug)]
pub struct ProfileData {
    /// Display name of the profile.
    pub name: String,
}

/// A request for a login token via a steam session.
#[derive(Clone, Debug)]
pub struct LoginTokenSteamRequest {
    /// The session ticket the steam client generated.
    pub steam_ticket: Vec<u8>,
    /// Secret from a verification process, if one ran.
    pub secret_key: Option<Vec<u8>>,
}

/// Callback the steam verification hands its session code to; users of
/// the library implement it.
pub trait SteamHook {
    fn on_steam_code(&self, steam_code: &Vec<u8>);
}

/// How a login attempt ended.
#[derive(Clone, Debug)]
pub enum LoginResult {
    /// The transport failed.
    HttpLikeError { msg: String },
    /// The local key store failed.
    FsLikeError { msg: String },
    /// The account server rejected the request.
    AccountServerRequstError { msg: String },
    /// Anything not handled explicitly.
    Other { msg: String },
}

} // verus!
