//! The resolved configuration the run starts from: where the bitcoind node
//! listens and how to authenticate against it, with the rule that decides
//! which authentication method is used.

use vstd::prelude::*;

verus! {

/// How to reach and authenticate against the bitcoind node.
pub struct BitcoindClient {
    /// Path of the node's cookie file; takes precedence over user/password.
    pub cookie_auth_path: Option<String>,
    /// Address the node's RPC interface listens on.
    pub ip_addr: String,
    pub user: Option<String>,
    pub passwd: Option<String>,
}

/// The run's resolved settings.
pub struct Settings {
    pub bitcoind_client: BitcoindClient,
}

/// The authentication method chosen for the node client.
pub enum AuthSelection {
    /// Authenticate with the node's cookie file.
    CookieFile { path: String },
    /// Authenticate with a user name and password.
    UserPass { user: String, passwd: String },
}

impl BitcoindClient {
    /// The client is usable only with a cookie file path, or with both a
    /// user and a password.
    pub open spec fn has_auth(self) -> bool {
        self.cookie_auth_path is Some || (self.user is Some && self.passwd is Some)
    }

    /// Picks the authentication method: the cookie file when one is
    /// configured — it takes precedence — else user and password when both
    /// are present; `None` exactly when neither choice is complete, which
    /// the caller must reject before the run starts.
    pub fn auth_selection(&self) -> (r: Option<AuthSelection>)
        ensures
            match self.cookie_auth_path {
                Some(path) => r == Some(AuthSelection::CookieFile { path }),
                None => match (self.user, self.passwd) {
                    (Some(user), Some(passwd)) => r == Some(
                        AuthSelection::UserPass { user, passwd },
                    ),
                    _ => r is None,
                },
            },
            r is Some <==> self.has_auth(),
    {
        match &self.cookie_auth_path {
            Some(path) => Some(AuthSelection::CookieFile { path: path.clone() }),
            None => match (&self.user, &self.passwd) {
                (Some(user), Some(passwd)) => Some(
                    AuthSelection::UserPass { user: user.clone(), passwd: passwd.clone() },
                ),
                _ => None,
            },
        }
    }
}

impl Settings {
    /// Whether the settings carry a usable authentication choice; a run must
    /// not start without one.
    pub fn check_auth(&self) -> (r: bool)
        ensures
            r == self.bitcoind_client.has_auth(),
    {
        match &self.bitcoind_client.cookie_auth_path {
            Some(_) => true,
            None => self.bitcoind_client.user.is_some() && self.bitcoind_client.passwd.is_some(),
        }
    }
}

} // verus!
