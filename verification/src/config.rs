use vstd::prelude::*;

verus! {

/// Process configuration: where the wallet backend lives, optional
/// credentials for it (accepted but not forwarded by the core), the
/// informational wallet directory, and the service's own listen address.
pub struct Config {
    pub wallet_rpc_url: String,
    pub wallet_rpc_user: Option<String>,
    pub wallet_rpc_password: Option<String>,
    pub wallet_dir: String,
    pub listen: String,
}

impl core::default::Default for Config {
    /// The defaults the daemon starts with when nothing is configured.
    fn default() -> (r: Config)
        ensures
            r.wallet_rpc_url@ == "http://127.0.0.1:18083"@,
            r.wallet_rpc_user is None,
            r.wallet_rpc_password is None,
            r.wallet_dir@ == "wallet"@,
            r.listen@ == "127.0.0.1:8080"@,
    {
        Config {
            wallet_rpc_url: "http://127.0.0.1:18083".to_owned(),
            wallet_rpc_user: None,
            wallet_rpc_password: None,
            wallet_dir: "wallet".to_owned(),
            listen: "127.0.0.1:8080".to_owned(),
        }
    }
}

} // verus!
