//! What the proxy is told at startup.

use vstd::prelude::*;

verus! {

/// Where the blacklist is kept when nothing else is configured.
pub const DEFAULT_BLACKLIST_PATH: &'static str = "mirp.blacklist";

/// The proxy's configuration. Set once at startup and never changed.
#[derive(Debug, PartialEq, Eq)]
pub struct ProxyConfig {
    /// The domain whose connections are relayed.
    pub target_domain: String,
    /// The `host:port` the proxy listens on.
    pub public_address: String,
    /// The `host:port` of the backend.
    pub local_address: String,
}

/// The mathematical content of a `ProxyConfig`.
pub struct ConfigView {
    pub target_domain: Seq<char>,
    pub public_address: Seq<char>,
    pub local_address: Seq<char>,
}

impl View for ProxyConfig {
    type V = ConfigView;

    open spec fn view(&self) -> ConfigView {
        ConfigView {
            target_domain: self.target_domain@,
            public_address: self.public_address@,
            local_address: self.local_address@,
        }
    }
}

/// A required setting that was not given.
#[derive(Clone, Copy, Debug, PartialEq, Eq, Structural)]
pub enum ConfigError {
    MissingTargetDomain,
    MissingPublicAddress,
    MissingLocalAddress,
}

/// The configuration the three settings amount to, or the first of them that
/// is missing.
pub open spec fn config_of(
    target_domain: Option<Seq<char>>,
    public_address: Option<Seq<char>>,
    local_address: Option<Seq<char>>,
) -> Result<ConfigView, ConfigError> {
    match (target_domain, public_address, local_address) {
        (None, _, _) => Err(ConfigError::MissingTargetDomain),
        (Some(_), None, _) => Err(ConfigError::MissingPublicAddress),
        (Some(_), Some(_), None) => Err(ConfigError::MissingLocalAddress),
        (Some(target_domain), Some(public_address), Some(local_address)) => Ok(
            ConfigView { target_domain, public_address, local_address },
        ),
    }
}

/// The characters of a setting, if it was given.
pub open spec fn setting_view(setting: Option<String>) -> Option<Seq<char>> {
    match setting {
        Some(text) => Some(text@),
        None => None,
    }
}

impl ProxyConfig {
    /// Builds the configuration from the three required settings. All three
    /// must be present; the first that is missing is reported.
    pub fn from_settings(
        target_domain: Option<String>,
        public_address: Option<String>,
        local_address: Option<String>,
    ) -> (out: Result<ProxyConfig, ConfigError>)
        ensures
            match (
                out,
                config_of(
                    setting_view(target_domain),
                    setting_view(public_address),
                    setting_view(local_address),
                ),
            ) {
                (Ok(config), Ok(model)) => config@ == model,
                (Err(e), Err(f)) => e == f,
                _ => false,
            },
    {
        let target_domain = match target_domain {
            Some(text) => text,
            None => { return Err(ConfigError::MissingTargetDomain); },
        };
        let public_address = match public_address {
            Some(text) => text,
            None => { return Err(ConfigError::MissingPublicAddress); },
        };
        let local_address = match local_address {
            Some(text) => text,
            None => { return Err(ConfigError::MissingLocalAddress); },
        };
        Ok(ProxyConfig { target_domain, public_address, local_address })
    }
}

/// The path of the blacklist file: the configured one, or
/// `DEFAULT_BLACKLIST_PATH` when none is configured.
pub fn blacklist_path(configured: Option<String>) -> (out: String)
    ensures
        out@ == (match configured {
            Some(path) => path@,
            None => DEFAULT_BLACKLIST_PATH@,
        }),
{
    match configured {
        Some(path) => path,
        None => DEFAULT_BLACKLIST_PATH.to_owned(),
    }
}

} // verus!
