use mirp::config::{blacklist_path, ConfigError, ProxyConfig, DEFAULT_BLACKLIST_PATH};

fn some(text: &str) -> Option<String> {
    Some(text.to_string())
}

#[test]
fn all_three_settings_make_a_configuration() {
    let config =
        ProxyConfig::from_settings(some("mc.example.com"), some("0.0.0.0:12345"), some("127.0.0.1:25565"));
    assert_eq!(
        config,
        Ok(ProxyConfig {
            target_domain: "mc.example.com".to_string(),
            public_address: "0.0.0.0:12345".to_string(),
            local_address: "127.0.0.1:25565".to_string(),
        })
    );
}

#[test]
fn the_first_missing_setting_is_reported() {
    assert_eq!(
        ProxyConfig::from_settings(None, None, None),
        Err(ConfigError::MissingTargetDomain)
    );
    assert_eq!(
        ProxyConfig::from_settings(None, some("a"), some("b")),
        Err(ConfigError::MissingTargetDomain)
    );
    assert_eq!(
        ProxyConfig::from_settings(some("d"), None, None),
        Err(ConfigError::MissingPublicAddress)
    );
    assert_eq!(
        ProxyConfig::from_settings(some("d"), None, some("b")),
        Err(ConfigError::MissingPublicAddress)
    );
    assert_eq!(
        ProxyConfig::from_settings(some("d"), some("a"), None),
        Err(ConfigError::MissingLocalAddress)
    );
}

#[test]
fn the_blacklist_path_defaults() {
    assert_eq!(DEFAULT_BLACKLIST_PATH, "mirp.blacklist");
    assert_eq!(blacklist_path(None), "mirp.blacklist");
    assert_eq!(blacklist_path(some("/var/lib/proxy/banned")), "/var/lib/proxy/banned");
    assert_eq!(blacklist_path(some("")), "");
}
