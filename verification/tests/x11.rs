use oxideterm::x11::{
    X11AuthFallbackMode, X11Display, X11ForwardConfig, X11ForwardPolicy, X11ForwardTrust,
    X11ForwardingError, DEFAULT_X11_UNTRUSTED_TIMEOUT_MILLIS,
};

#[test]
fn untrusted_policy_defaults_to_openssh_twenty_minute_timeout() {
    assert_eq!(
        X11ForwardPolicy::untrusted().timeout_millis,
        Some(DEFAULT_X11_UNTRUSTED_TIMEOUT_MILLIS)
    );
    assert_eq!(
        X11ForwardPolicy::untrusted()
            .without_timeout()
            .timeout_millis,
        None
    );
}

#[test]
fn config_carries_explicit_forwarding_policy() {
    let display = X11Display::parse(":0").unwrap();
    let config = X11ForwardConfig::new(display)
        .with_policy(X11ForwardPolicy::trusted().with_timeout_millis(30_000));

    assert_eq!(config.policy.trust, X11ForwardTrust::Trusted);
    assert_eq!(config.policy.timeout_millis, Some(30_000));
}

#[test]
fn default_policy_is_untrusted_with_real_auth() {
    let policy = X11ForwardPolicy::default();
    assert_eq!(policy, X11ForwardPolicy::untrusted());
    assert!(!policy.is_trusted());
    assert_eq!(policy.fallback, X11AuthFallbackMode::RequireRealAuth);
    assert_eq!(DEFAULT_X11_UNTRUSTED_TIMEOUT_MILLIS, 20 * 60 * 1000);
    let trusted = X11ForwardPolicy::trusted();
    assert!(trusted.is_trusted());
    assert_eq!(trusted.timeout_millis, None);
}

#[test]
fn builders_change_only_their_field() {
    let policy = X11ForwardPolicy::trusted()
        .with_timeout_millis(5)
        .with_fallback(X11AuthFallbackMode::GenerateSyntheticCookie);
    assert_eq!(policy.trust, X11ForwardTrust::Trusted);
    assert_eq!(policy.timeout_millis, Some(5));
    assert_eq!(policy.fallback, X11AuthFallbackMode::GenerateSyntheticCookie);
    assert_eq!(policy.without_timeout().with_timeout_millis(5), policy);
}

#[test]
fn remote_display_value_keeps_the_screen() {
    let display = X11Display::parse(":0.1").unwrap();
    assert_eq!(display.screen, 1);
    let config = X11ForwardConfig::new(display);
    assert_eq!(config.remote_display, 10);
    assert!(!config.single_connection);
    assert_eq!(config.remote_display_value(), "localhost:10.1");
    let plain = X11ForwardConfig::new(X11Display::parse("host:3").unwrap());
    assert_eq!(plain.remote_display_value(), "localhost:10.0");
    assert_eq!(plain.local_display.host, "host");
    assert_eq!(plain.local_display.display, 3);
}

#[test]
fn malformed_displays_are_refused() {
    assert_eq!(X11Display::parse(""), Err(X11ForwardingError::EmptyDisplay));
    assert_eq!(
        X11Display::parse("nocolon"),
        Err(X11ForwardingError::InvalidDisplay("nocolon".to_string()))
    );
    assert_eq!(
        X11Display::parse(":x"),
        Err(X11ForwardingError::InvalidDisplay(":x".to_string()))
    );
    assert_eq!(
        X11Display::parse(":70000"),
        Err(X11ForwardingError::InvalidDisplay(":70000".to_string()))
    );
    assert_eq!(
        X11Display::parse(":1."),
        Err(X11ForwardingError::InvalidDisplay(":1.".to_string()))
    );
}
