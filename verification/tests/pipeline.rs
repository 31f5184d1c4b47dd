use aegiuw_core::fixture::{client_hello, ech_then_decoy_sni, sni_extension};
use aegiuw_core::pipeline::{assess, host_in_cache, ALLOW_CACHE};
use aegiuw_core::peek;
use aegiuw_core::{extract_sni, RiskLevel, RiskSignal, SniOutcome};

#[test]
fn cached_host_takes_native_path() {
    let ch = client_hello(&sni_extension("github.com"));
    let (_, verdict) = assess(&ch, "Chrome");
    assert!(verdict.allows_native_path());
}

#[test]
fn email_launched_unknown_host_is_high_risk() {
    let ch = client_hello(&sni_extension("new-vendor.io"));
    let (_, verdict) = assess(&ch, "Outlook");
    assert_eq!(verdict.level, RiskLevel::HighRisk);
}

#[test]
fn typosquat_from_browser_is_suspicious() {
    let ch = client_hello(&sni_extension("micr0soft.com"));
    let (outcome, verdict) = assess(&ch, "Chrome");
    assert!(matches!(outcome, SniOutcome::Cleartext { .. }));
    assert_eq!(verdict.level, RiskLevel::Suspicious);
}

#[test]
fn ech_connection_isolates_via_encrypted_signal() {
    let ch = client_hello(&ech_then_decoy_sni("cloudflare-ech.com"));
    let (outcome, verdict) = assess(&ch, "Chrome");
    assert_eq!(outcome, SniOutcome::Encrypted);
    assert!(!verdict.allows_native_path());
    assert!(verdict.signals.contains(&RiskSignal::EncryptedClientHello));
}

#[test]
fn malformed_bytes_isolate_via_malformed_signal() {
    let (outcome, verdict) = assess(&[0xff, 0xff, 0xff, 0xff], "unknown");
    assert_eq!(outcome, SniOutcome::Malformed);
    assert!(!verdict.allows_native_path());
    assert!(verdict.signals.contains(&RiskSignal::MalformedClientHello));
}

#[test]
fn fixture_client_hello_round_trips_through_extract_sni() {
    let ch = client_hello(&sni_extension("example.com"));
    assert_eq!(extract_sni(&ch), SniOutcome::Cleartext { host: "example.com".into() });
}

// ── Further cases ────────────────────────────────────────────────────────

#[test]
fn allow_cache_matches_ignoring_ascii_case_only() {
    assert_eq!(ALLOW_CACHE, ["github.com", "www.example.com"]);
    assert!(host_in_cache("github.com"));
    assert!(host_in_cache("GitHub.COM"));
    assert!(host_in_cache("WWW.EXAMPLE.COM"));
    assert!(!host_in_cache("example.com"));
    assert!(!host_in_cache("github.com.evil"));
    assert!(!host_in_cache(""));
}

#[test]
fn cached_host_is_safe_even_from_an_email_client() {
    let ch = client_hello(&sni_extension("www.example.com"));
    let (outcome, verdict) = assess(&ch, "Outlook");
    assert_eq!(outcome, SniOutcome::Cleartext { host: "www.example.com".into() });
    assert_eq!(verdict.level, RiskLevel::Safe);
    assert!(verdict.signals.is_empty());
}

#[test]
fn uncached_host_lists_cache_miss_then_typosquat_then_context() {
    let ch = client_hello(&sni_extension("paypa1.com"));
    let (_, verdict) = assess(&ch, "Thunderbird");
    assert_eq!(
        verdict.signals,
        vec![
            RiskSignal::NotInSafeCache,
            RiskSignal::Typosquat {
                domain: "paypa1.com".into(),
                looks_like: "paypal.com".into(),
                distance: 1,
            },
            RiskSignal::RiskyLaunchContext { parent_process: "Thunderbird".into() },
        ]
    );
    assert_eq!(verdict.level, RiskLevel::HighRisk);
}

#[test]
fn unknown_host_from_browser_is_unknown() {
    let ch = client_hello(&sni_extension("totally-new-vendor.io"));
    let (_, verdict) = assess(&ch, "Google Chrome");
    assert_eq!(verdict.signals, vec![RiskSignal::NotInSafeCache]);
    assert_eq!(verdict.level, RiskLevel::Unknown);
}

#[test]
fn hostless_outcome_still_applies_launch_context() {
    let ch = client_hello(&[]);
    let (outcome, verdict) = assess(&ch, "Outlook");
    assert_eq!(outcome, SniOutcome::NotFound);
    assert_eq!(
        verdict.signals,
        vec![
            RiskSignal::NoServerName,
            RiskSignal::RiskyLaunchContext { parent_process: "Outlook".into() },
        ]
    );
    assert_eq!(verdict.level, RiskLevel::HighRisk);
}

#[test]
fn fixture_bytes_are_exact() {
    assert_eq!(
        sni_extension("ab"),
        vec![0x00, 0x00, 0x00, 0x07, 0x00, 0x05, 0x00, 0x00, 0x02, b'a', b'b']
    );
    assert_eq!(
        ech_then_decoy_sni("a"),
        vec![0xfe, 0x0d, 0x00, 0x00, 0x00, 0x00, 0x00, 0x06, 0x00, 0x04, 0x00, 0x00, 0x01, b'a']
    );
    let record = client_hello(&[]);
    let mut expected = vec![0x16, 0x03, 0x01, 0x00, 0x2f, 0x01, 0x00, 0x00, 0x2b, 0x03, 0x03];
    expected.extend_from_slice(&[0xAA; 32]);
    expected.extend_from_slice(&[0x00, 0x00, 0x02, 0x13, 0x01, 0x01, 0x00, 0x00, 0x00]);
    assert_eq!(record, expected);
}

#[test]
fn fixture_ech_round_trip_is_encrypted() {
    let ch = client_hello(&ech_then_decoy_sni("decoy.example.com"));
    assert_eq!(extract_sni(&ch), SniOutcome::Encrypted);
    let ch = client_hello(&sni_extension("Mixed-Case.example"));
    assert_eq!(extract_sni(&ch), SniOutcome::Cleartext { host: "Mixed-Case.example".into() });
}

#[test]
fn host_only_peek_reports_cleartext_hosts_only() {
    assert_eq!(peek::extract_sni(&client_hello(&sni_extension("example.com"))), Some("example.com".into()));
    assert_eq!(peek::extract_sni(&client_hello(&ech_then_decoy_sni("example.com"))), None);
    assert_eq!(peek::extract_sni(&client_hello(&[])), None);
}

#[test]
fn empty_input_yields_no_sni() {
    assert_eq!(aegiuw_core::peek::extract_sni(&[]), None);
}
