use aegiuw_core::risk::into_signals;
use aegiuw_core::{RiskLevel, RiskSignal, SniOutcome, Verdict};

#[test]
fn risk_no_signals_is_unknown_not_safe() {
    let v = Verdict::evaluate(vec![]);
    assert_eq!(v.level, RiskLevel::Unknown);
    assert!(!v.allows_native_path());
}

#[test]
fn risk_verdict_takes_the_worst_signal() {
    let v = Verdict::evaluate(vec![
        RiskSignal::NotInSafeCache,
        RiskSignal::Typosquat {
            domain: "paypa1.com".into(),
            looks_like: "paypal.com".into(),
            distance: 1,
        },
        RiskSignal::RiskyLaunchContext { parent_process: "outlook".into() },
    ]);
    assert_eq!(v.level, RiskLevel::HighRisk);
}

#[test]
fn risk_severity_ordering_holds() {
    assert!(RiskLevel::HighRisk > RiskLevel::Suspicious);
    assert!(RiskLevel::Suspicious > RiskLevel::Unknown);
    assert!(RiskLevel::Unknown > RiskLevel::Safe);
}

#[test]
fn risk_only_safe_allows_native_path() {
    assert!(Verdict::safe().allows_native_path());
}

#[test]
fn into_signals_cleartext_emits_nothing() {
    let outcome = SniOutcome::Cleartext { host: "example.com".into() };
    assert!(into_signals(&outcome).is_empty());
}

#[test]
fn into_signals_encrypted_emits_ech_signal() {
    assert_eq!(into_signals(&SniOutcome::Encrypted), vec![RiskSignal::EncryptedClientHello]);
}

#[test]
fn into_signals_not_found_emits_no_server_name() {
    assert_eq!(into_signals(&SniOutcome::NotFound), vec![RiskSignal::NoServerName]);
}

#[test]
fn into_signals_malformed_emits_malformed_signal() {
    assert_eq!(into_signals(&SniOutcome::Malformed), vec![RiskSignal::MalformedClientHello]);
}

#[test]
fn sni_outcome_signals_all_fail_safe_to_isolate() {
    for outcome in [SniOutcome::Encrypted, SniOutcome::NotFound, SniOutcome::Malformed] {
        let verdict = Verdict::evaluate(into_signals(&outcome));
        assert!(!verdict.allows_native_path(), "{outcome:?} must not take the Native Path");
        assert_eq!(verdict.level, RiskLevel::Unknown);
    }
}

// ── Further cases ────────────────────────────────────────────────────────

#[test]
fn each_signal_has_its_fixed_severity() {
    let typo = RiskSignal::Typosquat { domain: "a".into(), looks_like: "b".into(), distance: 1 };
    assert_eq!(typo.severity(), RiskLevel::Suspicious);
    let ctx = RiskSignal::RiskyLaunchContext { parent_process: "x".into() };
    assert_eq!(ctx.severity(), RiskLevel::HighRisk);
    assert_eq!(RiskSignal::NotInSafeCache.severity(), RiskLevel::Unknown);
    assert_eq!(RiskSignal::EncryptedClientHello.severity(), RiskLevel::Unknown);
    assert_eq!(RiskSignal::NoServerName.severity(), RiskLevel::Unknown);
    assert_eq!(RiskSignal::MalformedClientHello.severity(), RiskLevel::Unknown);
}

#[test]
fn evaluate_keeps_the_signals_in_order() {
    let signals = vec![
        RiskSignal::NotInSafeCache,
        RiskSignal::Typosquat { domain: "a".into(), looks_like: "b".into(), distance: 2 },
    ];
    let v = Verdict::evaluate(signals.clone());
    assert_eq!(v.level, RiskLevel::Suspicious);
    assert_eq!(v.signals, signals);
    let s = Verdict::safe();
    assert_eq!(s.level, RiskLevel::Safe);
    assert!(s.signals.is_empty());
}
