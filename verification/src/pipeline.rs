//! The fork decision for one outbound connection: peek the SNI, fold the
//! outcome and the launch context into risk signals, and produce the verdict
//! that picks the native path or the isolate path.

use vstd::prelude::*;
use vstd::string::StringSliceAdditionalSpecFns;
use vstd::utf8::encode_utf8;

use crate::heuristics::context::{assess_context, context_signal_raised, launch_report};
use crate::heuristics::levenshtein::{
    check_typosquat, typosquat_report, DEFAULT_MAX_DISTANCE, SAMPLE_BRANDS,
};
use crate::risk::{
    into_signals, level_rank, outcome_signals, severity_of, verdict_level, RiskLevel, RiskSignal,
    Verdict,
};
use crate::sni::extract::{extract_sni, spec_extract_sni, valid_sni_host, Outcome, SniOutcome};
use crate::sni::server_name::hostname_shape_ok;
use crate::text::{ascii_chars, bytes_eq_ignore_ascii_case, eq_ignore_ascii_case};

verus! {

/// The signed local allow-cache: the hosts that may take the native path.
pub const ALLOW_CACHE: [&'static str; 2] = ["github.com", "www.example.com"];

/// `host` equals an allow-cache entry, ignoring ASCII case.
pub open spec fn in_allow_cache(host: Seq<char>) -> bool {
    exists|k: int|
        0 <= k < ALLOW_CACHE@.len() && #[trigger] eq_ignore_ascii_case(
            encode_utf8(host),
            ALLOW_CACHE@[k].spec_bytes(),
        )
}

/// Whether `host` is in the allow-cache, ignoring ASCII case.
pub fn host_in_cache(host: &str) -> (r: bool)
    ensures
        r == in_allow_cache(host@),
{
    let cache: &[&str] = ALLOW_CACHE.as_slice();
    let mut i: usize = 0;
    while i < cache.len()
        invariant
            0 <= i <= cache@.len(),
            cache@ == ALLOW_CACHE@,
            forall|k: int|
                0 <= k < i ==> !#[trigger] eq_ignore_ascii_case(
                    encode_utf8(host@),
                    ALLOW_CACHE@[k].spec_bytes(),
                ),
        decreases cache@.len() - i,
    {
        let entry: &str = cache[i];
        if bytes_eq_ignore_ascii_case(host.as_bytes(), entry.as_bytes()) {
            return true;
        }
        i = i + 1;
    }
    false
}

/// An optional signal as a sequence of zero or one signals.
pub open spec fn opt_signal(o: Option<RiskSignal>) -> Seq<RiskSignal> {
    match o {
        Some(s) => seq![s],
        None => Seq::empty(),
    }
}

/// The signals for a cleartext host outside the allow-cache: the cache miss,
/// then the typosquat finding against the sample brands, then the launch
/// context.
pub open spec fn host_signals(host: Seq<char>, parent_process: &str, s: Seq<RiskSignal>) -> bool {
    exists|t: Option<RiskSignal>, c: Option<RiskSignal>|
        #![trigger typosquat_report(host, SAMPLE_BRANDS@, DEFAULT_MAX_DISTANCE as nat, t), launch_report(parent_process, false, c)]
        typosquat_report(host, SAMPLE_BRANDS@, DEFAULT_MAX_DISTANCE as nat, t) && launch_report(
            parent_process,
            false,
            c,
        ) && s == seq![RiskSignal::NotInSafeCache] + opt_signal(t) + opt_signal(c)
}

/// The signals for a connection without a visible host: the SNI-outcome
/// signal, then the launch context.
pub open spec fn hostless_signals(o: Outcome, parent_process: &str, s: Seq<RiskSignal>) -> bool {
    exists|c: Option<RiskSignal>|
        #[trigger] launch_report(parent_process, false, c) && s == outcome_signals(o) + opt_signal(c)
}

/// The outcome names a cleartext host in the allow-cache.
pub open spec fn cache_hit(o: Outcome) -> bool {
    o matches Outcome::Cleartext(h) && in_allow_cache(h)
}

proof fn lemma_host_len(h: Seq<char>)
    requires
        valid_sni_host(h),
    ensures
        h.len() <= 253,
{
    let b = choose|b: Seq<u8>|
        #![trigger ascii_chars(b)]
        h == ascii_chars(b) && hostname_shape_ok(b) && !crate::sni::server_name::ip_address_literal(
            h,
        );
    assert(h.len() == b.len());
}

proof fn lemma_brand_lengths()
    ensures
        forall|k: int| 0 <= k < SAMPLE_BRANDS@.len() ==> (#[trigger] SAMPLE_BRANDS@[k])@.len() < 64,
{
    reveal_strlit("microsoft.com");
    reveal_strlit("paypal.com");
    reveal_strlit("google.com");
    reveal_strlit("apple.com");
    reveal_strlit("amazon.com");
    reveal_strlit("github.com");
}

/// Run the pipeline for one connection: peek the SNI, then fold the outcome
/// into a fork verdict.
///
/// A cleartext host in the allow-cache is `Safe`, the only verdict that
/// takes the native path. Another cleartext host runs through the typosquat
/// and launch-context heuristics. An encrypted, absent or malformed SNI has
/// no host to score: its SNI-outcome signal stands in, and the launch context
/// still applies.
pub fn assess(client_hello: &[u8], parent_process: &str) -> (r: (SniOutcome, Verdict))
    ensures
        r.0@ == spec_extract_sni(client_hello@),
        match r.0@ {
            Outcome::Cleartext(h) => if in_allow_cache(h) {
                r.1.level == RiskLevel::Safe && r.1.signals@.len() == 0
            } else {
                r.1.level == verdict_level(r.1.signals@) && host_signals(
                    h,
                    parent_process,
                    r.1.signals@,
                )
            },
            o => r.1.level == verdict_level(r.1.signals@) && hostless_signals(
                o,
                parent_process,
                r.1.signals@,
            ),
        },
        (r.1.level == RiskLevel::Safe) == cache_hit(r.0@),
        !cache_hit(r.0@) && context_signal_raised(parent_process.spec_bytes(), false)
            ==> r.1.level == RiskLevel::HighRisk,
{
    let outcome = extract_sni(client_hello);
    let verdict = match &outcome {
        SniOutcome::Cleartext { host } => {
            if host_in_cache(host.as_str()) {
                Verdict::safe()
            } else {
                proof {
                    lemma_host_len(host@);
                    lemma_brand_lengths();
                }
                let brands: &[&str] = SAMPLE_BRANDS.as_slice();
                let t = check_typosquat(host.as_str(), brands, DEFAULT_MAX_DISTANCE);
                let c = assess_context(parent_process, false);
                let ghost gt = t;
                let ghost gc = c;
                let mut signals: Vec<RiskSignal> = Vec::new();
                signals.push(RiskSignal::NotInSafeCache);
                if let Some(sig) = t {
                    signals.push(sig);
                }
                let ghost mid = signals@;
                if let Some(sig) = c {
                    signals.push(sig);
                }
                assert(signals@ =~= seq![RiskSignal::NotInSafeCache] + opt_signal(gt) + opt_signal(
                    gc,
                ));
                assert(typosquat_report(host@, SAMPLE_BRANDS@, DEFAULT_MAX_DISTANCE as nat, gt));
                assert(launch_report(parent_process, false, gc));
                let v = Verdict::evaluate(signals);
                proof {
                    if context_signal_raised(parent_process.spec_bytes(), false) {
                        let last = v.signals@.len() - 1;
                        assert(severity_of(v.signals@[last]) == RiskLevel::HighRisk);
                    }
                }
                v
            }
        },
        _ => {
            let c = assess_context(parent_process, false);
            let ghost gc = c;
            let mut signals = into_signals(&outcome);
            if let Some(sig) = c {
                signals.push(sig);
            }
            assert(signals@ =~= outcome_signals(outcome@) + opt_signal(gc));
            assert(launch_report(parent_process, false, gc));
            let v = Verdict::evaluate(signals);
            proof {
                if context_signal_raised(parent_process.spec_bytes(), false) {
                    let last = v.signals@.len() - 1;
                    assert(severity_of(v.signals@[last]) == RiskLevel::HighRisk);
                }
            }
            v
        },
    };
    (outcome, verdict)
}

} // verus!
