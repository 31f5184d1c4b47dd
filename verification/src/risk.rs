//! Risk verdicts: the data model every heuristic feeds into, and the policy
//! that folds a set of signals into one decision.

use vstd::prelude::*;

use crate::sni::extract::{Outcome, SniOutcome};

verus! {

/// How dangerous a domain looks, from least to most severe.
///
/// Declaration order is the severity order the derived `Ord` follows, so
/// `RiskLevel::HighRisk > RiskLevel::Safe`.
#[derive(Debug, Clone, Copy, PartialEq, Eq, PartialOrd, Ord, Structural)]
pub enum RiskLevel {
    /// Present in the signed local allow-cache; eligible for the native path.
    Safe,
    /// No information either way; unknown domains take the isolate path.
    Unknown,
    /// One or more heuristics flagged a concern.
    Suspicious,
    /// Strong indicator of an attack.
    HighRisk,
}

/// Position in declaration order, the order the derived `Ord` follows.
pub open spec fn level_rank(l: RiskLevel) -> int {
    match l {
        RiskLevel::Safe => 0,
        RiskLevel::Unknown => 1,
        RiskLevel::Suspicious => 2,
        RiskLevel::HighRisk => 3,
    }
}

/// A single piece of evidence produced by a heuristic.
#[derive(Debug, Clone, PartialEq, Eq)]
pub enum RiskSignal {
    /// The domain is within the configured edit distance of a known brand.
    Typosquat { domain: String, looks_like: String, distance: usize },
    /// The call was launched from a higher-risk parent process and the
    /// domain is not cached.
    RiskyLaunchContext { parent_process: String },
    /// The domain was not found in the signed local allow-cache.
    NotInSafeCache,
    /// The ClientHello carried an `encrypted_client_hello` extension; the
    /// real SNI is unobservable.
    EncryptedClientHello,
    /// The ClientHello parsed but carried no usable `server_name`.
    NoServerName,
    /// The peeked bytes did not parse as a TLS ClientHello.
    MalformedClientHello,
}

/// The severity one signal implies on its own. The three SNI-outcome
/// signals fail safe to `Unknown` without escalating.
pub open spec fn severity_of(s: RiskSignal) -> RiskLevel {
    match s {
        RiskSignal::Typosquat { .. } => RiskLevel::Suspicious,
        RiskSignal::RiskyLaunchContext { .. } => RiskLevel::HighRisk,
        RiskSignal::NotInSafeCache => RiskLevel::Unknown,
        RiskSignal::EncryptedClientHello => RiskLevel::Unknown,
        RiskSignal::NoServerName => RiskLevel::Unknown,
        RiskSignal::MalformedClientHello => RiskLevel::Unknown,
    }
}

impl RiskSignal {
    /// The severity this signal implies on its own.
    pub fn severity(&self) -> (r: RiskLevel)
        ensures
            r == severity_of(*self),
    {
        match self {
            RiskSignal::Typosquat { .. } => RiskLevel::Suspicious,
            RiskSignal::RiskyLaunchContext { .. } => RiskLevel::HighRisk,
            RiskSignal::NotInSafeCache => RiskLevel::Unknown,
            RiskSignal::EncryptedClientHello => RiskLevel::Unknown,
            RiskSignal::NoServerName => RiskLevel::Unknown,
            RiskSignal::MalformedClientHello => RiskLevel::Unknown,
        }
    }
}

/// The signals an SNI outcome implies: none for a cleartext host (the host
/// is the input to the host heuristics, not a signal), one for each of the
/// other outcomes.
pub open spec fn outcome_signals(o: Outcome) -> Seq<RiskSignal> {
    match o {
        Outcome::Cleartext(_) => Seq::empty(),
        Outcome::Encrypted => seq![RiskSignal::EncryptedClientHello],
        Outcome::NotFound => seq![RiskSignal::NoServerName],
        Outcome::Malformed => seq![RiskSignal::MalformedClientHello],
    }
}

/// Adapt a parsed SNI outcome into the risk signals it implies.
pub fn into_signals(outcome: &SniOutcome) -> (r: Vec<RiskSignal>)
    ensures
        r@ == outcome_signals(outcome@),
{
    let mut v: Vec<RiskSignal> = Vec::new();
    match outcome {
        SniOutcome::Cleartext { .. } => {},
        SniOutcome::Encrypted => v.push(RiskSignal::EncryptedClientHello),
        SniOutcome::NotFound => v.push(RiskSignal::NoServerName),
        SniOutcome::Malformed => v.push(RiskSignal::MalformedClientHello),
    }
    assert(v@ =~= outcome_signals(outcome@));
    v
}

/// The most severe level among the signals, if there is any signal.
pub open spec fn worst(signals: Seq<RiskSignal>) -> Option<RiskLevel>
    decreases signals.len(),
{
    if signals.len() == 0 {
        None
    } else {
        let here = severity_of(signals.last());
        match worst(signals.drop_last()) {
            None => Some(here),
            Some(w) => if level_rank(here) > level_rank(w) {
                Some(here)
            } else {
                Some(w)
            },
        }
    }
}

/// The level a set of signals folds to: the worst of them, `Unknown` when
/// there are none.
pub open spec fn verdict_level(signals: Seq<RiskSignal>) -> RiskLevel {
    match worst(signals) {
        Some(l) => l,
        None => RiskLevel::Unknown,
    }
}

/// The final assessment for one domain: a level plus the evidence behind it.
#[derive(Debug, Clone, PartialEq, Eq)]
pub struct Verdict {
    pub level: RiskLevel,
    pub signals: Vec<RiskSignal>,
}

fn rank_of(l: RiskLevel) -> (r: u8)
    ensures
        r == level_rank(l),
{
    match l {
        RiskLevel::Safe => 0,
        RiskLevel::Unknown => 1,
        RiskLevel::Suspicious => 2,
        RiskLevel::HighRisk => 3,
    }
}

proof fn lemma_worst_bounds(signals: Seq<RiskSignal>)
    ensures
        worst(signals) matches Some(w) ==> {
            &&& w != RiskLevel::Safe
            &&& forall|i: int|
                0 <= i < signals.len() ==> level_rank(#[trigger] severity_of(signals[i]))
                    <= level_rank(w)
            &&& exists|i: int| 0 <= i < signals.len() && #[trigger] severity_of(signals[i]) == w
        },
        worst(signals) is None <==> signals.len() == 0,
    decreases signals.len(),
{
    if signals.len() > 0 {
        let rest = signals.drop_last();
        lemma_worst_bounds(rest);
        let here = severity_of(signals.last());
        assert forall|i: int| 0 <= i < rest.len() implies rest[i] == signals[i] by {}
        if let Some(w) = worst(rest) {
            let k = choose|k: int| 0 <= k < rest.len() && #[trigger] severity_of(rest[k]) == w;
            assert(severity_of(signals[k]) == w);
        }
        assert(severity_of(signals[signals.len() - 1]) == here);
    }
}

impl Verdict {
    /// Combine signals into one verdict whose level is the most severe
    /// signal level, or `Unknown` for no signals. It is never `Safe`: only the
    /// constructor `safe`, used for an allow-cache hit, gives that level.
    pub fn evaluate(signals: Vec<RiskSignal>) -> (v: Self)
        ensures
            v.level == verdict_level(signals@),
            v.signals@ == signals@,
            v.level != RiskLevel::Safe,
            forall|i: int|
                0 <= i < signals@.len() ==> level_rank(#[trigger] severity_of(signals@[i]))
                    <= level_rank(v.level),
            signals@.len() > 0 ==> exists|i: int|
                0 <= i < signals@.len() && #[trigger] severity_of(signals@[i]) == v.level,
    {
        proof {
            lemma_worst_bounds(signals@);
        }
        let mut best: Option<RiskLevel> = None;
        let mut i: usize = 0;
        while i < signals.len()
            invariant
                0 <= i <= signals@.len(),
                best == worst(signals@.subrange(0, i as int)),
            decreases signals@.len() - i,
        {
            let here = signals[i].severity();
            assert(signals@.subrange(0, i + 1).drop_last() =~= signals@.subrange(0, i as int));
            best = match best {
                None => Some(here),
                Some(w) => if rank_of(here) > rank_of(w) {
                    Some(here)
                } else {
                    Some(w)
                },
            };
            i = i + 1;
        }
        assert(signals@.subrange(0, signals@.len() as int) =~= signals@);
        let level = match best {
            Some(l) => l,
            None => RiskLevel::Unknown,
        };
        Verdict { level, signals }
    }

    /// The verdict for a confirmed allow-cache hit.
    pub fn safe() -> (v: Self)
        ensures
            v.level == RiskLevel::Safe,
            v.signals@.len() == 0,
    {
        Verdict { level: RiskLevel::Safe, signals: Vec::new() }
    }

    /// Whether this domain may use the native path: only an explicit `Safe`
    /// qualifies.
    pub fn allows_native_path(&self) -> (r: bool)
        ensures
            r == (self.level == RiskLevel::Safe),
    {
        self.level == RiskLevel::Safe
    }
}

/// No SNI outcome asserts `Safe`: folding the signals of an encrypted,
/// absent or malformed SNI gives `Unknown`, which takes the isolate path.
pub proof fn sni_outcome_signals_fail_safe(o: Outcome)
    ensures
        !(o is Cleartext) ==> verdict_level(outcome_signals(o)) == RiskLevel::Unknown,
{
    let s = outcome_signals(o);
    if !(o is Cleartext) {
        assert(s.len() == 1);
        assert(s.drop_last() =~= Seq::<RiskSignal>::empty());
        assert(worst(s.drop_last()) is None);
        assert(severity_of(s.last()) == RiskLevel::Unknown);
    }
}

} // verus!
