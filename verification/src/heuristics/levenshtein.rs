//! Levenshtein typo-squat detection.
//!
//! Compares an SNI domain against a dictionary of known brands. A small edit
//! distance to a brand that is not an exact match (`micr0soft.com` against
//! `microsoft.com`) is a classic phishing tell.

use vstd::prelude::*;
use vstd::string::StringSliceAdditionalSpecFns;
use vstd::utf8::encode_utf8;

use crate::risk::RiskSignal;
use crate::text::{bytes_eq_ignore_ascii_case, chars_of, eq_ignore_ascii_case};

verus! {

pub open spec fn min_nat(x: nat, y: nat) -> nat {
    if x <= y {
        x
    } else {
        y
    }
}

/// Edit distance between the first `i` characters of `a` and the first `j`
/// characters of `b`: the fewest single-character insertions, deletions and
/// substitutions that turn one into the other.
pub open spec fn edit_distance(a: Seq<char>, b: Seq<char>, i: nat, j: nat) -> nat
    decreases i + j,
{
    if i == 0 {
        j
    } else if j == 0 {
        i
    } else {
        let deletion = edit_distance(a, b, (i - 1) as nat, j) + 1;
        let insertion = edit_distance(a, b, i, (j - 1) as nat) + 1;
        let substitution = edit_distance(a, b, (i - 1) as nat, (j - 1) as nat) + (if a[i - 1]
            == b[j - 1] {
            0nat
        } else {
            1nat
        });
        min_nat(min_nat(deletion, insertion), substitution)
    }
}

/// Levenshtein distance between two character sequences.
pub open spec fn levenshtein(a: Seq<char>, b: Seq<char>) -> nat {
    edit_distance(a, b, a.len(), b.len())
}

proof fn lemma_edit_distance_bound(a: Seq<char>, b: Seq<char>, i: nat, j: nat)
    ensures
        edit_distance(a, b, i, j) <= if i >= j {
            i
        } else {
            j
        },
    decreases i + j,
{
    if i > 0 && j > 0 {
        lemma_edit_distance_bound(a, b, (i - 1) as nat, (j - 1) as nat);
    }
}

/// Levenshtein edit distance between two strings, counted in Unicode
/// scalar values (`char`s), not bytes.
///
/// The standard two-row dynamic programme over the shorter string: O(n·m)
/// time, O(min(n, m)) space.
pub fn distance(a: &str, b: &str) -> (d: usize)
    requires
        a@.len() < usize::MAX,
        b@.len() < usize::MAX,
    ensures
        d == levenshtein(a@, b@),
{
    let a = chars_of(a);
    let b = chars_of(b);
    if b.len() > a.len() {
        proof {
            distance_is_symmetric(a@, b@);
        }
        distance_rows(&b, &a)
    } else {
        distance_rows(&a, &b)
    }
}

/// The dynamic programme with rows as long as `b`.
fn distance_rows(a: &Vec<char>, b: &Vec<char>) -> (d: usize)
    requires
        a@.len() < usize::MAX,
        b@.len() < usize::MAX,
    ensures
        d == levenshtein(a@, b@),
{
    let n = a.len();
    let m = b.len();
    if n == 0 {
        return m;
    }
    if m == 0 {
        return n;
    }
    let ghost sa = a@;
    let ghost sb = b@;

    let mut prev: Vec<usize> = Vec::new();
    let mut j: usize = 0;
    while j <= m
        invariant
            0 <= j <= m + 1,
            m == sb.len(),
            m < usize::MAX,
            prev@.len() == j,
            forall|k: int| 0 <= k < j ==> prev@[k] == edit_distance(sa, sb, 0, k as nat),
        decreases m + 1 - j,
    {
        prev.push(j);
        j = j + 1;
    }
    let mut curr: Vec<usize> = vec![0usize; m + 1];

    let mut i: usize = 0;
    while i < n
        invariant
            0 <= i <= n,
            n == sa.len(),
            m == sb.len(),
            n < usize::MAX,
            m < usize::MAX,
            a@ == sa,
            b@ == sb,
            prev@.len() == m + 1,
            curr@.len() == m + 1,
            forall|k: int| 0 <= k <= m ==> prev@[k] == edit_distance(sa, sb, i as nat, k as nat),
        decreases n - i,
    {
        curr.set(0, i + 1);
        let mut j: usize = 0;
        while j < m
            invariant
                0 <= i < n,
                0 <= j <= m,
                n == sa.len(),
                m == sb.len(),
                n < usize::MAX,
                m < usize::MAX,
                a@ == sa,
                b@ == sb,
                prev@.len() == m + 1,
                curr@.len() == m + 1,
                forall|k: int|
                    0 <= k <= m ==> prev@[k] == edit_distance(sa, sb, i as nat, k as nat),
                forall|k: int|
                    0 <= k <= j ==> curr@[k] == edit_distance(sa, sb, (i + 1) as nat, k as nat),
            decreases m - j,
        {
            proof {
                lemma_edit_distance_bound(sa, sb, i as nat, (j + 1) as nat);
                lemma_edit_distance_bound(sa, sb, (i + 1) as nat, j as nat);
                lemma_edit_distance_bound(sa, sb, i as nat, j as nat);
            }
            let cost: usize = if a[i] == b[j] {
                0
            } else {
                1
            };
            let deletion = prev[j + 1] + 1;
            let insertion = curr[j] + 1;
            let substitution = prev[j] + cost;
            let mut best = if deletion <= insertion {
                deletion
            } else {
                insertion
            };
            if substitution < best {
                best = substitution;
            }
            curr.set(j + 1, best);
            j = j + 1;
        }
        std::mem::swap(&mut prev, &mut curr);
        i = i + 1;
    }
    prev[m]
}

/// The distance from a string to itself is zero.
pub proof fn distance_to_self_is_zero(a: Seq<char>)
    ensures
        levenshtein(a, a) == 0,
{
    lemma_diagonal_zero(a, a.len());
}

proof fn lemma_diagonal_zero(a: Seq<char>, i: nat)
    ensures
        edit_distance(a, a, i, i) == 0,
    decreases i,
{
    if i > 0 {
        lemma_diagonal_zero(a, (i - 1) as nat);
    }
}

proof fn lemma_symmetric(a: Seq<char>, b: Seq<char>, i: nat, j: nat)
    ensures
        edit_distance(a, b, i, j) == edit_distance(b, a, j, i),
    decreases i + j,
{
    if i > 0 && j > 0 {
        lemma_symmetric(a, b, (i - 1) as nat, j);
        lemma_symmetric(a, b, i, (j - 1) as nat);
        lemma_symmetric(a, b, (i - 1) as nat, (j - 1) as nat);
    }
}

/// The distance does not depend on the order of its arguments.
pub proof fn distance_is_symmetric(a: Seq<char>, b: Seq<char>)
    ensures
        levenshtein(a, b) == levenshtein(b, a),
{
    lemma_symmetric(a, b, a.len(), b.len());
}

proof fn lemma_zero_means_equal_prefixes(a: Seq<char>, b: Seq<char>, i: nat, j: nat)
    requires
        i <= a.len(),
        j <= b.len(),
        edit_distance(a, b, i, j) == 0,
    ensures
        i == j,
        a.subrange(0, i as int) == b.subrange(0, j as int),
    decreases i + j,
{
    if i == 0 || j == 0 {
    } else {
        lemma_zero_means_equal_prefixes(a, b, (i - 1) as nat, (j - 1) as nat);
        assert(a.subrange(0, i as int) =~= a.subrange(0, i - 1).push(a[i - 1]));
        assert(b.subrange(0, j as int) =~= b.subrange(0, j - 1).push(b[j - 1]));
    }
}

/// The distance is zero exactly when the two strings are equal, and the
/// distance to the empty string is the length.
pub proof fn distance_zero_iff_equal(a: Seq<char>, b: Seq<char>)
    ensures
        (levenshtein(a, b) == 0) == (a == b),
        levenshtein(a, Seq::empty()) == a.len(),
        levenshtein(Seq::empty(), b) == b.len(),
{
    if levenshtein(a, b) == 0 {
        lemma_zero_means_equal_prefixes(a, b, a.len(), b.len());
        assert(a =~= a.subrange(0, a.len() as int));
        assert(b =~= b.subrange(0, b.len() as int));
    }
    if a == b {
        distance_to_self_is_zero(a);
    }
}

/// A short stand-in for the dictionary of known corporate domains.
pub const SAMPLE_BRANDS: [&'static str; 6] = [
    "microsoft.com",
    "paypal.com",
    "google.com",
    "apple.com",
    "amazon.com",
    "github.com",
];

/// Default edit-distance threshold.
pub const DEFAULT_MAX_DISTANCE: usize = 2;

/// Some brand equals `domain` up to ASCII case.
pub open spec fn exact_brand(domain: Seq<char>, brands: Seq<&str>) -> bool {
    exists|k: int|
        0 <= k < brands.len() && #[trigger] eq_ignore_ascii_case(
            encode_utf8(domain),
            brands[k].spec_bytes(),
        )
}

/// Among the first `k` brands, the closest one at a distance in
/// `1..=max_distance`, with its distance; the earliest wins a tie.
pub open spec fn closest_brand(domain: Seq<char>, brands: Seq<&str>, k: int, max_distance: nat) -> Option<
    (int, nat),
>
    decreases k,
{
    if k <= 0 {
        None
    } else {
        let prev = closest_brand(domain, brands, k - 1, max_distance);
        let d = levenshtein(domain, brands[k - 1]@);
        if 0 < d <= max_distance {
            match prev {
                Some((i, bd)) => if bd <= d {
                    prev
                } else {
                    Some((k - 1, d))
                },
                None => Some((k - 1, d)),
            }
        } else {
            prev
        }
    }
}

proof fn lemma_closest_brand(domain: Seq<char>, brands: Seq<&str>, k: int, max_distance: nat)
    requires
        0 <= k <= brands.len(),
    ensures
        closest_brand(domain, brands, k, max_distance) matches Some((i, d)) ==> {
            &&& 0 <= i < k
            &&& d == levenshtein(domain, brands[i]@)
            &&& 0 < d <= max_distance
            &&& forall|j: int|
                0 <= j < k && 0 < #[trigger] levenshtein(domain, brands[j]@) <= max_distance
                    ==> d <= levenshtein(domain, brands[j]@)
        },
        closest_brand(domain, brands, k, max_distance) is None ==> forall|j: int|
            0 <= j < k ==> !(0 < #[trigger] levenshtein(domain, brands[j]@) <= max_distance),
    decreases k,
{
    if k > 0 {
        lemma_closest_brand(domain, brands, k - 1, max_distance);
    }
}

/// What a typosquat check reports: nothing when `domain` is a brand up to
/// ASCII case, else the closest brand within `max_distance`, if any.
pub open spec fn typosquat_report(
    domain: Seq<char>,
    brands: Seq<&str>,
    max_distance: nat,
    r: Option<RiskSignal>,
) -> bool {
    if exact_brand(domain, brands) {
        r is None
    } else {
        match closest_brand(domain, brands, brands.len() as int, max_distance) {
            None => r is None,
            Some((k, d)) => r matches Some(RiskSignal::Typosquat { domain: x, looks_like: y, distance: z })
                && x@ == domain && y@ == brands[k]@ && z == d,
        }
    }
}

/// A domain whose UTF-8 bytes equal some brand's bytes up to ASCII case is
/// never reported as a typosquat, whatever the distances to other brands.
pub proof fn brand_up_to_ascii_case_is_not_flagged(
    domain: Seq<char>,
    brands: Seq<&str>,
    max_distance: nat,
    r: Option<RiskSignal>,
    k: int,
)
    requires
        typosquat_report(domain, brands, max_distance, r),
        0 <= k < brands.len(),
        eq_ignore_ascii_case(encode_utf8(domain), brands[k].spec_bytes()),
    ensures
        r is None,
{
    assert(exact_brand(domain, brands));
}

/// Check `domain` against `brands`: the closest brand within
/// `max_distance` as a [`RiskSignal::Typosquat`], or `None` when the domain
/// is a brand (ignoring ASCII case) or far from every brand. Ties go to the
/// earlier brand.
pub fn check_typosquat(domain: &str, brands: &[&str], max_distance: usize) -> (r: Option<RiskSignal>)
    requires
        domain@.len() < usize::MAX,
        forall|k: int| 0 <= k < brands@.len() ==> (#[trigger] brands@[k])@.len() < usize::MAX,
    ensures
        typosquat_report(domain@, brands@, max_distance as nat, r),
        r matches Some(RiskSignal::Typosquat { distance: z, .. }) ==> {
            &&& 0 < z <= max_distance
            &&& forall|j: int|
                0 <= j < brands@.len() && 0 < #[trigger] levenshtein(domain@, brands@[j]@)
                    <= max_distance ==> z <= levenshtein(domain@, brands@[j]@)
        },
{
    proof {
        lemma_closest_brand(domain@, brands@, brands@.len() as int, max_distance as nat);
    }
    let mut best: Option<(usize, usize)> = None;
    let mut i: usize = 0;
    while i < brands.len()
        invariant
            0 <= i <= brands@.len(),
            domain@.len() < usize::MAX,
            forall|k: int| 0 <= k < brands@.len() ==> (#[trigger] brands@[k])@.len() < usize::MAX,
            forall|k: int|
                0 <= k < i ==> !#[trigger] eq_ignore_ascii_case(
                    encode_utf8(domain@),
                    brands@[k].spec_bytes(),
                ),
            match closest_brand(domain@, brands@, i as int, max_distance as nat) {
                None => best is None,
                Some((k, d)) => best matches Some((bk, bd)) && bk == k && bd == d,
            },
        decreases brands@.len() - i,
    {
        let brand: &str = brands[i];
        if bytes_eq_ignore_ascii_case(domain.as_bytes(), brand.as_bytes()) {
            return None;
        }
        let d = distance(domain, brand);
        if d > 0 && d <= max_distance {
            match best {
                Some((_, bd)) => {
                    if bd > d {
                        best = Some((i, d));
                    }
                },
                None => {
                    best = Some((i, d));
                },
            }
        }
        i = i + 1;
    }
    assert(!exact_brand(domain@, brands@));
    match best {
        Some((k, d)) => Some(
            RiskSignal::Typosquat {
                domain: domain.to_owned(),
                looks_like: brands[k].to_owned(),
                distance: d,
            },
        ),
        None => None,
    }
}

} // verus!
