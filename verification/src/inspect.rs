//! Shared logic of the SNI debugging tools: hex decoding of captured
//! ClientHellos, and the outcome histogram of a replay run.

use vstd::prelude::*;
use vstd::string::StringSliceAdditionalSpecFns;
use vstd::utf8::*;

use crate::sni::extract::{extract_sni, outcome_label, spec_extract_sni, Outcome, SniOutcome};
use crate::text::{
    ascii_chars, ascii_to_string, chars_of, decimal, hex_lower, is_ascii_bytes,
    lemma_decimal_ascii, lemma_hex_lower_ascii, push_decimal, push_hex_lower, str_equal,
    str_is_ascii_label,
};

verus! {

broadcast use vstd::utf8::encode_utf8_decode_utf8;

/// `[0-9A-Fa-f]`
pub open spec fn is_hex_char(c: char) -> bool {
    ('0' <= c <= '9') || ('a' <= c <= 'f') || ('A' <= c <= 'F')
}

/// The hex digits of `cs`, in order; everything else is dropped.
pub open spec fn hex_chars(cs: Seq<char>) -> Seq<char>
    decreases cs.len(),
{
    if cs.len() == 0 {
        cs
    } else {
        let rest = hex_chars(cs.drop_last());
        if is_hex_char(cs.last()) {
            rest.push(cs.last())
        } else {
            rest
        }
    }
}

pub open spec fn is_hex_byte(b: u8) -> bool {
    (0x30 <= b <= 0x39) || (0x61 <= b <= 0x66) || (0x41 <= b <= 0x46)
}

/// Value of a hex digit byte.
pub open spec fn nibble_value(b: u8) -> int {
    if 0x30 <= b <= 0x39 {
        b - 0x30
    } else if 0x61 <= b <= 0x66 {
        b - 0x61 + 10
    } else {
        b - 0x41 + 10
    }
}

/// Pairs of hex digits as bytes, high nibble first.
pub open spec fn decode_pairs(ds: Seq<char>) -> Seq<u8> {
    Seq::new(
        ds.len() / 2,
        |i: int| (nibble_value(ds[2 * i] as u8) * 16 + nibble_value(ds[2 * i + 1] as u8)) as u8,
    )
}

/// The error text for an odd count of hex digits.
pub open spec fn odd_count_text(count: nat) -> Seq<char> {
    "odd number of hex digits ("@ + ascii_chars(decimal(count)) + "); pairs required"@
}

/// The error text for a byte that is not a hex digit: the byte as `0x`
/// and two lowercase hex digits.
pub open spec fn invalid_byte_text(byte: u8) -> Seq<char> {
    "invalid hex byte: 0x"@ + ascii_chars(hex_lower(seq![byte]))
}

proof fn lemma_ascii_chars_concat(a: Seq<u8>, b: Seq<u8>)
    ensures
        ascii_chars(a + b) == ascii_chars(a) + ascii_chars(b),
{
    assert(ascii_chars(a + b) =~= ascii_chars(a) + ascii_chars(b));
}

fn odd_digit_count_message(count: usize) -> (s: String)
    ensures
        s@ == odd_count_text(count as nat),
{
    let head: [u8; 26] = [
        0x6f, 0x64, 0x64, 0x20, 0x6e, 0x75, 0x6d, 0x62, 0x65, 0x72, 0x20, 0x6f, 0x66, 0x20, 0x68,
        0x65, 0x78, 0x20, 0x64, 0x69, 0x67, 0x69, 0x74, 0x73, 0x20, 0x28,
    ];
    let tail: [u8; 17] = [
        0x29, 0x3b, 0x20, 0x70, 0x61, 0x69, 0x72, 0x73, 0x20, 0x72, 0x65, 0x71, 0x75, 0x69, 0x72,
        0x65, 0x64,
    ];
    proof {
        reveal_strlit("odd number of hex digits (");
        reveal_strlit("); pairs required");
    }
    let mut out: Vec<u8> = Vec::new();
    let mut i: usize = 0;
    while i < 26
        invariant
            0 <= i <= 26,
            out@ == head@.subrange(0, i as int),
        decreases 26 - i,
    {
        out.push(head[i]);
        i = i + 1;
        assert(out@ =~= head@.subrange(0, i as int));
    }
    assert(head@.subrange(0, 26) =~= head@);
    let ghost h = out@;
    proof {
        lemma_decimal_ascii(count as nat);
    }
    push_decimal(&mut out, count as u64);
    let ghost hd = out@;
    let mut j: usize = 0;
    while j < 17
        invariant
            0 <= j <= 17,
            out@ == hd + tail@.subrange(0, j as int),
        decreases 17 - j,
    {
        out.push(tail[j]);
        j = j + 1;
        assert(out@ =~= hd + tail@.subrange(0, j as int));
    }
    proof {
        let t = tail@;
        assert(tail@.subrange(0, 17) =~= tail@);
        assert(ascii_chars(h) =~= "odd number of hex digits ("@);
        assert(ascii_chars(t) =~= "); pairs required"@);
        lemma_ascii_chars_concat(h, decimal(count as nat));
        lemma_ascii_chars_concat(hd, t);
        assert(is_ascii_bytes(out@));
    }
    ascii_to_string(out.as_slice())
}

fn invalid_hex_byte_message(byte: u8) -> (s: String)
    ensures
        s@ == invalid_byte_text(byte),
{
    let head: [u8; 20] = [
        0x69, 0x6e, 0x76, 0x61, 0x6c, 0x69, 0x64, 0x20, 0x68, 0x65, 0x78, 0x20, 0x62, 0x79, 0x74,
        0x65, 0x3a, 0x20, 0x30, 0x78,
    ];
    proof {
        reveal_strlit("invalid hex byte: 0x");
    }
    let mut out: Vec<u8> = Vec::new();
    let mut i: usize = 0;
    while i < 20
        invariant
            0 <= i <= 20,
            out@ == head@.subrange(0, i as int),
        decreases 20 - i,
    {
        out.push(head[i]);
        i = i + 1;
        assert(out@ =~= head@.subrange(0, i as int));
    }
    assert(head@.subrange(0, 20) =~= head@);
    let ghost h = out@;
    let one: [u8; 1] = [byte];
    assert(one@ =~= seq![byte]);
    push_hex_lower(&mut out, one.as_slice());
    proof {
        lemma_hex_lower_ascii(seq![byte]);
        assert(ascii_chars(h) =~= "invalid hex byte: 0x"@);
        lemma_ascii_chars_concat(h, hex_lower(seq![byte]));
        assert(is_ascii_bytes(out@));
    }
    ascii_to_string(out.as_slice())
}

fn hex_nibble(byte: u8) -> (r: Result<u8, String>)
    ensures
        match r {
            Ok(v) => is_hex_byte(byte) && v == nibble_value(byte),
            Err(e) => !is_hex_byte(byte) && e@ == invalid_byte_text(byte),
        },
{
    if 0x30 <= byte && byte <= 0x39 {
        Ok(byte - 0x30)
    } else if 0x61 <= byte && byte <= 0x66 {
        Ok(byte - 0x61 + 10)
    } else if 0x41 <= byte && byte <= 0x46 {
        Ok(byte - 0x41 + 10)
    } else {
        Err(invalid_hex_byte_message(byte))
    }
}

fn is_hex_digit_char(c: char) -> (r: bool)
    ensures
        r == is_hex_char(c),
{
    ('0' <= c && c <= '9') || ('a' <= c && c <= 'f') || ('A' <= c && c <= 'F')
}

/// Decode a string of hex characters into bytes. Every character outside
/// `[0-9A-Fa-f]` is dropped before nibbles are paired, so whitespace, commas
/// and colons are tolerated; a `0x` prefix is not recognised (its `0` stays).
/// An odd count of hex digits is an error.
pub fn decode_hex(input: &str) -> (r: Result<Vec<u8>, String>)
    ensures
        match r {
            Ok(v) => hex_chars(input@).len() % 2 == 0 && v@ == decode_pairs(hex_chars(input@)),
            Err(e) => hex_chars(input@).len() % 2 == 1 && e@ == odd_count_text(
                hex_chars(input@).len(),
            ),
        },
{
    let cs = chars_of(input);
    let mut digits: Vec<u8> = Vec::new();
    let mut i: usize = 0;
    while i < cs.len()
        invariant
            0 <= i <= cs@.len(),
            cs@ == input@,
            digits@.len() == hex_chars(cs@.subrange(0, i as int)).len(),
            forall|k: int|
                0 <= k < digits@.len() ==> digits@[k] == hex_chars(cs@.subrange(0, i as int))[k]
                    as u8 && is_hex_byte(#[trigger] digits@[k]),
        decreases cs@.len() - i,
    {
        let c = cs[i];
        let ghost pre = cs@.subrange(0, i as int);
        assert(cs@.subrange(0, i + 1).drop_last() =~= pre);
        if is_hex_digit_char(c) {
            digits.push(c as u8);
        }
        i = i + 1;
    }
    assert(cs@.subrange(0, cs@.len() as int) =~= cs@);
    let ghost ds = hex_chars(input@);
    if digits.len() % 2 != 0 {
        return Err(odd_digit_count_message(digits.len()));
    }
    let mut out: Vec<u8> = Vec::new();
    let mut k: usize = 0;
    while k < digits.len()
        invariant
            0 <= k <= digits@.len(),
            k % 2 == 0,
            digits@.len() % 2 == 0,
            digits@.len() == ds.len(),
            forall|t: int| 0 <= t < digits@.len() ==> digits@[t] == ds[t] as u8 && is_hex_byte(#[trigger] digits@[t]),
            out@ == decode_pairs(ds).subrange(0, k as int / 2),
        decreases digits@.len() - k,
    {
        let hi = match hex_nibble(digits[k]) {
            Ok(v) => v,
            Err(e) => return Err(e),
        };
        let lo = match hex_nibble(digits[k + 1]) {
            Ok(v) => v,
            Err(e) => return Err(e),
        };
        out.push(hi * 16 + lo);
        k = k + 2;
        assert(out@ =~= decode_pairs(ds).subrange(0, k as int / 2));
    }
    assert(out@ =~= decode_pairs(ds));
    Ok(out)
}

/// Strict lexicographic order on byte strings (the order of `str` and
/// `String`).
pub open spec fn bytes_lt(a: Seq<u8>, b: Seq<u8>) -> bool
    decreases a.len(),
{
    if a.len() == 0 {
        b.len() > 0
    } else if b.len() == 0 {
        false
    } else if a[0] != b[0] {
        a[0] < b[0]
    } else {
        bytes_lt(a.drop_first(), b.drop_first())
    }
}

/// The order of host keys: by their UTF-8 bytes.
pub open spec fn key_lt(a: Seq<char>, b: Seq<char>) -> bool {
    bytes_lt(encode_utf8(a), encode_utf8(b))
}

proof fn lemma_bytes_lt_irreflexive(a: Seq<u8>)
    ensures
        !bytes_lt(a, a),
    decreases a.len(),
{
    if a.len() > 0 {
        lemma_bytes_lt_irreflexive(a.drop_first());
    }
}

proof fn lemma_bytes_lt_total(a: Seq<u8>, b: Seq<u8>)
    ensures
        a != b ==> bytes_lt(a, b) || bytes_lt(b, a),
        bytes_lt(a, b) ==> !bytes_lt(b, a),
    decreases a.len(),
{
    if a.len() > 0 && b.len() > 0 && a[0] == b[0] {
        lemma_bytes_lt_total(a.drop_first(), b.drop_first());
        if a != b {
            assert(a.drop_first() != b.drop_first()) by {
                if a.drop_first() == b.drop_first() {
                    assert(a =~= seq![a[0]] + a.drop_first());
                    assert(b =~= seq![b[0]] + b.drop_first());
                }
            }
        }
    } else if a.len() == 0 && b.len() == 0 {
        assert(a =~= b);
    }
}

proof fn lemma_bytes_lt_transitive(a: Seq<u8>, b: Seq<u8>, c: Seq<u8>)
    requires
        bytes_lt(a, b),
        bytes_lt(b, c),
    ensures
        bytes_lt(a, c),
    decreases a.len(),
{
    if a.len() > 0 && b.len() > 0 && c.len() > 0 && a[0] == b[0] && b[0] == c[0] {
        lemma_bytes_lt_transitive(a.drop_first(), b.drop_first(), c.drop_first());
    }
}

/// Strict key order also separates distinct host strings.
proof fn lemma_key_lt_total(a: Seq<char>, b: Seq<char>)
    ensures
        a != b ==> key_lt(a, b) || key_lt(b, a),
        key_lt(a, b) ==> !key_lt(b, a),
        !key_lt(a, a),
{
    lemma_bytes_lt_total(encode_utf8(a), encode_utf8(b));
    lemma_bytes_lt_irreflexive(encode_utf8(a));
    if a != b && encode_utf8(a) == encode_utf8(b) {
        assert(decode_utf8(encode_utf8(a)) == a);
        assert(decode_utf8(encode_utf8(b)) == b);
    }
}

/// Host entries: keys strictly ascending.
pub open spec fn keys_sorted(s: Seq<(Seq<char>, u64)>) -> bool {
    forall|i: int, j: int| 0 <= i < j < s.len() ==> key_lt(#[trigger] s[i].0, #[trigger] s[j].0)
}

/// The entries after recording one more occurrence of `h`: its count goes
/// up by one, or it is inserted in key order with a count of one.
pub open spec fn record_in(s: Seq<(Seq<char>, u64)>, h: Seq<char>) -> Seq<(Seq<char>, u64)>
    decreases s.len(),
{
    if s.len() == 0 {
        seq![(h, 1u64)]
    } else if s[0].0 == h {
        s.update(0, (h, (s[0].1 + 1) as u64))
    } else if key_lt(h, s[0].0) {
        seq![(h, 1u64)] + s
    } else {
        seq![s[0]] + record_in(s.drop_first(), h)
    }
}

/// The count recorded for `h`, zero if it has none.
pub open spec fn count_in(s: Seq<(Seq<char>, u64)>, h: Seq<char>) -> nat
    decreases s.len(),
{
    if s.len() == 0 {
        0
    } else if s[0].0 == h {
        s[0].1 as nat
    } else {
        count_in(s.drop_first(), h)
    }
}

proof fn lemma_record_in(s: Seq<(Seq<char>, u64)>, h: Seq<char>)
    requires
        keys_sorted(s),
        count_in(s, h) < u64::MAX,
    ensures
        keys_sorted(record_in(s, h)),
        count_in(record_in(s, h), h) == count_in(s, h) + 1,
        forall|g: Seq<char>| g != h ==> #[trigger] count_in(record_in(s, h), g) == count_in(s, g),
        forall|i: int|
            0 <= i < record_in(s, h).len() ==> (#[trigger] record_in(s, h)[i]).0 == h || exists|
                j: int,
            | 0 <= j < s.len() && s[j].0 == record_in(s, h)[i].0,
    decreases s.len(),
{
    let r = record_in(s, h);
    if s.len() == 0 {
        assert(r =~= seq![(h, 1u64)]);
        assert(r[0].0 == h);
        assert(r.drop_first().len() == 0);
        assert forall|g: Seq<char>| g != h implies #[trigger] count_in(r, g) == count_in(s, g) by {
            assert(count_in(r, g) == count_in(r.drop_first(), g));
        }
    } else if s[0].0 == h {
        assert forall|i: int, j: int| 0 <= i < j < r.len() implies key_lt(
            #[trigger] r[i].0,
            #[trigger] r[j].0,
        ) by {
            assert(s[i].0 == r[i].0 && s[j].0 == r[j].0);
        }
        assert forall|g: Seq<char>| g != h implies #[trigger] count_in(r, g) == count_in(s, g) by {
            assert(r.drop_first() =~= s.drop_first());
        }
        assert(r.drop_first() =~= s.drop_first());
        assert forall|i: int| 0 <= i < r.len() implies (#[trigger] r[i]).0 == h || exists|j: int|
            0 <= j < s.len() && s[j].0 == r[i].0 by {
            assert(s[i].0 == r[i].0);
        }
    } else if key_lt(h, s[0].0) {
        assert(r.drop_first() =~= s);
        assert forall|i: int, j: int| 0 <= i < j < r.len() implies key_lt(
            #[trigger] r[i].0,
            #[trigger] r[j].0,
        ) by {
            if i == 0 {
                if j > 1 {
                    assert(key_lt(s[0].0, s[j - 1].0));
                    lemma_bytes_lt_transitive(
                        encode_utf8(h),
                        encode_utf8(s[0].0),
                        encode_utf8(s[j - 1].0),
                    );
                }
            } else {
                assert(r[i] == s[i - 1] && r[j] == s[j - 1]);
            }
        }
        lemma_key_lt_total(h, s[0].0);
        lemma_count_absent(s, h);
        assert forall|g: Seq<char>| g != h implies #[trigger] count_in(r, g) == count_in(s, g) by {
            assert(r[0].0 == h);
        }
        assert forall|i: int| 0 <= i < r.len() implies (#[trigger] r[i]).0 == h || exists|j: int|
            0 <= j < s.len() && s[j].0 == r[i].0 by {
            if i > 0 {
                assert(s[i - 1].0 == r[i].0);
            }
        }
    } else {
        let t = s.drop_first();
        assert forall|i: int, j: int| 0 <= i < j < t.len() implies key_lt(
            #[trigger] t[i].0,
            #[trigger] t[j].0,
        ) by {
            assert(t[i] == s[i + 1] && t[j] == s[j + 1]);
        }
        lemma_record_in(t, h);
        let rt = record_in(t, h);
        assert(r =~= seq![s[0]] + rt);
        lemma_key_lt_total(h, s[0].0);
        assert forall|i: int, j: int| 0 <= i < j < r.len() implies key_lt(
            #[trigger] r[i].0,
            #[trigger] r[j].0,
        ) by {
            if i == 0 {
                assert(r[j] == rt[j - 1]);
                if rt[j - 1].0 == h {
                } else {
                    let k = choose|k: int| 0 <= k < t.len() && t[k].0 == rt[j - 1].0;
                    assert(t[k] == s[k + 1]);
                    assert(key_lt(s[0].0, s[k + 1].0));
                }
            } else {
                assert(r[i] == rt[i - 1] && r[j] == rt[j - 1]);
            }
        }
        assert(r.drop_first() =~= rt);
        assert(r[0] == s[0]);
        assert forall|g: Seq<char>| g != h implies #[trigger] count_in(r, g) == count_in(s, g) by {
            if s[0].0 != g {
                assert(count_in(r, g) == count_in(rt, g));
                assert(count_in(s, g) == count_in(t, g));
            }
        }
        assert(count_in(r, h) == count_in(rt, h));
        assert forall|i: int| 0 <= i < r.len() implies (#[trigger] r[i]).0 == h || exists|j: int|
            0 <= j < s.len() && s[j].0 == r[i].0 by {
            if i > 0 {
                assert(r[i] == rt[i - 1]);
                if rt[i - 1].0 != h {
                    let k = choose|k: int| 0 <= k < t.len() && t[k].0 == rt[i - 1].0;
                    assert(t[k] == s[k + 1]);
                }
            } else {
                assert(s[0].0 == r[0].0);
            }
        }
    }
}

/// A key below every key of a sorted list is absent from it.
proof fn lemma_count_absent(s: Seq<(Seq<char>, u64)>, h: Seq<char>)
    requires
        keys_sorted(s),
        s.len() > 0,
        key_lt(h, s[0].0),
    ensures
        count_in(s, h) == 0,
    decreases s.len(),
{
    lemma_key_lt_total(h, s[0].0);
    assert(s[0].0 != h);
    if s.len() == 1 {
        assert(s.drop_first().len() == 0);
        assert(count_in(s, h) == count_in(s.drop_first(), h));
    }
    if s.len() > 1 {
        let t = s.drop_first();
        assert forall|i: int, j: int| 0 <= i < j < t.len() implies key_lt(
            #[trigger] t[i].0,
            #[trigger] t[j].0,
        ) by {
            assert(t[i] == s[i + 1] && t[j] == s[j + 1]);
        }
        assert(key_lt(s[0].0, s[1].0));
        lemma_bytes_lt_transitive(encode_utf8(h), encode_utf8(s[0].0), encode_utf8(s[1].0));
        lemma_count_absent(t, h);
        assert(count_in(s, h) == count_in(t, h));
    }
}

/// Running tally of `extract_sni` outcomes across a replay run.
///
/// The four outcome buckets key off the stable outcome labels;
/// `decode_errors` counts input lines that were not valid hex (those never
/// reached the parser). Cleartext hosts are counted per host, in host
/// order.
#[derive(Debug, Clone, PartialEq, Eq)]
pub struct OutcomeHistogram {
    pub cleartext: u64,
    pub encrypted: u64,
    pub not_found: u64,
    pub malformed: u64,
    pub decode_errors: u64,
    /// Per-host counts, keys strictly ascending.
    host_counts: Vec<(String, u64)>,
}

/// The contents of a list of host counts.
pub open spec fn entries_view(v: Seq<(String, u64)>) -> Seq<(Seq<char>, u64)> {
    Seq::new(v.len(), |i: int| (v[i].0@, v[i].1))
}

/// The mathematical model of [`OutcomeHistogram`].
pub struct HistogramView {
    pub cleartext: u64,
    pub encrypted: u64,
    pub not_found: u64,
    pub malformed: u64,
    pub decode_errors: u64,
    /// Per-host counts, keys strictly ascending.
    pub hosts: Seq<(Seq<char>, u64)>,
}

impl HistogramView {
    pub open spec fn total_parsed(self) -> int {
        self.cleartext + self.encrypted + self.not_found + self.malformed
    }

    pub open spec fn host_count(self, h: Seq<char>) -> nat {
        count_in(self.hosts, h)
    }
}

impl View for OutcomeHistogram {
    type V = HistogramView;

    closed spec fn view(&self) -> HistogramView {
        HistogramView {
            cleartext: self.cleartext,
            encrypted: self.encrypted,
            not_found: self.not_found,
            malformed: self.malformed,
            decode_errors: self.decode_errors,
            hosts: entries_view(self.host_counts@),
        }
    }
}

/// Insert `e` into a list ranked by count, descending: after every entry
/// whose count is at least `e`'s, so that earlier entries win ties.
pub open spec fn rank_insert(r: Seq<(Seq<char>, u64)>, e: (Seq<char>, u64)) -> Seq<(Seq<char>, u64)>
    decreases r.len(),
{
    if r.len() == 0 {
        seq![e]
    } else if r[0].1 < e.1 {
        seq![e] + r
    } else {
        seq![r[0]] + rank_insert(r.drop_first(), e)
    }
}

/// A stable sort by count, descending.
pub open spec fn rank_sort(s: Seq<(Seq<char>, u64)>) -> Seq<(Seq<char>, u64)>
    decreases s.len(),
{
    if s.len() == 0 {
        s
    } else {
        rank_insert(rank_sort(s.drop_last()), s.last())
    }
}

/// The first `n` entries, or all of them when there are fewer.
pub open spec fn first_n<T>(s: Seq<T>, n: int) -> Seq<T> {
    if n < s.len() {
        s.subrange(0, n)
    } else {
        s
    }
}

/// Ranked: count descending, then key ascending.
pub open spec fn ranked(r: Seq<(Seq<char>, u64)>) -> bool {
    forall|i: int, j: int|
        0 <= i < j < r.len() ==> #[trigger] r[i].1 > #[trigger] r[j].1 || (r[i].1 == r[j].1
            && key_lt(r[i].0, r[j].0))
}

/// Byte-wise lexicographic comparison.
fn bytes_less(a: &[u8], b: &[u8]) -> (r: bool)
    ensures
        r == bytes_lt(a@, b@),
{
    let mut i: usize = 0;
    assert(a@.subrange(0, a@.len() as int) =~= a@);
    assert(b@.subrange(0, b@.len() as int) =~= b@);
    while i < a.len() && i < b.len()
        invariant
            0 <= i <= a@.len(),
            i <= b@.len(),
            bytes_lt(a@, b@) == bytes_lt(a@.subrange(i as int, a@.len() as int), b@.subrange(i as int, b@.len() as int)),
        decreases a@.len() - i,
    {
        let ghost sa = a@.subrange(i as int, a@.len() as int);
        let ghost sb = b@.subrange(i as int, b@.len() as int);
        assert(sa.drop_first() =~= a@.subrange(i + 1, a@.len() as int));
        assert(sb.drop_first() =~= b@.subrange(i + 1, b@.len() as int));
        assert(sa[0] == a@[i as int] && sb[0] == b@[i as int]);
        if a[i] != b[i] {
            return a[i] < b[i];
        }
        i = i + 1;
    }
    i < b.len()
}

fn key_less(a: &str, b: &str) -> (r: bool)
    ensures
        r == key_lt(a@, b@),
{
    bytes_less(a.as_bytes(), b.as_bytes())
}

proof fn lemma_record_prefix(s: Seq<(Seq<char>, u64)>, h: Seq<char>, i: int)
    requires
        0 <= i <= s.len(),
        forall|k: int| 0 <= k < i ==> (#[trigger] s[k]).0 != h && !key_lt(h, s[k].0),
    ensures
        record_in(s, h) == s.subrange(0, i) + record_in(s.subrange(i, s.len() as int), h),
    decreases i,
{
    if i > 0 {
        let t = s.drop_first();
        assert forall|k: int| 0 <= k < i - 1 implies (#[trigger] t[k]).0 != h && !key_lt(h, t[k].0) by {
            assert(t[k] == s[k + 1]);
        }
        lemma_record_prefix(t, h, i - 1);
        assert(t.subrange(i - 1, t.len() as int) =~= s.subrange(i, s.len() as int));
        assert(s.subrange(0, i) =~= seq![s[0]] + t.subrange(0, i - 1));
        assert(s[0].0 != h && !key_lt(h, s[0].0));
    } else {
        assert(s.subrange(0, 0) + s.subrange(0, s.len() as int) =~= s);
    }
}

proof fn lemma_count_prefix(s: Seq<(Seq<char>, u64)>, h: Seq<char>, i: int)
    requires
        0 <= i <= s.len(),
        forall|k: int| 0 <= k < i ==> (#[trigger] s[k]).0 != h,
    ensures
        count_in(s, h) == count_in(s.subrange(i, s.len() as int), h),
    decreases i,
{
    if i > 0 {
        let t = s.drop_first();
        assert forall|k: int| 0 <= k < i - 1 implies (#[trigger] t[k]).0 != h by {
            assert(t[k] == s[k + 1]);
        }
        lemma_count_prefix(t, h, i - 1);
        assert(t.subrange(i - 1, t.len() as int) =~= s.subrange(i, s.len() as int));
        assert(s[0].0 != h);
    } else {
        assert(s.subrange(0, s.len() as int) =~= s);
    }
}

proof fn lemma_rank_prefix(r: Seq<(Seq<char>, u64)>, e: (Seq<char>, u64), i: int)
    requires
        0 <= i <= r.len(),
        forall|k: int| 0 <= k < i ==> (#[trigger] r[k]).1 >= e.1,
    ensures
        rank_insert(r, e) == r.subrange(0, i) + rank_insert(r.subrange(i, r.len() as int), e),
    decreases i,
{
    if i > 0 {
        let t = r.drop_first();
        assert forall|k: int| 0 <= k < i - 1 implies (#[trigger] t[k]).1 >= e.1 by {
            assert(t[k] == r[k + 1]);
        }
        lemma_rank_prefix(t, e, i - 1);
        assert(t.subrange(i - 1, t.len() as int) =~= r.subrange(i, r.len() as int));
        assert(r.subrange(0, i) =~= seq![r[0]] + t.subrange(0, i - 1));
        assert(r[0].1 >= e.1);
    } else {
        assert(r.subrange(0, 0) + r.subrange(0, r.len() as int) =~= r);
    }
}

/// Where `e` lands in a ranked list: after every entry with a count of at
/// least its own.
proof fn lemma_rank_insert_split(r: Seq<(Seq<char>, u64)>, e: (Seq<char>, u64))
    ensures
        exists|p: int|
            0 <= p <= r.len() && rank_insert(r, e) == r.subrange(0, p) + seq![e] + r.subrange(
                p,
                r.len() as int,
            ) && (forall|k: int| 0 <= k < p ==> (#[trigger] r[k]).1 >= e.1) && (p < r.len()
                ==> r[p].1 < e.1),
    decreases r.len(),
{
    if r.len() == 0 {
        assert(rank_insert(r, e) =~= r.subrange(0, 0) + seq![e] + r.subrange(0, 0));
    } else if r[0].1 < e.1 {
        assert(rank_insert(r, e) =~= r.subrange(0, 0) + seq![e] + r.subrange(0, r.len() as int));
    } else {
        let t = r.drop_first();
        lemma_rank_insert_split(t, e);
        let p = choose|p: int|
            0 <= p <= t.len() && rank_insert(t, e) == t.subrange(0, p) + seq![e] + t.subrange(
                p,
                t.len() as int,
            ) && (forall|k: int| 0 <= k < p ==> (#[trigger] t[k]).1 >= e.1) && (p < t.len()
                ==> t[p].1 < e.1);
        assert(rank_insert(r, e) =~= r.subrange(0, p + 1) + seq![e] + r.subrange(
            p + 1,
            r.len() as int,
        ));
        assert forall|k: int| 0 <= k < p + 1 implies (#[trigger] r[k]).1 >= e.1 by {
            if k > 0 {
                assert(r[k] == t[k - 1]);
            }
        }
        if p + 1 < r.len() {
            assert(r[p + 1] == t[p]);
        }
    }
}

proof fn lemma_rank_sort(s: Seq<(Seq<char>, u64)>)
    requires
        keys_sorted(s),
    ensures
        ranked(rank_sort(s)),
        rank_sort(s).len() == s.len(),
        forall|i: int|
            0 <= i < rank_sort(s).len() ==> exists|j: int|
                0 <= j < s.len() && s[j] == #[trigger] rank_sort(s)[i],
    decreases s.len(),
{
    if s.len() > 0 {
        let d = s.drop_last();
        let e = s.last();
        assert forall|i: int, j: int| 0 <= i < j < d.len() implies key_lt(
            #[trigger] d[i].0,
            #[trigger] d[j].0,
        ) by {
            assert(d[i] == s[i] && d[j] == s[j]);
        }
        lemma_rank_sort(d);
        let r = rank_sort(d);
        lemma_rank_insert_split(r, e);
        let p = choose|p: int|
            0 <= p <= r.len() && rank_insert(r, e) == r.subrange(0, p) + seq![e] + r.subrange(
                p,
                r.len() as int,
            ) && (forall|k: int| 0 <= k < p ==> (#[trigger] r[k]).1 >= e.1) && (p < r.len()
                ==> r[p].1 < e.1);
        let out = rank_insert(r, e);
        assert(out.len() == r.len() + 1);
        assert forall|k: int| 0 <= k < r.len() implies key_lt(#[trigger] r[k].0, e.0) by {
            let j = choose|j: int| 0 <= j < d.len() && d[j] == r[k];
            assert(d[j] == s[j]);
        }
        assert forall|i: int, j: int| 0 <= i < j < out.len() implies #[trigger] out[i].1
            > #[trigger] out[j].1 || (out[i].1 == out[j].1 && key_lt(out[i].0, out[j].0)) by {
            if j < p {
                assert(out[i] == r[i] && out[j] == r[j]);
            } else if j == p {
                assert(out[j] == e);
                assert(out[i] == r[i]);
            } else if i < p {
                assert(out[i] == r[i] && out[j] == r[j - 1]);
            } else if i == p {
                assert(out[i] == e && out[j] == r[j - 1]);
                if p < r.len() {
                    if j - 1 > p {
                        assert(r[p].1 > r[j - 1].1 || r[p].1 == r[j - 1].1);
                    }
                }
            } else {
                assert(out[i] == r[i - 1] && out[j] == r[j - 1]);
            }
        }
        assert forall|i: int| 0 <= i < out.len() implies exists|j: int|
            0 <= j < s.len() && s[j] == #[trigger] out[i] by {
            if i < p {
                assert(out[i] == r[i]);
                let j = choose|j: int| 0 <= j < d.len() && d[j] == r[i];
                assert(s[j] == d[j]);
            } else if i == p {
                assert(s[s.len() - 1] == e);
            } else {
                assert(out[i] == r[i - 1]);
                let j = choose|j: int| 0 <= j < d.len() && d[j] == r[i - 1];
                assert(s[j] == d[j]);
            }
        }
    }
}

impl OutcomeHistogram {
    /// The host list is kept in strict key order.
    pub open spec fn wf(&self) -> bool {
        keys_sorted(self@.hosts)
    }

    /// An empty histogram.
    pub fn new() -> (h: Self)
        ensures
            h.wf(),
            h@.cleartext == 0 && h@.encrypted == 0 && h@.not_found == 0 && h@.malformed == 0
                && h@.decode_errors == 0,
            h@.hosts.len() == 0,
    {
        let h = OutcomeHistogram {
            cleartext: 0,
            encrypted: 0,
            not_found: 0,
            malformed: 0,
            decode_errors: 0,
            host_counts: Vec::new(),
        };
        assert(h@.hosts =~= Seq::<(Seq<char>, u64)>::empty());
        h
    }

    /// Record one parse outcome by its label (`cleartext`, `encrypted`,
    /// `not_found`, `malformed`). Any other label is ignored.
    pub fn record_kind(&mut self, kind: &str)
        requires
            kind@ == "cleartext"@ ==> old(self)@.cleartext < u64::MAX,
            kind@ == "encrypted"@ ==> old(self)@.encrypted < u64::MAX,
            kind@ == "not_found"@ ==> old(self)@.not_found < u64::MAX,
            kind@ == "malformed"@ ==> old(self)@.malformed < u64::MAX,
        ensures
            final(self)@ == (HistogramView {
                cleartext: if kind@ == "cleartext"@ {
                    (old(self)@.cleartext + 1) as u64
                } else {
                    old(self)@.cleartext
                },
                encrypted: if kind@ == "encrypted"@ {
                    (old(self)@.encrypted + 1) as u64
                } else {
                    old(self)@.encrypted
                },
                not_found: if kind@ == "not_found"@ {
                    (old(self)@.not_found + 1) as u64
                } else {
                    old(self)@.not_found
                },
                malformed: if kind@ == "malformed"@ {
                    (old(self)@.malformed + 1) as u64
                } else {
                    old(self)@.malformed
                },
                ..old(self)@
            }),
    {
        let cleartext: [u8; 9] = [0x63, 0x6c, 0x65, 0x61, 0x72, 0x74, 0x65, 0x78, 0x74];
        let encrypted: [u8; 9] = [0x65, 0x6e, 0x63, 0x72, 0x79, 0x70, 0x74, 0x65, 0x64];
        let not_found: [u8; 9] = [0x6e, 0x6f, 0x74, 0x5f, 0x66, 0x6f, 0x75, 0x6e, 0x64];
        let malformed: [u8; 9] = [0x6d, 0x61, 0x6c, 0x66, 0x6f, 0x72, 0x6d, 0x65, 0x64];
        proof {
            reveal_strlit("cleartext");
            reveal_strlit("encrypted");
            reveal_strlit("not_found");
            reveal_strlit("malformed");
            assert(ascii_chars(cleartext@) =~= "cleartext"@);
            assert(ascii_chars(encrypted@) =~= "encrypted"@);
            assert(ascii_chars(not_found@) =~= "not_found"@);
            assert(ascii_chars(malformed@) =~= "malformed"@);
            assert(is_ascii_bytes(cleartext@));
            assert(is_ascii_bytes(encrypted@));
            assert(is_ascii_bytes(not_found@));
            assert(is_ascii_bytes(malformed@));
            assert("cleartext"@ != "encrypted"@ && "cleartext"@ != "not_found"@ && "cleartext"@
                != "malformed"@ && "encrypted"@ != "not_found"@ && "encrypted"@ != "malformed"@
                && "not_found"@ != "malformed"@) by {
                assert("cleartext"@[0] != "encrypted"@[0]);
                assert("cleartext"@[0] != "not_found"@[0]);
                assert("cleartext"@[0] != "malformed"@[0]);
                assert("encrypted"@[0] != "not_found"@[0]);
                assert("encrypted"@[0] != "malformed"@[0]);
                assert("not_found"@[0] != "malformed"@[0]);
            }
        }
        if str_is_ascii_label(kind, cleartext.as_slice()) {
            self.cleartext = self.cleartext + 1;
        } else if str_is_ascii_label(kind, encrypted.as_slice()) {
            self.encrypted = self.encrypted + 1;
        } else if str_is_ascii_label(kind, not_found.as_slice()) {
            self.not_found = self.not_found + 1;
        } else if str_is_ascii_label(kind, malformed.as_slice()) {
            self.malformed = self.malformed + 1;
        }
    }

    /// Record one cleartext host; call it alongside `record_kind("cleartext")`.
    pub fn record_host(&mut self, host: &str)
        requires
            old(self).wf(),
            old(self)@.host_count(host@) < u64::MAX,
        ensures
            final(self).wf(),
            final(self)@ == (HistogramView { hosts: record_in(old(self)@.hosts, host@), ..old(self)@ }),
            final(self)@.host_count(host@) == old(self)@.host_count(host@) + 1,
            forall|g: Seq<char>|
                g != host@ ==> #[trigger] final(self)@.host_count(g) == old(self)@.host_count(g),
    {
        let ghost s = self@.hosts;
        proof {
            lemma_record_in(s, host@);
        }
        let mut i: usize = 0;
        while i < self.host_counts.len()
            invariant
                0 <= i <= s.len(),
                self@.hosts == s,
                self@ == old(self)@,
                keys_sorted(s),
                forall|k: int| 0 <= k < i ==> (#[trigger] s[k]).0 != host@ && !key_lt(host@, s[k].0),
            ensures
                0 <= i <= s.len(),
                self@.hosts == s,
                self@ == old(self)@,
                forall|k: int| 0 <= k < i ==> (#[trigger] s[k]).0 != host@ && !key_lt(host@, s[k].0),
                i < s.len() ==> (s[i as int].0 == host@ || key_lt(host@, s[i as int].0)),
            decreases s.len() - i,
        {
            let ghost here = s[i as int];
            assert(self.host_counts@[i as int].0@ == here.0);
            let found = str_equal(self.host_counts[i].0.as_str(), host);
            let less = key_less(host, self.host_counts[i].0.as_str());
            if found || less {
                break;
            }
            i = i + 1;
        }
        proof {
            lemma_record_prefix(s, host@, i as int);
        }
        let ghost rest = s.subrange(i as int, s.len() as int);
        proof {
            lemma_count_prefix(s, host@, i as int);
        }
        if i < self.host_counts.len() && str_equal(self.host_counts[i].0.as_str(), host) {
            let count = self.host_counts[i].1;
            assert(s[i as int].0 == host@);
            assert(count_in(rest, host@) == count);
            assert(count == s[i as int].1);
            assert(rest[0] == s[i as int]);
            let key = self.host_counts[i].0.clone();
            self.host_counts.set(i, (key, count + 1));
            assert(self@.hosts =~= s.subrange(0, i as int) + rest.update(0, (host@, (count + 1) as u64)));
        } else {
            if i < self.host_counts.len() {
                assert(rest[0] == s[i as int]);
            }
            self.host_counts.insert(i, (host.to_owned(), 1));
            assert(self@.hosts =~= s.subrange(0, i as int) + (seq![(host@, 1u64)] + rest));
        }
    }

    /// Record an input line that failed hex decoding.
    pub fn record_decode_error(&mut self)
        requires
            old(self)@.decode_errors < u64::MAX,
        ensures
            final(self)@ == (HistogramView {
                decode_errors: (old(self)@.decode_errors + 1) as u64,
                ..old(self)@
            }),
    {
        self.decode_errors = self.decode_errors + 1;
    }

    /// Lines that reached the parser: the four outcome buckets.
    pub fn total_parsed(&self) -> (n: u64)
        requires
            self@.total_parsed() <= u64::MAX,
        ensures
            n == self@.total_parsed(),
    {
        self.cleartext + self.encrypted + self.not_found + self.malformed
    }

    /// All lines processed, decode errors included.
    pub fn total_lines(&self) -> (n: u64)
        requires
            self@.total_parsed() + self@.decode_errors <= u64::MAX,
        ensures
            n == self@.total_parsed() + self@.decode_errors,
    {
        self.total_parsed() + self.decode_errors
    }

    /// The top `n` cleartext hosts by count, descending; ties broken by host
    /// ascending.
    pub fn top_hosts(&self, n: usize) -> (top: Vec<(String, u64)>)
        requires
            self.wf(),
        ensures
            entries_view(top@) == first_n(rank_sort(self@.hosts), n as int),
            ranked(entries_view(top@)),
    {
        let ghost s = self@.hosts;
        let mut pairs: Vec<(String, u64)> = Vec::new();
        let mut i: usize = 0;
        while i < self.host_counts.len()
            invariant
                0 <= i <= s.len(),
                self@.hosts == s,
                entries_view(pairs@) == rank_sort(s.subrange(0, i as int)),
            decreases s.len() - i,
        {
            let ghost r = entries_view(pairs@);
            let key = self.host_counts[i].0.clone();
            let count = self.host_counts[i].1;
            let ghost e = (key@, count);
            assert(e == s[i as int]);
            assert(s.subrange(0, i + 1).drop_last() =~= s.subrange(0, i as int));
            let mut j: usize = 0;
            while j < pairs.len()
                invariant
                    0 <= j <= r.len(),
                    entries_view(pairs@) == r,
                    count == e.1,
                    forall|k: int| 0 <= k < j ==> (#[trigger] r[k]).1 >= e.1,
                ensures
                    0 <= j <= r.len(),
                    entries_view(pairs@) == r,
                    forall|k: int| 0 <= k < j ==> (#[trigger] r[k]).1 >= e.1,
                    j < r.len() ==> r[j as int].1 < e.1,
                decreases r.len() - j,
            {
                let c = pairs[j].1;
                assert(r[j as int].1 == c);
                if c < count {
                    break;
                }
                j = j + 1;
            }
            proof {
                lemma_rank_prefix(r, e, j as int);
                let rest = r.subrange(j as int, r.len() as int);
                if j < r.len() {
                    assert(rest[0] == r[j as int]);
                }
            }
            pairs.insert(j, (key, count));
            assert(entries_view(pairs@) =~= r.subrange(0, j as int) + (seq![e] + r.subrange(j as int, r.len() as int)));
            i = i + 1;
        }
        assert(s.subrange(0, s.len() as int) =~= s);
        proof {
            lemma_rank_sort(s);
        }
        pairs.truncate(n);
        assert(entries_view(pairs@) =~= first_n(rank_sort(s), n as int));
        pairs
    }
}

/// The four outcome labels are distinct.
pub proof fn outcome_labels_distinct()
    ensures
        "cleartext"@ != "encrypted"@,
        "cleartext"@ != "not_found"@,
        "cleartext"@ != "malformed"@,
        "encrypted"@ != "not_found"@,
        "encrypted"@ != "malformed"@,
        "not_found"@ != "malformed"@,
{
    reveal_strlit("cleartext");
    reveal_strlit("encrypted");
    reveal_strlit("not_found");
    reveal_strlit("malformed");
    assert("cleartext"@[0] != "encrypted"@[0]);
    assert("cleartext"@[0] != "not_found"@[0]);
    assert("cleartext"@[0] != "malformed"@[0]);
    assert("encrypted"@[0] != "not_found"@[0]);
    assert("encrypted"@[0] != "malformed"@[0]);
    assert("not_found"@[0] != "malformed"@[0]);
}

/// A character with the Unicode `White_Space` property: U+0009 to U+000D,
/// U+0020, U+0085, U+00A0, U+1680, U+2000 to U+200A, U+2028, U+2029,
/// U+202F, U+205F and U+3000.
pub open spec fn is_white_space(c: char) -> bool {
    ||| ('\u{9}' <= c <= '\u{d}')
    ||| c == ' '
    ||| c == '\u{85}'
    ||| c == '\u{a0}'
    ||| c == '\u{1680}'
    ||| ('\u{2000}' <= c <= '\u{200a}')
    ||| c == '\u{2028}'
    ||| c == '\u{2029}'
    ||| c == '\u{202f}'
    ||| c == '\u{205f}'
    ||| c == '\u{3000}'
}

/// `text` without its leading white space.
pub open spec fn trim_start(text: Seq<char>) -> Seq<char>
    decreases text.len(),
{
    if text.len() > 0 && is_white_space(text[0]) {
        trim_start(text.drop_first())
    } else {
        text
    }
}

/// `text` without its trailing white space.
pub open spec fn trim_end(text: Seq<char>) -> Seq<char>
    decreases text.len(),
{
    if text.len() > 0 && is_white_space(text.last()) {
        trim_end(text.drop_last())
    } else {
        text
    }
}

/// `text` without leading and trailing white space.
pub open spec fn trimmed(text: Seq<char>) -> Seq<char> {
    trim_end(trim_start(text))
}

/// `str::trim` (std): the slice without leading and trailing characters
/// that have the Unicode `White_Space` property, which is how std's
/// documentation defines the whitespace `trim` removes.
#[verifier::external_body]
fn trim_text(text: &str) -> (t: &str)
    ensures
        t@ == trimmed(text@),
{
    text.trim()
}

/// The histogram after one parse outcome.
pub open spec fn with_outcome(h: HistogramView, o: Outcome) -> HistogramView {
    match o {
        Outcome::Cleartext(host) => HistogramView {
            cleartext: (h.cleartext + 1) as u64,
            hosts: record_in(h.hosts, host),
            ..h
        },
        Outcome::Encrypted => HistogramView { encrypted: (h.encrypted + 1) as u64, ..h },
        Outcome::NotFound => HistogramView { not_found: (h.not_found + 1) as u64, ..h },
        Outcome::Malformed => HistogramView { malformed: (h.malformed + 1) as u64, ..h },
    }
}

/// The histogram after one already-trimmed corpus line: blank lines and
/// `#` comments are skipped, a line that is not valid hex counts as a
/// decode error, anything else is parsed and its outcome recorded.
pub open spec fn with_line(h: HistogramView, t: Seq<char>) -> HistogramView {
    if t.len() == 0 || t[0] == '#' {
        h
    } else if hex_chars(t).len() % 2 == 1 {
        HistogramView { decode_errors: (h.decode_errors + 1) as u64, ..h }
    } else {
        with_outcome(h, spec_extract_sni(decode_pairs(hex_chars(t))))
    }
}

/// Every counter that one already-trimmed line would raise is below its
/// ceiling.
pub open spec fn line_fits(h: HistogramView, t: Seq<char>) -> bool {
    if t.len() == 0 || t[0] == '#' {
        true
    } else if hex_chars(t).len() % 2 == 1 {
        h.decode_errors < u64::MAX
    } else {
        match spec_extract_sni(decode_pairs(hex_chars(t))) {
            Outcome::Cleartext(host) => h.cleartext < u64::MAX && h.host_count(host) < u64::MAX,
            Outcome::Encrypted => h.encrypted < u64::MAX,
            Outcome::NotFound => h.not_found < u64::MAX,
            Outcome::Malformed => h.malformed < u64::MAX,
        }
    }
}

impl OutcomeHistogram {
    /// The count recorded for `host`, zero if it has none.
    fn host_count_of(&self, host: &str) -> (n: u64)
        ensures
            n == self@.host_count(host@),
    {
        let ghost s = self@.hosts;
        assert(s.subrange(0, s.len() as int) =~= s);
        let mut i: usize = 0;
        while i < self.host_counts.len()
            invariant
                0 <= i <= s.len(),
                s == self@.hosts,
                count_in(s, host@) == count_in(s.subrange(i as int, s.len() as int), host@),
            decreases s.len() - i,
        {
            let ghost rest = s.subrange(i as int, s.len() as int);
            assert(rest[0] == s[i as int]);
            assert(self.host_counts@[i as int].0@ == s[i as int].0);
            if str_equal(self.host_counts[i].0.as_str(), host) {
                return self.host_counts[i].1;
            }
            assert(rest.drop_first() =~= s.subrange(i + 1, s.len() as int));
            i = i + 1;
        }
        0
    }

    /// Whether recording `line` would raise no counter past its ceiling.
    pub fn can_record_line(&self, line: &str) -> (r: bool)
        ensures
            r == line_fits(self@, trimmed(line@)),
    {
        let t = trim_text(line);
        let cs = chars_of(t);
        if cs.len() == 0 || cs[0] == '#' {
            return true;
        }
        match decode_hex(t) {
            Err(_) => self.decode_errors < u64::MAX,
            Ok(bytes) => {
                let outcome = extract_sni(bytes.as_slice());
                match &outcome {
                    SniOutcome::Cleartext { host } => self.cleartext < u64::MAX
                        && self.host_count_of(host.as_str()) < u64::MAX,
                    SniOutcome::Encrypted => self.encrypted < u64::MAX,
                    SniOutcome::NotFound => self.not_found < u64::MAX,
                    SniOutcome::Malformed => self.malformed < u64::MAX,
                }
            },
        }
    }

    /// Record one corpus line of a replay run: the line is trimmed, blank
    /// lines and `#` comments are skipped, a line that is not valid hex
    /// counts as a decode error, and anything else goes through
    /// `extract_sni` and is recorded by its outcome (and host).
    pub fn record_line(&mut self, line: &str)
        requires
            old(self).wf(),
            line_fits(old(self)@, trimmed(line@)),
        ensures
            final(self).wf(),
            final(self)@ == with_line(old(self)@, trimmed(line@)),
    {
        let t = trim_text(line);
        let cs = chars_of(t);
        if cs.len() == 0 || cs[0] == '#' {
            return;
        }
        match decode_hex(t) {
            Err(_) => self.record_decode_error(),
            Ok(bytes) => {
                let outcome = extract_sni(bytes.as_slice());
                proof {
                    outcome_labels_distinct();
                }
                let kind = outcome.kind();
                self.record_kind(kind);
                if let SniOutcome::Cleartext { host } = &outcome {
                    self.record_host(host.as_str());
                }
            },
        }
    }
}

impl Default for OutcomeHistogram {
    fn default() -> (h: Self)
        ensures
            h.wf(),
            h@.cleartext == 0 && h@.encrypted == 0 && h@.not_found == 0 && h@.malformed == 0
                && h@.decode_errors == 0,
            h@.hosts.len() == 0,
    {
        OutcomeHistogram::new()
    }
}

} // verus!
