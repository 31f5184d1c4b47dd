//! Reassembly of a handshake message that may span several TLS records.
//!
//! A single ClientHello may be fragmented over consecutive records of
//! content type `handshake`. The records are walked in order and their
//! fragments concatenated until the handshake message's own `u24` length is
//! satisfied. Any other content type before that point, a truncated record,
//! an oversized fragment, or a handshake claim above
//! [`MAX_HANDSHAKE_BYTES`] is refused.

use vstd::prelude::*;
use vstd::slice::{slice_subrange, slice_to_vec};

use super::cursor::{be16, be24, Cursor};

verus! {

/// TLS record content type for handshake messages.
pub const CONTENT_TYPE_HANDSHAKE: u8 = 22;

/// Upper bound on the handshake bytes accumulated during reassembly.
pub const MAX_HANDSHAKE_BYTES: usize = 64 * 1024;

/// Largest record fragment accepted: 2^14 plus a little slack.
pub const MAX_RECORD_FRAGMENT: usize = 16_384 + 256;

/// The handshake length a reassembly state is waiting for, if known.
pub open spec fn expected_view(e: Option<usize>) -> Option<int> {
    match e {
        Some(t) => Some(t as int),
        None => None,
    }
}

/// The record walk from absolute position `pos`, with `buf` already
/// accumulated and `expected` the total handshake length once its header has
/// been seen.
pub open spec fn record_walk(r: Seq<u8>, pos: int, buf: Seq<u8>, expected: Option<int>) -> Option<
    Seq<u8>,
>
    decreases r.len() - pos,
{
    if pos < 0 || pos >= r.len() {
        None
    } else if r[pos] != CONTENT_TYPE_HANDSHAKE {
        None
    } else if pos + 5 > r.len() {
        None
    } else {
        let flen = be16(r, pos + 3);
        if flen > MAX_RECORD_FRAGMENT {
            None
        } else if flen == 0 {
            record_walk(r, pos + 5, buf, expected)
        } else if pos + 5 + flen > r.len() {
            None
        } else {
            let buf2 = buf + r.subrange(pos + 5, pos + 5 + flen);
            if buf2.len() > MAX_HANDSHAKE_BYTES {
                None
            } else if expected is None && buf2.len() >= 4 && 4 + be24(buf2, 1)
                > MAX_HANDSHAKE_BYTES {
                None
            } else {
                let exp2 = if expected is None && buf2.len() >= 4 {
                    Some(4 + be24(buf2, 1))
                } else {
                    expected
                };
                match exp2 {
                    Some(need) => if buf2.len() >= need {
                        Some(buf2.subrange(0, need))
                    } else {
                        record_walk(r, pos + 5 + flen, buf2, exp2)
                    },
                    None => record_walk(r, pos + 5 + flen, buf2, exp2),
                }
            }
        }
    }
}

/// The handshake message reassembled from `records`, if any.
pub open spec fn spec_reassemble(records: Seq<u8>) -> Option<Seq<u8>> {
    record_walk(records, 0, Seq::empty(), None)
}

/// The handshake message carried whole by the first record, if it is.
pub open spec fn spec_single_record(r: Seq<u8>) -> Option<Seq<u8>> {
    if r.len() < 5 || r[0] != CONTENT_TYPE_HANDSHAKE {
        None
    } else {
        let flen = be16(r, 3);
        if flen < 4 || flen > MAX_RECORD_FRAGMENT || 5 + flen > r.len() {
            None
        } else {
            let frag = r.subrange(5, 5 + flen);
            let total = 4 + be24(frag, 1);
            if total > MAX_HANDSHAKE_BYTES || total > flen {
                None
            } else {
                Some(frag.subrange(0, total))
            }
        }
    }
}

/// A well-formed reassembly result: one whole handshake message, header
/// included, within the allocation cap.
pub open spec fn is_handshake_message(h: Seq<u8>) -> bool {
    &&& 4 <= h.len() <= MAX_HANDSHAKE_BYTES
    &&& h.len() == 4 + be24(h, 1)
}

/// The state invariant of the record walk.
pub open spec fn walk_state_ok(buf: Seq<u8>, expected: Option<int>) -> bool {
    &&& buf.len() <= MAX_HANDSHAKE_BYTES
    &&& match expected {
        Some(t) => buf.len() >= 4 && t == 4 + be24(buf, 1) && t <= MAX_HANDSHAKE_BYTES,
        None => buf.len() < 4,
    }
}

proof fn lemma_walk_result(r: Seq<u8>, pos: int, buf: Seq<u8>, expected: Option<int>)
    requires
        walk_state_ok(buf, expected),
    ensures
        record_walk(r, pos, buf, expected) matches Some(h) ==> is_handshake_message(h),
    decreases r.len() - pos,
{
    if pos < 0 || pos >= r.len() || r[pos] != CONTENT_TYPE_HANDSHAKE || pos + 5 > r.len() {
    } else {
        let flen = be16(r, pos + 3);
        if flen > MAX_RECORD_FRAGMENT {
        } else if flen == 0 {
            lemma_walk_result(r, pos + 5, buf, expected);
        } else if pos + 5 + flen > r.len() {
        } else {
            let buf2 = buf + r.subrange(pos + 5, pos + 5 + flen);
            if buf2.len() > MAX_HANDSHAKE_BYTES {
            } else if expected is None && buf2.len() >= 4 && 4 + be24(buf2, 1)
                > MAX_HANDSHAKE_BYTES {
            } else {
                let exp2 = if expected is None && buf2.len() >= 4 {
                    Some(4 + be24(buf2, 1))
                } else {
                    expected
                };
                assert forall|i: int| 0 <= i < buf.len() implies buf2[i] == buf[i] by {}
                assert(walk_state_ok(buf2, exp2));
                match exp2 {
                    Some(need) => {
                        if buf2.len() >= need {
                            let h = buf2.subrange(0, need);
                            assert(h[1] == buf2[1] && h[2] == buf2[2] && h[3] == buf2[3]);
                        } else {
                            lemma_walk_result(r, pos + 5 + flen, buf2, exp2);
                        }
                    },
                    None => lemma_walk_result(r, pos + 5 + flen, buf2, exp2),
                }
            }
        }
    }
}

/// Every handshake that reassembly yields is exactly one whole handshake
/// message (four header bytes plus the body length its header claims), and
/// never larger than [`MAX_HANDSHAKE_BYTES`], whatever lengths the records
/// claim.
pub proof fn reassembly_yields_one_bounded_message(records: Seq<u8>)
    ensures
        spec_reassemble(records) matches Some(h) ==> is_handshake_message(h),
{
    lemma_walk_result(records, 0, Seq::empty(), None);
}

/// The single-record shortcut is correct whenever it succeeds: it yields
/// exactly the handshake that the full record walk yields. By their
/// contracts, whenever `try_reassemble_single_record` returns a message,
/// `reassemble_handshake_owned` returns the same bytes.
pub proof fn single_record_agrees_with_walk(records: Seq<u8>)
    ensures
        spec_single_record(records) matches Some(h) ==> spec_reassemble(records) == Some(h),
{
    if let Some(h) = spec_single_record(records) {
        let flen = be16(records, 3);
        let frag = records.subrange(5, 5 + flen);
        let buf2 = Seq::<u8>::empty() + frag;
        assert(buf2 =~= frag);
    }
}

proof fn lemma_walk_ignores_suffix(
    r: Seq<u8>,
    rest: Seq<u8>,
    pos: int,
    buf: Seq<u8>,
    expected: Option<int>,
)
    requires
        record_walk(r, pos, buf, expected) is Some,
    ensures
        record_walk(r + rest, pos, buf, expected) == record_walk(r, pos, buf, expected),
    decreases r.len() - pos,
{
    let rr = r + rest;
    assert(rr[pos] == r[pos]);
    assert(rr[pos + 3] == r[pos + 3] && rr[pos + 4] == r[pos + 4]);
    let flen = be16(r, pos + 3);
    if flen == 0 {
        lemma_walk_ignores_suffix(r, rest, pos + 5, buf, expected);
    } else {
        assert(rr.subrange(pos + 5, pos + 5 + flen) =~= r.subrange(pos + 5, pos + 5 + flen));
        let buf2 = buf + r.subrange(pos + 5, pos + 5 + flen);
        let exp2 = if expected is None && buf2.len() >= 4 {
            Some(4 + be24(buf2, 1))
        } else {
            expected
        };
        match exp2 {
            Some(need) => if buf2.len() < need {
                lemma_walk_ignores_suffix(r, rest, pos + 5 + flen, buf2, exp2);
            },
            None => lemma_walk_ignores_suffix(r, rest, pos + 5 + flen, buf2, exp2),
        }
    }
}

/// Bytes after the records that complete the handshake message are never
/// read: appending anything leaves a successful reassembly unchanged.
pub proof fn reassembly_ignores_trailing_bytes(records: Seq<u8>, rest: Seq<u8>)
    ensures
        spec_reassemble(records) matches Some(h) ==> spec_reassemble(records + rest) == Some(h),
{
    if spec_reassemble(records) is Some {
        lemma_walk_ignores_suffix(records, rest, 0, Seq::empty(), None);
    }
}

/// One handshake record carrying `fragment`, with `version` in its
/// `legacy_record_version` field.
pub open spec fn versioned_record(version: u16, fragment: Seq<u8>) -> Seq<u8> {
    seq![
        CONTENT_TYPE_HANDSHAKE,
        (version / 256) as u8,
        (version % 256) as u8,
        (fragment.len() / 256) as u8,
        (fragment.len() % 256) as u8,
    ] + fragment
}

/// Consecutive handshake records, one per fragment; record `i` carries
/// `versions(i)` as its version.
pub open spec fn versioned_records(fragments: Seq<Seq<u8>>, versions: spec_fn(int) -> u16) -> Seq<
    u8,
>
    decreases fragments.len(),
{
    if fragments.len() == 0 {
        Seq::empty()
    } else {
        versioned_records(fragments.drop_last(), versions) + versioned_record(
            versions(fragments.len() - 1),
            fragments.last(),
        )
    }
}

/// One handshake record carrying `fragment`, with record version 0x0301.
pub open spec fn handshake_record(fragment: Seq<u8>) -> Seq<u8> {
    versioned_record(0x0301, fragment)
}

/// Consecutive handshake records with record version 0x0301, one per
/// fragment.
pub open spec fn handshake_records(fragments: Seq<Seq<u8>>) -> Seq<u8> {
    versioned_records(fragments, |i: int| 0x0301u16)
}

/// The fragments joined back together.
pub open spec fn joined(fragments: Seq<Seq<u8>>) -> Seq<u8>
    decreases fragments.len(),
{
    if fragments.len() == 0 {
        Seq::empty()
    } else {
        joined(fragments.drop_last()) + fragments.last()
    }
}

proof fn lemma_take_step(fragments: Seq<Seq<u8>>, versions: spec_fn(int) -> u16, k: int)
    requires
        0 <= k < fragments.len(),
    ensures
        joined(fragments.take(k + 1)) == joined(fragments.take(k)) + fragments[k],
        versioned_records(fragments.take(k + 1), versions) == versioned_records(
            fragments.take(k),
            versions,
        ) + versioned_record(versions(k), fragments[k]),
{
    assert(fragments.take(k + 1).drop_last() =~= fragments.take(k));
    assert(fragments.take(k + 1).last() == fragments[k]);
}

proof fn lemma_take_prefix(fragments: Seq<Seq<u8>>, versions: spec_fn(int) -> u16, k: int)
    requires
        0 <= k <= fragments.len(),
    ensures
        joined(fragments.take(k)).len() <= joined(fragments).len(),
        joined(fragments).subrange(0, joined(fragments.take(k)).len() as int) == joined(
            fragments.take(k),
        ),
        versioned_records(fragments.take(k), versions).len() <= versioned_records(
            fragments,
            versions,
        ).len(),
        versioned_records(fragments, versions).subrange(
            0,
            versioned_records(fragments.take(k), versions).len() as int,
        ) == versioned_records(fragments.take(k), versions),
    decreases fragments.len() - k,
{
    if k == fragments.len() {
        assert(fragments.take(k) =~= fragments);
        assert(joined(fragments).subrange(0, joined(fragments).len() as int) =~= joined(fragments));
        let all = versioned_records(fragments, versions);
        assert(all.subrange(0, all.len() as int) =~= all);
    } else {
        lemma_take_prefix(fragments, versions, k + 1);
        lemma_take_step(fragments, versions, k);
        let a = joined(fragments.take(k));
        let b = joined(fragments.take(k + 1));
        assert(joined(fragments).subrange(0, a.len() as int) =~= b.subrange(0, a.len() as int));
        assert(b.subrange(0, a.len() as int) =~= a);
        let c = versioned_records(fragments.take(k), versions);
        let d = versioned_records(fragments.take(k + 1), versions);
        assert(versioned_records(fragments, versions).subrange(0, c.len() as int) =~= d.subrange(
            0,
            c.len() as int,
        ));
        assert(d.subrange(0, c.len() as int) =~= c);
    }
}

/// What the record walk expects once `buf` holds a prefix of `h`.
pub open spec fn expected_after(buf: Seq<u8>, h: Seq<u8>) -> Option<int> {
    if buf.len() >= 4 {
        Some(h.len() as int)
    } else {
        None
    }
}

proof fn lemma_walk_fragments(
    fragments: Seq<Seq<u8>>,
    versions: spec_fn(int) -> u16,
    rest: Seq<u8>,
    k: int,
)
    requires
        is_handshake_message(joined(fragments)),
        forall|i: int| 0 <= i < fragments.len() ==> (#[trigger] fragments[i]).len() <= MAX_RECORD_FRAGMENT,
        0 <= k <= fragments.len(),
        joined(fragments.take(k)).len() < joined(fragments).len(),
    ensures
        record_walk(
            versioned_records(fragments, versions) + rest,
            versioned_records(fragments.take(k), versions).len() as int,
            joined(fragments.take(k)),
            expected_after(joined(fragments.take(k)), joined(fragments)),
        ) == Some(joined(fragments)),
    decreases fragments.len() - k,
{
    let h = joined(fragments);
    let r = versioned_records(fragments, versions) + rest;
    if k == fragments.len() {
        assert(fragments.take(k) =~= fragments);
    }
    assert(k < fragments.len());
    let f = fragments[k];
    let pos = versioned_records(fragments.take(k), versions).len() as int;
    let buf = joined(fragments.take(k));
    lemma_take_step(fragments, versions, k);
    lemma_take_prefix(fragments, versions, k + 1);
    let rec = versioned_record(versions(k), f);
    let upto = versioned_records(fragments.take(k + 1), versions);
    assert(upto.len() == pos + 5 + f.len());
    assert forall|j: int| 0 <= j < rec.len() implies r[pos + j] == rec[j] by {
        assert(r[pos + j] == versioned_records(fragments, versions)[pos + j]);
        assert(versioned_records(fragments, versions)[pos + j] == upto[pos + j]);
        assert(upto[pos + j] == rec[j]);
    }
    assert(r[pos] == CONTENT_TYPE_HANDSHAKE) by {
        assert(rec[0] == CONTENT_TYPE_HANDSHAKE);
    }
    assert(f.len() <= MAX_RECORD_FRAGMENT);
    assert(((f.len() / 256) as u8) as int * 256 + ((f.len() % 256) as u8) as int == f.len())
        by (nonlinear_arith)
        requires
            f.len() <= 16640,
    ;
    assert(r[pos + 3] == rec[3] && r[pos + 4] == rec[4]);
    assert(be16(r, pos + 3) == f.len());
    let next = fragments.take(k + 1);
    if f.len() == 0 {
        assert(joined(next) =~= buf);
        lemma_walk_fragments(fragments, versions, rest, k + 1);
    } else {
        assert(r.subrange(pos + 5, pos + 5 + f.len()) =~= f) by {
            assert forall|j: int| 0 <= j < f.len() implies r[pos + 5 + j] == f[j] by {
                assert(rec[5 + j] == f[j]);
            }
        }
        let buf2 = buf + f;
        assert(buf2 == joined(next));
        assert(h.subrange(0, buf2.len() as int) == buf2);
        if buf2.len() >= 4 {
            assert(buf2[1] == h[1] && buf2[2] == h[2] && buf2[3] == h[3]);
            assert(be24(buf2, 1) == be24(h, 1));
        }
        if buf.len() >= 4 {
            assert(buf2.len() >= 4);
        }
        if buf2.len() >= h.len() {
            assert(buf2 =~= h);
            assert(buf2.subrange(0, h.len() as int) =~= h);
        } else {
            lemma_walk_fragments(fragments, versions, rest, k + 1);
        }
    }
}

/// The `legacy_record_version` field of a record is never read: a valid
/// handshake message split into handshake records (fragments of at most
/// [`MAX_RECORD_FRAGMENT`] bytes, empty ones included), each record with any
/// version at all, reassembles to exactly that message, whatever follows
/// the records.
pub proof fn record_version_is_ignored(
    fragments: Seq<Seq<u8>>,
    versions: spec_fn(int) -> u16,
    rest: Seq<u8>,
)
    requires
        is_handshake_message(joined(fragments)),
        forall|i: int| 0 <= i < fragments.len() ==> (#[trigger] fragments[i]).len() <= MAX_RECORD_FRAGMENT,
    ensures
        spec_reassemble(versioned_records(fragments, versions) + rest) == Some(joined(fragments)),
{
    assert(fragments.take(0) =~= Seq::<Seq<u8>>::empty());
    lemma_walk_fragments(fragments, versions, rest, 0);
}

/// Fragmentation is transparent: a valid handshake message split into any
/// sequence of handshake records (fragments of at most
/// [`MAX_RECORD_FRAGMENT`] bytes, empty ones included) reassembles to
/// exactly that message, whatever follows the records; so the ClientHello
/// read from the records is the one read from the message itself.
pub proof fn fragmentation_is_transparent(fragments: Seq<Seq<u8>>, rest: Seq<u8>)
    requires
        is_handshake_message(joined(fragments)),
        forall|i: int| 0 <= i < fragments.len() ==> (#[trigger] fragments[i]).len() <= MAX_RECORD_FRAGMENT,
    ensures
        spec_reassemble(handshake_records(fragments) + rest) == Some(joined(fragments)),
{
    record_version_is_ignored(fragments, |i: int| 0x0301u16, rest);
}

/// The single-record shortcut reads a whole handshake message from one
/// record whatever its `legacy_record_version`, and ignores what follows
/// the record.
pub proof fn single_record_reads_any_version(version: u16, h: Seq<u8>, rest: Seq<u8>)
    requires
        is_handshake_message(h),
        h.len() <= MAX_RECORD_FRAGMENT,
    ensures
        spec_single_record(versioned_record(version, h) + rest) == Some(h),
{
    let r = versioned_record(version, h) + rest;
    assert(((h.len() / 256) as u8) as int * 256 + ((h.len() % 256) as u8) as int == h.len())
        by (nonlinear_arith)
        requires
            h.len() <= 16640,
    ;
    assert(r[0] == CONTENT_TYPE_HANDSHAKE);
    assert(r[3] == ((h.len() / 256) as u8) && r[4] == ((h.len() % 256) as u8));
    assert(be16(r, 3) == h.len());
    let frag = r.subrange(5, 5 + h.len() as int);
    assert(frag =~= h);
    assert(frag.subrange(0, h.len() as int) =~= h);
}

/// Single-record shortcut: the first record is a handshake record whose
/// fragment holds a complete handshake message. Trailing bytes inside the
/// fragment are dropped.
pub fn try_reassemble_single_record(records: &[u8]) -> (r: Option<&[u8]>)
    ensures
        match spec_single_record(records@) {
            Some(h) => r matches Some(x) && x@ == h,
            None => r is None,
        },
{
    let mut cursor = Cursor::new(records);
    match cursor.read_u8() {
        Some(t) => {
            if t != CONTENT_TYPE_HANDSHAKE {
                return None;
            }
        },
        None => return None,
    }
    if cursor.read_u16().is_none() {
        return None;
    }
    let fragment_len = match cursor.read_u16() {
        Some(n) => n as usize,
        None => return None,
    };
    if fragment_len < 4 || fragment_len > MAX_RECORD_FRAGMENT {
        return None;
    }
    let fragment = match cursor.read_slice(fragment_len) {
        Some(f) => f,
        None => return None,
    };
    let body_len = (fragment[1] as usize) * 65536 + (fragment[2] as usize) * 256
        + (fragment[3] as usize);
    let total = 4 + body_len;
    if total > MAX_HANDSHAKE_BYTES {
        return None;
    }
    if total <= fragment_len {
        Some(slice_subrange(fragment, 0, total))
    } else {
        None
    }
}

/// Multi-record walk: concatenate handshake fragments until the handshake
/// message is complete. The allocation cap is checked before the buffer
/// grows.
pub fn reassemble_handshake_owned(records: &[u8]) -> (r: Option<Vec<u8>>)
    ensures
        match spec_reassemble(records@) {
            Some(h) => r matches Some(v) && v@ == h,
            None => r is None,
        },
{
    let mut cursor = Cursor::new(records);
    let mut handshake_buf: Vec<u8> = Vec::new();
    let mut expected_total: Option<usize> = None;

    while cursor.remaining() > 0
        invariant
            cursor.wf(),
            cursor.data() == records@,
            walk_state_ok(handshake_buf@, expected_view(expected_total)),
            spec_reassemble(records@) == record_walk(
                records@,
                cursor.position(),
                handshake_buf@,
                expected_view(expected_total),
            ),
        decreases records@.len() - cursor.position(),
    {
        let ghost pos = cursor.position();
        let ghost buf0 = handshake_buf@;
        let content_type = match cursor.read_u8() {
            Some(t) => t,
            None => return None,
        };
        if content_type != CONTENT_TYPE_HANDSHAKE {
            return None;
        }
        if cursor.read_u16().is_none() {
            return None;
        }
        let fragment_len = match cursor.read_u16() {
            Some(n) => n as usize,
            None => return None,
        };
        if fragment_len > MAX_RECORD_FRAGMENT {
            return None;
        }
        if fragment_len == 0 {
            continue;
        }
        let fragment = match cursor.read_slice(fragment_len) {
            Some(f) => f,
            None => return None,
        };
        if handshake_buf.len() + fragment_len > MAX_HANDSHAKE_BYTES {
            return None;
        }
        handshake_buf.extend_from_slice(fragment);
        let ghost buf2 = buf0 + records@.subrange(pos + 5, pos + 5 + fragment_len);
        assert(handshake_buf@ =~= buf2);
        if expected_total.is_none() && handshake_buf.len() >= 4 {
            let body_len = (handshake_buf[1] as usize) * 65536 + (handshake_buf[2] as usize)
                * 256 + (handshake_buf[3] as usize);
            let total = 4 + body_len;
            if total > MAX_HANDSHAKE_BYTES {
                return None;
            }
            expected_total = Some(total);
        }
        if let Some(need) = expected_total {
            if handshake_buf.len() >= need {
                handshake_buf.truncate(need);
                return Some(handshake_buf);
            }
        }
    }
    None
}

/// Walk one or more TLS records and concatenate their handshake fragments
/// into a single handshake message.
///
/// Returns the message (header included, trailing bytes dropped) once the
/// handshake's own `u24` length is satisfied; `None` when the input does not
/// begin with a valid record, a record of another content type comes first,
/// a record is truncated or claims an oversized fragment, the handshake would
/// exceed [`MAX_HANDSHAKE_BYTES`], or the input ends early.
pub fn reassemble_handshake(records: &[u8]) -> (r: Option<Vec<u8>>)
    ensures
        match spec_reassemble(records@) {
            Some(h) => r matches Some(v) && v@ == h && is_handshake_message(h),
            None => r is None,
        },
{
    proof {
        single_record_agrees_with_walk(records@);
        reassembly_yields_one_bounded_message(records@);
    }
    if let Some(handshake) = try_reassemble_single_record(records) {
        return Some(slice_to_vec(handshake));
    }
    reassemble_handshake_owned(records)
}

} // verus!
