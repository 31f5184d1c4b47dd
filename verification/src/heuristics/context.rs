//! Launch-context tracking.
//!
//! The same URL is far more dangerous when it arrives through an email
//! client or a document reader than when typed into a browser. This module
//! classifies the parent process that triggered an outbound call from its
//! name; finding that process is the daemon's job.

use vstd::prelude::*;
use vstd::string::StringSliceAdditionalSpecFns;

use crate::risk::RiskSignal;
use crate::text::{ascii_lower, to_ascii_lower};

verus! {

/// The category of application that originated a web request.
#[derive(Debug, Clone, Copy, PartialEq, Eq, Structural)]
pub enum ParentCategory {
    /// Email clients, a top phishing delivery vector.
    EmailClient,
    /// Document readers (PDF, Office) that can embed malicious links.
    DocumentReader,
    /// A normal web browser.
    Browser,
    /// Unrecognised parent.
    Other,
}

impl ParentCategory {
    /// Whether a link from this category to a domain outside the safe cache
    /// is treated as high risk.
    pub fn is_elevated_risk(self) -> (r: bool)
        ensures
            r == (self is EmailClient || self is DocumentReader),
    {
        matches!(self, ParentCategory::EmailClient | ParentCategory::DocumentReader)
    }
}

/// ASCII lowercase of every byte.
pub open spec fn lower_bytes(b: Seq<u8>) -> Seq<u8> {
    Seq::new(b.len(), |i: int| ascii_lower(b[i]))
}

/// `needle` occurs in `hay` starting at `i`.
pub open spec fn occurs_at(hay: Seq<u8>, needle: Seq<u8>, i: int) -> bool {
    0 <= i && i + needle.len() <= hay.len() && hay.subrange(i, i + needle.len()) == needle
}

/// `needle` occurs somewhere in `hay`.
pub open spec fn contains_bytes(hay: Seq<u8>, needle: Seq<u8>) -> bool {
    exists|i: int| #[trigger] occurs_at(hay, needle, i)
}

/// Some pattern of `table` occurs in `hay`.
pub open spec fn table_hit(hay: Seq<u8>, table: Seq<Seq<u8>>) -> bool {
    exists|k: int| 0 <= k < table.len() && #[trigger] contains_bytes(hay, table[k])
}

/// outlook, thunderbird, apple mail, mailmate, spark
pub open spec fn email_clients() -> Seq<Seq<u8>> {
    seq![
        seq![0x6fu8, 0x75, 0x74, 0x6c, 0x6f, 0x6f, 0x6b],
        seq![0x74u8, 0x68, 0x75, 0x6e, 0x64, 0x65, 0x72, 0x62, 0x69, 0x72, 0x64],
        seq![0x61u8, 0x70, 0x70, 0x6c, 0x65, 0x20, 0x6d, 0x61, 0x69, 0x6c],
        seq![0x6du8, 0x61, 0x69, 0x6c, 0x6d, 0x61, 0x74, 0x65],
        seq![0x73u8, 0x70, 0x61, 0x72, 0x6b],
    ]
}

/// acrobat, acrord32, preview, winword, powerpnt
pub open spec fn document_readers() -> Seq<Seq<u8>> {
    seq![
        seq![0x61u8, 0x63, 0x72, 0x6f, 0x62, 0x61, 0x74],
        seq![0x61u8, 0x63, 0x72, 0x6f, 0x72, 0x64, 0x33, 0x32],
        seq![0x70u8, 0x72, 0x65, 0x76, 0x69, 0x65, 0x77],
        seq![0x77u8, 0x69, 0x6e, 0x77, 0x6f, 0x72, 0x64],
        seq![0x70u8, 0x6f, 0x77, 0x65, 0x72, 0x70, 0x6e, 0x74],
    ]
}

/// chrome, firefox, safari, msedge, brave, arc
pub open spec fn browsers() -> Seq<Seq<u8>> {
    seq![
        seq![0x63u8, 0x68, 0x72, 0x6f, 0x6d, 0x65],
        seq![0x66u8, 0x69, 0x72, 0x65, 0x66, 0x6f, 0x78],
        seq![0x73u8, 0x61, 0x66, 0x61, 0x72, 0x69],
        seq![0x6du8, 0x73, 0x65, 0x64, 0x67, 0x65],
        seq![0x62u8, 0x72, 0x61, 0x76, 0x65],
        seq![0x61u8, 0x72, 0x63],
    ]
}

/// The category of a process name: case-insensitive substring match
/// against the email, document and browser tables, in that order.
pub open spec fn parent_category(name: Seq<u8>) -> ParentCategory {
    let l = lower_bytes(name);
    if table_hit(l, email_clients()) {
        ParentCategory::EmailClient
    } else if table_hit(l, document_readers()) {
        ParentCategory::DocumentReader
    } else if table_hit(l, browsers()) {
        ParentCategory::Browser
    } else {
        ParentCategory::Other
    }
}

fn lowercase_bytes(b: &[u8]) -> (out: Vec<u8>)
    ensures
        out@ == lower_bytes(b@),
{
    let mut out: Vec<u8> = Vec::new();
    let mut i: usize = 0;
    while i < b.len()
        invariant
            0 <= i <= b@.len(),
            out@ == lower_bytes(b@).subrange(0, i as int),
        decreases b@.len() - i,
    {
        out.push(to_ascii_lower(b[i]));
        i = i + 1;
        assert(out@ =~= lower_bytes(b@).subrange(0, i as int));
    }
    assert(out@ =~= lower_bytes(b@));
    out
}

fn occurs_at_exec(hay: &[u8], needle: &[u8], i: usize) -> (r: bool)
    requires
        i + needle@.len() <= hay@.len(),
    ensures
        r == occurs_at(hay@, needle@, i as int),
{
    let hay_len = hay.len();
    let mut k: usize = 0;
    while k < needle.len()
        invariant
            0 <= k <= needle@.len(),
            hay_len == hay@.len(),
            i + needle@.len() <= hay@.len(),
            forall|t: int| 0 <= t < k ==> hay@[i + t] == needle@[t],
        decreases needle@.len() - k,
    {
        if hay[i + k] != needle[k] {
            assert(hay@.subrange(i as int, i + needle@.len())[k as int] != needle@[k as int]);
            return false;
        }
        k = k + 1;
    }
    assert(hay@.subrange(i as int, i + needle@.len()) =~= needle@);
    true
}

/// Substring search.
pub fn contains_subslice(hay: &[u8], needle: &[u8]) -> (r: bool)
    ensures
        r == contains_bytes(hay@, needle@),
{
    if needle.len() > hay.len() {
        assert forall|i: int| !#[trigger] occurs_at(hay@, needle@, i) by {}
        return false;
    }
    let last = hay.len() - needle.len();
    let mut i: usize = 0;
    loop
        invariant
            0 <= i <= last,
            last == hay@.len() - needle@.len(),
            forall|k: int| 0 <= k < i ==> !#[trigger] occurs_at(hay@, needle@, k),
        ensures
            forall|k: int| 0 <= k <= last ==> !#[trigger] occurs_at(hay@, needle@, k),
        decreases last - i,
    {
        if occurs_at_exec(hay, needle, i) {
            return true;
        }
        if i == last {
            break;
        }
        i = i + 1;
    }
    assert forall|k: int| !#[trigger] occurs_at(hay@, needle@, k) by {}
    false
}

/// Some pattern of `table` occurs in `hay`.
fn any_pattern(hay: &[u8], table: &[&[u8]]) -> (r: bool)
    ensures
        r == exists|k: int| 0 <= k < table@.len() && #[trigger] contains_bytes(hay@, table@[k]@),
{
    let mut k: usize = 0;
    while k < table.len()
        invariant
            0 <= k <= table@.len(),
            forall|j: int| 0 <= j < k ==> !#[trigger] contains_bytes(hay@, table@[j]@),
        decreases table@.len() - k,
    {
        if contains_subslice(hay, table[k]) {
            return true;
        }
        k = k + 1;
    }
    false
}

/// Map a raw process name to a [`ParentCategory`]. Matching is
/// case-insensitive and by substring, to tolerate platform variance
/// (`Outlook.exe`, `Microsoft Outlook`, `outlook`).
pub fn classify_parent(process_name: &str) -> (r: ParentCategory)
    ensures
        r == parent_category(process_name.spec_bytes()),
{
    let name = lowercase_bytes(process_name.as_bytes());
    let outlook: [u8; 7] = [0x6f, 0x75, 0x74, 0x6c, 0x6f, 0x6f, 0x6b];
    let thunderbird: [u8; 11] = [0x74, 0x68, 0x75, 0x6e, 0x64, 0x65, 0x72, 0x62, 0x69, 0x72, 0x64];
    let apple_mail: [u8; 10] = [0x61, 0x70, 0x70, 0x6c, 0x65, 0x20, 0x6d, 0x61, 0x69, 0x6c];
    let mailmate: [u8; 8] = [0x6d, 0x61, 0x69, 0x6c, 0x6d, 0x61, 0x74, 0x65];
    let spark: [u8; 5] = [0x73, 0x70, 0x61, 0x72, 0x6b];
    let acrobat: [u8; 7] = [0x61, 0x63, 0x72, 0x6f, 0x62, 0x61, 0x74];
    let acrord32: [u8; 8] = [0x61, 0x63, 0x72, 0x6f, 0x72, 0x64, 0x33, 0x32];
    let preview: [u8; 7] = [0x70, 0x72, 0x65, 0x76, 0x69, 0x65, 0x77];
    let winword: [u8; 7] = [0x77, 0x69, 0x6e, 0x77, 0x6f, 0x72, 0x64];
    let powerpnt: [u8; 8] = [0x70, 0x6f, 0x77, 0x65, 0x72, 0x70, 0x6e, 0x74];
    let chrome: [u8; 6] = [0x63, 0x68, 0x72, 0x6f, 0x6d, 0x65];
    let firefox: [u8; 7] = [0x66, 0x69, 0x72, 0x65, 0x66, 0x6f, 0x78];
    let safari: [u8; 6] = [0x73, 0x61, 0x66, 0x61, 0x72, 0x69];
    let msedge: [u8; 6] = [0x6d, 0x73, 0x65, 0x64, 0x67, 0x65];
    let brave: [u8; 5] = [0x62, 0x72, 0x61, 0x76, 0x65];
    let arc: [u8; 3] = [0x61, 0x72, 0x63];
    let email: [&[u8]; 5] = [
        outlook.as_slice(),
        thunderbird.as_slice(),
        apple_mail.as_slice(),
        mailmate.as_slice(),
        spark.as_slice(),
    ];
    let docs: [&[u8]; 5] = [
        acrobat.as_slice(),
        acrord32.as_slice(),
        preview.as_slice(),
        winword.as_slice(),
        powerpnt.as_slice(),
    ];
    let browser: [&[u8]; 6] = [
        chrome.as_slice(),
        firefox.as_slice(),
        safari.as_slice(),
        msedge.as_slice(),
        brave.as_slice(),
        arc.as_slice(),
    ];
    proof {
        assert(outlook@ =~= email_clients()[0]);
        assert(thunderbird@ =~= email_clients()[1]);
        assert(apple_mail@ =~= email_clients()[2]);
        assert(mailmate@ =~= email_clients()[3]);
        assert(spark@ =~= email_clients()[4]);
        assert(acrobat@ =~= document_readers()[0]);
        assert(acrord32@ =~= document_readers()[1]);
        assert(preview@ =~= document_readers()[2]);
        assert(winword@ =~= document_readers()[3]);
        assert(powerpnt@ =~= document_readers()[4]);
        assert(chrome@ =~= browsers()[0]);
        assert(firefox@ =~= browsers()[1]);
        assert(safari@ =~= browsers()[2]);
        assert(msedge@ =~= browsers()[3]);
        assert(brave@ =~= browsers()[4]);
        assert(arc@ =~= browsers()[5]);
    }
    let l = name.as_slice();
    if any_pattern(l, email.as_slice()) {
        assert(table_hit(l@, email_clients())) by {
            let k = choose|k: int| 0 <= k < 5 && #[trigger] contains_bytes(l@, email@[k]@);
            assert(contains_bytes(l@, email_clients()[k]));
        }
        ParentCategory::EmailClient
    } else {
        assert(!table_hit(l@, email_clients())) by {
            assert forall|k: int| 0 <= k < 5 implies !#[trigger] contains_bytes(
                l@,
                email_clients()[k],
            ) by {
                assert(email@[k]@ == email_clients()[k]);
            }
        }
        if any_pattern(l, docs.as_slice()) {
            assert(table_hit(l@, document_readers())) by {
                let k = choose|k: int| 0 <= k < 5 && #[trigger] contains_bytes(l@, docs@[k]@);
                assert(contains_bytes(l@, document_readers()[k]));
            }
            ParentCategory::DocumentReader
        } else {
            assert(!table_hit(l@, document_readers())) by {
                assert forall|k: int| 0 <= k < 5 implies !#[trigger] contains_bytes(
                    l@,
                    document_readers()[k],
                ) by {
                    assert(docs@[k]@ == document_readers()[k]);
                }
            }
            if any_pattern(l, browser.as_slice()) {
                assert(table_hit(l@, browsers())) by {
                    let k = choose|k: int|
                        0 <= k < 6 && #[trigger] contains_bytes(l@, browser@[k]@);
                    assert(contains_bytes(l@, browsers()[k]));
                }
                ParentCategory::Browser
            } else {
                assert(!table_hit(l@, browsers())) by {
                    assert forall|k: int| 0 <= k < 6 implies !#[trigger] contains_bytes(
                        l@,
                        browsers()[k],
                    ) by {
                        assert(browser@[k]@ == browsers()[k]);
                    }
                }
                ParentCategory::Other
            }
        }
    }
}

/// The launch-context signal: raised for an elevated-risk parent calling a
/// domain that is not already trusted.
pub open spec fn context_signal_raised(parent_process: Seq<u8>, in_safe_cache: bool) -> bool {
    !in_safe_cache && (parent_category(parent_process) is EmailClient || parent_category(
        parent_process,
    ) is DocumentReader)
}

/// What the launch-context check reports: a signal naming the parent
/// exactly when [`context_signal_raised`] holds.
pub open spec fn launch_report(parent_process: &str, in_safe_cache: bool, r: Option<RiskSignal>) -> bool {
    &&& r is Some == context_signal_raised(parent_process.spec_bytes(), in_safe_cache)
    &&& r matches Some(s) ==> (s matches RiskSignal::RiskyLaunchContext { parent_process: p }
        && p@ == parent_process@)
}

/// Produce a [`RiskSignal::RiskyLaunchContext`] when an elevated-risk
/// parent launched a call to a domain outside the safe cache.
pub fn assess_context(parent_process: &str, in_safe_cache: bool) -> (r: Option<RiskSignal>)
    ensures
        launch_report(parent_process, in_safe_cache, r),
        in_safe_cache ==> r is None,
{
    if in_safe_cache {
        return None;
    }
    if classify_parent(parent_process).is_elevated_risk() {
        Some(RiskSignal::RiskyLaunchContext { parent_process: parent_process.to_owned() })
    } else {
        None
    }
}

} // verus!
