//! The issue model: one reportable condition and its deduplication
//! fingerprint.
//!
//! The fingerprint is a pure function of the deduplication fields alone —
//! never of the title or the labels — so a later resolve matches an earlier
//! trigger even when the human-readable fields were updated in between.

use vstd::prelude::*;
use vstd::utf8::encode_utf8;
use crate::event::{ResolveEvent, Severity, TriggerEvent};
use crate::fields::PdIssueFields;
use crate::hash::{fnv_bytes, fnv_extend, fnv_extend_byte, fnv_step, FNV_OFFSET_BASIS};
use crate::text::{dec_chars, summary_bytes, truncated_summary, u64_to_decimal, MAX_SUMMARY_BYTES};

verus! {

/// Discriminator folded into the hash seed, scoped to this issue type, so
/// that fingerprints never collide with unrelated hashed shapes that happen
/// to carry the same field maps.
pub const ISSUE_TYPE_TAG: u64 = 0x7064_4973_7375_6531;

/// Separator byte fed between hashed components, so that the boundary
/// between key and value contributes to the digest.
pub const FIELD_SEPARATOR: u8 = 0xff;

/// The hash state every fingerprint starts from.
pub open spec fn fingerprint_seed() -> u64 {
    FNV_OFFSET_BASIS ^ ISSUE_TYPE_TAG
}

/// Fold one entry into the hash state: key bytes, separator, value bytes,
/// separator.
pub open spec fn fp_entry(state: u64, e: (Seq<char>, Seq<char>)) -> u64 {
    fnv_step(
        fnv_bytes(fnv_step(fnv_bytes(state, encode_utf8(e.0)), FIELD_SEPARATOR), encode_utf8(e.1)),
        FIELD_SEPARATOR,
    )
}

/// Fold a whole entry sequence into the hash state, front to back.
pub open spec fn fp_fold(state: u64, s: Seq<(Seq<char>, Seq<char>)>) -> u64
    decreases s.len(),
{
    if s.len() == 0 {
        state
    } else {
        fp_fold(fp_entry(state, s[0]), s.drop_first())
    }
}

/// The fingerprint of a deduplication field sequence.
pub open spec fn fingerprint_of(s: Seq<(Seq<char>, Seq<char>)>) -> u64 {
    fp_fold(fingerprint_seed(), s)
}

/// One reportable condition.
pub struct PdIssue {
    pub title: String,
    pub source: String,
    pub component: String,
    pub dedup_fields: PdIssueFields,
}

impl PdIssue {
    /// The stable 64-bit fingerprint of this issue, derived from the
    /// deduplication fields alone. Pure: repeated calls return the same
    /// value on the same fields.
    pub fn dedup_key(&self) -> (r: u64)
        ensures
            r == fingerprint_of(self.dedup_fields@),
    {
        let ghost s = self.dedup_fields@;
        let entries = self.dedup_fields.entries();
        let n = entries.len();
        let mut state: u64 = FNV_OFFSET_BASIS ^ ISSUE_TYPE_TAG;
        let mut i: usize = 0;
        proof {
            assert(s.skip(0) =~= s);
        }
        while i < n
            invariant
                i <= n,
                n == s.len(),
                n == entries@.len(),
                forall|k: int|
                    0 <= k < s.len() ==> (#[trigger] entries@[k]).0@ == s[k].0 && entries@[k].1@
                        == s[k].1,
                fingerprint_of(s) == fp_fold(state, s.skip(i as int)),
            decreases n - i,
        {
            let ghost st0 = state;
            let e = &entries[i];
            state = fnv_extend(state, e.0.as_str().as_bytes());
            state = fnv_extend_byte(state, FIELD_SEPARATOR);
            state = fnv_extend(state, e.1.as_str().as_bytes());
            state = fnv_extend_byte(state, FIELD_SEPARATOR);
            proof {
                assert(state == fp_entry(st0, s[i as int]));
                assert(s.skip(i as int)[0] == s[i as int]);
                assert(s.skip(i as int).drop_first() =~= s.skip(i + 1));
            }
            i = i + 1;
        }
        state
    }

    /// Convert into the outbound trigger event.
    pub fn into_trigger_event(self) -> (e: TriggerEvent)
        ensures
            is_trigger_event_of(e, self),
    {
        let key = self.dedup_key();
        let summary = truncated_summary(self.title.as_str());
        TriggerEvent {
            dedup_key: u64_to_decimal(key),
            severity: Severity::Critical,
            summary,
            source: self.source,
            component: self.component,
            custom_details: self.dedup_fields,
        }
    }

    /// Convert into the outbound resolve event, which carries nothing but
    /// the fingerprint in decimal form.
    pub fn to_resolve_event(&self) -> (e: ResolveEvent)
        ensures
            is_resolve_event_of(e, *self),
    {
        ResolveEvent { dedup_key: u64_to_decimal(self.dedup_key()) }
    }
}

/// What the outbound trigger event for an issue must hold.
pub open spec fn is_trigger_event_of(e: TriggerEvent, issue: PdIssue) -> bool {
    &&& e.dedup_key@ == dec_chars(fingerprint_of(issue.dedup_fields@) as nat)
    &&& e.severity == Severity::Critical
    &&& encode_utf8(e.summary@) == summary_bytes(encode_utf8(issue.title@))
    &&& (encode_utf8(issue.title@).len() <= MAX_SUMMARY_BYTES ==> e.summary@ == issue.title@)
    &&& e.source@ == issue.source@
    &&& e.component@ == issue.component@
    &&& e.custom_details@ == issue.dedup_fields@
}

/// What the outbound resolve event for an issue must hold.
pub open spec fn is_resolve_event_of(e: ResolveEvent, issue: PdIssue) -> bool {
    e.dedup_key@ == dec_chars(fingerprint_of(issue.dedup_fields@) as nat)
}

/// Determinism: issues with identical deduplication field entries have
/// identical fingerprints, whatever their titles or labels.
pub proof fn lemma_fingerprint_determinism(a: &PdIssue, b: &PdIssue)
    requires
        a.dedup_fields@ == b.dedup_fields@,
    ensures
        fingerprint_of(a.dedup_fields@) == fingerprint_of(b.dedup_fields@),
{
}

/// Order independence: field mappings holding the same key-value pairs —
/// in whatever order the pairs were inserted — have the same fingerprint.
pub proof fn lemma_fingerprint_order_independent(a: &PdIssue, b: &PdIssue)
    requires
        a.dedup_fields.wf(),
        b.dedup_fields.wf(),
        a.dedup_fields.as_map() == b.dedup_fields.as_map(),
    ensures
        fingerprint_of(a.dedup_fields@) == fingerprint_of(b.dedup_fields@),
{
    crate::fields::lemma_fields_canonical(&a.dedup_fields, &b.dedup_fields);
}

/// Empty fields: an empty mapping fingerprints to the fixed seed, so any
/// two issues with empty mappings share one reproducible fingerprint.
pub proof fn lemma_fingerprint_empty(a: &PdIssue, b: &PdIssue)
    requires
        a.dedup_fields@.len() == 0,
        b.dedup_fields@.len() == 0,
    ensures
        fingerprint_of(a.dedup_fields@) == fingerprint_seed(),
        fingerprint_of(a.dedup_fields@) == fingerprint_of(b.dedup_fields@),
{
}

} // verus!
