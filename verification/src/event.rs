//! Outbound event shapes handed to the dispatch layer.

use vstd::prelude::*;
use crate::fields::PdIssueFields;

verus! {

/// Urgency level attached to a trigger event.
#[derive(Clone, Copy, PartialEq, Eq, Structural, Debug)]
pub enum Severity {
    Critical,
    Error,
    Warning,
    Info,
}

/// Outbound event opening or re-raising an issue: carries the deduplication
/// key in decimal form, a fixed high urgency, the truncated summary, the
/// labels, and the deduplication fields as the custom-detail payload.
pub struct TriggerEvent {
    pub dedup_key: String,
    pub severity: Severity,
    pub summary: String,
    pub source: String,
    pub component: String,
    pub custom_details: PdIssueFields,
}

/// Outbound event closing a previously triggered issue: carries only the
/// deduplication key in decimal form.
pub struct ResolveEvent {
    pub dedup_key: String,
}

/// One outbound dispatch.
pub enum OutboundEvent {
    Trigger(TriggerEvent),
    Resolve(ResolveEvent),
}

} // verus!
