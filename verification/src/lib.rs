//! A small client-side batching layer for reporting issues (alert trigger and
//! resolve events) to an incident-management backend.
//!
//! Issues carry a deduplication field map; a stable 64-bit fingerprint is
//! derived from those fields alone, so that a later resolve matches an earlier
//! trigger even when the human-readable fields changed in between. A reporter
//! accumulates issues and, on finish, turns them into a flush plan that an
//! I/O layer dispatches.

pub mod bytes;
pub mod event;
pub mod fields;
pub mod hash;
pub mod issue;
pub mod reporter;
pub mod text;

pub use event::{OutboundEvent, ResolveEvent, Severity, TriggerEvent};
pub use fields::PdIssueFields;
pub use issue::PdIssue;
pub use reporter::{first_failure, FlushPlan, PdReporter};
