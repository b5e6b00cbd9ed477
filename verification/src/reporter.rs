//! The batch reporter: accumulates issues to trigger and to resolve, and on
//! finish turns them into a flush plan.
//!
//! The reporter itself never touches the network. `finish` consumes the
//! reporter and returns either a dry-run marker (no credential configured)
//! or the credential together with the full list of outbound events, one per
//! queued issue, triggers first and resolves after, each in enqueue order.
//! An I/O layer dispatches the events concurrently and feeds the outcomes
//! back through [`first_failure`].

use vstd::prelude::*;
use crate::event::OutboundEvent;
use crate::issue::{is_resolve_event_of, is_trigger_event_of, PdIssue};

verus! {

/// What a finished reporter asks the dispatch layer to do.
pub enum FlushPlan {
    /// No credential was configured: nothing may be sent.
    DryRun,
    /// Dispatch every event against a client bound to the credential.
    Dispatch { api_key: String, events: Vec<OutboundEvent> },
}

/// The view of an optional credential.
pub open spec fn key_view(k: Option<String>) -> Option<Seq<char>> {
    match k {
        Option::Some(s) => Option::Some(s@),
        Option::None => Option::None,
    }
}

/// Accumulates issues and flushes them as one batch.
pub struct PdReporter {
    pagerduty_api_key: Option<String>,
    to_trigger: Vec<PdIssue>,
    to_resolve: Vec<PdIssue>,
}

impl PdReporter {
    /// The credential the reporter was constructed with.
    pub closed spec fn spec_api_key(&self) -> Option<Seq<char>> {
        key_view(self.pagerduty_api_key)
    }

    /// The issues queued for triggering, in enqueue order.
    pub closed spec fn queued_triggers(&self) -> Seq<PdIssue> {
        self.to_trigger@
    }

    /// The issues queued for resolving, in enqueue order.
    pub closed spec fn queued_resolves(&self) -> Seq<PdIssue> {
        self.to_resolve@
    }

    /// Construct a reporter. Never fails; stores the credential untouched
    /// and opens no connection.
    pub fn new(pagerduty_api_key: Option<String>) -> (r: PdReporter)
        ensures
            r.spec_api_key() == key_view(pagerduty_api_key),
            r.queued_triggers() == Seq::<PdIssue>::empty(),
            r.queued_resolves() == Seq::<PdIssue>::empty(),
    {
        let r = PdReporter { pagerduty_api_key, to_trigger: Vec::new(), to_resolve: Vec::new() };
        proof {
            assert(r.queued_triggers() =~= Seq::<PdIssue>::empty());
            assert(r.queued_resolves() =~= Seq::<PdIssue>::empty());
        }
        r
    }

    /// Queue an issue for triggering. In-memory append only.
    pub fn trigger(&mut self, issue: PdIssue)
        ensures
            final(self).queued_triggers() == old(self).queued_triggers().push(issue),
            final(self).queued_resolves() == old(self).queued_resolves(),
            final(self).spec_api_key() == old(self).spec_api_key(),
    {
        self.to_trigger.push(issue);
    }

    /// Queue an issue for resolving. In-memory append only.
    pub fn resolve(&mut self, issue: PdIssue)
        ensures
            final(self).queued_resolves() == old(self).queued_resolves().push(issue),
            final(self).queued_triggers() == old(self).queued_triggers(),
            final(self).spec_api_key() == old(self).spec_api_key(),
    {
        self.to_resolve.push(issue);
    }

    /// Consume the reporter and produce the flush plan: a dry run exactly
    /// when no credential was configured, and otherwise one outbound event
    /// per queued issue — every trigger in enqueue order, then every resolve
    /// in enqueue order.
    pub fn finish(self) -> (p: FlushPlan)
        ensures
            p is DryRun <==> self.spec_api_key() is None,
            p matches FlushPlan::Dispatch { api_key, events } ==> ({
                &&& Option::Some(api_key@) == self.spec_api_key()
                &&& events@.len() == self.queued_triggers().len() + self.queued_resolves().len()
                &&& forall|i: int|
                    0 <= i < self.queued_triggers().len() ==> ((#[trigger] events@[i]) matches
                        OutboundEvent::Trigger(ev) && is_trigger_event_of(
                        ev,
                        self.queued_triggers()[i],
                    ))
                &&& forall|j: int|
                    0 <= j < self.queued_resolves().len() ==> ((#[trigger] events@[self.queued_triggers().len() + j]) matches
                        OutboundEvent::Resolve(ev) && is_resolve_event_of(
                        ev,
                        self.queued_resolves()[j],
                    ))
            }),
    {
        let PdReporter { pagerduty_api_key, to_trigger, to_resolve } = self;
        match pagerduty_api_key {
            Option::None => FlushPlan::DryRun,
            Option::Some(key) => {
                let ghost ts = to_trigger@;
                let ghost rs = to_resolve@;
                let mut events: Vec<OutboundEvent> = Vec::new();
                let mut tq = to_trigger;
                proof {
                    assert(ts.skip(0) =~= ts);
                }
                while tq.len() > 0
                    invariant
                        events@.len() + tq@.len() == ts.len(),
                        tq@ == ts.skip(events@.len() as int),
                        forall|i: int|
                            0 <= i < events@.len() ==> ((#[trigger] events@[i]) matches
                                OutboundEvent::Trigger(ev) && is_trigger_event_of(ev, ts[i])),
                    decreases tq@.len(),
                {
                    let ghost done = events@.len() as int;
                    let issue = tq.remove(0);
                    proof {
                        assert(issue == ts[done]);
                        assert(tq@ =~= ts.skip(done + 1));
                    }
                    events.push(OutboundEvent::Trigger(issue.into_trigger_event()));
                }
                let mut rq = to_resolve;
                proof {
                    assert(rs.skip(0) =~= rs);
                }
                while rq.len() > 0
                    invariant
                        ts.len() <= events@.len() <= ts.len() + rs.len(),
                        events@.len() == ts.len() + rs.len() - rq@.len(),
                        rq@ == rs.skip(events@.len() - ts.len()),
                        forall|i: int|
                            0 <= i < ts.len() ==> ((#[trigger] events@[i]) matches
                                OutboundEvent::Trigger(ev) && is_trigger_event_of(ev, ts[i])),
                        forall|j: int|
                            0 <= j < events@.len() - ts.len() ==> ((#[trigger] events@[ts.len()
                                + j]) matches OutboundEvent::Resolve(ev) && is_resolve_event_of(
                                ev,
                                rs[j],
                            )),
                    decreases rq@.len(),
                {
                    let ghost done: int = events@.len() - ts.len();
                    proof {
                        assert(0 <= done < rs.len());
                        assert(rq@ == rs.skip(done));
                    }
                    let issue = rq.remove(0);
                    proof {
                        assert(rs.skip(done)[0] == rs[done]);
                        assert(issue == rs[done]);
                        assert(rq@ =~= rs.skip(done + 1));
                    }
                    events.push(OutboundEvent::Resolve(issue.to_resolve_event()));
                }
                FlushPlan::Dispatch { api_key: key, events }
            },
        }
    }
}

/// Aggregate the outcomes of the dispatched events: success exactly when
/// every dispatch succeeded, and otherwise the first failure encountered,
/// in dispatch order.
pub fn first_failure<E>(results: Vec<Result<(), E>>) -> (r: Result<(), E>)
    ensures
        r is Ok <==> (forall|i: int| 0 <= i < results@.len() ==> (#[trigger] results@[i]) is Ok),
        r matches Err(e) ==> (exists|i: int|
            0 <= i < results@.len() && (#[trigger] results@[i]) == Err::<(), E>(e) && (forall|
                j: int,
            | 0 <= j < i ==> (#[trigger] results@[j]) is Ok)),
{
    let n = results.len();
    let mut i: usize = 0;
    loop
        invariant_except_break
            i <= n,
            n == results@.len(),
            forall|j: int| 0 <= j < i ==> (#[trigger] results@[j]) is Ok,
        ensures
            i <= n,
            n == results@.len(),
            forall|j: int| 0 <= j < i ==> (#[trigger] results@[j]) is Ok,
            i < n ==> results@[i as int] is Err,
        decreases n - i,
    {
        if i == n {
            break;
        }
        let is_err = match &results[i] {
            Result::Ok(_) => false,
            Result::Err(_) => true,
        };
        if is_err {
            break;
        }
        i = i + 1;
    }
    if i == n {
        return Result::Ok(());
    }
    let mut rs = results;
    let taken = rs.remove(i);
    match taken {
        Result::Err(e) => Result::Err(e),
        Result::Ok(u) => {
            proof {
                assert(false);
            }
            Result::Ok(u)
        },
    }
}

} // verus!
