use klaxon::{FlushPlan, OutboundEvent, PdIssue, PdIssueFields, PdReporter, Severity};

fn fields_of(pairs: &[(&str, &str)]) -> PdIssueFields {
    let mut f = PdIssueFields::new();
    for (k, v) in pairs {
        f.insert(k.to_string(), v.to_string());
    }
    f
}

fn issue(title: &str, source: &str, component: &str, pairs: &[(&str, &str)]) -> PdIssue {
    PdIssue {
        title: title.to_string(),
        source: source.to_string(),
        component: component.to_string(),
        dedup_fields: fields_of(pairs),
    }
}

#[test]
fn fingerprint_ignores_display_fields() {
    let a = issue("disk full", "host-a", "sda", &[("host", "a"), ("disk", "sda")]);
    let b = issue("disk still full", "host-b", "sdb", &[("host", "a"), ("disk", "sda")]);
    assert_eq!(a.dedup_key(), b.dedup_key());
}

#[test]
fn fingerprint_sensitive_to_value_change() {
    let a = issue("t", "s", "c", &[("host", "a")]);
    let b = issue("t", "s", "c", &[("host", "b")]);
    assert_ne!(a.dedup_key(), b.dedup_key());
}

#[test]
fn fingerprint_sensitive_to_key_change() {
    let a = issue("t", "s", "c", &[("host", "a")]);
    let b = issue("t", "s", "c", &[("host2", "a")]);
    assert_ne!(a.dedup_key(), b.dedup_key());
}

#[test]
fn fingerprint_sensitive_to_extra_key() {
    let a = issue("t", "s", "c", &[("host", "a")]);
    let b = issue("t", "s", "c", &[("host", "a"), ("disk", "sda")]);
    assert_ne!(a.dedup_key(), b.dedup_key());
}

#[test]
fn fingerprint_sensitive_to_key_value_split() {
    let a = issue("t", "s", "c", &[("ab", "c")]);
    let b = issue("t", "s", "c", &[("a", "bc")]);
    assert_ne!(a.dedup_key(), b.dedup_key());
}

#[test]
fn fingerprint_insertion_order_independent() {
    let a = issue("t", "s", "c", &[("x", "1"), ("y", "2"), ("z", "3")]);
    let b = issue("t", "s", "c", &[("z", "3"), ("x", "1"), ("y", "2")]);
    assert_eq!(a.dedup_key(), b.dedup_key());
}

#[test]
fn fingerprint_pure_on_repeated_calls() {
    let a = issue("t", "s", "c", &[("host", "a")]);
    assert_eq!(a.dedup_key(), a.dedup_key());
}

#[test]
fn empty_fields_fingerprint_reproducible() {
    let a = issue("one", "s1", "c1", &[]);
    let b = issue("two", "s2", "c2", &[]);
    assert_eq!(a.dedup_key(), b.dedup_key());
    assert_eq!(a.dedup_key(), a.dedup_key());
}

#[test]
fn insert_replaces_existing_key() {
    let a = issue("t", "s", "c", &[("host", "old"), ("host", "new")]);
    let b = issue("t", "s", "c", &[("host", "new")]);
    assert_eq!(a.dedup_key(), b.dedup_key());
    assert_eq!(a.dedup_fields.len(), 1);
    let entries = a.dedup_fields.entries();
    assert_eq!(entries[0].0, "host");
    assert_eq!(entries[0].1, "new");
}

#[test]
fn entries_come_out_sorted_by_key() {
    let f = fields_of(&[("b", "2"), ("c", "3"), ("a", "1")]);
    let keys: Vec<&str> = f.entries().iter().map(|e| e.0.as_str()).collect();
    assert_eq!(keys, vec!["a", "b", "c"]);
}

#[test]
fn short_title_passes_through() {
    let title = "a".repeat(1024);
    let a = issue(&title, "s", "c", &[]);
    let ev = a.into_trigger_event();
    assert_eq!(ev.summary, title);
}

#[test]
fn long_title_truncated_to_budget() {
    let title = "a".repeat(2000);
    let a = issue(&title, "s", "c", &[]);
    let ev = a.into_trigger_event();
    assert_eq!(ev.summary.len(), 1024);
    assert!(ev.summary.ends_with("..."));
    assert_eq!(&ev.summary[..1021], &title[..1021]);
}

#[test]
fn multibyte_title_rounds_down_to_char_boundary() {
    let mut title = "a".repeat(1020);
    title.push('\u{20ac}');
    title.push('\u{20ac}');
    assert_eq!(title.len(), 1026);
    let a = issue(&title, "s", "c", &[]);
    let ev = a.into_trigger_event();
    assert_eq!(ev.summary.len(), 1023);
    assert!(ev.summary.ends_with("..."));
    assert_eq!(&ev.summary[..1020], &title[..1020]);
}

#[test]
fn trigger_event_carries_issue_content() {
    let a = issue("t", "src", "comp", &[("host", "a")]);
    let key = a.dedup_key();
    let ev = a.into_trigger_event();
    assert_eq!(ev.dedup_key, format!("{}", key));
    assert!(ev.severity == Severity::Critical);
    assert_eq!(ev.source, "src");
    assert_eq!(ev.component, "comp");
    let entries = ev.custom_details.entries();
    assert_eq!(entries.len(), 1);
    assert_eq!(entries[0].0, "host");
    assert_eq!(entries[0].1, "a");
}

#[test]
fn resolve_event_carries_only_fingerprint() {
    let a = issue("raised", "s", "c", &[("host", "a")]);
    let b = issue("cleared", "other", "other", &[("host", "a")]);
    let rv = b.to_resolve_event();
    assert_eq!(rv.dedup_key, format!("{}", a.dedup_key()));
}

#[test]
fn dry_run_without_credential() {
    let mut reporter = PdReporter::new(None);
    reporter.trigger(issue("t", "s", "c", &[("k", "v")]));
    reporter.resolve(issue("t2", "s", "c", &[("k", "w")]));
    let plan = reporter.finish();
    assert!(matches!(plan, FlushPlan::DryRun));
}

#[test]
fn dry_run_with_no_issues() {
    let reporter = PdReporter::new(None);
    assert!(matches!(reporter.finish(), FlushPlan::DryRun));
}

#[test]
fn flush_plan_has_one_event_per_issue() {
    let mut reporter = PdReporter::new(Some("routing-key-1".to_string()));
    let t1 = issue("t1", "s", "c", &[("n", "1")]);
    let t2 = issue("t2", "s", "c", &[("n", "2")]);
    let r1 = issue("r1", "s", "c", &[("n", "3")]);
    let k1 = t1.dedup_key();
    let k2 = t2.dedup_key();
    let k3 = r1.dedup_key();
    reporter.trigger(t1);
    reporter.trigger(t2);
    reporter.resolve(r1);
    match reporter.finish() {
        FlushPlan::DryRun => panic!("expected a dispatch plan"),
        FlushPlan::Dispatch { api_key, events } => {
            assert_eq!(api_key, "routing-key-1");
            assert_eq!(events.len(), 3);
            match &events[0] {
                OutboundEvent::Trigger(ev) => {
                    assert_eq!(ev.dedup_key, format!("{}", k1));
                    assert_eq!(ev.summary, "t1");
                }
                _ => panic!("expected a trigger event first"),
            }
            match &events[1] {
                OutboundEvent::Trigger(ev) => assert_eq!(ev.dedup_key, format!("{}", k2)),
                _ => panic!("expected a trigger event second"),
            }
            match &events[2] {
                OutboundEvent::Resolve(ev) => assert_eq!(ev.dedup_key, format!("{}", k3)),
                _ => panic!("expected a resolve event last"),
            }
        }
    }
}

#[test]
fn flush_plan_empty_with_credential() {
    let reporter = PdReporter::new(Some("routing-key-1".to_string()));
    match reporter.finish() {
        FlushPlan::Dispatch { events, .. } => assert!(events.is_empty()),
        FlushPlan::DryRun => panic!("expected a dispatch plan"),
    }
}

#[test]
fn first_failure_ok_when_all_succeed() {
    let results: Vec<Result<(), String>> = vec![Ok(()), Ok(()), Ok(())];
    assert!(klaxon::first_failure(results).is_ok());
}

#[test]
fn first_failure_ok_on_empty() {
    let results: Vec<Result<(), String>> = vec![];
    assert!(klaxon::first_failure(results).is_ok());
}

#[test]
fn first_failure_returns_first_error() {
    let results: Vec<Result<(), String>> =
        vec![Ok(()), Err("boom".to_string()), Err("later".to_string())];
    assert_eq!(klaxon::first_failure(results), Err("boom".to_string()));
}

#[test]
fn decimal_rendering_exact() {
    let a = issue("t", "s", "c", &[]);
    let key = a.dedup_key();
    let ev = a.to_resolve_event();
    assert_eq!(ev.dedup_key, key.to_string());
    assert_eq!(ev.dedup_key.parse::<u64>().unwrap(), key);
}
