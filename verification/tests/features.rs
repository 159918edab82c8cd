use attributes_info::feature::{FeatureRecord, FeatureSnapshot, FeatureStatus};
use attributes_info::feature_json::{features_from_json, format_features};
use attributes_info::extract::extract_features;
use attributes_info::merge_feature::merge_features;
use attributes_info::pipeline::{sync_features, PipelineError};

fn rec(
    name: &str,
    status: FeatureStatus,
    since: Option<&str>,
    tracking: Option<&str>,
    description: Option<&str>,
) -> FeatureRecord {
    FeatureRecord {
        name: String::from(name),
        status,
        since_version: since.map(String::from),
        tracking_issue: tracking.map(String::from),
        description: description.map(String::from),
    }
}

#[test]
fn format_empty_registry() {
    let snap = FeatureSnapshot { records: Vec::new() };
    assert_eq!(format_features(&snap), "[]\n");
}

#[test]
fn format_one_record_exact_bytes() {
    let snap = FeatureSnapshot {
        records: vec![rec("async_closures", FeatureStatus::Active, None, Some("62290"), None)],
    };
    assert_eq!(
        format_features(&snap),
        "[\n  {\"description\":null,\"name\":\"async_closures\",\"since_version\":null,\"status\":\"active\",\"tracking_issue\":\"62290\"}\n]\n"
    );
}

#[test]
fn round_trip_two_records() {
    let snap = FeatureSnapshot {
        records: vec![
            rec("alpha", FeatureStatus::Accepted, Some("1.0.0"), None, Some("first")),
            rec("beta", FeatureStatus::Incomplete, None, Some("77"), None),
        ],
    };
    let text = format_features(&snap);
    let back = features_from_json(&text).expect("canonical form must parse");
    assert_eq!(back.records.len(), 2);
    assert_eq!(back.records[0].name, "alpha");
    assert_eq!(back.records[0].status, FeatureStatus::Accepted);
    assert_eq!(back.records[0].since_version.as_deref(), Some("1.0.0"));
    assert_eq!(back.records[0].description.as_deref(), Some("first"));
    assert_eq!(back.records[1].name, "beta");
    assert_eq!(back.records[1].tracking_issue.as_deref(), Some("77"));
    assert_eq!(format_features(&back), text);
}

#[test]
fn parse_rejects_unsorted() {
    let snap = FeatureSnapshot {
        records: vec![
            rec("zeta", FeatureStatus::Active, None, None, None),
            rec("alpha", FeatureStatus::Active, None, None, None),
        ],
    };
    let text = format_features(&snap);
    assert!(features_from_json(&text).is_none());
}

#[test]
fn parse_rejects_unknown_status() {
    let text = "[\n  {\"description\":null,\"name\":\"x\",\"since_version\":null,\"status\":\"shiny\",\"tracking_issue\":null}\n]\n";
    assert!(features_from_json(text).is_none());
}

#[test]
fn extract_basic_lines() {
    let src = "# feature gates\nasync_closures active - 62290\ngenerators incomplete 1.21\n\nbad_line\n";
    let (recs, warns) = extract_features(src);
    assert_eq!(recs.len(), 2);
    assert_eq!(recs[0].name, "async_closures");
    assert_eq!(recs[0].status, FeatureStatus::Active);
    assert_eq!(recs[0].since_version, None);
    assert_eq!(recs[0].tracking_issue.as_deref(), Some("62290"));
    assert_eq!(recs[1].name, "generators");
    assert_eq!(recs[1].since_version.as_deref(), Some("1.21"));
    assert_eq!(recs[1].tracking_issue, None);
    // Only the lone malformed line is reported; blanks and comments are not.
    assert_eq!(warns, vec![4]);
}

#[test]
fn extract_skips_unknown_status_with_warning() {
    let (recs, warns) = extract_features("good active\nbad shiny\n");
    assert_eq!(recs.len(), 1);
    assert_eq!(recs[0].name, "good");
    assert_eq!(warns, vec![1]);
}

#[test]
fn merge_preserves_curated_fields() {
    // The spec scenario: a curated tracking issue survives a status change.
    let prev = FeatureSnapshot {
        records: vec![rec("async_closures", FeatureStatus::Active, None, Some("62290"), None)],
    };
    let extracted = vec![rec("async_closures", FeatureStatus::Accepted, None, None, None)];
    let (snap, report) = merge_features(&prev, &extracted);
    assert_eq!(snap.records.len(), 1);
    assert_eq!(snap.records[0].status, FeatureStatus::Accepted);
    assert_eq!(snap.records[0].tracking_issue.as_deref(), Some("62290"));
    assert_eq!(report.additions.len(), 0);
    assert_eq!(report.removals.len(), 0);
    assert_eq!(report.changes.len(), 1);
    assert_eq!(report.changes[0].name, "async_closures");
    assert!(report.changes[0].status_changed);
    assert!(!report.changes[0].tracking_issue_changed);
}

#[test]
fn merge_detects_additions() {
    let prev = FeatureSnapshot {
        records: vec![rec("old_gate", FeatureStatus::Accepted, None, None, None)],
    };
    let extracted = vec![
        rec("new_gate", FeatureStatus::Active, None, None, None),
        rec("old_gate", FeatureStatus::Accepted, None, None, None),
    ];
    let (snap, report) = merge_features(&prev, &extracted);
    assert_eq!(report.additions, vec![String::from("new_gate")]);
    assert_eq!(snap.records.len(), 2);
    assert_eq!(snap.records[0].name, "new_gate");
    assert_eq!(snap.records[1].name, "old_gate");
}

#[test]
fn merge_retains_removed_with_terminal_status() {
    let prev = FeatureSnapshot {
        records: vec![rec("vanished", FeatureStatus::Active, Some("1.0"), Some("9"), Some("d"))],
    };
    let extracted: Vec<FeatureRecord> = Vec::new();
    let (snap, report) = merge_features(&prev, &extracted);
    assert_eq!(snap.records.len(), 1);
    assert_eq!(snap.records[0].name, "vanished");
    assert_eq!(snap.records[0].status, FeatureStatus::Removed);
    assert_eq!(snap.records[0].since_version.as_deref(), Some("1.0"));
    assert_eq!(snap.records[0].tracking_issue.as_deref(), Some("9"));
    assert_eq!(snap.records[0].description.as_deref(), Some("d"));
    assert_eq!(report.removals, vec![String::from("vanished")]);
}

#[test]
fn sync_is_idempotent() {
    let src = "beta incomplete - 7\nalpha active 1.0\n";
    let first = sync_features(src, None).ok().expect("first run succeeds");
    let second = sync_features(src, Some(&first.output)).ok().expect("second run succeeds");
    assert_eq!(second.output, first.output);
}

#[test]
fn sync_is_order_insensitive() {
    let prev_run = sync_features("base accepted\n", None).ok().expect("seed run");
    let one = sync_features("a active\nb removed\n", Some(&prev_run.output)).ok().expect("run");
    let two = sync_features("b removed\na active\n", Some(&prev_run.output)).ok().expect("run");
    assert_eq!(one.output, two.output);
}

#[test]
fn sync_rejects_name_collision_with_both_entries() {
    let r = sync_features("twice active\ntwice accepted\n", None);
    match r {
        Err(PipelineError::NameCollision(first, second)) => {
            assert_eq!(first.name, "twice");
            assert_eq!(second.name, "twice");
            assert_eq!(first.status, FeatureStatus::Active);
            assert_eq!(second.status, FeatureStatus::Accepted);
        }
        _ => panic!("expected a collision"),
    }
}

#[test]
fn merge_keeps_curated_over_empty_replacement() {
    // An explicitly supplied empty value is no replacement: only a
    // non-empty one wins.
    let prev = FeatureSnapshot {
        records: vec![rec("gate", FeatureStatus::Active, None, Some("62290"), Some("note"))],
    };
    let extracted = vec![rec("gate", FeatureStatus::Active, None, Some(""), Some(""))];
    let (snap, report) = merge_features(&prev, &extracted);
    assert_eq!(snap.records[0].tracking_issue.as_deref(), Some("62290"));
    assert_eq!(snap.records[0].description.as_deref(), Some("note"));
    assert_eq!(report.changes.len(), 0);
    let replaced = vec![rec("gate", FeatureStatus::Active, None, Some("999"), None)];
    let (snap2, report2) = merge_features(&prev, &replaced);
    assert_eq!(snap2.records[0].tracking_issue.as_deref(), Some("999"));
    assert_eq!(snap2.records[0].description.as_deref(), Some("note"));
    assert_eq!(report2.changes.len(), 1);
    assert!(report2.changes[0].tracking_issue_changed);
    assert!(!report2.changes[0].description_changed);
}

#[test]
fn sync_rejects_bad_previous_snapshot() {
    let r = sync_features("ok active\n", Some("not json at all"));
    assert!(matches!(r, Err(PipelineError::PreviousSnapshotInvalid)));
}

#[test]
fn sync_empty_source_first_run() {
    let o = sync_features("", None).ok().expect("empty run succeeds");
    assert_eq!(o.output, "[]\n");
    assert_eq!(o.warnings.len(), 0);
    assert_eq!(o.report.additions.len(), 0);
}

#[test]
fn parse_empty_registry() {
    let snap = features_from_json("[]\n").expect("empty document parses");
    assert_eq!(snap.records.len(), 0);
}

#[test]
fn sync_reports_warnings_but_continues() {
    let o = sync_features("good active\nnot-a-gate???\"\n", None).ok().expect("run succeeds");
    assert_eq!(o.warnings, vec![1]);
    assert_eq!(o.snapshot.records.len(), 1);
    assert_eq!(o.snapshot.records[0].name, "good");
}
