use attributes_info::attribute::{AttrTarget, AttrTemplate, AttributeRecord, AttributeSnapshot};
use attributes_info::attribute_json::{attributes_from_json, format_attributes};
use attributes_info::extract::extract_attributes;
use attributes_info::merge_attribute::merge_attributes;
use attributes_info::pipeline::{sync_attributes, PipelineError};

fn arec(
    name: &str,
    applies_to: Vec<AttrTarget>,
    template: Option<AttrTemplate>,
    is_deprecated: bool,
    is_internal: bool,
) -> AttributeRecord {
    AttributeRecord {
        name: String::from(name),
        applies_to,
        template,
        is_deprecated,
        is_internal,
    }
}

#[test]
fn format_attribute_exact_bytes() {
    let snap = AttributeSnapshot {
        records: vec![arec(
            "inline",
            vec![AttrTarget::Function],
            Some(AttrTemplate::Word),
            false,
            false,
        )],
    };
    assert_eq!(
        format_attributes(&snap),
        "[\n  {\"applies_to\":[\"fn\"],\"is_deprecated\":false,\"is_internal\":false,\"name\":\"inline\",\"template\":\"word\"}\n]\n"
    );
}

#[test]
fn attribute_round_trip() {
    let snap = AttributeSnapshot {
        records: vec![
            arec(
                "derive",
                vec![AttrTarget::Enum, AttrTarget::Struct],
                Some(AttrTemplate::List),
                false,
                false,
            ),
            arec("rustc_internal", vec![AttrTarget::Crate], None, true, true),
        ],
    };
    let text = format_attributes(&snap);
    let back = attributes_from_json(&text).expect("canonical form must parse");
    assert_eq!(back.records.len(), 2);
    assert_eq!(back.records[0].name, "derive");
    assert_eq!(back.records[0].applies_to, vec![AttrTarget::Enum, AttrTarget::Struct]);
    assert_eq!(back.records[0].template, Some(AttrTemplate::List));
    assert_eq!(back.records[1].name, "rustc_internal");
    assert!(back.records[1].is_deprecated);
    assert!(back.records[1].is_internal);
    assert_eq!(format_attributes(&back), text);
}

#[test]
fn attribute_parse_rejects_noncanonical_target_order() {
    let text = "[\n  {\"applies_to\":[\"struct\",\"enum\"],\"is_deprecated\":false,\"is_internal\":false,\"name\":\"derive\",\"template\":null}\n]\n";
    assert!(attributes_from_json(text).is_none());
}

#[test]
fn extract_attribute_lines() {
    let src = "# builtin attributes\nderive enum,struct list\ninline fn word -\nmust_use fn,struct,trait - deprecated\nbad kind\n";
    let (recs, warns) = extract_attributes(src);
    assert_eq!(recs.len(), 3);
    assert_eq!(recs[0].name, "derive");
    assert_eq!(recs[0].applies_to, vec![AttrTarget::Enum, AttrTarget::Struct]);
    assert_eq!(recs[0].template, Some(AttrTemplate::List));
    assert_eq!(recs[1].name, "inline");
    assert_eq!(recs[1].applies_to, vec![AttrTarget::Function]);
    assert_eq!(recs[2].name, "must_use");
    assert!(recs[2].is_deprecated);
    assert!(!recs[2].is_internal);
    assert_eq!(warns, vec![4]);
}

#[test]
fn extract_attribute_rejects_unordered_targets() {
    let (recs, warns) = extract_attributes("x struct,enum\n");
    assert_eq!(recs.len(), 0);
    assert_eq!(warns, vec![0]);
}

#[test]
fn attribute_merge_preserves_template() {
    let prev = AttributeSnapshot {
        records: vec![arec("cfg", vec![AttrTarget::Function], Some(AttrTemplate::List), false, false)],
    };
    let extracted = vec![arec("cfg", vec![AttrTarget::Function, AttrTarget::Struct], None, false, false)];
    let (snap, report) = merge_attributes(&prev, &extracted);
    assert_eq!(snap.records.len(), 1);
    assert_eq!(snap.records[0].template, Some(AttrTemplate::List));
    assert_eq!(
        snap.records[0].applies_to,
        vec![AttrTarget::Function, AttrTarget::Struct]
    );
    assert_eq!(report.changes.len(), 1);
    assert_eq!(report.changes[0].name, "cfg");
    assert!(report.changes[0].applies_to_changed);
    assert!(!report.changes[0].template_changed);
    assert!(!report.changes[0].is_deprecated_changed);
    assert!(!report.changes[0].is_internal_changed);
}

#[test]
fn attribute_merge_marks_vanished_stale() {
    let prev = AttributeSnapshot {
        records: vec![arec("gone", vec![AttrTarget::Module], None, false, false)],
    };
    let (snap, report) = merge_attributes(&prev, &Vec::new());
    assert_eq!(snap.records.len(), 1);
    assert_eq!(snap.records[0].name, "gone");
    assert!(snap.records[0].is_internal);
    assert!(!snap.records[0].is_deprecated);
    assert_eq!(report.removals, vec![String::from("gone")]);
}

#[test]
fn attribute_sync_idempotent() {
    let src = "derive enum,struct list\ninline fn word\n";
    let first = sync_attributes(src, None).ok().expect("first run");
    let second = sync_attributes(src, Some(&first.output)).ok().expect("second run");
    assert_eq!(second.output, first.output);
}

#[test]
fn attribute_sync_collision_with_both_entries() {
    let r = sync_attributes("dup fn\ndup struct\n", None);
    match r {
        Err(PipelineError::NameCollision(first, second)) => {
            assert_eq!(first.name, "dup");
            assert_eq!(second.name, "dup");
            assert_eq!(first.applies_to, vec![AttrTarget::Function]);
            assert_eq!(second.applies_to, vec![AttrTarget::Struct]);
        }
        _ => panic!("expected a collision"),
    }
}

#[test]
fn attribute_sync_addition_reported() {
    let seed = sync_attributes("inline fn word\n", None).ok().expect("seed");
    let next = sync_attributes("inline fn word\nmust_use fn,trait\n", Some(&seed.output))
        .ok()
        .expect("next");
    assert_eq!(next.report.additions, vec![String::from("must_use")]);
    assert_eq!(next.snapshot.records.len(), 2);
}
