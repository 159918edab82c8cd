//! The orchestrated computation of one synchronization run: parse the
//! previous snapshot, extract records from upstream text, refuse the run on
//! a name collision, merge, and serialize. File reading and the atomic
//! replacement of the target file are the caller's concern; everything
//! here is a pure function of its inputs.

use vstd::prelude::*;

use crate::attribute::{
    attr_recs_view, lemma_lookup_attr_props, lookup_attr, unique_attr_names, AttrRec,
    AttributeRecord, AttributeSnapshot,
};
use crate::attribute_json::{
    attributes_from_json, fmt_attributes, format_attributes, parse_attributes,
};
use crate::extract::{
    extract_attr_recs, extract_attr_warnings, extract_attributes, extract_feature_recs,
    extract_feature_warnings, extract_features,
};
use crate::merge_attribute::{
    attr_additions_ok, attr_changes_ok, attr_merge_lookup, attr_removals_ok, merge_attributes,
    AttrMergeReport,
};
use crate::feature::{
    lemma_lookup_props, lookup, recs_view, unique_names, FeatureRec, FeatureRecord,
    FeatureSnapshot,
};
use crate::feature_json::{features_from_json, fmt_features, format_features, parse_features};
use crate::merge_feature::{
    additions_ok, changes_ok, merge_features, merge_lookup, removals_ok, strs_view,
    FeatureMergeReport,
};
use crate::order::str_eq;
use crate::text::split_on;

verus! {

/// Why a run wrote nothing; `R` is the run's record type.
pub enum PipelineError<R> {
    /// The previous snapshot file does not hold a canonical registry
    /// document.
    PreviousSnapshotInvalid,
    /// Two extracted declarations claim the same name; both conflicting
    /// entries are carried, in extraction order, and the run is refused so
    /// no partial registry is written.
    NameCollision(R, R),
}

/// The first name declared more than once, scanning left to right.
pub open spec fn find_dup(s: Seq<FeatureRec>) -> Option<Seq<char>>
    decreases s.len(),
{
    if s.len() == 0 {
        None
    } else if lookup(s.skip(1), s[0].name) is Some {
        Some(s[0].name)
    } else {
        find_dup(s.skip(1))
    }
}

/// No duplicate found means the names are unique.
pub proof fn lemma_find_dup_none(s: Seq<FeatureRec>)
    requires
        find_dup(s) is None,
    ensures
        unique_names(s),
    decreases s.len(),
{
    if s.len() > 0 {
        lemma_find_dup_none(s.skip(1));
        lemma_lookup_props(s.skip(1), s[0].name);
        assert forall|i: int, j: int| 0 <= i < j < s.len() implies (#[trigger] s[i].name) != (
        #[trigger] s[j].name) by {
            if i == 0 {
                assert(s.skip(1)[j - 1].name != s[0].name);
                assert(s.skip(1)[j - 1] == s[j]);
            } else {
                assert(s.skip(1)[i - 1] == s[i]);
                assert(s.skip(1)[j - 1] == s[j]);
            }
        }
    }
}

/// Finds the first two records claiming one name, if any.
fn find_dup_ex(v: &Vec<FeatureRecord>) -> (r: Option<(usize, usize)>)
    ensures
        match r {
            Some((i, j)) => {
                &&& i < j < v@.len()
                &&& recs_view(v@)[i as int].name == recs_view(v@)[j as int].name
                &&& find_dup(recs_view(v@)) == Some(recs_view(v@)[i as int].name)
            },
            None => find_dup(recs_view(v@)) is None,
        },
{
    let ghost sv = recs_view(v@);
    let n = v.len();
    let mut i: usize = 0;
    proof {
        assert(sv.skip(0) =~= sv);
    }
    while i < n
        invariant
            i <= n,
            n == v@.len(),
            sv == recs_view(v@),
            sv.len() == n,
            find_dup(sv) == find_dup(sv.skip(i as int)),
        decreases n - i,
    {
        proof {
            assert(sv[i as int] == v@[i as int]@);
        }
        let mut j: usize = i + 1;
        while j < n
            invariant
                i < j <= n,
                n == v@.len(),
                sv == recs_view(v@),
                sv.len() == n,
                find_dup(sv) == find_dup(sv.skip(i as int)),
                forall|k: int| i < k < j ==> (#[trigger] sv[k].name) != sv[i as int].name,
            decreases n - j,
        {
            proof {
                assert(sv[j as int] == v@[j as int]@);
                assert(sv[i as int] == v@[i as int]@);
            }
            if str_eq(v[j].name.as_str(), v[i].name.as_str()) {
                proof {
                    let tail = sv.skip(i as int).skip(1);
                    assert(tail =~= sv.skip(i + 1 as int));
                    assert(tail[j - i - 1] == sv[j as int]);
                    lemma_lookup_props(tail, sv[i as int].name);
                    if lookup(tail, sv[i as int].name) is None {
                        assert(tail[j - i - 1].name != sv[i as int].name);
                        assert(false);
                    }
                    assert(sv.skip(i as int)[0] == sv[i as int]);
                    assert(find_dup(sv.skip(i as int)) == Some(sv[i as int].name));
                }
                return Some((i, j));
            }
            j = j + 1;
        }
        proof {
            let tail = sv.skip(i as int).skip(1);
            assert(tail =~= sv.skip(i + 1 as int));
            lemma_lookup_props(tail, sv[i as int].name);
            if lookup(tail, sv[i as int].name) is Some {
                let r = lookup(tail, sv[i as int].name)->Some_0;
                let k = choose|k: int| 0 <= k < tail.len() && tail[k] == r;
                assert(tail[k] == sv[k + i + 1]);
                assert(sv[k + i + 1].name != sv[i as int].name);
                assert(false);
            }
            assert(sv.skip(i as int)[0] == sv[i as int]);
            assert(find_dup(sv.skip(i as int)) == find_dup(sv.skip(i + 1 as int)));
        }
        i = i + 1;
    }
    proof {
        assert(sv.skip(n as int) =~= Seq::<FeatureRec>::empty());
    }
    None
}

/// Everything one successful run produces.
pub struct FeatureSyncOutcome {
    /// The reconciled registry.
    pub snapshot: FeatureSnapshot,
    /// Its canonical serialized form, ready to replace the target file.
    pub output: String,
    /// What changed, for human review.
    pub report: FeatureMergeReport,
    /// Indexes of malformed source lines that were skipped.
    pub warnings: Vec<usize>,
}

/// One synchronization run of the feature registry.
///
/// `source` is the upstream declaration text; `previous` the bytes of the
/// current snapshot file, absent on the first run. On success the returned
/// output is the canonical serialization of the merged registry; on any
/// error nothing is produced, so the caller leaves the target file
/// untouched.
pub fn sync_features(source: &str, previous: Option<&str>) -> (r: Result<
    FeatureSyncOutcome,
    PipelineError<FeatureRecord>,
>)
    ensures
        ({
            let ext = extract_feature_recs(split_on(source@, '\n'));
            let prev_ok = match previous {
                Some(p) => parse_features(p@) is Some,
                None => true,
            };
            let prev_recs = match previous {
                None => Seq::<FeatureRec>::empty(),
                Some(p) => parse_features(p@)->Some_0,
            };
            match r {
                Err(PipelineError::PreviousSnapshotInvalid) => !prev_ok,
                Err(PipelineError::NameCollision(a, b)) => {
                    &&& prev_ok
                    &&& a@.name == b@.name
                    &&& find_dup(ext) == Some(a@.name)
                    &&& exists|i: int, j: int|
                        0 <= i < j < ext.len() && ext[i] == a@ && ext[j] == b@
                },
                Ok(o) => {
                    &&& prev_ok
                    &&& find_dup(ext) is None
                    &&& o.snapshot.wf()
                    &&& forall|n: Seq<char>|
                        #[trigger] lookup(o.snapshot@, n) == merge_lookup(prev_recs, ext, n)
                    &&& o.output@ == fmt_features(o.snapshot@)
                    &&& additions_ok(prev_recs, ext, strs_view(o.report.additions@))
                    &&& changes_ok(prev_recs, ext, o.report.changes@)
                    &&& removals_ok(prev_recs, ext, strs_view(o.report.removals@))
                    &&& o.warnings@.map_values(|u: usize| u as int) == extract_feature_warnings(
                        split_on(source@, '\n'),
                    )
                },
            }
        }),
{
    let prev_snap = match previous {
        None => FeatureSnapshot::empty(),
        Some(p) => match features_from_json(p) {
            None => {
                return Err(PipelineError::PreviousSnapshotInvalid);
            },
            Some(s) => s,
        },
    };
    let (ext_recs, warnings) = extract_features(source);
    proof {
        crate::extract::lemma_extract_feature_recs_ok(split_on(source@, '\n'));
    }
    match find_dup_ex(&ext_recs) {
        Some((i, j)) => {
            let first = ext_recs[i].duplicate();
            let second = ext_recs[j].duplicate();
            proof {
                let ev = recs_view(ext_recs@);
                assert(ev[i as int] == ext_recs@[i as int]@);
                assert(ev[j as int] == ext_recs@[j as int]@);
            }
            return Err(PipelineError::NameCollision(first, second));
        },
        None => {},
    }
    proof {
        lemma_find_dup_none(recs_view(ext_recs@));
    }
    let (snapshot, report) = merge_features(&prev_snap, &ext_recs);
    let output = format_features(&snapshot);
    Ok(FeatureSyncOutcome { snapshot, output, report, warnings })
}

/// The first attribute name declared more than once, scanning left to
/// right.
pub open spec fn find_attr_dup(s: Seq<AttrRec>) -> Option<Seq<char>>
    decreases s.len(),
{
    if s.len() == 0 {
        None
    } else if lookup_attr(s.skip(1), s[0].name) is Some {
        Some(s[0].name)
    } else {
        find_attr_dup(s.skip(1))
    }
}

/// No duplicate found means the names are unique.
pub proof fn lemma_find_attr_dup_none(s: Seq<AttrRec>)
    requires
        find_attr_dup(s) is None,
    ensures
        unique_attr_names(s),
    decreases s.len(),
{
    if s.len() > 0 {
        lemma_find_attr_dup_none(s.skip(1));
        lemma_lookup_attr_props(s.skip(1), s[0].name);
        assert forall|i: int, j: int| 0 <= i < j < s.len() implies (#[trigger] s[i].name) != (
        #[trigger] s[j].name) by {
            if i == 0 {
                assert(s.skip(1)[j - 1].name != s[0].name);
                assert(s.skip(1)[j - 1] == s[j]);
            } else {
                assert(s.skip(1)[i - 1] == s[i]);
                assert(s.skip(1)[j - 1] == s[j]);
            }
        }
    }
}

/// Finds the first two records claiming one name, if any.
fn find_attr_dup_ex(v: &Vec<AttributeRecord>) -> (r: Option<(usize, usize)>)
    ensures
        match r {
            Some((i, j)) => {
                &&& i < j < v@.len()
                &&& attr_recs_view(v@)[i as int].name == attr_recs_view(v@)[j as int].name
                &&& find_attr_dup(attr_recs_view(v@)) == Some(attr_recs_view(v@)[i as int].name)
            },
            None => find_attr_dup(attr_recs_view(v@)) is None,
        },
{
    let ghost sv = attr_recs_view(v@);
    let n = v.len();
    let mut i: usize = 0;
    proof {
        assert(sv.skip(0) =~= sv);
    }
    while i < n
        invariant
            i <= n,
            n == v@.len(),
            sv == attr_recs_view(v@),
            sv.len() == n,
            find_attr_dup(sv) == find_attr_dup(sv.skip(i as int)),
        decreases n - i,
    {
        proof {
            assert(sv[i as int] == v@[i as int]@);
        }
        let mut j: usize = i + 1;
        while j < n
            invariant
                i < j <= n,
                n == v@.len(),
                sv == attr_recs_view(v@),
                sv.len() == n,
                find_attr_dup(sv) == find_attr_dup(sv.skip(i as int)),
                forall|k: int| i < k < j ==> (#[trigger] sv[k].name) != sv[i as int].name,
            decreases n - j,
        {
            proof {
                assert(sv[j as int] == v@[j as int]@);
                assert(sv[i as int] == v@[i as int]@);
            }
            if str_eq(v[j].name.as_str(), v[i].name.as_str()) {
                proof {
                    let tail = sv.skip(i as int).skip(1);
                    assert(tail =~= sv.skip(i + 1 as int));
                    assert(tail[j - i - 1] == sv[j as int]);
                    lemma_lookup_attr_props(tail, sv[i as int].name);
                    if lookup_attr(tail, sv[i as int].name) is None {
                        assert(tail[j - i - 1].name != sv[i as int].name);
                        assert(false);
                    }
                    assert(sv.skip(i as int)[0] == sv[i as int]);
                    assert(find_attr_dup(sv.skip(i as int)) == Some(sv[i as int].name));
                }
                return Some((i, j));
            }
            j = j + 1;
        }
        proof {
            let tail = sv.skip(i as int).skip(1);
            assert(tail =~= sv.skip(i + 1 as int));
            lemma_lookup_attr_props(tail, sv[i as int].name);
            if lookup_attr(tail, sv[i as int].name) is Some {
                let r = lookup_attr(tail, sv[i as int].name)->Some_0;
                let k = choose|k: int| 0 <= k < tail.len() && tail[k] == r;
                assert(tail[k] == sv[k + i + 1]);
                assert(sv[k + i + 1].name != sv[i as int].name);
                assert(false);
            }
            assert(sv.skip(i as int)[0] == sv[i as int]);
            assert(find_attr_dup(sv.skip(i as int)) == find_attr_dup(sv.skip(i + 1 as int)));
        }
        i = i + 1;
    }
    proof {
        assert(sv.skip(n as int) =~= Seq::<AttrRec>::empty());
    }
    None
}

/// Everything one successful run produces.
pub struct AttrSyncOutcome {
    /// The reconciled registry.
    pub snapshot: AttributeSnapshot,
    /// Its canonical serialized form, ready to replace the target file.
    pub output: String,
    /// What changed, for human review.
    pub report: AttrMergeReport,
    /// Indexes of malformed source lines that were skipped.
    pub warnings: Vec<usize>,
}

/// One synchronization run of the builtin-attribute registry; the same
/// shape as the feature run.
pub fn sync_attributes(source: &str, previous: Option<&str>) -> (r: Result<
    AttrSyncOutcome,
    PipelineError<AttributeRecord>,
>)
    ensures
        ({
            let ext = extract_attr_recs(split_on(source@, '\n'));
            let prev_ok = match previous {
                Some(p) => parse_attributes(p@) is Some,
                None => true,
            };
            let prev_recs = match previous {
                None => Seq::<AttrRec>::empty(),
                Some(p) => parse_attributes(p@)->Some_0,
            };
            match r {
                Err(PipelineError::PreviousSnapshotInvalid) => !prev_ok,
                Err(PipelineError::NameCollision(a, b)) => {
                    &&& prev_ok
                    &&& a@.name == b@.name
                    &&& find_attr_dup(ext) == Some(a@.name)
                    &&& exists|i: int, j: int|
                        0 <= i < j < ext.len() && ext[i] == a@ && ext[j] == b@
                },
                Ok(o) => {
                    &&& prev_ok
                    &&& find_attr_dup(ext) is None
                    &&& o.snapshot.wf()
                    &&& forall|n: Seq<char>|
                        #[trigger] lookup_attr(o.snapshot@, n) == attr_merge_lookup(
                            prev_recs,
                            ext,
                            n,
                        )
                    &&& o.output@ == fmt_attributes(o.snapshot@)
                    &&& attr_additions_ok(prev_recs, ext, strs_view(o.report.additions@))
                    &&& attr_changes_ok(prev_recs, ext, o.report.changes@)
                    &&& attr_removals_ok(prev_recs, ext, strs_view(o.report.removals@))
                    &&& o.warnings@.map_values(|u: usize| u as int) == extract_attr_warnings(
                        split_on(source@, '\n'),
                    )
                },
            }
        }),
{
    let prev_snap = match previous {
        None => AttributeSnapshot::empty(),
        Some(p) => match attributes_from_json(p) {
            None => {
                return Err(PipelineError::PreviousSnapshotInvalid);
            },
            Some(s) => s,
        },
    };
    let (ext_recs, warnings) = extract_attributes(source);
    proof {
        crate::extract::lemma_extract_attr_recs_ok(split_on(source@, '\n'));
    }
    match find_attr_dup_ex(&ext_recs) {
        Some((i, j)) => {
            let first = ext_recs[i].duplicate();
            let second = ext_recs[j].duplicate();
            proof {
                let ev = attr_recs_view(ext_recs@);
                assert(ev[i as int] == ext_recs@[i as int]@);
                assert(ev[j as int] == ext_recs@[j as int]@);
            }
            return Err(PipelineError::NameCollision(first, second));
        },
        None => {},
    }
    proof {
        lemma_find_attr_dup_none(attr_recs_view(ext_recs@));
    }
    let (snapshot, report) = merge_attributes(&prev_snap, &ext_recs);
    let output = format_attributes(&snapshot);
    Ok(AttrSyncOutcome { snapshot, output, report, warnings })
}

} // verus!
