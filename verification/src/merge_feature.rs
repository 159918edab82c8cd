//! Reconciliation of freshly extracted feature records against the previous
//! snapshot: extractor-owned fields are overwritten, curated fields are
//! preserved, vanished records are retired in place, and the result depends
//! only on which records were extracted, never on their order.

use vstd::prelude::*;

use crate::feature::{
    feature_rec_ok, feature_snapshot_wf, lemma_lookup_at_index, lemma_lookup_props,
    lemma_sorted_unique_names, lookup, opt_view, recs_view, unique_names, FeatureRec,
    FeatureRecord, FeatureSnapshot, FeatureStatus,
};
use crate::order::{lex_lt, lemma_lex_total, lemma_lex_neq, lemma_lex_trans, str_eq, str_lt};

verus! {

/// A curated value the extractor explicitly supplies: only a non-empty
/// replacement wins; an absent or empty value leaves the previous one.
pub open spec fn supplied(o: Option<Seq<char>>) -> bool {
    match o {
        Some(s) => s.len() > 0,
        None => false,
    }
}

/// Field-by-field reconciliation of one name present on both sides: the
/// extractor owns name, status and since-version; tracking issue and
/// description are curated and only replaced when the extractor explicitly
/// supplies a non-empty value.
pub open spec fn merged_record(p: FeatureRec, e: FeatureRec) -> FeatureRec {
    FeatureRec {
        name: e.name,
        status: e.status,
        since_version: e.since_version,
        tracking_issue: if supplied(e.tracking_issue) {
            e.tracking_issue
        } else {
            p.tracking_issue
        },
        description: if supplied(e.description) {
            e.description
        } else {
            p.description
        },
    }
}

/// A record that vanished upstream is retained with a terminal status,
/// never deleted, so downstream consumers can observe history.
pub open spec fn retired_record(p: FeatureRec) -> FeatureRec {
    FeatureRec { status: FeatureStatus::Removed, ..p }
}

/// What the merged registry holds under each name.
pub open spec fn merge_lookup(prev: Seq<FeatureRec>, ext: Seq<FeatureRec>, n: Seq<char>) -> Option<
    FeatureRec,
> {
    match (lookup(prev, n), lookup(ext, n)) {
        (Some(p), Some(e)) => Some(merged_record(p, e)),
        (Some(p), None) => Some(retired_record(p)),
        (None, Some(e)) => Some(e),
        (None, None) => None,
    }
}

/// The fate of a previous record under a full extraction.
pub open spec fn phase_a_rec(p: FeatureRec, ext: Seq<FeatureRec>) -> FeatureRec {
    match lookup(ext, p.name) {
        Some(e) => merged_record(p, e),
        None => retired_record(p),
    }
}

/// The merged contents after only the first `j` extracted records have been
/// considered for insertion.
pub open spec fn merge_lookup_partial(
    prev: Seq<FeatureRec>,
    ext: Seq<FeatureRec>,
    j: int,
    n: Seq<char>,
) -> Option<FeatureRec> {
    if lookup(prev, n) is Some {
        merge_lookup(prev, ext, n)
    } else if lookup(ext.take(j), n) is Some {
        lookup(ext, n)
    } else {
        None
    }
}

/// Looking up in a sequence extended by one record.
pub proof fn lemma_lookup_push(s: Seq<FeatureRec>, x: FeatureRec, n: Seq<char>)
    ensures
        lookup(s.push(x), n) == match lookup(s, n) {
            Some(r) => Some(r),
            None => if x.name == n {
                Some(x)
            } else {
                None
            },
        },
    decreases s.len(),
{
    let sp = s.push(x);
    if s.len() == 0 {
        assert(sp[0] == x);
        assert(sp.len() == 1);
        if x.name != n {
            assert(sp.skip(1) =~= Seq::<FeatureRec>::empty());
        }
    } else {
        assert(sp[0] == s[0]);
        assert(sp.skip(1) =~= s.skip(1).push(x));
        lemma_lookup_push(s.skip(1), x, n);
        if s[0].name == n {
            assert(lookup(sp, n) == Some(s[0]));
            assert(lookup(s, n) == Some(s[0]));
        } else {
            assert(lookup(sp, n) == lookup(sp.skip(1), n));
            assert(lookup(s, n) == lookup(s.skip(1), n));
        }
    }
}

/// Copies an optional string.
fn clone_opt(o: &Option<String>) -> (r: Option<String>)
    ensures
        opt_view(r) == opt_view(*o),
{
    match o {
        None => None,
        Some(s) => Some(s.clone()),
    }
}

/// Exec counterpart of [`supplied`].
fn is_supplied(o: &Option<String>) -> (r: bool)
    ensures
        r == supplied(opt_view(*o)),
{
    match o {
        Some(s) => s.as_str().unicode_len() > 0,
        None => false,
    }
}

/// Reconciles one record present on both sides.
fn merge_one(p: &FeatureRecord, e: &FeatureRecord) -> (r: FeatureRecord)
    ensures
        r@ == merged_record(p@, e@),
{
    FeatureRecord {
        name: e.name.clone(),
        status: e.status,
        since_version: clone_opt(&e.since_version),
        tracking_issue: if is_supplied(&e.tracking_issue) {
            clone_opt(&e.tracking_issue)
        } else {
            clone_opt(&p.tracking_issue)
        },
        description: if is_supplied(&e.description) {
            clone_opt(&e.description)
        } else {
            clone_opt(&p.description)
        },
    }
}

/// Retires one record that was not extracted.
fn retire_one(p: &FeatureRecord) -> (r: FeatureRecord)
    ensures
        r@ == retired_record(p@),
{
    let mut c = p.duplicate();
    c.status = FeatureStatus::Removed;
    c
}

/// Finds the record with the given name, when names are unique.
pub fn find_by_name(v: &Vec<FeatureRecord>, name: &str) -> (r: Option<usize>)
    requires
        unique_names(recs_view(v@)),
    ensures
        match r {
            Some(idx) => {
                &&& idx < v@.len()
                &&& recs_view(v@)[idx as int].name == name@
                &&& lookup(recs_view(v@), name@) == Some(recs_view(v@)[idx as int])
            },
            None => lookup(recs_view(v@), name@) is None,
        },
{
    let ghost sv = recs_view(v@);
    let n = v.len();
    let mut i: usize = 0;
    while i < n
        invariant
            i <= n,
            n == v@.len(),
            sv == recs_view(v@),
            sv.len() == n,
            unique_names(sv),
            forall|k: int| 0 <= k < i ==> (#[trigger] sv[k].name) != name@,
        decreases n - i,
    {
        if str_eq(v[i].name.as_str(), name) {
            proof {
                assert(sv[i as int].name == v@[i as int]@.name);
                lemma_lookup_at_index(sv, i as int);
            }
            return Some(i);
        }
        proof {
            assert(sv[i as int].name == v@[i as int]@.name);
        }
        i = i + 1;
    }
    proof {
        lemma_lookup_props(sv, name@);
        if lookup(sv, name@) is Some {
            let r = lookup(sv, name@)->Some_0;
            let k = choose|k: int| 0 <= k < sv.len() && sv[k] == r;
            assert(sv[k].name != name@);
            assert(false);
        }
    }
    None
}

/// Merges the extracted records into the previous snapshot.
///
/// Every name of either side survives: both-sided names get the field-level
/// reconciliation, names only extracted are inserted in name order, and
/// names that vanished upstream are retired in place.
#[verifier::rlimit(100)]
pub fn merge_records(prev: &FeatureSnapshot, extracted: &Vec<FeatureRecord>) -> (out: Vec<
    FeatureRecord,
>)
    requires
        prev.wf(),
        unique_names(recs_view(extracted@)),
        forall|k: int|
            0 <= k < extracted@.len() ==> feature_rec_ok(#[trigger] recs_view(extracted@)[k]),
    ensures
        feature_snapshot_wf(recs_view(out@)),
        forall|n: Seq<char>|
            #[trigger] lookup(recs_view(out@), n) == merge_lookup(
                prev@,
                recs_view(extracted@),
                n,
            ),
{
    let ghost pv = prev@;
    let ghost ev = recs_view(extracted@);
    proof {
        assert(pv =~= recs_view(prev.records@));
        lemma_sorted_unique_names(pv);
    }
    let mut out: Vec<FeatureRecord> = Vec::new();
    let n_prev = prev.records.len();
    let mut i: usize = 0;
    while i < n_prev
        invariant
            i <= n_prev,
            n_prev == prev.records@.len(),
            pv == prev@,
            ev == recs_view(extracted@),
            pv =~= recs_view(prev.records@),
            pv.len() == n_prev,
            prev.wf(),
            unique_names(ev),
            forall|k: int| 0 <= k < ev.len() ==> feature_rec_ok(#[trigger] ev[k]),
            out@.len() == i,
            forall|k: int| 0 <= k < i ==> recs_view(out@)[k] == phase_a_rec(#[trigger] pv[k], ev),
        decreases n_prev - i,
    {
        let p = &prev.records[i];
        proof {
            assert(pv[i as int] == prev.records@[i as int]@);
        }
        match find_by_name(extracted, p.name.as_str()) {
            None => {
                let c = retire_one(p);
                out.push(c);
            },
            Some(idx) => {
                let m = merge_one(p, &extracted[idx]);
                proof {
                    assert(ev[idx as int] == extracted@[idx as int]@);
                }
                out.push(m);
            },
        }
        proof {
            assert forall|k: int| 0 <= k < i + 1 implies recs_view(out@)[k] == phase_a_rec(
                #[trigger] pv[k],
                ev,
            ) by {}
        }
        i = i + 1;
    }
    // After the walk over the previous snapshot, names are unchanged and
    // each record is its reconciled or retired form.
    proof {
        let ov = recs_view(out@);
        assert(ov.len() == pv.len());
        assert forall|k: int| 0 <= k < ov.len() implies (#[trigger] ov[k]).name == pv[k].name
            && feature_rec_ok(ov[k]) by {
            lemma_lookup_props(ev, pv[k].name);
            assert(ov[k] == phase_a_rec(pv[k], ev));
            match lookup(ev, pv[k].name) {
                Some(e) => {
                    let m = choose|m: int| 0 <= m < ev.len() && ev[m] == e;
                    assert(feature_rec_ok(ev[m]));
                },
                None => {},
            }
        }
        assert(feature_snapshot_wf(ov));
        lemma_sorted_unique_names(ov);
        assert forall|n: Seq<char>|
            #[trigger] lookup(ov, n) == merge_lookup_partial(pv, ev, 0, n) by {
            lemma_lookup_props(pv, n);
            assert(ev.take(0) =~= Seq::<FeatureRec>::empty());
            match lookup(pv, n) {
                Some(p) => {
                    let k = choose|k: int| 0 <= k < pv.len() && pv[k] == p;
                    assert(ov[k] == phase_a_rec(pv[k], ev));
                    assert(ov[k].name == n);
                    lemma_lookup_at_index(ov, k);
                    lemma_sorted_unique_names(pv);
                    lemma_lookup_at_index(pv, k);
                },
                None => {
                    lemma_lookup_props(ov, n);
                    if lookup(ov, n) is Some {
                        let r = lookup(ov, n)->Some_0;
                        let k = choose|k: int| 0 <= k < ov.len() && ov[k] == r;
                        assert(pv[k].name != n);
                        assert(false);
                    }
                },
            }
        }
    }
    // Insert every extracted record whose name is new, keeping name order.
    let n_ext = extracted.len();
    let mut j: usize = 0;
    while j < n_ext
        invariant
            j <= n_ext,
            n_ext == extracted@.len(),
            pv == prev@,
            ev == recs_view(extracted@),
            pv =~= recs_view(prev.records@),
            prev.wf(),
            unique_names(ev),
            forall|k: int| 0 <= k < ev.len() ==> feature_rec_ok(#[trigger] ev[k]),
            feature_snapshot_wf(recs_view(out@)),
            forall|n: Seq<char>|
                #[trigger] lookup(recs_view(out@), n) == merge_lookup_partial(
                    pv,
                    ev,
                    j as int,
                    n,
                ),
        decreases n_ext - j,
    {
        let ghost ov = recs_view(out@);
        let e = &extracted[j];
        proof {
            assert(ev.len() == n_ext);
            assert(ev[j as int] == extracted@[j as int]@);
            lemma_sorted_unique_names(ov);
            lemma_sorted_unique_names(pv);
        }
        let found = find_by_name(&prev.records, e.name.as_str());
        match found {
            Some(_) => {
                proof {
                    assert forall|n: Seq<char>|
                        #[trigger] lookup(recs_view(out@), n) == merge_lookup_partial(
                            pv,
                            ev,
                            j + 1,
                            n,
                        ) by {
                        assert(ev.take(j + 1) =~= ev.take(j as int).push(ev[j as int]));
                        lemma_lookup_push(ev.take(j as int), ev[j as int], n);
                        if lookup(ev.take(j as int), n) is None && ev[j as int].name == n {
                            // The record already lives in the previous snapshot.
                            assert(lookup(pv, n) is Some);
                        }
                    }
                }
            },
            None => {
                // The name is new: find its sorted position and insert.
                let out_len = out.len();
                let mut pos: usize = 0;
                while pos < out_len && str_lt(out[pos].name.as_str(), e.name.as_str())
                    invariant
                        pos <= out_len,
                        out_len == out@.len(),
                        ov == recs_view(out@),
                        ov.len() == out_len,
                        j < n_ext,
                        n_ext == extracted@.len(),
                        ev == recs_view(extracted@),
                        ev.len() == n_ext,
                        forall|k: int| 0 <= k < pos ==> lex_lt((#[trigger] ov[k]).name, ev[j as int].name),
                        ev[j as int] == extracted@[j as int]@,
                        e@ == ev[j as int],
                    decreases out_len - pos,
                {
                    proof {
                        assert(ov[pos as int].name == out@[pos as int]@.name);
                    }
                    pos = pos + 1;
                }
                proof {
                    assert(pos < out_len ==> !lex_lt(ov[pos as int].name, ev[j as int].name)
                        && ov[pos as int].name == out@[pos as int]@.name);
                }
                let c = e.duplicate();
                out.insert(pos, c);
                proof {
                    let nj = ev[j as int].name;
                    let ov2 = recs_view(out@);
                    assert(ov2.len() == ov.len() + 1);
                    assert forall|k: int| 0 <= k < ov2.len() implies #[trigger] ov2[k] == (if k
                        < pos {
                        ov[k]
                    } else if k == pos {
                        ev[j as int]
                    } else {
                        ov[k - 1]
                    }) by {
                        if k < pos {
                            assert(out@[k] == out@.subrange(0, pos as int)[k]);
                        }
                    }
                    // The new name is absent from the old contents.
                    assert(lookup(ov, nj) == merge_lookup_partial(pv, ev, j as int, nj));
                    lemma_lookup_at_index(ev, j as int);
                    lemma_lookup_props(ev.take(j as int), nj);
                    if lookup(ev.take(j as int), nj) is Some {
                        let r = lookup(ev.take(j as int), nj)->Some_0;
                        let k = choose|k: int|
                            0 <= k < ev.take(j as int).len() && ev.take(j as int)[k] == r;
                        assert(ev[k] == r);
                        assert(ev[k].name == ev[j as int].name);
                        assert(false);
                    }
                    assert(lookup(ov, nj) is None);
                    lemma_lookup_props(ov, nj);
                    // Order around the insertion point.
                    assert forall|k: int| pos <= k < ov.len() implies lex_lt(
                        nj,
                        (#[trigger] ov[k]).name,
                    ) by {
                        assert(ov[k].name != nj);
                        if k == pos {
                            lemma_lex_total(nj, ov[k].name);
                        } else {
                            lemma_lex_total(nj, ov[pos as int].name);
                            assert(lex_lt(ov[pos as int].name, ov[k].name));
                            if lex_lt(ov[k].name, nj) {
                                lemma_lex_trans(ov[pos as int].name, ov[k].name, nj);
                                lemma_lex_neq(ov[pos as int].name, nj);
                                assert(false);
                            }
                            lemma_lex_total(nj, ov[k].name);
                        }
                    }
                    assert forall|a: int, b: int| 0 <= a < b < ov2.len() implies lex_lt(
                        (#[trigger] ov2[a]).name,
                        (#[trigger] ov2[b]).name,
                    ) by {
                        if b < pos || (a < pos && b == pos) {
                        } else if a == pos || (a < pos && b > pos) {
                        } else {
                        }
                    }
                    assert(feature_snapshot_wf(ov2));
                    lemma_sorted_unique_names(ov2);
                    // The new contents: the fresh record under its name,
                    // everything else unchanged.
                    assert forall|n: Seq<char>|
                        #[trigger] lookup(ov2, n) == merge_lookup_partial(pv, ev, j + 1, n) by {
                        assert(ev.take(j + 1) =~= ev.take(j as int).push(ev[j as int]));
                        lemma_lookup_push(ev.take(j as int), ev[j as int], n);
                        if n == nj {
                            lemma_lookup_at_index(ov2, pos as int);
                            assert(lookup(ov2, n) == Some(ev[j as int]));
                            assert(merge_lookup_partial(pv, ev, j + 1, n) == Some(ev[j as int]));
                        } else {
                            lemma_lookup_props(ov, n);
                            lemma_lookup_props(ov2, n);
                            match lookup(ov, n) {
                                Some(r) => {
                                    let k = choose|k: int| 0 <= k < ov.len() && ov[k] == r;
                                    let k2: int = if k < pos {
                                        k
                                    } else {
                                        k + 1
                                    };
                                    assert(ov2[k2] == r);
                                    lemma_lookup_at_index(ov2, k2);
                                    lemma_lookup_at_index(ov, k);
                                },
                                None => {
                                    if lookup(ov2, n) is Some {
                                        let r = lookup(ov2, n)->Some_0;
                                        let k2 = choose|k: int|
                                            0 <= k < ov2.len() && ov2[k] == r;
                                        if k2 < pos {
                                            assert(ov[k2] == r);
                                            assert(ov[k2].name != n);
                                        } else if k2 == pos {
                                            assert(r.name == nj);
                                        } else {
                                            assert(ov[k2 - 1] == r);
                                            assert(ov[k2 - 1].name != n);
                                        }
                                        assert(false);
                                    }
                                },
                            }
                        }
                    }
                }
            },
        }
        j = j + 1;
    }
    proof {
        assert forall|n: Seq<char>|
            #[trigger] lookup(recs_view(out@), n) == merge_lookup(pv, ev, n) by {
            assert(lookup(recs_view(out@), n) == merge_lookup_partial(pv, ev, n_ext as int, n));
            assert(ev.take(n_ext as int) =~= ev);
            lemma_lookup_props(pv, n);
            lemma_lookup_props(ev, n);
        }
    }
    out
}

/// Views of a sequence of owned strings.
pub open spec fn strs_view(s: Seq<String>) -> Seq<Seq<char>> {
    s.map_values(|x: String| x@)
}

/// One field-level difference entry of the merge report.
pub struct FeatureChange {
    /// The record both sides name.
    pub name: String,
    pub status_changed: bool,
    pub since_version_changed: bool,
    pub tracking_issue_changed: bool,
    pub description_changed: bool,
}

/// What one merge run did, for human review; never persisted.
pub struct FeatureMergeReport {
    /// Names extracted but absent from the previous snapshot, in name order.
    pub additions: Vec<String>,
    /// Names present on both sides whose reconciled record differs from the
    /// previous one, in name order.
    pub changes: Vec<FeatureChange>,
    /// Removal candidates: previous names no longer extracted, in name
    /// order.
    pub removals: Vec<String>,
}

/// The addition list is exactly the extracted-only names, sorted.
pub open spec fn additions_ok(
    prev: Seq<FeatureRec>,
    ext: Seq<FeatureRec>,
    adds: Seq<Seq<char>>,
) -> bool {
    &&& forall|k: int|
        0 <= k < adds.len() ==> lookup(prev, #[trigger] adds[k]) is None && lookup(
            ext,
            adds[k],
        ) is Some
    &&& forall|a: int, b: int| 0 <= a < b < adds.len() ==> lex_lt(#[trigger] adds[a], #[trigger] adds[b])
    &&& forall|n: Seq<char>|
        lookup(prev, n) is None && (#[trigger] lookup(ext, n)) is Some ==> adds.contains(n)
}

/// The removal list is exactly the vanished names, sorted.
pub open spec fn removals_ok(
    prev: Seq<FeatureRec>,
    ext: Seq<FeatureRec>,
    rems: Seq<Seq<char>>,
) -> bool {
    &&& forall|k: int|
        0 <= k < rems.len() ==> lookup(prev, #[trigger] rems[k]) is Some && lookup(
            ext,
            rems[k],
        ) is None
    &&& forall|a: int, b: int| 0 <= a < b < rems.len() ==> lex_lt(#[trigger] rems[a], #[trigger] rems[b])
    &&& forall|n: Seq<char>|
        (#[trigger] lookup(prev, n)) is Some && lookup(ext, n) is None ==> rems.contains(n)
}

/// One change entry names a record on both sides whose reconciliation
/// differs from the previous record, with one flag per differing field.
pub open spec fn change_entry_ok(
    prev: Seq<FeatureRec>,
    ext: Seq<FeatureRec>,
    c: FeatureChange,
) -> bool {
    match (lookup(prev, c.name@), lookup(ext, c.name@)) {
        (Some(p), Some(e)) => {
            &&& merged_record(p, e) != p
            &&& c.status_changed == (p.status != e.status)
            &&& c.since_version_changed == (p.since_version != e.since_version)
            &&& c.tracking_issue_changed == (merged_record(p, e).tracking_issue
                != p.tracking_issue)
            &&& c.description_changed == (merged_record(p, e).description != p.description)
        },
        _ => false,
    }
}

/// The change list is exactly the names whose reconciliation changed
/// something, sorted.
pub open spec fn changes_ok(
    prev: Seq<FeatureRec>,
    ext: Seq<FeatureRec>,
    chs: Seq<FeatureChange>,
) -> bool {
    &&& forall|k: int| 0 <= k < chs.len() ==> change_entry_ok(prev, ext, #[trigger] chs[k])
    &&& forall|a: int, b: int|
        0 <= a < b < chs.len() ==> lex_lt(#[trigger] chs[a].name@, #[trigger] chs[b].name@)
    &&& forall|n: Seq<char>|
        match (#[trigger] lookup(prev, n), lookup(ext, n)) {
            (Some(p), Some(e)) => merged_record(p, e) != p ==> exists|k: int|
                0 <= k < chs.len() && (#[trigger] chs[k].name@) == n,
            _ => true,
        }
}

/// Compares optional strings.
fn opt_str_eq(a: &Option<String>, b: &Option<String>) -> (r: bool)
    ensures
        r == (opt_view(*a) == opt_view(*b)),
{
    match (a, b) {
        (None, None) => true,
        (Some(x), Some(y)) => {
            let r = str_eq(x.as_str(), y.as_str());
            proof {
                assert(opt_view(*a) == Some(x@));
                assert(opt_view(*b) == Some(y@));
            }
            r
        },
        (None, Some(_)) => false,
        (Some(_), None) => false,
    }
}

/// Collects the addition entries by walking the merged registry in order.
fn collect_additions(
    out: &Vec<FeatureRecord>,
    prev: &FeatureSnapshot,
    extracted: &Vec<FeatureRecord>,
) -> (adds: Vec<String>)
    requires
        prev.wf(),
        feature_snapshot_wf(recs_view(out@)),
        forall|n: Seq<char>|
            #[trigger] lookup(recs_view(out@), n) == merge_lookup(
                prev@,
                recs_view(extracted@),
                n,
            ),
    ensures
        additions_ok(prev@, recs_view(extracted@), strs_view(adds@)),
{
    let ghost pv = prev@;
    let ghost ev = recs_view(extracted@);
    let ghost ov = recs_view(out@);
    proof {
        assert(pv =~= recs_view(prev.records@));
        lemma_sorted_unique_names(pv);
        lemma_sorted_unique_names(ov);
    }
    let mut adds: Vec<String> = Vec::new();
    let n = out.len();
    let mut i: usize = 0;
    while i < n
        invariant
            i <= n,
            n == out@.len(),
            prev.wf(),
            pv == prev@,
            pv =~= recs_view(prev.records@),
            ev == recs_view(extracted@),
            ov == recs_view(out@),
            ov.len() == n,
            feature_snapshot_wf(ov),
            unique_names(recs_view(prev.records@)),
            forall|m: Seq<char>| #[trigger] lookup(ov, m) == merge_lookup(pv, ev, m),
            forall|k: int|
                0 <= k < strs_view(adds@).len() ==> lookup(
                    pv,
                    #[trigger] strs_view(adds@)[k],
                ) is None && lookup(ev, strs_view(adds@)[k]) is Some,
            forall|k: int|
                0 <= k < strs_view(adds@).len() ==> exists|m: int|
                    0 <= m < i && (#[trigger] strs_view(adds@)[k]) == ov[m].name,
            forall|a: int, b: int|
                0 <= a < b < strs_view(adds@).len() ==> lex_lt(
                    #[trigger] strs_view(adds@)[a],
                    #[trigger] strs_view(adds@)[b],
                ),
            forall|m: int|
                0 <= m < i && lookup(pv, (#[trigger] ov[m]).name) is None ==> strs_view(
                    adds@,
                ).contains(ov[m].name),
        decreases n - i,
    {
        let ghost av = strs_view(adds@);
        let r = &out[i];
        proof {
            assert(ov[i as int] == out@[i as int]@);
            lemma_sorted_unique_names(ov);
        }
        match find_by_name(&prev.records, r.name.as_str()) {
            Some(_) => {
                proof {
                    assert(lookup(pv, ov[i as int].name) is Some);
                }
            },
            None => {
                adds.push(r.name.clone());
                proof {
                    let av2 = strs_view(adds@);
                    assert(av2 =~= av.push(ov[i as int].name));
                    lemma_lookup_at_index(ov, i as int);
                    assert(av2[av.len() as int] == ov[i as int].name);
                    assert forall|m: int|
                        0 <= m < i + 1 && lookup(pv, (#[trigger] ov[m]).name) is None implies
                        av2.contains(ov[m].name) by {
                        if m < i {
                            assert(av.contains(ov[m].name));
                            let k = choose|k: int| 0 <= k < av.len() && av[k] == ov[m].name;
                            assert(av2[k] == ov[m].name);
                        } else {
                            assert(av2[av.len() as int] == ov[m].name);
                        }
                    }
                    assert(lookup(ov, ov[i as int].name) is Some);
                    assert(lookup(ev, ov[i as int].name) is Some);
                    assert forall|a: int, b: int| 0 <= a < b < av2.len() implies lex_lt(
                        #[trigger] av2[a],
                        #[trigger] av2[b],
                    ) by {
                        if b == av2.len() - 1 {
                            let m = choose|m: int| 0 <= m < i && av[a] == ov[m].name;
                            assert(lex_lt(ov[m].name, ov[i as int].name));
                        }
                    }
                    assert forall|k: int| 0 <= k < av2.len() implies exists|m: int|
                        0 <= m < i + 1 && (#[trigger] av2[k]) == ov[m].name by {
                        if k < av.len() {
                            let m = choose|m: int| 0 <= m < i && av[k] == ov[m].name;
                            assert(0 <= m < i + 1 && av2[k] == ov[m].name);
                        } else {
                            assert(av2[k] == ov[i as int].name);
                        }
                    }
                }
            },
        }
        i = i + 1;
    }
    proof {
        assert forall|m: Seq<char>|
            lookup(pv, m) is None && (#[trigger] lookup(ev, m)) is Some implies strs_view(
            adds@,
        ).contains(m) by {
            assert(lookup(ov, m) == merge_lookup(pv, ev, m));
            assert(lookup(ov, m) is Some);
            lemma_lookup_props(ov, m);
            let k = choose|k: int| 0 <= k < ov.len() && ov[k] == lookup(ov, m)->Some_0;
            assert(ov[k].name == m);
            assert(strs_view(adds@).contains(ov[k].name));
        }
    }
    adds
}

/// Collects the removal candidates by walking the previous snapshot in
/// order.
fn collect_removals(prev: &FeatureSnapshot, extracted: &Vec<FeatureRecord>) -> (rems: Vec<String>)
    requires
        prev.wf(),
        unique_names(recs_view(extracted@)),
    ensures
        removals_ok(prev@, recs_view(extracted@), strs_view(rems@)),
{
    let ghost pv = prev@;
    let ghost ev = recs_view(extracted@);
    proof {
        assert(pv =~= recs_view(prev.records@));
        lemma_sorted_unique_names(pv);
    }
    let mut rems: Vec<String> = Vec::new();
    let n = prev.records.len();
    let mut i: usize = 0;
    while i < n
        invariant
            i <= n,
            n == prev.records@.len(),
            prev.wf(),
            pv == prev@,
            pv =~= recs_view(prev.records@),
            pv.len() == n,
            ev == recs_view(extracted@),
            unique_names(ev),
            unique_names(pv),
            forall|k: int|
                0 <= k < strs_view(rems@).len() ==> lookup(
                    pv,
                    #[trigger] strs_view(rems@)[k],
                ) is Some && lookup(ev, strs_view(rems@)[k]) is None,
            forall|k: int|
                0 <= k < strs_view(rems@).len() ==> exists|m: int|
                    0 <= m < i && (#[trigger] strs_view(rems@)[k]) == pv[m].name,
            forall|a: int, b: int|
                0 <= a < b < strs_view(rems@).len() ==> lex_lt(
                    #[trigger] strs_view(rems@)[a],
                    #[trigger] strs_view(rems@)[b],
                ),
            forall|m: int|
                0 <= m < i && lookup(ev, (#[trigger] pv[m]).name) is None ==> strs_view(
                    rems@,
                ).contains(pv[m].name),
        decreases n - i,
    {
        let ghost rv = strs_view(rems@);
        let p = &prev.records[i];
        proof {
            assert(pv[i as int] == prev.records@[i as int]@);
        }
        match find_by_name(extracted, p.name.as_str()) {
            Some(_) => {},
            None => {
                rems.push(p.name.clone());
                proof {
                    let rv2 = strs_view(rems@);
                    assert(rv2 =~= rv.push(pv[i as int].name));
                    lemma_lookup_at_index(pv, i as int);
                    assert(rv2[rv.len() as int] == pv[i as int].name);
                    assert forall|m: int|
                        0 <= m < i + 1 && lookup(ev, (#[trigger] pv[m]).name) is None implies
                        rv2.contains(pv[m].name) by {
                        if m < i {
                            assert(rv.contains(pv[m].name));
                            let k = choose|k: int| 0 <= k < rv.len() && rv[k] == pv[m].name;
                            assert(rv2[k] == pv[m].name);
                        } else {
                            assert(rv2[rv.len() as int] == pv[m].name);
                        }
                    }
                    assert forall|a: int, b: int| 0 <= a < b < rv2.len() implies lex_lt(
                        #[trigger] rv2[a],
                        #[trigger] rv2[b],
                    ) by {
                        if b == rv2.len() - 1 {
                            let m = choose|m: int| 0 <= m < i && rv[a] == pv[m].name;
                            assert(lex_lt(pv[m].name, pv[i as int].name));
                        }
                    }
                    assert forall|k: int| 0 <= k < rv2.len() implies exists|m: int|
                        0 <= m < i + 1 && (#[trigger] rv2[k]) == pv[m].name by {
                        if k < rv.len() {
                            let m = choose|m: int| 0 <= m < i && rv[k] == pv[m].name;
                            assert(0 <= m < i + 1 && rv2[k] == pv[m].name);
                        } else {
                            assert(rv2[k] == pv[i as int].name);
                        }
                    }
                }
            },
        }
        i = i + 1;
    }
    proof {
        assert forall|m: Seq<char>|
            (#[trigger] lookup(pv, m)) is Some && lookup(ev, m) is None implies strs_view(
            rems@,
        ).contains(m) by {
            lemma_lookup_props(pv, m);
            let k = choose|k: int| 0 <= k < pv.len() && pv[k] == lookup(pv, m)->Some_0;
            assert(pv[k].name == m);
            assert(strs_view(rems@).contains(pv[k].name));
        }
    }
    rems
}

/// Collects the field-level change entries by walking the previous snapshot
/// in order.
#[verifier::rlimit(100)]
fn collect_changes(prev: &FeatureSnapshot, extracted: &Vec<FeatureRecord>) -> (chs: Vec<
    FeatureChange,
>)
    requires
        prev.wf(),
        unique_names(recs_view(extracted@)),
    ensures
        changes_ok(prev@, recs_view(extracted@), chs@),
{
    let ghost pv = prev@;
    let ghost ev = recs_view(extracted@);
    proof {
        assert(pv =~= recs_view(prev.records@));
        lemma_sorted_unique_names(pv);
    }
    let mut chs: Vec<FeatureChange> = Vec::new();
    let n = prev.records.len();
    let mut i: usize = 0;
    while i < n
        invariant
            i <= n,
            n == prev.records@.len(),
            prev.wf(),
            pv == prev@,
            pv =~= recs_view(prev.records@),
            pv.len() == n,
            ev == recs_view(extracted@),
            unique_names(ev),
            unique_names(pv),
            forall|k: int| 0 <= k < chs@.len() ==> change_entry_ok(pv, ev, #[trigger] chs@[k]),
            forall|k: int|
                0 <= k < chs@.len() ==> exists|m: int|
                    0 <= m < i && (#[trigger] chs@[k].name@) == pv[m].name,
            forall|a: int, b: int|
                0 <= a < b < chs@.len() ==> lex_lt(
                    #[trigger] chs@[a].name@,
                    #[trigger] chs@[b].name@,
                ),
            forall|m: int|
                0 <= m < i ==> match (lookup(pv, (#[trigger] pv[m]).name), lookup(
                    ev,
                    pv[m].name,
                )) {
                    (Some(p), Some(e)) => merged_record(p, e) != p ==> exists|k: int|
                        0 <= k < chs@.len() && (#[trigger] chs@[k].name@) == pv[m].name,
                    _ => true,
                },
        decreases n - i,
    {
        let ghost cv = chs@;
        let p = &prev.records[i];
        proof {
            assert(pv[i as int] == prev.records@[i as int]@);
            lemma_lookup_at_index(pv, i as int);
        }
        match find_by_name(extracted, p.name.as_str()) {
            None => {},
            Some(idx) => {
                let e = &extracted[idx];
                proof {
                    assert(ev[idx as int] == extracted@[idx as int]@);
                }
                let status_changed = !(p.status == e.status);
                let since_changed = !opt_str_eq(&p.since_version, &e.since_version);
                let tracking_changed = is_supplied(&e.tracking_issue) && !opt_str_eq(
                    &e.tracking_issue,
                    &p.tracking_issue,
                );
                let description_changed = is_supplied(&e.description) && !opt_str_eq(
                    &e.description,
                    &p.description,
                );
                if status_changed || since_changed || tracking_changed || description_changed {
                    let entry = FeatureChange {
                        name: p.name.clone(),
                        status_changed,
                        since_version_changed: since_changed,
                        tracking_issue_changed: tracking_changed,
                        description_changed,
                    };
                    chs.push(entry);
                    proof {
                        let pr = pv[i as int];
                        let er = ev[idx as int];
                        assert(chs@ =~= cv.push(entry));
                        assert(chs@[cv.len() as int] == entry);
                        assert(merged_record(pr, er).name == pr.name);
                        assert(change_entry_ok(pv, ev, entry));
                        assert forall|a: int, b: int| 0 <= a < b < chs@.len() implies lex_lt(
                            #[trigger] chs@[a].name@,
                            #[trigger] chs@[b].name@,
                        ) by {
                            if b == chs@.len() - 1 {
                                let m = choose|m: int| 0 <= m < i && cv[a].name@ == pv[m].name;
                                assert(lex_lt(pv[m].name, pv[i as int].name));
                            }
                        }
                        assert forall|k: int| 0 <= k < chs@.len() implies exists|m: int|
                            0 <= m < i + 1 && (#[trigger] chs@[k].name@) == pv[m].name by {
                            if k < cv.len() {
                                let m = choose|m: int| 0 <= m < i && cv[k].name@ == pv[m].name;
                                assert(0 <= m < i + 1 && chs@[k].name@ == pv[m].name);
                            } else {
                                assert(chs@[k].name@ == pv[i as int].name);
                            }
                        }
                        assert forall|m: int| 0 <= m < i + 1 implies match (lookup(
                            pv,
                            (#[trigger] pv[m]).name,
                        ), lookup(ev, pv[m].name)) {
                            (Some(pp), Some(ee)) => merged_record(pp, ee) != pp ==> exists|k: int|
                                0 <= k < chs@.len() && (#[trigger] chs@[k].name@) == pv[m].name,
                            _ => true,
                        } by {
                            if m < i {
                                if match (lookup(pv, pv[m].name), lookup(ev, pv[m].name)) {
                                    (Some(pp), Some(ee)) => merged_record(pp, ee) != pp,
                                    _ => false,
                                } {
                                    let k = choose|k: int|
                                        0 <= k < cv.len() && (#[trigger] cv[k].name@)
                                            == pv[m].name;
                                    assert(chs@[k].name@ == pv[m].name);
                                }
                            } else {
                                assert(chs@[cv.len() as int].name@ == pv[i as int].name);
                            }
                        }
                    }
                } else {
                    proof {
                        let pr = pv[i as int];
                        let er = ev[idx as int];
                        assert(merged_record(pr, er).name == pr.name);
                        assert(merged_record(pr, er) == pr);
                    }
                }
            },
        }
        i = i + 1;
    }
    proof {
        assert forall|m: Seq<char>|
            match (#[trigger] lookup(pv, m), lookup(ev, m)) {
                (Some(p), Some(e)) => merged_record(p, e) != p,
                _ => false,
            } implies exists|k: int| 0 <= k < chs@.len() && (#[trigger] chs@[k].name@) == m by {
            lemma_lookup_props(pv, m);
            let k = choose|k: int| 0 <= k < pv.len() && pv[k] == lookup(pv, m)->Some_0;
            assert(pv[k].name == m);
        }
    }
    chs
}

/// Merges extracted records against the previous snapshot and reports what
/// changed.
pub fn merge_features(prev: &FeatureSnapshot, extracted: &Vec<FeatureRecord>) -> (r: (
    FeatureSnapshot,
    FeatureMergeReport,
))
    requires
        prev.wf(),
        unique_names(recs_view(extracted@)),
        forall|k: int|
            0 <= k < extracted@.len() ==> feature_rec_ok(#[trigger] recs_view(extracted@)[k]),
    ensures
        r.0.wf(),
        forall|n: Seq<char>|
            #[trigger] lookup(r.0@, n) == merge_lookup(prev@, recs_view(extracted@), n),
        additions_ok(prev@, recs_view(extracted@), strs_view(r.1.additions@)),
        changes_ok(prev@, recs_view(extracted@), r.1.changes@),
        removals_ok(prev@, recs_view(extracted@), strs_view(r.1.removals@)),
{
    let out = merge_records(prev, extracted);
    let additions = collect_additions(&out, prev, extracted);
    let changes = collect_changes(prev, extracted);
    let removals = collect_removals(prev, extracted);
    let snap = FeatureSnapshot { records: out };
    proof {
        assert(snap@ =~= recs_view(snap.records@));
    }
    (snap, FeatureMergeReport { additions, changes, removals })
}

/// Curated fields survive re-extraction: where the extractor supplies no
/// tracking issue or description, or supplies an empty one, the previous
/// value is kept unchanged; only a non-empty replacement wins.
pub proof fn lemma_merge_preserves_curated(
    prev: Seq<FeatureRec>,
    ext: Seq<FeatureRec>,
    n: Seq<char>,
)
    requires
        lookup(prev, n) is Some,
        lookup(ext, n) is Some,
    ensures
        merge_lookup(prev, ext, n) is Some,
        !supplied(lookup(ext, n)->Some_0.tracking_issue) ==> merge_lookup(prev, ext, n)
            ->Some_0.tracking_issue == lookup(prev, n)->Some_0.tracking_issue,
        supplied(lookup(ext, n)->Some_0.tracking_issue) ==> merge_lookup(prev, ext, n)
            ->Some_0.tracking_issue == lookup(ext, n)->Some_0.tracking_issue,
        !supplied(lookup(ext, n)->Some_0.description) ==> merge_lookup(prev, ext, n)
            ->Some_0.description == lookup(prev, n)->Some_0.description,
        supplied(lookup(ext, n)->Some_0.description) ==> merge_lookup(prev, ext, n)
            ->Some_0.description == lookup(ext, n)->Some_0.description,
        merge_lookup(prev, ext, n)->Some_0.status == lookup(ext, n)->Some_0.status,
{
}

/// A newly extracted name is reported as an addition and appears, as
/// extracted, in the merged registry.
pub proof fn lemma_addition_detected(
    prev: Seq<FeatureRec>,
    ext: Seq<FeatureRec>,
    adds: Seq<Seq<char>>,
    out: Seq<FeatureRec>,
    n: Seq<char>,
)
    requires
        additions_ok(prev, ext, adds),
        forall|m: Seq<char>| #[trigger] lookup(out, m) == merge_lookup(prev, ext, m),
        lookup(prev, n) is None,
        lookup(ext, n) is Some,
    ensures
        adds.contains(n),
        lookup(out, n) == lookup(ext, n),
{
    assert(lookup(out, n) == merge_lookup(prev, ext, n));
}

/// A vanished name is retained with terminal status and otherwise unchanged
/// fields, never deleted.
pub proof fn lemma_removal_retained(prev: Seq<FeatureRec>, ext: Seq<FeatureRec>, n: Seq<char>)
    requires
        lookup(prev, n) is Some,
        lookup(ext, n) is None,
    ensures
        merge_lookup(prev, ext, n) is Some,
        merge_lookup(prev, ext, n)->Some_0.status == FeatureStatus::Removed,
        merge_lookup(prev, ext, n)->Some_0.name == lookup(prev, n)->Some_0.name,
        merge_lookup(prev, ext, n)->Some_0.since_version == lookup(prev, n)
            ->Some_0.since_version,
        merge_lookup(prev, ext, n)->Some_0.tracking_issue == lookup(prev, n)
            ->Some_0.tracking_issue,
        merge_lookup(prev, ext, n)->Some_0.description == lookup(prev, n)->Some_0.description,
{
}

proof fn lemma_contains_transfer(x1: Seq<FeatureRec>, x2: Seq<FeatureRec>, r: FeatureRec)
    requires
        x1.to_multiset() == x2.to_multiset(),
        x1.contains(r),
    ensures
        x2.contains(r),
{
    broadcast use vstd::seq_lib::group_to_multiset_ensures;

    assert(x1.to_multiset().count(r) > 0);
    assert(x2.to_multiset().count(r) > 0);
}

/// Two extractions holding the same records, in whatever order, merge to
/// the same registry.
pub proof fn lemma_merge_deterministic(
    prev: Seq<FeatureRec>,
    ext1: Seq<FeatureRec>,
    ext2: Seq<FeatureRec>,
    out1: Seq<FeatureRec>,
    out2: Seq<FeatureRec>,
)
    requires
        unique_names(ext1),
        ext1.to_multiset() == ext2.to_multiset(),
        feature_snapshot_wf(out1),
        feature_snapshot_wf(out2),
        forall|n: Seq<char>| #[trigger] lookup(out1, n) == merge_lookup(prev, ext1, n),
        forall|n: Seq<char>| #[trigger] lookup(out2, n) == merge_lookup(prev, ext2, n),
    ensures
        out1 == out2,
{
    broadcast use vstd::seq_lib::group_to_multiset_ensures;

    assert(ext1.no_duplicates()) by {
        assert forall|i: int, j: int|
            0 <= i < ext1.len() && 0 <= j < ext1.len() && i != j implies ext1[i] != ext1[j] by {
            if i < j {
                assert(ext1[i].name != ext1[j].name);
            } else {
                assert(ext1[j].name != ext1[i].name);
            }
        }
    }
    ext1.lemma_multiset_has_no_duplicates();
    ext2.lemma_multiset_has_no_duplicates_conv();
    assert forall|i: int, j: int| 0 <= i < j < ext2.len() implies (#[trigger] ext2[i].name) != (
    #[trigger] ext2[j].name) by {
        if ext2[i].name == ext2[j].name {
            assert(ext2[i] != ext2[j]);
            assert(ext2.contains(ext2[i]));
            assert(ext2.contains(ext2[j]));
            lemma_contains_transfer(ext2, ext1, ext2[i]);
            lemma_contains_transfer(ext2, ext1, ext2[j]);
            let a = choose|a: int| 0 <= a < ext1.len() && ext1[a] == ext2[i];
            let b = choose|b: int| 0 <= b < ext1.len() && ext1[b] == ext2[j];
            assert(a != b);
            if a < b {
                assert(ext1[a].name != ext1[b].name);
            } else {
                assert(ext1[b].name != ext1[a].name);
            }
            assert(false);
        }
    }
    assert forall|n: Seq<char>| #[trigger] lookup(ext1, n) == lookup(ext2, n) by {
        lemma_lookup_props(ext1, n);
        lemma_lookup_props(ext2, n);
        match lookup(ext1, n) {
            Some(r) => {
                let i = choose|i: int| 0 <= i < ext1.len() && ext1[i] == r;
                assert(ext1.contains(ext1[i]));
                lemma_contains_transfer(ext1, ext2, r);
                let k = choose|k: int| 0 <= k < ext2.len() && ext2[k] == r;
                lemma_lookup_at_index(ext2, k);
            },
            None => {
                if lookup(ext2, n) is Some {
                    let r2 = lookup(ext2, n)->Some_0;
                    let k = choose|k: int| 0 <= k < ext2.len() && ext2[k] == r2;
                    assert(ext2.contains(ext2[k]));
                    lemma_contains_transfer(ext2, ext1, r2);
                    let i = choose|i: int| 0 <= i < ext1.len() && ext1[i] == r2;
                    assert(ext1[i].name != n);
                    assert(false);
                }
            },
        }
    }
    assert forall|n: Seq<char>| #[trigger] lookup(out1, n) == lookup(out2, n) by {
        assert(lookup(out1, n) == merge_lookup(prev, ext1, n));
        assert(lookup(out2, n) == merge_lookup(prev, ext2, n));
        assert(lookup(ext1, n) == lookup(ext2, n));
    }
    crate::feature::lemma_snapshot_ext(out1, out2);
}

/// Merging a merged registry against the same extraction changes nothing:
/// with an unchanged upstream source, a second run reproduces its input.
pub proof fn lemma_merge_idempotent(
    prev: Seq<FeatureRec>,
    ext: Seq<FeatureRec>,
    out: Seq<FeatureRec>,
)
    requires
        feature_snapshot_wf(out),
        forall|n: Seq<char>| #[trigger] lookup(out, n) == merge_lookup(prev, ext, n),
    ensures
        forall|n: Seq<char>| #[trigger] merge_lookup(out, ext, n) == lookup(out, n),
{
    assert forall|n: Seq<char>| #[trigger] merge_lookup(out, ext, n) == lookup(out, n) by {
        assert(lookup(out, n) == merge_lookup(prev, ext, n));
        match (lookup(prev, n), lookup(ext, n)) {
            (Some(p), Some(e)) => {
                assert(merged_record(merged_record(p, e), e) == merged_record(p, e));
            },
            (Some(p), None) => {
                assert(retired_record(retired_record(p)) == retired_record(p));
            },
            (None, Some(e)) => {
                assert(merged_record(e, e) == e);
            },
            (None, None) => {},
        }
    }
}

/// Two pipeline runs with the same upstream source produce the same
/// registry, hence byte-identical output.
pub proof fn lemma_pipeline_idempotent(
    prev: Seq<FeatureRec>,
    ext: Seq<FeatureRec>,
    out: Seq<FeatureRec>,
    out2: Seq<FeatureRec>,
)
    requires
        feature_snapshot_wf(out),
        feature_snapshot_wf(out2),
        forall|n: Seq<char>| #[trigger] lookup(out, n) == merge_lookup(prev, ext, n),
        forall|n: Seq<char>| #[trigger] lookup(out2, n) == merge_lookup(out, ext, n),
    ensures
        out2 == out,
        crate::feature_json::fmt_features(out2) == crate::feature_json::fmt_features(out),
{
    lemma_merge_idempotent(prev, ext, out);
    assert forall|n: Seq<char>| #[trigger] lookup(out2, n) == lookup(out, n) by {
        assert(lookup(out2, n) == merge_lookup(out, ext, n));
    }
    crate::feature::lemma_snapshot_ext(out2, out);
}

} // verus!
