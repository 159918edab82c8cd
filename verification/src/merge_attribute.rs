//! Reconciliation of freshly extracted attribute records against the
//! previous snapshot, in the same discipline as the feature merger: the
//! extractor owns name, target set and flags, the template hint is
//! preserved when the extractor has none, and a record that vanished
//! upstream is kept, flagged stale via its internal marker.

use vstd::prelude::*;

use crate::attribute::{
    attr_rec_ok, attr_recs_view, attr_snapshot_wf, lemma_lookup_attr_at_index,
    lemma_lookup_attr_props, lemma_sorted_unique_attr_names, lookup_attr, unique_attr_names,
    AttrRec, AttrTarget, AttributeRecord, AttributeSnapshot,
};
use crate::merge_feature::strs_view;
use crate::order::{lex_lt, lemma_lex_total, lemma_lex_neq, lemma_lex_trans, str_eq, str_lt};

verus! {

/// Field-by-field reconciliation of one name present on both sides: the
/// extractor owns name, target set and the two flags; the template hint is
/// preserved when the extractor supplies none.
pub open spec fn merged_attr_record(p: AttrRec, e: AttrRec) -> AttrRec {
    AttrRec {
        name: e.name,
        applies_to: e.applies_to,
        template: if e.template is Some {
            e.template
        } else {
            p.template
        },
        is_deprecated: e.is_deprecated,
        is_internal: e.is_internal,
    }
}

/// A record that vanished upstream is retained and flagged via the internal
/// marker, never deleted, so downstream consumers can observe history.
pub open spec fn stale_record(p: AttrRec) -> AttrRec {
    AttrRec { is_internal: true, ..p }
}

/// What the merged registry holds under each name.
pub open spec fn attr_merge_lookup(prev: Seq<AttrRec>, ext: Seq<AttrRec>, n: Seq<char>) -> Option<
    AttrRec,
> {
    match (lookup_attr(prev, n), lookup_attr(ext, n)) {
        (Some(p), Some(e)) => Some(merged_attr_record(p, e)),
        (Some(p), None) => Some(stale_record(p)),
        (None, Some(e)) => Some(e),
        (None, None) => None,
    }
}

/// The fate of a previous record under a full extraction.
pub open spec fn attr_phase_a_rec(p: AttrRec, ext: Seq<AttrRec>) -> AttrRec {
    match lookup_attr(ext, p.name) {
        Some(e) => merged_attr_record(p, e),
        None => stale_record(p),
    }
}

/// The merged contents after only the first `j` extracted records have been
/// considered for insertion.
pub open spec fn attr_merge_lookup_partial(
    prev: Seq<AttrRec>,
    ext: Seq<AttrRec>,
    j: int,
    n: Seq<char>,
) -> Option<AttrRec> {
    if lookup_attr(prev, n) is Some {
        attr_merge_lookup(prev, ext, n)
    } else if lookup_attr(ext.take(j), n) is Some {
        lookup_attr(ext, n)
    } else {
        None
    }
}

/// Looking up in a sequence extended by one record.
pub proof fn lemma_lookup_attr_push(s: Seq<AttrRec>, x: AttrRec, n: Seq<char>)
    ensures
        lookup_attr(s.push(x), n) == match lookup_attr(s, n) {
            Some(r) => Some(r),
            None => if x.name == n {
                Some(x)
            } else {
                None
            },
        },
    decreases s.len(),
{
    let sp = s.push(x);
    if s.len() == 0 {
        assert(sp[0] == x);
        assert(sp.len() == 1);
        if x.name != n {
            assert(sp.skip(1) =~= Seq::<AttrRec>::empty());
        }
    } else {
        assert(sp[0] == s[0]);
        assert(sp.skip(1) =~= s.skip(1).push(x));
        lemma_lookup_attr_push(s.skip(1), x, n);
        if s[0].name == n {
            assert(lookup_attr(sp, n) == Some(s[0]));
            assert(lookup_attr(s, n) == Some(s[0]));
        } else {
            assert(lookup_attr(sp, n) == lookup_attr(sp.skip(1), n));
            assert(lookup_attr(s, n) == lookup_attr(s.skip(1), n));
        }
    }
}

/// Reconciles one record present on both sides.
fn merge_attr_one(p: &AttributeRecord, e: &AttributeRecord) -> (r: AttributeRecord)
    ensures
        r@ == merged_attr_record(p@, e@),
{
    let d = e.duplicate();
    AttributeRecord {
        name: d.name,
        applies_to: d.applies_to,
        template: if e.template.is_some() {
            e.template
        } else {
            p.template
        },
        is_deprecated: e.is_deprecated,
        is_internal: e.is_internal,
    }
}

/// Marks one record that was not extracted as stale.
fn stale_one(p: &AttributeRecord) -> (r: AttributeRecord)
    ensures
        r@ == stale_record(p@),
{
    let mut c = p.duplicate();
    c.is_internal = true;
    c
}

/// Finds the record with the given name, when names are unique.
pub fn find_attr_by_name(v: &Vec<AttributeRecord>, name: &str) -> (r: Option<usize>)
    requires
        unique_attr_names(attr_recs_view(v@)),
    ensures
        match r {
            Some(idx) => {
                &&& idx < v@.len()
                &&& attr_recs_view(v@)[idx as int].name == name@
                &&& lookup_attr(attr_recs_view(v@), name@) == Some(attr_recs_view(v@)[idx as int])
            },
            None => lookup_attr(attr_recs_view(v@), name@) is None,
        },
{
    let ghost sv = attr_recs_view(v@);
    let n = v.len();
    let mut i: usize = 0;
    while i < n
        invariant
            i <= n,
            n == v@.len(),
            sv == attr_recs_view(v@),
            sv.len() == n,
            unique_attr_names(sv),
            forall|k: int| 0 <= k < i ==> (#[trigger] sv[k].name) != name@,
        decreases n - i,
    {
        if str_eq(v[i].name.as_str(), name) {
            proof {
                assert(sv[i as int].name == v@[i as int]@.name);
                lemma_lookup_attr_at_index(sv, i as int);
            }
            return Some(i);
        }
        proof {
            assert(sv[i as int].name == v@[i as int]@.name);
        }
        i = i + 1;
    }
    proof {
        lemma_lookup_attr_props(sv, name@);
        if lookup_attr(sv, name@) is Some {
            let r = lookup_attr(sv, name@)->Some_0;
            let k = choose|k: int| 0 <= k < sv.len() && sv[k] == r;
            assert(sv[k].name != name@);
            assert(false);
        }
    }
    None
}

/// Merges the extracted records into the previous snapshot.
///
/// Every name of either side survives: both-sided names get the field-level
/// reconciliation, names only extracted are inserted in name order, and
/// names that vanished upstream are kept and flagged stale in place.
#[verifier::rlimit(100)]
pub fn merge_attr_records(prev: &AttributeSnapshot, extracted: &Vec<AttributeRecord>) -> (out: Vec<
    AttributeRecord,
>)
    requires
        prev.wf(),
        unique_attr_names(attr_recs_view(extracted@)),
        forall|k: int|
            0 <= k < extracted@.len() ==> attr_rec_ok(#[trigger] attr_recs_view(extracted@)[k]),
    ensures
        attr_snapshot_wf(attr_recs_view(out@)),
        forall|n: Seq<char>|
            #[trigger] lookup_attr(attr_recs_view(out@), n) == attr_merge_lookup(
                prev@,
                attr_recs_view(extracted@),
                n,
            ),
{
    let ghost pv = prev@;
    let ghost ev = attr_recs_view(extracted@);
    proof {
        assert(pv =~= attr_recs_view(prev.records@));
        lemma_sorted_unique_attr_names(pv);
    }
    let mut out: Vec<AttributeRecord> = Vec::new();
    let n_prev = prev.records.len();
    let mut i: usize = 0;
    while i < n_prev
        invariant
            i <= n_prev,
            n_prev == prev.records@.len(),
            pv == prev@,
            ev == attr_recs_view(extracted@),
            pv =~= attr_recs_view(prev.records@),
            pv.len() == n_prev,
            prev.wf(),
            unique_attr_names(ev),
            forall|k: int| 0 <= k < ev.len() ==> attr_rec_ok(#[trigger] ev[k]),
            out@.len() == i,
            forall|k: int| 0 <= k < i ==> attr_recs_view(out@)[k] == attr_phase_a_rec(#[trigger] pv[k], ev),
        decreases n_prev - i,
    {
        let p = &prev.records[i];
        proof {
            assert(pv[i as int] == prev.records@[i as int]@);
        }
        match find_attr_by_name(extracted, p.name.as_str()) {
            None => {
                let c = stale_one(p);
                out.push(c);
            },
            Some(idx) => {
                let m = merge_attr_one(p, &extracted[idx]);
                proof {
                    assert(ev[idx as int] == extracted@[idx as int]@);
                }
                out.push(m);
            },
        }
        proof {
            assert forall|k: int| 0 <= k < i + 1 implies attr_recs_view(out@)[k] == attr_phase_a_rec(
                #[trigger] pv[k],
                ev,
            ) by {}
        }
        i = i + 1;
    }
    // After the walk over the previous snapshot, names are unchanged and
    // each record is its reconciled or stale-flagged form.
    proof {
        let ov = attr_recs_view(out@);
        assert(ov.len() == pv.len());
        assert forall|k: int| 0 <= k < ov.len() implies (#[trigger] ov[k]).name == pv[k].name
            && attr_rec_ok(ov[k]) by {
            lemma_lookup_attr_props(ev, pv[k].name);
            assert(ov[k] == attr_phase_a_rec(pv[k], ev));
            match lookup_attr(ev, pv[k].name) {
                Some(e) => {
                    let m = choose|m: int| 0 <= m < ev.len() && ev[m] == e;
                    assert(attr_rec_ok(ev[m]));
                },
                None => {},
            }
        }
        assert(attr_snapshot_wf(ov));
        lemma_sorted_unique_attr_names(ov);
        assert forall|n: Seq<char>|
            #[trigger] lookup_attr(ov, n) == attr_merge_lookup_partial(pv, ev, 0, n) by {
            lemma_lookup_attr_props(pv, n);
            assert(ev.take(0) =~= Seq::<AttrRec>::empty());
            match lookup_attr(pv, n) {
                Some(p) => {
                    let k = choose|k: int| 0 <= k < pv.len() && pv[k] == p;
                    assert(ov[k] == attr_phase_a_rec(pv[k], ev));
                    assert(ov[k].name == n);
                    lemma_lookup_attr_at_index(ov, k);
                    lemma_sorted_unique_attr_names(pv);
                    lemma_lookup_attr_at_index(pv, k);
                },
                None => {
                    lemma_lookup_attr_props(ov, n);
                    if lookup_attr(ov, n) is Some {
                        let r = lookup_attr(ov, n)->Some_0;
                        let k = choose|k: int| 0 <= k < ov.len() && ov[k] == r;
                        assert(pv[k].name != n);
                        assert(false);
                    }
                },
            }
        }
    }
    // Insert every extracted record whose name is new, keeping name order.
    let n_ext = extracted.len();
    let mut j: usize = 0;
    while j < n_ext
        invariant
            j <= n_ext,
            n_ext == extracted@.len(),
            pv == prev@,
            ev == attr_recs_view(extracted@),
            pv =~= attr_recs_view(prev.records@),
            prev.wf(),
            unique_attr_names(ev),
            forall|k: int| 0 <= k < ev.len() ==> attr_rec_ok(#[trigger] ev[k]),
            attr_snapshot_wf(attr_recs_view(out@)),
            forall|n: Seq<char>|
                #[trigger] lookup_attr(attr_recs_view(out@), n) == attr_merge_lookup_partial(
                    pv,
                    ev,
                    j as int,
                    n,
                ),
        decreases n_ext - j,
    {
        let ghost ov = attr_recs_view(out@);
        let e = &extracted[j];
        proof {
            assert(ev.len() == n_ext);
            assert(ev[j as int] == extracted@[j as int]@);
            lemma_sorted_unique_attr_names(ov);
            lemma_sorted_unique_attr_names(pv);
        }
        let found = find_attr_by_name(&prev.records, e.name.as_str());
        match found {
            Some(_) => {
                proof {
                    assert forall|n: Seq<char>|
                        #[trigger] lookup_attr(attr_recs_view(out@), n) == attr_merge_lookup_partial(
                            pv,
                            ev,
                            j + 1,
                            n,
                        ) by {
                        assert(ev.take(j + 1) =~= ev.take(j as int).push(ev[j as int]));
                        lemma_lookup_attr_push(ev.take(j as int), ev[j as int], n);
                        if lookup_attr(ev.take(j as int), n) is None && ev[j as int].name == n {
                            // The record already lives in the previous snapshot.
                            assert(lookup_attr(pv, n) is Some);
                        }
                    }
                }
            },
            None => {
                // The name is new: find its sorted position and insert.
                let out_len = out.len();
                let mut pos: usize = 0;
                while pos < out_len && str_lt(out[pos].name.as_str(), e.name.as_str())
                    invariant
                        pos <= out_len,
                        out_len == out@.len(),
                        ov == attr_recs_view(out@),
                        ov.len() == out_len,
                        j < n_ext,
                        n_ext == extracted@.len(),
                        ev == attr_recs_view(extracted@),
                        ev.len() == n_ext,
                        forall|k: int| 0 <= k < pos ==> lex_lt((#[trigger] ov[k]).name, ev[j as int].name),
                        ev[j as int] == extracted@[j as int]@,
                        e@ == ev[j as int],
                    decreases out_len - pos,
                {
                    proof {
                        assert(ov[pos as int].name == out@[pos as int]@.name);
                    }
                    pos = pos + 1;
                }
                proof {
                    assert(pos < out_len ==> !lex_lt(ov[pos as int].name, ev[j as int].name)
                        && ov[pos as int].name == out@[pos as int]@.name);
                }
                let c = e.duplicate();
                out.insert(pos, c);
                proof {
                    let nj = ev[j as int].name;
                    let ov2 = attr_recs_view(out@);
                    assert(ov2.len() == ov.len() + 1);
                    assert forall|k: int| 0 <= k < ov2.len() implies #[trigger] ov2[k] == (if k
                        < pos {
                        ov[k]
                    } else if k == pos {
                        ev[j as int]
                    } else {
                        ov[k - 1]
                    }) by {
                        if k < pos {
                            assert(out@[k] == out@.subrange(0, pos as int)[k]);
                        }
                    }
                    // The new name is absent from the old contents.
                    assert(lookup_attr(ov, nj) == attr_merge_lookup_partial(pv, ev, j as int, nj));
                    lemma_lookup_attr_at_index(ev, j as int);
                    lemma_lookup_attr_props(ev.take(j as int), nj);
                    if lookup_attr(ev.take(j as int), nj) is Some {
                        let r = lookup_attr(ev.take(j as int), nj)->Some_0;
                        let k = choose|k: int|
                            0 <= k < ev.take(j as int).len() && ev.take(j as int)[k] == r;
                        assert(ev[k] == r);
                        assert(ev[k].name == ev[j as int].name);
                        assert(false);
                    }
                    assert(lookup_attr(ov, nj) is None);
                    lemma_lookup_attr_props(ov, nj);
                    // Order around the insertion point.
                    assert forall|k: int| pos <= k < ov.len() implies lex_lt(
                        nj,
                        (#[trigger] ov[k]).name,
                    ) by {
                        assert(ov[k].name != nj);
                        if k == pos {
                            lemma_lex_total(nj, ov[k].name);
                        } else {
                            lemma_lex_total(nj, ov[pos as int].name);
                            assert(lex_lt(ov[pos as int].name, ov[k].name));
                            if lex_lt(ov[k].name, nj) {
                                lemma_lex_trans(ov[pos as int].name, ov[k].name, nj);
                                lemma_lex_neq(ov[pos as int].name, nj);
                                assert(false);
                            }
                            lemma_lex_total(nj, ov[k].name);
                        }
                    }
                    assert forall|a: int, b: int| 0 <= a < b < ov2.len() implies lex_lt(
                        (#[trigger] ov2[a]).name,
                        (#[trigger] ov2[b]).name,
                    ) by {
                        if b < pos || (a < pos && b == pos) {
                        } else if a == pos || (a < pos && b > pos) {
                        } else {
                        }
                    }
                    assert(attr_snapshot_wf(ov2));
                    lemma_sorted_unique_attr_names(ov2);
                    // The new contents: the fresh record under its name,
                    // everything else unchanged.
                    assert forall|n: Seq<char>|
                        #[trigger] lookup_attr(ov2, n) == attr_merge_lookup_partial(pv, ev, j + 1, n) by {
                        assert(ev.take(j + 1) =~= ev.take(j as int).push(ev[j as int]));
                        lemma_lookup_attr_push(ev.take(j as int), ev[j as int], n);
                        if n == nj {
                            lemma_lookup_attr_at_index(ov2, pos as int);
                            assert(lookup_attr(ov2, n) == Some(ev[j as int]));
                            assert(attr_merge_lookup_partial(pv, ev, j + 1, n) == Some(ev[j as int]));
                        } else {
                            lemma_lookup_attr_props(ov, n);
                            lemma_lookup_attr_props(ov2, n);
                            match lookup_attr(ov, n) {
                                Some(r) => {
                                    let k = choose|k: int| 0 <= k < ov.len() && ov[k] == r;
                                    let k2: int = if k < pos {
                                        k
                                    } else {
                                        k + 1
                                    };
                                    assert(ov2[k2] == r);
                                    lemma_lookup_attr_at_index(ov2, k2);
                                    lemma_lookup_attr_at_index(ov, k);
                                },
                                None => {
                                    if lookup_attr(ov2, n) is Some {
                                        let r = lookup_attr(ov2, n)->Some_0;
                                        let k2 = choose|k: int|
                                            0 <= k < ov2.len() && ov2[k] == r;
                                        if k2 < pos {
                                            assert(ov[k2] == r);
                                            assert(ov[k2].name != n);
                                        } else if k2 == pos {
                                            assert(r.name == nj);
                                        } else {
                                            assert(ov[k2 - 1] == r);
                                            assert(ov[k2 - 1].name != n);
                                        }
                                        assert(false);
                                    }
                                },
                            }
                        }
                    }
                }
            },
        }
        j = j + 1;
    }
    proof {
        assert forall|n: Seq<char>|
            #[trigger] lookup_attr(attr_recs_view(out@), n) == attr_merge_lookup(pv, ev, n) by {
            assert(lookup_attr(attr_recs_view(out@), n) == attr_merge_lookup_partial(pv, ev, n_ext as int, n));
            assert(ev.take(n_ext as int) =~= ev);
            lemma_lookup_attr_props(pv, n);
            lemma_lookup_attr_props(ev, n);
        }
    }
    out
}

/// One field-level difference entry of the merge report.
pub struct AttrChange {
    /// The record both sides name.
    pub name: String,
    pub applies_to_changed: bool,
    pub template_changed: bool,
    pub is_deprecated_changed: bool,
    pub is_internal_changed: bool,
}

/// What one merge run did, for human review; never persisted.
pub struct AttrMergeReport {
    /// Names extracted but absent from the previous snapshot, in name order.
    pub additions: Vec<String>,
    /// Field-level change entries for names present on both sides whose
    /// reconciled record differs from the previous one, in name order.
    pub changes: Vec<AttrChange>,
    /// Removal candidates: previous names no longer extracted, in name
    /// order.
    pub removals: Vec<String>,
}

/// The addition list is exactly the extracted-only names, sorted.
pub open spec fn attr_additions_ok(
    prev: Seq<AttrRec>,
    ext: Seq<AttrRec>,
    adds: Seq<Seq<char>>,
) -> bool {
    &&& forall|k: int|
        0 <= k < adds.len() ==> lookup_attr(prev, #[trigger] adds[k]) is None && lookup_attr(
            ext,
            adds[k],
        ) is Some
    &&& forall|a: int, b: int| 0 <= a < b < adds.len() ==> lex_lt(#[trigger] adds[a], #[trigger] adds[b])
    &&& forall|n: Seq<char>|
        lookup_attr(prev, n) is None && (#[trigger] lookup_attr(ext, n)) is Some ==> adds.contains(
            n,
        )
}

/// The removal list is exactly the vanished names, sorted.
pub open spec fn attr_removals_ok(
    prev: Seq<AttrRec>,
    ext: Seq<AttrRec>,
    rems: Seq<Seq<char>>,
) -> bool {
    &&& forall|k: int|
        0 <= k < rems.len() ==> lookup_attr(prev, #[trigger] rems[k]) is Some && lookup_attr(
            ext,
            rems[k],
        ) is None
    &&& forall|a: int, b: int| 0 <= a < b < rems.len() ==> lex_lt(#[trigger] rems[a], #[trigger] rems[b])
    &&& forall|n: Seq<char>|
        (#[trigger] lookup_attr(prev, n)) is Some && lookup_attr(ext, n) is None ==> rems.contains(
            n,
        )
}

/// One change entry names a record on both sides whose reconciliation
/// differs from the previous record, with one flag per differing field.
pub open spec fn attr_change_entry_ok(
    prev: Seq<AttrRec>,
    ext: Seq<AttrRec>,
    c: AttrChange,
) -> bool {
    match (lookup_attr(prev, c.name@), lookup_attr(ext, c.name@)) {
        (Some(p), Some(e)) => {
            &&& merged_attr_record(p, e) != p
            &&& c.applies_to_changed == (p.applies_to != e.applies_to)
            &&& c.template_changed == (merged_attr_record(p, e).template != p.template)
            &&& c.is_deprecated_changed == (p.is_deprecated != e.is_deprecated)
            &&& c.is_internal_changed == (p.is_internal != e.is_internal)
        },
        _ => false,
    }
}

/// The change list is exactly the names whose reconciliation changed
/// something, sorted, each with its field flags.
pub open spec fn attr_changes_ok(
    prev: Seq<AttrRec>,
    ext: Seq<AttrRec>,
    chs: Seq<AttrChange>,
) -> bool {
    &&& forall|k: int| 0 <= k < chs.len() ==> attr_change_entry_ok(prev, ext, #[trigger] chs[k])
    &&& forall|a: int, b: int|
        0 <= a < b < chs.len() ==> lex_lt(#[trigger] chs[a].name@, #[trigger] chs[b].name@)
    &&& forall|n: Seq<char>|
        match (#[trigger] lookup_attr(prev, n), lookup_attr(ext, n)) {
            (Some(p), Some(e)) => merged_attr_record(p, e) != p ==> exists|k: int|
                0 <= k < chs.len() && (#[trigger] chs[k].name@) == n,
            _ => true,
        }
}

/// Compares two target vectors for equality of their contents.
fn targets_eq(a: &Vec<AttrTarget>, b: &Vec<AttrTarget>) -> (r: bool)
    ensures
        r == (a@ == b@),
{
    if a.len() != b.len() {
        return false;
    }
    let n = a.len();
    let mut i: usize = 0;
    while i < n
        invariant
            i <= n,
            n == a@.len(),
            n == b@.len(),
            forall|k: int| 0 <= k < i ==> a@[k] == b@[k],
        decreases n - i,
    {
        if !(a[i] == b[i]) {
            return false;
        }
        i = i + 1;
    }
    proof {
        assert(a@ =~= b@);
    }
    true
}

/// Collects the addition entries by walking the merged registry in order.
fn collect_attr_additions(
    out: &Vec<AttributeRecord>,
    prev: &AttributeSnapshot,
    extracted: &Vec<AttributeRecord>,
) -> (adds: Vec<String>)
    requires
        prev.wf(),
        attr_snapshot_wf(attr_recs_view(out@)),
        forall|n: Seq<char>|
            #[trigger] lookup_attr(attr_recs_view(out@), n) == attr_merge_lookup(
                prev@,
                attr_recs_view(extracted@),
                n,
            ),
    ensures
        attr_additions_ok(prev@, attr_recs_view(extracted@), strs_view(adds@)),
{
    let ghost pv = prev@;
    let ghost ev = attr_recs_view(extracted@);
    let ghost ov = attr_recs_view(out@);
    proof {
        assert(pv =~= attr_recs_view(prev.records@));
        lemma_sorted_unique_attr_names(pv);
        lemma_sorted_unique_attr_names(ov);
    }
    let mut adds: Vec<String> = Vec::new();
    let n = out.len();
    let mut i: usize = 0;
    while i < n
        invariant
            i <= n,
            n == out@.len(),
            prev.wf(),
            pv == prev@,
            pv =~= attr_recs_view(prev.records@),
            ev == attr_recs_view(extracted@),
            ov == attr_recs_view(out@),
            ov.len() == n,
            attr_snapshot_wf(ov),
            unique_attr_names(attr_recs_view(prev.records@)),
            forall|m: Seq<char>| #[trigger] lookup_attr(ov, m) == attr_merge_lookup(pv, ev, m),
            forall|k: int|
                0 <= k < strs_view(adds@).len() ==> lookup_attr(
                    pv,
                    #[trigger] strs_view(adds@)[k],
                ) is None && lookup_attr(ev, strs_view(adds@)[k]) is Some,
            forall|k: int|
                0 <= k < strs_view(adds@).len() ==> exists|m: int|
                    0 <= m < i && (#[trigger] strs_view(adds@)[k]) == ov[m].name,
            forall|a: int, b: int|
                0 <= a < b < strs_view(adds@).len() ==> lex_lt(
                    #[trigger] strs_view(adds@)[a],
                    #[trigger] strs_view(adds@)[b],
                ),
            forall|m: int|
                0 <= m < i && lookup_attr(pv, (#[trigger] ov[m]).name) is None ==> strs_view(
                    adds@,
                ).contains(ov[m].name),
        decreases n - i,
    {
        let ghost av = strs_view(adds@);
        let r = &out[i];
        proof {
            assert(ov[i as int] == out@[i as int]@);
            lemma_sorted_unique_attr_names(ov);
        }
        match find_attr_by_name(&prev.records, r.name.as_str()) {
            Some(_) => {
                proof {
                    assert(lookup_attr(pv, ov[i as int].name) is Some);
                }
            },
            None => {
                adds.push(r.name.clone());
                proof {
                    let av2 = strs_view(adds@);
                    assert(av2 =~= av.push(ov[i as int].name));
                    lemma_lookup_attr_at_index(ov, i as int);
                    assert(av2[av.len() as int] == ov[i as int].name);
                    assert forall|m: int|
                        0 <= m < i + 1 && lookup_attr(pv, (#[trigger] ov[m]).name) is None implies
                        av2.contains(ov[m].name) by {
                        if m < i {
                            assert(av.contains(ov[m].name));
                            let k = choose|k: int| 0 <= k < av.len() && av[k] == ov[m].name;
                            assert(av2[k] == ov[m].name);
                        } else {
                            assert(av2[av.len() as int] == ov[m].name);
                        }
                    }
                    assert(lookup_attr(ov, ov[i as int].name) is Some);
                    assert(lookup_attr(ev, ov[i as int].name) is Some);
                    assert forall|a: int, b: int| 0 <= a < b < av2.len() implies lex_lt(
                        #[trigger] av2[a],
                        #[trigger] av2[b],
                    ) by {
                        if b == av2.len() - 1 {
                            let m = choose|m: int| 0 <= m < i && av[a] == ov[m].name;
                            assert(lex_lt(ov[m].name, ov[i as int].name));
                        }
                    }
                    assert forall|k: int| 0 <= k < av2.len() implies exists|m: int|
                        0 <= m < i + 1 && (#[trigger] av2[k]) == ov[m].name by {
                        if k < av.len() {
                            let m = choose|m: int| 0 <= m < i && av[k] == ov[m].name;
                            assert(0 <= m < i + 1 && av2[k] == ov[m].name);
                        } else {
                            assert(av2[k] == ov[i as int].name);
                        }
                    }
                }
            },
        }
        i = i + 1;
    }
    proof {
        assert forall|m: Seq<char>|
            lookup_attr(pv, m) is None && (#[trigger] lookup_attr(ev, m)) is Some implies strs_view(
            adds@,
        ).contains(m) by {
            assert(lookup_attr(ov, m) == attr_merge_lookup(pv, ev, m));
            assert(lookup_attr(ov, m) is Some);
            lemma_lookup_attr_props(ov, m);
            let k = choose|k: int| 0 <= k < ov.len() && ov[k] == lookup_attr(ov, m)->Some_0;
            assert(ov[k].name == m);
            assert(strs_view(adds@).contains(ov[k].name));
        }
    }
    adds
}

/// Collects the removal candidates by walking the previous snapshot in
/// order.
fn collect_attr_removals(prev: &AttributeSnapshot, extracted: &Vec<AttributeRecord>) -> (rems: Vec<String>)
    requires
        prev.wf(),
        unique_attr_names(attr_recs_view(extracted@)),
    ensures
        attr_removals_ok(prev@, attr_recs_view(extracted@), strs_view(rems@)),
{
    let ghost pv = prev@;
    let ghost ev = attr_recs_view(extracted@);
    proof {
        assert(pv =~= attr_recs_view(prev.records@));
        lemma_sorted_unique_attr_names(pv);
    }
    let mut rems: Vec<String> = Vec::new();
    let n = prev.records.len();
    let mut i: usize = 0;
    while i < n
        invariant
            i <= n,
            n == prev.records@.len(),
            prev.wf(),
            pv == prev@,
            pv =~= attr_recs_view(prev.records@),
            pv.len() == n,
            ev == attr_recs_view(extracted@),
            unique_attr_names(ev),
            unique_attr_names(pv),
            forall|k: int|
                0 <= k < strs_view(rems@).len() ==> lookup_attr(
                    pv,
                    #[trigger] strs_view(rems@)[k],
                ) is Some && lookup_attr(ev, strs_view(rems@)[k]) is None,
            forall|k: int|
                0 <= k < strs_view(rems@).len() ==> exists|m: int|
                    0 <= m < i && (#[trigger] strs_view(rems@)[k]) == pv[m].name,
            forall|a: int, b: int|
                0 <= a < b < strs_view(rems@).len() ==> lex_lt(
                    #[trigger] strs_view(rems@)[a],
                    #[trigger] strs_view(rems@)[b],
                ),
            forall|m: int|
                0 <= m < i && lookup_attr(ev, (#[trigger] pv[m]).name) is None ==> strs_view(
                    rems@,
                ).contains(pv[m].name),
        decreases n - i,
    {
        let ghost rv = strs_view(rems@);
        let p = &prev.records[i];
        proof {
            assert(pv[i as int] == prev.records@[i as int]@);
        }
        match find_attr_by_name(extracted, p.name.as_str()) {
            Some(_) => {},
            None => {
                rems.push(p.name.clone());
                proof {
                    let rv2 = strs_view(rems@);
                    assert(rv2 =~= rv.push(pv[i as int].name));
                    lemma_lookup_attr_at_index(pv, i as int);
                    assert(rv2[rv.len() as int] == pv[i as int].name);
                    assert forall|m: int|
                        0 <= m < i + 1 && lookup_attr(ev, (#[trigger] pv[m]).name) is None implies
                        rv2.contains(pv[m].name) by {
                        if m < i {
                            assert(rv.contains(pv[m].name));
                            let k = choose|k: int| 0 <= k < rv.len() && rv[k] == pv[m].name;
                            assert(rv2[k] == pv[m].name);
                        } else {
                            assert(rv2[rv.len() as int] == pv[m].name);
                        }
                    }
                    assert forall|a: int, b: int| 0 <= a < b < rv2.len() implies lex_lt(
                        #[trigger] rv2[a],
                        #[trigger] rv2[b],
                    ) by {
                        if b == rv2.len() - 1 {
                            let m = choose|m: int| 0 <= m < i && rv[a] == pv[m].name;
                            assert(lex_lt(pv[m].name, pv[i as int].name));
                        }
                    }
                    assert forall|k: int| 0 <= k < rv2.len() implies exists|m: int|
                        0 <= m < i + 1 && (#[trigger] rv2[k]) == pv[m].name by {
                        if k < rv.len() {
                            let m = choose|m: int| 0 <= m < i && rv[k] == pv[m].name;
                            assert(0 <= m < i + 1 && rv2[k] == pv[m].name);
                        } else {
                            assert(rv2[k] == pv[i as int].name);
                        }
                    }
                }
            },
        }
        i = i + 1;
    }
    proof {
        assert forall|m: Seq<char>|
            (#[trigger] lookup_attr(pv, m)) is Some && lookup_attr(ev, m) is None implies strs_view(
            rems@,
        ).contains(m) by {
            lemma_lookup_attr_props(pv, m);
            let k = choose|k: int| 0 <= k < pv.len() && pv[k] == lookup_attr(pv, m)->Some_0;
            assert(pv[k].name == m);
            assert(strs_view(rems@).contains(pv[k].name));
        }
    }
    rems
}

/// Collects the field-level change entries by walking the previous
/// snapshot in order.
#[verifier::rlimit(100)]
fn collect_attr_changes(prev: &AttributeSnapshot, extracted: &Vec<AttributeRecord>) -> (chs: Vec<
    AttrChange,
>)
    requires
        prev.wf(),
        unique_attr_names(attr_recs_view(extracted@)),
    ensures
        attr_changes_ok(prev@, attr_recs_view(extracted@), chs@),
{
    let ghost pv = prev@;
    let ghost ev = attr_recs_view(extracted@);
    proof {
        assert(pv =~= attr_recs_view(prev.records@));
        lemma_sorted_unique_attr_names(pv);
    }
    let mut chs: Vec<AttrChange> = Vec::new();
    let n = prev.records.len();
    let mut i: usize = 0;
    while i < n
        invariant
            i <= n,
            n == prev.records@.len(),
            prev.wf(),
            pv == prev@,
            pv =~= attr_recs_view(prev.records@),
            pv.len() == n,
            ev == attr_recs_view(extracted@),
            unique_attr_names(ev),
            unique_attr_names(pv),
            forall|k: int|
                0 <= k < chs@.len() ==> attr_change_entry_ok(pv, ev, #[trigger] chs@[k]),
            forall|k: int|
                0 <= k < chs@.len() ==> exists|m: int|
                    0 <= m < i && (#[trigger] chs@[k].name@) == pv[m].name,
            forall|a: int, b: int|
                0 <= a < b < chs@.len() ==> lex_lt(
                    #[trigger] chs@[a].name@,
                    #[trigger] chs@[b].name@,
                ),
            forall|m: int|
                0 <= m < i ==> match (lookup_attr(pv, (#[trigger] pv[m]).name), lookup_attr(
                    ev,
                    pv[m].name,
                )) {
                    (Some(p), Some(e)) => merged_attr_record(p, e) != p ==> exists|k: int|
                        0 <= k < chs@.len() && (#[trigger] chs@[k].name@) == pv[m].name,
                    _ => true,
                },
        decreases n - i,
    {
        let ghost cv = chs@;
        let p = &prev.records[i];
        proof {
            assert(pv[i as int] == prev.records@[i as int]@);
            lemma_lookup_attr_at_index(pv, i as int);
        }
        match find_attr_by_name(extracted, p.name.as_str()) {
            None => {},
            Some(idx) => {
                let e = &extracted[idx];
                proof {
                    assert(ev[idx as int] == extracted@[idx as int]@);
                }
                let applies_changed = !targets_eq(&p.applies_to, &e.applies_to);
                let template_changed = e.template.is_some() && !(match (p.template, e.template) {
                    (Some(a), Some(b)) => a == b,
                    (None, None) => true,
                    _ => false,
                });
                let dep_changed = !(p.is_deprecated == e.is_deprecated);
                let int_changed = !(p.is_internal == e.is_internal);
                if applies_changed || template_changed || dep_changed || int_changed {
                    let entry = AttrChange {
                        name: p.name.clone(),
                        applies_to_changed: applies_changed,
                        template_changed,
                        is_deprecated_changed: dep_changed,
                        is_internal_changed: int_changed,
                    };
                    chs.push(entry);
                    proof {
                        let pr = pv[i as int];
                        let er = ev[idx as int];
                        assert(chs@ =~= cv.push(entry));
                        assert(chs@[cv.len() as int] == entry);
                        assert(merged_attr_record(pr, er).name == pr.name);
                        assert(merged_attr_record(pr, er) != pr);
                        assert(attr_change_entry_ok(pv, ev, entry));
                        assert forall|a: int, b: int| 0 <= a < b < chs@.len() implies lex_lt(
                            #[trigger] chs@[a].name@,
                            #[trigger] chs@[b].name@,
                        ) by {
                            if b == chs@.len() - 1 {
                                let m = choose|m: int| 0 <= m < i && cv[a].name@ == pv[m].name;
                                assert(lex_lt(pv[m].name, pv[i as int].name));
                            }
                        }
                        assert forall|k: int| 0 <= k < chs@.len() implies exists|m: int|
                            0 <= m < i + 1 && (#[trigger] chs@[k].name@) == pv[m].name by {
                            if k < cv.len() {
                                let m = choose|m: int| 0 <= m < i && cv[k].name@ == pv[m].name;
                                assert(0 <= m < i + 1 && chs@[k].name@ == pv[m].name);
                            } else {
                                assert(chs@[k].name@ == pv[i as int].name);
                            }
                        }
                        assert forall|m: int| 0 <= m < i + 1 implies match (lookup_attr(
                            pv,
                            (#[trigger] pv[m]).name,
                        ), lookup_attr(ev, pv[m].name)) {
                            (Some(pp), Some(ee)) => merged_attr_record(pp, ee) != pp ==> exists|
                                k: int,
                            |
                                0 <= k < chs@.len() && (#[trigger] chs@[k].name@) == pv[m].name,
                            _ => true,
                        } by {
                            if m < i {
                                if match (lookup_attr(pv, pv[m].name), lookup_attr(
                                    ev,
                                    pv[m].name,
                                )) {
                                    (Some(pp), Some(ee)) => merged_attr_record(pp, ee) != pp,
                                    _ => false,
                                } {
                                    let k = choose|k: int|
                                        0 <= k < cv.len() && (#[trigger] cv[k].name@)
                                            == pv[m].name;
                                    assert(chs@[k].name@ == pv[m].name);
                                }
                            } else {
                                assert(chs@[cv.len() as int].name@ == pv[i as int].name);
                            }
                        }
                    }
                } else {
                    proof {
                        let pr = pv[i as int];
                        let er = ev[idx as int];
                        assert(merged_attr_record(pr, er).name == pr.name);
                        assert(merged_attr_record(pr, er) == pr);
                    }
                }
            },
        }
        i = i + 1;
    }
    proof {
        assert forall|m: Seq<char>|
            match (#[trigger] lookup_attr(pv, m), lookup_attr(ev, m)) {
                (Some(p), Some(e)) => merged_attr_record(p, e) != p,
                _ => false,
            } implies exists|k: int| 0 <= k < chs@.len() && (#[trigger] chs@[k].name@) == m by {
            lemma_lookup_attr_props(pv, m);
            let k = choose|k: int| 0 <= k < pv.len() && pv[k] == lookup_attr(pv, m)->Some_0;
            assert(pv[k].name == m);
        }
    }
    chs
}

/// Merges extracted records against the previous snapshot and reports what
/// changed.
pub fn merge_attributes(prev: &AttributeSnapshot, extracted: &Vec<AttributeRecord>) -> (r: (
    AttributeSnapshot,
    AttrMergeReport,
))
    requires
        prev.wf(),
        unique_attr_names(attr_recs_view(extracted@)),
        forall|k: int|
            0 <= k < extracted@.len() ==> attr_rec_ok(#[trigger] attr_recs_view(extracted@)[k]),
    ensures
        r.0.wf(),
        forall|n: Seq<char>|
            #[trigger] lookup_attr(r.0@, n) == attr_merge_lookup(prev@, attr_recs_view(extracted@), n),
        attr_additions_ok(prev@, attr_recs_view(extracted@), strs_view(r.1.additions@)),
        attr_changes_ok(prev@, attr_recs_view(extracted@), r.1.changes@),
        attr_removals_ok(prev@, attr_recs_view(extracted@), strs_view(r.1.removals@)),
{
    let out = merge_attr_records(prev, extracted);
    let additions = collect_attr_additions(&out, prev, extracted);
    let changes = collect_attr_changes(prev, extracted);
    let removals = collect_attr_removals(prev, extracted);
    let snap = AttributeSnapshot { records: out };
    proof {
        assert(snap@ =~= attr_recs_view(snap.records@));
    }
    (snap, AttrMergeReport { additions, changes, removals })
}

/// The curated template hint survives re-extraction: where the extractor
/// supplies no template, the previous hint is kept unchanged.
pub proof fn lemma_attr_merge_preserves_template(
    prev: Seq<AttrRec>,
    ext: Seq<AttrRec>,
    n: Seq<char>,
)
    requires
        lookup_attr(prev, n) is Some,
        lookup_attr(ext, n) is Some,
    ensures
        attr_merge_lookup(prev, ext, n) is Some,
        lookup_attr(ext, n)->Some_0.template is None ==> attr_merge_lookup(prev, ext, n)
            ->Some_0.template == lookup_attr(prev, n)->Some_0.template,
        attr_merge_lookup(prev, ext, n)->Some_0.applies_to == lookup_attr(ext, n)
            ->Some_0.applies_to,
{
}

/// A newly extracted name is reported as an addition and appears, as
/// extracted, in the merged registry.
pub proof fn lemma_attr_addition_detected(
    prev: Seq<AttrRec>,
    ext: Seq<AttrRec>,
    adds: Seq<Seq<char>>,
    out: Seq<AttrRec>,
    n: Seq<char>,
)
    requires
        attr_additions_ok(prev, ext, adds),
        forall|m: Seq<char>| #[trigger] lookup_attr(out, m) == attr_merge_lookup(prev, ext, m),
        lookup_attr(prev, n) is None,
        lookup_attr(ext, n) is Some,
    ensures
        adds.contains(n),
        lookup_attr(out, n) == lookup_attr(ext, n),
{
    assert(lookup_attr(out, n) == attr_merge_lookup(prev, ext, n));
}

/// A vanished name is retained, flagged stale via the internal marker, and
/// otherwise unchanged, never deleted.
pub proof fn lemma_attr_removal_retained(prev: Seq<AttrRec>, ext: Seq<AttrRec>, n: Seq<char>)
    requires
        lookup_attr(prev, n) is Some,
        lookup_attr(ext, n) is None,
    ensures
        attr_merge_lookup(prev, ext, n) is Some,
        attr_merge_lookup(prev, ext, n)->Some_0.is_internal,
        attr_merge_lookup(prev, ext, n)->Some_0.name == lookup_attr(prev, n)->Some_0.name,
        attr_merge_lookup(prev, ext, n)->Some_0.applies_to == lookup_attr(prev, n)
            ->Some_0.applies_to,
        attr_merge_lookup(prev, ext, n)->Some_0.template == lookup_attr(prev, n)->Some_0.template,
        attr_merge_lookup(prev, ext, n)->Some_0.is_deprecated == lookup_attr(prev, n)
            ->Some_0.is_deprecated,
{
}

proof fn lemma_attr_contains_transfer(x1: Seq<AttrRec>, x2: Seq<AttrRec>, r: AttrRec)
    requires
        x1.to_multiset() == x2.to_multiset(),
        x1.contains(r),
    ensures
        x2.contains(r),
{
    broadcast use vstd::seq_lib::group_to_multiset_ensures;

    assert(x1.to_multiset().count(r) > 0);
    assert(x2.to_multiset().count(r) > 0);
}

/// Two extractions holding the same records, in whatever order, merge to
/// the same registry.
pub proof fn lemma_attr_merge_deterministic(
    prev: Seq<AttrRec>,
    ext1: Seq<AttrRec>,
    ext2: Seq<AttrRec>,
    out1: Seq<AttrRec>,
    out2: Seq<AttrRec>,
)
    requires
        unique_attr_names(ext1),
        ext1.to_multiset() == ext2.to_multiset(),
        attr_snapshot_wf(out1),
        attr_snapshot_wf(out2),
        forall|n: Seq<char>| #[trigger] lookup_attr(out1, n) == attr_merge_lookup(prev, ext1, n),
        forall|n: Seq<char>| #[trigger] lookup_attr(out2, n) == attr_merge_lookup(prev, ext2, n),
    ensures
        out1 == out2,
{
    broadcast use vstd::seq_lib::group_to_multiset_ensures;

    assert(ext1.no_duplicates()) by {
        assert forall|i: int, j: int|
            0 <= i < ext1.len() && 0 <= j < ext1.len() && i != j implies ext1[i] != ext1[j] by {
            if i < j {
                assert(ext1[i].name != ext1[j].name);
            } else {
                assert(ext1[j].name != ext1[i].name);
            }
        }
    }
    ext1.lemma_multiset_has_no_duplicates();
    ext2.lemma_multiset_has_no_duplicates_conv();
    assert forall|i: int, j: int| 0 <= i < j < ext2.len() implies (#[trigger] ext2[i].name) != (
    #[trigger] ext2[j].name) by {
        if ext2[i].name == ext2[j].name {
            assert(ext2[i] != ext2[j]);
            assert(ext2.contains(ext2[i]));
            assert(ext2.contains(ext2[j]));
            lemma_attr_contains_transfer(ext2, ext1, ext2[i]);
            lemma_attr_contains_transfer(ext2, ext1, ext2[j]);
            let a = choose|a: int| 0 <= a < ext1.len() && ext1[a] == ext2[i];
            let b = choose|b: int| 0 <= b < ext1.len() && ext1[b] == ext2[j];
            assert(a != b);
            if a < b {
                assert(ext1[a].name != ext1[b].name);
            } else {
                assert(ext1[b].name != ext1[a].name);
            }
            assert(false);
        }
    }
    assert forall|n: Seq<char>| #[trigger] lookup_attr(ext1, n) == lookup_attr(ext2, n) by {
        lemma_lookup_attr_props(ext1, n);
        lemma_lookup_attr_props(ext2, n);
        match lookup_attr(ext1, n) {
            Some(r) => {
                let i = choose|i: int| 0 <= i < ext1.len() && ext1[i] == r;
                assert(ext1.contains(ext1[i]));
                lemma_attr_contains_transfer(ext1, ext2, r);
                let k = choose|k: int| 0 <= k < ext2.len() && ext2[k] == r;
                lemma_lookup_attr_at_index(ext2, k);
            },
            None => {
                if lookup_attr(ext2, n) is Some {
                    let r2 = lookup_attr(ext2, n)->Some_0;
                    let k = choose|k: int| 0 <= k < ext2.len() && ext2[k] == r2;
                    assert(ext2.contains(ext2[k]));
                    lemma_attr_contains_transfer(ext2, ext1, r2);
                    let i = choose|i: int| 0 <= i < ext1.len() && ext1[i] == r2;
                    assert(ext1[i].name != n);
                    assert(false);
                }
            },
        }
    }
    assert forall|n: Seq<char>| #[trigger] lookup_attr(out1, n) == lookup_attr(out2, n) by {
        assert(lookup_attr(out1, n) == attr_merge_lookup(prev, ext1, n));
        assert(lookup_attr(out2, n) == attr_merge_lookup(prev, ext2, n));
        assert(lookup_attr(ext1, n) == lookup_attr(ext2, n));
    }
    crate::attribute::lemma_attr_snapshot_ext(out1, out2);
}

/// Merging a merged registry against the same extraction changes nothing:
/// with an unchanged upstream source, a second run reproduces its input.
pub proof fn lemma_attr_merge_idempotent(
    prev: Seq<AttrRec>,
    ext: Seq<AttrRec>,
    out: Seq<AttrRec>,
)
    requires
        attr_snapshot_wf(out),
        forall|n: Seq<char>| #[trigger] lookup_attr(out, n) == attr_merge_lookup(prev, ext, n),
    ensures
        forall|n: Seq<char>| #[trigger] attr_merge_lookup(out, ext, n) == lookup_attr(out, n),
{
    assert forall|n: Seq<char>| #[trigger] attr_merge_lookup(out, ext, n) == lookup_attr(out, n) by {
        assert(lookup_attr(out, n) == attr_merge_lookup(prev, ext, n));
        match (lookup_attr(prev, n), lookup_attr(ext, n)) {
            (Some(p), Some(e)) => {
                assert(merged_attr_record(merged_attr_record(p, e), e) == merged_attr_record(p, e));
            },
            (Some(p), None) => {
                assert(stale_record(stale_record(p)) == stale_record(p));
            },
            (None, Some(e)) => {
                assert(merged_attr_record(e, e) == e);
            },
            (None, None) => {},
        }
    }
}

/// Two pipeline runs with the same upstream source produce the same
/// registry, hence byte-identical output.
pub proof fn lemma_attr_pipeline_idempotent(
    prev: Seq<AttrRec>,
    ext: Seq<AttrRec>,
    out: Seq<AttrRec>,
    out2: Seq<AttrRec>,
)
    requires
        attr_snapshot_wf(out),
        attr_snapshot_wf(out2),
        forall|n: Seq<char>| #[trigger] lookup_attr(out, n) == attr_merge_lookup(prev, ext, n),
        forall|n: Seq<char>| #[trigger] lookup_attr(out2, n) == attr_merge_lookup(out, ext, n),
    ensures
        out2 == out,
        crate::attribute_json::fmt_attributes(out2) == crate::attribute_json::fmt_attributes(out),
{
    lemma_attr_merge_idempotent(prev, ext, out);
    assert forall|n: Seq<char>| #[trigger] lookup_attr(out2, n) == lookup_attr(out, n) by {
        assert(lookup_attr(out2, n) == attr_merge_lookup(out, ext, n));
    }
    crate::attribute::lemma_attr_snapshot_ext(out2, out);
}

} // verus!
