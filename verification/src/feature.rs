//! The compiler-feature registry: one record per feature gate, keyed by a
//! unique name, kept sorted by name in the persisted snapshot.

use vstd::prelude::*;

use crate::order::{lex_lt, lemma_lex_neq, lemma_lex_trans};
use crate::text::text_ok;

verus! {

/// Lifecycle state of a feature gate.
#[derive(Clone, Copy, PartialEq, Eq, Structural, Debug)]
pub enum FeatureStatus {
    Active,
    Accepted,
    Removed,
    Incomplete,
    Unknown,
}

/// One compiler feature gate.
pub struct FeatureRecord {
    /// Unique stable identifier.
    pub name: String,
    /// Lifecycle state.
    pub status: FeatureStatus,
    /// Version at which the feature appeared or changed status, if known.
    pub since_version: Option<String>,
    /// Curated external reference; survives regeneration.
    pub tracking_issue: Option<String>,
    /// Curated human summary; survives regeneration.
    pub description: Option<String>,
}

/// Mathematical image of a feature record.
pub struct FeatureRec {
    pub name: Seq<char>,
    pub status: FeatureStatus,
    pub since_version: Option<Seq<char>>,
    pub tracking_issue: Option<Seq<char>>,
    pub description: Option<Seq<char>>,
}

/// View of an optional owned string.
pub open spec fn opt_view(o: Option<String>) -> Option<Seq<char>> {
    match o {
        None => None,
        Some(s) => Some(s@),
    }
}

impl View for FeatureRecord {
    type V = FeatureRec;

    open spec fn view(&self) -> FeatureRec {
        FeatureRec {
            name: self.name@,
            status: self.status,
            since_version: opt_view(self.since_version),
            tracking_issue: opt_view(self.tracking_issue),
            description: opt_view(self.description),
        }
    }
}

/// Optional text that can sit inside a JSON string.
pub open spec fn opt_text_ok(o: Option<Seq<char>>) -> bool {
    match o {
        None => true,
        Some(s) => text_ok(s),
    }
}

/// A record the registry accepts: a nonempty JSON-safe name and JSON-safe
/// optional fields.
pub open spec fn feature_rec_ok(r: FeatureRec) -> bool {
    &&& r.name.len() > 0
    &&& text_ok(r.name)
    &&& opt_text_ok(r.since_version)
    &&& opt_text_ok(r.tracking_issue)
    &&& opt_text_ok(r.description)
}

impl FeatureRecord {
    /// Produces an independent copy of the record.
    pub fn duplicate(&self) -> (r: FeatureRecord)
        ensures
            r@ == self@,
    {
        FeatureRecord {
            name: self.name.clone(),
            status: self.status,
            since_version: match &self.since_version {
                None => None,
                Some(s) => Some(s.clone()),
            },
            tracking_issue: match &self.tracking_issue {
                None => None,
                Some(s) => Some(s.clone()),
            },
            description: match &self.description {
                None => None,
                Some(s) => Some(s.clone()),
            },
        }
    }
}

/// Views of a sequence of records.
pub open spec fn recs_view(s: Seq<FeatureRecord>) -> Seq<FeatureRec> {
    s.map_values(|r: FeatureRecord| r@)
}

/// The persisted registry: records sorted strictly by name.
pub struct FeatureSnapshot {
    pub records: Vec<FeatureRecord>,
}

impl View for FeatureSnapshot {
    type V = Seq<FeatureRec>;

    open spec fn view(&self) -> Seq<FeatureRec> {
        self.records@.map_values(|r: FeatureRecord| r@)
    }
}

/// Every record is acceptable and names are strictly increasing, which makes
/// them unique.
pub open spec fn feature_snapshot_wf(s: Seq<FeatureRec>) -> bool {
    &&& forall|i: int| 0 <= i < s.len() ==> feature_rec_ok(#[trigger] s[i])
    &&& forall|i: int, j: int| 0 <= i < j < s.len() ==> lex_lt(#[trigger] s[i].name, #[trigger] s[j].name)
}

impl FeatureSnapshot {
    /// The snapshot invariant.
    pub open spec fn wf(&self) -> bool {
        feature_snapshot_wf(self@)
    }

    /// The empty registry, used when no snapshot exists yet.
    pub fn empty() -> (r: FeatureSnapshot)
        ensures
            r@ == Seq::<FeatureRec>::empty(),
            r.wf(),
    {
        let r = FeatureSnapshot { records: Vec::new() };
        proof {
            assert(r@ =~= Seq::<FeatureRec>::empty());
        }
        r
    }
}

/// No two records carry the same name.
pub open spec fn unique_names(s: Seq<FeatureRec>) -> bool {
    forall|i: int, j: int| 0 <= i < j < s.len() ==> (#[trigger] s[i].name) != (#[trigger] s[j].name)
}

/// Strictly sorted names are unique.
pub proof fn lemma_sorted_unique_names(s: Seq<FeatureRec>)
    requires
        feature_snapshot_wf(s),
    ensures
        unique_names(s),
{
    assert forall|i: int, j: int| 0 <= i < j < s.len() implies (#[trigger] s[i].name) != (
    #[trigger] s[j].name) by {
        lemma_lex_neq(s[i].name, s[j].name);
    }
}

/// The first record named `name`, scanning left to right.
pub open spec fn lookup(s: Seq<FeatureRec>, name: Seq<char>) -> Option<FeatureRec>
    decreases s.len(),
{
    if s.len() == 0 {
        None
    } else if s[0].name == name {
        Some(s[0])
    } else {
        lookup(s.skip(1), name)
    }
}

/// What a lookup result means: a hit is a record of that name held by the
/// sequence; a miss means no record has the name.
pub proof fn lemma_lookup_props(s: Seq<FeatureRec>, name: Seq<char>)
    ensures
        match lookup(s, name) {
            Some(r) => r.name == name && exists|i: int| 0 <= i < s.len() && s[i] == r,
            None => forall|i: int| 0 <= i < s.len() ==> (#[trigger] s[i].name) != name,
        },
    decreases s.len(),
{
    if s.len() > 0 && s[0].name != name {
        lemma_lookup_props(s.skip(1), name);
        match lookup(s.skip(1), name) {
            Some(r) => {
                let i = choose|i: int| 0 <= i < s.skip(1).len() && s.skip(1)[i] == r;
                assert(s[i + 1] == r);
            },
            None => {
                assert forall|i: int| 0 <= i < s.len() implies (#[trigger] s[i].name) != name by {
                    if i > 0 {
                        assert(s.skip(1)[i - 1].name != name);
                    }
                }
            },
        }
    }
}

/// With unique names, a held record is exactly what its name looks up to.
pub proof fn lemma_lookup_at_index(s: Seq<FeatureRec>, i: int)
    requires
        unique_names(s),
        0 <= i < s.len(),
    ensures
        lookup(s, s[i].name) == Some(s[i]),
    decreases s.len(),
{
    if i == 0 {
    } else {
        assert(s[0].name != s[i].name);
        assert forall|p: int, q: int| 0 <= p < q < s.skip(1).len() implies (
        #[trigger] s.skip(1)[p].name) != (#[trigger] s.skip(1)[q].name) by {
            assert(s.skip(1)[p] == s[p + 1]);
            assert(s.skip(1)[q] == s[q + 1]);
        }
        lemma_lookup_at_index(s.skip(1), i - 1);
        assert(s.skip(1)[i - 1] == s[i]);
    }
}

/// Two well-formed snapshots that agree on every lookup are the same
/// sequence of records.
pub proof fn lemma_snapshot_ext(a: Seq<FeatureRec>, b: Seq<FeatureRec>)
    requires
        feature_snapshot_wf(a),
        feature_snapshot_wf(b),
        forall|n: Seq<char>| #[trigger] lookup(a, n) == lookup(b, n),
    ensures
        a == b,
    decreases a.len(),
{
    lemma_sorted_unique_names(a);
    lemma_sorted_unique_names(b);
    if a.len() == 0 && b.len() == 0 {
        assert(a =~= b);
    } else if a.len() == 0 {
        lemma_lookup_at_index(b, 0);
        assert(lookup(a, b[0].name) is None);
    } else if b.len() == 0 {
        lemma_lookup_at_index(a, 0);
        assert(lookup(b, a[0].name) is None);
    } else {
        // The heads are each other's lookups: the least name must agree.
        lemma_lookup_at_index(a, 0);
        lemma_lookup_at_index(b, 0);
        lemma_lookup_props(b, a[0].name);
        lemma_lookup_props(a, b[0].name);
        let ia = choose|i: int| 0 <= i < b.len() && b[i] == a[0];
        let ib = choose|i: int| 0 <= i < a.len() && a[i] == b[0];
        if ia > 0 {
            assert(lex_lt(b[0].name, b[ia].name));
            if ib > 0 {
                assert(lex_lt(a[0].name, a[ib].name));
                lemma_lex_trans(b[0].name, a[0].name, b[0].name);
                lemma_lex_neq(b[0].name, b[0].name);
            }
        }
        assert(a[0] == b[0]);
        let at = a.skip(1);
        let bt = b.skip(1);
        assert forall|n: Seq<char>| #[trigger] lookup(at, n) == lookup(bt, n) by {
            if n == a[0].name {
                lemma_lookup_props(at, n);
                lemma_lookup_props(bt, n);
                if lookup(at, n) is Some {
                    let r = lookup(at, n)->Some_0;
                    let i = choose|i: int| 0 <= i < at.len() && at[i] == r;
                    assert(a[i + 1] == r);
                    assert(a[0].name != a[i + 1].name);
                    assert(false);
                }
                if lookup(bt, n) is Some {
                    let r = lookup(bt, n)->Some_0;
                    let i = choose|i: int| 0 <= i < bt.len() && bt[i] == r;
                    assert(b[i + 1] == r);
                    assert(b[0].name != b[i + 1].name);
                    assert(false);
                }
            } else {
                assert(lookup(a, n) == lookup(at, n));
                assert(lookup(b, n) == lookup(bt, n));
            }
        }
        assert forall|i: int| 0 <= i < at.len() implies feature_rec_ok(#[trigger] at[i]) by {
            assert(at[i] == a[i + 1]);
        }
        assert forall|i: int, j: int| 0 <= i < j < at.len() implies lex_lt(
            #[trigger] at[i].name,
            #[trigger] at[j].name,
        ) by {
            assert(at[i] == a[i + 1]);
            assert(at[j] == a[j + 1]);
        }
        assert forall|i: int| 0 <= i < bt.len() implies feature_rec_ok(#[trigger] bt[i]) by {
            assert(bt[i] == b[i + 1]);
        }
        assert forall|i: int, j: int| 0 <= i < j < bt.len() implies lex_lt(
            #[trigger] bt[i].name,
            #[trigger] bt[j].name,
        ) by {
            assert(bt[i] == b[i + 1]);
            assert(bt[j] == b[j + 1]);
        }
        lemma_snapshot_ext(at, bt);
        assert forall|i: int| 0 <= i < a.len() implies a[i] == b[i] by {
            if i > 0 {
                assert(at[i - 1] == bt[i - 1]);
                assert(at[i - 1] == a[i]);
                assert(bt[i - 1] == b[i]);
            }
        }
        assert(a =~= b);
    }
}

} // verus!
