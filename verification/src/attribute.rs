//! The builtin-attribute registry: one record per attribute the compiler
//! recognizes, keyed by a unique name, kept sorted by name when persisted.

use vstd::prelude::*;

use crate::order::{lex_lt, lemma_lex_neq, lemma_lex_trans};
use crate::text::text_ok;

verus! {

/// A syntactic item kind an attribute may decorate.
#[derive(Clone, Copy, PartialEq, Eq, Structural, Debug)]
pub enum AttrTarget {
    Crate,
    Enum,
    Function,
    Impl,
    Module,
    Static,
    Struct,
    Trait,
}

/// The canonical position of a target kind; the persisted set is ordered by
/// this code.
pub open spec fn target_code(t: AttrTarget) -> int {
    match t {
        AttrTarget::Crate => 0,
        AttrTarget::Enum => 1,
        AttrTarget::Function => 2,
        AttrTarget::Impl => 3,
        AttrTarget::Module => 4,
        AttrTarget::Static => 5,
        AttrTarget::Struct => 6,
        AttrTarget::Trait => 7,
    }
}

/// Exec counterpart of [`target_code`].
pub fn target_code_ex(t: AttrTarget) -> (r: u8)
    ensures
        r as int == target_code(t),
{
    match t {
        AttrTarget::Crate => 0,
        AttrTarget::Enum => 1,
        AttrTarget::Function => 2,
        AttrTarget::Impl => 3,
        AttrTarget::Module => 4,
        AttrTarget::Static => 5,
        AttrTarget::Struct => 6,
        AttrTarget::Trait => 7,
    }
}

/// Structural shape of an attribute's arguments.
#[derive(Clone, Copy, PartialEq, Eq, Structural, Debug)]
pub enum AttrTemplate {
    Word,
    List,
    NameValue,
}

/// One builtin attribute.
pub struct AttributeRecord {
    /// Unique stable identifier.
    pub name: String,
    /// Target kinds the attribute may decorate, in canonical order.
    pub applies_to: Vec<AttrTarget>,
    /// Shape hint, preserved across regenerations when the extractor has
    /// nothing to say.
    pub template: Option<AttrTemplate>,
    /// Carried through from source.
    pub is_deprecated: bool,
    /// Carried through from source; doubles as the stale marker for records
    /// that vanished upstream.
    pub is_internal: bool,
}

/// Mathematical image of an attribute record.
pub struct AttrRec {
    pub name: Seq<char>,
    pub applies_to: Seq<AttrTarget>,
    pub template: Option<AttrTemplate>,
    pub is_deprecated: bool,
    pub is_internal: bool,
}

impl View for AttributeRecord {
    type V = AttrRec;

    open spec fn view(&self) -> AttrRec {
        AttrRec {
            name: self.name@,
            applies_to: self.applies_to@,
            template: self.template,
            is_deprecated: self.is_deprecated,
            is_internal: self.is_internal,
        }
    }
}

/// Membership, not position, is what the target set means: the persisted
/// order is fixed to strictly increasing codes.
pub open spec fn targets_canonical(s: Seq<AttrTarget>) -> bool {
    forall|i: int, j: int|
        0 <= i < j < s.len() ==> target_code(#[trigger] s[i]) < target_code(#[trigger] s[j])
}

/// A record the registry accepts.
pub open spec fn attr_rec_ok(r: AttrRec) -> bool {
    &&& r.name.len() > 0
    &&& text_ok(r.name)
    &&& targets_canonical(r.applies_to)
}

impl AttributeRecord {
    /// Produces an independent copy of the record.
    pub fn duplicate(&self) -> (r: AttributeRecord)
        ensures
            r@ == self@,
    {
        let mut targets: Vec<AttrTarget> = Vec::new();
        let mut i: usize = 0;
        while i < self.applies_to.len()
            invariant
                i <= self.applies_to.len(),
                targets@ == self.applies_to@.take(i as int),
            decreases self.applies_to.len() - i,
        {
            targets.push(self.applies_to[i]);
            proof {
                assert(self.applies_to@.take(i + 1 as int) =~= self.applies_to@.take(
                    i as int,
                ).push(self.applies_to@[i as int]));
            }
            i = i + 1;
        }
        proof {
            assert(self.applies_to@.take(self.applies_to@.len() as int) =~= self.applies_to@);
        }
        AttributeRecord {
            name: self.name.clone(),
            applies_to: targets,
            template: self.template,
            is_deprecated: self.is_deprecated,
            is_internal: self.is_internal,
        }
    }
}

/// Views of a sequence of records.
pub open spec fn attr_recs_view(s: Seq<AttributeRecord>) -> Seq<AttrRec> {
    s.map_values(|r: AttributeRecord| r@)
}

/// The persisted registry: records sorted strictly by name.
pub struct AttributeSnapshot {
    pub records: Vec<AttributeRecord>,
}

impl View for AttributeSnapshot {
    type V = Seq<AttrRec>;

    open spec fn view(&self) -> Seq<AttrRec> {
        self.records@.map_values(|r: AttributeRecord| r@)
    }
}

/// Every record is acceptable and names are strictly increasing.
pub open spec fn attr_snapshot_wf(s: Seq<AttrRec>) -> bool {
    &&& forall|i: int| 0 <= i < s.len() ==> attr_rec_ok(#[trigger] s[i])
    &&& forall|i: int, j: int| 0 <= i < j < s.len() ==> lex_lt(#[trigger] s[i].name, #[trigger] s[j].name)
}

impl AttributeSnapshot {
    /// The snapshot invariant.
    pub open spec fn wf(&self) -> bool {
        attr_snapshot_wf(self@)
    }

    /// The empty registry, used when no snapshot exists yet.
    pub fn empty() -> (r: AttributeSnapshot)
        ensures
            r@ == Seq::<AttrRec>::empty(),
            r.wf(),
    {
        let r = AttributeSnapshot { records: Vec::new() };
        proof {
            assert(r@ =~= Seq::<AttrRec>::empty());
        }
        r
    }
}

/// No two records carry the same name.
pub open spec fn unique_attr_names(s: Seq<AttrRec>) -> bool {
    forall|i: int, j: int| 0 <= i < j < s.len() ==> (#[trigger] s[i].name) != (#[trigger] s[j].name)
}

/// Strictly sorted names are unique.
pub proof fn lemma_sorted_unique_attr_names(s: Seq<AttrRec>)
    requires
        attr_snapshot_wf(s),
    ensures
        unique_attr_names(s),
{
    assert forall|i: int, j: int| 0 <= i < j < s.len() implies (#[trigger] s[i].name) != (
    #[trigger] s[j].name) by {
        lemma_lex_neq(s[i].name, s[j].name);
    }
}

/// The first record named `name`, scanning left to right.
pub open spec fn lookup_attr(s: Seq<AttrRec>, name: Seq<char>) -> Option<AttrRec>
    decreases s.len(),
{
    if s.len() == 0 {
        None
    } else if s[0].name == name {
        Some(s[0])
    } else {
        lookup_attr(s.skip(1), name)
    }
}

/// What a lookup result means.
pub proof fn lemma_lookup_attr_props(s: Seq<AttrRec>, name: Seq<char>)
    ensures
        match lookup_attr(s, name) {
            Some(r) => r.name == name && exists|i: int| 0 <= i < s.len() && s[i] == r,
            None => forall|i: int| 0 <= i < s.len() ==> (#[trigger] s[i].name) != name,
        },
    decreases s.len(),
{
    if s.len() > 0 && s[0].name != name {
        lemma_lookup_attr_props(s.skip(1), name);
        match lookup_attr(s.skip(1), name) {
            Some(r) => {
                let i = choose|i: int| 0 <= i < s.skip(1).len() && s.skip(1)[i] == r;
                assert(s[i + 1] == r);
            },
            None => {
                assert forall|i: int| 0 <= i < s.len() implies (#[trigger] s[i].name) != name by {
                    if i > 0 {
                        assert(s.skip(1)[i - 1].name != name);
                    }
                }
            },
        }
    }
}

/// With unique names, a held record is exactly what its name looks up to.
pub proof fn lemma_lookup_attr_at_index(s: Seq<AttrRec>, i: int)
    requires
        unique_attr_names(s),
        0 <= i < s.len(),
    ensures
        lookup_attr(s, s[i].name) == Some(s[i]),
    decreases s.len(),
{
    if i == 0 {
    } else {
        assert(s[0].name != s[i].name);
        assert forall|p: int, q: int| 0 <= p < q < s.skip(1).len() implies (
        #[trigger] s.skip(1)[p].name) != (#[trigger] s.skip(1)[q].name) by {
            assert(s.skip(1)[p] == s[p + 1]);
            assert(s.skip(1)[q] == s[q + 1]);
        }
        lemma_lookup_attr_at_index(s.skip(1), i - 1);
        assert(s.skip(1)[i - 1] == s[i]);
    }
}

/// Two well-formed snapshots that agree on every lookup are the same
/// sequence of records.
pub proof fn lemma_attr_snapshot_ext(a: Seq<AttrRec>, b: Seq<AttrRec>)
    requires
        attr_snapshot_wf(a),
        attr_snapshot_wf(b),
        forall|n: Seq<char>| #[trigger] lookup_attr(a, n) == lookup_attr(b, n),
    ensures
        a == b,
    decreases a.len(),
{
    lemma_sorted_unique_attr_names(a);
    lemma_sorted_unique_attr_names(b);
    if a.len() == 0 && b.len() == 0 {
        assert(a =~= b);
    } else if a.len() == 0 {
        lemma_lookup_attr_at_index(b, 0);
        assert(lookup_attr(a, b[0].name) is None);
    } else if b.len() == 0 {
        lemma_lookup_attr_at_index(a, 0);
        assert(lookup_attr(b, a[0].name) is None);
    } else {
        lemma_lookup_attr_at_index(a, 0);
        lemma_lookup_attr_at_index(b, 0);
        lemma_lookup_attr_props(b, a[0].name);
        lemma_lookup_attr_props(a, b[0].name);
        let ia = choose|i: int| 0 <= i < b.len() && b[i] == a[0];
        let ib = choose|i: int| 0 <= i < a.len() && a[i] == b[0];
        if ia > 0 {
            assert(lex_lt(b[0].name, b[ia].name));
            if ib > 0 {
                assert(lex_lt(a[0].name, a[ib].name));
                lemma_lex_trans(b[0].name, a[0].name, b[0].name);
                lemma_lex_neq(b[0].name, b[0].name);
            }
        }
        assert(a[0] == b[0]);
        let at = a.skip(1);
        let bt = b.skip(1);
        assert forall|n: Seq<char>| #[trigger] lookup_attr(at, n) == lookup_attr(bt, n) by {
            if n == a[0].name {
                lemma_lookup_attr_props(at, n);
                lemma_lookup_attr_props(bt, n);
                if lookup_attr(at, n) is Some {
                    let r = lookup_attr(at, n)->Some_0;
                    let i = choose|i: int| 0 <= i < at.len() && at[i] == r;
                    assert(a[i + 1] == r);
                    assert(a[0].name != a[i + 1].name);
                    assert(false);
                }
                if lookup_attr(bt, n) is Some {
                    let r = lookup_attr(bt, n)->Some_0;
                    let i = choose|i: int| 0 <= i < bt.len() && bt[i] == r;
                    assert(b[i + 1] == r);
                    assert(b[0].name != b[i + 1].name);
                    assert(false);
                }
            } else {
                assert(lookup_attr(a, n) == lookup_attr(at, n));
                assert(lookup_attr(b, n) == lookup_attr(bt, n));
            }
        }
        assert forall|i: int| 0 <= i < at.len() implies attr_rec_ok(#[trigger] at[i]) by {
            assert(at[i] == a[i + 1]);
        }
        assert forall|i: int, j: int| 0 <= i < j < at.len() implies lex_lt(
            #[trigger] at[i].name,
            #[trigger] at[j].name,
        ) by {
            assert(at[i] == a[i + 1]);
            assert(at[j] == a[j + 1]);
        }
        assert forall|i: int| 0 <= i < bt.len() implies attr_rec_ok(#[trigger] bt[i]) by {
            assert(bt[i] == b[i + 1]);
        }
        assert forall|i: int, j: int| 0 <= i < j < bt.len() implies lex_lt(
            #[trigger] bt[i].name,
            #[trigger] bt[j].name,
        ) by {
            assert(bt[i] == b[i + 1]);
            assert(bt[j] == b[j + 1]);
        }
        lemma_attr_snapshot_ext(at, bt);
        assert forall|i: int| 0 <= i < a.len() implies a[i] == b[i] by {
            if i > 0 {
                assert(at[i - 1] == bt[i - 1]);
                assert(at[i - 1] == a[i]);
                assert(bt[i - 1] == b[i]);
            }
        }
        assert(a =~= b);
    }
}

} // verus!
