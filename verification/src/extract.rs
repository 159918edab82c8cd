//! The source extractor: turns upstream declaration text into typed
//! records, line by line. A line is blank or a `#` comment (ignored), a
//! well-formed declaration (one record), or malformed (skipped, with a
//! warning naming the line). The feature grammar is
//! `name status [since-version] [tracking-issue]`, tokens separated by
//! single spaces, `-` standing for an absent optional field.

use vstd::prelude::*;

use crate::attribute::{
    attr_rec_ok, attr_recs_view, targets_canonical, AttrRec, AttrTarget, AttrTemplate,
    AttributeRecord,
};
use crate::attribute_json::{
    check_targets_canonical, target_of_word, template_of_word, word_to_target, word_to_template,
};
use crate::feature::{feature_rec_ok, opt_text_ok, recs_view, FeatureRec, FeatureRecord};
use crate::feature_json::{status_of_word, word_to_status};
use crate::merge_feature::strs_view;
use crate::order::str_eq;
use crate::text::{is_text_ok, split_on, split_string, text_ok};

verus! {

/// A line carrying no declaration: empty, or a comment.
pub open spec fn is_blank(line: Seq<char>) -> bool {
    line.len() == 0 || line[0] == '#'
}

/// A usable token: nonempty, JSON-safe text.
pub open spec fn token_ok(t: Seq<char>) -> bool {
    t.len() > 0 && text_ok(t)
}

/// `-` denotes an absent optional field.
pub open spec fn dash_opt(t: Seq<char>) -> Option<Seq<char>> {
    if t == "-"@ {
        None
    } else {
        Some(t)
    }
}

/// The record a token list declares, if it is well-formed.
pub open spec fn feature_from_tokens(toks: Seq<Seq<char>>) -> Option<FeatureRec> {
    if !(2 <= toks.len() <= 4) {
        None
    } else if !token_ok(toks[0]) || !token_ok(toks[1]) || (toks.len() >= 3 && !token_ok(toks[2]))
        || (toks.len() >= 4 && !token_ok(toks[3])) {
        None
    } else {
        match word_to_status(toks[1]) {
            None => None,
            Some(st) => Some(
                FeatureRec {
                    name: toks[0],
                    status: st,
                    since_version: if toks.len() >= 3 {
                        dash_opt(toks[2])
                    } else {
                        None
                    },
                    tracking_issue: if toks.len() >= 4 {
                        dash_opt(toks[3])
                    } else {
                        None
                    },
                    description: None,
                },
            ),
        }
    }
}

/// The record one line declares.
pub open spec fn feature_from_line(line: Seq<char>) -> Option<FeatureRec> {
    feature_from_tokens(split_on(line, ' '))
}

/// All records the source declares, in line order; blank and malformed
/// lines contribute nothing.
pub open spec fn extract_feature_recs(lines: Seq<Seq<char>>) -> Seq<FeatureRec>
    decreases lines.len(),
{
    if lines.len() == 0 {
        Seq::empty()
    } else {
        extract_feature_recs(lines.drop_last()) + (if is_blank(lines.last()) {
            Seq::empty()
        } else {
            match feature_from_line(lines.last()) {
                Some(r) => seq![r],
                None => Seq::empty(),
            }
        })
    }
}

/// The indexes of the malformed lines, in order.
pub open spec fn extract_feature_warnings(lines: Seq<Seq<char>>) -> Seq<int>
    decreases lines.len(),
{
    if lines.len() == 0 {
        Seq::empty()
    } else {
        extract_feature_warnings(lines.drop_last()) + (if !is_blank(lines.last())
            && feature_from_line(lines.last()) is None {
            seq![lines.len() - 1]
        } else {
            Seq::empty()
        })
    }
}

/// Whatever extraction yields is an acceptable record.
pub proof fn lemma_extract_feature_recs_ok(lines: Seq<Seq<char>>)
    ensures
        forall|k: int|
            0 <= k < extract_feature_recs(lines).len() ==> feature_rec_ok(
                #[trigger] extract_feature_recs(lines)[k],
            ),
    decreases lines.len(),
{
    if lines.len() > 0 {
        lemma_extract_feature_recs_ok(lines.drop_last());
        let prefix = extract_feature_recs(lines.drop_last());
        let whole = extract_feature_recs(lines);
        assert forall|k: int| 0 <= k < whole.len() implies feature_rec_ok(#[trigger] whole[k]) by {
            if k < prefix.len() {
                assert(whole[k] == prefix[k]);
            } else {
                let line = lines.last();
                if !is_blank(line) && feature_from_line(line) is Some {
                    let toks = split_on(line, ' ');
                    let r = feature_from_line(line)->Some_0;
                    assert(whole[k] == r);
                    assert(opt_text_ok(r.since_version));
                    assert(opt_text_ok(r.tracking_issue));
                }
            }
        }
    }
}

/// Builds the record one token list declares, if any.
fn feature_from_tokens_ex(toks: &Vec<String>) -> (r: Option<FeatureRecord>)
    ensures
        match r {
            Some(rec) => feature_from_tokens(strs_view(toks@)) == Some(rec@),
            None => feature_from_tokens(strs_view(toks@)) is None,
        },
{
    let ghost tv = strs_view(toks@);
    let n = toks.len();
    if n < 2 || n > 4 {
        return None;
    }
    proof {
        assert(tv[0] == toks@[0]@);
        assert(tv[1] == toks@[1]@);
    }
    if toks[0].as_str().unicode_len() == 0 || !is_text_ok(toks[0].as_str()) {
        return None;
    }
    if toks[1].as_str().unicode_len() == 0 || !is_text_ok(toks[1].as_str()) {
        return None;
    }
    if n >= 3 {
        proof {
            assert(tv[2] == toks@[2]@);
        }
        if toks[2].as_str().unicode_len() == 0 || !is_text_ok(toks[2].as_str()) {
            return None;
        }
    }
    if n >= 4 {
        proof {
            assert(tv[3] == toks@[3]@);
        }
        if toks[3].as_str().unicode_len() == 0 || !is_text_ok(toks[3].as_str()) {
            return None;
        }
    }
    let st = match status_of_word(toks[1].as_str()) {
        None => {
            return None;
        },
        Some(st) => st,
    };
    let since: Option<String> = if n >= 3 {
        if str_eq(toks[2].as_str(), "-") {
            proof {
                reveal_strlit("-");
            }
            None
        } else {
            Some(toks[2].clone())
        }
    } else {
        None
    };
    let tracking: Option<String> = if n >= 4 {
        if str_eq(toks[3].as_str(), "-") {
            proof {
                reveal_strlit("-");
            }
            None
        } else {
            Some(toks[3].clone())
        }
    } else {
        None
    };
    Some(
        FeatureRecord {
            name: toks[0].clone(),
            status: st,
            since_version: since,
            tracking_issue: tracking,
            description: None,
        },
    )
}

/// Extracts every well-formed feature declaration from the source text,
/// reporting the index of each malformed line.
pub fn extract_features(source: &str) -> (r: (Vec<FeatureRecord>, Vec<usize>))
    ensures
        recs_view(r.0@) == extract_feature_recs(split_on(source@, '\n')),
        r.1@.map_values(|u: usize| u as int) == extract_feature_warnings(split_on(source@, '\n')),
{
    let lines = split_string(source, '\n');
    let ghost lv = split_on(source@, '\n');
    proof {
        assert(lines@.map_values(|p: String| p@) == lv);
    }
    let mut recs: Vec<FeatureRecord> = Vec::new();
    let mut warns: Vec<usize> = Vec::new();
    let n = lines.len();
    let mut i: usize = 0;
    proof {
        assert(lv.take(0) =~= Seq::<Seq<char>>::empty());
        assert(recs_view(recs@) =~= extract_feature_recs(lv.take(0)));
        assert(warns@.map_values(|u: usize| u as int) =~= extract_feature_warnings(lv.take(0)));
    }
    while i < n
        invariant
            i <= n,
            n == lines@.len(),
            lv == lines@.map_values(|p: String| p@),
            lv.len() == n,
            recs_view(recs@) == extract_feature_recs(lv.take(i as int)),
            warns@.map_values(|u: usize| u as int) == extract_feature_warnings(lv.take(i as int)),
        decreases n - i,
    {
        let ghost rv = recs_view(recs@);
        let ghost wv = warns@.map_values(|u: usize| u as int);
        let line = &lines[i];
        proof {
            assert(lv[i as int] == lines@[i as int]@);
            assert(lv.take(i + 1 as int).drop_last() =~= lv.take(i as int));
            assert(lv.take(i + 1 as int).last() == lv[i as int]);
        }
        let blank = line.as_str().unicode_len() == 0 || line.as_str().get_char(0) == '#';
        if blank {
            proof {
                assert(recs_view(recs@) =~= rv + Seq::<FeatureRec>::empty());
                assert(wv =~= wv + Seq::<int>::empty());
            }
        } else {
            let toks = split_string(line.as_str(), ' ');
            proof {
                assert(strs_view(toks@) == split_on(lv[i as int], ' '));
            }
            match feature_from_tokens_ex(&toks) {
                Some(rec) => {
                    recs.push(rec);
                    proof {
                        assert(recs_view(recs@) =~= rv + seq![rec@]);
                        assert(wv =~= wv + Seq::<int>::empty());
                    }
                },
                None => {
                    warns.push(i);
                    proof {
                        assert(warns@.map_values(|u: usize| u as int) =~= wv + seq![i as int]);
                        assert(recs_view(recs@) =~= rv + Seq::<FeatureRec>::empty());
                    }
                },
            }
        }
        i = i + 1;
    }
    proof {
        assert(lv.take(n as int) =~= lv);
    }
    (recs, warns)
}

/// The target set a comma-separated list declares, if every word is a
/// target kind and the list follows the canonical order.
pub open spec fn targets_from_csv(parts: Seq<Seq<char>>) -> Option<Seq<AttrTarget>>
    decreases parts.len(),
{
    if parts.len() == 0 {
        Some(Seq::empty())
    } else {
        match targets_from_csv(parts.drop_last()) {
            None => None,
            Some(ts) => match word_to_target(parts.last()) {
                None => None,
                Some(t) => Some(ts.push(t)),
            },
        }
    }
}

/// The flag pair a comma-separated list declares.
pub open spec fn flags_from_csv(parts: Seq<Seq<char>>) -> Option<(bool, bool)>
    decreases parts.len(),
{
    if parts.len() == 0 {
        Some((false, false))
    } else {
        match flags_from_csv(parts.drop_last()) {
            None => None,
            Some((dep, int_)) => if parts.last() == "deprecated"@ {
                Some((true, int_))
            } else if parts.last() == "internal"@ {
                Some((dep, true))
            } else {
                None
            },
        }
    }
}

/// The record an attribute token list declares, if it is well-formed. The
/// grammar is `name targets [template] [flags]`: targets a comma-separated
/// list of target kinds in canonical order, template a shape word or `-`,
/// flags a comma-separated list over `deprecated` and `internal`, or `-`.
pub open spec fn attr_from_tokens(toks: Seq<Seq<char>>) -> Option<AttrRec> {
    if !(2 <= toks.len() <= 4) {
        None
    } else if !token_ok(toks[0]) {
        None
    } else {
        match targets_from_csv(split_on(toks[1], ',')) {
            None => None,
            Some(ts) => if !targets_canonical(ts) || ts.len() == 0 {
                None
            } else {
                let tpl = if toks.len() >= 3 {
                    if toks[2] == "-"@ {
                        Some(None)
                    } else {
                        match word_to_template(toks[2]) {
                            None => None,
                            Some(t) => Some(Some(t)),
                        }
                    }
                } else {
                    Some(None)
                };
                let flags = if toks.len() >= 4 {
                    if toks[3] == "-"@ {
                        Some((false, false))
                    } else {
                        flags_from_csv(split_on(toks[3], ','))
                    }
                } else {
                    Some((false, false))
                };
                match (tpl, flags) {
                    (Some(t), Some((dep, int_))) => Some(
                        AttrRec {
                            name: toks[0],
                            applies_to: ts,
                            template: t,
                            is_deprecated: dep,
                            is_internal: int_,
                        },
                    ),
                    _ => None,
                }
            },
        }
    }
}

/// The record one line declares.
pub open spec fn attr_from_line(line: Seq<char>) -> Option<AttrRec> {
    attr_from_tokens(split_on(line, ' '))
}

/// All records the source declares, in line order.
pub open spec fn extract_attr_recs(lines: Seq<Seq<char>>) -> Seq<AttrRec>
    decreases lines.len(),
{
    if lines.len() == 0 {
        Seq::empty()
    } else {
        extract_attr_recs(lines.drop_last()) + (if is_blank(lines.last()) {
            Seq::empty()
        } else {
            match attr_from_line(lines.last()) {
                Some(r) => seq![r],
                None => Seq::empty(),
            }
        })
    }
}

/// The indexes of the malformed lines, in order.
pub open spec fn extract_attr_warnings(lines: Seq<Seq<char>>) -> Seq<int>
    decreases lines.len(),
{
    if lines.len() == 0 {
        Seq::empty()
    } else {
        extract_attr_warnings(lines.drop_last()) + (if !is_blank(lines.last()) && attr_from_line(
            lines.last(),
        ) is None {
            seq![lines.len() - 1]
        } else {
            Seq::empty()
        })
    }
}

/// Whatever extraction yields is an acceptable record.
pub proof fn lemma_extract_attr_recs_ok(lines: Seq<Seq<char>>)
    ensures
        forall|k: int|
            0 <= k < extract_attr_recs(lines).len() ==> attr_rec_ok(
                #[trigger] extract_attr_recs(lines)[k],
            ),
    decreases lines.len(),
{
    if lines.len() > 0 {
        lemma_extract_attr_recs_ok(lines.drop_last());
        let prefix = extract_attr_recs(lines.drop_last());
        let whole = extract_attr_recs(lines);
        assert forall|k: int| 0 <= k < whole.len() implies attr_rec_ok(#[trigger] whole[k]) by {
            if k < prefix.len() {
                assert(whole[k] == prefix[k]);
            }
        }
    }
}

/// Builds the target set a comma-separated list declares, if any.
fn targets_from_csv_ex(parts: &Vec<String>) -> (r: Option<Vec<AttrTarget>>)
    ensures
        match r {
            Some(v) => targets_from_csv(strs_view(parts@)) == Some(v@),
            None => targets_from_csv(strs_view(parts@)) is None,
        },
{
    let ghost pv = strs_view(parts@);
    let mut out: Vec<AttrTarget> = Vec::new();
    let n = parts.len();
    let mut i: usize = 0;
    proof {
        assert(pv.take(0) =~= Seq::<Seq<char>>::empty());
        assert(out@ =~= Seq::<AttrTarget>::empty());
    }
    while i < n
        invariant
            i <= n,
            n == parts@.len(),
            pv == strs_view(parts@),
            pv.len() == n,
            targets_from_csv(pv.take(i as int)) == Some(out@),
        decreases n - i,
    {
        proof {
            assert(pv[i as int] == parts@[i as int]@);
            assert(pv.take(i + 1 as int).drop_last() =~= pv.take(i as int));
            assert(pv.take(i + 1 as int).last() == pv[i as int]);
        }
        match target_of_word(parts[i].as_str()) {
            None => {
                proof {
                    lemma_targets_from_csv_extends(pv, i as int);
                    assert(pv.take(pv.len() as int) =~= pv);
                }
                return None;
            },
            Some(t) => {
                out.push(t);
            },
        }
        i = i + 1;
    }
    proof {
        assert(pv.take(n as int) =~= pv);
    }
    Some(out)
}

/// A failed word keeps the whole list failed, however far it extends.
proof fn lemma_targets_from_csv_extends(parts: Seq<Seq<char>>, i: int)
    requires
        0 <= i < parts.len(),
        word_to_target(parts[i]) is None || targets_from_csv(parts.take(i)) is None,
    ensures
        targets_from_csv(parts.take(parts.len() as int)) is None,
    decreases parts.len() - i,
{
    if i == parts.len() - 1 {
        assert(parts.take(parts.len() as int).drop_last() =~= parts.take(i));
        assert(parts.take(parts.len() as int).last() == parts[i]);
    } else {
        assert(parts.take(i + 1).drop_last() =~= parts.take(i));
        assert(parts.take(i + 1).last() == parts[i]);
        assert(targets_from_csv(parts.take(i + 1)) is None);
        lemma_targets_from_csv_extends(parts, i + 1);
    }
}

/// Builds the flag pair a comma-separated list declares, if any.
fn flags_from_csv_ex(parts: &Vec<String>) -> (r: Option<(bool, bool)>)
    ensures
        match r {
            Some(f) => flags_from_csv(strs_view(parts@)) == Some(f),
            None => flags_from_csv(strs_view(parts@)) is None,
        },
{
    let ghost pv = strs_view(parts@);
    let mut dep = false;
    let mut internal = false;
    let n = parts.len();
    let mut i: usize = 0;
    proof {
        assert(pv.take(0) =~= Seq::<Seq<char>>::empty());
    }
    while i < n
        invariant
            i <= n,
            n == parts@.len(),
            pv == strs_view(parts@),
            pv.len() == n,
            flags_from_csv(pv.take(i as int)) == Some((dep, internal)),
        decreases n - i,
    {
        proof {
            assert(pv[i as int] == parts@[i as int]@);
            assert(pv.take(i + 1 as int).drop_last() =~= pv.take(i as int));
            assert(pv.take(i + 1 as int).last() == pv[i as int]);
            reveal_strlit("deprecated");
            reveal_strlit("internal");
        }
        if str_eq(parts[i].as_str(), "deprecated") {
            dep = true;
        } else if str_eq(parts[i].as_str(), "internal") {
            internal = true;
        } else {
            proof {
                lemma_flags_from_csv_extends(pv, i as int);
                assert(pv.take(pv.len() as int) =~= pv);
            }
            return None;
        }
        i = i + 1;
    }
    proof {
        assert(pv.take(n as int) =~= pv);
    }
    Some((dep, internal))
}

/// A failed word keeps the whole list failed, however far it extends.
proof fn lemma_flags_from_csv_extends(parts: Seq<Seq<char>>, i: int)
    requires
        0 <= i < parts.len(),
        parts[i] != "deprecated"@ && parts[i] != "internal"@ || flags_from_csv(
            parts.take(i),
        ) is None,
    ensures
        flags_from_csv(parts.take(parts.len() as int)) is None,
    decreases parts.len() - i,
{
    if i == parts.len() - 1 {
        assert(parts.take(parts.len() as int).drop_last() =~= parts.take(i));
        assert(parts.take(parts.len() as int).last() == parts[i]);
    } else {
        assert(parts.take(i + 1).drop_last() =~= parts.take(i));
        assert(parts.take(i + 1).last() == parts[i]);
        assert(flags_from_csv(parts.take(i + 1)) is None);
        lemma_flags_from_csv_extends(parts, i + 1);
    }
}

/// Builds the record one attribute token list declares, if any.
fn attr_from_tokens_ex(toks: &Vec<String>) -> (r: Option<AttributeRecord>)
    ensures
        match r {
            Some(rec) => attr_from_tokens(strs_view(toks@)) == Some(rec@),
            None => attr_from_tokens(strs_view(toks@)) is None,
        },
{
    let ghost tv = strs_view(toks@);
    let n = toks.len();
    if n < 2 || n > 4 {
        return None;
    }
    proof {
        assert(tv[0] == toks@[0]@);
        assert(tv[1] == toks@[1]@);
    }
    if toks[0].as_str().unicode_len() == 0 || !is_text_ok(toks[0].as_str()) {
        return None;
    }
    let target_parts = split_string(toks[1].as_str(), ',');
    proof {
        assert(strs_view(target_parts@) == split_on(tv[1], ','));
    }
    let ts = match targets_from_csv_ex(&target_parts) {
        None => {
            return None;
        },
        Some(ts) => ts,
    };
    if ts.len() == 0 || !check_targets_canonical(&ts) {
        return None;
    }
    let tpl: Option<AttrTemplate> = if n >= 3 {
        proof {
            assert(tv[2] == toks@[2]@);
            reveal_strlit("-");
        }
        if str_eq(toks[2].as_str(), "-") {
            None
        } else {
            match template_of_word(toks[2].as_str()) {
                None => {
                    return None;
                },
                Some(t) => Some(t),
            }
        }
    } else {
        None
    };
    let (dep, internal): (bool, bool) = if n >= 4 {
        proof {
            assert(tv[3] == toks@[3]@);
            reveal_strlit("-");
        }
        if str_eq(toks[3].as_str(), "-") {
            (false, false)
        } else {
            let flag_parts = split_string(toks[3].as_str(), ',');
            proof {
                assert(strs_view(flag_parts@) == split_on(tv[3], ','));
            }
            match flags_from_csv_ex(&flag_parts) {
                None => {
                    return None;
                },
                Some(f) => f,
            }
        }
    } else {
        (false, false)
    };
    Some(
        AttributeRecord {
            name: toks[0].clone(),
            applies_to: ts,
            template: tpl,
            is_deprecated: dep,
            is_internal: internal,
        },
    )
}

/// Extracts every well-formed attribute declaration from the source text,
/// reporting the index of each malformed line.
pub fn extract_attributes(source: &str) -> (r: (Vec<AttributeRecord>, Vec<usize>))
    ensures
        attr_recs_view(r.0@) == extract_attr_recs(split_on(source@, '\n')),
        r.1@.map_values(|u: usize| u as int) == extract_attr_warnings(split_on(source@, '\n')),
{
    let lines = split_string(source, '\n');
    let ghost lv = split_on(source@, '\n');
    proof {
        assert(lines@.map_values(|p: String| p@) == lv);
    }
    let mut recs: Vec<AttributeRecord> = Vec::new();
    let mut warns: Vec<usize> = Vec::new();
    let n = lines.len();
    let mut i: usize = 0;
    proof {
        assert(lv.take(0) =~= Seq::<Seq<char>>::empty());
        assert(attr_recs_view(recs@) =~= extract_attr_recs(lv.take(0)));
        assert(warns@.map_values(|u: usize| u as int) =~= extract_attr_warnings(lv.take(0)));
    }
    while i < n
        invariant
            i <= n,
            n == lines@.len(),
            lv == lines@.map_values(|p: String| p@),
            lv.len() == n,
            attr_recs_view(recs@) == extract_attr_recs(lv.take(i as int)),
            warns@.map_values(|u: usize| u as int) == extract_attr_warnings(lv.take(i as int)),
        decreases n - i,
    {
        let ghost rv = attr_recs_view(recs@);
        let ghost wv = warns@.map_values(|u: usize| u as int);
        let line = &lines[i];
        proof {
            assert(lv[i as int] == lines@[i as int]@);
            assert(lv.take(i + 1 as int).drop_last() =~= lv.take(i as int));
            assert(lv.take(i + 1 as int).last() == lv[i as int]);
        }
        let blank = line.as_str().unicode_len() == 0 || line.as_str().get_char(0) == '#';
        if blank {
            proof {
                assert(attr_recs_view(recs@) =~= rv + Seq::<AttrRec>::empty());
                assert(wv =~= wv + Seq::<int>::empty());
            }
        } else {
            let toks = split_string(line.as_str(), ' ');
            proof {
                assert(strs_view(toks@) == split_on(lv[i as int], ' '));
            }
            match attr_from_tokens_ex(&toks) {
                Some(rec) => {
                    recs.push(rec);
                    proof {
                        assert(attr_recs_view(recs@) =~= rv + seq![rec@]);
                        assert(wv =~= wv + Seq::<int>::empty());
                    }
                },
                None => {
                    warns.push(i);
                    proof {
                        assert(warns@.map_values(|u: usize| u as int) =~= wv + seq![i as int]);
                        assert(attr_recs_view(recs@) =~= rv + Seq::<AttrRec>::empty());
                    }
                },
            }
        }
        i = i + 1;
    }
    proof {
        assert(lv.take(n as int) =~= lv);
    }
    (recs, warns)
}

} // verus!
