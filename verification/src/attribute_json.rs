//! Canonical JSON form of the builtin-attribute registry, in the same
//! style as the feature registry: sorted keys, two-space indentation,
//! newline-terminated, with the target set normalized to its canonical
//! order, and a parser accepting exactly that form.

use vstd::prelude::*;

use crate::attribute::{
    attr_rec_ok, attr_snapshot_wf, target_code, target_code_ex, targets_canonical, AttrRec,
    AttrTarget, AttrTemplate, AttributeRecord, AttributeSnapshot,
};
use crate::order::{lex_lt, lemma_lex_trans, str_eq};
use crate::text::{
    expect, fmt_bool, fmt_text, lemma_expect_concat, lemma_parse_bool_round,
    lemma_parse_text_round, lemma_parse_text_shape, match_lit, parse_bool, parse_text, take_bool,
    take_quoted, text_ok,
};

verus! {

/// The one canonical spelling of each target kind.
pub open spec fn target_word(t: AttrTarget) -> Seq<char> {
    match t {
        AttrTarget::Crate => "crate"@,
        AttrTarget::Enum => "enum"@,
        AttrTarget::Function => "fn"@,
        AttrTarget::Impl => "impl"@,
        AttrTarget::Module => "mod"@,
        AttrTarget::Static => "static"@,
        AttrTarget::Struct => "struct"@,
        AttrTarget::Trait => "trait"@,
    }
}

/// The inverse table: unknown spellings denote no target kind.
pub open spec fn word_to_target(w: Seq<char>) -> Option<AttrTarget> {
    if w == "crate"@ {
        Some(AttrTarget::Crate)
    } else if w == "enum"@ {
        Some(AttrTarget::Enum)
    } else if w == "fn"@ {
        Some(AttrTarget::Function)
    } else if w == "impl"@ {
        Some(AttrTarget::Impl)
    } else if w == "mod"@ {
        Some(AttrTarget::Module)
    } else if w == "static"@ {
        Some(AttrTarget::Static)
    } else if w == "struct"@ {
        Some(AttrTarget::Struct)
    } else if w == "trait"@ {
        Some(AttrTarget::Trait)
    } else {
        None
    }
}

/// The one canonical spelling of each template shape.
pub open spec fn template_word(t: AttrTemplate) -> Seq<char> {
    match t {
        AttrTemplate::Word => "word"@,
        AttrTemplate::List => "list"@,
        AttrTemplate::NameValue => "name_value"@,
    }
}

/// The inverse table for template shapes.
pub open spec fn word_to_template(w: Seq<char>) -> Option<AttrTemplate> {
    if w == "word"@ {
        Some(AttrTemplate::Word)
    } else if w == "list"@ {
        Some(AttrTemplate::List)
    } else if w == "name_value"@ {
        Some(AttrTemplate::NameValue)
    } else {
        None
    }
}

/// Every canonical target spelling is JSON-safe and is its own inverse
/// image.
pub proof fn lemma_target_word_round(t: AttrTarget)
    ensures
        text_ok(target_word(t)),
        word_to_target(target_word(t)) == Some(t),
{
    reveal_strlit("crate");
    reveal_strlit("enum");
    reveal_strlit("fn");
    reveal_strlit("impl");
    reveal_strlit("mod");
    reveal_strlit("static");
    reveal_strlit("struct");
    reveal_strlit("trait");
    assert(("crate"@).len() == 5);
    assert(("enum"@).len() == 4);
    assert(("fn"@).len() == 2);
    assert(("impl"@).len() == 4);
    assert(("mod"@).len() == 3);
    assert(("static"@).len() == 6);
    assert(("struct"@).len() == 6);
    assert(("trait"@).len() == 5);
    assert(("enum"@)[0] == 'e');
    assert(("impl"@)[0] == 'i');
    assert(("static"@)[2] == 'a');
    assert(("struct"@)[2] == 'r');
    assert(("crate"@)[0] == 'c');
    assert(("trait"@)[0] == 't');
}

/// Every canonical template spelling is JSON-safe and is its own inverse
/// image.
pub proof fn lemma_template_word_round(t: AttrTemplate)
    ensures
        text_ok(template_word(t)),
        word_to_template(template_word(t)) == Some(t),
{
    reveal_strlit("word");
    reveal_strlit("list");
    reveal_strlit("name_value");
    assert(("word"@).len() == 4);
    assert(("list"@).len() == 4);
    assert(("name_value"@).len() == 10);
    assert(("word"@)[0] == 'w');
    assert(("list"@)[0] == 'l');
}

/// The target set as a JSON array of canonical spellings.
pub open spec fn fmt_target_items(s: Seq<AttrTarget>) -> Seq<char>
    decreases s.len(),
{
    if s.len() == 0 {
        Seq::empty()
    } else if s.len() == 1 {
        fmt_text(target_word(s[0]))
    } else {
        fmt_text(target_word(s[0])) + ","@ + fmt_target_items(s.skip(1))
    }
}

/// The whole array, brackets included.
pub open spec fn fmt_targets(s: Seq<AttrTarget>) -> Seq<char> {
    "["@ + fmt_target_items(s) + "]"@
}

/// `null` or a quoted template spelling.
pub open spec fn fmt_opt_template(o: Option<AttrTemplate>) -> Seq<char> {
    match o {
        None => "null"@,
        Some(t) => fmt_text(template_word(t)),
    }
}

/// One record as a JSON object, keys in sorted order.
pub open spec fn fmt_attr_rec(r: AttrRec) -> Seq<char> {
    "{\"applies_to\":"@ + fmt_targets(r.applies_to) + ",\"is_deprecated\":"@ + fmt_bool(
        r.is_deprecated,
    ) + ",\"is_internal\":"@ + fmt_bool(r.is_internal) + ",\"name\":"@ + fmt_text(r.name)
        + ",\"template\":"@ + fmt_opt_template(r.template) + "}"@
}

/// The record lines of the document.
pub open spec fn fmt_attr_lines(s: Seq<AttrRec>) -> Seq<char>
    decreases s.len(),
{
    if s.len() == 0 {
        Seq::empty()
    } else if s.len() == 1 {
        "  "@ + fmt_attr_rec(s[0]) + "\n"@
    } else {
        "  "@ + fmt_attr_rec(s[0]) + ",\n"@ + fmt_attr_lines(s.skip(1))
    }
}

/// The whole document.
pub open spec fn fmt_attributes(s: Seq<AttrRec>) -> Seq<char> {
    if s.len() == 0 {
        "[]\n"@
    } else {
        "[\n"@ + fmt_attr_lines(s) + "]\n"@
    }
}

/// Consumes one quoted target spelling.
pub open spec fn parse_target(b: Seq<char>) -> Option<(AttrTarget, Seq<char>)> {
    match parse_text(b) {
        None => None,
        Some((w, r)) => match word_to_target(w) {
            None => None,
            Some(t) => Some((t, r)),
        },
    }
}

/// Consumes the comma-separated items of a nonempty target array, up to,
/// but not including, the closing bracket.
pub open spec fn parse_target_items(b: Seq<char>) -> Option<(Seq<AttrTarget>, Seq<char>)>
    decreases b.len(),
{
    match parse_target(b) {
        None => None,
        Some((t, b1)) => match expect(b1, ","@) {
            Some(b2) => if b2.len() < b.len() {
                match parse_target_items(b2) {
                    None => None,
                    Some((ts, b3)) => Some((seq![t] + ts, b3)),
                }
            } else {
                None
            },
            None => Some((seq![t], b1)),
        },
    }
}

/// Consumes a whole target array.
pub open spec fn parse_targets(b: Seq<char>) -> Option<(Seq<AttrTarget>, Seq<char>)> {
    match expect(b, "[]"@) {
        Some(r) => Some((Seq::empty(), r)),
        None => match expect(b, "["@) {
            None => None,
            Some(b1) => match parse_target_items(b1) {
                None => None,
                Some((ts, b2)) => match expect(b2, "]"@) {
                    None => None,
                    Some(b3) => Some((ts, b3)),
                },
            },
        },
    }
}

/// Consumes `null` or a quoted template spelling.
pub open spec fn parse_opt_template(b: Seq<char>) -> Option<(Option<AttrTemplate>, Seq<char>)> {
    if b.len() > 0 && b[0] == 'n' {
        match expect(b, "null"@) {
            None => None,
            Some(r) => Some((None, r)),
        }
    } else {
        match parse_text(b) {
            None => None,
            Some((w, r)) => match word_to_template(w) {
                None => None,
                Some(t) => Some((Some(t), r)),
            },
        }
    }
}

/// Consumes one record object.
pub open spec fn parse_attr_rec(b: Seq<char>) -> Option<(AttrRec, Seq<char>)> {
    match expect(b, "{\"applies_to\":"@) {
        None => None,
        Some(b1) => match parse_targets(b1) {
            None => None,
            Some((ts, b2)) => if !targets_canonical(ts) {
                None
            } else {
                match expect(b2, ",\"is_deprecated\":"@) {
                    None => None,
                    Some(b3) => match parse_bool(b3) {
                        None => None,
                        Some((dep, b4)) => match expect(b4, ",\"is_internal\":"@) {
                            None => None,
                            Some(b5) => match parse_bool(b5) {
                                None => None,
                                Some((int_, b6)) => match expect(b6, ",\"name\":"@) {
                                    None => None,
                                    Some(b7) => match parse_text(b7) {
                                        None => None,
                                        Some((n, b8)) => if n.len() == 0 {
                                            None
                                        } else {
                                            match expect(b8, ",\"template\":"@) {
                                                None => None,
                                                Some(b9) => match parse_opt_template(b9) {
                                                    None => None,
                                                    Some((tp, b10)) => match expect(b10, "}"@) {
                                                        None => None,
                                                        Some(b11) => Some(
                                                            (
                                                                AttrRec {
                                                                    name: n,
                                                                    applies_to: ts,
                                                                    template: tp,
                                                                    is_deprecated: dep,
                                                                    is_internal: int_,
                                                                },
                                                                b11,
                                                            ),
                                                        ),
                                                    },
                                                },
                                            }
                                        },
                                    },
                                },
                            },
                        },
                    },
                }
            },
        },
    }
}

/// Consumes the record lines up to, but not including, the closing
/// bracket.
pub open spec fn parse_attr_lines(b: Seq<char>) -> Option<(Seq<AttrRec>, Seq<char>)>
    decreases b.len(),
{
    match expect(b, "  "@) {
        None => None,
        Some(b0) => match parse_attr_rec(b0) {
            None => None,
            Some((r, b1)) => match expect(b1, ",\n"@) {
                Some(b2) => if b2.len() < b.len() {
                    match parse_attr_lines(b2) {
                        None => None,
                        Some((rs, b3)) => Some((seq![r] + rs, b3)),
                    }
                } else {
                    None
                },
                None => match expect(b1, "\n"@) {
                    None => None,
                    Some(b2) => Some((seq![r], b2)),
                },
            },
        },
    }
}

/// Adjacent records are in strictly ascending name order.
pub open spec fn attr_names_sorted(s: Seq<AttrRec>) -> bool {
    forall|i: int| 0 <= i < s.len() - 1 ==> lex_lt(#[trigger] s[i].name, s[i + 1].name)
}

/// Consumes a whole document; anything but the canonical form is refused.
pub open spec fn parse_attributes(b: Seq<char>) -> Option<Seq<AttrRec>> {
    match expect(b, "[\n"@) {
        Some(b1) => match parse_attr_lines(b1) {
            None => None,
            Some((rs, b2)) => match expect(b2, "]\n"@) {
                None => None,
                Some(b3) => if b3.len() == 0 && attr_names_sorted(rs) {
                    Some(rs)
                } else {
                    None
                },
            },
        },
        None => if b == "[]\n"@ {
            Some(Seq::empty())
        } else {
            None
        },
    }
}

/// A parsed record is acceptable.
pub proof fn lemma_parse_attr_rec_shape(b: Seq<char>)
    ensures
        match parse_attr_rec(b) {
            Some((r, rest)) => attr_rec_ok(r),
            None => true,
        },
{
    if let Some(b1) = expect(b, "{\"applies_to\":"@) {
        if let Some((ts, b2)) = parse_targets(b1) {
            if targets_canonical(ts) {
                if let Some(b3) = expect(b2, ",\"is_deprecated\":"@) {
                    if let Some((dep, b4)) = parse_bool(b3) {
                        if let Some(b5) = expect(b4, ",\"is_internal\":"@) {
                            if let Some((int_, b6)) = parse_bool(b5) {
                                if let Some(b7) = expect(b6, ",\"name\":"@) {
                                    lemma_parse_text_shape(b7);
                                }
                            }
                        }
                    }
                }
            }
        }
    }
}

/// Every record in a parsed line list is acceptable.
pub proof fn lemma_parse_attr_lines_shape(b: Seq<char>)
    ensures
        match parse_attr_lines(b) {
            Some((rs, rest)) => forall|k: int| 0 <= k < rs.len() ==> attr_rec_ok(#[trigger] rs[k]),
            None => true,
        },
    decreases b.len(),
{
    if let Some(b0) = expect(b, "  "@) {
        lemma_parse_attr_rec_shape(b0);
        if let Some((r, b1)) = parse_attr_rec(b0) {
            match expect(b1, ",\n"@) {
                Some(b2) => {
                    if b2.len() < b.len() {
                        lemma_parse_attr_lines_shape(b2);
                        if let Some((rs, b3)) = parse_attr_lines(b2) {
                            let all = seq![r] + rs;
                            assert forall|k: int| 0 <= k < all.len() implies attr_rec_ok(
                                #[trigger] all[k],
                            ) by {
                                if k > 0 {
                                    assert(all[k] == rs[k - 1]);
                                }
                            }
                        }
                    }
                },
                None => {
                    if let Some(b2) = expect(b1, "\n"@) {
                        assert(seq![r][0] == r);
                    }
                },
            }
        }
    }
}

/// Parsing undoes formatting for the items of a nonempty target array
/// followed by the closing bracket.
pub proof fn lemma_parse_target_items_round(s: Seq<AttrTarget>, rest: Seq<char>)
    requires
        s.len() > 0,
        rest.len() > 0,
        rest[0] == ']',
    ensures
        parse_target_items(fmt_target_items(s) + rest) == Some((s, rest)),
    decreases s.len(),
{
    reveal_strlit(",");
    lemma_target_word_round(s[0]);
    if s.len() == 1 {
        let b = fmt_text(target_word(s[0])) + rest;
        lemma_parse_text_round(target_word(s[0]), rest);
        // The comma branch is not taken: the rest starts with a bracket.
        match expect(rest, ","@) {
            Some(_) => {
                assert(rest.take(1)[0] == rest[0]);
                assert((","@)[0] == ',');
                assert(false);
            },
            None => {},
        }
        assert(seq![s[0]] =~= s);
    } else {
        let rest2 = fmt_target_items(s.skip(1)) + rest;
        let tail = ","@ + rest2;
        let b = fmt_text(target_word(s[0])) + tail;
        assert(fmt_target_items(s) + rest =~= b);
        lemma_parse_text_round(target_word(s[0]), tail);
        lemma_expect_concat(","@, rest2);
        assert(rest2.len() < b.len());
        lemma_parse_target_items_round(s.skip(1), rest);
        assert(seq![s[0]] + s.skip(1) =~= s);
    }
}

/// Parsing undoes formatting for a whole target array.
pub proof fn lemma_parse_targets_round(s: Seq<AttrTarget>, rest: Seq<char>)
    ensures
        parse_targets(fmt_targets(s) + rest) == Some((s, rest)),
{
    reveal_strlit("[");
    reveal_strlit("]");
    reveal_strlit("[]");
    if s.len() == 0 {
        let b = fmt_targets(s) + rest;
        assert(fmt_targets(s) =~= "["@ + "]"@);
        assert(("["@ + "]"@).len() == 2);
        assert(("["@ + "]"@)[0] == '[');
        assert(("["@ + "]"@)[1] == ']');
        assert(("["@ + "]"@) =~= "[]"@);
        assert(b =~= "[]"@ + rest);
        lemma_expect_concat("[]"@, rest);
    } else {
        let inner = fmt_target_items(s) + ("]"@ + rest);
        let b = "["@ + inner;
        assert(fmt_targets(s) + rest =~= b);
        // The empty-array branch is not taken: after `[` comes a quote.
        lemma_target_word_round(s[0]);
        assert(fmt_target_items(s)[0] == '"') by {
            if s.len() == 1 {
                assert(fmt_target_items(s) == fmt_text(target_word(s[0])));
            }
        }
        assert(b[1] == '"');
        match expect(b, "[]"@) {
            Some(_) => {
                assert(b.take(2)[1] == b[1]);
                assert(("[]"@)[1] == ']');
                assert(false);
            },
            None => {},
        }
        lemma_expect_concat("["@, inner);
        lemma_parse_target_items_round(s, "]"@ + rest);
        assert(("]"@ + rest)[0] == ']');
        lemma_expect_concat("]"@, rest);
    }
}

/// Parsing undoes formatting for an optional template.
pub proof fn lemma_parse_opt_template_round(o: Option<AttrTemplate>, rest: Seq<char>)
    ensures
        parse_opt_template(fmt_opt_template(o) + rest) == Some((o, rest)),
{
    reveal_strlit("null");
    match o {
        None => {
            let b = "null"@ + rest;
            assert(b[0] == 'n');
            lemma_expect_concat("null"@, rest);
        },
        Some(t) => {
            lemma_template_word_round(t);
            let b = fmt_text(template_word(t)) + rest;
            assert(b[0] == '"');
            lemma_parse_text_round(template_word(t), rest);
        },
    }
}

/// Parsing undoes formatting for one record.
#[verifier::rlimit(100)]
pub proof fn lemma_parse_attr_rec_round(r: AttrRec, rest: Seq<char>)
    requires
        attr_rec_ok(r),
    ensures
        parse_attr_rec(fmt_attr_rec(r) + rest) == Some((r, rest)),
{
    let t10 = "}"@ + rest;
    let t9 = fmt_opt_template(r.template) + t10;
    let t8 = ",\"template\":"@ + t9;
    let t7 = fmt_text(r.name) + t8;
    let t6 = ",\"name\":"@ + t7;
    let t5 = fmt_bool(r.is_internal) + t6;
    let t4 = ",\"is_internal\":"@ + t5;
    let t3 = fmt_bool(r.is_deprecated) + t4;
    let t2 = ",\"is_deprecated\":"@ + t3;
    let t1 = fmt_targets(r.applies_to) + t2;
    let b = "{\"applies_to\":"@ + t1;
    let p1 = "{\"applies_to\":"@ + fmt_targets(r.applies_to);
    let p2 = p1 + ",\"is_deprecated\":"@;
    let p3 = p2 + fmt_bool(r.is_deprecated);
    let p4 = p3 + ",\"is_internal\":"@;
    let p5 = p4 + fmt_bool(r.is_internal);
    let p6 = p5 + ",\"name\":"@;
    let p7 = p6 + fmt_text(r.name);
    let p8 = p7 + ",\"template\":"@;
    let p9 = p8 + fmt_opt_template(r.template);
    assert(fmt_attr_rec(r) + rest =~= p9 + t10);
    assert(p9 + t10 =~= p8 + t9);
    assert(p8 + t9 =~= p7 + t8);
    assert(p7 + t8 =~= p6 + t7);
    assert(p6 + t7 =~= p5 + t6);
    assert(p5 + t6 =~= p4 + t5);
    assert(p4 + t5 =~= p3 + t4);
    assert(p3 + t4 =~= p2 + t3);
    assert(p2 + t3 =~= p1 + t2);
    assert(p1 + t2 =~= b);
    lemma_expect_concat("{\"applies_to\":"@, t1);
    lemma_parse_targets_round(r.applies_to, t2);
    lemma_expect_concat(",\"is_deprecated\":"@, t3);
    lemma_parse_bool_round(r.is_deprecated, t4);
    lemma_expect_concat(",\"is_internal\":"@, t5);
    lemma_parse_bool_round(r.is_internal, t6);
    lemma_expect_concat(",\"name\":"@, t7);
    lemma_parse_text_round(r.name, t8);
    lemma_expect_concat(",\"template\":"@, t9);
    lemma_parse_opt_template_round(r.template, t10);
    lemma_expect_concat("}"@, rest);
    assert(parse_attr_rec(b) == Some((r, rest)));
}

/// Parsing undoes formatting for the record lines followed by the closing
/// bracket.
#[verifier::rlimit(100)]
pub proof fn lemma_parse_attr_lines_round(s: Seq<AttrRec>)
    requires
        s.len() > 0,
        forall|i: int| 0 <= i < s.len() ==> attr_rec_ok(#[trigger] s[i]),
    ensures
        parse_attr_lines(fmt_attr_lines(s) + "]\n"@) == Some((s, "]\n"@)),
    decreases s.len(),
{
    reveal_strlit("  ");
    reveal_strlit(",\n");
    reveal_strlit("\n");
    reveal_strlit("]\n");
    if s.len() == 1 {
        let tail = "\n"@ + "]\n"@;
        let t0 = fmt_attr_rec(s[0]) + tail;
        let b = "  "@ + t0;
        assert(fmt_attr_lines(s) + "]\n"@ =~= b);
        lemma_expect_concat("  "@, t0);
        lemma_parse_attr_rec_round(s[0], tail);
        assert(tail[0] == '\n');
        assert((",\n"@)[0] == ',');
        match expect(tail, ",\n"@) {
            Some(_) => {
                assert(tail.take(2)[0] == tail[0]);
                assert(false);
            },
            None => {},
        }
        lemma_expect_concat("\n"@, "]\n"@);
        assert(seq![s[0]] =~= s);
    } else {
        let rest2 = fmt_attr_lines(s.skip(1)) + "]\n"@;
        let tail = ",\n"@ + rest2;
        let t0 = fmt_attr_rec(s[0]) + tail;
        let b = "  "@ + t0;
        assert(fmt_attr_lines(s) + "]\n"@ =~= b);
        lemma_expect_concat("  "@, t0);
        lemma_parse_attr_rec_round(s[0], tail);
        lemma_expect_concat(",\n"@, rest2);
        assert(rest2.len() < b.len());
        assert forall|i: int| 0 <= i < s.skip(1).len() implies attr_rec_ok(
            #[trigger] s.skip(1)[i],
        ) by {
            assert(s.skip(1)[i] == s[i + 1]);
        }
        lemma_parse_attr_lines_round(s.skip(1));
        assert(seq![s[0]] + s.skip(1) =~= s);
    }
}

/// Neighbour order extends to any two positions.
pub proof fn lemma_attr_names_sorted_pairwise(s: Seq<AttrRec>, i: int, j: int)
    requires
        attr_names_sorted(s),
        0 <= i < j < s.len(),
    ensures
        lex_lt(s[i].name, s[j].name),
    decreases j - i,
{
    if j == i + 1 {
    } else {
        lemma_attr_names_sorted_pairwise(s, i, j - 1);
        assert(lex_lt(s[j - 1].name, s[j].name));
        lemma_lex_trans(s[i].name, s[j - 1].name, s[j].name);
    }
}

/// The canonical spelling of a target kind.
pub fn target_str(t: AttrTarget) -> (r: &'static str)
    ensures
        r@ == target_word(t),
{
    match t {
        AttrTarget::Crate => "crate",
        AttrTarget::Enum => "enum",
        AttrTarget::Function => "fn",
        AttrTarget::Impl => "impl",
        AttrTarget::Module => "mod",
        AttrTarget::Static => "static",
        AttrTarget::Struct => "struct",
        AttrTarget::Trait => "trait",
    }
}

/// The target kind a spelling denotes, if any.
pub fn target_of_word(w: &str) -> (r: Option<AttrTarget>)
    ensures
        r == word_to_target(w@),
{
    if str_eq(w, "crate") {
        Some(AttrTarget::Crate)
    } else if str_eq(w, "enum") {
        Some(AttrTarget::Enum)
    } else if str_eq(w, "fn") {
        Some(AttrTarget::Function)
    } else if str_eq(w, "impl") {
        Some(AttrTarget::Impl)
    } else if str_eq(w, "mod") {
        Some(AttrTarget::Module)
    } else if str_eq(w, "static") {
        Some(AttrTarget::Static)
    } else if str_eq(w, "struct") {
        Some(AttrTarget::Struct)
    } else if str_eq(w, "trait") {
        Some(AttrTarget::Trait)
    } else {
        None
    }
}

/// The template shape a spelling denotes, if any.
pub fn template_of_word(w: &str) -> (r: Option<AttrTemplate>)
    ensures
        r == word_to_template(w@),
{
    if str_eq(w, "word") {
        Some(AttrTemplate::Word)
    } else if str_eq(w, "list") {
        Some(AttrTemplate::List)
    } else if str_eq(w, "name_value") {
        Some(AttrTemplate::NameValue)
    } else {
        None
    }
}

/// Appends a quoted string.
fn push_quoted(out: &mut String, s: &str)
    ensures
        final(out)@ == old(out)@ + fmt_text(s@),
{
    out.append("\"");
    out.append(s);
    out.append("\"");
    proof {
        reveal_strlit("\"");
        assert(("\""@) =~= seq!['"']);
        assert(out@ =~= old(out)@ + fmt_text(s@));
    }
}

/// Appends a whole target array.
fn push_targets(out: &mut String, ts: &Vec<AttrTarget>)
    ensures
        final(out)@ == old(out)@ + fmt_targets(ts@),
{
    let ghost o0 = out@;
    out.append("[");
    let n = ts.len();
    let mut i: usize = 0;
    proof {
        reveal_strlit("[");
        assert(ts@.skip(0) =~= ts@);
    }
    while i < n
        invariant
            i <= n,
            n == ts@.len(),
            out@ + fmt_target_items(ts@.skip(i as int)) == o0 + "["@ + fmt_target_items(ts@),
        decreases n - i,
    {
        let ghost o1 = out@;
        let ghost tail = ts@.skip(i as int);
        push_quoted(out, target_str(ts[i]));
        if i + 1 < n {
            out.append(",");
            proof {
                reveal_strlit(",");
                assert(tail.len() > 1);
                assert(tail[0] == ts@[i as int]);
                assert(tail.skip(1) =~= ts@.skip(i + 1 as int));
                assert(fmt_target_items(tail) == fmt_text(target_word(tail[0])) + ","@
                    + fmt_target_items(tail.skip(1)));
                assert(out@ =~= o1 + (fmt_text(target_word(tail[0])) + ","@));
                assert(out@ + fmt_target_items(ts@.skip(i + 1 as int)) =~= o1 + fmt_target_items(
                    tail,
                ));
            }
        } else {
            proof {
                assert(tail.len() == 1);
                assert(tail[0] == ts@[i as int]);
                assert(fmt_target_items(tail) == fmt_text(target_word(tail[0])));
                assert(ts@.skip(i + 1 as int) =~= Seq::<AttrTarget>::empty());
                assert(out@ + fmt_target_items(ts@.skip(i + 1 as int)) =~= o1 + fmt_target_items(
                    tail,
                ));
            }
        }
        i = i + 1;
    }
    proof {
        assert(ts@.skip(n as int) =~= Seq::<AttrTarget>::empty());
        assert(out@ + fmt_target_items(ts@.skip(n as int)) =~= out@);
    }
    out.append("]");
    proof {
        reveal_strlit("]");
        assert(out@ =~= o0 + fmt_targets(ts@));
    }
}

/// Appends `true` or `false`.
fn push_bool(out: &mut String, v: bool)
    ensures
        final(out)@ == old(out)@ + fmt_bool(v),
{
    if v {
        out.append("true");
    } else {
        out.append("false");
    }
}

/// Appends `null` or a quoted template spelling.
fn push_opt_template(out: &mut String, o: &Option<AttrTemplate>)
    ensures
        final(out)@ == old(out)@ + fmt_opt_template(*o),
{
    match o {
        None => {
            out.append("null");
        },
        Some(t) => {
            push_quoted(
                out,
                match t {
                    AttrTemplate::Word => "word",
                    AttrTemplate::List => "list",
                    AttrTemplate::NameValue => "name_value",
                },
            );
        },
    }
}

/// Appends one record object.
#[verifier::rlimit(100)]
fn push_attr_rec(out: &mut String, r: &AttributeRecord)
    ensures
        final(out)@ == old(out)@ + fmt_attr_rec(r@),
{
    let ghost o0 = out@;
    out.append("{\"applies_to\":");
    push_targets(out, &r.applies_to);
    proof {
        let p1 = "{\"applies_to\":"@ + fmt_targets(r@.applies_to);
        assert(out@ =~= o0 + p1);
    }
    out.append(",\"is_deprecated\":");
    push_bool(out, r.is_deprecated);
    proof {
        let p3 = "{\"applies_to\":"@ + fmt_targets(r@.applies_to) + ",\"is_deprecated\":"@
            + fmt_bool(r@.is_deprecated);
        assert(out@ =~= o0 + p3);
    }
    out.append(",\"is_internal\":");
    push_bool(out, r.is_internal);
    proof {
        let p5 = "{\"applies_to\":"@ + fmt_targets(r@.applies_to) + ",\"is_deprecated\":"@
            + fmt_bool(r@.is_deprecated) + ",\"is_internal\":"@ + fmt_bool(r@.is_internal);
        assert(out@ =~= o0 + p5);
    }
    out.append(",\"name\":");
    push_quoted(out, r.name.as_str());
    proof {
        let p7 = "{\"applies_to\":"@ + fmt_targets(r@.applies_to) + ",\"is_deprecated\":"@
            + fmt_bool(r@.is_deprecated) + ",\"is_internal\":"@ + fmt_bool(r@.is_internal)
            + ",\"name\":"@ + fmt_text(r@.name);
        assert(out@ =~= o0 + p7);
    }
    out.append(",\"template\":");
    push_opt_template(out, &r.template);
    out.append("}");
    proof {
        assert(out@ =~= o0 + fmt_attr_rec(r@));
    }
}

/// Serializes a snapshot to its canonical JSON document.
pub fn format_attributes(snap: &AttributeSnapshot) -> (out: String)
    ensures
        out@ == fmt_attributes(snap@),
{
    let n = snap.records.len();
    if n == 0 {
        let out = String::from_str("[]\n");
        return out;
    }
    let mut out = String::from_str("[\n");
    let mut i: usize = 0;
    proof {
        assert(snap@.skip(0) =~= snap@);
    }
    while i < n
        invariant
            i <= n,
            n == snap.records@.len(),
            snap@.len() == n,
            out@ + fmt_attr_lines(snap@.skip(i as int)) == "[\n"@ + fmt_attr_lines(snap@),
            forall|k: int| 0 <= k < snap@.len() ==> snap@[k] == #[trigger] snap.records@[k]@,
        decreases n - i,
    {
        let ghost o0 = out@;
        let ghost tail = snap@.skip(i as int);
        out.append("  ");
        push_attr_rec(&mut out, &snap.records[i]);
        if i + 1 < n {
            out.append(",\n");
            proof {
                assert(tail.len() > 1);
                assert(tail[0] == snap@[i as int]);
                assert(tail.skip(1) =~= snap@.skip(i + 1 as int));
                assert(fmt_attr_lines(tail) == "  "@ + fmt_attr_rec(tail[0]) + ",\n"@
                    + fmt_attr_lines(tail.skip(1)));
                assert(out@ =~= o0 + ("  "@ + fmt_attr_rec(tail[0]) + ",\n"@));
                assert(out@ + fmt_attr_lines(snap@.skip(i + 1 as int)) =~= o0 + fmt_attr_lines(
                    tail,
                ));
            }
        } else {
            out.append("\n");
            proof {
                assert(tail.len() == 1);
                assert(tail[0] == snap@[i as int]);
                assert(fmt_attr_lines(tail) == "  "@ + fmt_attr_rec(tail[0]) + "\n"@);
                assert(out@ =~= o0 + ("  "@ + fmt_attr_rec(tail[0]) + "\n"@));
                assert(snap@.skip(i + 1 as int) =~= Seq::<AttrRec>::empty());
                assert(out@ + fmt_attr_lines(snap@.skip(i + 1 as int)) =~= o0 + fmt_attr_lines(
                    tail,
                ));
            }
        }
        i = i + 1;
    }
    proof {
        assert(snap@.skip(n as int) =~= Seq::<AttrRec>::empty());
        assert(out@ + fmt_attr_lines(snap@.skip(n as int)) =~= out@);
    }
    out.append("]\n");
    proof {
        assert(out@ =~= fmt_attributes(snap@));
    }
    out
}

/// Consumes one quoted target spelling at position `i`.
fn take_target(s: &str, i: usize) -> (r: Option<(AttrTarget, usize)>)
    requires
        i <= s@.len(),
    ensures
        match r {
            Some((t, j)) => {
                &&& i < j <= s@.len()
                &&& parse_target(s@.skip(i as int)) == Some((t, s@.skip(j as int)))
            },
            None => parse_target(s@.skip(i as int)) is None,
        },
{
    match take_quoted(s, i) {
        None => None,
        Some((w, j)) => {
            match target_of_word(w.as_str()) {
                None => None,
                Some(t) => Some((t, j)),
            }
        },
    }
}

/// Consumes the items of a nonempty target array at position `i`.
fn take_target_items(s: &str, i: usize) -> (r: Option<(Vec<AttrTarget>, usize)>)
    requires
        i <= s@.len(),
    ensures
        match r {
            Some((v, j)) => {
                &&& i <= j <= s@.len()
                &&& parse_target_items(s@.skip(i as int)) == Some((v@, s@.skip(j as int)))
            },
            None => parse_target_items(s@.skip(i as int)) is None,
        },
    decreases s@.len() - i,
{
    let (t, j1) = match take_target(s, i) {
        None => {
            return None;
        },
        Some(x) => x,
    };
    match match_lit(s, j1, ",") {
        Some(j2) => {
            proof {
                reveal_strlit(",");
                assert(j2 > i);
                assert(s@.skip(j2 as int).len() < s@.skip(i as int).len());
            }
            match take_target_items(s, j2) {
                None => None,
                Some((v2, j3)) => {
                    let mut v2 = v2;
                    v2.insert(0, t);
                    proof {
                        assert(v2@ =~= seq![t] + v2@.skip(1));
                    }
                    Some((v2, j3))
                },
            }
        },
        None => {
            let mut v: Vec<AttrTarget> = Vec::new();
            v.push(t);
            proof {
                assert(v@ =~= seq![t]);
            }
            Some((v, j1))
        },
    }
}

/// Consumes a whole target array at position `i`.
fn take_targets(s: &str, i: usize) -> (r: Option<(Vec<AttrTarget>, usize)>)
    requires
        i <= s@.len(),
    ensures
        match r {
            Some((v, j)) => {
                &&& i <= j <= s@.len()
                &&& parse_targets(s@.skip(i as int)) == Some((v@, s@.skip(j as int)))
            },
            None => parse_targets(s@.skip(i as int)) is None,
        },
{
    match match_lit(s, i, "[]") {
        Some(j) => {
            let v: Vec<AttrTarget> = Vec::new();
            proof {
                assert(v@ =~= Seq::<AttrTarget>::empty());
            }
            Some((v, j))
        },
        None => {
            let j0 = match match_lit(s, i, "[") {
                None => {
                    return None;
                },
                Some(x) => x,
            };
            let (v, j1) = match take_target_items(s, j0) {
                None => {
                    return None;
                },
                Some(x) => x,
            };
            match match_lit(s, j1, "]") {
                None => None,
                Some(j2) => Some((v, j2)),
            }
        },
    }
}

/// Consumes `null` or a quoted template spelling at position `i`.
fn take_opt_template(s: &str, i: usize) -> (r: Option<(Option<AttrTemplate>, usize)>)
    requires
        i <= s@.len(),
    ensures
        match r {
            Some((o, j)) => {
                &&& i < j <= s@.len()
                &&& parse_opt_template(s@.skip(i as int)) == Some((o, s@.skip(j as int)))
            },
            None => parse_opt_template(s@.skip(i as int)) is None,
        },
{
    let s_len = s.unicode_len();
    if i == s_len {
        return None;
    }
    let c = s.get_char(i);
    proof {
        assert(s@.skip(i as int)[0] == s@[i as int]);
    }
    if c == 'n' {
        match match_lit(s, i, "null") {
            None => None,
            Some(j) => {
                proof {
                    reveal_strlit("null");
                }
                Some((None, j))
            },
        }
    } else {
        match take_quoted(s, i) {
            None => None,
            Some((w, j)) => {
                match template_of_word(w.as_str()) {
                    None => None,
                    Some(t) => Some((Some(t), j)),
                }
            },
        }
    }
}

/// Checks that target codes strictly ascend.
pub fn check_targets_canonical(v: &Vec<AttrTarget>) -> (r: bool)
    ensures
        r == targets_canonical(v@),
{
    let n = v.len();
    let mut k: usize = 1;
    while k < n
        invariant
            1 <= k <= n || n == 0,
            n == v@.len(),
            forall|m: int| 0 <= m < k - 1 ==> target_code(#[trigger] v@[m]) < target_code(v@[m + 1]),
        decreases n - k,
    {
        if target_code_ex(v[k - 1]) >= target_code_ex(v[k]) {
            return false;
        }
        k = k + 1;
    }
    proof {
        assert forall|i: int, j: int| 0 <= i < j < v@.len() implies target_code(#[trigger] v@[i])
            < target_code(#[trigger] v@[j]) by {
            lemma_codes_pairwise(v@, i, j);
        }
    }
    true
}

/// Neighbour order of target codes extends to any two positions.
proof fn lemma_codes_pairwise(s: Seq<AttrTarget>, i: int, j: int)
    requires
        forall|m: int| 0 <= m < s.len() - 1 ==> target_code(#[trigger] s[m]) < target_code(s[m + 1]),
        0 <= i < j < s.len(),
    ensures
        target_code(s[i]) < target_code(s[j]),
    decreases j - i,
{
    if j > i + 1 {
        lemma_codes_pairwise(s, i, j - 1);
    }
}

/// Consumes one record object at position `i`.
#[verifier::rlimit(100)]
fn take_attr_rec(s: &str, i: usize) -> (r: Option<(AttributeRecord, usize)>)
    requires
        i <= s@.len(),
    ensures
        match r {
            Some((rec, j)) => {
                &&& i <= j <= s@.len()
                &&& parse_attr_rec(s@.skip(i as int)) == Some((rec@, s@.skip(j as int)))
            },
            None => parse_attr_rec(s@.skip(i as int)) is None,
        },
{
    let j = match match_lit(s, i, "{\"applies_to\":") {
        None => {
            return None;
        },
        Some(j) => j,
    };
    let (ts, j) = match take_targets(s, j) {
        None => {
            return None;
        },
        Some(x) => x,
    };
    if !check_targets_canonical(&ts) {
        return None;
    }
    let j = match match_lit(s, j, ",\"is_deprecated\":") {
        None => {
            return None;
        },
        Some(x) => x,
    };
    let (dep, j) = match take_bool(s, j) {
        None => {
            return None;
        },
        Some(x) => x,
    };
    let j = match match_lit(s, j, ",\"is_internal\":") {
        None => {
            return None;
        },
        Some(x) => x,
    };
    let (internal, j) = match take_bool(s, j) {
        None => {
            return None;
        },
        Some(x) => x,
    };
    let j = match match_lit(s, j, ",\"name\":") {
        None => {
            return None;
        },
        Some(x) => x,
    };
    let (n, j) = match take_quoted(s, j) {
        None => {
            return None;
        },
        Some(x) => x,
    };
    if n.as_str().unicode_len() == 0 {
        return None;
    }
    let j = match match_lit(s, j, ",\"template\":") {
        None => {
            return None;
        },
        Some(x) => x,
    };
    let (tp, j) = match take_opt_template(s, j) {
        None => {
            return None;
        },
        Some(x) => x,
    };
    let j = match match_lit(s, j, "}") {
        None => {
            return None;
        },
        Some(x) => x,
    };
    Some(
        (
            AttributeRecord {
                name: n,
                applies_to: ts,
                template: tp,
                is_deprecated: dep,
                is_internal: internal,
            },
            j,
        ),
    )
}

/// Consumes the record lines at position `i`.
fn take_attr_lines(s: &str, i: usize) -> (r: Option<(Vec<AttributeRecord>, usize)>)
    requires
        i <= s@.len(),
    ensures
        match r {
            Some((v, j)) => {
                &&& i <= j <= s@.len()
                &&& parse_attr_lines(s@.skip(i as int)) == Some(
                    (crate::attribute::attr_recs_view(v@), s@.skip(j as int)),
                )
            },
            None => parse_attr_lines(s@.skip(i as int)) is None,
        },
    decreases s@.len() - i,
{
    let j0 = match match_lit(s, i, "  ") {
        None => {
            return None;
        },
        Some(x) => x,
    };
    let (rec, j1) = match take_attr_rec(s, j0) {
        None => {
            return None;
        },
        Some(x) => x,
    };
    match match_lit(s, j1, ",\n") {
        Some(j2) => {
            proof {
                reveal_strlit("  ");
                reveal_strlit(",\n");
                assert(j2 > i);
                assert(s@.skip(j2 as int).len() < s@.skip(i as int).len());
            }
            match take_attr_lines(s, j2) {
                None => None,
                Some((v2, j3)) => {
                    let mut v2 = v2;
                    v2.insert(0, rec);
                    proof {
                        assert(crate::attribute::attr_recs_view(v2@) =~= seq![rec@]
                            + crate::attribute::attr_recs_view(v2@.skip(1)));
                    }
                    Some((v2, j3))
                },
            }
        },
        None => {
            match match_lit(s, j1, "\n") {
                None => None,
                Some(j2) => {
                    let mut v: Vec<AttributeRecord> = Vec::new();
                    v.push(rec);
                    proof {
                        assert(crate::attribute::attr_recs_view(v@) =~= seq![rec@]);
                    }
                    Some((v, j2))
                },
            }
        },
    }
}

/// Checks that adjacent record names strictly ascend.
fn check_attr_names_sorted(v: &Vec<AttributeRecord>) -> (r: bool)
    ensures
        r == attr_names_sorted(crate::attribute::attr_recs_view(v@)),
{
    let ghost sv = crate::attribute::attr_recs_view(v@);
    let n = v.len();
    let mut k: usize = 1;
    while k < n
        invariant
            1 <= k <= n || n == 0,
            n == v@.len(),
            sv == crate::attribute::attr_recs_view(v@),
            sv.len() == n,
            forall|m: int| 0 <= m < k - 1 ==> lex_lt(#[trigger] sv[m].name, sv[m + 1].name),
        decreases n - k,
    {
        let before = crate::order::str_lt(v[k - 1].name.as_str(), v[k].name.as_str());
        proof {
            assert(sv[k - 1 as int].name == v@[k - 1 as int]@.name);
            assert(sv[k as int].name == v@[k as int]@.name);
        }
        if !before {
            return false;
        }
        k = k + 1;
    }
    true
}

/// Reads a snapshot from its canonical JSON document; anything else yields
/// `None`. A snapshot edited by hand — say, to curate a field — must keep
/// the canonical form exactly: other whitespace or key orders are refused,
/// not re-normalized.
pub fn attributes_from_json(s: &str) -> (r: Option<AttributeSnapshot>)
    ensures
        match r {
            Some(snap) => parse_attributes(s@) == Some(snap@) && snap.wf(),
            None => parse_attributes(s@) is None,
        },
{
    let len = s.unicode_len();
    proof {
        assert(s@.skip(0) =~= s@);
    }
    match match_lit(s, 0, "[\n") {
        Some(j) => {
            match take_attr_lines(s, j) {
                None => None,
                Some((v, j2)) => {
                    match match_lit(s, j2, "]\n") {
                        None => None,
                        Some(j3) => {
                            if j3 != len {
                                proof {
                                    assert(s@.skip(j3 as int).len() != 0);
                                }
                                return None;
                            }
                            proof {
                                assert(s@.skip(j3 as int).len() == 0);
                            }
                            if check_attr_names_sorted(&v) {
                                let snap = AttributeSnapshot { records: v };
                                proof {
                                    let sv = crate::attribute::attr_recs_view(snap.records@);
                                    assert(snap@ =~= sv);
                                    lemma_parse_attr_lines_shape(s@.skip(j as int));
                                    assert forall|p: int, q: int| 0 <= p < q < sv.len() implies
                                    lex_lt(#[trigger] sv[p].name, #[trigger] sv[q].name) by {
                                        lemma_attr_names_sorted_pairwise(sv, p, q);
                                    }
                                }
                                Some(snap)
                            } else {
                                None
                            }
                        },
                    }
                },
            }
        },
        None => {
            match match_lit(s, 0, "[]\n") {
                None => {
                    proof {
                        if s@ == "[]\n"@ {
                            lemma_expect_concat("[]\n"@, Seq::<char>::empty());
                            assert(("[]\n"@ + Seq::<char>::empty()) =~= "[]\n"@);
                        }
                    }
                    None
                },
                Some(j) => {
                    if j == len {
                        proof {
                            assert(s@.take(j as int) =~= s@);
                        }
                        let snap = AttributeSnapshot::empty();
                        Some(snap)
                    } else {
                        proof {
                            assert(s@.len() != ("[]\n"@).len());
                        }
                        None
                    }
                },
            }
        },
    }
}

/// Round trip: parsing a formatted well-formed snapshot reproduces exactly
/// its records.
pub proof fn lemma_parse_attributes_round(s: Seq<AttrRec>)
    requires
        attr_snapshot_wf(s),
    ensures
        parse_attributes(fmt_attributes(s)) == Some(s),
{
    reveal_strlit("[\n");
    reveal_strlit("[]\n");
    reveal_strlit("]\n");
    if s.len() == 0 {
        let b = "[]\n"@;
        assert(b.len() == 3);
        match expect(b, "[\n"@) {
            Some(_) => {
                assert(b.take(2)[1] == b[1]);
                assert(("[\n"@)[1] == '\n');
                assert(b[1] == ']');
                assert(false);
            },
            None => {},
        }
    } else {
        let body = fmt_attr_lines(s) + "]\n"@;
        let b = "[\n"@ + body;
        assert(fmt_attributes(s) =~= b);
        lemma_expect_concat("[\n"@, body);
        lemma_parse_attr_lines_round(s);
        lemma_expect_concat("]\n"@, Seq::<char>::empty());
        assert(("]\n"@ + Seq::<char>::empty()) =~= "]\n"@);
        assert(expect("]\n"@, "]\n"@) == Some(Seq::<char>::empty()));
    }
}

} // verus!
