//! Canonical JSON form of the feature registry: keys sorted at every level,
//! two-space indentation, newline-terminated, and a parser that accepts
//! exactly that form, so that persisting and re-reading a snapshot is the
//! identity.

use vstd::prelude::*;

use crate::feature::{
    feature_rec_ok, feature_snapshot_wf, FeatureRec, FeatureRecord, FeatureSnapshot, FeatureStatus,
    opt_view,
};
use crate::order::{lex_lt, lemma_lex_trans, str_eq};
use crate::text::{
    expect, fmt_opt_text, fmt_text, lemma_expect_concat, lemma_parse_opt_text_round,
    lemma_parse_opt_text_shape, lemma_parse_text_round, lemma_parse_text_shape, match_lit,
    parse_opt_text, parse_text, take_opt_text, take_quoted, text_ok,
};

verus! {

/// The one canonical spelling of each lifecycle tag.
pub open spec fn status_word(st: FeatureStatus) -> Seq<char> {
    match st {
        FeatureStatus::Active => "active"@,
        FeatureStatus::Accepted => "accepted"@,
        FeatureStatus::Removed => "removed"@,
        FeatureStatus::Incomplete => "incomplete"@,
        FeatureStatus::Unknown => "unknown"@,
    }
}

/// The inverse table: unknown spellings have no status.
pub open spec fn word_to_status(w: Seq<char>) -> Option<FeatureStatus> {
    if w == "active"@ {
        Some(FeatureStatus::Active)
    } else if w == "accepted"@ {
        Some(FeatureStatus::Accepted)
    } else if w == "removed"@ {
        Some(FeatureStatus::Removed)
    } else if w == "incomplete"@ {
        Some(FeatureStatus::Incomplete)
    } else if w == "unknown"@ {
        Some(FeatureStatus::Unknown)
    } else {
        None
    }
}

/// Every canonical spelling is JSON-safe text.
pub proof fn lemma_status_word_ok(st: FeatureStatus)
    ensures
        text_ok(status_word(st)),
{
    reveal_strlit("active");
    reveal_strlit("accepted");
    reveal_strlit("removed");
    reveal_strlit("incomplete");
    reveal_strlit("unknown");
}

/// The two tables are mutually inverse.
pub proof fn lemma_status_word_round(st: FeatureStatus)
    ensures
        word_to_status(status_word(st)) == Some(st),
{
    reveal_strlit("active");
    reveal_strlit("accepted");
    reveal_strlit("removed");
    reveal_strlit("incomplete");
    reveal_strlit("unknown");
    assert(("active"@).len() == 6);
    assert(("accepted"@).len() == 8);
    assert(("removed"@).len() == 7);
    assert(("incomplete"@).len() == 10);
    assert(("unknown"@).len() == 7);
    assert(("removed"@)[0] == 'r');
    assert(("unknown"@)[0] == 'u');
}

/// One record as a JSON object, keys in sorted order.
pub open spec fn fmt_feature_rec(r: FeatureRec) -> Seq<char> {
    "{\"description\":"@ + fmt_opt_text(r.description) + ",\"name\":"@ + fmt_text(r.name)
        + ",\"since_version\":"@ + fmt_opt_text(r.since_version) + ",\"status\":"@ + fmt_text(
        status_word(r.status),
    ) + ",\"tracking_issue\":"@ + fmt_opt_text(r.tracking_issue) + "}"@
}

/// The record lines of the document: one record per line, indented, all but
/// the last followed by a comma.
pub open spec fn fmt_feature_lines(s: Seq<FeatureRec>) -> Seq<char>
    decreases s.len(),
{
    if s.len() == 0 {
        Seq::empty()
    } else if s.len() == 1 {
        "  "@ + fmt_feature_rec(s[0]) + "\n"@
    } else {
        "  "@ + fmt_feature_rec(s[0]) + ",\n"@ + fmt_feature_lines(s.skip(1))
    }
}

/// The whole document: a JSON array of records, newline-terminated.
pub open spec fn fmt_features(s: Seq<FeatureRec>) -> Seq<char> {
    if s.len() == 0 {
        "[]\n"@
    } else {
        "[\n"@ + fmt_feature_lines(s) + "]\n"@
    }
}

/// Consumes a quoted status tag.
pub open spec fn parse_status(b: Seq<char>) -> Option<(FeatureStatus, Seq<char>)> {
    match parse_text(b) {
        None => None,
        Some((w, r)) => match word_to_status(w) {
            None => None,
            Some(st) => Some((st, r)),
        },
    }
}

/// Consumes one record object.
pub open spec fn parse_feature_rec(b: Seq<char>) -> Option<(FeatureRec, Seq<char>)> {
    match expect(b, "{\"description\":"@) {
        None => None,
        Some(b1) => match parse_opt_text(b1) {
            None => None,
            Some((d, b2)) => match expect(b2, ",\"name\":"@) {
                None => None,
                Some(b3) => match parse_text(b3) {
                    None => None,
                    Some((n, b4)) => if n.len() == 0 {
                        None
                    } else {
                        match expect(b4, ",\"since_version\":"@) {
                            None => None,
                            Some(b5) => match parse_opt_text(b5) {
                                None => None,
                                Some((v, b6)) => match expect(b6, ",\"status\":"@) {
                                    None => None,
                                    Some(b7) => match parse_status(b7) {
                                        None => None,
                                        Some((st, b8)) => match expect(b8, ",\"tracking_issue\":"@) {
                                            None => None,
                                            Some(b9) => match parse_opt_text(b9) {
                                                None => None,
                                                Some((t, b10)) => match expect(b10, "}"@) {
                                                    None => None,
                                                    Some(b11) => Some(
                                                        (
                                                            FeatureRec {
                                                                name: n,
                                                                status: st,
                                                                since_version: v,
                                                                tracking_issue: t,
                                                                description: d,
                                                            },
                                                            b11,
                                                        ),
                                                    ),
                                                },
                                            },
                                        },
                                    },
                                },
                            },
                        }
                    },
                },
            },
        },
    }
}

/// Consumes the record lines up to, but not including, the closing bracket.
pub open spec fn parse_feature_lines(b: Seq<char>) -> Option<(Seq<FeatureRec>, Seq<char>)>
    decreases b.len(),
{
    match expect(b, "  "@) {
        None => None,
        Some(b0) => match parse_feature_rec(b0) {
            None => None,
            Some((r, b1)) => match expect(b1, ",\n"@) {
                Some(b2) => if b2.len() < b.len() {
                    match parse_feature_lines(b2) {
                        None => None,
                        Some((rs, b3)) => Some((seq![r] + rs, b3)),
                    }
                } else {
                    None
                },
                None => match expect(b1, "\n"@) {
                    None => None,
                    Some(b2) => Some((seq![r], b2)),
                },
            },
        },
    }
}

/// Adjacent records are in strictly ascending name order.
pub open spec fn names_sorted(s: Seq<FeatureRec>) -> bool {
    forall|i: int| 0 <= i < s.len() - 1 ==> lex_lt(#[trigger] s[i].name, s[i + 1].name)
}

/// Consumes a whole document; anything but the canonical form is refused.
pub open spec fn parse_features(b: Seq<char>) -> Option<Seq<FeatureRec>> {
    match expect(b, "[\n"@) {
        Some(b1) => match parse_feature_lines(b1) {
            None => None,
            Some((rs, b2)) => match expect(b2, "]\n"@) {
                None => None,
                Some(b3) => if b3.len() == 0 && names_sorted(rs) {
                    Some(rs)
                } else {
                    None
                },
            },
        },
        None => if b == "[]\n"@ {
            Some(Seq::empty())
        } else {
            None
        },
    }
}

/// A parsed record is acceptable, and parsing consumes at least one
/// character.
pub proof fn lemma_parse_feature_rec_shape(b: Seq<char>)
    ensures
        match parse_feature_rec(b) {
            Some((r, rest)) => feature_rec_ok(r) && rest.len() < b.len(),
            None => true,
        },
{
    if let Some(b1) = expect(b, "{\"description\":"@) {
        lemma_parse_opt_text_shape(b1);
        if let Some((d, b2)) = parse_opt_text(b1) {
            if let Some(b3) = expect(b2, ",\"name\":"@) {
                lemma_parse_text_shape(b3);
                if let Some((n, b4)) = parse_text(b3) {
                    if n.len() > 0 {
                        if let Some(b5) = expect(b4, ",\"since_version\":"@) {
                            lemma_parse_opt_text_shape(b5);
                            if let Some((v, b6)) = parse_opt_text(b5) {
                                if let Some(b7) = expect(b6, ",\"status\":"@) {
                                    lemma_parse_text_shape(b7);
                                    if let Some((st, b8)) = parse_status(b7) {
                                        if let Some(b9) = expect(b8, ",\"tracking_issue\":"@) {
                                            lemma_parse_opt_text_shape(b9);
                                        }
                                    }
                                }
                            }
                        }
                    }
                }
            }
        }
    }
}

/// Every record in a parsed line list is acceptable.
pub proof fn lemma_parse_feature_lines_shape(b: Seq<char>)
    ensures
        match parse_feature_lines(b) {
            Some((rs, rest)) => forall|k: int| 0 <= k < rs.len() ==> feature_rec_ok(#[trigger] rs[k]),
            None => true,
        },
    decreases b.len(),
{
    if let Some(b0) = expect(b, "  "@) {
        lemma_parse_feature_rec_shape(b0);
        if let Some((r, b1)) = parse_feature_rec(b0) {
            match expect(b1, ",\n"@) {
                Some(b2) => {
                    if b2.len() < b.len() {
                        lemma_parse_feature_lines_shape(b2);
                        if let Some((rs, b3)) = parse_feature_lines(b2) {
                            let all = seq![r] + rs;
                            assert forall|k: int| 0 <= k < all.len() implies feature_rec_ok(
                                #[trigger] all[k],
                            ) by {
                                if k > 0 {
                                    assert(all[k] == rs[k - 1]);
                                }
                            }
                        }
                    }
                },
                None => {
                    if let Some(b2) = expect(b1, "\n"@) {
                        assert(seq![r][0] == r);
                    }
                },
            }
        }
    }
}

/// Parsing undoes formatting for one record.
#[verifier::rlimit(60)]
pub proof fn lemma_parse_feature_rec_round(r: FeatureRec, rest: Seq<char>)
    requires
        feature_rec_ok(r),
    ensures
        parse_feature_rec(fmt_feature_rec(r) + rest) == Some((r, rest)),
{
    lemma_status_word_ok(r.status);
    lemma_status_word_round(r.status);
    let t10 = "}"@ + rest;
    let t9 = fmt_opt_text(r.tracking_issue) + t10;
    let t8 = ",\"tracking_issue\":"@ + t9;
    let t7 = fmt_text(status_word(r.status)) + t8;
    let t6 = ",\"status\":"@ + t7;
    let t5 = fmt_opt_text(r.since_version) + t6;
    let t4 = ",\"since_version\":"@ + t5;
    let t3 = fmt_text(r.name) + t4;
    let t2 = ",\"name\":"@ + t3;
    let t1 = fmt_opt_text(r.description) + t2;
    let b = "{\"description\":"@ + t1;
    // Reassociate the formatted record one segment at a time.
    let p1 = "{\"description\":"@ + fmt_opt_text(r.description);
    let p2 = p1 + ",\"name\":"@;
    let p3 = p2 + fmt_text(r.name);
    let p4 = p3 + ",\"since_version\":"@;
    let p5 = p4 + fmt_opt_text(r.since_version);
    let p6 = p5 + ",\"status\":"@;
    let p7 = p6 + fmt_text(status_word(r.status));
    let p8 = p7 + ",\"tracking_issue\":"@;
    let p9 = p8 + fmt_opt_text(r.tracking_issue);
    assert(fmt_feature_rec(r) + rest =~= p9 + t10);
    assert(p9 + t10 =~= p8 + t9);
    assert(p8 + t9 =~= p7 + t8);
    assert(p7 + t8 =~= p6 + t7);
    assert(p6 + t7 =~= p5 + t6);
    assert(p5 + t6 =~= p4 + t5);
    assert(p4 + t5 =~= p3 + t4);
    assert(p3 + t4 =~= p2 + t3);
    assert(p2 + t3 =~= p1 + t2);
    assert(p1 + t2 =~= b);
    lemma_expect_concat("{\"description\":"@, t1);
    lemma_parse_opt_text_round(r.description, t2);
    lemma_expect_concat(",\"name\":"@, t3);
    lemma_parse_text_round(r.name, t4);
    lemma_expect_concat(",\"since_version\":"@, t5);
    lemma_parse_opt_text_round(r.since_version, t6);
    lemma_expect_concat(",\"status\":"@, t7);
    lemma_parse_text_round(status_word(r.status), t8);
    lemma_expect_concat(",\"tracking_issue\":"@, t9);
    lemma_parse_opt_text_round(r.tracking_issue, t10);
    lemma_expect_concat("}"@, rest);
    assert(parse_feature_rec(b) == Some((r, rest)));
}

/// Parsing undoes formatting for the record lines followed by the closing
/// bracket.
#[verifier::rlimit(100)]
pub proof fn lemma_parse_feature_lines_round(s: Seq<FeatureRec>)
    requires
        s.len() > 0,
        forall|i: int| 0 <= i < s.len() ==> feature_rec_ok(#[trigger] s[i]),
    ensures
        parse_feature_lines(fmt_feature_lines(s) + "]\n"@) == Some((s, "]\n"@)),
    decreases s.len(),
{
    reveal_strlit("  ");
    reveal_strlit(",\n");
    reveal_strlit("\n");
    reveal_strlit("]\n");
    if s.len() == 1 {
        let tail = "\n"@ + "]\n"@;
        let t0 = fmt_feature_rec(s[0]) + tail;
        let b = "  "@ + t0;
        assert(fmt_feature_lines(s) + "]\n"@ =~= b);
        lemma_expect_concat("  "@, t0);
        lemma_parse_feature_rec_round(s[0], tail);
        // The comma branch is not taken: the tail starts with a newline.
        assert(tail[0] == '\n');
        assert((",\n"@)[0] == ',');
        match expect(tail, ",\n"@) {
            Some(_) => {
                assert(tail.take(2)[0] == tail[0]);
                assert(false);
            },
            None => {},
        }
        lemma_expect_concat("\n"@, "]\n"@);
        assert(seq![s[0]] =~= s);
    } else {
        let rest2 = fmt_feature_lines(s.skip(1)) + "]\n"@;
        let tail = ",\n"@ + rest2;
        let t0 = fmt_feature_rec(s[0]) + tail;
        let b = "  "@ + t0;
        assert(fmt_feature_lines(s) + "]\n"@ =~= b);
        lemma_expect_concat("  "@, t0);
        lemma_parse_feature_rec_round(s[0], tail);
        lemma_expect_concat(",\n"@, rest2);
        assert(rest2.len() < b.len());
        assert forall|i: int| 0 <= i < s.skip(1).len() implies feature_rec_ok(
            #[trigger] s.skip(1)[i],
        ) by {
            assert(s.skip(1)[i] == s[i + 1]);
        }
        lemma_parse_feature_lines_round(s.skip(1));
        assert(seq![s[0]] + s.skip(1) =~= s);
    }
}

/// Neighbour order extends to any two positions.
pub proof fn lemma_names_sorted_pairwise(s: Seq<FeatureRec>, i: int, j: int)
    requires
        names_sorted(s),
        0 <= i < j < s.len(),
    ensures
        lex_lt(s[i].name, s[j].name),
    decreases j - i,
{
    if j == i + 1 {
    } else {
        lemma_names_sorted_pairwise(s, i, j - 1);
        assert(lex_lt(s[j - 1].name, s[j].name));
        lemma_lex_trans(s[i].name, s[j - 1].name, s[j].name);
    }
}

/// Round trip: parsing a formatted well-formed snapshot reproduces exactly
/// its records.
pub proof fn lemma_parse_features_round(s: Seq<FeatureRec>)
    requires
        feature_snapshot_wf(s),
    ensures
        parse_features(fmt_features(s)) == Some(s),
{
    reveal_strlit("[\n");
    reveal_strlit("[]\n");
    reveal_strlit("]\n");
    if s.len() == 0 {
        let b = "[]\n"@;
        assert(b.len() == 3);
        match expect(b, "[\n"@) {
            Some(_) => {
                assert(b.take(2)[1] == b[1]);
                assert(("[\n"@)[1] == '\n');
                assert(b[1] == ']');
                assert(false);
            },
            None => {},
        }
    } else {
        let body = fmt_feature_lines(s) + "]\n"@;
        let b = "[\n"@ + body;
        assert(fmt_features(s) =~= b);
        lemma_expect_concat("[\n"@, body);
        lemma_parse_feature_lines_round(s);
        lemma_expect_concat("]\n"@, Seq::<char>::empty());
        assert(fmt_feature_lines(s) + "]\n"@ =~= fmt_feature_lines(s) + "]\n"@ + Seq::<
            char,
        >::empty());
        assert(expect("]\n"@ + Seq::<char>::empty(), "]\n"@) == Some(Seq::<char>::empty()));
        assert(("]\n"@ + Seq::<char>::empty()) =~= "]\n"@);
    }
}

/// Appends a quoted string.
fn push_quoted(out: &mut String, s: &str)
    ensures
        final(out)@ == old(out)@ + fmt_text(s@),
{
    out.append("\"");
    out.append(s);
    out.append("\"");
    proof {
        reveal_strlit("\"");
        assert(("\""@) =~= seq!['"']);
        assert(out@ =~= old(out)@ + fmt_text(s@));
    }
}

/// Appends `null` or a quoted string.
fn push_opt_text(out: &mut String, o: &Option<String>)
    ensures
        final(out)@ == old(out)@ + fmt_opt_text(opt_view(*o)),
{
    match o {
        None => {
            out.append("null");
        },
        Some(s) => {
            push_quoted(out, s.as_str());
        },
    }
}

/// The canonical spelling of a status tag.
pub fn status_str(st: FeatureStatus) -> (r: &'static str)
    ensures
        r@ == status_word(st),
{
    match st {
        FeatureStatus::Active => "active",
        FeatureStatus::Accepted => "accepted",
        FeatureStatus::Removed => "removed",
        FeatureStatus::Incomplete => "incomplete",
        FeatureStatus::Unknown => "unknown",
    }
}

/// Appends one record object.
#[verifier::rlimit(60)]
fn push_feature_rec(out: &mut String, r: &FeatureRecord)
    ensures
        final(out)@ == old(out)@ + fmt_feature_rec(r@),
{
    let ghost o0 = out@;
    out.append("{\"description\":");
    push_opt_text(out, &r.description);
    proof {
        let p1 = "{\"description\":"@ + fmt_opt_text(r@.description);
        assert(out@ =~= o0 + p1);
    }
    out.append(",\"name\":");
    push_quoted(out, r.name.as_str());
    proof {
        let p3 = "{\"description\":"@ + fmt_opt_text(r@.description) + ",\"name\":"@ + fmt_text(
            r@.name,
        );
        assert(out@ =~= o0 + p3);
    }
    out.append(",\"since_version\":");
    push_opt_text(out, &r.since_version);
    proof {
        let p5 = "{\"description\":"@ + fmt_opt_text(r@.description) + ",\"name\":"@ + fmt_text(
            r@.name,
        ) + ",\"since_version\":"@ + fmt_opt_text(r@.since_version);
        assert(out@ =~= o0 + p5);
    }
    out.append(",\"status\":");
    push_quoted(out, status_str(r.status));
    proof {
        let p7 = "{\"description\":"@ + fmt_opt_text(r@.description) + ",\"name\":"@ + fmt_text(
            r@.name,
        ) + ",\"since_version\":"@ + fmt_opt_text(r@.since_version) + ",\"status\":"@ + fmt_text(
            status_word(r@.status),
        );
        assert(out@ =~= o0 + p7);
    }
    out.append(",\"tracking_issue\":");
    push_opt_text(out, &r.tracking_issue);
    out.append("}");
    proof {
        assert(out@ =~= o0 + fmt_feature_rec(r@));
    }
}

/// Serializes a snapshot to its canonical JSON document.
pub fn format_features(snap: &FeatureSnapshot) -> (out: String)
    ensures
        out@ == fmt_features(snap@),
{
    let n = snap.records.len();
    if n == 0 {
        let out = String::from_str("[]\n");
        return out;
    }
    let mut out = String::from_str("[\n");
    let mut i: usize = 0;
    proof {
        assert(snap@.skip(0) =~= snap@);
    }
    while i < n
        invariant
            i <= n,
            n == snap.records@.len(),
            snap@.len() == n,
            out@ + fmt_feature_lines(snap@.skip(i as int)) == "[\n"@ + fmt_feature_lines(snap@),
            forall|k: int| 0 <= k < snap@.len() ==> snap@[k] == #[trigger] snap.records@[k]@,
        decreases n - i,
    {
        let ghost o0 = out@;
        let ghost tail = snap@.skip(i as int);
        out.append("  ");
        push_feature_rec(&mut out, &snap.records[i]);
        if i + 1 < n {
            out.append(",\n");
            proof {
                assert(tail.len() > 1);
                assert(tail[0] == snap@[i as int]);
                assert(tail.skip(1) =~= snap@.skip(i + 1 as int));
                assert(fmt_feature_lines(tail) == "  "@ + fmt_feature_rec(tail[0]) + ",\n"@
                    + fmt_feature_lines(tail.skip(1)));
                assert(out@ =~= o0 + ("  "@ + fmt_feature_rec(tail[0]) + ",\n"@));
                assert(out@ + fmt_feature_lines(snap@.skip(i + 1 as int)) =~= o0
                    + fmt_feature_lines(tail));
            }
        } else {
            out.append("\n");
            proof {
                assert(tail.len() == 1);
                assert(tail[0] == snap@[i as int]);
                assert(fmt_feature_lines(tail) == "  "@ + fmt_feature_rec(tail[0]) + "\n"@);
                assert(out@ =~= o0 + ("  "@ + fmt_feature_rec(tail[0]) + "\n"@));
                assert(snap@.skip(i + 1 as int) =~= Seq::<FeatureRec>::empty());
                assert(out@ + fmt_feature_lines(snap@.skip(i + 1 as int)) =~= o0
                    + fmt_feature_lines(tail));
            }
        }
        i = i + 1;
    }
    proof {
        assert(snap@.skip(n as int) =~= Seq::<FeatureRec>::empty());
        assert(out@ + fmt_feature_lines(snap@.skip(n as int)) =~= out@);
    }
    out.append("]\n");
    proof {
        assert(out@ =~= fmt_features(snap@));
    }
    out
}

/// The status a spelling denotes, if any.
pub fn status_of_word(w: &str) -> (r: Option<FeatureStatus>)
    ensures
        r == word_to_status(w@),
{
    if str_eq(w, "active") {
        Some(FeatureStatus::Active)
    } else if str_eq(w, "accepted") {
        Some(FeatureStatus::Accepted)
    } else if str_eq(w, "removed") {
        Some(FeatureStatus::Removed)
    } else if str_eq(w, "incomplete") {
        Some(FeatureStatus::Incomplete)
    } else if str_eq(w, "unknown") {
        Some(FeatureStatus::Unknown)
    } else {
        None
    }
}

/// Consumes a quoted status tag at position `i`.
fn take_status(s: &str, i: usize) -> (r: Option<(FeatureStatus, usize)>)
    requires
        i <= s@.len(),
    ensures
        match r {
            Some((st, j)) => {
                &&& i < j <= s@.len()
                &&& parse_status(s@.skip(i as int)) == Some((st, s@.skip(j as int)))
            },
            None => parse_status(s@.skip(i as int)) is None,
        },
{
    match take_quoted(s, i) {
        None => None,
        Some((w, j)) => {
            match status_of_word(w.as_str()) {
                None => None,
                Some(st) => Some((st, j)),
            }
        },
    }
}

/// Consumes one record object at position `i`.
#[verifier::rlimit(60)]
fn take_feature_rec(s: &str, i: usize) -> (r: Option<(FeatureRecord, usize)>)
    requires
        i <= s@.len(),
    ensures
        match r {
            Some((rec, j)) => {
                &&& i <= j <= s@.len()
                &&& parse_feature_rec(s@.skip(i as int)) == Some((rec@, s@.skip(j as int)))
            },
            None => parse_feature_rec(s@.skip(i as int)) is None,
        },
{
    let j = match match_lit(s, i, "{\"description\":") {
        None => {
            return None;
        },
        Some(j) => j,
    };
    let (d, j) = match take_opt_text(s, j) {
        None => {
            return None;
        },
        Some(x) => x,
    };
    let j = match match_lit(s, j, ",\"name\":") {
        None => {
            return None;
        },
        Some(x) => x,
    };
    let (n, j) = match take_quoted(s, j) {
        None => {
            return None;
        },
        Some(x) => x,
    };
    if n.as_str().unicode_len() == 0 {
        return None;
    }
    let j = match match_lit(s, j, ",\"since_version\":") {
        None => {
            return None;
        },
        Some(x) => x,
    };
    let (v, j) = match take_opt_text(s, j) {
        None => {
            return None;
        },
        Some(x) => x,
    };
    let j = match match_lit(s, j, ",\"status\":") {
        None => {
            return None;
        },
        Some(x) => x,
    };
    let (st, j) = match take_status(s, j) {
        None => {
            return None;
        },
        Some(x) => x,
    };
    let j = match match_lit(s, j, ",\"tracking_issue\":") {
        None => {
            return None;
        },
        Some(x) => x,
    };
    let (t, j) = match take_opt_text(s, j) {
        None => {
            return None;
        },
        Some(x) => x,
    };
    let j = match match_lit(s, j, "}") {
        None => {
            return None;
        },
        Some(x) => x,
    };
    Some(
        (
            FeatureRecord {
                name: n,
                status: st,
                since_version: v,
                tracking_issue: t,
                description: d,
            },
            j,
        ),
    )
}

/// Consumes the record lines at position `i`.
fn take_feature_lines(s: &str, i: usize) -> (r: Option<(Vec<FeatureRecord>, usize)>)
    requires
        i <= s@.len(),
    ensures
        match r {
            Some((v, j)) => {
                &&& i <= j <= s@.len()
                &&& parse_feature_lines(s@.skip(i as int)) == Some(
                    (crate::feature::recs_view(v@), s@.skip(j as int)),
                )
            },
            None => parse_feature_lines(s@.skip(i as int)) is None,
        },
    decreases s@.len() - i,
{
    let j0 = match match_lit(s, i, "  ") {
        None => {
            return None;
        },
        Some(x) => x,
    };
    let (rec, j1) = match take_feature_rec(s, j0) {
        None => {
            return None;
        },
        Some(x) => x,
    };
    match match_lit(s, j1, ",\n") {
        Some(j2) => {
            proof {
                reveal_strlit("  ");
                reveal_strlit(",\n");
                assert(j2 > i);
                assert(s@.skip(j2 as int).len() < s@.skip(i as int).len());
            }
            match take_feature_lines(s, j2) {
                None => None,
                Some((v2, j3)) => {
                    let mut v2 = v2;
                    v2.insert(0, rec);
                    proof {
                        assert(crate::feature::recs_view(v2@) =~= seq![rec@]
                            + crate::feature::recs_view(v2@.skip(1)));
                        assert(v2@.skip(1) =~= v2@.subrange(1, v2@.len() as int));
                    }
                    Some((v2, j3))
                },
            }
        },
        None => {
            match match_lit(s, j1, "\n") {
                None => None,
                Some(j2) => {
                    let mut v: Vec<FeatureRecord> = Vec::new();
                    v.push(rec);
                    proof {
                        assert(crate::feature::recs_view(v@) =~= seq![rec@]);
                    }
                    Some((v, j2))
                },
            }
        },
    }
}

/// Checks that adjacent record names strictly ascend.
fn check_names_sorted(v: &Vec<FeatureRecord>) -> (r: bool)
    ensures
        r == names_sorted(crate::feature::recs_view(v@)),
{
    let ghost sv = crate::feature::recs_view(v@);
    let n = v.len();
    let mut k: usize = 1;
    while k < n
        invariant
            1 <= k <= n || n == 0,
            n == v@.len(),
            sv == crate::feature::recs_view(v@),
            sv.len() == n,
            forall|m: int| 0 <= m < k - 1 ==> lex_lt(#[trigger] sv[m].name, sv[m + 1].name),
        decreases n - k,
    {
        let before = crate::order::str_lt(v[k - 1].name.as_str(), v[k].name.as_str());
        proof {
            assert(sv[k - 1 as int].name == v@[k - 1 as int]@.name);
            assert(sv[k as int].name == v@[k as int]@.name);
        }
        if !before {
            return false;
        }
        k = k + 1;
    }
    true
}

/// Reads a snapshot from its canonical JSON document; anything else yields
/// `None`. A snapshot edited by hand — say, to curate a field — must keep
/// the canonical form exactly: other whitespace or key orders are refused,
/// not re-normalized.
pub fn features_from_json(s: &str) -> (r: Option<FeatureSnapshot>)
    ensures
        match r {
            Some(snap) => parse_features(s@) == Some(snap@) && snap.wf(),
            None => parse_features(s@) is None,
        },
{
    let len = s.unicode_len();
    proof {
        assert(s@.skip(0) =~= s@);
    }
    match match_lit(s, 0, "[\n") {
        Some(j) => {
            match take_feature_lines(s, j) {
                None => None,
                Some((v, j2)) => {
                    match match_lit(s, j2, "]\n") {
                        None => None,
                        Some(j3) => {
                            if j3 != len {
                                proof {
                                    assert(s@.skip(j3 as int).len() != 0);
                                }
                                return None;
                            }
                            proof {
                                assert(s@.skip(j3 as int).len() == 0);
                            }
                            if check_names_sorted(&v) {
                                let snap = FeatureSnapshot { records: v };
                                proof {
                                    let sv = crate::feature::recs_view(snap.records@);
                                    assert(snap@ =~= sv);
                                    lemma_parse_feature_lines_shape(s@.skip(j as int));
                                    assert forall|p: int, q: int| 0 <= p < q < sv.len() implies
                                    lex_lt(#[trigger] sv[p].name, #[trigger] sv[q].name) by {
                                        lemma_names_sorted_pairwise(sv, p, q);
                                    }
                                }
                                Some(snap)
                            } else {
                                None
                            }
                        },
                    }
                },
            }
        },
        None => {
            match match_lit(s, 0, "[]\n") {
                None => {
                    proof {
                        if s@ == "[]\n"@ {
                            lemma_expect_concat("[]\n"@, Seq::<char>::empty());
                            assert(("[]\n"@ + Seq::<char>::empty()) =~= "[]\n"@);
                        }
                    }
                    None
                },
                Some(j) => {
                    if j == len {
                        proof {
                            assert(s@.take(j as int) =~= s@);
                        }
                        let snap = FeatureSnapshot::empty();
                        Some(snap)
                    } else {
                        proof {
                            assert(s@.len() != ("[]\n"@).len());
                        }
                        None
                    }
                },
            }
        },
    }
}

} // verus!
