//! Character-level helpers shared by the serializers, the parsers, and the
//! extractor: JSON-safe text, quoted-string scanning, literal matching, and
//! splitting on a separator character.

use vstd::prelude::*;

verus! {

/// Text that can be embedded verbatim inside a JSON string: no quote, no
/// backslash, no control character.
pub open spec fn text_ok(s: Seq<char>) -> bool {
    forall|i: int| 0 <= i < s.len() ==> s[i] != '"' && s[i] != '\\' && (#[trigger] s[i] as u32) >= 32
}

/// Consumes `lit` from the front of `b`, returning the remainder.
pub open spec fn expect(b: Seq<char>, lit: Seq<char>) -> Option<Seq<char>> {
    if lit.len() <= b.len() && b.take(lit.len() as int) == lit {
        Some(b.skip(lit.len() as int))
    } else {
        None
    }
}

/// Matching a literal against itself followed by anything succeeds and leaves
/// exactly the remainder.
pub proof fn lemma_expect_concat(lit: Seq<char>, rest: Seq<char>)
    ensures
        expect(lit + rest, lit) == Some(rest),
{
    assert((lit + rest).take(lit.len() as int) =~= lit);
    assert((lit + rest).skip(lit.len() as int) =~= rest);
}

/// Scans JSON-safe characters up to a closing quote; yields the scanned text
/// and the remainder after the quote.
pub open spec fn scan_text(b: Seq<char>) -> Option<(Seq<char>, Seq<char>)>
    decreases b.len(),
{
    if b.len() == 0 {
        None
    } else if b[0] == '"' {
        Some((Seq::empty(), b.skip(1)))
    } else if b[0] == '\\' || (b[0] as u32) < 32 {
        None
    } else {
        match scan_text(b.skip(1)) {
            None => None,
            Some((w, r)) => Some((seq![b[0]] + w, r)),
        }
    }
}

/// Scanning recovers JSON-safe text laid down before a closing quote.
pub proof fn lemma_scan_text_round(s: Seq<char>, rest: Seq<char>)
    requires
        text_ok(s),
    ensures
        scan_text(s + seq!['"'] + rest) == Some((s, rest)),
    decreases s.len(),
{
    let b = s + seq!['"'] + rest;
    if s.len() == 0 {
        assert(b[0] == '"');
        assert(b.skip(1) =~= rest);
        assert(s =~= Seq::<char>::empty());
    } else {
        assert(b[0] == s[0]);
        assert(text_ok(s.skip(1)));
        lemma_scan_text_round(s.skip(1), rest);
        assert(b.skip(1) =~= s.skip(1) + seq!['"'] + rest);
        assert(seq![b[0]] + s.skip(1) =~= s);
    }
}

/// Whatever a scan yields is JSON-safe, and the pieces account for the input.
pub proof fn lemma_scan_text_shape(b: Seq<char>)
    ensures
        match scan_text(b) {
            Some((w, r)) => text_ok(w) && b =~= w + seq!['"'] + r && r.len() < b.len(),
            None => true,
        },
    decreases b.len(),
{
    if b.len() == 0 {
    } else if b[0] == '"' {
        assert(b =~= Seq::<char>::empty() + seq!['"'] + b.skip(1));
    } else if b[0] == '\\' || (b[0] as u32) < 32 {
    } else {
        lemma_scan_text_shape(b.skip(1));
        if let Some((w, r)) = scan_text(b.skip(1)) {
            assert(b.skip(1) =~= w + seq!['"'] + r);
            assert(b =~= seq![b[0]] + b.skip(1));
            assert(b =~= (seq![b[0]] + w) + seq!['"'] + r);
            let w1 = seq![b[0]] + w;
            assert forall|i: int| 0 <= i < w1.len() implies w1[i] != '"' && w1[i] != '\\' && (
            #[trigger] w1[i] as u32) >= 32 by {
                if i > 0 {
                    assert(w1[i] == w[i - 1]);
                    assert((w[i - 1] as u32) >= 32);
                } else {
                    assert(w1[0] == b[0]);
                }
            }
        }
    }
}

/// A JSON string literal: the text between two quotes.
pub open spec fn fmt_text(s: Seq<char>) -> Seq<char> {
    seq!['"'] + s + seq!['"']
}

/// A JSON optional string: `null`, or a quoted string.
pub open spec fn fmt_opt_text(o: Option<Seq<char>>) -> Seq<char> {
    match o {
        None => "null"@,
        Some(s) => fmt_text(s),
    }
}

/// A JSON boolean.
pub open spec fn fmt_bool(b: bool) -> Seq<char> {
    if b {
        "true"@
    } else {
        "false"@
    }
}

/// Consumes a quoted JSON-safe string from the front of `b`.
pub open spec fn parse_text(b: Seq<char>) -> Option<(Seq<char>, Seq<char>)> {
    if b.len() > 0 && b[0] == '"' {
        scan_text(b.skip(1))
    } else {
        None
    }
}

/// Consumes `null` or a quoted string from the front of `b`.
pub open spec fn parse_opt_text(b: Seq<char>) -> Option<(Option<Seq<char>>, Seq<char>)> {
    if b.len() > 0 && b[0] == 'n' {
        match expect(b, "null"@) {
            None => None,
            Some(r) => Some((None, r)),
        }
    } else {
        match parse_text(b) {
            None => None,
            Some((w, r)) => Some((Some(w), r)),
        }
    }
}

/// Consumes `true` or `false` from the front of `b`.
pub open spec fn parse_bool(b: Seq<char>) -> Option<(bool, Seq<char>)> {
    if b.len() > 0 && b[0] == 't' {
        match expect(b, "true"@) {
            None => None,
            Some(r) => Some((true, r)),
        }
    } else {
        match expect(b, "false"@) {
            None => None,
            Some(r) => Some((false, r)),
        }
    }
}

/// Parsing undoes formatting for quoted strings.
pub proof fn lemma_parse_text_round(s: Seq<char>, rest: Seq<char>)
    requires
        text_ok(s),
    ensures
        parse_text(fmt_text(s) + rest) == Some((s, rest)),
{
    let b = fmt_text(s) + rest;
    assert(b[0] == '"');
    assert(b.skip(1) =~= s + seq!['"'] + rest);
    lemma_scan_text_round(s, rest);
}

/// Parsing undoes formatting for optional strings.
pub proof fn lemma_parse_opt_text_round(o: Option<Seq<char>>, rest: Seq<char>)
    requires
        match o {
            None => true,
            Some(s) => text_ok(s),
        },
    ensures
        parse_opt_text(fmt_opt_text(o) + rest) == Some((o, rest)),
{
    reveal_strlit("null");
    match o {
        None => {
            let b = "null"@ + rest;
            assert(b[0] == 'n');
            lemma_expect_concat("null"@, rest);
        },
        Some(s) => {
            let b = fmt_text(s) + rest;
            assert(b[0] == '"');
            lemma_parse_text_round(s, rest);
        },
    }
}

/// Parsing undoes formatting for booleans.
pub proof fn lemma_parse_bool_round(v: bool, rest: Seq<char>)
    ensures
        parse_bool(fmt_bool(v) + rest) == Some((v, rest)),
{
    reveal_strlit("true");
    reveal_strlit("false");
    if v {
        let b = "true"@ + rest;
        assert(b[0] == 't');
        lemma_expect_concat("true"@, rest);
    } else {
        let b = "false"@ + rest;
        assert(b[0] == 'f');
        lemma_expect_concat("false"@, rest);
    }
}

/// What any successful parse of a primitive guarantees: JSON-safe content
/// and strictly consumed input.
pub proof fn lemma_parse_text_shape(b: Seq<char>)
    ensures
        match parse_text(b) {
            Some((w, r)) => text_ok(w) && r.len() < b.len(),
            None => true,
        },
{
    if b.len() > 0 && b[0] == '"' {
        lemma_scan_text_shape(b.skip(1));
    }
}

/// Shape guarantee for optional strings.
pub proof fn lemma_parse_opt_text_shape(b: Seq<char>)
    ensures
        match parse_opt_text(b) {
            Some((o, r)) => r.len() < b.len() && match o {
                None => true,
                Some(w) => text_ok(w),
            },
            None => true,
        },
{
    reveal_strlit("null");
    lemma_parse_text_shape(b);
}

/// Shape guarantee for booleans.
pub proof fn lemma_parse_bool_shape(b: Seq<char>)
    ensures
        match parse_bool(b) {
            Some((v, r)) => r.len() < b.len(),
            None => true,
        },
{
    reveal_strlit("true");
    reveal_strlit("false");
}

/// Matches `lit` at position `i` of `s`; on success the result is the
/// position just past the literal.
pub fn match_lit(s: &str, i: usize, lit: &str) -> (r: Option<usize>)
    requires
        i <= s@.len(),
    ensures
        match r {
            Some(j) => {
                &&& i <= j <= s@.len()
                &&& j == i + lit@.len()
                &&& expect(s@.skip(i as int), lit@) == Some(s@.skip(j as int))
            },
            None => expect(s@.skip(i as int), lit@) is None,
        },
{
    let n = lit.unicode_len();
    let s_len = s.unicode_len();
    if s_len - i < n {
        return None;
    }
    let mut k: usize = 0;
    while k < n
        invariant
            k <= n,
            n == lit@.len(),
            s_len == s@.len(),
            i + n <= s_len,
            forall|m: int| 0 <= m < k ==> s@[i + m] == lit@[m],
        decreases n - k,
    {
        let cs = s.get_char(i + k);
        let cl = lit.get_char(k);
        if cs != cl {
            proof {
                assert(s@.skip(i as int)[k as int] == s@[i + k]);
                assert(s@.skip(i as int).take(n as int)[k as int] == s@[i + k]);
            }
            return None;
        }
        k = k + 1;
    }
    proof {
        assert(s@.skip(i as int).take(n as int) =~= lit@);
        assert(s@.skip(i as int).skip(n as int) =~= s@.skip(i + n as int));
    }
    Some(i + n)
}

/// Finds the closing quote of a JSON-safe run starting at `i`.
fn scan_end(s: &str, i: usize) -> (r: Option<usize>)
    requires
        i <= s@.len(),
    ensures
        match r {
            Some(j) => {
                &&& i <= j < s@.len()
                &&& scan_text(s@.skip(i as int)) == Some(
                    (s@.subrange(i as int, j as int), s@.skip(j + 1 as int)),
                )
            },
            None => scan_text(s@.skip(i as int)) is None,
        },
    decreases s@.len() - i,
{
    let s_len = s.unicode_len();
    if i == s_len {
        return None;
    }
    let c = s.get_char(i);
    proof {
        assert(s@.skip(i as int)[0] == s@[i as int]);
    }
    if c == '"' {
        proof {
            assert(s@.subrange(i as int, i as int) =~= Seq::<char>::empty());
            assert(s@.skip(i as int).skip(1) =~= s@.skip(i + 1 as int));
        }
        return Some(i);
    }
    if c == '\\' || (c as u32) < 32 {
        return None;
    }
    let r = scan_end(s, i + 1);
    proof {
        assert(s@.skip(i as int).skip(1) =~= s@.skip(i + 1 as int));
    }
    match r {
        None => None,
        Some(j) => {
            proof {
                assert(seq![s@[i as int]] + s@.subrange(i + 1 as int, j as int) =~= s@.subrange(
                    i as int,
                    j as int,
                ));
            }
            Some(j)
        },
    }
}

/// Consumes a quoted string at position `i`, yielding its contents.
pub fn take_quoted(s: &str, i: usize) -> (r: Option<(String, usize)>)
    requires
        i <= s@.len(),
    ensures
        match r {
            Some((v, j)) => {
                &&& i < j <= s@.len()
                &&& parse_text(s@.skip(i as int)) == Some((v@, s@.skip(j as int)))
            },
            None => parse_text(s@.skip(i as int)) is None,
        },
{
    let s_len = s.unicode_len();
    if i == s_len {
        return None;
    }
    let c = s.get_char(i);
    proof {
        assert(s@.skip(i as int)[0] == s@[i as int]);
    }
    if c != '"' {
        return None;
    }
    proof {
        assert(s@.skip(i as int).skip(1) =~= s@.skip(i + 1 as int));
    }
    match scan_end(s, i + 1) {
        None => None,
        Some(j) => {
            let v = s.substring_char(i + 1, j);
            let v = String::from_str(v);
            Some((v, j + 1))
        },
    }
}

/// Consumes `null` or a quoted string at position `i`.
pub fn take_opt_text(s: &str, i: usize) -> (r: Option<(Option<String>, usize)>)
    requires
        i <= s@.len(),
    ensures
        match r {
            Some((o, j)) => {
                &&& i < j <= s@.len()
                &&& parse_opt_text(s@.skip(i as int)) == Some(
                    (
                        match o {
                            None => None,
                            Some(v) => Some(v@),
                        },
                        s@.skip(j as int),
                    ),
                )
            },
            None => parse_opt_text(s@.skip(i as int)) is None,
        },
{
    let s_len = s.unicode_len();
    if i == s_len {
        return None;
    }
    let c = s.get_char(i);
    proof {
        assert(s@.skip(i as int)[0] == s@[i as int]);
    }
    if c == 'n' {
        match match_lit(s, i, "null") {
            None => None,
            Some(j) => {
                proof {
                    reveal_strlit("null");
                }
                Some((None, j))
            },
        }
    } else {
        match take_quoted(s, i) {
            None => None,
            Some((v, j)) => Some((Some(v), j)),
        }
    }
}

/// Consumes `true` or `false` at position `i`.
pub fn take_bool(s: &str, i: usize) -> (r: Option<(bool, usize)>)
    requires
        i <= s@.len(),
    ensures
        match r {
            Some((v, j)) => {
                &&& i < j <= s@.len()
                &&& parse_bool(s@.skip(i as int)) == Some((v, s@.skip(j as int)))
            },
            None => parse_bool(s@.skip(i as int)) is None,
        },
{
    let s_len = s.unicode_len();
    if i < s_len && s.get_char(i) == 't' {
        proof {
            assert(s@.skip(i as int)[0] == s@[i as int]);
        }
        match match_lit(s, i, "true") {
            None => None,
            Some(j) => {
                proof {
                    reveal_strlit("true");
                }
                Some((true, j))
            },
        }
    } else {
        proof {
            if i < s_len {
                assert(s@.skip(i as int)[0] == s@[i as int]);
            }
        }
        match match_lit(s, i, "false") {
            None => None,
            Some(j) => {
                proof {
                    reveal_strlit("false");
                }
                Some((false, j))
            },
        }
    }
}

/// Checks that every character may sit inside a JSON string verbatim.
pub fn is_text_ok(s: &str) -> (r: bool)
    ensures
        r == text_ok(s@),
{
    let n = s.unicode_len();
    let mut i: usize = 0;
    while i < n
        invariant
            i <= n,
            n == s@.len(),
            forall|k: int|
                0 <= k < i ==> s@[k] != '"' && s@[k] != '\\' && (#[trigger] s@[k] as u32) >= 32,
        decreases n - i,
    {
        let c = s.get_char(i);
        if c == '"' || c == '\\' || (c as u32) < 32 {
            return false;
        }
        i = i + 1;
    }
    true
}

/// Splits a sequence on a separator character; a sequence with `k`
/// separators yields `k + 1` parts, in order, none containing the separator.
pub open spec fn split_on(s: Seq<char>, sep: char) -> Seq<Seq<char>>
    decreases s.len(),
{
    if s.len() == 0 {
        seq![Seq::<char>::empty()]
    } else {
        let r = split_on(s.drop_last(), sep);
        if s.last() == sep {
            r.push(Seq::empty())
        } else if r.len() == 0 {
            r
        } else {
            r.update(r.len() - 1, r.last().push(s.last()))
        }
    }
}

/// A split always yields at least one part.
pub proof fn lemma_split_on_len(s: Seq<char>, sep: char)
    ensures
        split_on(s, sep).len() >= 1,
    decreases s.len(),
{
    if s.len() > 0 {
        lemma_split_on_len(s.drop_last(), sep);
    }
}

/// Splits a string on a separator character.
pub fn split_string(s: &str, sep: char) -> (parts: Vec<String>)
    ensures
        parts@.map_values(|p: String| p@) == split_on(s@, sep),
{
    let len = s.unicode_len();
    let mut parts: Vec<String> = Vec::new();
    let mut start: usize = 0;
    let mut i: usize = 0;
    proof {
        assert(s@.take(0) =~= Seq::<char>::empty());
        assert(parts@.map_values(|p: String| p@).push(s@.subrange(0, 0)) =~= split_on(
            s@.take(0),
            sep,
        ));
    }
    while i < len
        invariant
            start <= i <= len,
            len == s@.len(),
            parts@.map_values(|p: String| p@).push(s@.subrange(start as int, i as int))
                =~= split_on(s@.take(i as int), sep),
        decreases len - i,
    {
        let c = s.get_char(i);
        proof {
            lemma_split_on_len(s@.take(i as int), sep);
            assert(s@.take(i + 1 as int).drop_last() =~= s@.take(i as int));
            assert(s@.take(i + 1 as int).last() == s@[i as int]);
        }
        if c == sep {
            let ghost old_map = parts@.map_values(|p: String| p@);
            let part = s.substring_char(start, i);
            let part = String::from_str(part);
            parts.push(part);
            proof {
                let f = |p: String| p@;
                assert(parts@.map_values(f) =~= old_map.push(s@.subrange(start as int, i as int)));
                assert(split_on(s@.take(i + 1 as int), sep) == split_on(s@.take(i as int),
                sep).push(Seq::empty()));
                assert(s@.subrange(i + 1 as int, i + 1 as int) =~= Seq::<char>::empty());
                assert(parts@.map_values(f).push(s@.subrange(i + 1 as int, i + 1 as int))
                    =~= split_on(s@.take(i + 1 as int), sep));
            }
            start = i + 1;
        } else {
            proof {
                let old_map = parts@.map_values(|p: String| p@);
                let old_split = split_on(s@.take(i as int), sep);
                assert(old_map.push(s@.subrange(start as int, i as int)) == old_split);
                assert(old_split.last() == s@.subrange(start as int, i as int));
                assert(split_on(s@.take(i + 1 as int), sep) == old_split.update(
                    old_split.len() - 1,
                    old_split.last().push(s@[i as int]),
                ));
                assert(s@.subrange(start as int, i as int).push(s@[i as int]) =~= s@.subrange(
                    start as int,
                    i + 1 as int,
                ));
                assert(old_split.update(old_split.len() - 1, old_split.last().push(s@[i as int]))
                    =~= old_map.push(s@.subrange(start as int, i + 1 as int)));
            }
        }
        i = i + 1;
    }
    let part = s.substring_char(start, len);
    let part = String::from_str(part);
    parts.push(part);
    proof {
        assert(s@.take(len as int) =~= s@);
    }
    parts
}

} // verus!
