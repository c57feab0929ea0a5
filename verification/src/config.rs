use vstd::prelude::*;

use crate::series::{config_view, ConfigError, SeriesView, TrackedSeries};

verus! {

// ---------------------------------------------------------------------------
// The config grammar, over byte sequences.
//
// A config is a JSON array of objects. Each object holds the four members
// "name", "short_name" and "url" (strings) and "current_chapter" (a
// non-negative integer that fits in u32), once each, in any order, with
// whitespace allowed between tokens. Strings accept the escapes \" and \\
// and any other byte except controls, the quote and the backslash.
// ---------------------------------------------------------------------------
/// JSON whitespace: space, tab, line feed, carriage return.
pub open spec fn is_ws(b: u8) -> bool {
    b == 32 || b == 9 || b == 10 || b == 13
}

/// An ASCII decimal digit.
pub open spec fn is_digit(b: u8) -> bool {
    48 <= b && b <= 57
}

/// The input with its leading whitespace removed.
pub open spec fn skip_ws(s: Seq<u8>) -> Seq<u8>
    decreases s.len(),
{
    if s.len() > 0 && is_ws(s[0]) {
        skip_ws(s.drop_first())
    } else {
        s
    }
}

proof fn lemma_skip_ws_len(s: Seq<u8>)
    ensures
        skip_ws(s).len() <= s.len(),
    decreases s.len(),
{
    if s.len() > 0 && is_ws(s[0]) {
        lemma_skip_ws_len(s.drop_first());
    }
}

/// Parses a string body after its opening quote: the decoded bytes and the
/// remaining input after the closing quote.
pub open spec fn parse_string_rest(s: Seq<u8>) -> Option<(Seq<u8>, Seq<u8>)>
    decreases s.len(),
{
    if s.len() == 0 {
        None
    } else if s[0] == 34 {
        Some((Seq::empty(), s.drop_first()))
    } else if s[0] == 92 {
        if s.len() >= 2 && (s[1] == 34 || s[1] == 92) {
            match parse_string_rest(s.skip(2)) {
                Some((t, r)) => Some((seq![s[1]] + t, r)),
                None => None,
            }
        } else {
            None
        }
    } else if s[0] < 32 {
        None
    } else {
        match parse_string_rest(s.drop_first()) {
            Some((t, r)) => Some((seq![s[0]] + t, r)),
            None => None,
        }
    }
}

proof fn lemma_parse_string_rest_consumes(s: Seq<u8>)
    ensures
        parse_string_rest(s) matches Some(p) ==> p.1.len() < s.len(),
    decreases s.len(),
{
    if s.len() == 0 {
    } else if s[0] == 34 {
    } else if s[0] == 92 {
        if s.len() >= 2 && (s[1] == 34 || s[1] == 92) {
            lemma_parse_string_rest_consumes(s.skip(2));
        }
    } else if s[0] < 32 {
    } else {
        lemma_parse_string_rest_consumes(s.drop_first());
    }
}

/// Parses a quoted string: the decoded bytes and the remaining input.
pub open spec fn parse_string(s: Seq<u8>) -> Option<(Seq<u8>, Seq<u8>)> {
    if s.len() > 0 && s[0] == 34 {
        parse_string_rest(s.drop_first())
    } else {
        None
    }
}

proof fn lemma_parse_string_consumes(s: Seq<u8>)
    ensures
        parse_string(s) matches Some(p) ==> p.1.len() < s.len(),
{
    if s.len() > 0 && s[0] == 34 {
        lemma_parse_string_rest_consumes(s.drop_first());
    }
}

/// The length of the maximal digit prefix of the input.
pub open spec fn digit_count(s: Seq<u8>) -> int
    decreases s.len(),
{
    if s.len() > 0 && is_digit(s[0]) {
        1 + digit_count(s.drop_first())
    } else {
        0
    }
}

proof fn lemma_digit_count_bounds(s: Seq<u8>)
    ensures
        0 <= digit_count(s) <= s.len(),
    decreases s.len(),
{
    if s.len() > 0 && is_digit(s[0]) {
        lemma_digit_count_bounds(s.drop_first());
    }
}

/// The value of a sequence of decimal digits, most significant first.
pub open spec fn digits_value(s: Seq<u8>) -> int
    decreases s.len(),
{
    if s.len() == 0 {
        0
    } else {
        digits_value(s.drop_last()) * 10 + (s.last() as int - 48)
    }
}

/// Parses a non-negative decimal integer that fits in u32: its value and
/// the remaining input after the digits.
pub open spec fn parse_number(s: Seq<u8>) -> Option<(u32, Seq<u8>)> {
    let n = digit_count(s);
    if n == 0 {
        None
    } else if digits_value(s.take(n)) <= u32::MAX {
        Some((digits_value(s.take(n)) as u32, s.skip(n)))
    } else {
        None
    }
}

proof fn lemma_parse_number_consumes(s: Seq<u8>)
    ensures
        parse_number(s) matches Some(p) ==> p.1.len() < s.len(),
{
    lemma_digit_count_bounds(s);
}

/// The members of an object collected so far, each at most once.
pub ghost struct FieldSet {
    pub name: Option<Seq<u8>>,
    pub short_name: Option<Seq<u8>>,
    pub url: Option<Seq<u8>>,
    pub current_chapter: Option<u32>,
}

/// No member seen yet.
pub open spec fn empty_fields() -> FieldSet {
    FieldSet { name: None, short_name: None, url: None, current_chapter: None }
}

/// All four members seen.
pub open spec fn fields_complete(f: FieldSet) -> bool {
    f.name is Some && f.short_name is Some && f.url is Some && f.current_chapter is Some
}

/// The series a complete member set describes.
pub open spec fn series_of_fields(f: FieldSet) -> SeriesView
    recommends
        fields_complete(f),
{
    SeriesView {
        name: f.name->Some_0,
        short_name: f.short_name->Some_0,
        url: f.url->Some_0,
        current_chapter: f.current_chapter->Some_0,
    }
}

/// The bytes of the member key "name".
pub open spec fn key_name() -> Seq<u8> {
    seq![110u8, 97u8, 109u8, 101u8]
}

/// The bytes of the member key "short_name".
pub open spec fn key_short_name() -> Seq<u8> {
    seq![115u8, 104u8, 111u8, 114u8, 116u8, 95u8, 110u8, 97u8, 109u8, 101u8]
}

/// The bytes of the member key "url".
pub open spec fn key_url() -> Seq<u8> {
    seq![117u8, 114u8, 108u8]
}

/// The bytes of the member key "current_chapter".
pub open spec fn key_current_chapter() -> Seq<u8> {
    seq![99u8, 117u8, 114u8, 114u8, 101u8, 110u8, 116u8, 95u8, 99u8, 104u8, 97u8, 112u8, 116u8,
        101u8, 114u8]
}

/// A key between quotes.
pub open spec fn quoted(k: Seq<u8>) -> Seq<u8> {
    seq![34u8] + k + seq![34u8]
}

/// Whether the input begins with the given bytes.
pub open spec fn starts_with(s: Seq<u8>, p: Seq<u8>) -> bool {
    p.len() <= s.len() && s.take(p.len() as int) == p
}

/// Skips whitespace, a colon, and more whitespace; `None` when the first
/// non-whitespace byte is not a colon.
pub open spec fn after_colon(s: Seq<u8>) -> Option<Seq<u8>> {
    let r = skip_ws(s);
    if r.len() > 0 && r[0] == 58 {
        Some(skip_ws(r.drop_first()))
    } else {
        None
    }
}

proof fn lemma_after_colon_len(s: Seq<u8>)
    ensures
        after_colon(s) matches Some(r) ==> r.len() < s.len(),
{
    lemma_skip_ws_len(s);
    let r = skip_ws(s);
    if r.len() > 0 && r[0] == 58 {
        lemma_skip_ws_len(r.drop_first());
    }
}

/// Parses one `"key": value` member starting at the key's opening quote and
/// records it, rejecting unknown and repeated keys and wrongly typed values.
pub open spec fn parse_member(s: Seq<u8>, acc: FieldSet) -> Option<(FieldSet, Seq<u8>)> {
    if starts_with(s, quoted(key_name())) {
        if acc.name is Some {
            None
        } else {
            match after_colon(s.skip(quoted(key_name()).len() as int)) {
                None => None,
                Some(v) => match parse_string(v) {
                    None => None,
                    Some((t, r)) => Some(
                        (
                            FieldSet {
                                name: Some(t),
                                short_name: acc.short_name,
                                url: acc.url,
                                current_chapter: acc.current_chapter,
                            },
                            r,
                        ),
                    ),
                },
            }
        }
    } else if starts_with(s, quoted(key_short_name())) {
        if acc.short_name is Some {
            None
        } else {
            match after_colon(s.skip(quoted(key_short_name()).len() as int)) {
                None => None,
                Some(v) => match parse_string(v) {
                    None => None,
                    Some((t, r)) => Some(
                        (
                            FieldSet {
                                name: acc.name,
                                short_name: Some(t),
                                url: acc.url,
                                current_chapter: acc.current_chapter,
                            },
                            r,
                        ),
                    ),
                },
            }
        }
    } else if starts_with(s, quoted(key_url())) {
        if acc.url is Some {
            None
        } else {
            match after_colon(s.skip(quoted(key_url()).len() as int)) {
                None => None,
                Some(v) => match parse_string(v) {
                    None => None,
                    Some((t, r)) => Some(
                        (
                            FieldSet {
                                name: acc.name,
                                short_name: acc.short_name,
                                url: Some(t),
                                current_chapter: acc.current_chapter,
                            },
                            r,
                        ),
                    ),
                },
            }
        }
    } else if starts_with(s, quoted(key_current_chapter())) {
        if acc.current_chapter is Some {
            None
        } else {
            match after_colon(s.skip(quoted(key_current_chapter()).len() as int)) {
                None => None,
                Some(v) => match parse_number(v) {
                    None => None,
                    Some((c, r)) => Some(
                        (
                            FieldSet {
                                name: acc.name,
                                short_name: acc.short_name,
                                url: acc.url,
                                current_chapter: Some(c),
                            },
                            r,
                        ),
                    ),
                },
            }
        }
    } else {
        None
    }
}

proof fn lemma_parse_member_consumes(s: Seq<u8>, acc: FieldSet)
    ensures
        parse_member(s, acc) matches Some(p) ==> p.1.len() < s.len(),
{
    if starts_with(s, quoted(key_name())) {
        let v0 = s.skip(quoted(key_name()).len() as int);
        lemma_after_colon_len(v0);
        if let Some(v) = after_colon(v0) {
            lemma_parse_string_consumes(v);
        }
    } else if starts_with(s, quoted(key_short_name())) {
        let v0 = s.skip(quoted(key_short_name()).len() as int);
        lemma_after_colon_len(v0);
        if let Some(v) = after_colon(v0) {
            lemma_parse_string_consumes(v);
        }
    } else if starts_with(s, quoted(key_url())) {
        let v0 = s.skip(quoted(key_url()).len() as int);
        lemma_after_colon_len(v0);
        if let Some(v) = after_colon(v0) {
            lemma_parse_string_consumes(v);
        }
    } else if starts_with(s, quoted(key_current_chapter())) {
        let v0 = s.skip(quoted(key_current_chapter()).len() as int);
        lemma_after_colon_len(v0);
        if let Some(v) = after_colon(v0) {
            lemma_parse_number_consumes(v);
        }
    }
}

/// Parses the members of an object from the first key on, through the
/// closing brace; the input starts at a key's opening quote.
pub open spec fn parse_members(s: Seq<u8>, acc: FieldSet) -> Option<(FieldSet, Seq<u8>)>
    decreases s.len(),
    via parse_members_dec
{
    match parse_member(s, acc) {
        None => None,
        Some((acc2, r)) => {
            let r2 = skip_ws(r);
            if r2.len() == 0 {
                None
            } else if r2[0] == 44 {
                parse_members(skip_ws(r2.drop_first()), acc2)
            } else if r2[0] == 125 {
                Some((acc2, r2.drop_first()))
            } else {
                None
            }
        },
    }
}

#[via_fn]
proof fn parse_members_dec(s: Seq<u8>, acc: FieldSet) {
    lemma_parse_member_consumes(s, acc);
    if let Some((acc2, r)) = parse_member(s, acc) {
        lemma_skip_ws_len(r);
        let r2 = skip_ws(r);
        if r2.len() > 0 && r2[0] == 44 {
            lemma_skip_ws_len(r2.drop_first());
        }
    }
}

proof fn lemma_parse_members_consumes(s: Seq<u8>, acc: FieldSet)
    ensures
        parse_members(s, acc) matches Some(p) ==> p.1.len() < s.len(),
    decreases s.len(),
{
    lemma_parse_member_consumes(s, acc);
    if let Some((acc2, r)) = parse_member(s, acc) {
        lemma_skip_ws_len(r);
        let r2 = skip_ws(r);
        if r2.len() > 0 && r2[0] == 44 {
            lemma_skip_ws_len(r2.drop_first());
            lemma_parse_members_consumes(skip_ws(r2.drop_first()), acc2);
        }
    }
}

/// Parses one series object, from its opening brace through its closing
/// brace; all four members must be present, each exactly once.
pub open spec fn parse_object(s: Seq<u8>) -> Option<(SeriesView, Seq<u8>)> {
    if s.len() > 0 && s[0] == 123 {
        match parse_members(skip_ws(s.drop_first()), empty_fields()) {
            None => None,
            Some((f, r)) => if fields_complete(f) {
                Some((series_of_fields(f), r))
            } else {
                None
            },
        }
    } else {
        None
    }
}

proof fn lemma_parse_object_consumes(s: Seq<u8>)
    ensures
        parse_object(s) matches Some(p) ==> p.1.len() < s.len(),
{
    if s.len() > 0 && s[0] == 123 {
        lemma_skip_ws_len(s.drop_first());
        lemma_parse_members_consumes(skip_ws(s.drop_first()), empty_fields());
    }
}

/// Parses the entries after the first one: repeatedly a comma and an
/// object, then the closing bracket; the remaining input follows it.
pub open spec fn parse_entries(s: Seq<u8>, acc: Seq<SeriesView>) -> Option<
    (Seq<SeriesView>, Seq<u8>),
>
    decreases s.len(),
    via parse_entries_dec
{
    let r = skip_ws(s);
    if r.len() == 0 {
        None
    } else if r[0] == 93 {
        Some((acc, r.drop_first()))
    } else if r[0] == 44 {
        match parse_object(skip_ws(r.drop_first())) {
            None => None,
            Some((e, rest)) => parse_entries(rest, acc.push(e)),
        }
    } else {
        None
    }
}

#[via_fn]
proof fn parse_entries_dec(s: Seq<u8>, acc: Seq<SeriesView>) {
    lemma_skip_ws_len(s);
    let r = skip_ws(s);
    if r.len() > 0 && r[0] == 44 {
        lemma_skip_ws_len(r.drop_first());
        lemma_parse_object_consumes(skip_ws(r.drop_first()));
    }
}

/// Parses a whole config: a possibly empty array of series objects, with
/// nothing but whitespace after it. `None` on any malformed content.
pub open spec fn parse_config_bytes(s: Seq<u8>) -> Option<Seq<SeriesView>> {
    let r = skip_ws(s);
    if r.len() > 0 && r[0] == 91 {
        let r1 = skip_ws(r.drop_first());
        if r1.len() == 0 {
            None
        } else if r1[0] == 93 {
            if skip_ws(r1.drop_first()).len() == 0 {
                Some(Seq::empty())
            } else {
                None
            }
        } else {
            match parse_object(r1) {
                None => None,
                Some((e, rest)) => match parse_entries(rest, seq![e]) {
                    None => None,
                    Some((l, rest2)) => if skip_ws(rest2).len() == 0 {
                        Some(l)
                    } else {
                        None
                    },
                },
            }
        }
    } else {
        None
    }
}

// ---------------------------------------------------------------------------
// The executable scanner, proved against the grammar above.
// ---------------------------------------------------------------------------
/// Advances past whitespace: the first index at or after `i` whose byte is
/// not whitespace.
fn skip_ws_from(v: &Vec<u8>, i: usize) -> (j: usize)
    requires
        i <= v.len(),
    ensures
        i <= j <= v.len(),
        v@.skip(j as int) == skip_ws(v@.skip(i as int)),
{
    let mut j: usize = i;
    while j < v.len() && (v[j] == 32 || v[j] == 9 || v[j] == 10 || v[j] == 13)
        invariant
            i <= j <= v.len(),
            skip_ws(v@.skip(i as int)) == skip_ws(v@.skip(j as int)),
        decreases v.len() - j,
    {
        proof {
            assert(v@.skip(j as int)[0] == v@[j as int]);
            assert(v@.skip(j as int).drop_first() =~= v@.skip(j + 1));
        }
        j = j + 1;
    }
    proof {
        assert(skip_ws(v@.skip(j as int)) == v@.skip(j as int));
    }
    j
}

/// Scans a string body after its opening quote.
fn scan_string_rest(v: &Vec<u8>, i: usize) -> (r: Option<(Vec<u8>, usize)>)
    requires
        i <= v.len(),
    ensures
        match r {
            Some((t, j)) => i <= j <= v.len() && parse_string_rest(v@.skip(i as int)) == Some(
                (t@, v@.skip(j as int)),
            ),
            None => parse_string_rest(v@.skip(i as int)) is None,
        },
    decreases v.len() - i,
{
    if i == v.len() {
        proof {
            assert(v@.skip(i as int).len() == 0);
        }
        return None;
    }
    let c = v[i];
    proof {
        assert(v@.skip(i as int)[0] == c);
    }
    if c == 34 {
        let t: Vec<u8> = Vec::new();
        proof {
            assert(t@ =~= Seq::<u8>::empty());
            assert(v@.skip(i as int).drop_first() =~= v@.skip(i + 1));
        }
        Some((t, i + 1))
    } else if c == 92 {
        if i + 1 < v.len() && (v[i + 1] == 34 || v[i + 1] == 92) {
            proof {
                assert(v@.skip(i as int)[1] == v@[i + 1]);
                assert(v@.skip(i as int).skip(2) =~= v@.skip(i + 2));
            }
            match scan_string_rest(v, i + 2) {
                Some((mut t, j)) => {
                    t.insert(0, v[i + 1]);
                    proof {
                        assert(t@ =~= seq![v@[i + 1]] + t@.skip(1));
                    }
                    Some((t, j))
                },
                None => None,
            }
        } else {
            proof {
                if i + 1 < v.len() {
                    assert(v@.skip(i as int)[1] == v@[i + 1]);
                } else {
                    assert(v@.skip(i as int).len() < 2);
                }
            }
            None
        }
    } else if c < 32 {
        None
    } else {
        proof {
            assert(v@.skip(i as int).drop_first() =~= v@.skip(i + 1));
        }
        match scan_string_rest(v, i + 1) {
            Some((mut t, j)) => {
                t.insert(0, c);
                proof {
                    assert(t@ =~= seq![c] + t@.skip(1));
                }
                Some((t, j))
            },
            None => None,
        }
    }
}

/// Scans a quoted string starting at its opening quote.
fn scan_string(v: &Vec<u8>, i: usize) -> (r: Option<(Vec<u8>, usize)>)
    requires
        i <= v.len(),
    ensures
        match r {
            Some((t, j)) => i <= j <= v.len() && parse_string(v@.skip(i as int)) == Some(
                (t@, v@.skip(j as int)),
            ),
            None => parse_string(v@.skip(i as int)) is None,
        },
{
    if i < v.len() && v[i] == 34 {
        proof {
            assert(v@.skip(i as int)[0] == 34);
            assert(v@.skip(i as int).drop_first() =~= v@.skip(i + 1));
        }
        scan_string_rest(v, i + 1)
    } else {
        proof {
            if i < v.len() {
                assert(v@.skip(i as int)[0] == v@[i as int]);
            }
        }
        None
    }
}

/// Scans a decimal integer that must fit in u32.
fn scan_number(v: &Vec<u8>, i: usize) -> (r: Option<(u32, usize)>)
    requires
        i <= v.len(),
    ensures
        match r {
            Some((val, j)) => i <= j <= v.len() && parse_number(v@.skip(i as int)) == Some(
                (val, v@.skip(j as int)),
            ),
            None => parse_number(v@.skip(i as int)) is None,
        },
{
    let mut j: usize = i;
    let mut acc: u64 = 0;
    let mut too_big = false;
    while j < v.len() && 48 <= v[j] && v[j] <= 57
        invariant
            i <= j <= v.len(),
            digit_count(v@.skip(i as int)) == (j - i) + digit_count(v@.skip(j as int)),
            !too_big ==> acc as int == digits_value(v@.subrange(i as int, j as int)) && acc
                <= u32::MAX as u64,
            too_big ==> digits_value(v@.subrange(i as int, j as int)) > u32::MAX,
        decreases v.len() - j,
    {
        let d = v[j];
        proof {
            assert(v@.skip(j as int)[0] == d);
            assert(is_digit(d));
            assert(v@.skip(j as int).drop_first() =~= v@.skip(j + 1));
            assert(v@.subrange(i as int, j + 1).drop_last() =~= v@.subrange(i as int, j as int));
            assert(v@.subrange(i as int, j + 1).last() == d);
        }
        if too_big {
            proof {
                let prev = digits_value(v@.subrange(i as int, j as int));
                assert(prev * 10 >= prev) by (nonlinear_arith)
                    requires
                        prev > 0,
                ;
            }
        } else {
            let next: u64 = acc * 10 + ((d - 48) as u64);
            if next > u32::MAX as u64 {
                too_big = true;
            } else {
                acc = next;
            }
        }
        j = j + 1;
    }
    proof {
        if j < v.len() {
            assert(v@.skip(j as int)[0] == v@[j as int]);
        }
        assert(digit_count(v@.skip(j as int)) == 0);
    }
    if j == i {
        None
    } else {
        proof {
            let n = digit_count(v@.skip(i as int));
            assert(n == j - i);
            assert(v@.skip(i as int).take(n) =~= v@.subrange(i as int, j as int));
            assert(v@.skip(i as int).skip(n) =~= v@.skip(j as int));
        }
        if too_big {
            None
        } else {
            Some((acc as u32, j))
        }
    }
}

/// The members of an object collected so far while scanning.
struct FieldBuf {
    name: Option<Vec<u8>>,
    short_name: Option<Vec<u8>>,
    url: Option<Vec<u8>>,
    current_chapter: Option<u32>,
}

/// The view of a member buffer.
spec fn buf_view(f: FieldBuf) -> FieldSet {
    FieldSet {
        name: match f.name {
            Some(t) => Some(t@),
            None => None,
        },
        short_name: match f.short_name {
            Some(t) => Some(t@),
            None => None,
        },
        url: match f.url {
            Some(t) => Some(t@),
            None => None,
        },
        current_chapter: f.current_chapter,
    }
}

/// Whether the bytes at `i` begin with `tag`.
fn has_prefix(v: &Vec<u8>, i: usize, tag: &Vec<u8>) -> (r: bool)
    requires
        i <= v.len(),
    ensures
        r == starts_with(v@.skip(i as int), tag@),
{
    if tag.len() > v.len() - i {
        proof {
            assert(v@.skip(i as int).len() < tag@.len());
        }
        return false;
    }
    crate::probe::match_at(v, i, tag)
}

/// The bytes of the quoted key "name".
fn tag_name() -> (r: Vec<u8>)
    ensures
        r@ == quoted(key_name()),
{
    let mut v: Vec<u8> = Vec::new();
    v.push(34);
    v.push(110);
    v.push(97);
    v.push(109);
    v.push(101);
    v.push(34);
    proof {
        assert(v@ =~= quoted(key_name()));
    }
    v
}

/// The bytes of the quoted key "short_name".
fn tag_short_name() -> (r: Vec<u8>)
    ensures
        r@ == quoted(key_short_name()),
{
    let mut v: Vec<u8> = Vec::new();
    v.push(34);
    v.push(115);
    v.push(104);
    v.push(111);
    v.push(114);
    v.push(116);
    v.push(95);
    v.push(110);
    v.push(97);
    v.push(109);
    v.push(101);
    v.push(34);
    proof {
        assert(v@ =~= quoted(key_short_name()));
    }
    v
}

/// The bytes of the quoted key "url".
fn tag_url() -> (r: Vec<u8>)
    ensures
        r@ == quoted(key_url()),
{
    let mut v: Vec<u8> = Vec::new();
    v.push(34);
    v.push(117);
    v.push(114);
    v.push(108);
    v.push(34);
    proof {
        assert(v@ =~= quoted(key_url()));
    }
    v
}

/// The bytes of the quoted key "current_chapter".
fn tag_current_chapter() -> (r: Vec<u8>)
    ensures
        r@ == quoted(key_current_chapter()),
{
    let mut v: Vec<u8> = Vec::new();
    v.push(34);
    v.push(99);
    v.push(117);
    v.push(114);
    v.push(114);
    v.push(101);
    v.push(110);
    v.push(116);
    v.push(95);
    v.push(99);
    v.push(104);
    v.push(97);
    v.push(112);
    v.push(116);
    v.push(101);
    v.push(114);
    v.push(34);
    proof {
        assert(v@ =~= quoted(key_current_chapter()));
    }
    v
}

/// Scans whitespace, a colon, and whitespace.
fn scan_after_colon(v: &Vec<u8>, i: usize) -> (r: Option<usize>)
    requires
        i <= v.len(),
    ensures
        match r {
            Some(j) => i <= j <= v.len() && after_colon(v@.skip(i as int)) == Some(
                v@.skip(j as int),
            ),
            None => after_colon(v@.skip(i as int)) is None,
        },
{
    let j = skip_ws_from(v, i);
    if j < v.len() && v[j] == 58 {
        proof {
            assert(v@.skip(j as int)[0] == 58);
            assert(v@.skip(j as int).drop_first() =~= v@.skip(j + 1));
        }
        let k = skip_ws_from(v, j + 1);
        Some(k)
    } else {
        proof {
            if j < v.len() {
                assert(v@.skip(j as int)[0] == v@[j as int]);
            }
        }
        None
    }
}

/// Scans one `"key": value` member and records it.
fn scan_member(v: &Vec<u8>, i: usize, acc: FieldBuf) -> (r: Option<(FieldBuf, usize)>)
    requires
        i <= v.len(),
    ensures
        match r {
            Some((f, j)) => i <= j <= v.len() && parse_member(v@.skip(i as int), buf_view(acc))
                == Some((buf_view(f), v@.skip(j as int))),
            None => parse_member(v@.skip(i as int), buf_view(acc)) is None,
        },
{
    let tn = tag_name();
    let ts = tag_short_name();
    let tu = tag_url();
    let tc = tag_current_chapter();
    if has_prefix(v, i, &tn) {
        if acc.name.is_some() {
            return None;
        }
        let i2 = i + tn.len();
        proof {
            assert(v@.skip(i as int).skip(tn@.len() as int) =~= v@.skip(i2 as int));
        }
        match scan_after_colon(v, i2) {
            None => None,
            Some(j) => match scan_string(v, j) {
                None => None,
                Some((t, k)) => Some(
                    (
                        FieldBuf {
                            name: Some(t),
                            short_name: acc.short_name,
                            url: acc.url,
                            current_chapter: acc.current_chapter,
                        },
                        k,
                    ),
                ),
            },
        }
    } else if has_prefix(v, i, &ts) {
        if acc.short_name.is_some() {
            return None;
        }
        let i2 = i + ts.len();
        proof {
            assert(v@.skip(i as int).skip(ts@.len() as int) =~= v@.skip(i2 as int));
        }
        match scan_after_colon(v, i2) {
            None => None,
            Some(j) => match scan_string(v, j) {
                None => None,
                Some((t, k)) => Some(
                    (
                        FieldBuf {
                            name: acc.name,
                            short_name: Some(t),
                            url: acc.url,
                            current_chapter: acc.current_chapter,
                        },
                        k,
                    ),
                ),
            },
        }
    } else if has_prefix(v, i, &tu) {
        if acc.url.is_some() {
            return None;
        }
        let i2 = i + tu.len();
        proof {
            assert(v@.skip(i as int).skip(tu@.len() as int) =~= v@.skip(i2 as int));
        }
        match scan_after_colon(v, i2) {
            None => None,
            Some(j) => match scan_string(v, j) {
                None => None,
                Some((t, k)) => Some(
                    (
                        FieldBuf {
                            name: acc.name,
                            short_name: acc.short_name,
                            url: Some(t),
                            current_chapter: acc.current_chapter,
                        },
                        k,
                    ),
                ),
            },
        }
    } else if has_prefix(v, i, &tc) {
        if acc.current_chapter.is_some() {
            return None;
        }
        let i2 = i + tc.len();
        proof {
            assert(v@.skip(i as int).skip(tc@.len() as int) =~= v@.skip(i2 as int));
        }
        match scan_after_colon(v, i2) {
            None => None,
            Some(j) => match scan_number(v, j) {
                None => None,
                Some((c, k)) => Some(
                    (
                        FieldBuf {
                            name: acc.name,
                            short_name: acc.short_name,
                            url: acc.url,
                            current_chapter: Some(c),
                        },
                        k,
                    ),
                ),
            },
        }
    } else {
        None
    }
}

/// Scans the members of an object through the closing brace.
fn scan_members(v: &Vec<u8>, i: usize, acc: FieldBuf) -> (r: Option<(FieldBuf, usize)>)
    requires
        i <= v.len(),
    ensures
        match r {
            Some((f, j)) => i <= j <= v.len() && parse_members(v@.skip(i as int), buf_view(acc))
                == Some((buf_view(f), v@.skip(j as int))),
            None => parse_members(v@.skip(i as int), buf_view(acc)) is None,
        },
    decreases v.len() - i,
{
    let ghost acc0 = buf_view(acc);
    match scan_member(v, i, acc) {
        None => None,
        Some((acc2, r1)) => {
            proof {
                lemma_parse_member_consumes(v@.skip(i as int), acc0);
            }
            let r2 = skip_ws_from(v, r1);
            if r2 == v.len() {
                proof {
                    assert(skip_ws(v@.skip(r1 as int)).len() == 0);
                }
                None
            } else if v[r2] == 44 {
                proof {
                    assert(v@.skip(r2 as int)[0] == 44);
                    assert(v@.skip(r2 as int).drop_first() =~= v@.skip(r2 + 1));
                }
                let r3 = skip_ws_from(v, r2 + 1);
                scan_members(v, r3, acc2)
            } else if v[r2] == 125 {
                proof {
                    assert(v@.skip(r2 as int)[0] == 125);
                    assert(v@.skip(r2 as int).drop_first() =~= v@.skip(r2 + 1));
                }
                Some((acc2, r2 + 1))
            } else {
                proof {
                    assert(v@.skip(r2 as int)[0] == v@[r2 as int]);
                }
                None
            }
        },
    }
}

/// Scans one series object from its opening brace.
fn scan_object(v: &Vec<u8>, i: usize) -> (r: Option<(TrackedSeries, usize)>)
    requires
        i <= v.len(),
    ensures
        match r {
            Some((s, j)) => i <= j <= v.len() && parse_object(v@.skip(i as int)) == Some(
                (s@, v@.skip(j as int)),
            ),
            None => parse_object(v@.skip(i as int)) is None,
        },
{
    if i < v.len() && v[i] == 123 {
        proof {
            assert(v@.skip(i as int)[0] == 123);
            assert(v@.skip(i as int).drop_first() =~= v@.skip(i + 1));
        }
        let j0 = skip_ws_from(v, i + 1);
        let acc = FieldBuf { name: None, short_name: None, url: None, current_chapter: None };
        proof {
            assert(buf_view(acc) == empty_fields());
        }
        match scan_members(v, j0, acc) {
            None => None,
            Some((f, j)) => match f.name {
                None => None,
                Some(name) => match f.short_name {
                    None => None,
                    Some(short_name) => match f.url {
                        None => None,
                        Some(url) => match f.current_chapter {
                            None => None,
                            Some(current_chapter) => Some(
                                (TrackedSeries { name, short_name, url, current_chapter }, j),
                            ),
                        },
                    },
                },
            },
        }
    } else {
        proof {
            if i < v.len() {
                assert(v@.skip(i as int)[0] == v@[i as int]);
            }
        }
        None
    }
}

/// Scans the entries after the first one, through the closing bracket.
fn scan_entries(v: &Vec<u8>, i: usize, acc: Vec<TrackedSeries>) -> (r: Option<
    (Vec<TrackedSeries>, usize),
>)
    requires
        i <= v.len(),
    ensures
        match r {
            Some((l, j)) => i <= j <= v.len() && parse_entries(
                v@.skip(i as int),
                config_view(acc@),
            ) == Some((config_view(l@), v@.skip(j as int))),
            None => parse_entries(v@.skip(i as int), config_view(acc@)) is None,
        },
    decreases v.len() - i,
{
    let ghost acc0 = config_view(acc@);
    let r = skip_ws_from(v, i);
    if r == v.len() {
        proof {
            assert(skip_ws(v@.skip(i as int)).len() == 0);
        }
        None
    } else if v[r] == 93 {
        proof {
            assert(v@.skip(r as int)[0] == 93);
            assert(v@.skip(r as int).drop_first() =~= v@.skip(r + 1));
        }
        Some((acc, r + 1))
    } else if v[r] == 44 {
        proof {
            assert(v@.skip(r as int)[0] == 44);
            assert(v@.skip(r as int).drop_first() =~= v@.skip(r + 1));
        }
        let j0 = skip_ws_from(v, r + 1);
        match scan_object(v, j0) {
            None => None,
            Some((e, rest)) => {
                proof {
                    lemma_parse_object_consumes(v@.skip(j0 as int));
                }
                let ghost ev = e@;
                let mut acc2 = acc;
                acc2.push(e);
                proof {
                    assert(config_view(acc2@) =~= acc0.push(ev));
                }
                scan_entries(v, rest, acc2)
            },
        }
    } else {
        proof {
            assert(v@.skip(r as int)[0] == v@[r as int]);
        }
        None
    }
}

/// Parses a whole config from its bytes: the tracked series in file order,
/// or a parse error on any malformed content. Returns `Ok` exactly when the
/// bytes form a well-formed config.
pub fn parse_config(bytes: &Vec<u8>) -> (r: Result<Vec<TrackedSeries>, ConfigError>)
    ensures
        match r {
            Ok(cfg) => parse_config_bytes(bytes@) == Some(config_view(cfg@)),
            Err(e) => parse_config_bytes(bytes@) is None && e == ConfigError::Parse,
        },
{
    proof {
        assert(bytes@.skip(0) =~= bytes@);
    }
    let r0 = skip_ws_from(bytes, 0);
    if r0 == bytes.len() {
        proof {
            assert(skip_ws(bytes@).len() == 0);
        }
        return Err(ConfigError::Parse);
    }
    if bytes[r0] != 91 {
        proof {
            assert(bytes@.skip(r0 as int)[0] == bytes@[r0 as int]);
        }
        return Err(ConfigError::Parse);
    }
    proof {
        assert(bytes@.skip(r0 as int)[0] == 91);
        assert(bytes@.skip(r0 as int).drop_first() =~= bytes@.skip(r0 + 1));
    }
    let r1 = skip_ws_from(bytes, r0 + 1);
    if r1 == bytes.len() {
        proof {
            assert(skip_ws(bytes@.skip(r0 + 1)).len() == 0);
        }
        return Err(ConfigError::Parse);
    }
    if bytes[r1] == 93 {
        proof {
            assert(bytes@.skip(r1 as int)[0] == 93);
            assert(bytes@.skip(r1 as int).drop_first() =~= bytes@.skip(r1 + 1));
        }
        let r2 = skip_ws_from(bytes, r1 + 1);
        if r2 == bytes.len() {
            let cfg: Vec<TrackedSeries> = Vec::new();
            proof {
                assert(skip_ws(bytes@.skip(r1 + 1)).len() == 0);
                assert(config_view(cfg@) =~= Seq::<SeriesView>::empty());
            }
            return Ok(cfg);
        } else {
            return Err(ConfigError::Parse);
        }
    }
    proof {
        assert(bytes@.skip(r1 as int)[0] == bytes@[r1 as int]);
    }
    match scan_object(bytes, r1) {
        None => Err(ConfigError::Parse),
        Some((e, rest)) => {
            let ghost ev = e@;
            let mut first: Vec<TrackedSeries> = Vec::new();
            first.push(e);
            proof {
                assert(config_view(first@) =~= seq![ev]);
            }
            match scan_entries(bytes, rest, first) {
                None => Err(ConfigError::Parse),
                Some((l, r2)) => {
                    let r3 = skip_ws_from(bytes, r2);
                    if r3 == bytes.len() {
                        proof {
                            assert(skip_ws(bytes@.skip(r2 as int)).len() == 0);
                        }
                        Ok(l)
                    } else {
                        Err(ConfigError::Parse)
                    }
                },
            }
        },
    }
}

// ---------------------------------------------------------------------------
// The renderer: a canonical byte form for a config, written without
// whitespace, members in a fixed order, strings escaped.
// ---------------------------------------------------------------------------
/// A string body with quotes and backslashes escaped.
pub open spec fn escape(s: Seq<u8>) -> Seq<u8>
    decreases s.len(),
{
    if s.len() == 0 {
        Seq::empty()
    } else {
        let head = if s[0] == 34 || s[0] == 92 {
            seq![92u8, s[0]]
        } else {
            seq![s[0]]
        };
        head + escape(s.drop_first())
    }
}

/// A rendered string: the escaped body between quotes.
pub open spec fn render_string(s: Seq<u8>) -> Seq<u8> {
    seq![34u8] + escape(s) + seq![34u8]
}

/// Text that can be rendered and read back: no control bytes.
pub open spec fn text_ok(s: Seq<u8>) -> bool {
    forall|k: int| 0 <= k < s.len() ==> s[k] >= 32
}

/// A series whose text fields hold no control bytes.
pub open spec fn series_renderable(e: SeriesView) -> bool {
    text_ok(e.name) && text_ok(e.short_name) && text_ok(e.url)
}

/// A config whose series are all renderable.
pub open spec fn config_renderable(l: Seq<SeriesView>) -> bool {
    forall|k: int| 0 <= k < l.len() ==> series_renderable(l[k])
}

/// One rendered series object, members in canonical order.
pub open spec fn render_series(e: SeriesView) -> Seq<u8> {
    seq![123u8] + quoted(key_name()) + seq![58u8] + render_string(e.name) + seq![44u8] + quoted(
        key_short_name(),
    ) + seq![58u8] + render_string(e.short_name) + seq![44u8] + quoted(key_url()) + seq![58u8]
        + render_string(e.url) + seq![44u8] + quoted(key_current_chapter()) + seq![58u8]
        + crate::probe::spec_decimal(e.current_chapter as nat) + seq![125u8]
}

/// The rendering of the entries after the first one, through the bracket.
pub open spec fn render_tail(l: Seq<SeriesView>) -> Seq<u8>
    decreases l.len(),
{
    if l.len() == 0 {
        seq![93u8]
    } else {
        seq![44u8] + render_series(l[0]) + render_tail(l.drop_first())
    }
}

/// The canonical rendering of a whole config.
pub open spec fn render_config(l: Seq<SeriesView>) -> Seq<u8> {
    if l.len() == 0 {
        seq![91u8, 93u8]
    } else {
        seq![91u8] + render_series(l[0]) + render_tail(l.drop_first())
    }
}

/// Appends the escaped body of `s` to `out`.
fn push_escaped(out: &mut Vec<u8>, s: &Vec<u8>)
    ensures
        final(out)@ == old(out)@ + escape(s@),
{
    let mut i: usize = 0;
    proof {
        assert(s@.skip(0) =~= s@);
        assert(old(out)@ + escape(s@) =~= old(out)@ + escape(s@));
    }
    while i < s.len()
        invariant
            i <= s.len(),
            old(out)@ + escape(s@) == out@ + escape(s@.skip(i as int)),
        decreases s.len() - i,
    {
        let ghost prev = out@;
        let ghost rem = s@.skip(i as int);
        let c = s[i];
        proof {
            assert(rem[0] == c);
            assert(rem.drop_first() =~= s@.skip(i + 1));
        }
        if c == 34 || c == 92 {
            out.push(92);
            out.push(c);
            proof {
                assert(prev + (seq![92u8, c] + escape(s@.skip(i + 1))) =~= (prev + seq![92u8, c])
                    + escape(s@.skip(i + 1)));
                assert(out@ =~= prev + seq![92u8, c]);
            }
        } else {
            out.push(c);
            proof {
                assert(prev + (seq![c] + escape(s@.skip(i + 1))) =~= (prev + seq![c]) + escape(
                    s@.skip(i + 1),
                ));
                assert(out@ =~= prev + seq![c]);
            }
        }
        i = i + 1;
    }
    proof {
        assert(escape(s@.skip(s@.len() as int)) =~= Seq::<u8>::empty());
        assert(out@ + escape(s@.skip(s@.len() as int)) =~= out@);
    }
}

/// Appends a rendered string to `out`.
fn push_string(out: &mut Vec<u8>, s: &Vec<u8>)
    ensures
        final(out)@ == old(out)@ + render_string(s@),
{
    out.push(34);
    push_escaped(out, s);
    out.push(34);
    proof {
        assert(out@ =~= old(out)@ + render_string(s@));
    }
}

/// Appends one rendered series object to `out`.
fn push_series(out: &mut Vec<u8>, e: &TrackedSeries)
    ensures
        final(out)@ == old(out)@ + render_series(e@),
{
    out.push(123);
    let tn = tag_name();
    crate::probe::append_bytes(out, &tn);
    out.push(58);
    push_string(out, &e.name);
    out.push(44);
    let ts = tag_short_name();
    crate::probe::append_bytes(out, &ts);
    out.push(58);
    push_string(out, &e.short_name);
    out.push(44);
    let tu = tag_url();
    crate::probe::append_bytes(out, &tu);
    out.push(58);
    push_string(out, &e.url);
    out.push(44);
    let tc = tag_current_chapter();
    crate::probe::append_bytes(out, &tc);
    out.push(58);
    crate::probe::push_decimal(e.current_chapter as u64, out);
    out.push(125);
    proof {
        assert(out@ =~= old(out)@ + render_series(e@));
    }
}

/// Renders a config in its canonical byte form. Feeding the result back to
/// `parse_config` recovers the same series (see `lemma_config_round_trip`).
pub fn render_config_bytes(cfg: &Vec<TrackedSeries>) -> (r: Vec<u8>)
    ensures
        r@ == render_config(config_view(cfg@)),
{
    let ghost cv = config_view(cfg@);
    let mut out: Vec<u8> = Vec::new();
    out.push(91);
    if cfg.len() == 0 {
        out.push(93);
        proof {
            assert(out@ =~= render_config(cv));
        }
        return out;
    }
    push_series(&mut out, &cfg[0]);
    let mut i: usize = 1;
    proof {
        assert(cv.drop_first() =~= cv.skip(1));
        assert(out@ + render_tail(cv.skip(1)) =~= (seq![91u8] + render_series(cv[0])) + render_tail(
            cv.skip(1),
        ));
        assert(render_config(cv) =~= (seq![91u8] + render_series(cv[0])) + render_tail(cv.skip(1)));
    }
    while i < cfg.len()
        invariant
            1 <= i <= cfg.len(),
            cv == config_view(cfg@),
            cv.len() == cfg@.len(),
            out@ + render_tail(cv.skip(i as int)) == render_config(cv),
        decreases cfg.len() - i,
    {
        let ghost prev = out@;
        out.push(44);
        push_series(&mut out, &cfg[i]);
        proof {
            let rem = cv.skip(i as int);
            assert(rem[0] == cv[i as int]);
            assert(rem.drop_first() =~= cv.skip(i + 1));
            assert(render_tail(rem) == seq![44u8] + render_series(cv[i as int]) + render_tail(
                cv.skip(i + 1),
            ));
            assert(out@ =~= prev + seq![44u8] + render_series(cv[i as int]));
            assert(out@ + render_tail(cv.skip(i + 1)) =~= prev + render_tail(rem));
        }
        i = i + 1;
    }
    out.push(93);
    proof {
        assert(render_tail(cv.skip(cv.len() as int)) =~= seq![93u8]);
        assert(out@ =~= render_config(cv));
    }
    out
}

// ---------------------------------------------------------------------------
// Round trip: parsing a rendered config recovers exactly the same series.
// ---------------------------------------------------------------------------
proof fn lemma_prefix_mismatch(s: Seq<u8>, p: Seq<u8>, k: int)
    requires
        0 <= k < p.len(),
        k < s.len(),
        s[k] != p[k],
    ensures
        !starts_with(s, p),
{
    if p.len() <= s.len() {
        assert(s.take(p.len() as int)[k] == s[k]);
    }
}

proof fn lemma_quoted_first(k: Seq<u8>)
    requires
        k.len() >= 1,
    ensures
        quoted(k).len() == k.len() + 2,
        quoted(k)[0] == 34,
        quoted(k)[1] == k[0],
{
    assert((seq![34u8] + k)[1] == k[0]);
}

proof fn lemma_escape_parse(s: Seq<u8>, rest: Seq<u8>)
    requires
        text_ok(s),
    ensures
        parse_string_rest(escape(s) + (seq![34u8] + rest)) == Some((s, rest)),
    decreases s.len(),
{
    let input = escape(s) + (seq![34u8] + rest);
    if s.len() == 0 {
        assert(escape(s) =~= Seq::<u8>::empty());
        assert(input =~= seq![34u8] + rest);
        assert(input[0] == 34);
        assert(input.drop_first() =~= rest);
        assert(s =~= Seq::<u8>::empty());
    } else {
        let c = s[0];
        assert(c >= 32);
        assert(text_ok(s.drop_first())) by {
            assert forall|k: int| 0 <= k < s.drop_first().len() implies s.drop_first()[k] >= 32 by {
                assert(s.drop_first()[k] == s[k + 1]);
            }
        }
        lemma_escape_parse(s.drop_first(), rest);
        if c == 34 || c == 92 {
            assert(escape(s) == seq![92u8, c] + escape(s.drop_first()));
            assert(input =~= seq![92u8, c] + (escape(s.drop_first()) + (seq![34u8] + rest)));
            assert(input[0] == 92);
            assert(input[1] == c);
            assert(input.len() >= 2);
            assert(input.skip(2) =~= escape(s.drop_first()) + (seq![34u8] + rest));
            assert(seq![c] + s.drop_first() =~= s);
        } else {
            assert(escape(s) == seq![c] + escape(s.drop_first()));
            assert(input =~= seq![c] + (escape(s.drop_first()) + (seq![34u8] + rest)));
            assert(input[0] == c);
            assert(input.drop_first() =~= escape(s.drop_first()) + (seq![34u8] + rest));
            assert(seq![c] + s.drop_first() =~= s);
        }
    }
}

proof fn lemma_string_parse(sv: Seq<u8>, rest: Seq<u8>)
    requires
        text_ok(sv),
    ensures
        parse_string(render_string(sv) + rest) == Some((sv, rest)),
        (render_string(sv) + rest)[0] == 34,
        (render_string(sv) + rest).len() > 0,
{
    let input = render_string(sv) + rest;
    assert(input =~= seq![34u8] + (escape(sv) + (seq![34u8] + rest)));
    assert(input[0] == 34);
    assert(input.drop_first() =~= escape(sv) + (seq![34u8] + rest));
    lemma_escape_parse(sv, rest);
}

proof fn lemma_decimal_digits(n: nat)
    ensures
        crate::probe::spec_decimal(n).len() >= 1,
        forall|k: int|
            0 <= k < crate::probe::spec_decimal(n).len() ==> is_digit(
                #[trigger] crate::probe::spec_decimal(n)[k],
            ),
    decreases n,
{
    let d = crate::probe::spec_decimal(n);
    if n < 10 {
        assert(d[0] == (48 + n) as u8);
        assert(is_digit(d[0]));
    } else {
        lemma_decimal_digits(n / 10);
        let a = crate::probe::spec_decimal(n / 10);
        assert(d == a + seq![(48 + n % 10) as u8]);
        assert forall|k: int| 0 <= k < d.len() implies is_digit(#[trigger] d[k]) by {
            if k < a.len() {
                assert(d[k] == a[k]);
            } else {
                assert(d[k] == (48 + n % 10) as u8);
            }
        }
    }
}

proof fn lemma_decimal_value(n: nat)
    ensures
        digits_value(crate::probe::spec_decimal(n)) == n,
    decreases n,
{
    let d = crate::probe::spec_decimal(n);
    if n < 10 {
        assert(d =~= seq![(48 + n) as u8]);
        assert(d.drop_last() =~= Seq::<u8>::empty());
        assert(d.last() == (48 + n) as u8);
        assert((48 + n) as u8 as int == 48 + n);
        assert(digits_value(Seq::<u8>::empty()) == 0);
        assert(digits_value(d) == digits_value(d.drop_last()) * 10 + (d.last() as int - 48));
    } else {
        lemma_decimal_value(n / 10);
        let a = crate::probe::spec_decimal(n / 10);
        assert(d == a + seq![(48 + n % 10) as u8]);
        assert(d.drop_last() =~= a);
        assert(d.last() == (48 + n % 10) as u8);
        assert((48 + n % 10) as u8 as int == 48 + n % 10);
        assert(digits_value(d) == digits_value(d.drop_last()) * 10 + (d.last() as int - 48));
        assert(n / 10 * 10 + n % 10 == n);
    }
}

proof fn lemma_digit_count_exact(d: Seq<u8>, rest: Seq<u8>)
    requires
        forall|k: int| 0 <= k < d.len() ==> is_digit(#[trigger] d[k]),
        rest.len() == 0 || !is_digit(rest[0]),
    ensures
        digit_count(d + rest) == d.len(),
    decreases d.len(),
{
    if d.len() == 0 {
        assert(d + rest =~= rest);
    } else {
        assert((d + rest)[0] == d[0]);
        assert((d + rest).drop_first() =~= d.drop_first() + rest);
        assert forall|k: int| 0 <= k < d.drop_first().len() implies is_digit(
            #[trigger] d.drop_first()[k],
        ) by {
            assert(d.drop_first()[k] == d[k + 1]);
        }
        lemma_digit_count_exact(d.drop_first(), rest);
    }
}

proof fn lemma_parse_number_render(n: nat, rest: Seq<u8>)
    requires
        n <= u32::MAX,
        rest.len() == 0 || !is_digit(rest[0]),
    ensures
        parse_number(crate::probe::spec_decimal(n) + rest) == Some((n as u32, rest)),
{
    let d = crate::probe::spec_decimal(n);
    lemma_decimal_digits(n);
    lemma_decimal_value(n);
    lemma_digit_count_exact(d, rest);
    let s = d + rest;
    assert(digit_count(s) == d.len());
    assert(s.take(d.len() as int) =~= d);
    assert(s.skip(d.len() as int) =~= rest);
}

proof fn lemma_member_string_step(k: Seq<u8>, val: Seq<u8>, tail: Seq<u8>)
    requires
        text_ok(val),
    ensures
        ({
            let input = quoted(k) + (seq![58u8] + (render_string(val) + tail));
            starts_with(input, quoted(k)) && after_colon(input.skip(quoted(k).len() as int))
                == Some(render_string(val) + tail) && parse_string(render_string(val) + tail)
                == Some((val, tail))
        }),
{
    let q = quoted(k);
    let input = q + (seq![58u8] + (render_string(val) + tail));
    assert(input.take(q.len() as int) =~= q);
    assert(input.skip(q.len() as int) =~= seq![58u8] + (render_string(val) + tail));
    let v0 = seq![58u8] + (render_string(val) + tail);
    assert(v0[0] == 58);
    assert(skip_ws(v0) == v0);
    assert(v0.drop_first() =~= render_string(val) + tail);
    lemma_string_parse(val, tail);
    assert(skip_ws(render_string(val) + tail) == render_string(val) + tail);
}

proof fn lemma_member_number_step(k: Seq<u8>, n: u32, tail: Seq<u8>)
    requires
        tail.len() > 0,
        !is_digit(tail[0]),
    ensures
        ({
            let input = quoted(k) + (seq![58u8] + (crate::probe::spec_decimal(n as nat) + tail));
            starts_with(input, quoted(k)) && after_colon(input.skip(quoted(k).len() as int))
                == Some(crate::probe::spec_decimal(n as nat) + tail) && parse_number(
                crate::probe::spec_decimal(n as nat) + tail,
            ) == Some((n, tail))
        }),
{
    let q = quoted(k);
    let d = crate::probe::spec_decimal(n as nat);
    let input = q + (seq![58u8] + (d + tail));
    assert(input.take(q.len() as int) =~= q);
    assert(input.skip(q.len() as int) =~= seq![58u8] + (d + tail));
    let v0 = seq![58u8] + (d + tail);
    assert(v0[0] == 58);
    assert(skip_ws(v0) == v0);
    assert(v0.drop_first() =~= d + tail);
    lemma_decimal_digits(n as nat);
    assert((d + tail)[0] == d[0]);
    assert(is_digit(d[0]));
    assert(skip_ws(d + tail) == d + tail);
    lemma_parse_number_render(n as nat, tail);
}

/// Law (part): one rendered series object parses back to that series, with
/// any remaining input untouched.
#[verifier::rlimit(100)]
#[verifier::spinoff_prover]
pub proof fn lemma_series_parse(e: SeriesView, rest: Seq<u8>)
    requires
        series_renderable(e),
    ensures
        parse_object(render_series(e) + rest) == Some((e, rest)),
{
    let cc = crate::probe::spec_decimal(e.current_chapter as nat);
    let m4 = quoted(key_current_chapter()) + (seq![58u8] + (cc + (seq![125u8] + rest)));
    let m3 = quoted(key_url()) + (seq![58u8] + (render_string(e.url) + (seq![44u8] + m4)));
    let m2 = quoted(key_short_name()) + (seq![58u8] + (render_string(e.short_name) + (seq![44u8]
        + m3)));
    let m1 = quoted(key_name()) + (seq![58u8] + (render_string(e.name) + (seq![44u8] + m2)));
    let s = render_series(e) + rest;
    assert(s =~= seq![123u8] + m1);
    lemma_quoted_first(key_name());
    lemma_quoted_first(key_short_name());
    lemma_quoted_first(key_url());
    lemma_quoted_first(key_current_chapter());

    let acc0 = empty_fields();
    let acc1 = FieldSet {
        name: Some(e.name),
        short_name: None,
        url: None,
        current_chapter: None,
    };
    let acc2 = FieldSet {
        name: Some(e.name),
        short_name: Some(e.short_name),
        url: None,
        current_chapter: None,
    };
    let acc3 = FieldSet {
        name: Some(e.name),
        short_name: Some(e.short_name),
        url: Some(e.url),
        current_chapter: None,
    };
    let acc4 = FieldSet {
        name: Some(e.name),
        short_name: Some(e.short_name),
        url: Some(e.url),
        current_chapter: Some(e.current_chapter),
    };

    // Member "name".
    lemma_member_string_step(key_name(), e.name, seq![44u8] + m2);
    let r1 = seq![44u8] + m2;
    assert(parse_member(m1, acc0) == Some((acc1, r1)));
    assert(r1[0] == 44);
    assert(skip_ws(r1) == r1);
    assert(r1.drop_first() =~= m2);
    assert(m2[0] == 34);
    assert(skip_ws(m2) == m2);
    assert(parse_members(m1, acc0) == parse_members(m2, acc1));

    // Member "short_name": the "name" key does not match first.
    assert(m2[1] == key_short_name()[0]);
    assert(key_short_name()[0] == 115);
    assert(quoted(key_name())[1] == 110);
    lemma_prefix_mismatch(m2, quoted(key_name()), 1);
    lemma_member_string_step(key_short_name(), e.short_name, seq![44u8] + m3);
    let r2 = seq![44u8] + m3;
    assert(parse_member(m2, acc1) == Some((acc2, r2)));
    assert(r2[0] == 44);
    assert(skip_ws(r2) == r2);
    assert(r2.drop_first() =~= m3);
    assert(m3[0] == 34);
    assert(skip_ws(m3) == m3);
    assert(parse_members(m2, acc1) == parse_members(m3, acc2));

    // Member "url": neither earlier key matches.
    assert(m3[1] == key_url()[0]);
    assert(key_url()[0] == 117);
    assert(quoted(key_short_name())[1] == 115);
    lemma_prefix_mismatch(m3, quoted(key_name()), 1);
    lemma_prefix_mismatch(m3, quoted(key_short_name()), 1);
    lemma_member_string_step(key_url(), e.url, seq![44u8] + m4);
    let r3 = seq![44u8] + m4;
    assert(parse_member(m3, acc2) == Some((acc3, r3)));
    assert(r3[0] == 44);
    assert(skip_ws(r3) == r3);
    assert(r3.drop_first() =~= m4);
    assert(m4[0] == 34);
    assert(skip_ws(m4) == m4);
    assert(parse_members(m3, acc2) == parse_members(m4, acc3));

    // Member "current_chapter": no earlier key matches.
    assert(m4[1] == key_current_chapter()[0]);
    assert(key_current_chapter()[0] == 99);
    assert(quoted(key_url())[1] == 117);
    lemma_prefix_mismatch(m4, quoted(key_name()), 1);
    lemma_prefix_mismatch(m4, quoted(key_short_name()), 1);
    lemma_prefix_mismatch(m4, quoted(key_url()), 1);
    let r4 = seq![125u8] + rest;
    assert(r4[0] == 125);
    assert(!is_digit(r4[0]));
    lemma_member_number_step(key_current_chapter(), e.current_chapter, r4);
    assert(parse_member(m4, acc3) == Some((acc4, r4)));
    assert(skip_ws(r4) == r4);
    assert(r4.drop_first() =~= rest);
    assert(parse_members(m4, acc3) == Some((acc4, rest)));

    assert(fields_complete(acc4));
    assert(series_of_fields(acc4) == e);

    // The object around the members.
    assert(s[0] == 123);
    assert(s.drop_first() =~= m1);
    assert(m1[0] == 34);
    assert(skip_ws(m1) == m1);
    assert(parse_object(s) == Some((e, rest)));
}

/// Law (part): the rendered entries after the first parse back to exactly
/// those entries, appended to the accumulator.
#[verifier::rlimit(100)]
#[verifier::spinoff_prover]
pub proof fn lemma_tail_parse(l: Seq<SeriesView>, acc: Seq<SeriesView>, rest: Seq<u8>)
    requires
        config_renderable(l),
    ensures
        parse_entries(render_tail(l) + rest, acc) == Some((acc + l, rest)),
    decreases l.len(),
{
    let s = render_tail(l) + rest;
    if l.len() == 0 {
        assert(s =~= seq![93u8] + rest);
        assert(s[0] == 93);
        assert(skip_ws(s) == s);
        assert(s.drop_first() =~= rest);
        assert(acc + l =~= acc);
    } else {
        let x = render_tail(l.drop_first()) + rest;
        assert(s =~= seq![44u8] + (render_series(l[0]) + x));
        assert(s[0] == 44);
        assert(skip_ws(s) == s);
        assert(s.drop_first() =~= render_series(l[0]) + x);
        assert(series_renderable(l[0]));
        lemma_series_parse(l[0], x);
        assert((render_series(l[0]) + x)[0] == 123) by {
            assert(render_series(l[0])[0] == 123) by {
                assert(render_series(l[0]) =~= seq![123u8] + (render_series(l[0]).drop_first()));
            }
        }
        assert(skip_ws(render_series(l[0]) + x) == render_series(l[0]) + x);
        assert(config_renderable(l.drop_first())) by {
            assert forall|k: int|
                0 <= k < l.drop_first().len() implies series_renderable(
                #[trigger] l.drop_first()[k],
            ) by {
                assert(l.drop_first()[k] == l[k + 1]);
            }
        }
        lemma_tail_parse(l.drop_first(), acc.push(l[0]), rest);
        assert(acc.push(l[0]) + l.drop_first() =~= acc + l);
    }
}

/// Law: round-trip fidelity of the config form. Rendering any config whose
/// text fields hold no control bytes and parsing the result yields exactly
/// the same series, in the same order.
pub proof fn lemma_config_round_trip(l: Seq<SeriesView>)
    requires
        config_renderable(l),
    ensures
        parse_config_bytes(render_config(l)) == Some(l),
{
    if l.len() == 0 {
        lemma_round_trip_empty(l);
    } else {
        lemma_round_trip_nonempty(l);
    }
}

#[verifier::rlimit(100)]
#[verifier::spinoff_prover]
proof fn lemma_round_trip_empty(l: Seq<SeriesView>)
    requires
        l.len() == 0,
    ensures
        parse_config_bytes(render_config(l)) == Some(l),
{
    let s = render_config(l);
    assert(s == seq![91u8, 93u8]);
    assert(s[0] == 91);
    assert(skip_ws(s) == s);
    assert(s.drop_first() =~= seq![93u8]);
    assert(skip_ws(seq![93u8]) == seq![93u8]);
    assert(seq![93u8].drop_first() =~= Seq::<u8>::empty());
    assert(skip_ws(Seq::<u8>::empty()).len() == 0);
    assert(l =~= Seq::<SeriesView>::empty());
}

#[verifier::rlimit(100)]
#[verifier::spinoff_prover]
proof fn lemma_round_trip_nonempty(l: Seq<SeriesView>)
    requires
        config_renderable(l),
        l.len() > 0,
    ensures
        parse_config_bytes(render_config(l)) == Some(l),
{
    let s = render_config(l);
    let x = render_tail(l.drop_first());
    assert(s =~= seq![91u8] + (render_series(l[0]) + x));
    assert(s[0] == 91);
    assert(skip_ws(s) == s);
    assert(s.drop_first() =~= render_series(l[0]) + x);
    assert(render_series(l[0])[0] == 123) by {
        assert(render_series(l[0]) =~= seq![123u8] + (render_series(l[0]).drop_first()));
    }
    assert((render_series(l[0]) + x)[0] == 123);
    assert(skip_ws(render_series(l[0]) + x) == render_series(l[0]) + x);
    assert(series_renderable(l[0]));
    lemma_series_parse(l[0], x);
    assert(x =~= render_tail(l.drop_first()) + Seq::<u8>::empty());
    assert(config_renderable(l.drop_first())) by {
        assert forall|k: int|
            0 <= k < l.drop_first().len() implies series_renderable(
            #[trigger] l.drop_first()[k],
        ) by {
            assert(l.drop_first()[k] == l[k + 1]);
        }
    }
    lemma_tail_parse(l.drop_first(), seq![l[0]], Seq::<u8>::empty());
    assert(parse_entries(x, seq![l[0]]) == Some(
        (seq![l[0]] + l.drop_first(), Seq::<u8>::empty()),
    ));
    assert(seq![l[0]] + l.drop_first() =~= l);
    assert(skip_ws(Seq::<u8>::empty()).len() == 0);
}

} // verus!
