//! Parsing of dictionary source lines and of stored records.
//!
//! An entry line starts with the marker character and carries the literal
//! separator `" : "`; it splits at the separator's first occurrence into a
//! headword (marker and surrounding whitespace trimmed) and a translation
//! (whitespace trimmed). A stored record splits at the same separator.

use vstd::prelude::*;

verus! {

/// Result of `char::is_whitespace`: a property of the character alone.
pub uninterp spec fn is_unicode_space(c: char) -> bool;

/// Relies on `char::is_whitespace`; its result is named by
/// `is_unicode_space`.
#[verifier::external_body]
fn is_space(c: char) -> (r: bool)
    ensures
        r == is_unicode_space(c),
{
    c.is_whitespace()
}

/// The separator token `" : "` stands at position `i` of `s`.
pub open spec fn has_sep_at(s: Seq<char>, i: int) -> bool {
    &&& 0 <= i
    &&& i + 3 <= s.len()
    &&& s[i] == ' '
    &&& s[i + 1] == ':'
    &&& s[i + 2] == ' '
}

/// Index of the first occurrence of `" : "` in `s`, or `-1` if none.
pub open spec fn sep_pos(s: Seq<char>) -> int
    decreases s.len(),
{
    if has_sep_at(s, 0) {
        0
    } else if s.len() == 0 {
        -1
    } else {
        let r = sep_pos(s.skip(1));
        if r < 0 {
            -1
        } else {
            1 + r
        }
    }
}

pub proof fn lemma_sep_pos_found(s: Seq<char>, i: int)
    requires
        has_sep_at(s, i),
        forall|j: int| 0 <= j < i ==> !has_sep_at(s, j),
    ensures
        sep_pos(s) == i,
    decreases s.len(),
{
    if has_sep_at(s, 0) {
        assert(i == 0);
    } else {
        assert(i >= 1);
        let t = s.skip(1);
        assert(has_sep_at(t, i - 1)) by {
            assert(t[i - 1] == s[i] && t[i] == s[i + 1] && t[i + 1] == s[i + 2]);
        }
        assert forall|j: int| 0 <= j < i - 1 implies !has_sep_at(t, j) by {
            if has_sep_at(t, j) {
                assert(t[j] == s[j + 1] && t[j + 1] == s[j + 2] && t[j + 2] == s[j + 3]);
                assert(has_sep_at(s, j + 1));
            }
        }
        lemma_sep_pos_found(t, i - 1);
    }
}

pub proof fn lemma_sep_pos_missing(s: Seq<char>)
    requires
        forall|j: int| !has_sep_at(s, j),
    ensures
        sep_pos(s) == -1,
    decreases s.len(),
{
    if s.len() > 0 {
        let t = s.skip(1);
        assert forall|j: int| !has_sep_at(t, j) by {
            if has_sep_at(t, j) {
                assert(t[j] == s[j + 1] && t[j + 1] == s[j + 2] && t[j + 2] == s[j + 3]);
                assert(has_sep_at(s, j + 1));
            }
        }
        lemma_sep_pos_missing(t);
    }
}

/// Where the separator occurs in a window of `s`, it occurs in `s` itself.
pub proof fn lemma_sep_in_subrange(s: Seq<char>, a: int, b: int, j: int)
    requires
        0 <= a <= b <= s.len(),
        has_sep_at(s.subrange(a, b), j),
    ensures
        has_sep_at(s, a + j),
{
    let t = s.subrange(a, b);
    assert(t[j] == s[a + j] && t[j + 1] == s[a + j + 1] && t[j + 2] == s[a + j + 2]);
}

/// Number of leading marker characters of `s`.
pub open spec fn marker_run(s: Seq<char>) -> int
    decreases s.len(),
{
    if s.len() > 0 && s[0] == '■' {
        1 + marker_run(s.skip(1))
    } else {
        0
    }
}

pub proof fn lemma_marker_run_is(s: Seq<char>, i: int)
    requires
        0 <= i <= s.len(),
        forall|j: int| 0 <= j < i ==> s[j] == '■',
        i == s.len() || s[i] != '■',
    ensures
        marker_run(s) == i,
    decreases s.len(),
{
    if s.len() > 0 && s[0] == '■' {
        assert(i >= 1);
        let t = s.skip(1);
        assert forall|j: int| 0 <= j < i - 1 implies t[j] == '■' by {
            assert(t[j] == s[j + 1]);
        }
        lemma_marker_run_is(t, i - 1);
    } else {
        assert(i == 0);
    }
}

/// `s` with its leading run of marker characters removed.
pub open spec fn strip_marker(s: Seq<char>) -> Seq<char> {
    s.skip(marker_run(s))
}

/// Number of leading whitespace characters of `s`.
pub open spec fn lead_spaces(s: Seq<char>) -> int
    decreases s.len(),
{
    if s.len() > 0 && is_unicode_space(s[0]) {
        1 + lead_spaces(s.skip(1))
    } else {
        0
    }
}

/// Number of trailing whitespace characters of `s`.
pub open spec fn trail_spaces(s: Seq<char>) -> int
    decreases s.len(),
{
    if s.len() > 0 && is_unicode_space(s[s.len() - 1]) {
        1 + trail_spaces(s.drop_last())
    } else {
        0
    }
}

pub proof fn lemma_lead_spaces_is(s: Seq<char>, i: int)
    requires
        0 <= i <= s.len(),
        forall|j: int| 0 <= j < i ==> is_unicode_space(s[j]),
        i == s.len() || !is_unicode_space(s[i]),
    ensures
        lead_spaces(s) == i,
    decreases s.len(),
{
    if s.len() > 0 && is_unicode_space(s[0]) {
        assert(i >= 1);
        let t = s.skip(1);
        assert forall|j: int| 0 <= j < i - 1 implies is_unicode_space(t[j]) by {
            assert(t[j] == s[j + 1]);
        }
        lemma_lead_spaces_is(t, i - 1);
    } else {
        assert(i == 0);
    }
}

pub proof fn lemma_trail_spaces_is(s: Seq<char>, i: int)
    requires
        0 <= i <= s.len(),
        forall|j: int| s.len() - i <= j < s.len() ==> is_unicode_space(s[j]),
        i == s.len() || !is_unicode_space(s[s.len() - i - 1]),
    ensures
        trail_spaces(s) == i,
    decreases s.len(),
{
    if s.len() > 0 && is_unicode_space(s[s.len() - 1]) {
        assert(i >= 1);
        let t = s.drop_last();
        assert forall|j: int| t.len() - (i - 1) <= j < t.len() implies is_unicode_space(t[j]) by {
            assert(t[j] == s[j]);
        }
        lemma_trail_spaces_is(t, i - 1);
    } else {
        assert(i == 0);
    }
}

/// `s` with leading and trailing whitespace removed.
pub open spec fn trim_spec(s: Seq<char>) -> Seq<char> {
    if lead_spaces(s) == s.len() {
        Seq::empty()
    } else {
        s.subrange(lead_spaces(s), s.len() - trail_spaces(s))
    }
}

/// When some character of `s` is not whitespace, the leading and trailing
/// whitespace runs do not overlap.
pub proof fn lemma_trim_bounds(s: Seq<char>)
    requires
        lead_spaces(s) < s.len(),
    ensures
        0 <= lead_spaces(s),
        lead_spaces(s) + trail_spaces(s) < s.len(),
        !is_unicode_space(s[lead_spaces(s)]),
        forall|j: int| 0 <= j < lead_spaces(s) ==> is_unicode_space(s[j]),
        forall|j: int| s.len() - trail_spaces(s) <= j < s.len() ==> is_unicode_space(s[j]),
    decreases s.len(),
{
    lemma_lead_spaces_props(s);
    lemma_trail_spaces_props(s);
    let l = lead_spaces(s);
    let t = trail_spaces(s);
    if l + t >= s.len() {
        assert(s.len() - t <= l < s.len());
        assert(is_unicode_space(s[l]));
    }
}

pub proof fn lemma_lead_spaces_props(s: Seq<char>)
    ensures
        0 <= lead_spaces(s) <= s.len(),
        forall|j: int| 0 <= j < lead_spaces(s) ==> is_unicode_space(s[j]),
        lead_spaces(s) < s.len() ==> !is_unicode_space(s[lead_spaces(s)]),
    decreases s.len(),
{
    if s.len() > 0 && is_unicode_space(s[0]) {
        let t = s.skip(1);
        lemma_lead_spaces_props(t);
        assert forall|j: int| 0 <= j < lead_spaces(s) implies is_unicode_space(s[j]) by {
            if j >= 1 {
                assert(t[j - 1] == s[j]);
            }
        }
    }
}

pub proof fn lemma_trail_spaces_props(s: Seq<char>)
    ensures
        0 <= trail_spaces(s) <= s.len(),
        forall|j: int| s.len() - trail_spaces(s) <= j < s.len() ==> is_unicode_space(s[j]),
        trail_spaces(s) < s.len() ==> !is_unicode_space(s[s.len() - trail_spaces(s) - 1]),
    decreases s.len(),
{
    if s.len() > 0 && is_unicode_space(s[s.len() - 1]) {
        let t = s.drop_last();
        lemma_trail_spaces_props(t);
        assert forall|j: int| s.len() - trail_spaces(s) <= j < s.len() implies is_unicode_space(
            s[j],
        ) by {
            if j < s.len() - 1 {
                assert(t[j] == s[j]);
            }
        }
    }
}

/// What a source line contributes: the trimmed headword and translation of
/// a marker line that carries the separator, and nothing otherwise.
pub open spec fn line_entry(l: Seq<char>) -> Option<(Seq<char>, Seq<char>)> {
    if l.len() > 0 && l[0] == '■' && sep_pos(l) >= 0 {
        Some(
            (
                trim_spec(strip_marker(l.take(sep_pos(l)))),
                trim_spec(l.skip(sep_pos(l) + 3)),
            ),
        )
    } else {
        Option::None
    }
}

/// Index (in characters) of the first `" : "` in `s`, if any.
fn find_sep(s: &str) -> (r: Option<usize>)
    ensures
        r matches Some(i) ==> sep_pos(s@) == i,
        r is None ==> sep_pos(s@) == -1,
{
    let n = s.unicode_len();
    if n < 3 {
        proof {
            assert forall|j: int| !has_sep_at(s@, j) by {}
            lemma_sep_pos_missing(s@);
        }
        return Option::None;
    }
    let mut i: usize = 0;
    while i <= n - 3
        invariant
            n == s@.len(),
            n >= 3,
            0 <= i <= n - 2,
            forall|j: int| 0 <= j < i ==> !has_sep_at(s@, j),
        decreases n - i,
    {
        if s.get_char(i) == ' ' && s.get_char(i + 1) == ':' && s.get_char(i + 2) == ' ' {
            proof {
                lemma_sep_pos_found(s@, i as int);
            }
            return Some(i);
        }
        i = i + 1;
    }
    proof {
        assert forall|j: int| !has_sep_at(s@, j) by {
            if has_sep_at(s@, j) {
                assert(0 <= j < i);
            }
        }
        lemma_sep_pos_missing(s@);
    }
    Option::None
}

/// `s` with leading and trailing whitespace removed.
fn trim(s: &str) -> (r: &str)
    ensures
        r@ == trim_spec(s@),
{
    let n = s.unicode_len();
    let mut a: usize = 0;
    while a < n && is_space(s.get_char(a))
        invariant
            n == s@.len(),
            0 <= a <= n,
            forall|j: int| 0 <= j < a ==> is_unicode_space(s@[j]),
        decreases n - a,
    {
        a = a + 1;
    }
    proof {
        lemma_lead_spaces_is(s@, a as int);
    }
    if a == n {
        let r = s.substring_char(0, 0);
        proof {
            assert(r@ =~= trim_spec(s@));
        }
        return r;
    }
    let mut b: usize = n;
    while b > a && is_space(s.get_char(b - 1))
        invariant
            n == s@.len(),
            a < n,
            !is_unicode_space(s@[a as int]),
            a <= b <= n,
            forall|j: int| b <= j < n ==> is_unicode_space(s@[j]),
        decreases b,
    {
        b = b - 1;
    }
    proof {
        assert(b > a);
        assert(!is_unicode_space(s@[b - 1]));
        lemma_trail_spaces_is(s@, n - b);
    }
    s.substring_char(a, b)
}

/// Splits an entry line into its trimmed headword and translation; returns
/// nothing exactly when the line is not a marker line or lacks the
/// separator.
pub fn parse_line(line: &str) -> (r: Option<(String, String)>)
    ensures
        r is Some <==> line_entry(line@) is Some,
        r matches Some(p) ==> line_entry(line@) == Some((p.0@, p.1@)),
{
    let n = line.unicode_len();
    if n == 0 || line.get_char(0) != '■' {
        return Option::None;
    }
    let p = match find_sep(line) {
        Some(p) => p,
        Option::None => {
            return Option::None;
        },
    };
    proof {
        lemma_sep_pos_props(line@);
    }
    let head_raw = line.substring_char(0, p);
    let tail_raw = line.substring_char(p + 3, n);
    proof {
        assert(tail_raw@ =~= line@.skip(p + 3));
    }
    let m = head_raw.unicode_len();
    let mut k: usize = 0;
    while k < m && head_raw.get_char(k) == '■'
        invariant
            m == head_raw@.len(),
            0 <= k <= m,
            forall|j: int| 0 <= j < k ==> head_raw@[j] == '■',
        decreases m - k,
    {
        k = k + 1;
    }
    proof {
        lemma_marker_run_is(head_raw@, k as int);
    }
    let head_stripped = head_raw.substring_char(k, m);
    proof {
        assert(head_stripped@ =~= strip_marker(head_raw@));
    }
    let head = trim(head_stripped);
    let tail = trim(tail_raw);
    Some((head.to_owned(), tail.to_owned()))
}

/// Facts that hold of a string's first separator position.
pub proof fn lemma_sep_pos_props(s: Seq<char>)
    ensures
        sep_pos(s) >= -1,
        sep_pos(s) >= 0 ==> has_sep_at(s, sep_pos(s)),
        forall|j: int| 0 <= j < sep_pos(s) ==> !has_sep_at(s, j),
    decreases s.len(),
{
    if has_sep_at(s, 0) {
    } else if s.len() == 0 {
    } else {
        let t = s.skip(1);
        lemma_sep_pos_props(t);
        if sep_pos(t) >= 0 {
            let r = sep_pos(t);
            assert(has_sep_at(s, r + 1)) by {
                assert(t[r] == s[r + 1] && t[r + 1] == s[r + 2] && t[r + 2] == s[r + 3]);
            }
            assert forall|j: int| 0 <= j < r + 1 implies !has_sep_at(s, j) by {
                if j >= 1 && has_sep_at(s, j) {
                    assert(t[j - 1] == s[j] && t[j] == s[j + 1] && t[j + 1] == s[j + 2]);
                    assert(has_sep_at(t, j - 1));
                }
            }
        }
    }
}

/// A stored record split at the first separator: the displayed headword
/// and the translation, or nothing when the separator is missing.
pub open spec fn split_record(v: Seq<char>) -> Option<(Seq<char>, Seq<char>)> {
    if sep_pos(v) >= 0 {
        Some((v.take(sep_pos(v)), v.skip(sep_pos(v) + 3)))
    } else {
        Option::None
    }
}

/// Splits a stored record at the first separator.
pub fn split_entry(v: &str) -> (r: Option<(String, String)>)
    ensures
        r is Some <==> split_record(v@) is Some,
        r matches Some(p) ==> split_record(v@) == Some((p.0@, p.1@)),
{
    let n = v.unicode_len();
    let p = match find_sep(v) {
        Some(p) => p,
        Option::None => {
            return Option::None;
        },
    };
    proof {
        lemma_sep_pos_props(v@);
    }
    let head = v.substring_char(0, p);
    let tail = v.substring_char(p + 3, n);
    proof {
        assert(head@ =~= v@.take(p as int));
        assert(tail@ =~= v@.skip(p + 3));
    }
    Some((head.to_owned(), tail.to_owned()))
}

} // verus!
