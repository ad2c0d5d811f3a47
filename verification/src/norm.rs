//! Headword normalization: the canonical matching key of a headword is
//! obtained by truncating at the first `{` (dropping an embedded
//! annotation), removing every `-` and every space, and lowercasing what
//! remains.

use vstd::prelude::*;

verus! {

/// Result of `str::to_lowercase`: a pure function of the characters alone.
pub uninterp spec fn lower_of(s: Seq<char>) -> Seq<char>;

/// Index of the first `{` in `s`, or `s.len()` if there is none.
pub open spec fn brace_pos(s: Seq<char>) -> int
    decreases s.len(),
{
    if s.len() == 0 {
        0
    } else if s[0] == '{' {
        0
    } else {
        1 + brace_pos(s.skip(1))
    }
}

/// The headword with its bracketed annotation (if any) dropped.
pub open spec fn truncate_annotation(s: Seq<char>) -> Seq<char> {
    s.take(brace_pos(s))
}

/// Characters that survive normalization: everything but `-` and space.
pub open spec fn keep_char(c: char) -> bool {
    c != '-' && c != ' '
}

/// The headword with every `-` and every space removed.
pub open spec fn strip_separators(s: Seq<char>) -> Seq<char> {
    s.filter(|c: char| keep_char(c))
}

/// The canonical matching key of a headword.
pub open spec fn normal_form(s: Seq<char>) -> Seq<char> {
    lower_of(strip_separators(truncate_annotation(s)))
}

pub proof fn lemma_brace_pos_bounds(s: Seq<char>)
    ensures
        0 <= brace_pos(s) <= s.len(),
    decreases s.len(),
{
    if s.len() != 0 && s[0] != '{' {
        lemma_brace_pos_bounds(s.skip(1));
    }
}

/// `brace_pos` is the unique index `i` such that no `{` stands before `i`
/// and either `i` is the end of the string or `s[i]` is `{`.
pub proof fn lemma_brace_pos_is(s: Seq<char>, i: int)
    requires
        0 <= i <= s.len(),
        forall|j: int| 0 <= j < i ==> s[j] != '{',
        i == s.len() || s[i] == '{',
    ensures
        brace_pos(s) == i,
    decreases s.len(),
{
    if s.len() == 0 {
    } else if s[0] == '{' {
        assert(i == 0);
    } else {
        assert(i >= 1);
        let t = s.skip(1);
        assert forall|j: int| 0 <= j < i - 1 implies t[j] != '{' by {
            assert(t[j] == s[j + 1]);
        }
        lemma_brace_pos_is(t, i - 1);
    }
}

/// Relies on `str::to_lowercase`; its result is named by `lower_of`. An
/// empty string lowercases to the empty string.
#[verifier::external_body]
fn lowercase(s: &str) -> (r: String)
    ensures
        r@ == lower_of(s@),
        s@.len() == 0 ==> r@.len() == 0,
{
    s.to_lowercase()
}

/// Relies on `String::from_iter` over chars: the string of exactly the
/// given characters, in order.
#[verifier::external_body]
pub(crate) fn string_of_chars(v: &Vec<char>) -> (r: String)
    ensures
        r@ == v@,
{
    v.iter().collect()
}

/// Index (in characters) of the first `{` in `s`, or the character length
/// of `s` if there is none.
fn find_brace(s: &str) -> (r: usize)
    ensures
        r == brace_pos(s@),
{
    let n = s.unicode_len();
    let mut i: usize = 0;
    while i < n
        invariant
            n == s@.len(),
            0 <= i <= n,
            forall|j: int| 0 <= j < i ==> s@[j] != '{',
        decreases n - i,
    {
        let c = s.get_char(i);
        if c == '{' {
            proof {
                lemma_brace_pos_is(s@, i as int);
            }
            return i;
        }
        i = i + 1;
    }
    proof {
        lemma_brace_pos_is(s@, i as int);
    }
    i
}

/// Canonical matching key: truncate at the first `{`, drop every `-` and
/// space, and lowercase the remainder.
pub fn normalize(s: &str) -> (r: String)
    ensures
        r@ == normal_form(s@),
        s@.len() == 0 ==> r@.len() == 0,
{
    let end = find_brace(s);
    proof {
        lemma_brace_pos_bounds(s@);
        assert(truncate_annotation(s@) =~= s@.take(end as int));
    }
    let mut i: usize = 0;
    let mut kept: Vec<char> = Vec::new();
    while i < end
        invariant
            end == brace_pos(s@),
            0 <= end <= s@.len(),
            0 <= i <= end,
            kept@ == s@.take(i as int).filter(|c: char| keep_char(c)),
        decreases end - i,
    {
        let c = s.get_char(i);
        proof {
            let pred = |c: char| keep_char(c);
            let before = s@.take(i as int);
            let after = s@.take(i + 1);
            assert(after.drop_last() =~= before);
            assert(after.last() == c);
            reveal(Seq::filter);
            if pred(c) {
                assert(after.filter(pred) == before.filter(pred).push(c));
            } else {
                assert(after.filter(pred) == before.filter(pred));
            }
        }
        if c != '-' && c != ' ' {
            kept.push(c);
        }
        i = i + 1;
    }
    proof {
        assert(s@.take(i as int) =~= truncate_annotation(s@));
    }
    let joined = string_of_chars(&kept);
    lowercase(joined.as_str())
}

} // verus!
