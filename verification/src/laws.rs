//! Properties of the index and the search, proved from the contracts the
//! other modules state: pagination past the last match comes back empty, a
//! rebuilt store serves only entries of its own source, and a small fresh
//! build keeps every entry reachable.

use vstd::prelude::*;
use vstd::utf8::{encode_utf8, encode_utf8_decode_utf8};

use crate::db::{
    search_post, scan_from, page_of, key_in, keys_below, index_map, entry_count, build_upto,
    index_key, record_of, slot_digits, decoded_pair,
};
use crate::norm::normal_form;
use crate::order::{
    lex_lt, lex_le, lemma_lex_irreflexive, lemma_lex_prefix_le, lemma_lex_total,
    lemma_lex_transitive,
};
use crate::parse::{
    line_entry, split_record, has_sep_at, sep_pos, marker_run, strip_marker, trim_spec,
    lead_spaces, trail_spaces, lemma_sep_pos_props, lemma_sep_pos_found, lemma_sep_in_subrange,
    lemma_lead_spaces_props, lemma_trim_bounds,
};

verus! {

/// The store keys at or after the normalized form of the query: the keys a
/// search for `q` can reach.
pub open spec fn matching_keys(m: Map<Seq<u8>, Seq<u8>>, q: Seq<char>) -> Set<Seq<u8>> {
    m.dom().filter(|k: Seq<u8>| lex_le(encode_utf8(normal_form(q)), k))
}

/// A scan returns no more entries than the store has keys at or after its
/// starting point.
proof fn lemma_scan_bounded(
    m: Map<Seq<u8>, Seq<u8>>,
    start: Seq<u8>,
    count: int,
    out: Seq<(Seq<u8>, Seq<u8>)>,
)
    requires
        m.dom().finite(),
        scan_from(m, start, count, out),
    ensures
        out.len() <= m.dom().filter(|k: Seq<u8>| lex_le(start, k)).len(),
{
    let eligible = m.dom().filter(|k: Seq<u8>| lex_le(start, k));
    m.dom().lemma_len_filter(|k: Seq<u8>| lex_le(start, k));
    let keys = Seq::new(out.len(), |i: int| out[i].0);
    lemma_scan_keys_distinct(out);
    keys.unique_seq_to_set();
    assert(keys.to_set().subset_of(eligible)) by {
        assert forall|k: Seq<u8>| keys.to_set().contains(k) implies eligible.contains(k) by {
            let i = choose|i: int| 0 <= i < keys.len() && keys[i] == k;
            assert(m.contains_key(out[i].0) && lex_le(start, out[i].0));
        }
    }
    vstd::set_lib::lemma_len_subset(keys.to_set(), eligible);
}

/// Law: a search whose offset lies at or past the number of keys matching
/// the query returns the empty list when it returns at all.
pub proof fn lemma_offset_past_matches(
    m: Map<Seq<u8>, Seq<u8>>,
    q: Seq<char>,
    limit: int,
    offset: int,
    res: Seq<(Seq<char>, Seq<char>)>,
)
    requires
        m.dom().finite(),
        limit > 0,
        offset >= matching_keys(m, q).len(),
        search_post(m, q, limit, offset, res),
    ensures
        res.len() == 0,
{
    let start = encode_utf8(normal_form(q));
    let raw = choose|raw: Seq<(Seq<u8>, Seq<u8>)>|
        #[trigger] scan_from(m, start, offset + limit, raw) && page_of(raw, offset, res);
    lemma_scan_bounded(m, start, offset + limit, raw);
    assert(matching_keys(m, q) =~= m.dom().filter(|k: Seq<u8>| lex_le(start, k)));
}

/// The value `v` is the stored record of some qualifying line of `lines`.
pub open spec fn value_from(lines: Seq<Seq<char>>, v: Seq<u8>) -> bool {
    exists|j: int|
        0 <= j < lines.len() && ((#[trigger] line_entry(lines[j])) matches Some(e) && v
            == encode_utf8(record_of(e.0, e.1)))
}

/// Every value of a freshly built store is the record of one of the
/// build's own qualifying lines.
proof fn lemma_build_values(lines: Seq<Seq<char>>, n: int)
    requires
        0 <= n <= lines.len(),
    ensures
        forall|k: Seq<u8>| #[trigger]
            build_upto(lines, n).0.contains_key(k) ==> value_from(
                lines,
                build_upto(lines, n).0[k],
            ),
    decreases n,
{
    if n > 0 {
        lemma_build_values(lines, n - 1);
        let prev = build_upto(lines, n - 1);
        match line_entry(lines[n - 1]) {
            Some(e) => {
                assert(value_from(lines, encode_utf8(record_of(e.0, e.1)))) by {
                    assert(0 <= n - 1 < lines.len() && ((line_entry(lines[n - 1])) matches Some(
                        ew,
                    ) && encode_utf8(record_of(e.0, e.1)) == encode_utf8(record_of(ew.0, ew.1))));
                }
            },
            Option::None => {},
        }
    }
}

/// The pair `p` is what splitting the stored record of some qualifying
/// line of `lines` gives.
pub open spec fn from_lines(lines: Seq<Seq<char>>, p: (Seq<char>, Seq<char>)) -> bool {
    exists|j: int|
        0 <= j < lines.len() && ((#[trigger] line_entry(lines[j])) matches Some(e) && split_record(
            record_of(e.0, e.1),
        ) == Some(p))
}

/// Law: whatever a search finds in a freshly built store comes from the
/// build's own source lines — each returned pair is the split record of
/// one of its qualifying lines, so nothing of any store the rebuild
/// replaced stays reachable, for any query.
pub proof fn lemma_rebuild_only_new_entries(
    lines: Seq<Seq<char>>,
    q: Seq<char>,
    limit: int,
    offset: int,
    res: Seq<(Seq<char>, Seq<char>)>,
)
    requires
        limit > 0,
        offset >= 0,
        search_post(index_map(lines), q, limit, offset, res),
    ensures
        forall|i: int| 0 <= i < res.len() ==> from_lines(lines, #[trigger] res[i]),
{
    let m = index_map(lines);
    let start = encode_utf8(normal_form(q));
    let raw = choose|raw: Seq<(Seq<u8>, Seq<u8>)>|
        #[trigger] scan_from(m, start, offset + limit, raw) && page_of(raw, offset, res);
    lemma_build_values(lines, lines.len() as int);
    assert forall|i: int| 0 <= i < res.len() implies from_lines(lines, res[i]) by {
        assert(raw.len() >= offset && res.len() == raw.len() - offset);
        assert(0 <= offset + i < raw.len());
        let v = raw[offset + i].1;
        assert(m.contains_key(raw[offset + i].0) && m[raw[offset + i].0] == v);
        assert(value_from(lines, v));
        let j = choose|j: int|
            0 <= j < lines.len() && ((#[trigger] line_entry(lines[j])) matches Some(e) && v
                == encode_utf8(record_of(e.0, e.1)));
        match line_entry(lines[j]) {
            Some(e) => {
                let rec = record_of(e.0, e.1);
                encode_utf8_decode_utf8(rec);
                assert(split_record(rec) == Some(res[i]));
            },
            Option::None => {},
        }
    }
}

/// Two scans of one store from one start with one budget return the same
/// entries: the scan predicate pins its result.
proof fn lemma_scan_unique(
    m: Map<Seq<u8>, Seq<u8>>,
    start: Seq<u8>,
    count: int,
    out1: Seq<(Seq<u8>, Seq<u8>)>,
    out2: Seq<(Seq<u8>, Seq<u8>)>,
)
    requires
        scan_from(m, start, count, out1),
        scan_from(m, start, count, out2),
    ensures
        out1 == out2,
{
    broadcast use vstd::seq_lib::group_seq_lib_default, vstd::set::group_set_axioms;

    assert forall|k: Seq<u8>| key_in(out1, k) implies key_in(out2, k) by {
        lemma_scan_covers(m, start, count, out1, out2, k);
    }
    assert forall|k: Seq<u8>| key_in(out2, k) implies key_in(out1, k) by {
        lemma_scan_covers(m, start, count, out2, out1, k);
    }
    let keys1 = Seq::new(out1.len(), |i: int| out1[i].0);
    let keys2 = Seq::new(out2.len(), |i: int| out2[i].0);
    lemma_scan_keys_distinct(out1);
    lemma_scan_keys_distinct(out2);
    keys1.unique_seq_to_set();
    keys2.unique_seq_to_set();
    assert(keys1.to_set() =~= keys2.to_set()) by {
        assert forall|k: Seq<u8>| keys1.to_set().contains(k) implies keys2.to_set().contains(
            k,
        ) by {
            let i = choose|i: int| 0 <= i < keys1.len() && keys1[i] == k;
            assert(key_in(out1, k));
            let j = choose|j: int| 0 <= j < out2.len() && out2[j].0 == k;
            assert(keys2[j] == k);
        }
        assert forall|k: Seq<u8>| keys2.to_set().contains(k) implies keys1.to_set().contains(
            k,
        ) by {
            let i = choose|i: int| 0 <= i < keys2.len() && keys2[i] == k;
            assert(key_in(out2, k));
            let j = choose|j: int| 0 <= j < out1.len() && out1[j].0 == k;
            assert(keys1[j] == k);
        }
    }
    assert(out1.len() == out2.len());
    lemma_sorted_same_keys(m, start, count, out1, out2, 0);
    assert forall|i: int| 0 <= i < out1.len() implies out1[i] == out2[i] by {
        assert(out1[i].1 == m[out1[i].0] && out2[i].1 == m[out2[i].0]);
    }
    assert(out1 =~= out2);
}

/// A key present in one scan of a store is present in any other scan of
/// the same store with the same start and budget.
proof fn lemma_scan_covers(
    m: Map<Seq<u8>, Seq<u8>>,
    start: Seq<u8>,
    count: int,
    out1: Seq<(Seq<u8>, Seq<u8>)>,
    out2: Seq<(Seq<u8>, Seq<u8>)>,
    k: Seq<u8>,
)
    requires
        scan_from(m, start, count, out1),
        scan_from(m, start, count, out2),
        key_in(out1, k),
    ensures
        key_in(out2, k),
{
    broadcast use vstd::set::group_set_axioms;

    if !key_in(out2, k) {
        let i = choose|i: int| 0 <= i < out1.len() && out1[i].0 == k;
        assert(m.contains_key(k) && lex_le(start, k));
        assert(out2.len() == count && keys_below(out2, k));
        assert forall|j: int| 0 <= j < out2.len() implies key_in(out1, out2[j].0) by {
            if !key_in(out1, out2[j].0) {
                assert(m.contains_key(out2[j].0) && lex_le(start, out2[j].0));
                assert(keys_below(out1, out2[j].0));
                assert(lex_lt(k, out2[j].0));
                assert(lex_lt(out2[j].0, k));
                lemma_lex_transitive(k, out2[j].0, k);
                lemma_lex_irreflexive(k);
            }
        }
        let keys1 = Seq::new(out1.len(), |i: int| out1[i].0);
        let keys2 = Seq::new(out2.len(), |i: int| out2[i].0);
        lemma_scan_keys_distinct(out1);
        lemma_scan_keys_distinct(out2);
        keys1.unique_seq_to_set();
        keys2.unique_seq_to_set();
        assert(keys2.to_set().insert(k).subset_of(keys1.to_set())) by {
            assert forall|x: Seq<u8>| keys2.to_set().insert(k).contains(x) implies keys1.to_set()
                .contains(x) by {
                if x == k {
                    assert(keys1[i] == k);
                } else {
                    let j = choose|j: int| 0 <= j < keys2.len() && keys2[j] == x;
                    assert(key_in(out1, out2[j].0));
                    let a = choose|a: int| 0 <= a < out1.len() && out1[a].0 == x;
                    assert(keys1[a] == x);
                }
            }
        }
        assert(!keys2.to_set().contains(k)) by {
            if keys2.to_set().contains(k) {
                let j = choose|j: int| 0 <= j < keys2.len() && keys2[j] == k;
                assert(out2[j].0 == k);
            }
        }
        vstd::seq_lib::seq_to_set_is_finite(keys2);
        vstd::seq_lib::seq_to_set_is_finite(keys1);
        assert(keys2.to_set().insert(k).len() == count + 1);
        vstd::set_lib::lemma_len_subset(keys2.to_set().insert(k), keys1.to_set());
        assert(keys1.len() <= count);
    }
}

/// The keys of a scan never repeat: they ascend strictly.
proof fn lemma_scan_keys_distinct(out: Seq<(Seq<u8>, Seq<u8>)>)
    requires
        forall|i: int, j: int|
            0 <= i < j < out.len() ==> lex_lt(#[trigger] out[i].0, #[trigger] out[j].0),
    ensures
        Seq::new(out.len(), |i: int| out[i].0).no_duplicates(),
{
    let keys = Seq::new(out.len(), |i: int| out[i].0);
    assert forall|i: int, j: int|
        0 <= i < keys.len() && 0 <= j < keys.len() && i != j implies keys[i] != keys[j] by {
        if i < j {
            if keys[i] == keys[j] {
                assert(lex_lt(out[i].0, out[j].0));
                lemma_lex_irreflexive(out[i].0);
            }
        } else {
            if keys[i] == keys[j] {
                assert(lex_lt(out[j].0, out[i].0));
                lemma_lex_irreflexive(out[j].0);
            }
        }
    }
}

/// Two scans with the same keys, each strictly ascending, agree position
/// by position from `at` on.
proof fn lemma_sorted_same_keys(
    m: Map<Seq<u8>, Seq<u8>>,
    start: Seq<u8>,
    count: int,
    out1: Seq<(Seq<u8>, Seq<u8>)>,
    out2: Seq<(Seq<u8>, Seq<u8>)>,
    at: int,
)
    requires
        scan_from(m, start, count, out1),
        scan_from(m, start, count, out2),
        out1.len() == out2.len(),
        forall|k: Seq<u8>| key_in(out1, k) <==> key_in(out2, k),
        0 <= at <= out1.len(),
        forall|j: int| 0 <= j < at ==> out1[j].0 == out2[j].0,
    ensures
        forall|j: int| 0 <= j < out1.len() ==> out1[j].0 == out2[j].0,
    decreases out1.len() - at,
{
    if at < out1.len() {
        let k1 = out1[at].0;
        let k2 = out2[at].0;
        if k1 != k2 {
            lemma_lex_total(k1, k2);
            lemma_sorted_not_below(out1, out2, at);
            assert forall|j: int| 0 <= j < at implies out2[j].0 == out1[j].0 by {}
            assert forall|x: Seq<u8>| key_in(out2, x) <==> key_in(out1, x) by {}
            lemma_sorted_not_below(out2, out1, at);
        }
        lemma_sorted_same_keys(m, start, count, out1, out2, at + 1);
    }
}

/// In two equally long, strictly ascending scans that agree before `at`
/// and hold the same keys, the key at `at` of the first does not lie below
/// the key at `at` of the second.
proof fn lemma_sorted_not_below(out1: Seq<(Seq<u8>, Seq<u8>)>, out2: Seq<(Seq<u8>, Seq<u8>)>, at: int)
    requires
        forall|i: int, j: int|
            0 <= i < j < out1.len() ==> lex_lt(#[trigger] out1[i].0, #[trigger] out1[j].0),
        forall|i: int, j: int|
            0 <= i < j < out2.len() ==> lex_lt(#[trigger] out2[i].0, #[trigger] out2[j].0),
        out1.len() == out2.len(),
        forall|x: Seq<u8>| key_in(out1, x) <==> key_in(out2, x),
        0 <= at < out1.len(),
        forall|j: int| 0 <= j < at ==> out1[j].0 == out2[j].0,
    ensures
        !lex_lt(out1[at].0, out2[at].0),
{
    let k = out1[at].0;
    if lex_lt(k, out2[at].0) {
        assert(key_in(out1, k));
        assert(key_in(out2, k));
        let j = choose|j: int| 0 <= j < out2.len() && out2[j].0 == k;
        lemma_lex_irreflexive(k);
        if j > at {
            assert(lex_lt(out2[at].0, out2[j].0));
            lemma_lex_transitive(k, out2[at].0, k);
        } else if j < at {
            assert(out1[j].0 == out2[j].0);
            assert(lex_lt(out1[j].0, out1[at].0));
        }
    }
}

/// Law: a search's successful result is pinned — any two results that the
/// search contract admits for one store, query and window are equal.
pub proof fn lemma_search_post_unique(
    m: Map<Seq<u8>, Seq<u8>>,
    q: Seq<char>,
    limit: int,
    offset: int,
    res1: Seq<(Seq<char>, Seq<char>)>,
    res2: Seq<(Seq<char>, Seq<char>)>,
)
    requires
        search_post(m, q, limit, offset, res1),
        search_post(m, q, limit, offset, res2),
    ensures
        res1 == res2,
{
    let start = encode_utf8(normal_form(q));
    let raw1 = choose|raw: Seq<(Seq<u8>, Seq<u8>)>|
        #[trigger] scan_from(m, start, offset + limit, raw) && page_of(raw, offset, res1);
    let raw2 = choose|raw: Seq<(Seq<u8>, Seq<u8>)>|
        #[trigger] scan_from(m, start, offset + limit, raw) && page_of(raw, offset, res2);
    lemma_scan_unique(m, start, offset + limit, raw1, raw2);
    assert(res1.len() == res2.len());
    assert forall|i: int| 0 <= i < res1.len() implies res1[i] == res2[i] by {
        assert(decoded_pair(raw1[offset + i].1, res1[i]));
        assert(decoded_pair(raw2[offset + i].1, res2[i]));
    }
    assert(res1 =~= res2);
}

/// The insertion counter after the first `a` lines.
pub open spec fn count_at(lines: Seq<Seq<char>>, a: int) -> int {
    build_upto(lines, a).1
}

/// Line `a` qualifies as an entry.
pub open spec fn qualifies(lines: Seq<Seq<char>>, a: int) -> bool {
    0 <= a < lines.len() && line_entry(lines[a]) is Some
}

/// The sort key that the build writes for line `a`.
pub open spec fn entry_key(lines: Seq<Seq<char>>, a: int) -> Seq<u8> {
    match line_entry(lines[a]) {
        Some(e) => encode_utf8(index_key(e.0, count_at(lines, a) % 50)),
        Option::None => Seq::empty(),
    }
}

/// The record that the build writes for line `a`.
pub open spec fn entry_record(lines: Seq<Seq<char>>, a: int) -> Seq<u8> {
    match line_entry(lines[a]) {
        Some(e) => encode_utf8(record_of(e.0, e.1)),
        Option::None => Seq::empty(),
    }
}

/// All qualifying lines carry one and the same normalized headword.
pub open spec fn uniform_norms(lines: Seq<Seq<char>>) -> bool {
    forall|a: int, b: int|
        0 <= a < lines.len() && 0 <= b < lines.len() ==> ((#[trigger] line_entry(
            lines[a],
        )) matches Some(ea) ==> ((#[trigger] line_entry(lines[b])) matches Some(eb)
            ==> normal_form(ea.0) == normal_form(eb.0)))
}

/// The headword ends with the two characters space and colon; the stored
/// record of such a headword splits ahead of where it was built.
pub open spec fn head_shifts_sep(h: Seq<char>) -> bool {
    h.len() >= 2 && h[h.len() - 1] == ':' && h[h.len() - 2] == ' '
}

proof fn lemma_count_nonneg(lines: Seq<Seq<char>>, a: int)
    requires
        0 <= a,
    ensures
        count_at(lines, a) >= 0,
    decreases a,
{
    if a > 0 {
        lemma_count_nonneg(lines, a - 1);
    }
}

proof fn lemma_count_monotone(lines: Seq<Seq<char>>, a: int, b: int)
    requires
        0 <= a <= b,
    ensures
        count_at(lines, a) <= count_at(lines, b),
        count_at(lines, a) >= 0,
    decreases b - a,
{
    lemma_count_nonneg(lines, a);
    if a < b {
        lemma_count_monotone(lines, a, b - 1);
    }
}

/// UTF-8 encoding distributes over concatenation.
proof fn lemma_encode_concat(a: Seq<char>, b: Seq<char>)
    ensures
        encode_utf8(a + b) == encode_utf8(a) + encode_utf8(b),
    decreases a.len(),
{
    if a.len() == 0 {
        assert(a + b =~= b);
        assert(encode_utf8(a) + encode_utf8(b) =~= encode_utf8(b));
    } else {
        assert((a + b)[0] == a[0]);
        assert((a + b).drop_first() =~= a.drop_first() + b);
        lemma_encode_concat(a.drop_first(), b);
        assert(vstd::utf8::encode_scalar(a[0] as u32) + (encode_utf8(a.drop_first()) + encode_utf8(
            b,
        )) =~= (vstd::utf8::encode_scalar(a[0] as u32) + encode_utf8(a.drop_first())) + encode_utf8(
            b,
        ));
    }
}

/// UTF-8 encoding tells different texts apart.
proof fn lemma_encode_injective(x: Seq<char>, y: Seq<char>)
    requires
        encode_utf8(x) == encode_utf8(y),
    ensures
        x == y,
{
    encode_utf8_decode_utf8(x);
    encode_utf8_decode_utf8(y);
}

/// Different slots in `[0, 50)` have different digit strings.
proof fn lemma_slot_digits_distinct(c1: int, c2: int)
    requires
        0 <= c1 < 50,
        0 <= c2 < 50,
        c1 != c2,
    ensures
        slot_digits(c1) != slot_digits(c2),
{
    vstd::arithmetic::div_mod::lemma_fundamental_div_mod(c1, 10);
    vstd::arithmetic::div_mod::lemma_fundamental_div_mod(c2, 10);
    if c1 < 10 && c2 < 10 {
        assert(slot_digits(c1)[0] != slot_digits(c2)[0]);
    } else if c1 >= 10 && c2 >= 10 {
        if slot_digits(c1) == slot_digits(c2) {
            assert(slot_digits(c1)[0] == slot_digits(c2)[0]);
            assert(slot_digits(c1)[1] == slot_digits(c2)[1]);
            assert(c1 / 10 == c2 / 10);
            assert(c1 % 10 == c2 % 10);
        }
    } else {
        assert(slot_digits(c1).len() != slot_digits(c2).len());
    }
}

/// A common prefix cancels: texts that agree after the same prefix agree.
proof fn lemma_append_left_cancel(a: Seq<char>, s1: Seq<char>, s2: Seq<char>)
    requires
        a + s1 == a + s2,
    ensures
        s1 == s2,
{
    assert((a + s1).len() == a.len() + s1.len());
    assert((a + s2).len() == a.len() + s2.len());
    assert(s1.len() == s2.len());
    assert forall|i: int| 0 <= i < s1.len() implies s1[i] == s2[i] by {
        assert((a + s1)[a.len() + i] == s1[i]);
        assert((a + s2)[a.len() + i] == s2[i]);
    }
    assert(s1 =~= s2);
}

/// Two distinct qualifying lines of a small uniform build get distinct
/// sort keys: their slots differ, and the keys share the one normalized
/// headword as prefix.
proof fn lemma_entry_keys_distinct(lines: Seq<Seq<char>>, a: int, b: int)
    requires
        uniform_norms(lines),
        entry_count(lines) < 50,
        qualifies(lines, a),
        qualifies(lines, b),
        a < b,
    ensures
        entry_key(lines, a) != entry_key(lines, b),
{
    let ca = count_at(lines, a);
    let cb = count_at(lines, b);
    lemma_count_monotone(lines, a, a);
    assert(count_at(lines, a + 1) == ca + 1);
    lemma_count_monotone(lines, a + 1, b);
    lemma_count_monotone(lines, b, lines.len() as int);
    lemma_count_monotone(lines, a, lines.len() as int);
    assert(0 <= ca < cb < 50);
    assert(ca % 50 == ca && cb % 50 == cb) by {
        vstd::arithmetic::div_mod::lemma_small_mod(ca as nat, 50);
        vstd::arithmetic::div_mod::lemma_small_mod(cb as nat, 50);
    }
    match line_entry(lines[a]) {
        Some(ea) => match line_entry(lines[b]) {
            Some(eb) => {
                let norm = normal_form(ea.0);
                assert(normal_form(eb.0) == norm);
                lemma_slot_digits_distinct(ca, cb);
                if index_key(ea.0, ca) == index_key(eb.0, cb) {
                    lemma_append_left_cancel(norm, slot_digits(ca), slot_digits(cb));
                }
                if entry_key(lines, a) == entry_key(lines, b) {
                    lemma_encode_injective(index_key(ea.0, ca), index_key(eb.0, cb));
                }
            },
            Option::None => {},
        },
        Option::None => {},
    }
}

/// What a small uniform build puts in the store: one entry per qualifying
/// line, each under its own key, nothing else.
proof fn lemma_uniform_build(lines: Seq<Seq<char>>, n: int)
    requires
        0 <= n <= lines.len(),
        uniform_norms(lines),
        entry_count(lines) < 50,
    ensures
        build_upto(lines, n).0.dom().finite(),
        build_upto(lines, n).0.dom().len() == count_at(lines, n),
        forall|k: Seq<u8>| #[trigger]
            build_upto(lines, n).0.contains_key(k) ==> exists|a: int|
                #[trigger] qualifies(lines, a) && a < n && entry_key(lines, a) == k,
        forall|a: int|
            #[trigger] qualifies(lines, a) && a < n ==> build_upto(lines, n).0.contains_key(
                entry_key(lines, a),
            ) && build_upto(lines, n).0[entry_key(lines, a)] == entry_record(lines, a),
    decreases n,
{
    broadcast use vstd::set::group_set_axioms;

    if n == 0 {
        assert(build_upto(lines, 0).0.dom() =~= Set::<Seq<u8>>::empty());
    } else {
        lemma_uniform_build(lines, n - 1);
        let prev = build_upto(lines, n - 1);
        let cur = build_upto(lines, n);
        match line_entry(lines[n - 1]) {
            Some(e) => {
                assert(qualifies(lines, n - 1));
                let key = entry_key(lines, n - 1);
                let rec = entry_record(lines, n - 1);
                assert(cur.0 == prev.0.insert(key, rec));
                assert(cur.1 == prev.1 + 1);
                assert(!prev.0.contains_key(key)) by {
                    if prev.0.contains_key(key) {
                        let a = choose|a: int|
                            #[trigger] qualifies(lines, a) && a < n - 1 && entry_key(lines, a)
                                == key;
                        lemma_entry_keys_distinct(lines, a, n - 1);
                    }
                }
                assert(cur.0.dom() =~= prev.0.dom().insert(key));
                assert(cur.0.dom().len() == prev.0.dom().len() + 1);
                assert forall|a: int| #[trigger]
                    qualifies(lines, a) && a < n implies cur.0.contains_key(entry_key(lines, a))
                    && cur.0[entry_key(lines, a)] == entry_record(lines, a) by {
                    if a == n - 1 {
                    } else {
                        lemma_entry_keys_distinct(lines, a, n - 1);
                    }
                }
            },
            Option::None => {
                assert(cur == prev);
                assert forall|k: Seq<u8>| #[trigger]
                    cur.0.contains_key(k) implies exists|a: int|
                    #[trigger] qualifies(lines, a) && a < n && entry_key(lines, a) == k by {
                    let a = choose|a: int|
                        #[trigger] qualifies(lines, a) && a < n - 1 && entry_key(lines, a) == k;
                    assert(qualifies(lines, a) && a < n && entry_key(lines, a) == k);
                }
            },
        }
    }
}

/// The parsed headword of a qualifying line holds no separator: the line
/// splits at its first occurrence, and what the marker strip and the trim
/// leave is a window of what stood before it.
proof fn lemma_entry_head_sep_free(l: Seq<char>, h: Seq<char>, t: Seq<char>)
    requires
        line_entry(l) == Some((h, t)),
    ensures
        forall|i: int| !has_sep_at(h, i),
{
    let p = sep_pos(l);
    lemma_sep_pos_props(l);
    let cut = l.take(p);
    assert(cut =~= l.subrange(0, p));
    assert forall|i: int| !has_sep_at(cut, i) by {
        if has_sep_at(cut, i) {
            lemma_sep_in_subrange(l, 0, p, i);
        }
    }
    let mr = marker_run(cut);
    lemma_marker_run_bounds(cut);
    let sm = strip_marker(cut);
    assert(sm =~= cut.subrange(mr, cut.len() as int));
    assert forall|i: int| !has_sep_at(sm, i) by {
        if has_sep_at(sm, i) {
            lemma_sep_in_subrange(cut, mr, cut.len() as int, i);
        }
    }
    let ls = lead_spaces(sm);
    lemma_lead_spaces_props(sm);
    assert(h == trim_spec(sm));
    if ls == sm.len() {
        assert(h.len() == 0);
    } else {
        lemma_trim_bounds(sm);
        crate::parse::lemma_trail_spaces_props(sm);
        let ts = trail_spaces(sm);
        assert(h == sm.subrange(ls, sm.len() - ts));
        assert forall|i: int| !has_sep_at(h, i) by {
            if has_sep_at(h, i) {
                lemma_sep_in_subrange(sm, ls, sm.len() - ts, i);
            }
        }
    }
}

/// The leading marker run is no longer than the string.
proof fn lemma_marker_run_bounds(s: Seq<char>)
    ensures
        0 <= marker_run(s) <= s.len(),
    decreases s.len(),
{
    if s.len() > 0 && s[0] == '■' {
        lemma_marker_run_bounds(s.skip(1));
    }
}

/// Splitting the stored record of an entry gives the entry back, as long
/// as the headword holds no separator and does not end with space and
/// colon.
pub proof fn lemma_split_record_of(h: Seq<char>, t: Seq<char>)
    requires
        forall|i: int| !has_sep_at(h, i),
        !head_shifts_sep(h),
    ensures
        split_record(record_of(h, t)) == Some((h, t)),
{
    let r = record_of(h, t);
    let hl = h.len() as int;
    assert(r[hl] == ' ' && r[hl + 1] == ':' && r[hl + 2] == ' ');
    assert(has_sep_at(r, hl));
    assert forall|jj: int| 0 <= jj < hl implies !has_sep_at(r, jj) by {
        if has_sep_at(r, jj) {
            if jj + 3 <= hl {
                assert(r[jj] == h[jj] && r[jj + 1] == h[jj + 1] && r[jj + 2] == h[jj + 2]);
                assert(has_sep_at(h, jj));
            } else if jj == hl - 1 {
                assert(r[jj + 1] == ' ');
            } else {
                assert(jj == hl - 2);
                assert(r[jj] == h[hl - 2] && r[jj + 1] == h[hl - 1]);
                assert(head_shifts_sep(h));
            }
        }
    }
    lemma_sep_pos_found(r, hl);
    assert(r.take(hl) =~= h);
    assert(r.skip(hl + 3) =~= t);
}

/// Law: in a store freshly built from fewer than fifty qualifying lines
/// that all share one normalized headword, every entry stays reachable: a
/// search for an entry's own headword from the top, with room for fifty
/// results, returns that entry's exact pair. The slots of fewer than fifty
/// insertions never collide. (A headword ending in space and colon is left
/// out: its stored record splits ahead of where it was built.)
pub proof fn lemma_small_build_all_retrievable(
    lines: Seq<Seq<char>>,
    j: int,
    h: Seq<char>,
    t: Seq<char>,
    limit: int,
    res: Seq<(Seq<char>, Seq<char>)>,
)
    requires
        uniform_norms(lines),
        entry_count(lines) < 50,
        0 <= j < lines.len(),
        line_entry(lines[j]) == Some((h, t)),
        !head_shifts_sep(h),
        limit >= 50,
        search_post(index_map(lines), h, limit, 0, res),
    ensures
        exists|i: int| 0 <= i < res.len() && #[trigger] res[i] == (h, t),
{
    let m = index_map(lines);
    lemma_uniform_build(lines, lines.len() as int);
    let start = encode_utf8(normal_form(h));
    let raw = choose|raw: Seq<(Seq<u8>, Seq<u8>)>|
        #[trigger] scan_from(m, start, 0 + limit, raw) && page_of(raw, 0, res);
    assert(qualifies(lines, j));
    let key = entry_key(lines, j);
    assert(m.contains_key(key) && m[key] == entry_record(lines, j));
    let cj = count_at(lines, j);
    lemma_count_monotone(lines, j, lines.len() as int);
    assert(0 <= cj < 50);
    vstd::arithmetic::div_mod::lemma_small_mod(cj as nat, 50);
    assert(key == encode_utf8(index_key(h, cj)));
    assert(lex_le(start, key)) by {
        lemma_encode_concat(normal_form(h), slot_digits(cj));
        lemma_lex_prefix_le(start, encode_utf8(slot_digits(cj)));
    }
    assert(key_in(raw, key)) by {
        if !key_in(raw, key) {
            assert(raw.len() == 0 + limit);
            lemma_scan_bounded(m, start, 0 + limit, raw);
            m.dom().lemma_len_filter(|k: Seq<u8>| lex_le(start, k));
        }
    }
    let i = choose|i: int| 0 <= i < raw.len() && raw[i].0 == key;
    assert(raw[i].1 == m[key]);
    assert(res.len() == raw.len());
    assert(decoded_pair(raw[i].1, res[i]));
    let rec = record_of(h, t);
    assert(entry_record(lines, j) == encode_utf8(rec));
    encode_utf8_decode_utf8(rec);
    assert(split_record(rec) == Some(res[i]));
    lemma_entry_head_sep_free(lines[j], h, t);
    lemma_split_record_of(h, t);
    assert(res[i] == (h, t));
}

} // verus!
