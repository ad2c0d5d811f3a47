//! The dictionary index: an ordered key-value store holding one record per
//! dictionary entry.
//!
//! The sort key of an entry is the normalized headword followed by the
//! decimal digits of a slot in `[0, 50)` drawn from a build-scoped
//! insertion counter (`counter mod 50`); the stored value is the original
//! headword, the separator `" : "`, and the translation. Search normalizes
//! the query, range-scans ascending from the first key at or after it,
//! skips `offset` records and decodes up to `limit` of what remains.

use vstd::prelude::*;
use vstd::utf8::{encode_utf8, decode_utf8, valid_utf8};

use crate::norm::{normalize, normal_form, string_of_chars};
use crate::order::{lex_lt, lex_le};
use crate::parse::{line_entry, parse_line, split_entry, split_record};

verus! {

/// What can go wrong against the store: a backend I/O failure with its
/// context, or a stored record that does not decode as an entry.
#[derive(Debug)]
pub enum Error {
    Io(String),
    Corrupt,
}

impl Error {
    /// A short description, suitable for reporting at the command boundary.
    pub fn message(&self) -> (r: String)
        ensures
            self matches Error::Io(m) ==> r@ == m@,
            self is Corrupt ==> r@ == "index is corrupt: a stored record is not a valid entry"@,
    {
        match self {
            Error::Io(m) => m.clone(),
            Error::Corrupt => String::from_str("index is corrupt: a stored record is not a valid entry"),
        }
    }
}

/// Holds the backing ordered key-value store, opaque to verification; what
/// it maps is named by `store_view`.
#[verifier::external_body]
pub struct StoreHandle {
    store: sled::Db,
}

/// What the backing store holds: an ordered mapping from byte-string keys
/// to byte-string values, kept in ascending lexicographic byte order. The
/// trusted store operations below state their effect over this name.
pub uninterp spec fn store_view(h: StoreHandle) -> Map<Seq<u8>, Seq<u8>>;

/// The empty store contents.
pub open spec fn no_entries() -> Map<Seq<u8>, Seq<u8>> {
    Map::empty()
}

/// The dictionary store; its abstract contents are the map `self@`.
pub struct Db {
    handle: StoreHandle,
}

impl View for Db {
    type V = Map<Seq<u8>, Seq<u8>>;

    closed spec fn view(&self) -> Map<Seq<u8>, Seq<u8>> {
        store_view(self.handle)
    }
}

/// The views of a vector of byte-string pairs.
pub open spec fn pairs_view(s: Seq<(Vec<u8>, Vec<u8>)>) -> Seq<(Seq<u8>, Seq<u8>)> {
    Seq::new(s.len(), |i: int| (s[i].0@, s[i].1@))
}

/// Some entry of `out` has key `k`.
pub open spec fn key_in(out: Seq<(Seq<u8>, Seq<u8>)>, k: Seq<u8>) -> bool {
    exists|i: int| 0 <= i < out.len() && out[i].0 == k
}

/// Every key of `out` is strictly below `k`.
pub open spec fn keys_below(out: Seq<(Seq<u8>, Seq<u8>)>, k: Seq<u8>) -> bool {
    forall|i: int| 0 <= i < out.len() ==> lex_lt(#[trigger] out[i].0, k)
}

/// `out` is the first part, in ascending key order and at most `count`
/// long, of the entries of `m` whose key is at or after `start`: its pairs
/// are entries of `m` with keys at or after `start`, its keys ascend
/// strictly, and an eligible key can be missing from it only when `out` is
/// full and the key lies beyond everything in it.
pub open spec fn scan_from(
    m: Map<Seq<u8>, Seq<u8>>,
    start: Seq<u8>,
    count: int,
    out: Seq<(Seq<u8>, Seq<u8>)>,
) -> bool {
    &&& out.len() <= count
    &&& forall|i: int|
        0 <= i < out.len() ==> {
            &&& m.contains_key(#[trigger] out[i].0)
            &&& m[out[i].0] == out[i].1
            &&& lex_le(start, out[i].0)
        }
    &&& forall|i: int, j: int| 0 <= i < j < out.len() ==> lex_lt(#[trigger] out[i].0, #[trigger] out[j].0)
    &&& forall|k: Seq<u8>|
        #[trigger] m.contains_key(k) && lex_le(start, k) && !key_in(out, k) ==> out.len() == count
            && keys_below(out, k)
}

impl Db {
    /// Relies on `sled::open`: opens the store at `path`, creating it when
    /// absent; its failure is an I/O error. Nothing is known of the
    /// contents recovered from disk.
    #[verifier::external_body]
    pub fn open(path: &str) -> (r: Result<Db, Error>)
        ensures
            r matches Err(e) ==> e is Io,
    {
        match sled::open(path) {
            Ok(store) => Ok(Db { handle: StoreHandle { store } }),
            Err(e) => Err(Error::Io(e.to_string())),
        }
    }

    /// Relies on `sled::Tree::is_empty`, which looks for a first entry: a
    /// true answer means the store holds nothing. A false answer is either
    /// a first entry or a failed backend read, so it decides nothing.
    #[verifier::external_body]
    pub fn is_empty(&self) -> (r: bool)
        ensures
            r ==> self@.dom().is_empty(),
    {
        self.handle.store.is_empty()
    }

    /// Relies on `sled::Tree::clear`: removes every entry. The removal is
    /// not atomic, so nothing is known of what remains on failure.
    #[verifier::external_body]
    fn clear(&mut self) -> (r: Result<(), Error>)
        ensures
            r is Ok ==> store_view(final(self).handle) == no_entries(),
            r matches Err(e) ==> e is Io,
    {
        match self.handle.store.clear() {
            Ok(()) => Ok(()),
            Err(e) => Err(Error::Io(e.to_string())),
        }
    }

    /// Relies on `sled::Tree::apply_batch`: applies the writes as one
    /// atomic batch; a later write to the same key replaces an earlier one.
    #[verifier::external_body]
    fn apply_batch(&mut self, entries: &Vec<(Vec<u8>, Vec<u8>)>) -> (r: Result<(), Error>)
        ensures
            r is Ok ==> store_view(final(self).handle) == insert_all(store_view(old(self).handle), pairs_view(entries@)),
            r matches Err(e) ==> e is Io,
    {
        let mut batch = sled::Batch::default();
        for (k, v) in entries.iter() {
            batch.insert(k.as_slice(), v.as_slice());
        }
        match self.handle.store.apply_batch(batch) {
            Ok(()) => Ok(()),
            Err(e) => Err(Error::Io(e.to_string())),
        }
    }

    /// Relies on `sled::Tree::flush`: forces a durable sync of what was
    /// written; the contents are not changed, and its failure is an I/O
    /// error.
    #[verifier::external_body]
    fn flush(&mut self) -> (r: Result<(), Error>)
        ensures
            r is Ok ==> store_view(final(self).handle) == store_view(old(self).handle),
            r matches Err(e) ==> e is Io,
    {
        match self.handle.store.flush() {
            Ok(_) => Ok(()),
            Err(e) => Err(Error::Io(e.to_string())),
        }
    }

    /// Relies on `sled::Tree::range` over `start..`: an ascending scan, in
    /// lexicographic byte order, of the entries whose key is at or after
    /// `start`; the first `count` of them are returned. The scan's own
    /// failure is a store I/O error.
    #[verifier::external_body]
    fn fetch_from(&self, start: &Vec<u8>, count: usize) -> (r: Result<
        Vec<(Vec<u8>, Vec<u8>)>,
        Error,
    >)
        ensures
            r matches Ok(v) ==> scan_from(store_view(self.handle), start@, count as int, pairs_view(v@)),
            r matches Err(e) ==> e is Io,
    {
        let mut out = Vec::new();
        for item in self.handle.store.range(start.as_slice()..).take(count) {
            match item {
                Ok((k, v)) => out.push((k.to_vec(), v.to_vec())),
                Err(e) => return Err(Error::Io(e.to_string())),
            }
        }
        Ok(out)
    }
}

/// The map after writing the given pairs into `m` in order.
pub open spec fn insert_all(m: Map<Seq<u8>, Seq<u8>>, s: Seq<(Seq<u8>, Seq<u8>)>) -> Map<
    Seq<u8>,
    Seq<u8>,
>
    decreases s.len(),
{
    if s.len() == 0 {
        m
    } else {
        insert_all(m.insert(s[0].0, s[0].1), s.skip(1))
    }
}

pub proof fn lemma_insert_all_push(
    m: Map<Seq<u8>, Seq<u8>>,
    s: Seq<(Seq<u8>, Seq<u8>)>,
    p: (Seq<u8>, Seq<u8>),
)
    ensures
        insert_all(m, s.push(p)) == insert_all(m, s).insert(p.0, p.1),
    decreases s.len(),
{
    let e = s.push(p);
    if s.len() == 0 {
        assert(e[0] == p);
        assert(e.skip(1) =~= Seq::<(Seq<u8>, Seq<u8>)>::empty());
        assert(insert_all(m, e) == insert_all(m.insert(p.0, p.1), e.skip(1)));
        assert(insert_all(m.insert(p.0, p.1), e.skip(1)) == m.insert(p.0, p.1));
        assert(insert_all(m, s) == m);
    } else {
        assert(e[0] == s[0]);
        assert(e.skip(1) =~= s.skip(1).push(p));
        let m1 = m.insert(s[0].0, s[0].1);
        lemma_insert_all_push(m1, s.skip(1), p);
        assert(insert_all(m, e) == insert_all(m1, e.skip(1)));
        assert(insert_all(m, s) == insert_all(m1, s.skip(1)));
    }
}

/// The decimal digit character of `d`.
pub open spec fn digit_char(d: int) -> char {
    ((48 + d) as u8) as char
}

/// The decimal digits of a slot number in `[0, 50)`.
pub open spec fn slot_digits(n: int) -> Seq<char> {
    if n < 10 {
        seq![digit_char(n)]
    } else {
        seq![digit_char(n / 10), digit_char(n % 10)]
    }
}

/// The sort key of an entry: normalized headword, then slot digits.
pub open spec fn index_key(h: Seq<char>, slot: int) -> Seq<char> {
    normal_form(h) + slot_digits(slot)
}

/// The stored record of an entry: original headword, separator,
/// translation.
pub open spec fn record_of(h: Seq<char>, t: Seq<char>) -> Seq<char> {
    h + seq![' ', ':', ' '] + t
}

/// One build step: a qualifying line writes its record under its key and
/// advances the insertion counter; any other line changes nothing.
pub open spec fn build_step(m: Map<Seq<u8>, Seq<u8>>, c: int, l: Seq<char>) -> (
    Map<Seq<u8>, Seq<u8>>,
    int,
) {
    match line_entry(l) {
        Some(e) => (
            m.insert(encode_utf8(index_key(e.0, c % 50)), encode_utf8(record_of(e.0, e.1))),
            c + 1,
        ),
        Option::None => (m, c),
    }
}

/// The store contents and insertion counter after the first `i` lines.
pub open spec fn build_upto(lines: Seq<Seq<char>>, i: int) -> (Map<Seq<u8>, Seq<u8>>, int)
    decreases i,
{
    if i <= 0 {
        (Map::empty(), 0)
    } else {
        let prev = build_upto(lines, i - 1);
        build_step(prev.0, prev.1, lines[i - 1])
    }
}

/// The contents of a store freshly built from the given lines.
pub open spec fn index_map(lines: Seq<Seq<char>>) -> Map<Seq<u8>, Seq<u8>> {
    build_upto(lines, lines.len() as int).0
}

/// How many lines of the source qualify as entries.
pub open spec fn entry_count(lines: Seq<Seq<char>>) -> int {
    build_upto(lines, lines.len() as int).1
}

/// The decimal digits of a slot in `[0, 50)`.
fn slot_string(n: usize) -> (r: String)
    requires
        n < 50,
    ensures
        r@ == slot_digits(n as int),
{
    let mut v: Vec<char> = Vec::new();
    if n < 10 {
        v.push((48 + n as u8) as char);
        proof {
            assert(v@ =~= slot_digits(n as int));
        }
    } else {
        v.push((48 + (n / 10) as u8) as char);
        v.push((48 + (n % 10) as u8) as char);
        proof {
            assert(v@ =~= slot_digits(n as int));
        }
    }
    string_of_chars(&v)
}

/// The stored record of an entry.
fn make_record(h: &str, t: &str) -> (r: String)
    ensures
        r@ == record_of(h@, t@),
{
    let mut r = h.to_owned();
    r.append(" : ");
    r.append(t);
    proof {
        reveal_strlit(" : ");
        assert(" : "@ =~= seq![' ', ':', ' ']);
        assert(r@ =~= record_of(h@, t@));
    }
    r
}

/// The store contents and counter after continuing the build from contents
/// `m` and counter `c` over the lines from index `from` up to `to`.
pub open spec fn build_span(
    m: Map<Seq<u8>, Seq<u8>>,
    c: int,
    lines: Seq<Seq<char>>,
    from: int,
    to: int,
) -> (Map<Seq<u8>, Seq<u8>>, int)
    decreases to - from,
{
    if to <= from {
        (m, c)
    } else {
        let prev = build_span(m, c, lines, from, to - 1);
        build_step(prev.0, prev.1, lines[to - 1])
    }
}

/// Continuing a build from where the first `from` lines left it covers the
/// same ground as building the first `to` lines outright.
pub proof fn lemma_build_span_extends(lines: Seq<Seq<char>>, from: int, to: int)
    requires
        0 <= from <= to,
    ensures
        build_span(build_upto(lines, from).0, build_upto(lines, from).1, lines, from, to).0
            == build_upto(lines, to).0,
        build_span(build_upto(lines, from).0, build_upto(lines, from).1, lines, from, to).1
            == build_upto(lines, to).1,
    decreases to - from,
{
    if to > from {
        lemma_build_span_extends(lines, from, to - 1);
    }
}

impl Db {
    /// One reporting stride of the build: starting at line `from` with
    /// `count` entries already written, parses and batches qualifying lines
    /// until a batch of ten thousand entries is applied to the store or the
    /// lines run out; when the lines run out the final partial batch is
    /// applied and a durable sync issued. Returns the index of the next
    /// unprocessed line and the new count, so a driver can report progress
    /// after every batch flush. Failures are the store's I/O errors.
    pub fn index_span(&mut self, lines: &Vec<String>, from: usize, count: usize) -> (r: Result<
        (usize, usize),
        Error,
    >)
        requires
            from <= lines@.len(),
            count + (lines@.len() - from) <= usize::MAX,
        ensures
            r matches Ok(p) ==> {
                &&& from <= p.0 <= lines@.len()
                &&& from < lines@.len() ==> p.0 > from
                &&& count <= p.1 && p.1 - count <= p.0 - from
                &&& final(self)@ == build_span(
                    old(self)@,
                    count as int,
                    lines.deep_view(),
                    from as int,
                    p.0 as int,
                ).0
                &&& p.1 == build_span(
                    old(self)@,
                    count as int,
                    lines.deep_view(),
                    from as int,
                    p.0 as int,
                ).1
                &&& p.0 < lines@.len() ==> p.1 % 10000 == 0 && p.1 > count
            },
            r matches Err(e) ==> e is Io,
    {
        let ghost lv = lines.deep_view();
        let ghost m0 = old(self)@;
        let mut i: usize = from;
        let mut c: usize = count;
        let mut batch: Vec<(Vec<u8>, Vec<u8>)> = Vec::new();
        while i < lines.len()
            invariant
                lv == lines.deep_view(),
                m0 == old(self)@,
                lines@.len() == lv.len(),
                forall|j: int| 0 <= j < lv.len() ==> lv[j] == lines@[j]@,
                from <= i <= lv.len(),
                count <= c && c - count <= i - from,
                count + (lv.len() - from) <= usize::MAX,
                c == build_span(m0, count as int, lv, from as int, i as int).1,
                insert_all(self@, pairs_view(batch@)) == build_span(
                    m0,
                    count as int,
                    lv,
                    from as int,
                    i as int,
                ).0,
            decreases lv.len() - i,
        {
            let line = &lines[i];
            let ghost prev = build_span(m0, count as int, lv, from as int, i as int);
            match parse_line(line.as_str()) {
                Some((h, t)) => {
                    let mut key = normalize(h.as_str());
                    let slot = slot_string(c % 50);
                    key.append(slot.as_str());
                    let rec = make_record(h.as_str(), t.as_str());
                    let kb = key.as_str().as_bytes_vec();
                    let vb = rec.as_str().as_bytes_vec();
                    proof {
                        assert(key@ == index_key(h@, (c % 50) as int));
                        assert(kb@ == encode_utf8(index_key(h@, c as int % 50)));
                        assert(vb@ == encode_utf8(record_of(h@, t@)));
                        assert(pairs_view(batch@.push((kb, vb))) =~= pairs_view(batch@).push(
                            (kb@, vb@),
                        ));
                        lemma_insert_all_push(self@, pairs_view(batch@), (kb@, vb@));
                    }
                    batch.push((kb, vb));
                    c = c + 1;
                    proof {
                        assert(build_span(m0, count as int, lv, from as int, i + 1)
                            == build_step(prev.0, prev.1, lv[i as int]));
                    }
                    if c % 10000 == 0 {
                        match self.apply_batch(&batch) {
                            Ok(()) => (),
                            Err(e) => {
                                return Err(e);
                            },
                        }
                        proof {
                            assert(self@ == build_span(m0, count as int, lv, from as int, i + 1).0);
                            assert(c == build_span(m0, count as int, lv, from as int, i + 1).1);
                        }
                        if i + 1 == lines.len() {
                            match self.flush() {
                                Ok(()) => (),
                                Err(e) => {
                                    return Err(e);
                                },
                            }
                        }
                        return Ok((i + 1, c));
                    }
                },
                Option::None => {
                    proof {
                        assert(build_span(m0, count as int, lv, from as int, i + 1)
                            == build_step(prev.0, prev.1, lv[i as int]));
                    }
                },
            }
            i = i + 1;
        }
        match self.apply_batch(&batch) {
            Ok(()) => (),
            Err(e) => {
                return Err(e);
            },
        }
        match self.flush() {
            Ok(()) => (),
            Err(e) => {
                return Err(e);
            },
        }
        Ok((i, c))
    }

    /// Builds the index anew from the decoded source lines: any entries the
    /// store held before are discarded, every qualifying line is written
    /// under its index key in order, and the count of qualifying lines is
    /// returned beside the store. Writes go in batches of ten thousand
    /// (each stride of `index_span` one batch), with a durable sync at the
    /// end.
    pub fn init(db_path: &str, lines: &Vec<String>) -> (r: Result<(Db, usize), Error>)
        ensures
            r matches Ok(p) ==> {
                &&& p.0@ == index_map(lines.deep_view())
                &&& p.1 == entry_count(lines.deep_view())
            },
            r matches Err(e) ==> e is Io,
    {
        let ghost lv = lines.deep_view();
        let mut db = Db::open(db_path)?;
        match db.clear() {
            Ok(()) => (),
            Err(e) => {
                return Err(e);
            },
        }
        let mut at: usize = 0;
        let mut count: usize = 0;
        while at < lines.len()
            invariant
                lv == lines.deep_view(),
                lines@.len() == lv.len(),
                0 <= at <= lv.len(),
                count <= at,
                count == build_upto(lv, at as int).1,
                db@ == build_upto(lv, at as int).0,
            decreases lv.len() - at,
        {
            match db.index_span(lines, at, count) {
                Ok((next, c)) => {
                    proof {
                        lemma_build_span_extends(lv, at as int, next as int);
                    }
                    at = next;
                    count = c;
                },
                Err(e) => {
                    return Err(e);
                },
            }
        }
        if lines.len() == 0 {
            match db.flush() {
                Ok(()) => (),
                Err(e) => {
                    return Err(e);
                },
            }
        }
        Ok((db, count))
    }
}

/// Relies on `String::from_utf8`: succeeds exactly on valid UTF-8, giving
/// the characters those bytes encode.
#[verifier::external_body]
fn bytes_to_string(b: &Vec<u8>) -> (r: Option<String>)
    ensures
        r matches Some(s) ==> encode_utf8(s@) == b@,
        r is None ==> !valid_utf8(b@),
{
    match String::from_utf8(b.clone()) {
        Ok(s) => Some(s),
        Err(_) => Option::None,
    }
}

/// The stored value decodes as text and splits at the first separator into
/// the given pair.
pub open spec fn decoded_pair(b: Seq<u8>, p: (Seq<char>, Seq<char>)) -> bool {
    &&& valid_utf8(b)
    &&& split_record(decode_utf8(b)) == Some(p)
}

/// The stored value is not a valid entry: not UTF-8 text, or text without
/// the separator.
pub open spec fn corrupt_value(b: Seq<u8>) -> bool {
    !valid_utf8(b) || split_record(decode_utf8(b)) is None
}

/// Some record that a search for `q` with the given window reaches — a
/// scanned entry at or past the offset — is not a valid entry.
pub open spec fn corrupt_in_scan(
    m: Map<Seq<u8>, Seq<u8>>,
    q: Seq<char>,
    limit: int,
    offset: int,
) -> bool {
    exists|raw: Seq<(Seq<u8>, Seq<u8>)>, i: int|
        #![trigger scan_from(m, encode_utf8(normal_form(q)), offset + limit, raw), raw[i].1]
        {
            &&& scan_from(m, encode_utf8(normal_form(q)), offset + limit, raw)
            &&& offset <= i < raw.len()
            &&& corrupt_value(raw[i].1)
        }
}

/// `res` is the page at `offset` of the scanned entries `raw`: what is
/// left of `raw` after the first `offset` entries, each stored value
/// decoded and split into a displayed pair.
pub open spec fn page_of(
    raw: Seq<(Seq<u8>, Seq<u8>)>,
    offset: int,
    res: Seq<(Seq<char>, Seq<char>)>,
) -> bool {
    &&& res.len() == if raw.len() >= offset {
        raw.len() - offset
    } else {
        0
    }
    &&& forall|i: int| 0 <= i < res.len() ==> decoded_pair(raw[offset + i].1, #[trigger] res[i])
}

/// What a successful search returns: for some scan prefix of the store
/// from the normalized query — at most `offset + limit` entries long — the
/// result is its page at `offset`.
pub open spec fn search_post(
    m: Map<Seq<u8>, Seq<u8>>,
    q: Seq<char>,
    limit: int,
    offset: int,
    res: Seq<(Seq<char>, Seq<char>)>,
) -> bool {
    exists|raw: Seq<(Seq<u8>, Seq<u8>)>|
        #[trigger] scan_from(m, encode_utf8(normal_form(q)), offset + limit, raw) && page_of(
            raw,
            offset,
            res,
        )
}

/// The views of a vector of string pairs.
pub open spec fn str_pairs_view(s: Seq<(String, String)>) -> Seq<(Seq<char>, Seq<char>)> {
    Seq::new(s.len(), |i: int| (s[i].0@, s[i].1@))
}

impl Db {
    /// Prefix search: normalizes the query, scans the store ascending from
    /// the first key at or after the normalized query, skips the first
    /// `offset` records and decodes up to `lines` of what remains, in key
    /// order. A record that is not valid text or lacks the separator is
    /// index corruption and fails the whole call. A `lines` of zero asks
    /// for nothing and always succeeds with an empty list.
    pub fn search(&self, query: &str, lines: usize, offset: usize) -> (r: Result<
        Vec<(String, String)>,
        Error,
    >)
        requires
            offset + lines <= usize::MAX,
        ensures
            lines == 0 ==> (r matches Ok(res) && res@.len() == 0),
            lines > 0 ==> (r matches Ok(res) ==> search_post(
                self@,
                query@,
                lines as int,
                offset as int,
                str_pairs_view(res@),
            )),
            r matches Err(e) ==> (e is Corrupt ==> corrupt_in_scan(
                self@,
                query@,
                lines as int,
                offset as int,
            )),
    {
        if lines == 0 {
            let empty: Vec<(String, String)> = Vec::new();
            return Ok(empty);
        }
        let q = normalize(query);
        let qb = q.as_str().as_bytes_vec();
        let raw = match self.fetch_from(&qb, offset + lines) {
            Ok(v) => v,
            Err(e) => {
                return Err(e);
            },
        };
        let ghost rawv = pairs_view(raw@);
        let mut res: Vec<(String, String)> = Vec::new();
        let mut i: usize = offset;
        if raw.len() > offset {
            while i < raw.len()
                invariant
                    lines > 0,
                    rawv == pairs_view(raw@),
                    scan_from(self@, encode_utf8(normal_form(query@)), offset + lines, rawv),
                    offset <= i <= raw.len(),
                    raw.len() > offset,
                    res@.len() == i - offset,
                    forall|j: int|
                        0 <= j < res@.len() ==> decoded_pair(
                            rawv[offset + j].1,
                            (#[trigger] res@[j].0@, res@[j].1@),
                        ),
                decreases raw.len() - i,
            {
                let value = &raw[i].1;
                let text = match bytes_to_string(value) {
                    Some(t) => t,
                    Option::None => {
                        proof {
                            assert(corrupt_value(rawv[i as int].1));
                            assert(corrupt_in_scan(self@, query@, lines as int, offset as int));
                        }
                        return Err(Error::Corrupt);
                    },
                };
                let pair = match split_entry(text.as_str()) {
                    Some(p) => p,
                    Option::None => {
                        proof {
                            vstd::utf8::encode_utf8_valid_utf8(text@);
                            vstd::utf8::encode_utf8_decode_utf8(text@);
                            assert(decode_utf8(rawv[i as int].1) == text@);
                            assert(corrupt_value(rawv[i as int].1));
                            assert(corrupt_in_scan(self@, query@, lines as int, offset as int));
                        }
                        return Err(Error::Corrupt);
                    },
                };
                proof {
                    vstd::utf8::encode_utf8_valid_utf8(text@);
                    vstd::utf8::encode_utf8_decode_utf8(text@);
                    assert(valid_utf8(rawv[i as int].1));
                    assert(decode_utf8(rawv[i as int].1) == text@);
                }
                res.push(pair);
                i = i + 1;
            }
        }
        proof {
            assert(scan_from(self@, qb@, offset + lines, rawv));
            assert(qb@ == encode_utf8(normal_form(query@)));
            assert(page_of(rawv, offset as int, str_pairs_view(res@)));
        }
        Ok(res)
    }
}

} // verus!
