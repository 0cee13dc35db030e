//! The inverted trigram index: a staging builder, and the frozen indexer
//! that answers queries by candidate generation, pruning and verification.
use vstd::prelude::*;
use dashmap::DashMap;
use rustc_hash::{FxHashMap, FxHasher};
use std::hash::{BuildHasherDefault, Hasher};
use rayon::iter::{IndexedParallelIterator, IntoParallelIterator, ParallelIterator};
use crate::chars::{chars_of, is_ws, whitespace};
use crate::distance::{
    edit_distance, lemma_lev_at_least_gap, lemma_lev_same_prefix,
    levenshtein_distance_raw, DistanceBuffers,
};
use crate::normalize::{normalize, normalized};
use crate::trigram::{distinct_sorted, sort_dedup_trigrams, text_trigrams};
pub use crate::trigram::tokenize;

verus! {

#[verifier::external_type_specification]
#[verifier::external_body]
#[verifier::reject_recursive_types(K)]
#[verifier::reject_recursive_types(V)]
#[verifier::reject_recursive_types(S)]
pub struct ExDashMap<K, V, S>(DashMap<K, V, S>);

#[verifier::external_type_specification]
#[verifier::external_body]
pub struct ExFxHasher(FxHasher);

#[verifier::external_type_specification]
#[verifier::external_body]
#[verifier::reject_recursive_types(H)]
pub struct ExBuildHasherDefault<H>(BuildHasherDefault<H>);

/// Staging map from trigram to the ids listed under it.
pub type PostingStage = DashMap<[char; 3], Vec<usize>>;

/// Staging map from id to its prepared record.
pub type RecordStage = DashMap<usize, PreparedText>;

/// Frozen map from trigram to the ids listed under it.
pub type PostingTable = FxHashMap<[char; 3], Vec<usize>>;

/// Frozen map from id to its prepared record.
pub type RecordTable = FxHashMap<usize, PreparedText>;

/// Per-query tally from candidate id to shared trigrams.
pub type CountTable = FxHashMap<usize, usize>;

/// One match of a query: the record's id and its edit distance.
#[derive(Debug, Clone, Copy, PartialEq, Eq)]
pub struct SearchResult {
    pub id: usize,
    pub distance: usize,
}

/// What is derived once from a record's text when it is indexed.
#[derive(Debug)]
pub struct PreparedText {
    pub original: String,
    pub normalized_vec: Vec<char>,
    pub normalized_len: usize,
    pub normalized_hash: u64,
    pub trigrams: Vec<[char; 3]>,
}

/// The scale of match ratios: a ratio is given in millionths.
pub const RATIO_SCALE: u64 = 1_000_000;

/// The hash that rustc_hash's FxHasher gives to a char sequence.
pub uninterp spec fn fx_hash_of(s: Seq<char>) -> u64;

/// The postings that a staging map holds.
pub uninterp spec fn staged_postings(m: PostingStage) -> Map<[char; 3], Vec<usize>>;

/// The records that a staging map holds.
pub uninterp spec fn staged_records(m: RecordStage) -> Map<usize, PreparedText>;

/// Relies on rustc_hash's FxHasher, fed each char's code point in order;
/// the result depends on the chars alone.
#[verifier::external_body]
fn hash_chars(chars: &[char]) -> (r: u64)
    ensures
        r == fx_hash_of(chars@),
{
    let mut hasher = FxHasher::default();
    for &c in chars {
        hasher.write_u32(c as u32);
    }
    hasher.finish()
}

/// Relies on DashMap::new: an empty map.
#[verifier::external_body]
fn new_posting_stage() -> (r: PostingStage)
    ensures
        forall|k: [char; 3]| !#[trigger] staged_postings(r).contains_key(k),
{
    DashMap::new()
}

/// Relies on DashMap::new: an empty map.
#[verifier::external_body]
fn new_record_stage() -> (r: RecordStage)
    ensures
        forall|k: usize| !#[trigger] staged_records(r).contains_key(k),
{
    DashMap::new()
}

/// Relies on DashMap::insert: the key now maps to the value, others unchanged.
#[verifier::external_body]
fn stage_record(m: &mut RecordStage, id: usize, p: PreparedText)
    ensures
        staged_records(*final(m)) == staged_records(*old(m)).insert(id, p),
{
    m.insert(id, p);
}

/// Relies on DashMap::entry and Entry::or_insert_with: appends `id` to the
/// list of `t`, starting from an empty list; other keys unchanged.
#[verifier::external_body]
fn stage_posting(m: &mut PostingStage, t: [char; 3], id: usize)
    ensures
        staged_postings(*final(m)).dom() == staged_postings(*old(m)).dom().insert(t),
        staged_postings(*final(m))[t]@ == (if staged_postings(*old(m)).contains_key(t) {
            staged_postings(*old(m))[t]@
        } else {
            Seq::<usize>::empty()
        }).push(id),
        forall|k: [char; 3]|
            k != t && #[trigger] staged_postings(*old(m)).contains_key(k) ==> staged_postings(
                *final(m),
            )[k] == staged_postings(*old(m))[k],
{
    m.entry(t).or_insert_with(Vec::new).push(id);
}

/// Relies on DashMap's owning iterator, collected into a map: the same entries.
#[verifier::external_body]
fn freeze_postings(m: PostingStage) -> (r: PostingTable)
    ensures
        r@ == staged_postings(m),
{
    m.into_iter().collect()
}

/// Relies on DashMap's owning iterator, collected into a map: the same entries.
#[verifier::external_body]
fn freeze_records(m: RecordStage) -> (r: RecordTable)
    ensures
        r@ == staged_records(m),
{
    m.into_iter().collect()
}

/// Relies on HashMap::get: the list of `t`, if any.
#[verifier::external_body]
fn posting_list<'a>(m: &'a PostingTable, t: &[char; 3]) -> (r: Option<&'a Vec<usize>>)
    ensures
        r.is_some() == m@.contains_key(*t),
        r.is_some() ==> *r.unwrap() == m@[*t],
{
    m.get(t)
}

/// Relies on HashMap::get: the record of `id`, if any.
#[verifier::external_body]
fn record_of<'a>(m: &'a RecordTable, id: &usize) -> (r: Option<&'a PreparedText>)
    ensures
        r.is_some() == m@.contains_key(*id),
        r.is_some() ==> *r.unwrap() == m@[*id],
{
    m.get(id)
}

/// Relies on HashMap's Default: an empty map.
#[verifier::external_body]
fn new_counts() -> (r: CountTable)
    ensures
        forall|k: usize| !#[trigger] r@.contains_key(k),
{
    FxHashMap::default()
}

/// Relies on HashMap::get: the count of `id`, if any.
#[verifier::external_body]
fn count_of(m: &CountTable, id: usize) -> (r: Option<usize>)
    ensures
        r.is_some() == m@.contains_key(id),
        r.is_some() ==> r.unwrap() == m@[id],
{
    m.get(&id).copied()
}

/// Relies on HashMap::insert: `id` now maps to `v`, others unchanged.
#[verifier::external_body]
fn set_count(m: &mut CountTable, id: usize, v: usize)
    ensures
        final(m)@ == old(m)@.insert(id, v),
{
    m.insert(id, v);
}

/// Relies on HashMap's owning iterator: each entry once, in some order.
#[verifier::external_body]
fn count_entries(m: CountTable) -> (r: Vec<(usize, usize)>)
    ensures
        forall|i: int| 0 <= i < r@.len() ==> #[trigger] m@.contains_key(r@[i].0) && m@[r@[i].0] == r@[i].1,
        forall|i: int, j: int| 0 <= i < j < r@.len() ==> #[trigger] r@[i].0 != #[trigger] r@[j].0,
        forall|id: usize| #[trigger] m@.contains_key(id) ==> exists|i: int| 0 <= i < r@.len() && #[trigger] r@[i].0 == id,
{
    m.into_iter().collect()
}

/// Whether every char of `t` is whitespace (an empty text included).
pub open spec fn is_blank(t: Seq<char>) -> bool {
    forall|i: int| 0 <= i < t.len() ==> is_ws(#[trigger] t[i])
}

/// The distinct trigrams of a record's text, in ascending order.
pub open spec fn record_trigrams(t: Seq<char>) -> Seq<[char; 3]> {
    distinct_sorted(text_trigrams(t))
}

impl PreparedText {
    /// The derived fields agree with the original text.
    pub open spec fn wf(&self) -> bool {
        &&& self.normalized_vec@ == normalized(self.original@)
        &&& self.normalized_len == self.normalized_vec@.len()
        &&& self.normalized_hash == fx_hash_of(self.normalized_vec@)
        &&& self.trigrams@ == record_trigrams(self.original@)
    }
}

/// Number of times `id` occurs in `s`.
pub open spec fn occurrences(s: Seq<usize>, id: usize) -> nat
    decreases s.len(),
{
    if s.len() == 0 {
        0
    } else {
        occurrences(s.drop_last(), id) + if s.last() == id { 1nat } else { 0nat }
    }
}

/// How often `id` is listed under the trigrams `toks`, summed over them.
pub open spec fn shared_count(p: Map<[char; 3], Vec<usize>>, toks: Seq<[char; 3]>, id: usize) -> nat
    decreases toks.len(),
{
    if toks.len() == 0 {
        0
    } else {
        shared_count(p, toks.drop_last(), id) + if p.contains_key(toks.last()) {
            occurrences(p[toks.last()]@, id)
        } else {
            0nat
        }
    }
}

/// `max(1, ceil(n * ratio / RATIO_SCALE))`: how many of `n` query trigrams a
/// candidate must share.
pub open spec fn min_matches(n: nat, ratio: nat) -> nat {
    let c = (n * ratio + (RATIO_SCALE - 1) as nat) / (RATIO_SCALE as nat);
    if c < 1 {
        1
    } else {
        c
    }
}

/// Whether `id` is outside the excluded range: above `floor` when there is one.
pub open spec fn above(floor: Option<usize>, id: usize) -> bool {
    floor is None || id > floor->0
}

/// Whether record `id` is a twin of a query with normalized text `qn` and
/// distinct trigrams `toks`: stored, above `floor`, sharing enough trigrams,
/// and within edit distance `k`.
pub open spec fn is_twin(
    p: Map<[char; 3], Vec<usize>>,
    s: Map<usize, PreparedText>,
    ratio: nat,
    qn: Seq<char>,
    toks: Seq<[char; 3]>,
    k: nat,
    floor: Option<usize>,
    id: usize,
) -> bool {
    &&& above(floor, id)
    &&& s.contains_key(id)
    &&& shared_count(p, toks, id) >= min_matches(toks.len(), ratio)
    &&& edit_distance(qn, s[id].normalized_vec@) <= k
}

/// `r` lists every twin once, with its edit distance, by ascending distance.
pub open spec fn ranked_twins(
    r: Seq<SearchResult>,
    p: Map<[char; 3], Vec<usize>>,
    s: Map<usize, PreparedText>,
    ratio: nat,
    qn: Seq<char>,
    toks: Seq<[char; 3]>,
    k: nat,
    floor: Option<usize>,
) -> bool {
    &&& forall|i: int, j: int|
        0 <= i < j < r.len() ==> #[trigger] r[i].id != #[trigger] r[j].id && r[i].distance
            <= r[j].distance
    &&& forall|i: int|
        0 <= i < r.len() ==> is_twin(p, s, ratio, qn, toks, k, floor, #[trigger] r[i].id)
            && r[i].distance == edit_distance(qn, s[r[i].id].normalized_vec@)
    &&& forall|id: usize| #[trigger] is_twin(p, s, ratio, qn, toks, k, floor, id) ==> lists_id(r, id)
}

/// Whether some result of `r` is for `id`.
pub open spec fn lists_id(r: Seq<SearchResult>, id: usize) -> bool {
    exists|i: int| 0 <= i < r.len() && r[i].id == id
}

/// Whether one of the first `e` entries is for `id`.
spec fn entry_before(es: Seq<(usize, usize)>, e: int, id: usize) -> bool {
    exists|j: int| 0 <= j < e && es[j].0 == id
}

/// A record's id and text, as the builder reads it.
pub open spec fn record_view(r: (usize, String)) -> (usize, Seq<char>) {
    (r.0, r.1@)
}

/// Ids and texts of a batch of records.
pub open spec fn record_views(recs: Seq<(usize, String)>) -> Seq<(usize, Seq<char>)> {
    recs.map_values(|r: (usize, String)| record_view(r))
}

/// The text that the last non-blank record of `recs` with this id holds.
pub open spec fn last_text(recs: Seq<(usize, Seq<char>)>, id: usize) -> Option<Seq<char>>
    decreases recs.len(),
{
    if recs.len() == 0 {
        None
    } else if recs.last().0 == id && !is_blank(recs.last().1) {
        Some(recs.last().1)
    } else {
        last_text(recs.drop_last(), id)
    }
}

/// The list of `t` in `p`, empty where `t` has none.
pub open spec fn listed(p: Map<[char; 3], Vec<usize>>, t: [char; 3]) -> Seq<usize> {
    if p.contains_key(t) {
        p[t]@
    } else {
        Seq::empty()
    }
}

/// Postings and records that an index may hold: each list is non-empty and
/// free of repeats, each record's derived fields agree with its text, and
/// an id is listed under a trigram exactly when that trigram is among the
/// stored trigrams of its record.
pub open spec fn valid_tables(p: Map<[char; 3], Vec<usize>>, s: Map<usize, PreparedText>) -> bool {
    &&& forall|t: [char; 3]| #[trigger] p.contains_key(t) ==> p[t]@.len() > 0
    &&& forall|t: [char; 3]| #[trigger] listed(p, t).no_duplicates()
    &&& forall|id: usize| #[trigger] s.contains_key(id) ==> s[id].wf()
    &&& forall|t: [char; 3], id: usize|
        #![trigger listed(p, t).contains(id)]
        #![trigger s[id].trigrams@.contains(t)]
        listed(p, t).contains(id) <==> (s.contains_key(id) && s[id].trigrams@.contains(t))
}

/// `s` with every occurrence of `id` removed.
pub open spec fn without(s: Seq<usize>, id: usize) -> Seq<usize>
    decreases s.len(),
{
    if s.len() == 0 {
        s
    } else {
        without(s.drop_last(), id) + if s.last() == id {
            Seq::<usize>::empty()
        } else {
            seq![s.last()]
        }
    }
}

proof fn lemma_without(s: Seq<usize>, id: usize)
    ensures
        forall|k: usize| #[trigger] without(s, id).contains(k) <==> (k != id && s.contains(k)),
        s.no_duplicates() ==> without(s, id).no_duplicates(),
        !s.contains(id) ==> without(s, id) == s,
        without(without(s, id), id) == without(s, id),
        without(s, id).len() <= s.len(),
    decreases s.len(),
{
    if s.len() > 0 {
        let u = s.drop_last();
        let l = s.last();
        let w = without(u, id);
        lemma_without(u, id);
        assert(s == u.push(l));
        assert forall|k: usize| #[trigger] without(s, id).contains(k) <==> (k != id && s.contains(k)) by {
            if without(s, id).contains(k) {
                let j = choose|j: int| 0 <= j < without(s, id).len() && without(s, id)[j] == k;
                if j < w.len() {
                    assert(w[j] == k);
                    assert(w.contains(k));
                    let i = choose|i: int| 0 <= i < u.len() && u[i] == k;
                    assert(s[i] == k);
                } else {
                    assert(s[s.len() - 1] == k);
                }
            }
            if k != id && s.contains(k) {
                let i = choose|i: int| 0 <= i < s.len() && s[i] == k;
                if i < u.len() {
                    assert(u[i] == k);
                    assert(w.contains(k));
                    let j = choose|j: int| 0 <= j < w.len() && w[j] == k;
                    assert(without(s, id)[j] == k);
                } else {
                    assert(without(s, id)[w.len() as int] == k);
                }
            }
        }
        if s.no_duplicates() {
            assert(u.no_duplicates()) by {
                assert forall|i: int, j: int| 0 <= i < j < u.len() implies u[i] != u[j] by {
                    assert(u[i] == s[i] && u[j] == s[j]);
                }
            }
            if l != id {
                assert(!w.contains(l)) by {
                    if w.contains(l) {
                        assert(u.contains(l));
                        let i = choose|i: int| 0 <= i < u.len() && u[i] == l;
                        assert(s[i] == s[s.len() - 1]);
                    }
                }
                assert forall|i: int, j: int| 0 <= i < j < without(s, id).len() implies without(
                    s,
                    id,
                )[i] != without(s, id)[j] by {
                    if j == w.len() {
                        assert(w[i] == without(s, id)[i]);
                        assert(w.contains(w[i]));
                    } else {
                        assert(w[i] == without(s, id)[i] && w[j] == without(s, id)[j]);
                    }
                }
            } else {
                assert(without(s, id) =~= w);
            }
        }
        if !s.contains(id) {
            assert(!u.contains(id)) by {
                if u.contains(id) {
                    let i = choose|i: int| 0 <= i < u.len() && u[i] == id;
                    assert(s[i] == id);
                }
            }
            assert(l != id);
            assert(without(s, id) =~= s);
        }
        let ws = without(s, id);
        lemma_without(w, id);
        if l == id {
            assert(ws =~= w);
        } else {
            assert(ws.drop_last() =~= w);
            assert(without(ws, id) =~= without(w, id).push(l));
        }
    }
}

/// Every list with `id` removed.
fn drop_id(v: &Vec<usize>, id: usize) -> (r: Vec<usize>)
    ensures
        r@ == without(v@, id),
{
    let mut r: Vec<usize> = Vec::new();
    let mut i: usize = 0;
    assert(v@.take(0) =~= Seq::<usize>::empty());
    while i < v.len()
        invariant
            i <= v@.len(),
            r@ == without(v@.take(i as int), id),
        decreases v@.len() - i,
    {
        assert(v@.take((i + 1) as int).drop_last() =~= v@.take(i as int));
        if v[i] != id {
            r.push(v[i]);
        }
        proof {
            let t = v@.take((i + 1) as int);
            assert(t.last() == v@[i as int]);
            if v@[i as int] == id {
                assert(r@ =~= without(t.drop_last(), id) + Seq::<usize>::empty());
            } else {
                assert(r@ =~= without(t.drop_last(), id) + seq![v@[i as int]]);
            }
        }
        i = i + 1;
    }
    assert(v@.take(v@.len() as int) =~= v@);
    r
}

/// Relies on DashMap::remove: the key's list, if any, is taken out of the map.
#[verifier::external_body]
fn take_posting(m: &mut PostingStage, t: [char; 3]) -> (r: Option<Vec<usize>>)
    ensures
        r.is_some() == staged_postings(*old(m)).contains_key(t),
        r.is_some() ==> r.unwrap() == staged_postings(*old(m))[t],
        staged_postings(*final(m)) == staged_postings(*old(m)).remove(t),
{
    m.remove(&t).map(|e| e.1)
}

/// Relies on DashMap::insert: the key now maps to the list, others unchanged.
#[verifier::external_body]
fn put_posting(m: &mut PostingStage, t: [char; 3], v: Vec<usize>)
    ensures
        staged_postings(*final(m)) == staged_postings(*old(m)).insert(t, v),
{
    m.insert(t, v);
}

/// Relies on DashMap::get: a copy of the trigrams of the record of `id`, if any.
#[verifier::external_body]
fn staged_trigrams(m: &RecordStage, id: usize) -> (r: Option<Vec<[char; 3]>>)
    ensures
        r.is_some() == staged_records(*m).contains_key(id),
        r.is_some() ==> r.unwrap()@ == staged_records(*m)[id].trigrams@,
{
    m.get(&id).map(|e| e.trigrams.clone())
}

/// Whether every char of `text` is whitespace.
fn is_blank_text(text: &String) -> (r: bool)
    ensures
        r == is_blank(text@),
{
    let cs = chars_of(text.as_str());
    let mut i: usize = 0;
    while i < cs.len()
        invariant
            i <= cs@.len(),
            cs@ == text@,
            forall|j: int| 0 <= j < i ==> is_ws(#[trigger] cs@[j]),
        decreases cs@.len() - i,
    {
        if !whitespace(cs[i]) {
            return false;
        }
        i = i + 1;
    }
    true
}

/// What preparing a record's text yields: nothing for a blank text, else a
/// well-formed record of that text.
pub open spec fn prepared_from(o: Option<PreparedText>, t: Seq<char>) -> bool {
    if is_blank(t) {
        o is None
    } else {
        o is Some && o->0.wf() && o->0.original@ == t
    }
}

/// Derives what the index keeps of a record's text: its distinct trigrams
/// in ascending order, its normalized form with length and hash. A blank
/// text gives `None`.
pub fn prepare_text(text: String) -> (r: Option<PreparedText>)
    ensures
        prepared_from(r, text@),
{
    if is_blank_text(&text) {
        return None;
    }
    let raw = tokenize(text.as_str());
    let tokens = sort_dedup_trigrams(&raw);
    let mut cleaned = String::new();
    let mut sorted = String::new();
    let mut ranges: Vec<(usize, usize)> = Vec::new();
    normalize(text.as_str(), &mut cleaned, &mut sorted, &mut ranges);
    let normalized_vec = chars_of(sorted.as_str());
    let normalized_len = normalized_vec.len();
    let normalized_hash = hash_chars(normalized_vec.as_slice());
    Some(
        PreparedText {
            original: text,
            normalized_vec,
            normalized_len,
            normalized_hash,
            trigrams: tokens,
        },
    )
}

/// Relies on rayon: the records are prepared in parallel, and
/// `collect_into_vec` puts the result for the record at position `i` of the
/// indexed iterator at position `i`.
#[verifier::external_body]
fn prepare_all(records: Vec<(usize, String)>) -> (r: Vec<(usize, Option<PreparedText>)>)
    ensures
        r@.len() == records@.len(),
        forall|i: int|
            0 <= i < r@.len() ==> #[trigger] r@[i].0 == records@[i].0 && prepared_from(
                r@[i].1,
                records@[i].1@,
            ),
{
    let mut out = Vec::new();
    records.into_par_iter().map(|(id, text)| (id, prepare_text(text))).collect_into_vec(&mut out);
    out
}

/// Staging area for indexing: collects records and their postings, then
/// turns into an `Indexer` once, with `build`.
#[derive(Debug)]
pub struct IndexBuilder {
    index: PostingStage,
    storage: RecordStage,
    min_trigram_match_ratio: u64,
}

impl IndexBuilder {
    /// The ids listed under each trigram so far.
    pub closed spec fn postings(&self) -> Map<[char; 3], Vec<usize>> {
        staged_postings(self.index)
    }

    /// The records staged so far.
    pub closed spec fn records(&self) -> Map<usize, PreparedText> {
        staged_records(self.storage)
    }

    /// The match ratio, in millionths.
    pub closed spec fn ratio(&self) -> nat {
        self.min_trigram_match_ratio as nat
    }

    /// The ratio is at most one whole and the tables are valid.
    pub open spec fn wf(&self) -> bool {
        &&& self.ratio() <= RATIO_SCALE
        &&& valid_tables(self.postings(), self.records())
    }

    /// An empty builder. `match_ratio` is the fraction, in millionths, of a
    /// query's distinct trigrams that a candidate must share; values above
    /// one whole are clamped to one.
    pub fn new(match_ratio: u64) -> (r: Self)
        ensures
            r.wf(),
            r.ratio() == if match_ratio <= RATIO_SCALE { match_ratio } else { RATIO_SCALE },
            forall|t: [char; 3]| !#[trigger] r.postings().contains_key(t),
            forall|id: usize| !#[trigger] r.records().contains_key(id),
    {
        IndexBuilder {
            index: new_posting_stage(),
            storage: new_record_stage(),
            min_trigram_match_ratio: if match_ratio <= RATIO_SCALE {
                match_ratio
            } else {
                RATIO_SCALE
            },
        }
    }

    /// Indexes the records in order. A blank text is skipped; a repeated id
    /// takes the later text, which replaces the earlier one in the postings
    /// too.
    pub fn bulk_add(&mut self, records: Vec<(usize, String)>)
        requires
            old(self).wf(),
        ensures
            final(self).wf(),
            final(self).ratio() == old(self).ratio(),
            forall|id: usize|
                match #[trigger] last_text(
                    record_views(records@),
                    id,
                ) {
                    Some(t) => final(self).records().contains_key(id) && final(self).records()[id].original@ == t,
                    None => final(self).records().contains_key(id) == old(self).records().contains_key(id) && (old(self).records().contains_key(id)
                        ==> final(self).records()[id] == old(self).records()[id]),
                },
    {
        let ghost recs = record_views(records@);
        let n = records.len();
        let mut prepared = prepare_all(records);
        let ghost pv = prepared@;
        // Reversed, so that popping hands the records back in input order.
        let mut pending: Vec<(usize, Option<PreparedText>)> = Vec::new();
        while prepared.len() > 0
            invariant
                pending@.len() + prepared@.len() == pv.len(),
                prepared@ == pv.take(prepared@.len() as int),
                forall|j: int| 0 <= j < pending@.len() ==> #[trigger] pending@[j] == pv[pv.len() - 1 - j],
            decreases prepared@.len(),
        {
            let x = prepared.pop().unwrap();
            pending.push(x);
            assert(prepared@ =~= pv.take(prepared@.len() as int));
        }
        let mut i: usize = 0;
        assert(recs.take(0) =~= Seq::<(usize, Seq<char>)>::empty());
        while i < n
            invariant
                i <= n,
                n == recs.len(),
                pv.len() == n,
                pending@.len() == n - i,
                forall|j: int| 0 <= j < pending@.len() ==> #[trigger] pending@[j] == pv[n - 1 - j],
                forall|j: int| 0 <= j < n ==> #[trigger] pv[j].0 == recs[j].0 && prepared_from(pv[j].1, recs[j].1),
                self.wf(),
                self.ratio() == old(self).ratio(),
                forall|id: usize|
                    match #[trigger] last_text(recs.take(i as int), id) {
                        Some(t) => self.records().contains_key(id) && self.records()[id].original@
                            == t,
                        None => self.records().contains_key(id) == old(self).records().contains_key(
                            id,
                        ) && (old(self).records().contains_key(id) ==> self.records()[id]
                            == old(self).records()[id]),
                    },
            decreases n - i,
        {
            let item = pending.pop().unwrap();
            let id = item.0;
            let p = item.1;
            let ghost r = recs[i as int];
            proof {
                assert(item == pv[i as int]);
                assert(pv[i as int].0 == recs[i as int].0);
                assert(recs.take((i + 1) as int).drop_last() =~= recs.take(i as int));
                assert(prepared_from(p, r.1));
            }
            self.add_prepared(id, p);
            proof {
                assert forall|k: usize| match #[trigger] last_text(recs.take((i + 1) as int), k) {
                    Some(t) => self.records().contains_key(k) && self.records()[k].original@ == t,
                    None => self.records().contains_key(k) == old(self).records().contains_key(k)
                        && (old(self).records().contains_key(k) ==> self.records()[k] == old(self).records()[k]),
                } by {
                    assert(last_text(recs.take((i + 1) as int), k) == if r.0 == k && !is_blank(
                        r.1,
                    ) {
                        Some(r.1)
                    } else {
                        last_text(recs.take(i as int), k)
                    });
                }
            }
            i = i + 1;
        }
        assert(recs.take(n as int) =~= recs);
    }

    /// Indexes one record: its distinct trigrams, normalized form, length and
    /// hash are computed once and stored under `id`, replacing any earlier
    /// record of `id`; `id` leaves the lists of the earlier record's trigrams
    /// and is appended to the list of each of its new trigrams. A blank text
    /// is skipped.
    pub fn add_single(&mut self, id: usize, text: String)
        requires
            old(self).wf(),
        ensures
            final(self).wf(),
            final(self).ratio() == old(self).ratio(),
            is_blank(text@) ==> final(self).postings() == old(self).postings(),
            !is_blank(text@) ==> forall|t: [char; 3]|
                #[trigger] listed(final(self).postings(), t) == without(listed(old(self).postings(), t), id)
                    + if record_trigrams(text@).contains(t) {
                    seq![id]
                } else {
                    Seq::<usize>::empty()
                },
            is_blank(text@) ==> final(self).records() == old(self).records(),
            !is_blank(text@) ==> final(self).records().contains_key(id) && final(self).records()[id].original@ == text@,
            !is_blank(text@) ==> forall|k: usize|
                k != id ==> #[trigger] final(self).records().contains_key(k) == old(self).records().contains_key(k) && (old(self).records().contains_key(k) ==> final(self).records()[k] == old(self).records()[k]),
    {
        let ghost t = text@;
        let prepared = prepare_text(text);
        self.add_prepared(id, prepared);
        proof {
            if !is_blank(t) {
                assert(self.records().contains_key(id));
            }
        }
    }

    /// Removes `id` from every list, by way of the trigrams of its stored
    /// record; the records stay as they are.
    fn unlist(&mut self, id: usize)
        requires
            old(self).wf(),
        ensures
            final(self).records() == old(self).records(),
            final(self).min_trigram_match_ratio == old(self).min_trigram_match_ratio,
            forall|t: [char; 3]| #[trigger] final(self).postings().contains_key(t) ==> final(self).postings()[t]@.len() > 0,
            forall|t: [char; 3]|
                #[trigger] listed(final(self).postings(), t) == without(listed(old(self).postings(), t), id),
    {
        let ghost start = self.postings();
        let ghost st = self.records();
        match staged_trigrams(&self.storage, id) {
            None => {
                proof {
                    assert forall|t: [char; 3]| #[trigger] listed(self.postings(), t) == without(listed(start, t), id) by {
                        lemma_without(listed(start, t), id);
                        assert(!listed(start, t).contains(id));
                    }
                }
            },
            Some(ts) => {
                let mut i: usize = 0;
                while i < ts.len()
                    invariant
                        i <= ts@.len(),
                        ts@ == st[id].trigrams@,
                        st.contains_key(id),
                        self.records() == st,
                        st == old(self).records(),
                        start == old(self).postings(),
                        self.min_trigram_match_ratio == old(self).min_trigram_match_ratio,
                        forall|t: [char; 3]| #[trigger] self.postings().contains_key(t) ==> self.postings()[t]@.len() > 0,
                        forall|t: [char; 3]|
                            #[trigger] listed(self.postings(), t) == if ts@.take(i as int).contains(t) {
                                without(listed(start, t), id)
                            } else {
                                listed(start, t)
                            },
                    decreases ts@.len() - i,
                {
                    let t = ts[i];
                    let ghost before = self.postings();
                    proof {
                        lemma_without(listed(start, t), id);
                        lemma_without(listed(before, t), id);
                    }
                    match take_posting(&mut self.index, t) {
                        Some(v) => {
                            let w = drop_id(&v, id);
                            if w.len() > 0 {
                                put_posting(&mut self.index, t, w);
                            }
                        },
                        None => {},
                    }
                    proof {
                        assert(listed(self.postings(), t) =~= without(listed(before, t), id));
                        let a = ts@.take(i as int);
                        assert(ts@.take((i + 1) as int) =~= a.push(t));
                        assert(a.push(t)[a.len() as int] == t);
                        assert forall|u: [char; 3]| #[trigger] listed(self.postings(), u) == if ts@.take(
                            (i + 1) as int,
                        ).contains(u) {
                            without(listed(start, u), id)
                        } else {
                            listed(start, u)
                        } by {
                            if u != t {
                                assert(listed(self.postings(), u) == listed(before, u));
                                if a.push(t).contains(u) {
                                    let j = choose|j: int| 0 <= j < a.len() + 1 && #[trigger] a.push(t)[j] == u;
                                    assert(a[j] == u);
                                }
                                if a.contains(u) {
                                    let j = choose|j: int| 0 <= j < a.len() && #[trigger] a[j] == u;
                                    assert(a.push(t)[j] == u);
                                }
                            }
                        }
                    }
                    i = i + 1;
                }
                proof {
                    assert(ts@.take(ts@.len() as int) =~= ts@);
                    assert forall|t: [char; 3]| #[trigger] listed(self.postings(), t) == without(listed(start, t), id) by {
                        lemma_without(listed(start, t), id);
                        if !ts@.contains(t) {
                            assert(!listed(start, t).contains(id));
                        }
                    }
                }
            },
        }
    }

    /// Stores a prepared record under `id`, replacing any earlier one: `id`
    /// leaves the lists of the earlier record's trigrams and is appended to
    /// the list of each of the new record's trigrams. `None` changes nothing.
    fn add_prepared(&mut self, id: usize, p: Option<PreparedText>)
        requires
            old(self).wf(),
            p is Some ==> p->0.wf(),
        ensures
            final(self).wf(),
            final(self).ratio() == old(self).ratio(),
            p is None ==> final(self).postings() == old(self).postings(),
            p is Some ==> forall|t: [char; 3]|
                #[trigger] listed(final(self).postings(), t) == without(listed(old(self).postings(), t), id)
                    + if p->0.trigrams@.contains(t) {
                    seq![id]
                } else {
                    Seq::<usize>::empty()
                },
            p is None ==> final(self).records() == old(self).records(),
            p is Some ==> final(self).records() == old(self).records().insert(id, p->0),
    {
        let prepared = match p {
            Some(x) => x,
            None => {
                return;
            },
        };
        proof {
            crate::trigram::lemma_distinct_sorted(text_trigrams(prepared.original@));
        }
        self.unlist(id);
        let tokens = &prepared.trigrams;
        let ghost start = self.postings();
        let mut i: usize = 0;
        while i < tokens.len()
            invariant
                i <= tokens@.len(),
                tokens@.no_duplicates(),
                self.min_trigram_match_ratio == old(self).min_trigram_match_ratio,
                self.min_trigram_match_ratio <= RATIO_SCALE,
                self.records() == old(self).records(),
                forall|t: [char; 3]| #[trigger] listed(start, t) == without(listed(old(self).postings(), t), id),
                forall|t: [char; 3]| #[trigger] self.postings().contains_key(t) ==> self.postings()[t]@.len() > 0,
                forall|t: [char; 3]|
                    #[trigger] listed(self.postings(), t) == listed(start, t) + if tokens@.take(
                        i as int,
                    ).contains(t) {
                        seq![id]
                    } else {
                        Seq::<usize>::empty()
                    },
            decreases tokens@.len() - i,
        {
            let t = tokens[i];
            let ghost before = self.postings();
            stage_posting(&mut self.index, t, id);
            proof {
                assert forall|u: [char; 3]| #[trigger]
                    listed(self.postings(), u) == listed(start, u) + if tokens@.take(
                        (i + 1) as int,
                    ).contains(u) {
                        seq![id]
                    } else {
                        Seq::<usize>::empty()
                    } by {
                    if u == t {
                        assert(!tokens@.take(i as int).contains(t)) by {
                            if tokens@.take(i as int).contains(t) {
                                let j = choose|j: int| 0 <= j < i && tokens@.take(i as int)[j] == t;
                                assert(tokens@[j] == tokens@[i as int]);
                            }
                        }
                        assert(tokens@.take((i + 1) as int)[i as int] == t);
                        assert(listed(start, u) =~= listed(before, u));
                        assert(listed(self.postings(), u) =~= listed(start, u) + seq![id]);
                    } else {
                        if before.contains_key(u) {
                            assert(self.postings().contains_key(u));
                        } else {
                            assert(!self.postings().dom().contains(u));
                        }
                        assert(listed(self.postings(), u) == listed(before, u));
                        assert(tokens@.take((i + 1) as int).contains(u) == tokens@.take(
                            i as int,
                        ).contains(u)) by {
                            let a = tokens@.take(i as int);
                            assert(tokens@.take((i + 1) as int) =~= a.push(t));
                            if a.push(t).contains(u) {
                                let j = choose|j: int| 0 <= j < a.len() + 1 && #[trigger] a.push(t)[j] == u;
                                assert(a[j] == u);
                            }
                            if a.contains(u) {
                                let j = choose|j: int| 0 <= j < a.len() && #[trigger] a[j] == u;
                                assert(a.push(t)[j] == u);
                            }
                        }
                    }
                }
            }
            i = i + 1;
        }
        proof {
            assert(tokens@.take(tokens@.len() as int) =~= tokens@);
        }
        let ghost before_s = self.records();
        let ghost before_p = self.postings();
        let ghost x = prepared;
        assert(forall|t: [char; 3]| #[trigger] listed(before_p, t) == without(listed(old(self).postings(), t), id)
            + if prepared.trigrams@.contains(t) { seq![id] } else { Seq::<usize>::empty() });
        stage_record(&mut self.storage, id, prepared);
        proof {
            assert(self.postings() == before_p);
            let p0 = old(self).postings();
            let s0 = old(self).records();
            assert forall|t: [char; 3]| #[trigger] listed(before_p, t).no_duplicates() by {
                lemma_without(listed(p0, t), id);
                let w = without(listed(p0, t), id);
                if x.trigrams@.contains(t) {
                    assert(!w.contains(id));
                    assert forall|i: int, j: int| 0 <= i < j < w.push(id).len() implies w.push(id)[i] != w.push(id)[j] by {
                        if j == w.len() {
                            assert(w.contains(w[i]));
                        }
                    }
                    assert(listed(before_p, t) == w.push(id));
                } else {
                    assert(listed(before_p, t) =~= w);
                }
            }
            assert forall|t: [char; 3], k: usize|
                #![trigger listed(before_p, t).contains(k)]
                #![trigger self.records()[k].trigrams@.contains(t)]
                listed(before_p, t).contains(k) <==> (self.records().contains_key(k)
                    && self.records()[k].trigrams@.contains(t)) by {
                lemma_without(listed(p0, t), id);
                let w = without(listed(p0, t), id);
                if x.trigrams@.contains(t) {
                    assert(listed(before_p, t) == w.push(id));
                    assert(w.push(id)[w.len() as int] == id);
                    if k != id && w.push(id).contains(k) {
                        let j = choose|j: int| 0 <= j < w.len() + 1 && w.push(id)[j] == k;
                        assert(w[j] == k);
                    }
                    if k != id && w.contains(k) {
                        let j = choose|j: int| 0 <= j < w.len() && w[j] == k;
                        assert(w.push(id)[j] == k);
                    }
                } else {
                    assert(listed(before_p, t) =~= w);
                }
                if k != id {
                    assert(listed(p0, t).contains(k) <==> (s0.contains_key(k) && s0[k].trigrams@.contains(t)));
                }
            }
            assert forall|k: usize| #[trigger] self.records().contains_key(k) implies self.records()[k].wf() by {
                if k != id {
                    assert(before_s.contains_key(k));
                }
            }
        }
    }

    /// Freezes the staged postings and records into a read-only `Indexer`.
    pub fn build(self) -> (r: Indexer)
        requires
            self.wf(),
        ensures
            r.wf(),
            r.postings() == self.postings(),
            r.records() == self.records(),
            r.ratio() == self.ratio(),
    {
        let index = freeze_postings(self.index);
        let storage = freeze_records(self.storage);
        Indexer { index, storage, min_trigram_match_ratio: self.min_trigram_match_ratio }
    }
}

/// The frozen index: trigram postings, prepared records and the match
/// ratio. It is never changed after `IndexBuilder::build`, so queries can
/// run concurrently.
#[derive(Debug)]
pub struct Indexer {
    index: PostingTable,
    storage: RecordTable,
    min_trigram_match_ratio: u64,
}

impl Indexer {
    /// The ids listed under each trigram.
    pub closed spec fn postings(&self) -> Map<[char; 3], Vec<usize>> {
        self.index@
    }

    /// The records by id.
    pub closed spec fn records(&self) -> Map<usize, PreparedText> {
        self.storage@
    }

    /// The match ratio, in millionths.
    pub closed spec fn ratio(&self) -> nat {
        self.min_trigram_match_ratio as nat
    }

    /// The ratio is at most one whole and the tables are valid.
    pub open spec fn wf(&self) -> bool {
        &&& self.ratio() <= RATIO_SCALE
        &&& valid_tables(self.postings(), self.records())
    }

    /// What `search_by_id(query_id, k)` returns: nothing for an unknown id,
    /// else the twins of the stored record above `query_id`.
    pub open spec fn by_id_results(&self, query_id: usize, k: nat, r: Seq<SearchResult>) -> bool {
        if self.records().contains_key(query_id) {
            ranked_twins(
                r,
                self.postings(),
                self.records(),
                self.ratio(),
                self.records()[query_id].normalized_vec@,
                self.records()[query_id].trigrams@,
                k,
                Some(query_id),
            )
        } else {
            r.len() == 0
        }
    }

    /// What `search(query, k)` returns: the twins of the query text.
    pub open spec fn text_results(&self, query: Seq<char>, k: nat, r: Seq<SearchResult>) -> bool {
        ranked_twins(
            r,
            self.postings(),
            self.records(),
            self.ratio(),
            normalized(query),
            record_trigrams(query),
            k,
            None,
        )
    }

    /// The records, other than and above the stored record `query_id`, whose
    /// normalized text is within `max_distance` edits of it and which share
    /// enough of its trigrams, by ascending distance. An unknown id gives
    /// nothing.
    pub fn search_by_id(&self, query_id: usize, max_distance: usize) -> (r: Vec<SearchResult>)
        requires
            self.wf(),
            max_distance < usize::MAX,
        ensures
            self.by_id_results(query_id, max_distance as nat, r@),
    {
        let query = match record_of(&self.storage, &query_id) {
            Some(q) => q,
            None => {
                return Vec::new();
            },
        };
        proof {
            assert(self.records().contains_key(query_id));
            crate::trigram::lemma_distinct_sorted(text_trigrams(query.original@));
        }
        self.rank_candidates(
            &query.normalized_vec,
            query.normalized_hash,
            &query.trigrams,
            Some(query_id),
            max_distance,
        )
    }

    /// The records whose normalized text is within `max_distance` edits of
    /// the normalized query and which share enough of its distinct trigrams,
    /// by ascending distance. A query without trigrams matches nothing.
    pub fn search(&self, query: &str, max_distance: usize) -> (r: Vec<SearchResult>)
        requires
            self.wf(),
            max_distance < usize::MAX,
        ensures
            self.text_results(query@, max_distance as nat, r@),
    {
        let mut q_cleaned = String::new();
        let mut q_sorted = String::new();
        let mut q_ranges: Vec<(usize, usize)> = Vec::new();
        normalize(query, &mut q_cleaned, &mut q_sorted, &mut q_ranges);
        let q_chars = chars_of(q_sorted.as_str());
        let q_hash = hash_chars(q_chars.as_slice());
        let raw = tokenize(query);
        let tokens = sort_dedup_trigrams(&raw);
        proof {
            crate::trigram::lemma_distinct_sorted(raw@);
        }
        self.rank_candidates(&q_chars, q_hash, &tokens, None, max_distance)
    }

    /// How often each id above `floor` is listed under the trigrams
    /// `tokens`, for the ids listed at least once.
    fn tally_candidates(&self, tokens: &Vec<[char; 3]>, floor: Option<usize>) -> (r: CountTable)
        ensures
            forall|id: usize| #[trigger] r@.contains_key(id) ==> above(floor, id),
            forall|id: usize|
                above(floor, id) ==> #[trigger] tally(r@, id) == capped_count(
                    shared_count(self.postings(), tokens@, id),
                ),
    {
        let ghost p = self.postings();
        let mut counts = new_counts();
        let mut a: usize = 0;
        assert(tokens@.take(0) =~= Seq::<[char; 3]>::empty());
        while a < tokens.len()
            invariant
                a <= tokens@.len(),
                p == self.postings(),
                forall|id: usize| #[trigger] counts@.contains_key(id) ==> above(floor, id),
                forall|id: usize|
                    above(floor, id) ==> #[trigger] tally(counts@, id) == capped_count(
                        shared_count(p, tokens@.take(a as int), id),
                    ),
            decreases tokens@.len() - a,
        {
            let t = tokens[a];
            proof {
                assert(tokens@.take((a + 1) as int).drop_last() =~= tokens@.take(a as int));
            }
            match posting_list(&self.index, &t) {
                Some(ids) => {
                    let mut b: usize = 0;
                    let ghost done_before = tokens@.take(a as int);
                    assert(ids@.take(0) =~= Seq::<usize>::empty());
                    while b < ids.len()
                        invariant
                            b <= ids@.len(),
                            forall|id: usize| #[trigger] counts@.contains_key(id) ==> above(floor, id),
                            forall|id: usize|
                                above(floor, id) ==> #[trigger] tally(counts@, id) == capped_count(
                                    shared_count(p, done_before, id) + occurrences(
                                        ids@.take(b as int),
                                        id,
                                    ),
                                ),
                        decreases ids@.len() - b,
                    {
                        let id = ids[b];
                        proof {
                            assert(ids@.take((b + 1) as int).drop_last() =~= ids@.take(b as int));
                        }
                        let eligible = match floor {
                            None => true,
                            Some(f) => id > f,
                        };
                        let ghost before = counts@;
                        if eligible {
                            let c = match count_of(&counts, id) {
                                Some(c) => c,
                                None => 0,
                            };
                            let nc = if c < usize::MAX { c + 1 } else { c };
                            set_count(&mut counts, id, nc);
                        }
                        proof {
                            assert(ids@.take((b + 1) as int).last() == id);
                            assert forall|x: usize| above(floor, x) implies #[trigger] tally(counts@, x)
                                == capped_count(shared_count(p, done_before, x) + occurrences(
                                ids@.take((b + 1) as int),
                                x,
                            )) by {
                                assert(tally(before, x) == capped_count(shared_count(p, done_before, x)
                                    + occurrences(ids@.take(b as int), x)));
                                if x != id {
                                    assert(tally(counts@, x) == tally(before, x));
                                }
                            }
                        }
                        b = b + 1;
                    }
                    proof {
                        assert(ids@.take(ids@.len() as int) =~= ids@);
                    }
                },
                None => {},
            }
            a = a + 1;
        }
        proof {
            assert(tokens@.take(tokens@.len() as int) =~= tokens@);
        }
        counts
    }

    /// Tallies how often each id above `floor` is listed under the distinct
    /// trigrams `tokens`, keeps those that reach the minimum, prunes by length,
    /// verifies by bounded distance, and ranks by distance.
    fn rank_candidates(
        &self,
        q_chars: &Vec<char>,
        q_hash: u64,
        tokens: &Vec<[char; 3]>,
        floor: Option<usize>,
        max_distance: usize,
    ) -> (r: Vec<SearchResult>)
        requires
            self.wf(),
            max_distance < usize::MAX,
            tokens@.no_duplicates(),
        ensures
            ranked_twins(
                r@,
                self.postings(),
                self.records(),
                self.ratio(),
                q_chars@,
                tokens@,
                max_distance as nat,
                floor,
            ),
    {
        let ghost p = self.postings();
        let ghost st = self.records();
        let ghost k = max_distance as nat;
        if tokens.len() == 0 {
            return Vec::new();
        }
        let counts = self.tally_candidates(tokens, floor);
        let mm = min_matches_for(tokens.len(), self.min_trigram_match_ratio);
        let ghost cm = counts@;
        let entries = count_entries(counts);
        proof {
            assert forall|i: int| 0 <= i < entries@.len() implies above(floor, #[trigger] entries@[i].0)
                && entries@[i].1 == capped_count(shared_count(p, tokens@, entries@[i].0)) by {
                assert(cm.contains_key(entries@[i].0));
                assert(tally(cm, entries@[i].0) == entries@[i].1);
            }
        }
        let found = self.verify_entries(&entries, q_chars, q_hash, tokens, floor, mm, max_distance);
        proof {
            assert forall|id: usize| #[trigger] is_twin(p, st, self.ratio(), q_chars@, tokens@, k, floor, id)
                implies lists_id(found@, id) by {
                assert(tally(cm, id) >= 1);
                let j = choose|j: int| 0 <= j < entries@.len() && #[trigger] entries@[j].0 == id;
                assert(is_twin(p, st, self.ratio(), q_chars@, tokens@, k, floor, entries@[j].0));
            }
        }
        let ghost fv = found@;
        let r = sort_by_distance(found);
        proof {
            lemma_reordered_twins(fv, r@, p, st, self.ratio(), q_chars@, tokens@, k, floor);
        }
        r
    }

    /// Verifies the tallied candidates: keeps each stored one that shares
    /// at least `mm` trigrams and is within `max_distance` edits, skipping
    /// the distance computation when the lengths alone rule it out or the
    /// texts are equal.
    fn verify_entries(
        &self,
        entries: &Vec<(usize, usize)>,
        q_chars: &Vec<char>,
        q_hash: u64,
        tokens: &Vec<[char; 3]>,
        floor: Option<usize>,
        mm: usize,
        max_distance: usize,
    ) -> (found: Vec<SearchResult>)
        requires
            self.wf(),
            max_distance < usize::MAX,
            mm == min_matches(tokens@.len() as nat, self.ratio()),
            forall|i: int| 0 <= i < entries@.len() ==> above(floor, #[trigger] entries@[i].0)
                && entries@[i].1 == capped_count(shared_count(self.postings(), tokens@, entries@[i].0)),
            forall|i: int, j: int| 0 <= i < j < entries@.len() ==> #[trigger] entries@[i].0 != #[trigger] entries@[j].0,
        ensures
            forall|i: int| 0 <= i < found@.len() ==> is_twin(self.postings(), self.records(), self.ratio(), q_chars@, tokens@, max_distance as nat, floor, #[trigger] found@[i].id)
                && found@[i].distance == edit_distance(q_chars@, self.records()[found@[i].id].normalized_vec@),
            forall|i: int, j: int| 0 <= i < j < found@.len() ==> #[trigger] found@[i].id != #[trigger] found@[j].id,
            forall|j: int| 0 <= j < entries@.len() && is_twin(self.postings(), self.records(), self.ratio(), q_chars@, tokens@, max_distance as nat, floor, #[trigger] entries@[j].0)
                ==> lists_id(found@, entries@[j].0),
    {
        let ghost p = self.postings();
        let ghost st = self.records();
        let ghost k = max_distance as nat;
        let q_len = q_chars.len();
        let mut bufs = DistanceBuffers::new();
        let mut found: Vec<SearchResult> = Vec::new();
        let mut e: usize = 0;
        while e < entries.len()
            invariant
                e <= entries@.len(),
                self.wf(),
                p == self.postings(),
                st == self.records(),
                k == max_distance,
                max_distance < usize::MAX,
                q_len == q_chars@.len(),
                mm == min_matches(tokens@.len() as nat, self.ratio()),
                forall|i: int| 0 <= i < entries@.len() ==> above(floor, #[trigger] entries@[i].0)
                    && entries@[i].1 == capped_count(shared_count(p, tokens@, entries@[i].0)),
                forall|i: int, j: int| 0 <= i < j < entries@.len() ==> #[trigger] entries@[i].0 != #[trigger] entries@[j].0,
                forall|i: int| 0 <= i < found@.len() ==> is_twin(p, st, self.ratio(), q_chars@, tokens@, k, floor, #[trigger] found@[i].id)
                    && found@[i].distance == edit_distance(q_chars@, st[found@[i].id].normalized_vec@),
                forall|i: int| 0 <= i < found@.len() ==> entry_before(entries@, e as int, #[trigger] found@[i].id),
                forall|i: int, j: int| 0 <= i < j < found@.len() ==> #[trigger] found@[i].id != #[trigger] found@[j].id,
                forall|j: int| 0 <= j < e && is_twin(p, st, self.ratio(), q_chars@, tokens@, k, floor, #[trigger] entries@[j].0)
                    ==> lists_id(found@, entries@[j].0),
            decreases entries@.len() - e,
        {
            let (id, matches) = entries[e];
            let ghost found_before = found@;
            if matches >= mm {
                match record_of(&self.storage, &id) {
                    Some(prepared) => {
                        proof {
                            assert(st.contains_key(id));
                            assert(prepared.wf());
                        }
                        let plen = prepared.normalized_len;
                        let gap = if q_len > plen { q_len - plen } else { plen - q_len };
                        proof {
                            lemma_lev_at_least_gap(q_chars@, prepared.normalized_vec@, q_len as nat, plen as nat);
                        }
                        if gap <= max_distance {
                            if q_len == plen && q_hash == prepared.normalized_hash && same_chars(q_chars, &prepared.normalized_vec) {
                                proof {
                                    lemma_lev_same_prefix(q_chars@, q_len as nat);
                                }
                                found.push(SearchResult { id, distance: 0 });
                            } else {
                                let d = levenshtein_distance_raw(
                                    q_chars.as_slice(),
                                    prepared.normalized_vec.as_slice(),
                                    max_distance,
                                    &mut bufs,
                                );
                                if d <= max_distance {
                                    found.push(SearchResult { id, distance: d });
                                }
                            }
                        }
                    },
                    None => {},
                }
            }
            proof {
                assert forall|i: int| 0 <= i < found@.len() implies entry_before(entries@, e + 1, #[trigger] found@[i].id) by {
                    if i < found_before.len() {
                        assert(found_before[i] == found@[i]);
                        assert(entry_before(entries@, e as int, found_before[i].id));
                        let j = choose|j: int| 0 <= j < e && entries@[j].0 == found_before[i].id;
                        assert(entries@[j].0 == found@[i].id);
                    } else {
                        assert(entries@[e as int].0 == found@[i].id);
                    }
                }
                assert forall|i: int, j: int| 0 <= i < j < found@.len() implies #[trigger] found@[i].id != #[trigger] found@[j].id by {
                    if j == found_before.len() {
                        assert(found_before[i] == found@[i]);
                        assert(entry_before(entries@, e as int, found_before[i].id));
                        let j2 = choose|j2: int| 0 <= j2 < e && entries@[j2].0 == found_before[i].id;
                        assert(entries@[j2].0 != entries@[e as int].0);
                    }
                }
                assert forall|j: int| 0 <= j < e + 1 && is_twin(p, st, self.ratio(), q_chars@, tokens@, k, floor, #[trigger] entries@[j].0)
                    implies lists_id(found@, entries@[j].0) by {
                    if j < e {
                        assert(lists_id(found_before, entries@[j].0));
                        let i = choose|i: int| 0 <= i < found_before.len() && found_before[i].id == entries@[j].0;
                        assert(found@[i].id == entries@[j].0);
                    } else {
                        assert(found@[found_before.len() as int].id == entries@[j].0);
                    }
                }
            }
            e = e + 1;
        }
        found
    }

}

/// The tally of `id`, zero where it has none.
pub open spec fn tally(m: Map<usize, usize>, id: usize) -> nat {
    if m.contains_key(id) {
        m[id] as nat
    } else {
        0
    }
}

/// `n` capped at the largest `usize`.
pub open spec fn capped_count(n: nat) -> nat {
    if n < usize::MAX {
        n
    } else {
        usize::MAX as nat
    }
}

/// `max(1, ceil(n * ratio / RATIO_SCALE))` for a ratio of at most one.
fn min_matches_for(n: usize, ratio: u64) -> (r: usize)
    requires
        ratio <= RATIO_SCALE,
    ensures
        r == min_matches(n as nat, ratio as nat),
{
    assert((n as int) * (ratio as int) <= 0xffff_ffff_ffff_ffff_ffff_ffff_ffff_ffff) by (nonlinear_arith)
        requires
            n <= 0xffff_ffff_ffff_ffff,
            ratio <= 1_000_000,
    ;
    let prod: u128 = (n as u128) * (ratio as u128);
    assert(prod <= (n as int) * 1_000_000) by (nonlinear_arith)
        requires
            prod == (n as int) * (ratio as int),
            ratio <= 1_000_000,
    ;
    let c: u128 = (prod + 999_999) / 1_000_000;
    assert(c <= n) by (nonlinear_arith)
        requires
            prod <= (n as int) * 1_000_000,
            c == (prod + 999_999) / 1_000_000,
    ;
    if c < 1 {
        1
    } else {
        c as usize
    }
}

/// Whether two char sequences are equal.
fn same_chars(a: &Vec<char>, b: &Vec<char>) -> (r: bool)
    ensures
        r == (a@ == b@),
{
    if a.len() != b.len() {
        return false;
    }
    let mut i: usize = 0;
    while i < a.len()
        invariant
            i <= a@.len(),
            a@.len() == b@.len(),
            forall|j: int| 0 <= j < i ==> a@[j] == b@[j],
        decreases a@.len() - i,
    {
        if a[i] != b[i] {
            return false;
        }
        i = i + 1;
    }
    assert(a@ =~= b@);
    true
}

/// How many of `toks` are among `ts`.
pub open spec fn overlap(toks: Seq<[char; 3]>, ts: Seq<[char; 3]>) -> nat
    decreases toks.len(),
{
    if toks.len() == 0 {
        0
    } else {
        overlap(toks.drop_last(), ts) + if ts.contains(toks.last()) {
            1nat
        } else {
            0nat
        }
    }
}

proof fn lemma_occurrences_unique(s: Seq<usize>, id: usize)
    requires
        s.no_duplicates(),
    ensures
        occurrences(s, id) == if s.contains(id) { 1nat } else { 0nat },
    decreases s.len(),
{
    if s.len() > 0 {
        let u = s.drop_last();
        assert(u.no_duplicates()) by {
            assert forall|i: int, j: int| 0 <= i < j < u.len() implies u[i] != u[j] by {
                assert(u[i] == s[i] && u[j] == s[j]);
            }
        }
        lemma_occurrences_unique(u, id);
        if u.contains(id) {
            let i = choose|i: int| 0 <= i < u.len() && u[i] == id;
            assert(s[i] == id);
            assert(s.last() != id);
        }
        if s.contains(id) && s.last() != id {
            let i = choose|i: int| 0 <= i < s.len() && s[i] == id;
            assert(u[i] == id);
        }
    }
}

/// In a valid index, the count that decides whether a record is a
/// candidate is the number of the query's trigrams that the record has
/// among its own trigrams.
pub proof fn lemma_shared_count_is_overlap(
    p: Map<[char; 3], Vec<usize>>,
    s: Map<usize, PreparedText>,
    toks: Seq<[char; 3]>,
    id: usize,
)
    requires
        valid_tables(p, s),
    ensures
        shared_count(p, toks, id) == if s.contains_key(id) {
            overlap(toks, s[id].trigrams@)
        } else {
            0
        },
    decreases toks.len(),
{
    if toks.len() > 0 {
        let t = toks.last();
        lemma_shared_count_is_overlap(p, s, toks.drop_last(), id);
        lemma_occurrences_unique(listed(p, t), id);
        assert(listed(p, t).contains(id) <==> (s.contains_key(id) && s[id].trigrams@.contains(t)));
    }
}

/// `search_by_id(query_id, k)` lists no id at or below `query_id`.
pub proof fn lemma_by_id_results_above_query(
    ix: &Indexer,
    query_id: usize,
    k: nat,
    r: Seq<SearchResult>,
)
    requires
        ix.by_id_results(query_id, k, r),
    ensures
        forall|i: int| 0 <= i < r.len() ==> #[trigger] r[i].id > query_id,
{
    if ix.records().contains_key(query_id) {
        assert forall|i: int| 0 <= i < r.len() implies #[trigger] r[i].id > query_id by {
            assert(above(Some(query_id), r[i].id));
        }
    }
}

/// For stored ids `x < y` whose normalized texts are within `k` edits and
/// where enough of `x`'s trigrams are among `y`'s, `search_by_id(x, k)`
/// lists `y`.
pub proof fn lemma_by_id_results_find_twin(
    ix: &Indexer,
    x: usize,
    y: usize,
    k: nat,
    r: Seq<SearchResult>,
)
    requires
        ix.by_id_results(x, k, r),
        x < y,
        ix.records().contains_key(x),
        ix.records().contains_key(y),
        edit_distance(ix.records()[x].normalized_vec@, ix.records()[y].normalized_vec@) <= k,
        ix.wf(),
        overlap(ix.records()[x].trigrams@, ix.records()[y].trigrams@) >= min_matches(
            ix.records()[x].trigrams@.len(),
            ix.ratio(),
        ),
    ensures
        lists_id(r, y),
{
    lemma_shared_count_is_overlap(ix.postings(), ix.records(), ix.records()[x].trigrams@, y);
    assert(is_twin(
        ix.postings(),
        ix.records(),
        ix.ratio(),
        ix.records()[x].normalized_vec@,
        ix.records()[x].trigrams@,
        k,
        Some(x),
        y,
    ));
}

/// `search_by_id(x, k)` finds what `search` finds for the stored text of
/// `x`, restricted to ids above `x`.
pub proof fn lemma_by_id_agrees_with_text_search(
    ix: &Indexer,
    x: usize,
    k: nat,
    r1: Seq<SearchResult>,
    r2: Seq<SearchResult>,
)
    requires
        ix.wf(),
        ix.records().contains_key(x),
        ix.by_id_results(x, k, r1),
        ix.text_results(ix.records()[x].original@, k, r2),
    ensures
        forall|id: usize| #[trigger] lists_id(r1, id) <==> (lists_id(r2, id) && id > x),
{
    let p = ix.postings();
    let st = ix.records();
    let qn = st[x].normalized_vec@;
    let toks = st[x].trigrams@;
    assert(st[x].wf());
    assert(qn == normalized(st[x].original@));
    assert(toks == record_trigrams(st[x].original@));
    assert forall|id: usize| #[trigger] lists_id(r1, id) <==> (lists_id(r2, id) && id > x) by {
        if lists_id(r1, id) {
            let i = choose|i: int| 0 <= i < r1.len() && r1[i].id == id;
            assert(is_twin(p, st, ix.ratio(), qn, toks, k, Some(x), r1[i].id));
            assert(is_twin(p, st, ix.ratio(), qn, toks, k, None, id));
        }
        if lists_id(r2, id) && id > x {
            let i = choose|i: int| 0 <= i < r2.len() && r2[i].id == id;
            assert(is_twin(p, st, ix.ratio(), qn, toks, k, None, r2[i].id));
            assert(is_twin(p, st, ix.ratio(), qn, toks, k, Some(x), id));
        }
    }
}

/// A reordering of the twins, sorted by distance, ranks them.
proof fn lemma_reordered_twins(
    fv: Seq<SearchResult>,
    r: Seq<SearchResult>,
    p: Map<[char; 3], Vec<usize>>,
    st: Map<usize, PreparedText>,
    ratio: nat,
    qn: Seq<char>,
    toks: Seq<[char; 3]>,
    k: nat,
    floor: Option<usize>,
)
    requires
        forall|i: int| 0 <= i < fv.len() ==> is_twin(p, st, ratio, qn, toks, k, floor, #[trigger] fv[i].id)
            && fv[i].distance == edit_distance(qn, st[fv[i].id].normalized_vec@),
        forall|id: usize| #[trigger] is_twin(p, st, ratio, qn, toks, k, floor, id) ==> lists_id(fv, id),
        forall|i: int, j: int| 0 <= i < j < r.len() ==> r[i].distance <= r[j].distance,
        forall|i: int| 0 <= i < r.len() ==> fv.contains(#[trigger] r[i]),
        forall|j: int| 0 <= j < fv.len() ==> r.contains(#[trigger] fv[j]),
        forall|i: int, j: int| 0 <= i < j < r.len() ==> #[trigger] r[i].id != #[trigger] r[j].id,
    ensures
        ranked_twins(r, p, st, ratio, qn, toks, k, floor),
{
    assert forall|i: int| 0 <= i < r.len() implies is_twin(p, st, ratio, qn, toks, k, floor, #[trigger] r[i].id)
        && r[i].distance == edit_distance(qn, st[r[i].id].normalized_vec@) by {
        assert(fv.contains(r[i]));
        let j = choose|j: int| 0 <= j < fv.len() && fv[j] == r[i];
        assert(fv[j].id == r[i].id);
    }
    assert forall|id: usize| #[trigger] is_twin(p, st, ratio, qn, toks, k, floor, id) implies lists_id(r, id) by {
        let j = choose|j: int| 0 <= j < fv.len() && fv[j].id == id;
        assert(r.contains(fv[j]));
        let i = choose|i: int| 0 <= i < r.len() && r[i] == fv[j];
        assert(r[i].id == id);
    }
}

/// Whether `j` occurs in `perm`.
spec fn hits(perm: Seq<int>, j: int) -> bool {
    exists|i: int| 0 <= i < perm.len() && perm[i] == j
}

/// The results reordered by ascending distance.
#[verifier::rlimit(50)]
fn sort_by_distance(v: Vec<SearchResult>) -> (r: Vec<SearchResult>)
    ensures
        forall|i: int, j: int| 0 <= i < j < r@.len() ==> r@[i].distance <= r@[j].distance,
        forall|i: int| 0 <= i < r@.len() ==> v@.contains(#[trigger] r@[i]),
        forall|j: int| 0 <= j < v@.len() ==> r@.contains(#[trigger] v@[j]),
        (forall|i: int, j: int| 0 <= i < j < v@.len() ==> #[trigger] v@[i].id != #[trigger] v@[j].id)
            ==> (forall|i: int, j: int| 0 <= i < j < r@.len() ==> #[trigger] r@[i].id != #[trigger] r@[j].id),
{
    let mut out: Vec<SearchResult> = Vec::new();
    let ghost mut perm: Seq<int> = Seq::empty();
    let mut q: usize = 0;
    while q < v.len()
        invariant
            q <= v@.len(),
            out@.len() == q,
            perm.len() == q,
            forall|i: int| 0 <= i < q ==> 0 <= #[trigger] perm[i] < q && out@[i] == v@[perm[i]],
            forall|i: int, j: int| 0 <= i < j < q ==> #[trigger] perm[i] != #[trigger] perm[j],
            forall|j: int| 0 <= j < q ==> #[trigger] hits(perm, j),
            forall|i: int, j: int| 0 <= i < j < q ==> out@[i].distance <= out@[j].distance,
        decreases v@.len() - q,
    {
        let x = v[q];
        let mut p: usize = 0;
        while p < out.len() && out[p].distance <= x.distance
            invariant
                p <= out@.len(),
                forall|j: int| 0 <= j < p ==> out@[j].distance <= x.distance,
            decreases out@.len() - p,
        {
            p = p + 1;
        }
        let ghost old_out = out@;
        let ghost old_perm = perm;
        out.insert(p, x);
        proof {
            perm = perm.insert(p as int, q as int);
            assert forall|j: int| 0 <= j < q + 1 implies #[trigger] hits(perm, j) by {
                if j == q {
                    assert(perm[p as int] == j);
                } else {
                    assert(hits(old_perm, j));
                    let i = choose|i: int| 0 <= i < old_perm.len() && #[trigger] old_perm[i] == j;
                    if i < p {
                        assert(perm[i] == j);
                    } else {
                        assert(perm[i + 1] == j);
                    }
                }
            }
            assert forall|i: int, j: int| 0 <= i < j < q + 1 implies out@[i].distance <= out@[j].distance by {
                if j < p {
                } else if j == p {
                } else if i < p {
                    assert(out@[j] == old_out[j - 1]);
                } else if i == p {
                    assert(out@[j] == old_out[j - 1]);
                    assert(old_out[p as int].distance > x.distance || p == old_out.len());
                    if j - 1 > p {
                        assert(old_out[p as int].distance <= old_out[j - 1].distance);
                    }
                } else {
                    assert(out@[j] == old_out[j - 1] && out@[i] == old_out[i - 1]);
                }
            }
            assert forall|i: int, j: int| 0 <= i < j < q + 1 implies #[trigger] perm[i] != #[trigger] perm[j] by {
                if i != p && j != p {
                    let i0 = if i < p { i } else { i - 1 };
                    let j0 = if j < p { j } else { j - 1 };
                    assert(perm[i] == old_perm[i0] && perm[j] == old_perm[j0]);
                }
            }
        }
        q = q + 1;
    }
    proof {
        assert forall|j: int| 0 <= j < v@.len() implies out@.contains(#[trigger] v@[j]) by {
            assert(hits(perm, j));
            let i = choose|i: int| 0 <= i < perm.len() && #[trigger] perm[i] == j;
            assert(out@[i] == v@[j]);
        }
        assert forall|i: int| 0 <= i < out@.len() implies v@.contains(#[trigger] out@[i]) by {
            assert(out@[i] == v@[perm[i]]);
        }
        if forall|i: int, j: int| 0 <= i < j < v@.len() ==> #[trigger] v@[i].id != #[trigger] v@[j].id {
            assert forall|i: int, j: int| 0 <= i < j < out@.len() implies #[trigger] out@[i].id != #[trigger] out@[j].id by {
                assert(out@[i] == v@[perm[i]] && out@[j] == v@[perm[j]]);
                if perm[i] < perm[j] {
                    assert(v@[perm[i]].id != v@[perm[j]].id);
                } else {
                    assert(v@[perm[j]].id != v@[perm[i]].id);
                }
            }
        }
    }
    out
}

} // verus!
