//! QMD memory: an in-memory document store with keyword search and a cache of
//! search results that every change to the documents empties.

use vstd::prelude::*;

use crate::text::{
    concat, has_substring, is_alphanumeric, first_from, is_white, scan_words, join_space, join_with_space, lowercase_of, alphanumeric,
    matches_at, occurs_at, push_char, split_whitespace, split_words, str_equal, str_less, string_from,
    text_lt, texts, to_chars, to_lowercase,
};

verus! {

// ---------------------------------------------------------------------------
// Documents
// ---------------------------------------------------------------------------

/// A stored document. The embedding is kept as the bit patterns of its `f32`
/// components (`f32::to_bits`), so that the store can hold it exactly.
pub struct MemoryDocument {
    pub id: Option<String>,
    pub path: String,
    pub content: String,
    pub metadata: serde_json::Value,
    pub embedding_bits: Vec<u32>,
}

/// What a document holds, as mathematical values.
pub struct DocView {
    pub id: Option<Seq<char>>,
    pub path: Seq<char>,
    pub content: Seq<char>,
    pub metadata: serde_json::Value,
    pub embedding_bits: Seq<u32>,
}

impl View for MemoryDocument {
    type V = DocView;

    open spec fn view(&self) -> DocView {
        DocView {
            id: match self.id {
                Some(s) => Some(s@),
                None => None,
            },
            path: self.path@,
            content: self.content@,
            metadata: self.metadata,
            embedding_bits: self.embedding_bits@,
        }
    }
}

/// The views of a list of documents.
pub open spec fn doc_views(v: Seq<MemoryDocument>) -> Seq<DocView> {
    v.map_values(|d: MemoryDocument| d@)
}

impl MemoryDocument {
    /// A copy of the document.
    pub fn duplicate(&self) -> (r: MemoryDocument)
        ensures
            r@ == self@,
    {
        let mut bits: Vec<u32> = Vec::new();
        let mut i: usize = 0;
        while i < self.embedding_bits.len()
            invariant
                i <= self.embedding_bits.len(),
                bits@ == self.embedding_bits@.take(i as int),
            decreases self.embedding_bits.len() - i,
        {
            bits.push(self.embedding_bits[i]);
            assert(bits@ =~= self.embedding_bits@.take(i + 1));
            i += 1;
        }
        assert(bits@ =~= self.embedding_bits@);
        MemoryDocument {
            id: match &self.id {
                Some(s) => Some(s.clone()),
                None => None,
            },
            path: self.path.clone(),
            content: self.content.clone(),
            metadata: self.metadata.clone(),
            embedding_bits: bits,
        }
    }
}

/// Copies of all documents of a list.
fn duplicate_all(v: &Vec<MemoryDocument>) -> (r: Vec<MemoryDocument>)
    ensures
        doc_views(r@) == doc_views(v@),
{
    let mut r: Vec<MemoryDocument> = Vec::new();
    let mut i: usize = 0;
    while i < v.len()
        invariant
            i <= v.len(),
            doc_views(r@) == doc_views(v@).take(i as int),
        decreases v.len() - i,
    {
        let ghost prev = r@;
        r.push(v[i].duplicate());
        assert(doc_views(r@) =~= doc_views(prev).push(v@[i as int]@));
        assert(doc_views(r@) =~= doc_views(v@).take(i + 1));
        i += 1;
    }
    assert(doc_views(v@).take(v@.len() as int) =~= doc_views(v@));
    r
}

// ---------------------------------------------------------------------------
// Query normalization
// ---------------------------------------------------------------------------

/// The alphanumeric characters of a text, in order.
pub open spec fn alnum_only(t: Seq<char>) -> Seq<char>
    decreases t.len(),
{
    if t.len() == 0 {
        Seq::empty()
    } else if alphanumeric(t.last()) {
        alnum_only(t.drop_last()).push(t.last())
    } else {
        alnum_only(t.drop_last())
    }
}

/// A token reduced to its alphanumeric characters, in lowercase.
pub open spec fn normalize_token_spec(t: Seq<char>) -> Seq<char> {
    lowercase_of(alnum_only(t))
}

/// The normalized tokens that are not empty.
pub open spec fn normalized_tokens(ws: Seq<Seq<char>>) -> Seq<Seq<char>>
    decreases ws.len(),
{
    if ws.len() == 0 {
        Seq::empty()
    } else {
        let prev = normalized_tokens(ws.drop_last());
        let t = normalize_token_spec(ws.last());
        if t.len() > 0 {
            prev.push(t)
        } else {
            prev
        }
    }
}

/// A query as the cache keys it: its words normalized, empty ones dropped,
/// joined by single spaces.
pub open spec fn normalize_query_spec(q: Seq<char>) -> Seq<char> {
    join_space(normalized_tokens(split_words(q)))
}

/// A token reduced to its alphanumeric characters, in lowercase.
pub fn normalize_token(token: &str) -> (r: String)
    ensures
        r@ == normalize_token_spec(token@),
{
    let v = to_chars(token);
    let mut kept = String::new();
    let mut i: usize = 0;
    while i < v.len()
        invariant
            i <= v.len(),
            kept@ == alnum_only(v@.take(i as int)),
        decreases v.len() - i,
    {
        assert(v@.take(i + 1).drop_last() =~= v@.take(i as int));
        assert(v@.take(i + 1).last() == v@[i as int]);
        if is_alphanumeric(v[i]) {
            push_char(&mut kept, v[i]);
        }
        i += 1;
    }
    assert(v@.take(v@.len() as int) =~= v@);
    to_lowercase(kept.as_str())
}

/// A query as the cache keys it (see `normalize_query_spec`).
pub fn normalize_query(query_text: &str) -> (r: String)
    ensures
        r@ == normalize_query_spec(query_text@),
{
    let words = split_whitespace(query_text);
    let ghost ws = texts(words@);
    let mut tokens: Vec<String> = Vec::new();
    let mut i: usize = 0;
    while i < words.len()
        invariant
            i <= words.len(),
            ws == texts(words@),
            texts(tokens@) == normalized_tokens(ws.take(i as int)),
        decreases words.len() - i,
    {
        assert(ws.take(i + 1).drop_last() =~= ws.take(i as int));
        assert(ws.take(i + 1).last() == words@[i as int]@);
        let t = normalize_token(words[i].as_str());
        if !t.as_str().is_empty() {
            let ghost prev = tokens@;
            tokens.push(t);
            assert(texts(tokens@) =~= texts(prev).push(t@));
        }
        i += 1;
    }
    assert(ws.take(words@.len() as int) =~= ws);
    join_with_space(&tokens)
}

// ---------------------------------------------------------------------------
// Lexical scoring and ranking
// ---------------------------------------------------------------------------

/// Non-overlapping occurrences of `pat` in `s` at or after `i`, found from
/// the left (`str::matches(pat).count()` for a non-empty pattern).
pub open spec fn count_from(s: Seq<char>, pat: Seq<char>, i: int) -> nat
    decreases s.len() - i,
{
    if pat.len() == 0 || i < 0 || i + pat.len() > s.len() {
        0
    } else if occurs_at(s, pat, i) {
        1 + count_from(s, pat, i + pat.len())
    } else {
        count_from(s, pat, i + 1)
    }
}

/// Hits of one term: its occurrences in the content, plus twice those in the path.
pub open spec fn term_hits(cl: Seq<char>, pl: Seq<char>, t: Seq<char>) -> int {
    (count_from(cl, t, 0) + 2 * count_from(pl, t, 0)) as int
}

/// Sum of `term_hits` over the terms.
pub open spec fn hits_sum(ts: Seq<Seq<char>>, cl: Seq<char>, pl: Seq<char>) -> int
    decreases ts.len(),
{
    if ts.len() == 0 {
        0
    } else {
        hits_sum(ts.drop_last(), cl, pl) + term_hits(cl, pl, ts.last())
    }
}

/// `x`, capped at `u64::MAX`.
pub open spec fn cap(x: int) -> int {
    if x > u64::MAX {
        u64::MAX as int
    } else {
        x
    }
}

/// How well a document matches a normalized query: for each query word, its
/// occurrences in the lowercase content plus twice those in the lowercase
/// path; zero for an empty query. The sum is capped at `u64::MAX`.
pub open spec fn lexical_score_spec(doc: DocView, nq: Seq<char>) -> int {
    if nq.len() == 0 {
        0
    } else {
        cap(hits_sum(split_words(nq), lowercase_of(doc.content), lowercase_of(doc.path)))
    }
}

/// `a` ranks before `b`: a higher score, or the same score and a smaller path.
pub open spec fn ranks_before(a: (int, DocView), b: (int, DocView)) -> bool {
    a.0 > b.0 || (a.0 == b.0 && text_lt(a.1.path, b.1.path))
}

/// `x` inserted into `s` before the first entry it ranks before, so that
/// entries it ties with stay in front of it.
pub open spec fn insert_ranked(s: Seq<(int, DocView)>, x: (int, DocView)) -> Seq<(int, DocView)>
    decreases s.len(),
{
    if s.len() == 0 {
        seq![x]
    } else if ranks_before(x, s[0]) {
        seq![x] + s
    } else {
        seq![s[0]] + insert_ranked(s.drop_first(), x)
    }
}

/// The entries in rank order; entries that tie keep their order (a stable sort).
pub open spec fn ranked(items: Seq<(int, DocView)>) -> Seq<(int, DocView)>
    decreases items.len(),
{
    if items.len() == 0 {
        Seq::empty()
    } else {
        insert_ranked(ranked(items.drop_last()), items.last())
    }
}

/// The documents with a positive score, with their scores, in store order.
pub open spec fn scored(docs: Seq<DocView>, nq: Seq<char>) -> Seq<(int, DocView)>
    decreases docs.len(),
{
    if docs.len() == 0 {
        Seq::empty()
    } else {
        let prev = scored(docs.drop_last(), nq);
        let d = docs.last();
        let sc = lexical_score_spec(d, nq);
        if sc > 0 {
            prev.push((sc, d))
        } else {
            prev
        }
    }
}

/// The result of a keyword search: the documents with a positive score, best
/// first (ties by path, then store order), at most `limit` of them.
pub open spec fn search_result(docs: Seq<DocView>, nq: Seq<char>, limit: nat) -> Seq<DocView> {
    let r = ranked(scored(docs, nq)).map_values(|p: (int, DocView)| p.1);
    if r.len() <= limit {
        r
    } else {
        r.take(limit as int)
    }
}

/// Non-overlapping occurrences of `pat` in `s`.
fn count_matches(s: &Vec<char>, pat: &Vec<char>) -> (n: usize)
    ensures
        n == count_from(s@, pat@, 0),
{
    if pat.len() == 0 {
        return 0;
    }
    let mut n: usize = 0;
    let mut i: usize = 0;
    while i < s.len() && pat.len() <= s.len() - i
        invariant
            pat.len() > 0,
            i <= s.len(),
            n <= i,
            n + count_from(s@, pat@, i as int) == count_from(s@, pat@, 0),
        decreases s.len() - i,
    {
        if matches_at(s, pat, i) {
            n = n + 1;
            i = i + pat.len();
        } else {
            i = i + 1;
        }
    }
    n
}

/// The lexical score of a document for a normalized query (see
/// `lexical_score_spec`).
pub fn lexical_score(doc: &MemoryDocument, normalized_query: &str) -> (score: u64)
    ensures
        score as int == lexical_score_spec(doc@, normalized_query@),
{
    if normalized_query.is_empty() {
        return 0;
    }
    let cl = to_chars(to_lowercase(doc.content.as_str()).as_str());
    let pl = to_chars(to_lowercase(doc.path.as_str()).as_str());
    let terms = split_whitespace(normalized_query);
    let ghost ts = texts(terms@);
    let mut score: u64 = 0;
    let mut i: usize = 0;
    while i < terms.len()
        invariant
            i <= terms.len(),
            ts == texts(terms@),
            score as int == cap(hits_sum(ts.take(i as int), cl@, pl@)),
            hits_sum(ts.take(i as int), cl@, pl@) >= 0,
        decreases terms.len() - i,
    {
        assert(ts.take(i + 1).drop_last() =~= ts.take(i as int));
        let t = to_chars(terms[i].as_str());
        let content_hits = count_matches(&cl, &t) as u64;
        let path_hits = count_matches(&pl, &t) as u64;
        let hits = content_hits.saturating_add(path_hits.saturating_add(path_hits));
        score = score.saturating_add(hits);
        i += 1;
    }
    assert(ts.take(terms.len() as int) =~= ts);
    score
}

/// The first position at which `x` ranks before the entry already there.
fn rank_position(s: &Vec<(u64, MemoryDocument)>, score: u64, path: &str) -> (p: usize)
    ensures
        p <= s.len(),
        forall|q: int| 0 <= q < p ==> !ranks_before((score as int, path_view(path@)), #[trigger] pair_views(s@)[q]),
        p < s.len() ==> ranks_before((score as int, path_view(path@)), pair_views(s@)[p as int]),
{
    let mut p: usize = 0;
    while p < s.len()
        invariant
            p <= s.len(),
            forall|q: int| 0 <= q < p ==> !ranks_before((score as int, path_view(path@)), #[trigger] pair_views(s@)[q]),
        decreases s.len() - p,
    {
        let other = &s[p];
        if score > other.0 || (score == other.0 && str_less(path, other.1.path.as_str())) {
            return p;
        }
        p += 1;
    }
    p
}

/// A document view that only its path is read from (ranking looks at the
/// path alone).
pub open spec fn path_view(path: Seq<char>) -> DocView {
    DocView {
        id: None,
        path,
        content: Seq::empty(),
        metadata: arbitrary(),
        embedding_bits: Seq::empty(),
    }
}

/// Scored documents as mathematical pairs.
pub open spec fn pair_views(v: Seq<(u64, MemoryDocument)>) -> Seq<(int, DocView)> {
    v.map_values(|p: (u64, MemoryDocument)| (p.0 as int, p.1@))
}

/// Inserting before the first entry that `x` ranks before is `insert_ranked`.
proof fn lemma_insert_ranked(s: Seq<(int, DocView)>, x: (int, DocView), p: int)
    requires
        0 <= p <= s.len(),
        forall|q: int| 0 <= q < p ==> !ranks_before(x, #[trigger] s[q]),
        p < s.len() ==> ranks_before(x, s[p]),
    ensures
        insert_ranked(s, x) == s.insert(p, x),
    decreases s.len(),
{
    if s.len() == 0 {
        assert(s.insert(p, x) =~= seq![x]);
    } else if p == 0 {
        assert(s.insert(p, x) =~= seq![x] + s);
    } else {
        let t = s.drop_first();
        assert forall|q: int| 0 <= q < p - 1 implies !ranks_before(x, #[trigger] t[q]) by {
            assert(t[q] == s[q + 1]);
        }
        lemma_insert_ranked(t, x, p - 1);
        assert(s.insert(p, x) =~= seq![s[0]] + t.insert(p - 1, x));
    }
}

/// Whether `x` ranks before `y`, for the path ranking only.
proof fn lemma_ranks_path_only(x: (int, DocView), path: Seq<char>, y: (int, DocView))
    requires
        x.1.path == path,
    ensures
        ranks_before(x, y) == ranks_before((x.0, path_view(path)), y),
{
}

/// The documents with a positive score, best first, at most `limit`.
fn rank_documents(docs: &Vec<MemoryDocument>, nq: &str, limit: usize) -> (r: Vec<MemoryDocument>)
    ensures
        doc_views(r@) == search_result(doc_views(docs@), nq@, limit as nat),
{
    let ghost dv = doc_views(docs@);
    let mut sorted: Vec<(u64, MemoryDocument)> = Vec::new();
    let mut i: usize = 0;
    while i < docs.len()
        invariant
            i <= docs.len(),
            dv == doc_views(docs@),
            pair_views(sorted@) == ranked(scored(dv.take(i as int), nq@)),
        decreases docs.len() - i,
    {
        assert(dv.take(i + 1).drop_last() =~= dv.take(i as int));
        assert(dv.take(i + 1).last() == docs@[i as int]@);
        let sc = lexical_score(&docs[i], nq);
        let ghost before = scored(dv.take(i as int), nq@);
        if sc > 0 {
            assert(scored(dv.take(i + 1), nq@) == before.push((sc as int, docs@[i as int]@)));
            assert(before.push((sc as int, docs@[i as int]@)).drop_last() =~= before);
            let p = rank_position(&sorted, sc, docs[i].path.as_str());
            let ghost x = (sc as int, docs@[i as int]@);
            proof {
                assert forall|q: int| 0 <= q < p implies !ranks_before(x, #[trigger] pair_views(sorted@)[q]) by {
                    lemma_ranks_path_only(x, docs@[i as int]@.path, pair_views(sorted@)[q]);
                }
                if p < sorted.len() {
                    lemma_ranks_path_only(x, docs@[i as int]@.path, pair_views(sorted@)[p as int]);
                }
                lemma_insert_ranked(pair_views(sorted@), x, p as int);
            }
            let ghost prev = sorted@;
            sorted.insert(p, (sc, docs[i].duplicate()));
            assert(pair_views(sorted@) =~= pair_views(prev).insert(p as int, x));
        } else {
            assert(scored(dv.take(i + 1), nq@) == before);
        }
        i += 1;
    }
    assert(dv.take(docs.len() as int) =~= dv);
    let ghost all = ranked(scored(dv, nq@)).map_values(|p: (int, DocView)| p.1);
    let mut r: Vec<MemoryDocument> = Vec::new();
    let mut j: usize = 0;
    while j < sorted.len() && j < limit
        invariant
            j <= sorted.len(),
            j <= limit,
            all == pair_views(sorted@).map_values(|p: (int, DocView)| p.1),
            doc_views(r@) == all.take(j as int),
        decreases sorted.len() - j,
    {
        let ghost prev = r@;
        r.push(sorted[j].1.duplicate());
        assert(doc_views(r@) =~= doc_views(prev).push(sorted@[j as int].1@));
        assert(doc_views(r@) =~= all.take(j + 1));
        j += 1;
    }
    assert(all.len() <= limit ==> all.take(all.len() as int) =~= all);
    r
}

// ---------------------------------------------------------------------------
// The store and its cache
// ---------------------------------------------------------------------------

/// Cache counters and size.
#[derive(Debug, Clone, Copy, PartialEq, Eq, Structural)]
pub struct CacheMetrics {
    pub hits: usize,
    pub misses: usize,
    pub entries: usize,
}

impl CacheMetrics {
    /// All counters zero.
    pub fn default() -> (m: CacheMetrics)
        ensures
            m.hits == 0 && m.misses == 0 && m.entries == 0,
    {
        CacheMetrics { hits: 0, misses: 0, entries: 0 }
    }
}

/// The documents a search returned, and whether they came from the cache.
pub struct CachedSearchResult {
    pub documents: Vec<MemoryDocument>,
    pub cache_hit: bool,
}

/// One cached search: normalized query, limit, result.
struct CacheEntry {
    query: String,
    limit: usize,
    documents: Vec<MemoryDocument>,
}

/// The store: documents, cached searches, and hit and miss counters.
pub struct QmdMemory {
    docs: Vec<MemoryDocument>,
    cache: Vec<CacheEntry>,
    hits: usize,
    misses: usize,
}

/// The state of a store, as mathematical values.
pub struct MemoryState {
    pub docs: Seq<DocView>,
    pub cache: Seq<(Seq<char>, nat, Seq<DocView>)>,
    pub hits: nat,
    pub misses: nat,
}

/// The cached result for a key, if any.
pub open spec fn cache_lookup(cache: Seq<(Seq<char>, nat, Seq<DocView>)>, nq: Seq<char>, limit: nat) -> Option<
    Seq<DocView>,
>
    decreases cache.len(),
{
    if cache.len() == 0 {
        None
    } else if cache.last().0 == nq && cache.last().1 == limit {
        Some(cache.last().2)
    } else {
        cache_lookup(cache.drop_last(), nq, limit)
    }
}

/// A well-formed state: every cache key appears once, and every cached result
/// is what a fresh search of the current documents returns.
pub open spec fn state_ok(m: MemoryState) -> bool {
    &&& forall|i: int, j: int|
        0 <= i < j < m.cache.len() ==> !(#[trigger] m.cache[i].0 == #[trigger] m.cache[j].0
            && m.cache[i].1 == m.cache[j].1)
    &&& forall|i: int|
        0 <= i < m.cache.len() ==> (#[trigger] m.cache[i]).2 == search_result(
            m.docs,
            m.cache[i].0,
            m.cache[i].1,
        )
}

/// A counter after one more event (the counters wrap, as atomics do).
pub open spec fn bump(n: nat) -> nat {
    if n >= usize::MAX {
        0
    } else {
        n + 1
    }
}

/// A search of `limit` results for a normalized query: the new state, the
/// documents returned, and whether they came from the cache.
pub open spec fn search_step(m: MemoryState, nq: Seq<char>, limit: nat) -> (MemoryState, Seq<DocView>, bool) {
    match cache_lookup(m.cache, nq, limit) {
        Some(d) => (MemoryState { hits: bump(m.hits), ..m }, d, true),
        None => {
            let d = search_result(m.docs, nq, limit);
            (MemoryState { cache: m.cache.push((nq, limit, d)), misses: bump(m.misses), ..m }, d, false)
        },
    }
}

/// The state after the documents change to `docs`: the cache is emptied.
pub open spec fn change_docs(m: MemoryState, docs: Seq<DocView>) -> MemoryState {
    MemoryState { docs, cache: Seq::empty(), ..m }
}

/// A document is found by a path or id.
pub open spec fn doc_matches(d: DocView, key: Seq<char>) -> bool {
    d.path == key || d.id == Some(key)
}

/// The first document that a path or id finds.
pub open spec fn find_doc(docs: Seq<DocView>, key: Seq<char>) -> Option<int>
    decreases docs.len(),
{
    if docs.len() == 0 {
        None
    } else {
        match find_doc(docs.drop_last(), key) {
            Some(i) => Some(i),
            None => if doc_matches(docs.last(), key) {
                Some(docs.len() - 1)
            } else {
                None
            },
        }
    }
}

/// Merging state after the given items: the documents gathered, and whether
/// merging has stopped (the gathered list reached `limit`).
pub open spec fn merge_scan(items: Seq<DocView>, limit: nat) -> (Seq<DocView>, bool)
    decreases items.len(),
{
    if items.len() == 0 {
        (Seq::empty(), false)
    } else {
        let (prev, stopped) = merge_scan(items.drop_last(), limit);
        if stopped {
            (prev, true)
        } else {
            let d = items.last();
            let next = if seen_key(prev, dedup_key(d)) {
                prev
            } else {
                prev.push(d)
            };
            (next, next.len() >= limit)
        }
    }
}

/// Keyword and vector results merged: keyword results first, each document
/// once (documents are the same when their ids are, or, without an id, their
/// paths), stopping as soon as `limit` documents are gathered.
pub open spec fn merge_results(items: Seq<DocView>, limit: nat) -> Seq<DocView> {
    merge_scan(items, limit).0
}

/// The identity of a document for merging: its id, or "path:" and its path.
pub open spec fn dedup_key(d: DocView) -> Seq<char> {
    match d.id {
        Some(id) => id,
        None => "path:"@ + d.path,
    }
}

/// Some document of the list has that identity.
pub open spec fn seen_key(docs: Seq<DocView>, key: Seq<char>) -> bool {
    exists|i: int| 0 <= i < docs.len() && dedup_key(#[trigger] docs[i]) == key
}

impl QmdMemory {
    /// The state of the store.
    pub closed spec fn state(&self) -> MemoryState {
        MemoryState {
            docs: doc_views(self.docs@),
            cache: self.cache@.map_values(
                |e: CacheEntry| (e.query@, e.limit as nat, doc_views(e.documents@)),
            ),
            hits: self.hits as nat,
            misses: self.misses as nat,
        }
    }

    /// The store is well formed (see `state_ok`).
    #[verifier::type_invariant]
    closed spec fn wf(&self) -> bool {
        state_ok(self.state())
    }

    /// A store holding the given documents, with an empty cache.
    pub fn new(docs: Vec<MemoryDocument>) -> (m: QmdMemory)
        ensures
            m.state() == (MemoryState {
                docs: doc_views(docs@),
                cache: Seq::empty(),
                hits: 0,
                misses: 0,
            }),
    {
        let m = QmdMemory { docs, cache: Vec::new(), hits: 0, misses: 0 };
        assert(m.state().cache =~= Seq::<(Seq<char>, nat, Seq<DocView>)>::empty());
        m
    }

    /// The stored documents.
    pub fn documents(&self) -> (d: &Vec<MemoryDocument>)
        ensures
            doc_views(d@) == self.state().docs,
    {
        &self.docs
    }

    /// The position of the cached result for a key.
    fn lookup(&self, nq: &str, limit: usize) -> (r: Option<usize>)
        ensures
            r matches Some(i) ==> i < self.cache@.len() && cache_lookup(self.state().cache, nq@, limit as nat)
                == Some(self.state().cache[i as int].2),
            r is None ==> cache_lookup(self.state().cache, nq@, limit as nat) is None,
    {
        let ghost c = self.state().cache;
        assert(c.len() == self.cache@.len());
        assert(c.take(self.cache@.len() as int) =~= c);
        let mut i = self.cache.len();
        while i > 0
            invariant
                i <= self.cache.len(),
                c == self.state().cache,
                cache_lookup(c, nq@, limit as nat) == cache_lookup(c.take(i as int), nq@, limit as nat),
            decreases i,
        {
            assert(c.take(i as int).drop_last() =~= c.take(i - 1));
            assert(c.take(i as int).last() == c[i - 1]);
            let e = &self.cache[i - 1];
            if e.limit == limit && str_equal(e.query.as_str(), nq) {
                return Some(i - 1);
            }
            i -= 1;
        }
        None
    }

    /// Searches by keywords, answering from the cache when the same normalized
    /// query and limit were searched since the documents last changed.
    pub fn search_with_cache(&mut self, query_text: &str, limit: usize) -> (r: CachedSearchResult)
        ensures
            doc_views(r.documents@) == search_result(
                old(self).state().docs,
                normalize_query_spec(query_text@),
                limit as nat,
            ),
            ({
                let (m, d, hit) = search_step(
                    old(self).state(),
                    normalize_query_spec(query_text@),
                    limit as nat,
                );
                final(self).state() == m && doc_views(r.documents@) == d && r.cache_hit == hit
            }),
    {
        proof {
            use_type_invariant(&*self);
            law_search_answers_fresh(self.state(), normalize_query_spec(query_text@), limit as nat);
        }
        let nq = normalize_query(query_text);
        let ghost old_state = self.state();
        match self.lookup(nq.as_str(), limit) {
            Some(i) => {
                let documents = duplicate_all(&self.cache[i].documents);
                self.hits = if self.hits == usize::MAX {
                    0
                } else {
                    self.hits + 1
                };
                assert(self.state().cache =~= old_state.cache);
                CachedSearchResult { documents, cache_hit: true }
            },
            None => {
                let documents = rank_documents(&self.docs, nq.as_str(), limit);
                let copy = duplicate_all(&documents);
                let mut cache: Vec<CacheEntry> = Vec::new();
                std::mem::swap(&mut cache, &mut self.cache);
                let ghost views_before = cache@.map_values(
                    |e: CacheEntry| (e.query@, e.limit as nat, doc_views(e.documents@)),
                );
                assert(views_before == old_state.cache);
                cache.push(CacheEntry { query: nq, limit, documents: copy });
                proof {
                    let cv = cache@.map_values(
                        |e: CacheEntry| (e.query@, e.limit as nat, doc_views(e.documents@)),
                    );
                    assert(cv =~= old_state.cache.push((nq@, limit as nat, doc_views(documents@))));
                    assert forall|a: int, b: int|
                        0 <= a < b < cv.len() implies !(#[trigger] cv[a].0 == #[trigger] cv[b].0
                        && cv[a].1 == cv[b].1) by {
                        if b == cv.len() - 1 {
                            lemma_cache_lookup_none(old_state.cache, nq@, limit as nat, a);
                        }
                    }
                }
                self.cache = cache;
                self.misses = if self.misses == usize::MAX {
                    0
                } else {
                    self.misses + 1
                };
                CachedSearchResult { documents, cache_hit: false }
            },
        }
    }

    /// Searches by keywords (see `search_with_cache`), returning the documents.
    pub fn search(&mut self, query_text: &str, limit: usize) -> (r: Vec<MemoryDocument>)
        ensures
            doc_views(r@) == search_result(
                old(self).state().docs,
                normalize_query_spec(query_text@),
                limit as nat,
            ),
            ({
                let (m, d, hit) = search_step(
                    old(self).state(),
                    normalize_query_spec(query_text@),
                    limit as nat,
                );
                final(self).state() == m && doc_views(r@) == d
            }),
    {
        self.search_with_cache(query_text, limit).documents
    }

    /// Hybrid query: the keyword results (through the cache), then, when a
    /// vector search was made, its results, merged (see `merge_results`).
    /// `vector_results` is `None` when the query vector is empty.
    pub fn query(
        &mut self,
        query_text: &str,
        vector_results: Option<Vec<MemoryDocument>>,
        limit: usize,
    ) -> (r: Vec<MemoryDocument>)
        ensures
            ({
                let (m, d, hit) = search_step(
                    old(self).state(),
                    normalize_query_spec(query_text@),
                    limit as nat,
                );
                final(self).state() == m && doc_views(r@) == match vector_results {
                    None => d,
                    Some(v) => merge_results(d + doc_views(v@), limit as nat),
                }
            }),
    {
        let keyword = self.search(query_text, limit);
        match vector_results {
            None => keyword,
            Some(v) => {
                let mut all = keyword;
                let ghost kv = doc_views(all@);
                let mut rest = v;
                let ghost vv = doc_views(rest@);
                all.append(&mut rest);
                assert(doc_views(all@) =~= kv + vv);
                merge_documents(&all, limit)
            },
        }
    }

    /// The first document whose path or id is `path_or_id`.
    pub fn get(&self, path_or_id: &str) -> (r: Option<MemoryDocument>)
        ensures
            match find_doc(self.state().docs, path_or_id@) {
                Some(i) => r matches Some(d) && d@ == self.state().docs[i],
                None => r is None,
            },
    {
        match self.position(path_or_id) {
            Some(i) => {
                assert(self.state().docs[i as int] == self.docs@[i as int]@);
                assert(find_doc(self.state().docs, path_or_id@) == Some(i as int));
                let d = self.docs[i].duplicate();
                assert(d@ == self.state().docs[i as int]);
                Some(d)
            },
            None => None,
        }
    }

    /// The position of the first document whose path or id is `key`.
    fn position(&self, key: &str) -> (r: Option<usize>)
        ensures
            r matches Some(i) ==> find_doc(self.state().docs, key@) == Some(i as int) && i
                < self.docs@.len(),
            r is None ==> find_doc(self.state().docs, key@) is None,
    {
        let ghost dv = self.state().docs;
        let mut i: usize = 0;
        while i < self.docs.len()
            invariant
                i <= self.docs.len(),
                dv == self.state().docs,
                dv.len() == self.docs.len(),
                find_doc(dv.take(i as int), key@) is None,
            decreases self.docs.len() - i,
        {
            assert(dv.take(i + 1).drop_last() =~= dv.take(i as int));
            assert(dv.take(i + 1).last() == self.docs@[i as int]@);
            let d = &self.docs[i];
            let by_id = match &d.id {
                Some(id) => str_equal(id.as_str(), key),
                None => false,
            };
            if str_equal(d.path.as_str(), key) || by_id {
                proof {
                    lemma_find_doc_prefix(dv, key@, (i + 1) as nat);
                }
                return Some(i);
            }
            i += 1;
        }
        assert(dv.take(self.docs.len() as int) =~= dv);
        None
    }

    /// Adds a document; the cache is emptied.
    pub fn add(&mut self, doc: MemoryDocument)
        ensures
            final(self).state() == change_docs(old(self).state(), old(self).state().docs.push(doc@)),
    {
        let ghost old_state = self.state();
        self.cache = Vec::new();
        let mut docs: Vec<MemoryDocument> = Vec::new();
        std::mem::swap(&mut docs, &mut self.docs);
        docs.push(doc);
        self.docs = docs;
        assert(self.state().docs =~= old_state.docs.push(doc@));
        assert(self.state().cache =~= Seq::<(Seq<char>, nat, Seq<DocView>)>::empty());
    }

    /// Removes the first document whose path or id is `path_or_id`; the cache
    /// is emptied when a document was removed.
    pub fn delete(&mut self, path_or_id: &str) -> (r: Option<MemoryDocument>)
        ensures
            match find_doc(old(self).state().docs, path_or_id@) {
                Some(i) => r matches Some(d) && d@ == old(self).state().docs[i] && final(self).state()
                    == change_docs(old(self).state(), old(self).state().docs.remove(i)),
                None => r is None && final(self).state() == old(self).state(),
            },
    {
        let ghost old_state = self.state();
        match self.position(path_or_id) {
            Some(i) => {
                self.cache = Vec::new();
                let mut docs: Vec<MemoryDocument> = Vec::new();
                std::mem::swap(&mut docs, &mut self.docs);
                let d = docs.remove(i);
                self.docs = docs;
                assert(self.state().docs =~= old_state.docs.remove(i as int));
                assert(self.state().cache =~= Seq::<(Seq<char>, nat, Seq<DocView>)>::empty());
                Some(d)
            },
            None => None,
        }
    }

    /// Removes every document, returning how many there were; the cache is emptied.
    pub fn clear(&mut self) -> (n: usize)
        ensures
            n == old(self).state().docs.len(),
            final(self).state() == change_docs(old(self).state(), Seq::empty()),
    {
        let n = self.docs.len();
        self.cache = Vec::new();
        self.docs = Vec::new();
        assert(self.state().docs =~= Seq::<DocView>::empty());
        assert(self.state().cache =~= Seq::<(Seq<char>, nat, Seq<DocView>)>::empty());
        n
    }

    /// The number of documents.
    pub fn count(&self) -> (n: usize)
        ensures
            n == self.state().docs.len(),
    {
        self.docs.len()
    }

    /// Hits, misses, and the number of cached searches.
    pub fn cache_metrics(&self) -> (m: CacheMetrics)
        ensures
            m.hits == self.state().hits,
            m.misses == self.state().misses,
            m.entries == self.state().cache.len(),
    {
        CacheMetrics { hits: self.hits, misses: self.misses, entries: self.cache.len() }
    }
}

/// The merging identity of a document.
fn dedup_key_of(d: &MemoryDocument) -> (k: String)
    ensures
        k@ == dedup_key(d@),
{
    match &d.id {
        Some(id) => id.clone(),
        None => concat("path:", d.path.as_str()),
    }
}

/// Merges documents as `merge_results` says.
fn merge_documents(items: &Vec<MemoryDocument>, limit: usize) -> (r: Vec<MemoryDocument>)
    ensures
        doc_views(r@) == merge_results(doc_views(items@), limit as nat),
{
    let ghost iv = doc_views(items@);
    let mut combined: Vec<MemoryDocument> = Vec::new();
    let mut keys: Vec<String> = Vec::new();
    let mut i: usize = 0;
    while i < items.len()
        invariant
            i <= items.len(),
            iv == doc_views(items@),
            merge_scan(iv.take(i as int), limit as nat) == (doc_views(combined@), false),
            keys@.len() == combined@.len(),
            forall|j: int| 0 <= j < keys@.len() ==> (#[trigger] keys@[j])@ == dedup_key(doc_views(combined@)[j]),
        decreases items.len() - i,
    {
        assert(iv.take(i + 1).drop_last() =~= iv.take(i as int));
        assert(iv.take(i + 1).last() == items@[i as int]@);
        let key = dedup_key_of(&items[i]);
        let mut seen = false;
        let mut j: usize = 0;
        while j < keys.len()
            invariant
                j <= keys.len(),
                keys@.len() == combined@.len(),
                forall|q: int| 0 <= q < keys@.len() ==> (#[trigger] keys@[q])@ == dedup_key(doc_views(combined@)[q]),
                seen == exists|q: int| 0 <= q < j && dedup_key(#[trigger] doc_views(combined@)[q]) == key@,
            decreases keys.len() - j,
        {
            if str_equal(keys[j].as_str(), key.as_str()) {
                seen = true;
            }
            j += 1;
        }
        if !seen {
            let ghost prev = combined@;
            combined.push(items[i].duplicate());
            keys.push(key);
            assert(doc_views(combined@) =~= doc_views(prev).push(items@[i as int]@));
        }
        i += 1;
        assert(merge_scan(iv.take(i as int), limit as nat) == (
            doc_views(combined@),
            combined@.len() >= limit,
        ));
        if combined.len() >= limit {
            proof {
                lemma_merge_stopped(iv, limit as nat, i as nat);
                assert(iv.take(items.len() as int) =~= iv);
            }
            return combined;
        }
    }
    assert(iv.take(items.len() as int) =~= iv);
    combined
}

/// Once merging has stopped, later items change nothing.
proof fn lemma_merge_stopped(items: Seq<DocView>, limit: nat, n: nat)
    requires
        n <= items.len(),
        merge_scan(items.take(n as int), limit).1,
    ensures
        merge_scan(items, limit) == merge_scan(items.take(n as int), limit),
    decreases items.len() - n,
{
    if n < items.len() {
        assert(items.take(n + 1 as int).drop_last() =~= items.take(n as int));
        lemma_merge_stopped(items, limit, n + 1);
    } else {
        assert(items.take(n as int) =~= items);
    }
}

/// A key that `cache_lookup` does not find appears in no entry.
proof fn lemma_cache_lookup_none(
    cache: Seq<(Seq<char>, nat, Seq<DocView>)>,
    nq: Seq<char>,
    limit: nat,
    a: int,
)
    requires
        cache_lookup(cache, nq, limit) is None,
        0 <= a < cache.len(),
    ensures
        !(cache[a].0 == nq && cache[a].1 == limit),
    decreases cache.len(),
{
    if a < cache.len() - 1 {
        lemma_cache_lookup_none(cache.drop_last(), nq, limit, a);
    }
}

/// A document found in a prefix is found in the whole list.
proof fn lemma_find_doc_prefix(docs: Seq<DocView>, key: Seq<char>, n: nat)
    requires
        n <= docs.len(),
        find_doc(docs.take(n as int), key) is Some,
    ensures
        find_doc(docs, key) == find_doc(docs.take(n as int), key),
    decreases docs.len() - n,
{
    if n < docs.len() {
        assert(docs.take(n + 1 as int).drop_last() =~= docs.take(n as int));
        lemma_find_doc_prefix(docs, key, n + 1);
    } else {
        assert(docs.take(n as int) =~= docs);
    }
}

// ---------------------------------------------------------------------------
// Laws of the cache
// ---------------------------------------------------------------------------

/// A key that `cache_lookup` finds is held by some entry, with that result.
proof fn lemma_cache_lookup_some(
    cache: Seq<(Seq<char>, nat, Seq<DocView>)>,
    nq: Seq<char>,
    limit: nat,
) -> (i: int)
    requires
        cache_lookup(cache, nq, limit) is Some,
    ensures
        0 <= i < cache.len(),
        cache[i].0 == nq && cache[i].1 == limit,
        cache_lookup(cache, nq, limit) == Some(cache[i].2),
    decreases cache.len(),
{
    if cache.last().0 == nq && cache.last().1 == limit {
        cache.len() - 1
    } else {
        lemma_cache_lookup_some(cache.drop_last(), nq, limit)
    }
}

/// A search leaves a well-formed state well formed.
pub proof fn law_search_keeps_state_ok(m: MemoryState, nq: Seq<char>, limit: nat)
    requires
        state_ok(m),
    ensures
        state_ok(search_step(m, nq, limit).0),
{
    if cache_lookup(m.cache, nq, limit) is None {
        let m1 = search_step(m, nq, limit).0;
        assert forall|a: int, b: int|
            0 <= a < b < m1.cache.len() implies !(#[trigger] m1.cache[a].0 == #[trigger] m1.cache[b].0
            && m1.cache[a].1 == m1.cache[b].1) by {
            if b == m1.cache.len() - 1 {
                lemma_cache_lookup_none(m.cache, nq, limit, a);
            }
        }
    }
}

/// The cache never changes an answer: in a well-formed state, a search
/// returns exactly what a fresh search of the current documents returns.
pub proof fn law_search_answers_fresh(m: MemoryState, nq: Seq<char>, limit: nat)
    requires
        state_ok(m),
    ensures
        search_step(m, nq, limit).1 == search_result(m.docs, nq, limit),
{
    if cache_lookup(m.cache, nq, limit) is Some {
        let i = lemma_cache_lookup_some(m.cache, nq, limit);
        assert(m.cache[i].2 == search_result(m.docs, m.cache[i].0, m.cache[i].1));
    }
}

/// Repeating a search with nothing changed in between is answered from the
/// cache, with the same documents.
pub proof fn law_repeated_search_hits_cache(m: MemoryState, nq: Seq<char>, limit: nat)
    ensures
        ({
            let (m1, d1, hit1) = search_step(m, nq, limit);
            let (m2, d2, hit2) = search_step(m1, nq, limit);
            hit2 && d2 == d1 && m2.docs == m.docs && m2.cache == m1.cache
        }),
{
}

/// Changing the documents empties the cache, so the next search is a miss
/// computed from the new documents.
pub proof fn law_change_invalidates_cache(m: MemoryState, docs: Seq<DocView>, nq: Seq<char>, limit: nat)
    ensures
        state_ok(change_docs(m, docs)),
        change_docs(m, docs).cache.len() == 0,
        !search_step(change_docs(m, docs), nq, limit).2,
        search_step(change_docs(m, docs), nq, limit).1 == search_result(docs, nq, limit),
{
}


/// A document just added is found by its path, when no earlier document
/// answers to that path (as a path or an id).
pub proof fn law_added_document_is_found(docs: Seq<DocView>, d: DocView)
    requires
        find_doc(docs, d.path) is None,
    ensures
        find_doc(docs.push(d), d.path) == Some(docs.len() as int),
{
    assert(docs.push(d).drop_last() =~= docs);
}


proof fn lemma_merge_scan(items: Seq<DocView>, limit: nat)
    ensures
        ({
            let (out, stopped) = merge_scan(items, limit);
            &&& out.len() <= if limit == 0 { 1 } else { limit }
            &&& !stopped ==> (out.len() == 0 || out.len() < limit)
            &&& forall|i: int, j: int|
                0 <= i < j < out.len() ==> dedup_key(#[trigger] out[i]) != dedup_key(#[trigger] out[j])
        }),
    decreases items.len(),
{
    if items.len() > 0 {
        lemma_merge_scan(items.drop_last(), limit);
        let (prev, stopped) = merge_scan(items.drop_last(), limit);
        if !stopped {
            let d = items.last();
            if !seen_key(prev, dedup_key(d)) {
                let next = prev.push(d);
                assert forall|i: int, j: int|
                    0 <= i < j < next.len() implies dedup_key(#[trigger] next[i]) != dedup_key(#[trigger] next[j]) by {
                    if j == next.len() - 1 {
                        assert(next[i] == prev[i]);
                        if dedup_key(prev[i]) == dedup_key(d) {
                            assert(seen_key(prev, dedup_key(d)));
                        }
                    } else {
                        assert(next[i] == prev[i] && next[j] == prev[j]);
                    }
                }
            }
        }
    }
}

/// Merged results name each document once and hold at most `limit` of them
/// (one, when `limit` is 0 and there is anything to merge).
pub proof fn law_merged_results_distinct(items: Seq<DocView>, limit: nat)
    ensures
        merge_results(items, limit).len() <= if limit == 0 { 1 } else { limit },
        forall|i: int, j: int|
            0 <= i < j < merge_results(items, limit).len() ==> dedup_key(
                #[trigger] merge_results(items, limit)[i],
            ) != dedup_key(#[trigger] merge_results(items, limit)[j]),
{
    lemma_merge_scan(items, limit);
}


/// Neither of two texts comes before the other in both directions.
proof fn lemma_text_lt_asymmetric(a: Seq<char>, b: Seq<char>)
    ensures
        !(text_lt(a, b) && text_lt(b, a)),
    decreases a.len(),
{
    if a.len() > 0 && b.len() > 0 && a[0] == b[0] {
        lemma_text_lt_asymmetric(a.drop_first(), b.drop_first());
    }
}

/// Each entry is ranked no lower than the next.
pub open spec fn rank_sorted(s: Seq<(int, DocView)>) -> bool {
    forall|i: int| 0 <= i < s.len() - 1 ==> !ranks_before(#[trigger] s[i + 1], s[i])
}

proof fn lemma_insert_keeps_sorted(s: Seq<(int, DocView)>, x: (int, DocView))
    requires
        rank_sorted(s),
    ensures
        rank_sorted(insert_ranked(s, x)),
        insert_ranked(s, x).len() == s.len() + 1,
        insert_ranked(s, x)[0] == x || (s.len() > 0 && insert_ranked(s, x)[0] == s[0]),
    decreases s.len(),
{
    if s.len() > 0 {
        if ranks_before(x, s[0]) {
            let r = seq![x] + s;
            assert forall|i: int| 0 <= i < r.len() - 1 implies !ranks_before(#[trigger] r[i + 1], r[i]) by {
                if i == 0 {
                    assert(r[0] == x && r[1] == s[0]);
                    lemma_text_lt_asymmetric(x.1.path, s[0].1.path);
                } else {
                    let k = i - 1;
                    assert(r[i] == s[k] && r[i + 1] == s[k + 1]);
                    assert(!ranks_before(s[k + 1], s[k]));
                }
            }
        } else {
            let rest = s.drop_first();
            assert(rank_sorted(rest)) by {
                assert forall|i: int| 0 <= i < rest.len() - 1 implies !ranks_before(#[trigger] rest[i + 1], rest[i]) by {
                    let k = i + 1;
                    assert(rest[i] == s[k] && rest[i + 1] == s[k + 1]);
                    assert(!ranks_before(s[k + 1], s[k]));
                }
            }
            lemma_insert_keeps_sorted(rest, x);
            let tail = insert_ranked(rest, x);
            let r = seq![s[0]] + tail;
            assert forall|i: int| 0 <= i < r.len() - 1 implies !ranks_before(#[trigger] r[i + 1], r[i]) by {
                if i == 0 {
                    assert(r[0] == s[0] && r[1] == tail[0]);
                    if tail[0] != x {
                        assert(tail[0] == rest[0]);
                        assert(rest[0] == s[1]);
                        assert(!ranks_before(s[0int + 1], s[0]));
                    }
                } else {
                    let k = i - 1;
                    assert(r[i] == tail[k] && r[i + 1] == tail[k + 1]);
                    assert(!ranks_before(tail[k + 1], tail[k]));
                }
            }
        }
    }
}

/// Search results come best first: in the ranking, no entry ranks before the
/// one ahead of it (a higher score first; on equal scores, the smaller path).
pub proof fn law_ranking_is_sorted(items: Seq<(int, DocView)>)
    ensures
        rank_sorted(ranked(items)),
        ranked(items).len() == items.len(),
    decreases items.len(),
{
    if items.len() > 0 {
        law_ranking_is_sorted(items.drop_last());
        lemma_insert_keeps_sorted(ranked(items.drop_last()), items.last());
    }
}

/// A text with no whitespace scans as one unfinished word: itself.
proof fn lemma_scan_single_word(s: Seq<char>, n: int)
    requires
        0 <= n <= s.len(),
        forall|i: int| 0 <= i < n ==> !is_white(#[trigger] s[i]),
    ensures
        scan_words(s, n).0 == Seq::<Seq<char>>::empty(),
        scan_words(s, n).1 == s.take(n),
    decreases n,
{
    if n > 0 {
        lemma_scan_single_word(s, n - 1);
        assert(s.take(n) =~= s.take(n - 1).push(s[n - 1]));
    }
}

/// A pattern found at or after `i` is counted at least once from `i`.
proof fn lemma_found_is_counted(s: Seq<char>, pat: Seq<char>, i: int)
    requires
        pat.len() > 0,
        first_from(s, pat, i) is Some,
    ensures
        count_from(s, pat, i) >= 1,
    decreases s.len() + 1 - i,
{
    if !occurs_at(s, pat, i) {
        lemma_found_is_counted(s, pat, i + 1);
    }
}

/// How a document scores for a one-word query `t`: the occurrences of `t` in
/// its lowercase content plus twice those in its lowercase path (capped at
/// `u64::MAX`). So a document whose path holds the word scores at least 2.
pub proof fn law_one_word_score(doc: DocView, t: Seq<char>)
    requires
        t.len() > 0,
        forall|i: int| 0 <= i < t.len() ==> !is_white(#[trigger] t[i]),
    ensures
        lexical_score_spec(doc, t) == cap(
            count_from(lowercase_of(doc.content), t, 0) as int + 2 * count_from(lowercase_of(doc.path), t, 0) as int,
        ),
        has_substring(lowercase_of(doc.path), t) ==> lexical_score_spec(doc, t) >= 2,
        has_substring(lowercase_of(doc.content), t) ==> lexical_score_spec(doc, t) >= 1,
{
    lemma_scan_single_word(t, t.len() as int);
    assert(t.take(t.len() as int) =~= t);
    assert(split_words(t) == seq![t]);
    assert(seq![t].drop_last() =~= Seq::<Seq<char>>::empty());
    let cl = lowercase_of(doc.content);
    let pl = lowercase_of(doc.path);
    assert(hits_sum(Seq::<Seq<char>>::empty(), cl, pl) == 0);
    assert(seq![t].last() == t);
    assert(hits_sum(seq![t], cl, pl) == term_hits(cl, pl, t));
    if has_substring(lowercase_of(doc.path), t) {
        lemma_found_is_counted(lowercase_of(doc.path), t, 0);
    }
    if has_substring(lowercase_of(doc.content), t) {
        lemma_found_is_counted(lowercase_of(doc.content), t, 0);
    }
}

proof fn lemma_scored_len(docs: Seq<DocView>, nq: Seq<char>)
    ensures
        scored(docs, nq).len() <= docs.len(),
    decreases docs.len(),
{
    if docs.len() > 0 {
        lemma_scored_len(docs.drop_last(), nq);
    }
}

proof fn lemma_scored_keeps(docs: Seq<DocView>, nq: Seq<char>, i: int)
    requires
        0 <= i < docs.len(),
        lexical_score_spec(docs[i], nq) > 0,
    ensures
        scored(docs, nq).contains((lexical_score_spec(docs[i], nq), docs[i])),
    decreases docs.len(),
{
    let prev = scored(docs.drop_last(), nq);
    let x = (lexical_score_spec(docs[i], nq), docs[i]);
    if i == docs.len() - 1 {
        assert(scored(docs, nq) == prev.push(x));
        assert(prev.push(x)[prev.len() as int] == x);
    } else {
        assert(docs.drop_last()[i] == docs[i]);
        lemma_scored_keeps(docs.drop_last(), nq, i);
        let k = choose|k: int| 0 <= k < prev.len() && prev[k] == x;
        if lexical_score_spec(docs.last(), nq) > 0 {
            let d = docs.last();
            assert(prev.push((lexical_score_spec(d, nq), d))[k] == x);
        }
    }
}

proof fn lemma_insert_ranked_keeps(s: Seq<(int, DocView)>, x: (int, DocView))
    ensures
        insert_ranked(s, x).contains(x),
        forall|y: (int, DocView)| s.contains(y) ==> insert_ranked(s, x).contains(y),
    decreases s.len(),
{
    let r = insert_ranked(s, x);
    if s.len() == 0 {
        assert(r[0] == x);
    } else if ranks_before(x, s[0]) {
        assert(r[0] == x);
        assert forall|y: (int, DocView)| s.contains(y) implies r.contains(y) by {
            let k = choose|k: int| 0 <= k < s.len() && s[k] == y;
            assert(r[k + 1] == y);
        }
    } else {
        let rest = s.drop_first();
        lemma_insert_ranked_keeps(rest, x);
        let tail = insert_ranked(rest, x);
        assert(r == seq![s[0]] + tail);
        let j = choose|j: int| 0 <= j < tail.len() && tail[j] == x;
        assert(r[j + 1] == x);
        assert forall|y: (int, DocView)| s.contains(y) implies r.contains(y) by {
            let k = choose|k: int| 0 <= k < s.len() && s[k] == y;
            if k == 0 {
                assert(r[0] == y);
            } else {
                assert(rest[k - 1] == y);
                assert(rest.contains(y));
                let m = choose|m: int| 0 <= m < tail.len() && tail[m] == y;
                assert(r[m + 1] == y);
            }
        }
    }
}

proof fn lemma_ranked_keeps(items: Seq<(int, DocView)>)
    ensures
        forall|y: (int, DocView)| items.contains(y) ==> ranked(items).contains(y),
    decreases items.len(),
{
    if items.len() > 0 {
        let prev = items.drop_last();
        lemma_ranked_keeps(prev);
        lemma_insert_ranked_keeps(ranked(prev), items.last());
        assert forall|y: (int, DocView)| items.contains(y) implies ranked(items).contains(y) by {
            let k = choose|k: int| 0 <= k < items.len() && items[k] == y;
            if k < items.len() - 1 {
                assert(prev[k] == y);
                assert(prev.contains(y));
            }
        }
    }
}

/// A one-word search finds every document whose path holds the word (path
/// hits count), provided the limit admits every document.
pub proof fn law_path_match_is_found(docs: Seq<DocView>, t: Seq<char>, i: int, limit: nat)
    requires
        t.len() > 0,
        forall|k: int| 0 <= k < t.len() ==> !is_white(#[trigger] t[k]),
        0 <= i < docs.len(),
        has_substring(lowercase_of(docs[i].path), t),
        docs.len() <= limit,
    ensures
        search_result(docs, t, limit).contains(docs[i]),
{
    law_one_word_score(docs[i], t);
    lemma_scored_keeps(docs, t, i);
    lemma_scored_len(docs, t);
    let sc = scored(docs, t);
    lemma_ranked_keeps(sc);
    law_ranking_is_sorted(sc);
    let x = (lexical_score_spec(docs[i], t), docs[i]);
    let rk = ranked(sc);
    let k = choose|k: int| 0 <= k < rk.len() && rk[k] == x;
    let r = rk.map_values(|p: (int, DocView)| p.1);
    assert(r[k] == docs[i]);
}

proof fn lemma_insert_ranked_from(s: Seq<(int, DocView)>, x: (int, DocView))
    ensures
        forall|y: (int, DocView)| #![trigger insert_ranked(s, x).contains(y)]
            insert_ranked(s, x).contains(y) ==> y == x || s.contains(y),
    decreases s.len(),
{
    let r = insert_ranked(s, x);
    if s.len() > 0 {
        if ranks_before(x, s[0]) {
            assert forall|y: (int, DocView)| r.contains(y) implies y == x || s.contains(y) by {
                let k = choose|k: int| 0 <= k < r.len() && r[k] == y;
                if k > 0 {
                    assert(s[k - 1] == y);
                }
            }
        } else {
            let rest = s.drop_first();
            lemma_insert_ranked_from(rest, x);
            let tail = insert_ranked(rest, x);
            assert(r == seq![s[0]] + tail);
            assert forall|y: (int, DocView)| r.contains(y) implies y == x || s.contains(y) by {
                let k = choose|k: int| 0 <= k < r.len() && r[k] == y;
                if k == 0 {
                    assert(s[0] == y);
                } else {
                    assert(tail[k - 1] == y);
                    assert(tail.contains(y));
                    if y != x {
                        assert(rest.contains(y));
                        let m = choose|m: int| 0 <= m < rest.len() && rest[m] == y;
                        assert(s[m + 1] == y);
                    }
                }
            }
        }
    }
}

proof fn lemma_ranked_from(items: Seq<(int, DocView)>)
    ensures
        forall|y: (int, DocView)| #![trigger ranked(items).contains(y)]
            ranked(items).contains(y) ==> items.contains(y),
    decreases items.len(),
{
    if items.len() > 0 {
        let prev = items.drop_last();
        lemma_ranked_from(prev);
        lemma_insert_ranked_from(ranked(prev), items.last());
        assert forall|y: (int, DocView)| ranked(items).contains(y) implies items.contains(y) by {
            if y == items.last() {
                assert(items[items.len() - 1] == y);
            } else {
                assert(prev.contains(y));
                let k = choose|k: int| 0 <= k < prev.len() && prev[k] == y;
                assert(items[k] == y);
            }
        }
    }
}

proof fn lemma_scored_from(docs: Seq<DocView>, nq: Seq<char>)
    ensures
        forall|p: (int, DocView)| #![trigger scored(docs, nq).contains(p)]
            scored(docs, nq).contains(p) ==> p.0 == lexical_score_spec(p.1, nq) && p.0 > 0 && docs.contains(p.1),
    decreases docs.len(),
{
    if docs.len() > 0 {
        let prev = docs.drop_last();
        lemma_scored_from(prev, nq);
        let ps = scored(prev, nq);
        assert forall|p: (int, DocView)| scored(docs, nq).contains(p) implies p.0 == lexical_score_spec(p.1, nq)
            && p.0 > 0 && docs.contains(p.1) by {
            let k = choose|k: int| 0 <= k < scored(docs, nq).len() && scored(docs, nq)[k] == p;
            if k < ps.len() {
                assert(ps[k] == p);
                assert(ps.contains(p));
                let j = choose|j: int| 0 <= j < prev.len() && prev[j] == p.1;
                assert(docs[j] == p.1);
            } else {
                assert(p.1 == docs[docs.len() - 1]);
            }
        }
    }
}

/// A keyword search returns at most `limit` documents, each of them a
/// document of the store that scores above zero for the query.
pub proof fn law_search_returns_scoring_documents(docs: Seq<DocView>, nq: Seq<char>, limit: nat)
    ensures
        search_result(docs, nq, limit).len() <= limit,
        forall|d: DocView|
            search_result(docs, nq, limit).contains(d) ==> docs.contains(d) && lexical_score_spec(d, nq) > 0,
{
    let sc = scored(docs, nq);
    let rk = ranked(sc);
    lemma_scored_from(docs, nq);
    lemma_ranked_from(sc);
    let r = rk.map_values(|p: (int, DocView)| p.1);
    let res = search_result(docs, nq, limit);
    assert forall|d: DocView| res.contains(d) implies docs.contains(d) && lexical_score_spec(d, nq) > 0 by {
        let k = choose|k: int| 0 <= k < res.len() && res[k] == d;
        assert(res[k] == r[k]);
        assert(r[k] == rk[k].1);
        assert(rk.contains(rk[k]));
        assert(sc.contains(rk[k]));
    }
}

} // verus!
