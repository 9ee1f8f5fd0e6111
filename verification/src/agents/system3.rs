//! System 3, the actor: answers a query from the documents that retrieval
//! found, preferring dates for "when" questions.

use vstd::prelude::*;

use crate::agents::temporal::{
    clean_date, clean_date_spec, date_answer, extract_date_answer, extract_relative_date_answer,
    has_temporal_signal, relative_date_answer, temporal_signal,
};
use crate::text::{
    chars_equal, concat, contains, join_sep, join_with, has_substring, is_ascii_alnum, join_space, join_with_space,
    is_ascii_upper, is_digit, lowercase_of, plain_ascii, push_char, str_contains, str_equal, string_from, texts, to_chars, to_lowercase,
    trim, trim_chars,
};

verus! {

// ---------------------------------------------------------------------------
// Retrieved documents
// ---------------------------------------------------------------------------

/// A metadata value, as far as answering reads it: a string, the string items
/// of an array, or anything else.
pub enum MetaValue {
    Text(String),
    List(Vec<String>),
    Other,
}

/// One key of a document's metadata object, in the object's order.
pub struct MetaEntry {
    pub key: String,
    pub value: MetaValue,
}

/// A document found by retrieval.
pub struct RetrievedDocument {
    pub id: String,
    pub path: String,
    pub content: String,
    pub metadata: Vec<MetaEntry>,
}

/// The value stored under `key` (the first entry with that key).
pub open spec fn meta_lookup(entries: Seq<MetaEntry>, key: Seq<char>) -> Option<MetaValue>
    decreases entries.len(),
{
    if entries.len() == 0 {
        None
    } else if entries[0].key@ == key {
        Some(entries[0].value)
    } else {
        meta_lookup(entries.drop_first(), key)
    }
}

/// The string stored under `key`, if that value is a string.
pub open spec fn meta_text(doc: RetrievedDocument, key: Seq<char>) -> Option<Seq<char>> {
    match meta_lookup(doc.metadata@, key) {
        Some(MetaValue::Text(t)) => Some(t@),
        _ => None,
    }
}

/// The strings of a metadata value.
pub open spec fn value_strings(v: MetaValue) -> Seq<Seq<char>> {
    match v {
        MetaValue::Text(t) => seq![t@],
        MetaValue::List(items) => texts(items@),
        MetaValue::Other => Seq::empty(),
    }
}

/// The strings of all metadata values, in order, leaving out the entries
/// whose key is `skip`.
pub open spec fn meta_strings(entries: Seq<MetaEntry>, skip: Option<Seq<char>>) -> Seq<Seq<char>>
    decreases entries.len(),
{
    if entries.len() == 0 {
        Seq::empty()
    } else {
        let e = entries.last();
        let prev = meta_strings(entries.drop_last(), skip);
        if skip == Some(e.key@) {
            prev
        } else {
            prev + value_strings(e.value)
        }
    }
}

/// The category of a document ("conversation", "observation", ...), or empty.
pub open spec fn category_of(doc: RetrievedDocument) -> Seq<char> {
    match meta_text(doc, "category"@) {
        Some(c) => c,
        None => Seq::empty(),
    }
}

/// Path, content and every metadata string, joined with spaces.
pub open spec fn scoring_text(doc: RetrievedDocument) -> Seq<char> {
    join_space(seq![doc.path@, doc.content@] + meta_strings(doc.metadata@, None))
}

/// Content and every metadata string but the session time, joined with spaces.
pub open spec fn answer_text(doc: RetrievedDocument) -> Seq<char> {
    join_space(seq![doc.content@] + meta_strings(doc.metadata@, Some("session_time"@)))
}

/// A copy of a string.
fn copy_string(s: &String) -> (r: String)
    ensures
        r@ == s@,
{
    s.clone()
}

/// The string stored under `key` in the metadata.
pub fn meta_get_text(metadata: &Vec<MetaEntry>, key: &str) -> (r: Option<String>)
    ensures
        r matches Some(t) ==> meta_lookup(metadata@, key@) matches Some(MetaValue::Text(u))
            && u@ == t@,
        r is None ==> !(meta_lookup(metadata@, key@) matches Some(MetaValue::Text(_))),
{
    assert(metadata@.skip(0) =~= metadata@);
    let mut i: usize = 0;
    while i < metadata.len()
        invariant
            i <= metadata.len(),
            meta_lookup(metadata@, key@) == meta_lookup(metadata@.skip(i as int), key@),
        decreases metadata.len() - i,
    {
        assert(metadata@.skip(i as int).drop_first() =~= metadata@.skip(i + 1));
        if str_equal(metadata[i].key.as_str(), key) {
            return match &metadata[i].value {
                MetaValue::Text(t) => Some(copy_string(t)),
                _ => None,
            };
        }
        i += 1;
    }
    None
}

/// Appends the strings of `metadata` (all but the entries keyed `skip`) to `parts`.
fn push_meta_strings(metadata: &Vec<MetaEntry>, skip: Option<&str>, parts: &mut Vec<String>)
    ensures
        texts(final(parts)@) == texts(old(parts)@) + meta_strings(
            metadata@,
            match skip {
                Some(k) => Some(k@),
                None => None,
            },
        ),
{
    let ghost sk = match skip {
        Some(k) => Some(k@),
        None => None::<Seq<char>>,
    };
    let ghost start = texts(parts@);
    let mut i: usize = 0;
    while i < metadata.len()
        invariant
            i <= metadata.len(),
            sk == match skip {
                Some(k) => Some(k@),
                None => None::<Seq<char>>,
            },
            texts(parts@) == start + meta_strings(metadata@.take(i as int), sk),
        decreases metadata.len() - i,
    {
        assert(metadata@.take(i + 1).drop_last() =~= metadata@.take(i as int));
        assert(metadata@.take(i + 1).last() == metadata@[i as int]);
        let entry = &metadata[i];
        let skipped = match skip {
            Some(k) => str_equal(entry.key.as_str(), k),
            None => false,
        };
        if !skipped {
            assert(sk != Some(entry.key@));
            assert(meta_strings(metadata@.take(i + 1), sk) == meta_strings(
                metadata@.take(i as int),
                sk,
            ) + value_strings(entry.value));
            match &entry.value {
                MetaValue::Text(t) => {
                    let ghost prev = parts@;
                    parts.push(copy_string(t));
                    assert(texts(parts@) =~= texts(prev).push(t@));
                    assert(texts(parts@) =~= start + meta_strings(metadata@.take(i + 1), sk));
                },
                MetaValue::List(items) => {
                    let ghost before = texts(parts@);
                    let mut j: usize = 0;
                    while j < items.len()
                        invariant
                            j <= items.len(),
                            texts(parts@) == before + texts(items@).take(j as int),
                        decreases items.len() - j,
                    {
                        let ghost prev = parts@;
                        parts.push(copy_string(&items[j]));
                        assert(texts(parts@) =~= texts(prev).push(items@[j as int]@));
                        assert(texts(items@).take(j + 1) =~= texts(items@).take(j as int).push(
                            items@[j as int]@,
                        ));
                        assert(texts(parts@) =~= before + texts(items@).take(j + 1));
                        j += 1;
                    }
                    assert(texts(items@).take(items@.len() as int) =~= texts(items@));
                    assert(texts(parts@) =~= start + meta_strings(metadata@.take(i + 1), sk));
                },
                MetaValue::Other => {
                    assert(texts(parts@) =~= start + meta_strings(metadata@.take(i + 1), sk));
                },
            }
        } else {
            assert(texts(parts@) =~= start + meta_strings(metadata@.take(i + 1), sk));
        }
        i += 1;
    }
    assert(metadata@.take(metadata@.len() as int) =~= metadata@);
}

/// The category of a document, or the empty string.
pub fn doc_category(doc: &RetrievedDocument) -> (r: String)
    ensures
        r@ == category_of(*doc),
{
    match meta_get_text(&doc.metadata, "category") {
        Some(c) => c,
        None => String::new(),
    }
}

/// Path, content and metadata strings of a document, joined with spaces.
pub fn doc_text_for_scoring(doc: &RetrievedDocument) -> (r: String)
    ensures
        r@ == scoring_text(*doc),
{
    let mut parts: Vec<String> = Vec::new();
    parts.push(copy_string(&doc.path));
    parts.push(copy_string(&doc.content));
    assert(texts(parts@) =~= seq![doc.path@, doc.content@]);
    push_meta_strings(&doc.metadata, None, &mut parts);
    join_with_space(&parts)
}

/// Content and metadata strings of a document (not its session time), joined
/// with spaces.
pub fn doc_answer_text(doc: &RetrievedDocument) -> (r: String)
    ensures
        r@ == answer_text(*doc),
{
    let mut parts: Vec<String> = Vec::new();
    parts.push(copy_string(&doc.content));
    assert(texts(parts@) =~= seq![doc.content@]);
    push_meta_strings(&doc.metadata, Some("session_time"), &mut parts);
    join_with_space(&parts)
}

// ---------------------------------------------------------------------------
// Query terms
// ---------------------------------------------------------------------------

/// Words that carry no topic.
pub open spec fn stop_words() -> Seq<Seq<char>> {
    seq![
        "when"@,
        "what"@,
        "have"@,
        "that"@,
        "with"@,
        "from"@,
        "into"@,
        "this"@,
        "your"@,
        "about"@,
        "did"@,
        "does"@,
        "the"@,
        "and"@,
        "for"@,
        "who"@,
        "why"@,
        "how"@,
        "where"@,
        "was"@,
        "were"@,
        "after"@,
        "before"@,
        "they"@,
        "them"@,
        "went"@,
    ]
}

/// A word is kept as a query term: longer than two characters and no stop word.
pub open spec fn keep_term(w: Seq<char>) -> bool {
    w.len() > 2 && !stop_words().contains(w)
}

/// Scanning state after the first `n` characters of `s`: the words completed
/// so far that are kept as terms, and the word being read.
pub open spec fn scan_terms(s: Seq<char>, n: int) -> (Seq<Seq<char>>, Seq<char>)
    decreases n,
{
    if n <= 0 {
        (Seq::empty(), Seq::empty())
    } else {
        let (done, cur) = scan_terms(s, n - 1);
        let c = s[n - 1];
        if is_ascii_alnum(c) {
            (done, cur.push(c))
        } else if keep_term(cur) {
            (done.push(cur), Seq::empty())
        } else {
            (done, Seq::empty())
        }
    }
}

/// The terms of a text as it stands: split at every character that is not an
/// ASCII letter or digit, keeping the words `keep_term` accepts.
pub open spec fn terms_of(s: Seq<char>) -> Seq<Seq<char>> {
    let (done, cur) = scan_terms(s, s.len() as int);
    if keep_term(cur) {
        done.push(cur)
    } else {
        done
    }
}

/// The terms of a query: the terms of its lowercase form.
pub open spec fn query_terms_spec(query: Seq<char>) -> Seq<Seq<char>> {
    terms_of(lowercase_of(query))
}

/// A character a term can hold: a small ASCII letter or a digit.
pub open spec fn is_term_char(c: char) -> bool {
    is_digit(c) || ('a' <= c && c <= 'z')
}

/// A well-formed term: kept by `keep_term`, made of small ASCII letters and
/// digits.
pub open spec fn term_ok(t: Seq<char>) -> bool {
    keep_term(t) && forall|i: int| 0 <= i < t.len() ==> is_term_char(#[trigger] t[i])
}

/// The words of a text that has no ASCII capitals are well-formed terms in
/// the making.
proof fn lemma_scan_terms_ok(s: Seq<char>, n: int)
    requires
        0 <= n <= s.len(),
        forall|i: int| 0 <= i < s.len() ==> !is_ascii_upper(#[trigger] s[i]),
    ensures
        forall|k: int| 0 <= k < scan_terms(s, n).0.len() ==> term_ok(#[trigger] scan_terms(s, n).0[k]),
        forall|i: int| 0 <= i < scan_terms(s, n).1.len() ==> is_term_char(#[trigger] scan_terms(s, n).1[i]),
    decreases n,
{
    if n > 0 {
        lemma_scan_terms_ok(s, n - 1);
        let (done, cur) = scan_terms(s, n - 1);
        let c = s[n - 1];
        if is_ascii_alnum(c) {
            assert(!is_ascii_upper(c));
            assert forall|i: int| 0 <= i < cur.push(c).len() implies is_term_char(#[trigger] cur.push(c)[i]) by {
                if i < cur.len() {
                    assert(cur.push(c)[i] == cur[i]);
                }
            }
        } else if keep_term(cur) {
            assert forall|k: int| 0 <= k < done.push(cur).len() implies term_ok(#[trigger] done.push(cur)[k]) by {
                if k < done.len() {
                    assert(done.push(cur)[k] == done[k]);
                }
            }
        }
    }
}

/// The terms of a text without ASCII capitals are well formed.
proof fn lemma_terms_of_ok(s: Seq<char>)
    requires
        forall|i: int| 0 <= i < s.len() ==> !is_ascii_upper(#[trigger] s[i]),
    ensures
        forall|k: int| 0 <= k < terms_of(s).len() ==> term_ok(#[trigger] terms_of(s)[k]),
{
    lemma_scan_terms_ok(s, s.len() as int);
    let (done, cur) = scan_terms(s, s.len() as int);
    if keep_term(cur) {
        assert forall|k: int| 0 <= k < done.push(cur).len() implies term_ok(#[trigger] done.push(cur)[k]) by {
            if k < done.len() {
                assert(done.push(cur)[k] == done[k]);
            }
        }
    }
}

/// Scanning depends only on the characters scanned.
proof fn lemma_scan_prefix(s: Seq<char>, t: Seq<char>, n: int)
    requires
        0 <= n <= s.len(),
        n <= t.len(),
        s.take(n) == t.take(n),
    ensures
        scan_terms(s, n) == scan_terms(t, n),
    decreases n,
{
    if n > 0 {
        assert(s.take(n - 1) =~= s.take(n).take(n - 1));
        assert(t.take(n - 1) =~= t.take(n).take(n - 1));
        lemma_scan_prefix(s, t, n - 1);
        assert(s[n - 1] == s.take(n)[n - 1]);
        assert(t[n - 1] == t.take(n)[n - 1]);
    }
}

/// Scanning letters and digits only lengthens the word being read.
proof fn lemma_scan_alnum(s: Seq<char>, m: int, k: int)
    requires
        0 <= m,
        0 <= k,
        m + k <= s.len(),
        forall|i: int| m <= i < m + k ==> is_ascii_alnum(#[trigger] s[i]),
    ensures
        scan_terms(s, m + k) == (scan_terms(s, m).0, scan_terms(s, m).1 + s.subrange(m, m + k)),
    decreases k,
{
    if k > 0 {
        lemma_scan_alnum(s, m, k - 1);
        assert(is_ascii_alnum(s[m + k - 1]));
        assert(scan_terms(s, m).1 + s.subrange(m, m + k) =~= (scan_terms(s, m).1 + s.subrange(
            m,
            m + k - 1,
        )).push(s[m + k - 1]));
    } else {
        assert(scan_terms(s, m).1 + s.subrange(m, m) =~= scan_terms(s, m).1);
    }
}

/// Scanning well-formed terms joined by spaces gives them back: all but the
/// last completed, the last being read.
proof fn lemma_scan_join(ts: Seq<Seq<char>>)
    requires
        ts.len() > 0,
        forall|k: int| 0 <= k < ts.len() ==> term_ok(#[trigger] ts[k]),
    ensures
        scan_terms(join_space(ts), join_space(ts).len() as int) == (ts.drop_last(), ts.last()),
    decreases ts.len(),
{
    let j = join_space(ts);
    let last = ts.last();
    assert(term_ok(ts[ts.len() - 1]));
    if ts.len() == 1 {
        assert(j == ts[0]);
        lemma_scan_alnum(j, 0, j.len() as int);
        assert(Seq::<char>::empty() + j.subrange(0, j.len() as int) =~= j);
        assert(ts.drop_last() =~= Seq::<Seq<char>>::empty());
    } else {
        let front = ts.drop_last();
        assert forall|k: int| 0 <= k < front.len() implies term_ok(#[trigger] front[k]) by {
            assert(front[k] == ts[k]);
        }
        lemma_scan_join(front);
        let jf = join_space(front);
        let m = jf.len() as int;
        assert(j == jf + seq![' '] + last);
        assert(j.take(m) =~= jf.take(m));
        lemma_scan_prefix(j, jf, m);
        assert(jf.take(m) =~= jf);
        assert(j[m] == ' ');
        assert(term_ok(front[front.len() - 1]));
        assert(front.drop_last().push(front.last()) =~= front);
        assert(scan_terms(j, m + 1) == (front, Seq::<char>::empty()));
        assert forall|i: int| m + 1 <= i < m + 1 + last.len() implies is_ascii_alnum(#[trigger] j[i]) by {
            assert(j[i] == last[i - m - 1]);
            assert(is_term_char(last[i - m - 1]));
        }
        lemma_scan_alnum(j, m + 1, last.len() as int);
        assert(Seq::<char>::empty() + j.subrange(m + 1, m + 1 + last.len()) =~= last);
    }
}

/// Text joined from well-formed terms has no ASCII capitals and no character
/// outside ASCII.
proof fn lemma_join_plain(ts: Seq<Seq<char>>)
    requires
        forall|k: int| 0 <= k < ts.len() ==> term_ok(#[trigger] ts[k]),
    ensures
        plain_ascii(join_space(ts)),
    decreases ts.len(),
{
    if ts.len() == 1 {
        assert(term_ok(ts[0]));
        assert forall|i: int| 0 <= i < ts[0].len() implies (#[trigger] ts[0][i] as u32) < 128
            && !is_ascii_upper(ts[0][i]) by {
            assert(is_term_char(ts[0][i]));
        }
    } else if ts.len() > 1 {
        let front = ts.drop_last();
        assert forall|k: int| 0 <= k < front.len() implies term_ok(#[trigger] front[k]) by {
            assert(front[k] == ts[k]);
        }
        lemma_join_plain(front);
        let jf = join_space(front);
        let last = ts.last();
        assert(term_ok(ts[ts.len() - 1]));
        let j = join_space(ts);
        assert(j == jf + seq![' '] + last);
        assert forall|i: int| 0 <= i < j.len() implies (#[trigger] j[i] as u32) < 128 && !is_ascii_upper(j[i]) by {
            if i < jf.len() {
                assert(j[i] == jf[i]);
            } else if i == jf.len() {
                assert(j[i] == ' ');
            } else {
                assert(j[i] == last[i - jf.len() - 1]);
                assert(is_term_char(last[i - jf.len() - 1]));
            }
        }
    }
}

/// Query terms are stable: joining well-formed terms with spaces and taking
/// the terms again gives them back, and the joined text is unchanged by
/// lowercasing (so `query_terms` of it returns the same terms).
pub proof fn law_query_terms_rejoin(ts: Seq<Seq<char>>)
    requires
        forall|k: int| 0 <= k < ts.len() ==> term_ok(#[trigger] ts[k]),
    ensures
        plain_ascii(join_space(ts)),
        terms_of(join_space(ts)) == ts,
{
    lemma_join_plain(ts);
    if ts.len() == 0 {
        assert(join_space(ts) == Seq::<char>::empty());
    } else {
        lemma_scan_join(ts);
        assert(term_ok(ts[ts.len() - 1]));
        assert(ts.drop_last().push(ts.last()) =~= ts);
    }
}

/// Adjacent pairs of terms, joined by a space.
pub open spec fn phrases_spec(terms: Seq<Seq<char>>) -> Seq<Seq<char>> {
    if terms.len() < 2 {
        Seq::empty()
    } else {
        Seq::new((terms.len() - 1) as nat, |i: int| terms[i] + seq![' '] + terms[i + 1])
    }
}

/// The word is a stop word.
fn is_stop_word(w: &Vec<char>) -> (b: bool)
    ensures
        b == stop_words().contains(w@),
{
    let words: [&str; 26] = [
        "when",
        "what",
        "have",
        "that",
        "with",
        "from",
        "into",
        "this",
        "your",
        "about",
        "did",
        "does",
        "the",
        "and",
        "for",
        "who",
        "why",
        "how",
        "where",
        "was",
        "were",
        "after",
        "before",
        "they",
        "them",
        "went",
    ];
    assert(forall|k: int| 0 <= k < 26 ==> (#[trigger] words@[k])@ == stop_words()[k]);
    let mut k: usize = 0;
    while k < 26
        invariant
            k <= 26,
            forall|j: int| 0 <= j < 26 ==> (#[trigger] words@[j])@ == stop_words()[j],
            forall|j: int| 0 <= j < k ==> stop_words()[j] != w@,
        decreases 26 - k,
    {
        if chars_equal(w, &to_chars(words[k])) {
            assert(stop_words()[k as int] == w@);
            return true;
        }
        k += 1;
    }
    assert(!stop_words().contains(w@)) by {
        if stop_words().contains(w@) {
            let j = choose|j: int| 0 <= j < stop_words().len() && stop_words()[j] == w@;
            assert(stop_words()[j] != w@);
        }
    }
    false
}

/// The word is kept as a query term.
fn is_kept_term(w: &Vec<char>) -> (b: bool)
    ensures
        b == keep_term(w@),
{
    w.len() > 2 && !is_stop_word(w)
}

/// The topical terms of a query (see `query_terms_spec`).
pub fn query_terms(query: &str) -> (terms: Vec<String>)
    ensures
        texts(terms@) == query_terms_spec(query@),
        forall|k: int| 0 <= k < terms@.len() ==> term_ok(#[trigger] texts(terms@)[k]),
        plain_ascii(query@) ==> texts(terms@) == terms_of(query@),
{
    let lowered_text = to_lowercase(query);
    proof {
        lemma_terms_of_ok(lowered_text@);
    }
    let lowered = to_chars(lowered_text.as_str());
    let mut terms: Vec<String> = Vec::new();
    let mut cur: Vec<char> = Vec::new();
    let mut i: usize = 0;
    while i < lowered.len()
        invariant
            i <= lowered.len(),
            texts(terms@) == scan_terms(lowered@, i as int).0,
            cur@ == scan_terms(lowered@, i as int).1,
        decreases lowered.len() - i,
    {
        let c = lowered[i];
        if ('0' <= c && c <= '9') || ('a' <= c && c <= 'z') || ('A' <= c && c <= 'Z') {
            cur.push(c);
        } else {
            if is_kept_term(&cur) {
                terms.push(string_from(&cur));
                assert(texts(terms@) =~= scan_terms(lowered@, i + 1).0);
            }
            cur = Vec::new();
        }
        i += 1;
    }
    if is_kept_term(&cur) {
        terms.push(string_from(&cur));
        assert(texts(terms@) =~= query_terms_spec(query@));
    }
    terms
}

/// Adjacent pairs of terms joined by a space (`windows(2)`).
pub fn query_phrases(terms: &Vec<String>) -> (phrases: Vec<String>)
    ensures
        texts(phrases@) == phrases_spec(texts(terms@)),
{
    let mut phrases: Vec<String> = Vec::new();
    if terms.len() < 2 {
        assert(texts(phrases@) =~= phrases_spec(texts(terms@)));
        return phrases;
    }
    let mut i: usize = 0;
    while i + 1 < terms.len()
        invariant
            terms.len() >= 2,
            i + 1 <= terms.len(),
            texts(phrases@) == phrases_spec(texts(terms@)).take(i as int),
        decreases terms.len() - i,
    {
        let mut p = copy_string(&terms[i]);
        push_char(&mut p, ' ');
        p.append(terms[i + 1].as_str());
        let ghost prev = phrases@;
        phrases.push(p);
        assert(texts(phrases@) =~= texts(prev).push(p@));
        assert(phrases_spec(texts(terms@))[i as int] == p@);
        assert(texts(phrases@) =~= phrases_spec(texts(terms@)).take(i + 1));
        i += 1;
    }
    assert(phrases_spec(texts(terms@)).take(i as int) =~= phrases_spec(texts(terms@)));
    phrases
}

/// The lowercase form of a query.
pub fn query_lower(query: &str) -> (r: String)
    ensures
        r@ == lowercase_of(query@),
{
    to_lowercase(query)
}

// ---------------------------------------------------------------------------
// Snippets
// ---------------------------------------------------------------------------

/// The first `max` characters of `text`, trimmed.
pub open spec fn snippet_spec(text: Seq<char>, max: nat) -> Seq<char> {
    trim(if text.len() <= max { text } else { text.take(max as int) })
}

/// The first `max_chars` characters of `text`, trimmed.
pub fn snippet(text: &str, max_chars: usize) -> (r: String)
    ensures
        r@ == snippet_spec(text@, max_chars as nat),
{
    let v = to_chars(text);
    let mut head: Vec<char> = Vec::new();
    let mut i: usize = 0;
    while i < v.len() && i < max_chars
        invariant
            i <= v.len(),
            i <= max_chars,
            head@ == v@.take(i as int),
        decreases v.len() - i,
    {
        head.push(v[i]);
        assert(v@.take(i + 1) =~= v@.take(i as int).push(v@[i as int]));
        i += 1;
    }
    assert(v@.len() <= max_chars ==> v@.take(v@.len() as int) =~= v@);
    string_from(&trim_chars(&head))
}

/// The trimmed, non-empty contents of the documents, in order.
pub open spec fn non_empty_contents(docs: Seq<RetrievedDocument>) -> Seq<Seq<char>>
    decreases docs.len(),
{
    if docs.len() == 0 {
        Seq::empty()
    } else {
        let t = trim(docs.last().content@);
        let prev = non_empty_contents(docs.drop_last());
        if t.len() > 0 {
            prev.push(t)
        } else {
            prev
        }
    }
}

/// The first `limit` trimmed, non-empty document contents.
pub open spec fn top_contents_spec(docs: Seq<RetrievedDocument>, limit: nat) -> Seq<Seq<char>> {
    let all = non_empty_contents(docs);
    if all.len() <= limit {
        all
    } else {
        all.take(limit as int)
    }
}

/// The first `limit` trimmed, non-empty document contents.
pub fn top_non_empty_contents(docs: &Vec<RetrievedDocument>, limit: usize) -> (r: Vec<String>)
    ensures
        texts(r@) == top_contents_spec(docs@, limit as nat),
{
    let mut r: Vec<String> = Vec::new();
    let mut i: usize = 0;
    while i < docs.len()
        invariant
            i <= docs.len(),
            texts(r@) == top_contents_spec(docs@.take(i as int), limit as nat),
            r.len() <= limit,
        decreases docs.len() - i,
    {
        if r.len() >= limit {
            proof {
                lemma_top_contents_full(docs@, i as nat, limit as nat);
            }
            return r;
        }
        assert(docs@.take(i + 1).drop_last() =~= docs@.take(i as int));
        assert(docs@.take(i + 1).last() == docs@[i as int]);
        let t = trim_chars(&to_chars(docs[i].content.as_str()));
        let ghost all_i = non_empty_contents(docs@.take(i as int));
        assert(texts(r@).len() == r@.len());
        assert(all_i.len() <= limit);
        if t.len() > 0 {
            let ghost prev = r@;
            r.push(string_from(&t));
            assert(texts(r@) =~= texts(prev).push(t@));
            assert(non_empty_contents(docs@.take(i + 1)) == all_i.push(t@));
            assert(texts(r@) =~= top_contents_spec(docs@.take(i + 1), limit as nat));
        } else {
            assert(non_empty_contents(docs@.take(i + 1)) == all_i);
        }
        i += 1;
    }
    assert(docs@.take(docs@.len() as int) =~= docs@);
    r
}

/// Once `limit` contents are found among the first `i` documents, later
/// documents do not change the answer.
proof fn lemma_top_contents_full(docs: Seq<RetrievedDocument>, i: nat, limit: nat)
    requires
        i <= docs.len(),
        top_contents_spec(docs.take(i as int), limit).len() >= limit,
    ensures
        top_contents_spec(docs, limit) == top_contents_spec(docs.take(i as int), limit),
    decreases docs.len() - i,
{
    if i < docs.len() {
        lemma_non_empty_prefix(docs, i, (i + 1) as nat);
        lemma_top_contents_full(docs, (i + 1) as nat, limit);
        let a = non_empty_contents(docs.take(i as int));
        let b = non_empty_contents(docs.take(i + 1 as int));
        assert(b.take(limit as int) =~= a.take(limit as int));
    } else {
        assert(docs.take(i as int) =~= docs);
    }
}

/// The contents found in a prefix are a prefix of those found in a longer prefix.
proof fn lemma_non_empty_prefix(docs: Seq<RetrievedDocument>, i: nat, j: nat)
    requires
        i <= j <= docs.len(),
    ensures
        non_empty_contents(docs.take(i as int)).len() <= non_empty_contents(docs.take(j as int)).len(),
        non_empty_contents(docs.take(j as int)).take(
            non_empty_contents(docs.take(i as int)).len() as int,
        ) == non_empty_contents(docs.take(i as int)),
    decreases j - i,
{
    if i < j {
        lemma_non_empty_prefix(docs, i, (j - 1) as nat);
        assert(docs.take(j as int).drop_last() =~= docs.take(j - 1));
        let a = non_empty_contents(docs.take(i as int));
        let b = non_empty_contents(docs.take(j - 1));
        let c = non_empty_contents(docs.take(j as int));
        assert(c.take(a.len() as int) =~= b.take(a.len() as int));
    } else {
        let a = non_empty_contents(docs.take(i as int));
        assert(a.take(a.len() as int) =~= a);
    }
}


// ---------------------------------------------------------------------------
// Scoring a document against query terms
// ---------------------------------------------------------------------------

/// The speaker recorded in a document's metadata, or empty.
pub open spec fn speaker_of(doc: RetrievedDocument) -> Seq<char> {
    match meta_text(doc, "speaker"@) {
        Some(s) => s,
        None => Seq::empty(),
    }
}

/// Points for one term: 4 if it is the speaker, 2 if the scoring text holds it,
/// 2 if the content holds it (all compared in lowercase).
pub open spec fn term_points(t: Seq<char>, speaker: Seq<char>, sl: Seq<char>, cl: Seq<char>) -> int {
    (if speaker == t { 4int } else { 0int }) + (if has_substring(sl, t) { 2int } else { 0int }) + (
    if has_substring(cl, t) { 2int } else { 0int })
}

/// Sum of `term_points` over the terms.
pub open spec fn terms_points(
    ts: Seq<Seq<char>>,
    speaker: Seq<char>,
    sl: Seq<char>,
    cl: Seq<char>,
) -> int
    decreases ts.len(),
{
    if ts.len() == 0 {
        0
    } else {
        terms_points(ts.drop_last(), speaker, sl, cl) + term_points(ts.last(), speaker, sl, cl)
    }
}

/// Points for one phrase: 5 if the content holds it, else 2 if the scoring
/// text holds it.
pub open spec fn phrase_points(p: Seq<char>, sl: Seq<char>, cl: Seq<char>) -> int {
    if has_substring(cl, p) {
        5
    } else if has_substring(sl, p) {
        2
    } else {
        0
    }
}

/// Sum of `phrase_points` over the phrases.
pub open spec fn phrases_points(ps: Seq<Seq<char>>, sl: Seq<char>, cl: Seq<char>) -> int
    decreases ps.len(),
{
    if ps.len() == 0 {
        0
    } else {
        phrases_points(ps.drop_last(), sl, cl) + phrase_points(ps.last(), sl, cl)
    }
}

/// The score before the category adjustment.
pub open spec fn raw_score(doc: RetrievedDocument, terms: Seq<Seq<char>>) -> int {
    let st = scoring_text(doc);
    let sl = lowercase_of(st);
    let cl = lowercase_of(doc.content@);
    let sp = lowercase_of(speaker_of(doc));
    terms_points(terms, sp, sl, cl) + phrases_points(phrases_spec(terms), sl, cl) + (if temporal_signal(
        st,
    ) {
        3int
    } else {
        0int
    }) + (if temporal_signal(doc.content@) {
        6int
    } else {
        0int
    })
}

/// How well a document matches the query terms: zero without terms; otherwise
/// the raw score, plus 5 for a conversation, plus 1 for an observation, and
/// less 4 (not below zero) for a session summary.
pub open spec fn score_spec(doc: RetrievedDocument, terms: Seq<Seq<char>>) -> int {
    if terms.len() == 0 {
        0
    } else {
        let raw = raw_score(doc, terms);
        let cat = category_of(doc);
        if cat == "conversation"@ {
            raw + 5
        } else if cat == "observation"@ {
            raw + 1
        } else if cat == "session_summary"@ {
            if raw >= 4 {
                raw - 4
            } else {
                0
            }
        } else {
            raw
        }
    }
}

/// Number of terms that the lowercase content holds.
pub open spec fn overlap_count(ts: Seq<Seq<char>>, cl: Seq<char>) -> int
    decreases ts.len(),
{
    if ts.len() == 0 {
        0
    } else {
        overlap_count(ts.drop_last(), cl) + (if has_substring(cl, ts.last()) {
            1int
        } else {
            0int
        })
    }
}

/// Number of terms that a document's content holds (in lowercase).
pub open spec fn overlap_spec(doc: RetrievedDocument, terms: Seq<Seq<char>>) -> int {
    overlap_count(terms, lowercase_of(doc.content@))
}

/// Scores a document against query terms (see `score_spec`). The score is
/// returned as a `u128`, which holds every value the sum can take.
pub fn score_doc_for_query(doc: &RetrievedDocument, terms: &Vec<String>) -> (score: u128)
    ensures
        score as int == score_spec(*doc, texts(terms@)),
{
    if terms.len() == 0 {
        return 0;
    }
    let searchable = doc_text_for_scoring(doc);
    let sl = to_chars(to_lowercase(searchable.as_str()).as_str());
    let cl = to_chars(to_lowercase(doc.content.as_str()).as_str());
    let speaker_raw = match meta_get_text(&doc.metadata, "speaker") {
        Some(s) => s,
        None => String::new(),
    };
    let sp = to_chars(to_lowercase(speaker_raw.as_str()).as_str());
    let category = doc_category(doc);
    let ghost ts = texts(terms@);
    let mut score: u128 = 0;
    let mut i: usize = 0;
    while i < terms.len()
        invariant
            i <= terms.len(),
            ts == texts(terms@),
            score as int == terms_points(ts.take(i as int), sp@, sl@, cl@),
            score <= 8 * i,
        decreases terms.len() - i,
    {
        assert(ts.take(i + 1).drop_last() =~= ts.take(i as int));
        let t = to_chars(terms[i].as_str());
        if chars_equal(&sp, &t) {
            score = score + 4;
        }
        if contains(&sl, &t) {
            score = score + 2;
        }
        if contains(&cl, &t) {
            score = score + 2;
        }
        i += 1;
    }
    assert(ts.take(terms.len() as int) =~= ts);
    let phrases = query_phrases(terms);
    let ghost ps = texts(phrases@);
    assert(ps.len() == phrases@.len());
    assert(phrases_spec(ts).len() <= ts.len());
    let ghost base = score as int;
    let mut j: usize = 0;
    while j < phrases.len()
        invariant
            j <= phrases.len(),
            ps == texts(phrases@),
            phrases.len() <= terms.len(),
            score as int == base + phrases_points(ps.take(j as int), sl@, cl@),
            base <= 8 * terms.len(),
            score <= base + 5 * j,
        decreases phrases.len() - j,
    {
        assert(ps.take(j + 1).drop_last() =~= ps.take(j as int));
        let p = to_chars(phrases[j].as_str());
        if contains(&cl, &p) {
            score = score + 5;
        } else if contains(&sl, &p) {
            score = score + 2;
        }
        j += 1;
    }
    assert(ps.take(phrases.len() as int) =~= ps);
    if has_temporal_signal(searchable.as_str()) {
        score = score + 3;
    }
    if has_temporal_signal(doc.content.as_str()) {
        score = score + 6;
    }
    if str_equal(category.as_str(), "conversation") {
        score = score + 5;
    } else if str_equal(category.as_str(), "observation") {
        score = score + 1;
    } else if str_equal(category.as_str(), "session_summary") {
        score = if score >= 4 {
            score - 4
        } else {
            0
        };
    }
    score
}

/// Number of terms that a document's content holds, compared in lowercase.
pub fn term_overlap_in_content(doc: &RetrievedDocument, terms: &Vec<String>) -> (n: usize)
    ensures
        n as int == overlap_spec(*doc, texts(terms@)),
{
    let cl = to_chars(to_lowercase(doc.content.as_str()).as_str());
    let ghost ts = texts(terms@);
    let mut n: usize = 0;
    let mut i: usize = 0;
    while i < terms.len()
        invariant
            i <= terms.len(),
            ts == texts(terms@),
            n as int == overlap_count(ts.take(i as int), cl@),
            n <= i,
        decreases terms.len() - i,
    {
        assert(ts.take(i + 1).drop_last() =~= ts.take(i as int));
        if contains(&cl, &to_chars(terms[i].as_str())) {
            n = n + 1;
        }
        i += 1;
    }
    assert(ts.take(terms.len() as int) =~= ts);
    n
}


// ---------------------------------------------------------------------------
// Choosing a date answer
// ---------------------------------------------------------------------------

/// How much a document's category is trusted: 2 for a conversation, 1 for an
/// observation, 0 otherwise.
pub open spec fn priority_of(doc: RetrievedDocument) -> int {
    let c = category_of(doc);
    if c == "conversation"@ {
        2
    } else if c == "observation"@ {
        1
    } else {
        0
    }
}

/// Lexicographic `>=` on triples.
pub open spec fn lex3_ge(a: (int, int, int), b: (int, int, int)) -> bool {
    a.0 > b.0 || (a.0 == b.0 && (a.1 > b.1 || (a.1 == b.1 && a.2 >= b.2)))
}

/// Lexicographic `>=` on quadruples.
pub open spec fn lex4_ge(a: (int, int, int, int), b: (int, int, int, int)) -> bool {
    a.0 > b.0 || (a.0 == b.0 && lex3_ge((a.1, a.2, a.3), (b.1, b.2, b.3)))
}

/// The rank of a relative-date candidate: priority, term overlap, score.
pub open spec fn relative_key(doc: RetrievedDocument, terms: Seq<Seq<char>>) -> (int, int, int) {
    (priority_of(doc), overlap_spec(doc, terms), score_spec(doc, terms))
}

/// The relative date that a document's content resolves to against its own
/// session time.
pub open spec fn relative_candidate(doc: RetrievedDocument) -> Option<Seq<char>> {
    match meta_text(doc, "session_time"@) {
        Some(st) => relative_date_answer(doc.content@, st),
        None => None,
    }
}

/// Among documents with a relative-date candidate, the last one of greatest
/// rank (as `Iterator::max_by_key` picks), with its rank and answer.
pub open spec fn best_relative(docs: Seq<RetrievedDocument>, terms: Seq<Seq<char>>) -> Option<
    ((int, int, int), Seq<char>),
>
    decreases docs.len(),
{
    if docs.len() == 0 {
        None
    } else {
        let prev = best_relative(docs.drop_last(), terms);
        let d = docs.last();
        match relative_candidate(d) {
            None => prev,
            Some(a) => match prev {
                None => Some((relative_key(d, terms), a)),
                Some(p) => if lex3_ge(relative_key(d, terms), p.0) {
                    Some((relative_key(d, terms), a))
                } else {
                    prev
                },
            },
        }
    }
}

/// The rank of a document for an explicit answer: priority, whether its
/// answer text names a date, term overlap, score.
pub open spec fn doc_key(doc: RetrievedDocument, terms: Seq<Seq<char>>) -> (int, int, int, int) {
    (
        priority_of(doc),
        if date_answer(answer_text(doc)) is Some {
            1int
        } else {
            0int
        },
        overlap_spec(doc, terms),
        score_spec(doc, terms),
    )
}

/// The index of the last document of greatest `doc_key`, with that key.
pub open spec fn best_doc(docs: Seq<RetrievedDocument>, terms: Seq<Seq<char>>) -> Option<
    ((int, int, int, int), int),
>
    decreases docs.len(),
{
    if docs.len() == 0 {
        None
    } else {
        let k = doc_key(docs.last(), terms);
        let i = docs.len() - 1;
        match best_doc(docs.drop_last(), terms) {
            None => Some((k, i)),
            Some(p) => if lex4_ge(k, p.0) {
                Some((k, i))
            } else {
                Some(p)
            },
        }
    }
}

/// The date answer that one document gives: an explicit date in its answer
/// text, else a relative date resolved against its session time, else the
/// tidied session time itself.
pub open spec fn doc_date_answer(doc: RetrievedDocument) -> Option<Seq<char>> {
    let at = answer_text(doc);
    match date_answer(at) {
        Some(a) => Some(a),
        None => match meta_text(doc, "session_time"@) {
            None => None,
            Some(st) => match relative_date_answer(at, st) {
                Some(r) => Some(r),
                None => Some(clean_date_spec(st)),
            },
        },
    }
}

/// The answer to a "when" question: the best-ranked relative date if any
/// document has one; otherwise the date answer of the best-ranked document.
pub open spec fn best_date_answer_spec(query: Seq<char>, docs: Seq<RetrievedDocument>) -> Option<
    Seq<char>,
> {
    let terms = query_terms_spec(query);
    match best_relative(docs, terms) {
        Some(c) => Some(c.1),
        None => match best_doc(docs, terms) {
            Some(b) => doc_date_answer(docs[b.1]),
            None => None,
        },
    }
}

/// Lexicographic `>=` on ranks of relative-date candidates.
fn key3_ge(a: (usize, usize, u128), b: (usize, usize, u128)) -> (r: bool)
    ensures
        r == lex3_ge((a.0 as int, a.1 as int, a.2 as int), (b.0 as int, b.1 as int, b.2 as int)),
{
    a.0 > b.0 || (a.0 == b.0 && (a.1 > b.1 || (a.1 == b.1 && a.2 >= b.2)))
}

/// Lexicographic `>=` on document ranks.
fn key4_ge(a: (usize, usize, usize, u128), b: (usize, usize, usize, u128)) -> (r: bool)
    ensures
        r == lex4_ge(
            (a.0 as int, a.1 as int, a.2 as int, a.3 as int),
            (b.0 as int, b.1 as int, b.2 as int, b.3 as int),
        ),
{
    a.0 > b.0 || (a.0 == b.0 && key3_ge((a.1, a.2, a.3), (b.1, b.2, b.3)))
}

/// The priority of a document's category.
fn category_priority(doc: &RetrievedDocument) -> (p: usize)
    ensures
        p as int == priority_of(*doc),
{
    let c = doc_category(doc);
    if str_equal(c.as_str(), "conversation") {
        2
    } else if str_equal(c.as_str(), "observation") {
        1
    } else {
        0
    }
}

/// The date answer of one document (see `doc_date_answer`).
fn date_answer_of(doc: &RetrievedDocument) -> (r: Option<String>)
    ensures
        r matches Some(a) ==> doc_date_answer(*doc) == Some(a@),
        r is None ==> doc_date_answer(*doc) is None,
{
    let at = doc_answer_text(doc);
    match extract_date_answer(at.as_str()) {
        Some(a) => Some(a),
        None => match meta_get_text(&doc.metadata, "session_time") {
            None => None,
            Some(st) => match extract_relative_date_answer(at.as_str(), st.as_str()) {
                Some(r) => Some(r),
                None => Some(clean_date(st.as_str())),
            },
        },
    }
}

/// Answers a "when" question from the documents (see `best_date_answer_spec`).
pub fn best_date_answer(query: &str, docs: &Vec<RetrievedDocument>) -> (r: Option<String>)
    ensures
        r matches Some(a) ==> best_date_answer_spec(query@, docs@) == Some(a@),
        r is None ==> best_date_answer_spec(query@, docs@) is None,
{
    let terms = query_terms(query);
    let ghost ts = texts(terms@);
    let mut best: Option<((usize, usize, u128), String)> = None;
    let mut i: usize = 0;
    while i < docs.len()
        invariant
            i <= docs.len(),
            ts == texts(terms@),
            ts == query_terms_spec(query@),
            match best {
                None => best_relative(docs@.take(i as int), ts) is None,
                Some(b) => best_relative(docs@.take(i as int), ts) == Some(
                    ((b.0.0 as int, b.0.1 as int, b.0.2 as int), b.1@),
                ),
            },
        decreases docs.len() - i,
    {
        assert(docs@.take(i + 1).drop_last() =~= docs@.take(i as int));
        assert(docs@.take(i + 1).last() == docs@[i as int]);
        let doc = &docs[i];
        if let Some(st) = meta_get_text(&doc.metadata, "session_time") {
            if let Some(answer) = extract_relative_date_answer(doc.content.as_str(), st.as_str()) {
                let key = (
                    category_priority(doc),
                    term_overlap_in_content(doc, &terms),
                    score_doc_for_query(doc, &terms),
                );
                let replace = match &best {
                    None => true,
                    Some(b) => key3_ge(key, b.0),
                };
                if replace {
                    best = Some((key, answer));
                }
            }
        }
        i += 1;
    }
    assert(docs@.take(docs.len() as int) =~= docs@);
    if let Some(b) = best {
        return Some(b.1);
    }
    let mut pick: Option<((usize, usize, usize, u128), usize)> = None;
    let mut j: usize = 0;
    while j < docs.len()
        invariant
            j <= docs.len(),
            ts == texts(terms@),
            match pick {
                None => best_doc(docs@.take(j as int), ts) is None && j == 0,
                Some(p) => p.1 < j && best_doc(docs@.take(j as int), ts) == Some(
                    ((p.0.0 as int, p.0.1 as int, p.0.2 as int, p.0.3 as int), p.1 as int),
                ),
            },
        decreases docs.len() - j,
    {
        assert(docs@.take(j + 1).drop_last() =~= docs@.take(j as int));
        assert(docs@.take(j + 1).last() == docs@[j as int]);
        let doc = &docs[j];
        let explicit: usize = if extract_date_answer(doc_answer_text(doc).as_str()).is_some() {
            1
        } else {
            0
        };
        let key = (
            category_priority(doc),
            explicit,
            term_overlap_in_content(doc, &terms),
            score_doc_for_query(doc, &terms),
        );
        let replace = match &pick {
            None => true,
            Some(p) => key4_ge(key, p.0),
        };
        if replace {
            pick = Some((key, j));
        }
        j += 1;
    }
    match pick {
        None => None,
        Some(p) => date_answer_of(&docs[p.1]),
    }
}


// ---------------------------------------------------------------------------
// Answering without a language model
// ---------------------------------------------------------------------------

/// The query asks what two things have in common.
pub open spec fn asks_in_common(lowered: Seq<char>) -> bool {
    (has_substring(lowered, "what do"@) && has_substring(lowered, "both"@)) || (has_substring(
        lowered,
        "what do"@,
    ) && has_substring(lowered, "have in common"@)) || (has_substring(lowered, "how do"@)
        && has_substring(lowered, "both"@))
}

/// The answer given from the documents alone.
///
/// With no documents it says so, quoting the query. A "when" question gets
/// the best date answer when there is one. A question about what two things
/// have in common gets the first two non-empty contents, joined. Otherwise the
/// first document's content is the answer; when that is blank, a fixed
/// message. Answers taken from contents are cut to 220 characters and trimmed.
pub open spec fn heuristic_answer_spec(query: Seq<char>, docs: Seq<RetrievedDocument>) -> Seq<
    char,
> {
    if docs.len() == 0 {
        "I couldn't find sufficient information to answer your query about '"@ + query + "'."@
    } else {
        let lowered = lowercase_of(query);
        let date = if has_substring(lowered, "when"@) {
            best_date_answer_spec(query, docs)
        } else {
            None
        };
        match date {
            Some(a) => a,
            None => {
                let joined = join_space(top_contents_spec(docs, 2));
                let first = trim(docs[0].content@);
                if asks_in_common(lowered) && joined.len() > 0 {
                    snippet_spec(joined, 220)
                } else if first.len() > 0 {
                    snippet_spec(first, 220)
                } else {
                    "I found relevant memory, but the best answer could not be synthesized yet."@
                }
            },
        }
    }
}

/// A question that holds "when" in any letter case gets the best date answer
/// whenever the documents give one.
pub proof fn law_when_questions_get_dates(
    query: Seq<char>,
    docs: Seq<RetrievedDocument>,
    a: Seq<char>,
)
    requires
        docs.len() > 0,
        has_substring(lowercase_of(query), "when"@),
        best_date_answer_spec(query, docs) == Some(a),
    ensures
        heuristic_answer_spec(query, docs) == a,
{
}

/// With documents at hand, the answer does not depend on the letter case in
/// which the question was typed: two queries that lowercase alike get the
/// same answer.
pub proof fn law_answer_ignores_letter_case(
    q1: Seq<char>,
    q2: Seq<char>,
    docs: Seq<RetrievedDocument>,
)
    requires
        docs.len() > 0,
        lowercase_of(q1) == lowercase_of(q2),
    ensures
        heuristic_answer_spec(q1, docs) == heuristic_answer_spec(q2, docs),
{
    assert(query_terms_spec(q1) == query_terms_spec(q2));
    assert(best_date_answer_spec(q1, docs) == best_date_answer_spec(q2, docs));
}

/// Configuration of the actor.
pub struct ActorConfig {
    pub use_llm: bool,
    pub max_actions: usize,
}

impl ActorConfig {
    /// Language model on, at most five actions.
    pub fn default() -> (c: ActorConfig)
        ensures
            c.use_llm,
            c.max_actions == 5,
    {
        ActorConfig { use_llm: true, max_actions: 5 }
    }
}

/// Where the language model is reached: the API key, the model and the
/// endpoint. The HTTP client itself lives with the caller.
pub struct LlmClient {
    pub api_key: String,
    pub model: String,
    pub endpoint: String,
}

/// The key used when no API key is configured.
pub open spec fn demo_key() -> Seq<char> {
    "demo-key"@
}

/// The instructions sent to the language model before the user's prompt.
pub open spec fn system_prompt_spec() -> Seq<char> {
    "You are a helpful AI assistant part of the Cortex memory system. \nYou have access to relevant documents from the memory store. Use this context to answer the user's question accurately.\n\nIf you find relevant information in the context, use it to form your answer.\nIf you don't find enough information, say so honestly.\nBe concise but informative."@
}

/// One context entry: "- {content}\n  Source: {path}".
pub open spec fn context_entry(doc: RetrievedDocument) -> Seq<char> {
    "- "@ + doc.content@ + "\n  Source: "@ + doc.path@
}

/// The context entries of the documents, in order.
pub open spec fn context_entries(docs: Seq<RetrievedDocument>) -> Seq<Seq<char>> {
    Seq::new(docs.len(), |i: int| context_entry(docs[i]))
}

/// The user prompt: the context entries separated by blank lines, then the question.
pub open spec fn user_prompt_spec(query: Seq<char>, docs: Seq<RetrievedDocument>) -> Seq<char> {
    "Context from memory:\n"@ + join_sep(context_entries(docs), "\n\n"@) + "\n\nUser question: "@
        + query
}

impl LlmClient {
    /// The client for the keys found in the environment: the MiniMax key if
    /// set, else the OpenAI key, else `demo-key`; the MiniMax text model and
    /// its chat-completion endpoint.
    pub fn from_keys(minimax_key: Option<String>, openai_key: Option<String>) -> (c: LlmClient)
        ensures
            c.api_key@ == match minimax_key {
                Some(k) => k@,
                None => match openai_key {
                    Some(k) => k@,
                    None => demo_key(),
                },
            },
            c.model@ == "MiniMax-Text-01"@,
            c.endpoint@ == "https://api.minimax.chat/v1/text/chatcompletion_pro"@,
    {
        let api_key = match minimax_key {
            Some(k) => k,
            None => match openai_key {
                Some(k) => k,
                None => "demo-key".to_owned(),
            },
        };
        LlmClient {
            api_key,
            model: "MiniMax-Text-01".to_owned(),
            endpoint: "https://api.minimax.chat/v1/text/chatcompletion_pro".to_owned(),
        }
    }

    /// No real key is configured, so answers come from the documents alone.
    pub fn uses_fallback(&self) -> (b: bool)
        ensures
            b == (self.api_key@ == demo_key() || self.api_key@.len() == 0),
    {
        str_equal(self.api_key.as_str(), "demo-key") || self.api_key.as_str().is_empty()
    }

    /// The system prompt.
    pub fn system_prompt() -> (s: String)
        ensures
            s@ == system_prompt_spec(),
    {
        "You are a helpful AI assistant part of the Cortex memory system. \nYou have access to relevant documents from the memory store. Use this context to answer the user's question accurately.\n\nIf you find relevant information in the context, use it to form your answer.\nIf you don't find enough information, say so honestly.\nBe concise but informative.".to_owned()
    }

    /// The user prompt for a query and its context documents.
    pub fn user_prompt(query: &str, docs: &Vec<RetrievedDocument>) -> (s: String)
        ensures
            s@ == user_prompt_spec(query@, docs@),
    {
        let mut entries: Vec<String> = Vec::new();
        let mut i: usize = 0;
        while i < docs.len()
            invariant
                i <= docs.len(),
                texts(entries@) == context_entries(docs@).take(i as int),
            decreases docs.len() - i,
        {
            let mut e = "- ".to_owned();
            e.append(docs[i].content.as_str());
            e.append("\n  Source: ");
            e.append(docs[i].path.as_str());
            let ghost prev = entries@;
            entries.push(e);
            assert(texts(entries@) =~= texts(prev).push(e@));
            assert(texts(entries@) =~= context_entries(docs@).take(i + 1));
            i += 1;
        }
        assert(context_entries(docs@).take(docs@.len() as int) =~= context_entries(docs@));
        let mut s = "Context from memory:\n".to_owned();
        let context = join_with(&entries, "\n\n");
        s.append(context.as_str());
        s.append("\n\nUser question: ");
        s.append(query);
        s
    }

    /// The model's reply when there is one, else the answer from the documents.
    pub fn response_or_fallback(reply: Option<String>, query: &str, docs: &Vec<RetrievedDocument>) -> (s: String)
        ensures
            s@ == match reply {
                Some(t) => t@,
                None => heuristic_answer_spec(query@, docs@),
            },
    {
        match reply {
            Some(t) => t,
            None => System3Actor::heuristic_answer(query, docs),
        }
    }
}

/// One choice of a chat-completion reply: the text content of its message,
/// when the message has one.
pub struct ChatChoice {
    pub content: Option<String>,
}

/// A chat-completion reply: its choices, in order (none when the reply has no
/// list of choices).
pub struct ChatReply {
    pub choices: Vec<ChatChoice>,
}

/// The text of a reply: the content of its first choice, if any.
pub open spec fn chat_reply_content(choices: Seq<Option<Seq<char>>>) -> Option<Seq<char>> {
    if choices.len() == 0 {
        None
    } else {
        choices[0]
    }
}

/// The choices' contents as text.
pub open spec fn choice_contents(reply: ChatReply) -> Seq<Option<Seq<char>>> {
    reply.choices@.map_values(
        |c: ChatChoice|
            match c.content {
                Some(t) => Some(t@),
                None => None,
            },
    )
}

impl LlmClient {
    /// The text the model replied with: the content of the first choice.
    pub fn reply_content(reply: &ChatReply) -> (r: Option<String>)
        ensures
            match chat_reply_content(choice_contents(*reply)) {
                Some(t) => r matches Some(s) && s@ == t,
                None => r is None,
            },
    {
        if reply.choices.len() == 0 {
            None
        } else {
            match &reply.choices[0].content {
                Some(t) => Some(t.clone()),
                None => None,
            }
        }
    }
}

/// What kind of action the actor took.
pub enum ActionType {
    Response,
    MemoryStore,
    ToolExecution,
    BeliefUpdate,
    NoOp,
}

/// An action the actor took.
pub struct Action {
    pub action_type: ActionType,
    pub description: String,
    pub target: Option<String>,
    pub result: Option<String>,
}

/// How a memory document is changed.
pub enum MemoryOperation {
    Create,
    Update,
    Delete,
    Compress,
}

/// A change the actor made to memory.
pub struct MemoryUpdate {
    pub path: String,
    pub content: String,
    pub operation: MemoryOperation,
}

/// A tool the actor called.
pub struct ToolCall {
    pub tool_name: String,
    pub arguments: serde_json::Value,
    pub result: Option<String>,
}

/// What the actor returns for a query.
pub struct ActionResult {
    pub query: String,
    pub response: String,
    pub actions_taken: Vec<Action>,
    pub memory_updates: Vec<MemoryUpdate>,
    pub tool_calls: Vec<ToolCall>,
    pub success: bool,
}

/// System 3, the actor agent.
pub struct System3Actor {
    pub config: ActorConfig,
    pub llm_client: LlmClient,
}

impl System3Actor {
    /// An actor with the given configuration and language-model client.
    pub fn new(config: ActorConfig, llm_client: LlmClient) -> (a: System3Actor)
        ensures
            a.config == config,
            a.llm_client == llm_client,
    {
        System3Actor { config, llm_client }
    }

    /// The actor asks the language model (its configuration says so).
    pub fn wants_llm(&self) -> (b: bool)
        ensures
            b == self.config.use_llm,
    {
        self.config.use_llm
    }

    /// The answer from the documents alone (see `heuristic_answer_spec`).
    pub fn heuristic_answer(query: &str, docs: &Vec<RetrievedDocument>) -> (s: String)
        ensures
            s@ == heuristic_answer_spec(query@, docs@),
    {
        if docs.len() == 0 {
            let mut s = "I couldn't find sufficient information to answer your query about '".to_owned();
            s.append(query);
            s.append("'.");
            return s;
        }
        let lowered = query_lower(query);
        let is_when = str_contains(lowered.as_str(), "when");
        if is_when {
            if let Some(answer) = best_date_answer(query, docs) {
                return answer;
            }
        }
        let asks = (str_contains(lowered.as_str(), "what do") && str_contains(lowered.as_str(), "both"))
            || (str_contains(lowered.as_str(), "what do") && str_contains(
            lowered.as_str(),
            "have in common",
        )) || (str_contains(lowered.as_str(), "how do") && str_contains(lowered.as_str(), "both"));
        if asks {
            let joined = join_with_space(&top_non_empty_contents(docs, 2));
            if !joined.as_str().is_empty() {
                return snippet(joined.as_str(), 220);
            }
        }
        let first = trim_chars(&to_chars(docs[0].content.as_str()));
        if first.len() > 0 {
            let text = string_from(&first);
            return snippet(text.as_str(), 220);
        }
        "I found relevant memory, but the best answer could not be synthesized yet.".to_owned()
    }

    /// The answer from the documents alone, used when the language model is
    /// off or fails.
    pub fn simple_response(query: &str, docs: &Vec<RetrievedDocument>) -> (s: String)
        ensures
            s@ == heuristic_answer_spec(query@, docs@),
    {
        Self::heuristic_answer(query, docs)
    }

    /// What the actor answers for a query: the language model's reply when
    /// the model is used and replied, else the answer from the documents;
    /// returned as a successful result with no actions.
    pub fn respond(&self, query: &str, docs: &Vec<RetrievedDocument>, reply: Option<String>) -> (r: ActionResult)
        ensures
            r.query@ == query@,
            r.response@ == (if self.config.use_llm && reply is Some {
                reply->0@
            } else {
                heuristic_answer_spec(query@, docs@)
            }),
            r.actions_taken@.len() == 0,
            r.memory_updates@.len() == 0,
            r.tool_calls@.len() == 0,
            r.success,
    {
        let response = if self.wants_llm() {
            LlmClient::response_or_fallback(reply, query, docs)
        } else {
            Self::simple_response(query, docs)
        };
        Self::action_result(query, response)
    }

    /// The successful result for a query and its response, with no actions,
    /// memory updates or tool calls.
    pub fn action_result(query: &str, response: String) -> (r: ActionResult)
        ensures
            r.query@ == query@,
            r.response == response,
            r.actions_taken@.len() == 0,
            r.memory_updates@.len() == 0,
            r.tool_calls@.len() == 0,
            r.success,
    {
        ActionResult {
            query: query.to_owned(),
            response,
            actions_taken: Vec::new(),
            memory_updates: Vec::new(),
            tool_calls: Vec::new(),
            success: true,
        }
    }
}

} // verus!
