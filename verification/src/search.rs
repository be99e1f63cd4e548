use vstd::prelude::*;
use crate::analyzer::{WordCount, WordCountView};
use crate::parser::{lower_of, to_lowercase};
use crate::sort::{TotalOrdered, sorted, insertion_sort};

verus! {

// ----------------------------------------------------------------------------
// Fuzzy matching: case-insensitive substring containment, scored by how early
// the match begins. A score of one means a match at the very start; the score
// 1 - pos/len falls as the match position grows, so scores are compared
// exactly through the cross products of their positions and lengths.
// ----------------------------------------------------------------------------

/// Whether `needle` occurs in `hay` starting at position `i`.
pub open spec fn match_at(hay: Seq<char>, needle: Seq<char>, i: int) -> bool {
    0 <= i && i + needle.len() <= hay.len() && hay.subrange(i, i + needle.len()) == needle
}

/// The first position at or after `i` where `needle` occurs in `hay`.
pub open spec fn first_match_from(hay: Seq<char>, needle: Seq<char>, i: int) -> Option<int>
    decreases hay.len() - i + 1,
    when 0 <= i
{
    if i + needle.len() > hay.len() {
        None
    } else if match_at(hay, needle, i) {
        Some(i)
    } else {
        first_match_from(hay, needle, i + 1)
    }
}

/// The first position where `needle` occurs in `hay`, if any.
pub open spec fn first_match(hay: Seq<char>, needle: Seq<char>) -> Option<int> {
    first_match_from(hay, needle, 0)
}

/// The fuzzy match of `query` against `word`: the first position where the
/// lowercased query occurs in the lowercased word. A query that is empty (or
/// lowercases to nothing) matches nothing: search is inactive.
pub open spec fn fuzzy_spec(query: Seq<char>, word: Seq<char>) -> Option<int> {
    if query.len() == 0 || lower_of(query).len() == 0 {
        None
    } else {
        first_match(lower_of(word), lower_of(query))
    }
}

/// The value inside an optional position (zero when absent).
pub open spec fn some_val(o: Option<int>) -> int {
    match o {
        Some(v) => v,
        None => 0,
    }
}

/// What a correct result list looks like: the distinct indices of exactly the
/// matching words, ordered by descending score — that is, by ascending
/// match-position fraction pos/len — with ties in index order.
pub open spec fn is_search_results(
    query: Seq<char>,
    words: Seq<WordCountView>,
    res: Seq<usize>,
) -> bool {
    &&& forall|a: int, b: int| 0 <= a < b < res.len() ==> res[a] != res[b]
    &&& forall|a: int|
        0 <= a < res.len() ==> (#[trigger] res[a]) < words.len() && fuzzy_spec(
            query,
            words[res[a] as int].word,
        ) is Some
    &&& forall|i: int|
        0 <= i < words.len() && fuzzy_spec(query, (#[trigger] words[i]).word) is Some
            ==> res.contains(i as usize)
    &&& forall|a: int, b: int|
        0 <= a < b < res.len() ==> {
            let pa = some_val(fuzzy_spec(query, words[(#[trigger] res[a]) as int].word));
            let la = lower_of(words[res[a] as int].word).len() as int;
            let pb = some_val(fuzzy_spec(query, words[(#[trigger] res[b]) as int].word));
            let lb = lower_of(words[res[b] as int].word).len() as int;
            pa * lb < pb * la || (pa * lb == pb * la && res[a] < res[b])
        }
}

// ----------------------------------------------------------------------------
// The exec search.
// ----------------------------------------------------------------------------

struct SearchEntry {
    idx: usize,
    pos: usize,
    len: usize,
}

impl TotalOrdered for SearchEntry {
    /// Higher score first: smaller pos/len fraction first; ties by index.
    /// A zero-length word (which cannot arise from a nonempty match) sorts
    /// last.
    closed spec fn le(self, other: Self) -> bool {
        if self.len > 0 && other.len > 0 {
            self.pos * other.len < other.pos * self.len || (self.pos * other.len == other.pos
                * self.len && self.idx <= other.idx)
        } else if self.len > 0 {
            true
        } else if other.len > 0 {
            false
        } else {
            self.idx <= other.idx
        }
    }

    proof fn le_total(a: Self, b: Self) {
    }

    proof fn le_trans(a: Self, b: Self, c: Self) {
        if a.len > 0 && b.len > 0 && c.len > 0 {
            let (pa, la) = (a.pos as int, a.len as int);
            let (pb, lb) = (b.pos as int, b.len as int);
            let (pc, lc) = (c.pos as int, c.len as int);
            if pa * lb < pb * la && pb * lc < pc * lb {
                assert(pa * lc < pc * la) by (nonlinear_arith)
                    requires
                        la > 0 && lb > 0 && lc > 0,
                        pa * lb < pb * la,
                        pb * lc < pc * lb,
                        pa >= 0 && pb >= 0 && pc >= 0,
                ;
            } else if pa * lb < pb * la && pb * lc == pc * lb {
                assert(pa * lc < pc * la) by (nonlinear_arith)
                    requires
                        la > 0 && lb > 0 && lc > 0,
                        pa * lb < pb * la,
                        pb * lc == pc * lb,
                        pa >= 0 && pb >= 0 && pc >= 0,
                ;
            } else if pa * lb == pb * la && pb * lc < pc * lb {
                assert(pa * lc < pc * la) by (nonlinear_arith)
                    requires
                        la > 0 && lb > 0 && lc > 0,
                        pa * lb == pb * la,
                        pb * lc < pc * lb,
                        pa >= 0 && pb >= 0 && pc >= 0,
                ;
            } else {
                assert(pa * lc == pc * la) by (nonlinear_arith)
                    requires
                        la > 0 && lb > 0 && lc > 0,
                        pa * lb == pb * la,
                        pb * lc == pc * lb,
                        pa >= 0 && pb >= 0 && pc >= 0,
                ;
            }
        }
    }

    fn le_exec(&self, other: &Self) -> (r: bool) {
        if self.len > 0 && other.len > 0 {
            proof {
                lemma_products_fit(self.pos as int, other.len as int);
                lemma_products_fit(other.pos as int, self.len as int);
            }
            let x = (self.pos as u128) * (other.len as u128);
            let y = (other.pos as u128) * (self.len as u128);
            x < y || (x == y && self.idx <= other.idx)
        } else if self.len > 0 {
            true
        } else if other.len > 0 {
            false
        } else {
            self.idx <= other.idx
        }
    }
}

/// The product of two machine-word values fits in 128 bits.
proof fn lemma_products_fit(a: int, b: int)
    requires
        0 <= a <= usize::MAX,
        0 <= b <= usize::MAX,
    ensures
        a * b <= u128::MAX,
{
    assert(a * b <= u64::MAX * u64::MAX) by (nonlinear_arith)
        requires
            0 <= a <= u64::MAX,
            0 <= b <= u64::MAX,
    ;
}

/// Decides whether `needle` occurs in `hay` at position `at`.
fn window_eq(hay: &Vec<char>, needle: &Vec<char>, at: usize) -> (r: bool)
    requires
        at + needle@.len() <= hay@.len(),
    ensures
        r == match_at(hay@, needle@, at as int),
{
    let nn = needle.len();
    let hn = hay.len();
    let mut k: usize = 0;
    while k < nn
        invariant
            nn == needle@.len(),
            hn == hay@.len(),
            at + nn <= hn,
            0 <= k <= nn,
            forall|j: int| 0 <= j < k ==> hay@[at + j] == needle@[j],
        decreases nn - k,
    {
        if hay[at + k] != needle[k] {
            proof {
                assert(hay@.subrange(at as int, at + nn) != needle@) by {
                    assert(hay@.subrange(at as int, at + nn)[k as int] == hay@[at + k]);
                }
            }
            return false;
        }
        k = k + 1;
    }
    proof {
        assert(hay@.subrange(at as int, at + nn) =~= needle@);
    }
    true
}

/// Finds the first occurrence of `needle` in `hay`.
fn find_first_match(hay: &Vec<char>, needle: &Vec<char>) -> (r: Option<usize>)
    ensures
        match r {
            Some(p) => first_match(hay@, needle@) == Some(p as int),
            None => first_match(hay@, needle@) is None,
        },
{
    let hn = hay.len();
    let nn = needle.len();
    if nn > hn {
        return None;
    }
    if nn == 0 {
        proof {
            assert(hay@.subrange(0, 0) =~= needle@);
            assert(match_at(hay@, needle@, 0));
        }
        return Some(0);
    }
    let mut i: usize = 0;
    while i <= hn - nn
        invariant
            hn == hay@.len(),
            nn == needle@.len(),
            1 <= nn <= hn,
            0 <= i <= hn - nn + 1,
            first_match(hay@, needle@) == first_match_from(hay@, needle@, i as int),
        decreases hn - nn + 1 - i,
    {
        if window_eq(hay, needle, i) {
            return Some(i);
        }
        i = i + 1;
    }
    proof {
        assert(first_match_from(hay@, needle@, i as int) is None);
    }
    None
}

/// Computes the search results for `query` over the (filtered) word list:
/// the indices of every word whose lowercased text contains the lowercased
/// query, best scores first, ties in index order. An empty query yields no
/// results.
pub fn compute_search_results(query: &String, corpus: &Vec<WordCount>) -> (r: Vec<usize>)
    ensures
        is_search_results(query@, corpus.deep_view(), r@),
{
    let ghost q = query@;
    let ghost words = corpus.deep_view();
    let mut empty_results: Vec<usize> = Vec::new();
    if query.as_str().is_empty() {
        return empty_results;
    }
    let lq = to_lowercase(query.as_str());
    if lq.as_str().is_empty() {
        return empty_results;
    }
    let needle = crate::parser::chars_of(lq.as_str());
    let n = corpus.len();
    let mut entries: Vec<SearchEntry> = Vec::new();
    let mut i: usize = 0;
    while i < n
        invariant
            n == corpus@.len(),
            words == corpus.deep_view(),
            q == query@,
            needle@ == lower_of(q),
            q.len() > 0,
            needle@.len() > 0,
            0 <= i <= n,
            forall|e: int|
                0 <= e < entries@.len() ==> {
                    let en = #[trigger] entries@[e];
                    &&& en.idx < i
                    &&& fuzzy_spec(q, words[en.idx as int].word) == Some(en.pos as int)
                    &&& lower_of(words[en.idx as int].word).len() == en.len
                    &&& en.len > 0
                },
            forall|e1: int, e2: int|
                0 <= e1 < e2 < entries@.len() ==> (#[trigger] entries@[e1]).idx < (
                #[trigger] entries@[e2]).idx,
            forall|k: int|
                0 <= k < i && fuzzy_spec(q, (#[trigger] words[k]).word) is Some ==> exists|e: int|
                    0 <= e < entries@.len() && (#[trigger] entries@[e]).idx == k,
        decreases n - i,
    {
        let lw = to_lowercase(corpus[i].word.as_str());
        let hay = crate::parser::chars_of(lw.as_str());
        proof {
            assert(words[i as int].word == corpus@[i as int]@.word);
        }
        let found = find_first_match(&hay, &needle);
        match found {
            Some(p) => {
                let ghost prev = entries@;
                proof {
                    assert(p + needle@.len() <= hay@.len()) by {
                        assert(match_at(hay@, needle@, p as int)) by {
                            lemma_first_match_props(hay@, needle@, 0);
                        }
                    }
                }
                proof {
                    assert(fuzzy_spec(q, words[i as int].word) == Some(p as int));
                    assert(hay@.len() > 0);
                }
                let hay_len = hay.len();
                entries.push(SearchEntry { idx: i, pos: p, len: hay_len });
                proof {
                    assert(entries@ =~= prev.push(SearchEntry { idx: i, pos: p, len: hay_len }));
                    assert forall|k: int|
                        0 <= k < i + 1 && fuzzy_spec(q, (#[trigger] words[k]).word)
                        is Some implies exists|e: int|
                        0 <= e < entries@.len() && (#[trigger] entries@[e]).idx == k by {
                        if k == i as int {
                            assert(entries@[entries@.len() - 1].idx == i);
                        } else {
                            let e = choose|e: int|
                                0 <= e < prev.len() && (#[trigger] prev[e]).idx == k;
                            assert(entries@[e].idx == k);
                        }
                    }
                }
            },
            None => {
                proof {
                    assert(fuzzy_spec(q, words[i as int].word) is None);
                }
            },
        }
        i = i + 1;
    }
    proof {
        assert(words.len() == n);
    }
    let ghost orig = entries@;
    proof {
        assert(orig.no_duplicates()) by {
            assert forall|a: int, b: int| 0 <= a < b < orig.len() implies orig[a] != orig[b] by {
                assert(orig[a].idx < orig[b].idx);
            }
        }
    }
    insertion_sort(&mut entries);
    proof {
        broadcast use vstd::seq_lib::group_to_multiset_ensures;

        orig.lemma_multiset_has_no_duplicates();
        entries@.lemma_multiset_has_no_duplicates_conv();
        assert forall|e: int| 0 <= e < entries@.len() implies orig.contains(
            #[trigger] entries@[e],
        ) by {
            assert(entries@.contains(entries@[e]));
            assert(entries@.to_multiset().count(entries@[e]) > 0);
        }
        assert forall|e: int| 0 <= e < orig.len() implies entries@.contains(#[trigger] orig[e]) by {
            assert(orig.contains(orig[e]));
            assert(orig.to_multiset().count(orig[e]) > 0);
        }
    }
    let m = entries.len();
    let mut results: Vec<usize> = Vec::new();
    let mut j: usize = 0;
    while j < m
        invariant
            m == entries@.len(),
            0 <= j <= m,
            results@.len() == j,
            forall|a: int| 0 <= a < j ==> (#[trigger] results@[a]) == entries@[a].idx,
        decreases m - j,
    {
        results.push(entries[j].idx);
        j = j + 1;
    }
    proof {
        lemma_results_correct(q, words, orig, entries@, results@);
    }
    results
}

/// What a successful first match means.
proof fn lemma_first_match_props(hay: Seq<char>, needle: Seq<char>, i: int)
    requires
        0 <= i,
    ensures
        first_match_from(hay, needle, i) matches Some(p) ==> i <= p && match_at(hay, needle, p),
    decreases hay.len() - i + 1,
{
    if i + needle.len() > hay.len() {
    } else if match_at(hay, needle, i) {
    } else {
        lemma_first_match_props(hay, needle, i + 1);
    }
}

/// Knits the loop facts into the search-results predicate.
proof fn lemma_results_correct(
    q: Seq<char>,
    words: Seq<WordCountView>,
    orig: Seq<SearchEntry>,
    es: Seq<SearchEntry>,
    res: Seq<usize>,
)
    requires
        es.len() == orig.len(),
        res.len() == es.len(),
        sorted(es),
        es.no_duplicates(),
        forall|e: int|
            0 <= e < orig.len() ==> {
                let en = #[trigger] orig[e];
                &&& en.idx < words.len()
                &&& fuzzy_spec(q, words[en.idx as int].word) == Some(en.pos as int)
                &&& lower_of(words[en.idx as int].word).len() == en.len
                &&& en.len > 0
            },
        forall|e1: int, e2: int|
            0 <= e1 < e2 < orig.len() ==> (#[trigger] orig[e1]).idx < (#[trigger] orig[e2]).idx,
        forall|k: int|
            0 <= k < words.len() && fuzzy_spec(q, (#[trigger] words[k]).word) is Some
                ==> exists|e: int| 0 <= e < orig.len() && (#[trigger] orig[e]).idx == k,
        forall|e: int| 0 <= e < es.len() ==> orig.contains(#[trigger] es[e]),
        forall|e: int| 0 <= e < orig.len() ==> es.contains(#[trigger] orig[e]),
        forall|a: int| 0 <= a < res.len() ==> (#[trigger] res[a]) == es[a].idx,
    ensures
        is_search_results(q, words, res),
{
    // every sorted entry inherits the loop facts
    assert forall|e: int| 0 <= e < es.len() implies {
        let en = #[trigger] es[e];
        &&& en.idx < words.len()
        &&& fuzzy_spec(q, words[en.idx as int].word) == Some(en.pos as int)
        &&& lower_of(words[en.idx as int].word).len() == en.len
        &&& en.len > 0
    } by {
        assert(orig.contains(es[e]));
        let k = choose|k: int| 0 <= k < orig.len() && orig[k] == es[e];
        assert(orig[k] == es[e]);
    }
    // indices are distinct: distinct entries with equal indices would mirror
    // one original entry twice
    assert forall|a: int, b: int| 0 <= a < b < res.len() implies res[a] != res[b] by {
        if es[a].idx == es[b].idx {
            let k1 = choose|k: int| 0 <= k < orig.len() && orig[k] == es[a];
            let k2 = choose|k: int| 0 <= k < orig.len() && orig[k] == es[b];
            if k1 < k2 {
                assert(orig[k1].idx < orig[k2].idx);
            } else if k2 < k1 {
                assert(orig[k2].idx < orig[k1].idx);
            }
            assert(es[a] == es[b]);
        }
    }
    // every matching word is present
    assert forall|i: int|
        0 <= i < words.len() && fuzzy_spec(q, (#[trigger] words[i]).word) is Some implies res
        .contains(i as usize) by {
        let e = choose|e: int| 0 <= e < orig.len() && (#[trigger] orig[e]).idx == i;
        assert(es.contains(orig[e]));
        let a = choose|a: int| 0 <= a < es.len() && es[a] == orig[e];
        assert(res[a] == i as usize);
    }
    // scores never improve down the list
    assert forall|a: int, b: int| 0 <= a < b < res.len() implies {
        let pa = some_val(fuzzy_spec(q, words[(#[trigger] res[a]) as int].word));
        let la = lower_of(words[res[a] as int].word).len() as int;
        let pb = some_val(fuzzy_spec(q, words[(#[trigger] res[b]) as int].word));
        let lb = lower_of(words[res[b] as int].word).len() as int;
        pa * lb < pb * la || (pa * lb == pb * la && res[a] < res[b])
    } by {
        assert(es[a].le(es[b]));
        assert(es[a].pos == some_val(fuzzy_spec(q, words[res[a] as int].word)));
        assert(es[b].pos == some_val(fuzzy_spec(q, words[res[b] as int].word)));
        if es[a].pos * es[b].len == es[b].pos * es[a].len && es[a].idx == es[b].idx {
            assert(res[a] != res[b]);
        }
    }
}

// ----------------------------------------------------------------------------
// Laws of searching.
// ----------------------------------------------------------------------------

/// Law: an empty search query yields no results.
pub proof fn lemma_empty_query_no_results(
    query: Seq<char>,
    words: Seq<WordCountView>,
    res: Seq<usize>,
)
    requires
        is_search_results(query, words, res),
        query.len() == 0 || lower_of(query).len() == 0,
    ensures
        res.len() == 0,
{
    if res.len() > 0 {
        assert(fuzzy_spec(query, words[res[0] as int].word) is Some);
    }
}

/// Law: a query equal to an entire word (after case folding) matches that
/// word at position zero — the best possible score — so the word is among
/// the results, and every result ranked above it also matched at position
/// zero.
pub proof fn lemma_whole_word_query_tops(
    query: Seq<char>,
    words: Seq<WordCountView>,
    res: Seq<usize>,
    i: int,
)
    requires
        is_search_results(query, words, res),
        0 <= i < words.len(),
        words.len() <= usize::MAX,
        query.len() > 0,
        lower_of(query).len() > 0,
        lower_of(query) == lower_of(words[i].word),
    ensures
        fuzzy_spec(query, words[i].word) == Some(0int),
        res.contains(i as usize),
        forall|a: int, j: int|
            0 <= a < j < res.len() && #[trigger] res[j] == i as usize ==> some_val(
                fuzzy_spec(query, words[(#[trigger] res[a]) as int].word),
            ) == 0,
{
    let lw = lower_of(words[i].word);
    assert(match_at(lw, lower_of(query), 0)) by {
        assert(lw.subrange(0, lw.len() as int) =~= lw);
    }
    assert(first_match_from(lw, lower_of(query), 0) == Some(0int));
    assert(fuzzy_spec(query, words[i].word) == Some(0int));
    assert(i as usize as int == i);
    assert(res.contains(i as usize));
    assert forall|a: int, j: int|
        0 <= a < j < res.len() && #[trigger] res[j] == i as usize implies some_val(
        fuzzy_spec(query, words[(#[trigger] res[a]) as int].word),
    ) == 0 by {
        let pa = some_val(fuzzy_spec(query, words[res[a] as int].word));
        let la = lower_of(words[res[a] as int].word).len() as int;
        let li = lw.len() as int;
        assert(pa * li < 0 * la || (pa * li == 0 * la && res[a] < res[j]));
        assert(pa >= 0) by {
            lemma_first_match_props(lower_of(words[res[a] as int].word), lower_of(query), 0);
        }
        assert(pa * li >= 0) by (nonlinear_arith)
            requires
                pa >= 0,
                li > 0,
        ;
        assert(pa * li == 0);
        assert(pa == 0) by (nonlinear_arith)
            requires
                pa * li == 0,
                li > 0,
                pa >= 0,
        ;
    }
}

} // verus!
