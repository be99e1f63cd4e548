use vstd::prelude::*;

verus! {

// ----------------------------------------------------------------------------
// The mathematics of word frequency: occurrence counts, first occurrences,
// and the frequency table a token stream determines.
// ----------------------------------------------------------------------------

/// How many times `w` occurs among `tokens`.
pub open spec fn count_in(tokens: Seq<Seq<char>>, w: Seq<char>) -> nat
    decreases tokens.len(),
{
    if tokens.len() == 0 {
        0
    } else {
        count_in(tokens.drop_last(), w) + if tokens.last() == w {
            1nat
        } else {
            0nat
        }
    }
}

/// The distinct tokens of the stream, in first-occurrence order.
pub open spec fn firsts(tokens: Seq<Seq<char>>) -> Seq<Seq<char>>
    decreases tokens.len(),
{
    if tokens.len() == 0 {
        Seq::empty()
    } else if tokens.drop_last().contains(tokens.last()) {
        firsts(tokens.drop_last())
    } else {
        firsts(tokens.drop_last()).push(tokens.last())
    }
}

/// The position of the first occurrence of `w` in `s` (the length of `s`
/// when `w` is absent).
pub open spec fn first_index(s: Seq<Seq<char>>, w: Seq<char>) -> int
    decreases s.len(),
{
    if s.len() == 0 {
        0
    } else if s[0] == w {
        0
    } else {
        1 + first_index(s.drop_first(), w)
    }
}

/// The frequency table of a token stream: one row per distinct token in
/// first-occurrence order, each with its occurrence count.
pub open spec fn base_counts(tokens: Seq<Seq<char>>) -> Seq<(Seq<char>, nat)> {
    Seq::new(
        firsts(tokens).len(),
        |k: int| (firsts(tokens)[k], count_in(tokens, firsts(tokens)[k])),
    )
}

/// The words of a row sequence, in order.
pub open spec fn pair_words(rows: Seq<(Seq<char>, nat)>) -> Seq<Seq<char>> {
    rows.map_values(|r: (Seq<char>, nat)| r.0)
}

/// The sum of the counts of a row sequence.
pub open spec fn sum_pairs(rows: Seq<(Seq<char>, nat)>) -> nat
    decreases rows.len(),
{
    if rows.len() == 0 {
        0
    } else {
        rows[0].1 + sum_pairs(rows.drop_first())
    }
}

/// The sum of the occurrence counts of the words `ws` within `tokens`.
pub open spec fn sum_counts_over(tokens: Seq<Seq<char>>, ws: Seq<Seq<char>>) -> nat
    decreases ws.len(),
{
    if ws.len() == 0 {
        0
    } else {
        count_in(tokens, ws[0]) + sum_counts_over(tokens, ws.drop_first())
    }
}

// ----------------------------------------------------------------------------
// Lemmas.
// ----------------------------------------------------------------------------

/// A word occurs at most as many times as there are tokens, and occurs at
/// least once exactly when it is present.
pub proof fn lemma_count_in_bounds(tokens: Seq<Seq<char>>, w: Seq<char>)
    ensures
        count_in(tokens, w) <= tokens.len(),
        count_in(tokens, w) > 0 <==> tokens.contains(w),
    decreases tokens.len(),
{
    if tokens.len() > 0 {
        lemma_count_in_bounds(tokens.drop_last(), w);
        assert(tokens.contains(w) <==> (tokens.drop_last().contains(w) || tokens.last() == w)) by {
            if tokens.contains(w) {
                let i = choose|i: int| 0 <= i < tokens.len() && tokens[i] == w;
                if i < tokens.len() - 1 {
                    assert(tokens.drop_last()[i] == w);
                }
            }
            if tokens.drop_last().contains(w) {
                let i = choose|i: int| 0 <= i < tokens.drop_last().len() && tokens.drop_last()[i]
                    == w;
                assert(tokens[i] == w);
            }
        }
    }
}

/// The distinct-token list has no duplicates, holds exactly the tokens of the
/// stream, and is never longer than the stream.
pub proof fn lemma_firsts_props(tokens: Seq<Seq<char>>)
    ensures
        firsts(tokens).no_duplicates(),
        forall|w: Seq<char>| firsts(tokens).contains(w) <==> tokens.contains(w),
        firsts(tokens).len() <= tokens.len(),
    decreases tokens.len(),
{
    if tokens.len() == 0 {
    } else {
        let pre = tokens.drop_last();
        let last = tokens.last();
        lemma_firsts_props(pre);
        assert forall|w: Seq<char>| tokens.contains(w) implies (pre.contains(w) || last == w) by {
            let i = choose|i: int| 0 <= i < tokens.len() && tokens[i] == w;
            if i < tokens.len() - 1 {
                assert(pre[i] == w);
            }
        }
        assert forall|w: Seq<char>| pre.contains(w) implies tokens.contains(w) by {
            let i = choose|i: int| 0 <= i < pre.len() && pre[i] == w;
            assert(tokens[i] == w);
        }
        assert(tokens.contains(last)) by {
            assert(tokens[tokens.len() - 1] == last);
        }
        if pre.contains(last) {
        } else {
            let f = firsts(pre).push(last);
            assert(firsts(tokens) == f);
            assert forall|w: Seq<char>| f.contains(w) implies tokens.contains(w) by {
                let i = choose|i: int| 0 <= i < f.len() && f[i] == w;
                if i < f.len() - 1 {
                    assert(firsts(pre)[i] == w);
                    assert(firsts(pre).contains(w));
                }
            }
            assert forall|w: Seq<char>| tokens.contains(w) implies f.contains(w) by {
                if pre.contains(w) {
                    assert(firsts(pre).contains(w));
                    let i = choose|i: int|
                        0 <= i < firsts(pre).len() && firsts(pre)[i] == w;
                    assert(f[i] == w);
                } else {
                    assert(w == last);
                    assert(f[f.len() - 1] == w);
                }
            }
            assert(f.no_duplicates()) by {
                assert(!firsts(pre).contains(last));
                assert forall|i: int, j: int|
                    0 <= i < j < f.len() implies f[i] != f[j] by {
                    if j < f.len() - 1 {
                        assert(firsts(pre)[i] == f[i] && firsts(pre)[j] == f[j]);
                    } else {
                        assert(f[i] == firsts(pre)[i]);
                        assert(firsts(pre).contains(firsts(pre)[i]));
                    }
                }
            }
        }
    }
}

/// What the first-occurrence position means.
pub proof fn lemma_first_index_props(s: Seq<Seq<char>>, w: Seq<char>)
    ensures
        0 <= first_index(s, w) <= s.len(),
        s.contains(w) <==> first_index(s, w) < s.len(),
        s.contains(w) ==> s[first_index(s, w)] == w,
        forall|k: int| 0 <= k < first_index(s, w) ==> s[k] != w,
    decreases s.len(),
{
    if s.len() == 0 {
    } else if s[0] == w {
        assert(s.contains(w)) by {
            assert(s[0] == w);
        }
    } else {
        let t = s.drop_first();
        lemma_first_index_props(t, w);
        assert forall|k: int| 0 <= k < first_index(s, w) implies s[k] != w by {
            if k > 0 {
                assert(t[k - 1] == s[k]);
            }
        }
        assert(s.contains(w) <==> t.contains(w)) by {
            if s.contains(w) {
                let i = choose|i: int| 0 <= i < s.len() && s[i] == w;
                assert(i != 0);
                assert(t[i - 1] == w);
            }
            if t.contains(w) {
                let i = choose|i: int| 0 <= i < t.len() && t[i] == w;
                assert(s[i + 1] == w);
            }
        }
        if t.contains(w) {
            assert(s[first_index(s, w)] == t[first_index(t, w)]);
        }
    }
}

/// In a duplicate-free sequence the first occurrence of `s[k]` is `k` itself.
pub proof fn lemma_first_index_unique(s: Seq<Seq<char>>, k: int)
    requires
        s.no_duplicates(),
        0 <= k < s.len(),
    ensures
        first_index(s, s[k]) == k,
{
    lemma_first_index_props(s, s[k]);
    assert(s.contains(s[k]));
    let fi = first_index(s, s[k]);
    if fi < k {
        assert(s[fi] == s[k]);
    }
}

/// Appending one token keeps or extends first occurrences: positions of
/// already-present words are unchanged; the new word, if new, first occurs at
/// the former end.
pub proof fn lemma_first_index_push(s: Seq<Seq<char>>, x: Seq<char>, w: Seq<char>)
    ensures
        first_index(s.push(x), w) == if s.contains(w) {
            first_index(s, w)
        } else if x == w {
            s.len() as int
        } else {
            s.len() + 1int
        },
    decreases s.len(),
{
    lemma_first_index_props(s, w);
    if s.len() == 0 {
        let p = s.push(x);
        assert(p[0] == x);
        assert(p.drop_first() =~= Seq::<Seq<char>>::empty());
        assert(first_index(p.drop_first(), w) == 0);
        assert(!s.contains(w));
    } else {
        let p = s.push(x);
        assert(p[0] == s[0]);
        if s[0] == w {
            assert(s.contains(w)) by {
                assert(s[0] == w);
            }
        } else {
            assert(p.drop_first() =~= s.drop_first().push(x));
            lemma_first_index_push(s.drop_first(), x, w);
            assert(first_index(s, w) == 1 + first_index(s.drop_first(), w));
            assert(first_index(p, w) == 1 + first_index(p.drop_first(), w));
            assert(s.contains(w) <==> s.drop_first().contains(w)) by {
                lemma_first_index_props(s.drop_first(), w);
                if s.contains(w) {
                    let i = choose|i: int| 0 <= i < s.len() && s[i] == w;
                    assert(i != 0);
                    assert(s.drop_first()[i - 1] == w);
                }
                if s.drop_first().contains(w) {
                    let i = choose|i: int| 0 <= i < s.drop_first().len() && s.drop_first()[i] == w;
                    assert(s[i + 1] == w);
                }
            }
        }
    }
}

/// Distinct tokens stand in `firsts` in the order of their first occurrence.
pub proof fn lemma_firsts_order(tokens: Seq<Seq<char>>, k1: int, k2: int)
    requires
        0 <= k1 < k2 < firsts(tokens).len(),
    ensures
        first_index(tokens, firsts(tokens)[k1]) < first_index(tokens, firsts(tokens)[k2]),
    decreases tokens.len(),
{
    lemma_firsts_props(tokens);
    let pre = tokens.drop_last();
    let last = tokens.last();
    assert(tokens.len() > 0);
    assert(tokens =~= pre.push(last));
    lemma_firsts_props(pre);
    let w1 = firsts(tokens)[k1];
    let w2 = firsts(tokens)[k2];
    if pre.contains(last) {
        assert(firsts(tokens) == firsts(pre));
        lemma_firsts_order(pre, k1, k2);
        assert(firsts(pre).contains(w1) && firsts(pre).contains(w2)) by {
            assert(firsts(pre)[k1] == w1 && firsts(pre)[k2] == w2);
        }
        lemma_first_index_push(pre, last, w1);
        lemma_first_index_push(pre, last, w2);
    } else {
        let f = firsts(pre).push(last);
        assert(firsts(tokens) == f);
        if k2 < f.len() - 1 {
            assert(firsts(pre)[k1] == w1 && firsts(pre)[k2] == w2);
            lemma_firsts_order(pre, k1, k2);
            assert(firsts(pre).contains(w1) && firsts(pre).contains(w2));
            lemma_first_index_push(pre, last, w1);
            lemma_first_index_push(pre, last, w2);
        } else {
            // w2 is the fresh final token; w1 already occurred in the prefix.
            assert(w2 == last);
            assert(firsts(pre)[k1] == w1);
            assert(firsts(pre).contains(w1));
            lemma_first_index_push(pre, last, w1);
            lemma_first_index_push(pre, last, w2);
            lemma_first_index_props(pre, w1);
        }
    }
}

/// Removing every occurrence of one word shortens the stream by exactly that
/// word's count and leaves other counts unchanged.
proof fn lemma_drop_word(tokens: Seq<Seq<char>>, w0: Seq<char>)
    ensures
        count_in(tokens, w0) + tokens.filter(|t: Seq<char>| t != w0).len() == tokens.len(),
        forall|w: Seq<char>|
            w != w0 ==> count_in(tokens.filter(|t: Seq<char>| t != w0), w) == count_in(tokens, w),
        forall|x: Seq<char>|
            tokens.filter(|t: Seq<char>| t != w0).contains(x) ==> tokens.contains(x),
    decreases tokens.len(),
{
    reveal(Seq::filter);
    let p = |t: Seq<char>| t != w0;
    if tokens.len() > 0 {
        let pre = tokens.drop_last();
        let last = tokens.last();
        lemma_drop_word(pre, w0);
        assert(tokens.filter(p) == if p(last) {
            pre.filter(p).push(last)
        } else {
            pre.filter(p)
        });
        assert forall|w: Seq<char>| w != w0 implies count_in(tokens.filter(p), w) == count_in(
            tokens,
            w,
        ) by {
            assert(count_in(tokens, w) == count_in(pre, w) + if last == w {
                1nat
            } else {
                0nat
            });
            if p(last) {
                assert(tokens.filter(p).drop_last() =~= pre.filter(p));
                assert(tokens.filter(p).last() == last);
                assert(count_in(tokens.filter(p), w) == count_in(pre.filter(p), w) + if last == w {
                    1nat
                } else {
                    0nat
                });
            } else {
                assert(last == w0);
                assert(tokens.filter(p) == pre.filter(p));
            }
        }
        assert forall|x: Seq<char>| tokens.filter(p).contains(x) implies tokens.contains(x) by {
            if p(last) {
                let f = tokens.filter(p);
                let i = choose|i: int| 0 <= i < f.len() && f[i] == x;
                if i < f.len() - 1 {
                    assert(pre.filter(p)[i] == x);
                    assert(pre.filter(p).contains(x));
                    assert(tokens.contains(x)) by {
                        assert(pre.contains(x));
                        let j = choose|j: int| 0 <= j < pre.len() && pre[j] == x;
                        assert(tokens[j] == x);
                    }
                } else {
                    assert(x == last);
                    assert(tokens[tokens.len() - 1] == x);
                }
            } else {
                assert(pre.filter(p).contains(x));
                assert(pre.contains(x));
                let j = choose|j: int| 0 <= j < pre.len() && pre[j] == x;
                assert(tokens[j] == x);
            }
        }
    }
}

/// The heart of the totals law: the counts of any duplicate-free word list
/// covering a token stream sum to the stream's length.
pub proof fn lemma_sum_counts_over(tokens: Seq<Seq<char>>, ws: Seq<Seq<char>>)
    requires
        ws.no_duplicates(),
        forall|i: int| 0 <= i < tokens.len() ==> ws.contains(#[trigger] tokens[i]),
    ensures
        sum_counts_over(tokens, ws) == tokens.len(),
    decreases ws.len(),
{
    if ws.len() == 0 {
        if tokens.len() > 0 {
            assert(ws.contains(tokens[0]));
        }
    } else {
        let w0 = ws[0];
        let rest = ws.drop_first();
        let p = |t: Seq<char>| t != w0;
        let rem = tokens.filter(p);
        lemma_drop_word(tokens, w0);
        // the remaining words count the remaining stream
        assert(sum_counts_over(tokens, rest) == sum_counts_over(rem, rest)) by {
            lemma_sum_over_swap(tokens, rem, rest, w0);
        }
        assert forall|i: int| 0 <= i < rem.len() implies rest.contains(#[trigger] rem[i]) by {
            assert(rem.contains(rem[i]));
            assert(tokens.contains(rem[i]));
            let j = choose|j: int| 0 <= j < tokens.len() && tokens[j] == rem[i];
            assert(ws.contains(tokens[j]));
            let k = choose|k: int| 0 <= k < ws.len() && ws[k] == rem[i];
            assert(rem[i] != w0) by {
                tokens.lemma_filter_pred(p, i);
            }
            assert(k != 0);
            assert(rest[k - 1] == rem[i]);
        }
        lemma_sum_counts_over(rem, rest);
    }
}

/// Counting a word list over a stream with one (absent) word removed is the
/// same as counting it over the original stream.
proof fn lemma_sum_over_swap(
    tokens: Seq<Seq<char>>,
    rem: Seq<Seq<char>>,
    ws: Seq<Seq<char>>,
    w0: Seq<char>,
)
    requires
        forall|w: Seq<char>| w != w0 ==> count_in(rem, w) == count_in(tokens, w),
        forall|i: int| 0 <= i < ws.len() ==> #[trigger] ws[i] != w0,
    ensures
        sum_counts_over(tokens, ws) == sum_counts_over(rem, ws),
    decreases ws.len(),
{
    if ws.len() > 0 {
        assert(ws[0] != w0);
        assert forall|i: int| 0 <= i < ws.drop_first().len() implies #[trigger] ws.drop_first()[i]
            != w0 by {
            assert(ws.drop_first()[i] == ws[i + 1]);
        }
        lemma_sum_over_swap(tokens, rem, ws.drop_first(), w0);
    }
}

/// The frequency table's rows carry the distinct tokens as their words.
pub proof fn lemma_base_counts_words(tokens: Seq<Seq<char>>)
    ensures
        pair_words(base_counts(tokens)) == firsts(tokens),
{
    assert(pair_words(base_counts(tokens)) =~= firsts(tokens));
}

/// The counts of the frequency table sum to the token count.
pub proof fn lemma_sum_pairs_base(tokens: Seq<Seq<char>>)
    ensures
        sum_pairs(base_counts(tokens)) == tokens.len(),
{
    lemma_firsts_props(tokens);
    assert forall|i: int| 0 <= i < tokens.len() implies firsts(tokens).contains(
        #[trigger] tokens[i],
    ) by {
        assert(tokens.contains(tokens[i]));
    }
    lemma_sum_counts_over(tokens, firsts(tokens));
    assert forall|k: int| 0 <= k < base_counts(tokens).len() implies (#[trigger] base_counts(
        tokens,
    )[k]).1 == count_in(tokens, base_counts(tokens)[k].0) by {}
    lemma_sum_pairs_is_sum_over(tokens, base_counts(tokens));
    lemma_base_counts_words(tokens);
}

/// Rows whose counts are the occurrence counts of their words sum like the
/// word list itself.
pub proof fn lemma_sum_pairs_is_sum_over(tokens: Seq<Seq<char>>, rows: Seq<(Seq<char>, nat)>)
    requires
        forall|k: int| 0 <= k < rows.len() ==> (#[trigger] rows[k]).1 == count_in(tokens, rows[k].0),
    ensures
        sum_pairs(rows) == sum_counts_over(tokens, pair_words(rows)),
    decreases rows.len(),
{
    if rows.len() > 0 {
        assert forall|k: int| 0 <= k < rows.drop_first().len() implies (#[trigger] rows.drop_first()[k]).1
            == count_in(tokens, rows.drop_first()[k].0) by {
            assert(rows.drop_first()[k] == rows[k + 1]);
        }
        lemma_sum_pairs_is_sum_over(tokens, rows.drop_first());
        assert(pair_words(rows).drop_first() =~= pair_words(rows.drop_first()));
        assert(pair_words(rows)[0] == rows[0].0);
    }
}

/// Extending the stream by a token already seen bumps that token's row count
/// by one and changes nothing else.
pub proof fn lemma_base_counts_step_seen(tokens: Seq<Seq<char>>, i: int, k: int)
    requires
        0 <= i < tokens.len(),
        0 <= k < firsts(tokens.take(i)).len(),
        firsts(tokens.take(i))[k] == tokens[i],
    ensures
        base_counts(tokens.take(i + 1)) == base_counts(tokens.take(i)).update(
            k,
            (tokens[i], (count_in(tokens.take(i), tokens[i]) + 1) as nat),
        ),
{
    let pre = tokens.take(i);
    let cur = tokens.take(i + 1);
    let tok = tokens[i];
    assert(cur.drop_last() =~= pre);
    assert(cur.last() == tok);
    lemma_firsts_props(pre);
    assert(firsts(pre).contains(tok)) by {
        assert(firsts(pre)[k] == tok);
    }
    assert(pre.contains(tok));
    assert(firsts(cur) == firsts(pre));
    assert forall|w: Seq<char>| #[trigger] count_in(cur, w) == count_in(pre, w) + (if w == tok {
        1nat
    } else {
        0nat
    }) by {}
    let lhs = base_counts(cur);
    let rhs = base_counts(pre).update(k, (tok, (count_in(pre, tok) + 1) as nat));
    assert forall|j: int| 0 <= j < lhs.len() implies lhs[j] == rhs[j] by {
        if j == k {
        } else {
            assert(firsts(pre)[j] != tok) by {
                if firsts(pre)[j] == tok {
                    assert(firsts(pre)[j] == firsts(pre)[k]);
                }
            }
        }
    }
    assert(lhs =~= rhs);
}

/// Extending the stream by an unseen token appends a fresh row of count one.
pub proof fn lemma_base_counts_step_new(tokens: Seq<Seq<char>>, i: int)
    requires
        0 <= i < tokens.len(),
        !firsts(tokens.take(i)).contains(tokens[i]),
    ensures
        base_counts(tokens.take(i + 1)) == base_counts(tokens.take(i)).push((tokens[i], 1nat)),
{
    let pre = tokens.take(i);
    let cur = tokens.take(i + 1);
    let tok = tokens[i];
    assert(cur.drop_last() =~= pre);
    assert(cur.last() == tok);
    lemma_firsts_props(pre);
    assert(!pre.contains(tok));
    assert(firsts(cur) == firsts(pre).push(tok));
    lemma_count_in_bounds(pre, tok);
    assert(count_in(pre, tok) == 0);
    assert forall|w: Seq<char>| #[trigger] count_in(cur, w) == count_in(pre, w) + (if w == tok {
        1nat
    } else {
        0nat
    }) by {}
    let lhs = base_counts(cur);
    let rhs = base_counts(pre).push((tok, 1nat));
    assert forall|j: int| 0 <= j < lhs.len() implies lhs[j] == rhs[j] by {
        if j < lhs.len() - 1 {
            assert(firsts(cur)[j] == firsts(pre)[j]);
            assert(firsts(pre)[j] != tok) by {
                if firsts(pre)[j] == tok {
                    assert(firsts(pre).contains(tok));
                }
            }
        } else {
            assert(firsts(cur)[j] == tok);
        }
    }
    assert(lhs =~= rhs);
}

} // verus!
