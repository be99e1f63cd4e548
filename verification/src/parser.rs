use vstd::prelude::*;

verus! {

// ----------------------------------------------------------------------------
// Names for the results of std's Unicode queries. Each depends on the
// characters alone, so the result of a call can be given a name that the
// contracts of this crate speak of exactly.
// ----------------------------------------------------------------------------

/// Whether `char::is_alphabetic` accepts `c`.
pub uninterp spec fn is_alpha(c: char) -> bool;

/// Whether `char::is_whitespace` accepts `c`.
pub uninterp spec fn is_space(c: char) -> bool;

/// The characters that `str::to_lowercase` produces for the characters `s`.
pub uninterp spec fn lower_of(s: Seq<char>) -> Seq<char>;

/// Relies on char::is_alphabetic: the result depends on the character alone.
#[verifier::external_body]
pub(crate) fn char_is_alphabetic(c: char) -> (r: bool)
    ensures
        r == is_alpha(c),
{
    c.is_alphabetic()
}

/// Relies on char::is_whitespace: the result depends on the character alone.
#[verifier::external_body]
pub(crate) fn char_is_whitespace(c: char) -> (r: bool)
    ensures
        r == is_space(c),
{
    c.is_whitespace()
}

/// Relies on str::to_lowercase: the result depends on the characters alone,
/// and an empty string is left empty.
#[verifier::external_body]
pub(crate) fn to_lowercase(s: &str) -> (r: String)
    ensures
        r@ == lower_of(s@),
        s@.len() == 0 ==> r@.len() == 0,
{
    s.to_lowercase()
}

/// Relies on str::chars: it yields exactly the characters of the string, in order.
#[verifier::external_body]
pub(crate) fn chars_of(s: &str) -> (r: Vec<char>)
    ensures
        r@ == s@,
{
    s.chars().collect()
}

/// Relies on String's FromIterator over char: it collects the characters in order.
#[verifier::external_body]
pub(crate) fn string_from_chars(v: &Vec<char>) -> (r: String)
    ensures
        r@ == v@,
{
    v.iter().collect()
}

// ----------------------------------------------------------------------------
// The token model: a text splits into maximal whitespace-free runs; each run
// keeps its alphabetic characters, is lowercased, and is dropped when nothing
// remains.
// ----------------------------------------------------------------------------

/// The alphabetic characters of `s`, in order.
pub open spec fn filter_alpha(s: Seq<char>) -> Seq<char>
    decreases s.len(),
{
    if s.len() == 0 {
        Seq::empty()
    } else if is_alpha(s.last()) {
        filter_alpha(s.drop_last()).push(s.last())
    } else {
        filter_alpha(s.drop_last())
    }
}

/// The token a raw whitespace-free run contributes: its alphabetic
/// characters, lowercased.
pub open spec fn clean_token(w: Seq<char>) -> Seq<char> {
    lower_of(filter_alpha(w))
}

/// Length of the leading whitespace-free run of `s`.
pub open spec fn run_len(s: Seq<char>) -> nat
    decreases s.len(),
{
    if s.len() == 0 || is_space(s[0]) {
        0
    } else {
        1 + run_len(s.drop_first())
    }
}

proof fn lemma_run_len_positive(s: Seq<char>)
    requires
        s.len() > 0,
        !is_space(s[0]),
    ensures
        1 <= run_len(s) <= s.len(),
    decreases s.len(),
{
    let t = s.drop_first();
    if t.len() > 0 && !is_space(t[0]) {
        lemma_run_len_positive(t);
    } else {
        assert(run_len(t) == 0);
    }
}

/// The maximal whitespace-free runs of `s`, in order.
pub open spec fn raw_runs(s: Seq<char>) -> Seq<Seq<char>>
    decreases s.len(),
    via raw_runs_decreases
{
    if s.len() == 0 {
        Seq::empty()
    } else if is_space(s[0]) {
        raw_runs(s.drop_first())
    } else {
        seq![s.take(run_len(s) as int)] + raw_runs(s.skip(run_len(s) as int))
    }
}

#[via_fn]
proof fn raw_runs_decreases(s: Seq<char>) {
    if s.len() > 0 && !is_space(s[0]) {
        lemma_run_len_positive(s);
    }
}

/// The tokens of a text: each whitespace-free run cleaned, empty results dropped.
pub open spec fn tokens_of(s: Seq<char>) -> Seq<Seq<char>> {
    raw_runs(s).map_values(|w: Seq<char>| clean_token(w)).filter(|t: Seq<char>| t.len() > 0)
}

/// If every character in `[i, j)` is whitespace-free and `j` is the text's end
/// or a whitespace position, the leading run of `s.skip(i)` has length `j - i`.
proof fn lemma_run_len_interval(s: Seq<char>, i: int, j: int)
    requires
        0 <= i <= j <= s.len(),
        forall|k: int| i <= k < j ==> !is_space(#[trigger] s[k]),
        j < s.len() ==> is_space(s[j]),
    ensures
        run_len(s.skip(i)) == j - i,
    decreases j - i,
{
    let t = s.skip(i);
    if i == j {
        if i < s.len() {
            assert(t[0] == s[i]);
        }
    } else {
        assert(t[0] == s[i]);
        assert(t.drop_first() =~= s.skip(i + 1));
        lemma_run_len_interval(s, i + 1, j);
    }
}

proof fn lemma_map_filter_add(a: Seq<Seq<char>>, b: Seq<Seq<char>>)
    ensures
        (a + b).map_values(|w: Seq<char>| clean_token(w)).filter(|t: Seq<char>| t.len() > 0) == a
            .map_values(|w: Seq<char>| clean_token(w)).filter(|t: Seq<char>| t.len() > 0)
            + b.map_values(|w: Seq<char>| clean_token(w)).filter(|t: Seq<char>| t.len() > 0),
{
    let m = |w: Seq<char>| clean_token(w);
    let p = |t: Seq<char>| t.len() > 0;
    assert((a + b).map_values(m) =~= a.map_values(m) + b.map_values(m));
    Seq::filter_distributes_over_add(a.map_values(m), b.map_values(m), p);
}

proof fn lemma_filter_single(t: Seq<char>)
    ensures
        seq![t].filter(|x: Seq<char>| x.len() > 0) == if t.len() > 0 {
            seq![t]
        } else {
            Seq::<Seq<char>>::empty()
        },
{
    let p = |x: Seq<char>| x.len() > 0;
    reveal(Seq::filter);
    assert(seq![t].drop_last() =~= Seq::<Seq<char>>::empty());
    assert(Seq::<Seq<char>>::empty().filter(p) =~= Seq::<Seq<char>>::empty());
    if t.len() > 0 {
        assert(seq![t].filter(p) =~= Seq::<Seq<char>>::empty().push(t));
        assert(Seq::<Seq<char>>::empty().push(t) =~= seq![t]);
    }
}

/// Splitting off the leading run of a whitespace-free-headed suffix splits its
/// token sequence accordingly.
proof fn lemma_tokens_step(s: Seq<char>, run: Seq<char>, rl: int)
    requires
        s.len() > 0,
        !is_space(s[0]),
        rl == run_len(s),
        run == s.take(rl),
    ensures
        tokens_of(s) == (if clean_token(run).len() > 0 {
            seq![clean_token(run)]
        } else {
            Seq::<Seq<char>>::empty()
        }) + tokens_of(s.skip(rl)),
{
    lemma_run_len_positive(s);
    assert(raw_runs(s) == seq![run] + raw_runs(s.skip(rl)));
    lemma_map_filter_add(seq![run], raw_runs(s.skip(rl)));
    let m = |w: Seq<char>| clean_token(w);
    assert(seq![run].map_values(m) =~= seq![clean_token(run)]);
    lemma_filter_single(clean_token(run));
}

/// A text parser: splits raw text into normalized lowercase alphabetic tokens.
pub struct TextParser;

impl TextParser {
    /// Extracts the normalized words of `text`: whitespace-separated runs,
    /// reduced to their alphabetic characters and lowercased; runs with no
    /// alphabetic characters contribute nothing.
    pub fn extract_words(text: &str) -> (r: Vec<String>)
        ensures
            r@.map_values(|w: String| w@) == tokens_of(text@),
    {
        let chars = chars_of(text);
        let n = chars.len();
        let mut out: Vec<String> = Vec::new();
        let mut i: usize = 0;
        proof {
            assert(chars@.skip(0) =~= chars@);
            assert(out@.map_values(|w: String| w@) =~= Seq::<Seq<char>>::empty());
            assert(Seq::<Seq<char>>::empty() + tokens_of(chars@) =~= tokens_of(chars@));
        }
        while i < n
            invariant
                n == chars@.len(),
                chars@ == text@,
                0 <= i <= n,
                tokens_of(text@) == out@.map_values(|w: String| w@) + tokens_of(
                    chars@.skip(i as int),
                ),
            decreases n - i,
        {
            if char_is_whitespace(chars[i]) {
                proof {
                    assert(chars@.skip(i as int).drop_first() =~= chars@.skip(i + 1));
                }
                i = i + 1;
            } else {
                let j = Self::scan_run_end(&chars, i);
                proof {
                    lemma_run_len_interval(chars@, i as int, j as int);
                }
                let ghost suffix = chars@.skip(i as int);
                let ghost run = suffix.take((j - i) as int);
                proof {
                    assert(run =~= chars@.subrange(i as int, j as int));
                    assert(suffix.skip((j - i) as int) =~= chars@.skip(j as int));
                }
                // Keep the alphabetic characters of the run.
                let mut kept: Vec<char> = Vec::new();
                let mut k: usize = i;
                while k < j
                    invariant
                        n == chars@.len(),
                        i <= k <= j <= n,
                        kept@ == filter_alpha(chars@.subrange(i as int, k as int)),
                    decreases j - k,
                {
                    proof {
                        assert(chars@.subrange(i as int, k + 1).drop_last() =~= chars@.subrange(
                            i as int,
                            k as int,
                        ));
                        assert(chars@.subrange(i as int, k + 1).last() == chars@[k as int]);
                    }
                    if char_is_alphabetic(chars[k]) {
                        kept.push(chars[k]);
                    }
                    k = k + 1;
                }
                let raw = string_from_chars(&kept);
                let token = to_lowercase(raw.as_str());
                proof {
                    assert(token@ == clean_token(run));
                    lemma_tokens_step(suffix, run, (j - i) as int);
                }
                let ghost prev_tokens = out@.map_values(|w: String| w@);
                if !token.as_str().is_empty() {
                    out.push(token);
                    proof {
                        assert(out@.map_values(|w: String| w@) =~= prev_tokens + seq![token@]);
                        assert(prev_tokens + (seq![token@] + tokens_of(chars@.skip(j as int)))
                            =~= (prev_tokens + seq![token@]) + tokens_of(chars@.skip(j as int)));
                    }
                } else {
                    proof {
                        assert(Seq::<Seq<char>>::empty() + tokens_of(chars@.skip(j as int))
                            =~= tokens_of(chars@.skip(j as int)));
                    }
                }
                i = j;
            }
        }
        proof {
            assert(chars@.skip(n as int) =~= Seq::<char>::empty());
            assert(tokens_of(Seq::<char>::empty()) =~= Seq::<Seq<char>>::empty()) by {
                reveal(Seq::filter);
            }
            assert(out@.map_values(|w: String| w@) + Seq::<Seq<char>>::empty() =~= out@.map_values(
                |w: String| w@,
            ));
        }
        out
    }

    /// Scans forward from `start` to the end of the current whitespace-free run.
    fn scan_run_end(chars: &Vec<char>, start: usize) -> (j: usize)
        requires
            start <= chars@.len(),
        ensures
            start <= j <= chars@.len(),
            forall|k: int| start <= k < j ==> !is_space(#[trigger] chars@[k]),
            j < chars@.len() ==> is_space(chars@[j as int]),
    {
        let n = chars.len();
        let mut j = start;
        while j < n
            invariant
                n == chars@.len(),
                start <= j <= n,
                forall|k: int| start <= k < j ==> !is_space(#[trigger] chars@[k]),
            ensures
                start <= j <= n,
                forall|k: int| start <= k < j ==> !is_space(#[trigger] chars@[k]),
                j < n ==> is_space(chars@[j as int]),
            decreases n - j,
        {
            if char_is_whitespace(chars[j]) {
                break ;
            }
            j = j + 1;
        }
        j
    }
}

} // verus!
