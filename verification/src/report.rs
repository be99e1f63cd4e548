use vstd::prelude::*;
use crate::analyzer::{Dataset, WordCount, sum_wc};
use crate::parser::{chars_of, string_from_chars};
use vstd::string::StringExecFns;

verus! {

// ----------------------------------------------------------------------------
// The persisted report: plain, stable, diffable text.
// ----------------------------------------------------------------------------

/// The character of a single decimal digit.
pub open spec fn dec_digit(d: nat) -> char {
    if d == 0 {
        '0'
    } else if d == 1 {
        '1'
    } else if d == 2 {
        '2'
    } else if d == 3 {
        '3'
    } else if d == 4 {
        '4'
    } else if d == 5 {
        '5'
    } else if d == 6 {
        '6'
    } else if d == 7 {
        '7'
    } else if d == 8 {
        '8'
    } else {
        '9'
    }
}

/// The decimal representation of `n`, most significant digit first.
pub open spec fn dec_rep(n: nat) -> Seq<char>
    decreases n,
{
    if n < 10 {
        seq![dec_digit(n)]
    } else {
        dec_rep(n / 10).push(dec_digit(n % 10))
    }
}

/// Renders `n` in decimal.
pub fn format_usize(n: usize) -> (s: String)
    ensures
        s@ == dec_rep(n as nat),
{
    let mut rev: Vec<char> = Vec::new();
    let mut m: usize = n;
    proof {
        assert(rev@.reverse() =~= Seq::<char>::empty());
        assert(dec_rep(n as nat) + Seq::<char>::empty() =~= dec_rep(n as nat));
    }
    while m >= 10
        invariant
            dec_rep(n as nat) == dec_rep(m as nat) + rev@.reverse(),
        decreases m,
    {
        let d = m % 10;
        let ghost prev = rev@;
        rev.push(digit_char(d));
        proof {
            assert(rev@.reverse() =~= seq![dec_digit(d as nat)] + prev.reverse());
            assert(m / 10 < m) by (nonlinear_arith)
                requires
                    m >= 10,
            ;
            assert(dec_rep(m as nat) == dec_rep((m / 10) as nat).push(dec_digit((m % 10) as nat)));
            assert(dec_rep((m / 10) as nat).push(dec_digit(d as nat)) =~= dec_rep((m / 10) as nat)
                + seq![dec_digit(d as nat)]);
            assert(dec_rep((m / 10) as nat) + seq![dec_digit(d as nat)] + prev.reverse()
                =~= dec_rep((m / 10) as nat) + (seq![dec_digit(d as nat)] + prev.reverse()));
        }
        m = m / 10;
    }
    let ghost before_last = rev@;
    rev.push(digit_char(m));
    proof {
        assert(rev@.reverse() =~= seq![dec_digit(m as nat)] + before_last.reverse());
        assert(dec_rep(m as nat) =~= seq![dec_digit(m as nat)]);
        assert(dec_rep(n as nat) =~= rev@.reverse());
    }
    // materialize the digits in the right order
    let mut out: Vec<char> = Vec::new();
    proof {
        assert(out@ + rev@.reverse() =~= rev@.reverse());
    }
    while rev.len() > 0
        invariant
            out@ + rev@.reverse() == dec_rep(n as nat),
        decreases rev@.len(),
    {
        let ghost pre = rev@;
        let c = rev.pop().unwrap();
        proof {
            assert(pre.reverse() =~= seq![c] + rev@.reverse());
            assert((out@ + seq![c]) + rev@.reverse() =~= out@ + (seq![c] + rev@.reverse()));
            assert(out@.push(c) =~= out@ + seq![c]);
        }
        out.push(c);
    }
    proof {
        assert(rev@.reverse() =~= Seq::<char>::empty());
        assert(out@ + Seq::<char>::empty() =~= out@);
    }
    string_from_chars(&out)
}

/// The character of digit `d`.
fn digit_char(d: usize) -> (r: char)
    requires
        d <= 9,
    ensures
        r == dec_digit(d as nat),
{
    if d == 0 {
        '0'
    } else if d == 1 {
        '1'
    } else if d == 2 {
        '2'
    } else if d == 3 {
        '3'
    } else if d == 4 {
        '4'
    } else if d == 5 {
        '5'
    } else if d == 6 {
        '6'
    } else if d == 7 {
        '7'
    } else if d == 8 {
        '8'
    } else {
        '9'
    }
}

/// One row of the persisted report: `rank,word,count`.
pub open spec fn csv_line_spec(rank: nat, word: Seq<char>, count: nat) -> Seq<char> {
    dec_rep(rank) + seq![','] + word + seq![','] + dec_rep(count)
}

/// Renders one report row.
pub fn csv_line(wc: &WordCount) -> (s: String)
    ensures
        s@ == csv_line_spec(wc@.rank, wc@.word, wc@.count),
{
    let mut line = format_usize(wc.rank);
    line.append(",");
    line.append(wc.word.as_str());
    line.append(",");
    let count_part = format_usize(wc.count);
    line.append(count_part.as_str());
    proof {
        assert(","@ =~= seq![',']) by {
            reveal_strlit(",");
        }
        assert(line@ =~= csv_line_spec(wc@.rank, wc@.word, wc@.count));
    }
    line
}

/// Renders a dataset's whole `rank,word,count` table, one row per line, in
/// rank order.
pub fn dataset_report_lines(d: &Dataset) -> (lines: Vec<String>)
    ensures
        lines@.len() == d.word_counts@.len(),
        forall|i: int|
            0 <= i < lines@.len() ==> (#[trigger] lines@[i])@ == csv_line_spec(
                d@.word_counts[i].rank,
                d@.word_counts[i].word,
                d@.word_counts[i].count,
            ),
{
    let n = d.word_counts.len();
    let mut lines: Vec<String> = Vec::new();
    let mut i: usize = 0;
    while i < n
        invariant
            n == d.word_counts@.len(),
            0 <= i <= n,
            lines@.len() == i,
            forall|k: int|
                0 <= k < i ==> (#[trigger] lines@[k])@ == csv_line_spec(
                    d@.word_counts[k].rank,
                    d@.word_counts[k].word,
                    d@.word_counts[k].count,
                ),
        decreases n - i,
    {
        let line = csv_line(&d.word_counts[i]);
        proof {
            assert(d@.word_counts[i as int] == d.word_counts@[i as int]@);
        }
        lines.push(line);
        i = i + 1;
    }
    lines
}

// ----------------------------------------------------------------------------
// Display helpers.
// ----------------------------------------------------------------------------

/// Truncates a string to at most `max_chars` characters, marking a cut with
/// a three-dot ellipsis inside the budget.
pub fn truncate_string(s: &str, max_chars: usize) -> (r: String)
    ensures
        s@.len() <= max_chars ==> r@ == s@,
        s@.len() > max_chars ==> r@ == s@.take(
            (if max_chars >= 3 {
                max_chars - 3
            } else {
                0
            }) as int,
        ) + seq!['.', '.', '.'],
{
    let chars = chars_of(s);
    let n = chars.len();
    if n <= max_chars {
        return string_from_chars(&chars);
    }
    let keep = if max_chars >= 3 {
        max_chars - 3
    } else {
        0
    };
    let mut out: Vec<char> = Vec::new();
    let mut i: usize = 0;
    while i < keep
        invariant
            keep <= n == chars@.len(),
            chars@ == s@,
            0 <= i <= keep,
            out@ == s@.take(i as int),
        decreases keep - i,
    {
        out.push(chars[i]);
        proof {
            assert(s@.take(i + 1) =~= s@.take(i as int).push(s@[i as int]));
        }
        i = i + 1;
    }
    out.push('.');
    out.push('.');
    out.push('.');
    proof {
        assert(out@ =~= s@.take(keep as int) + seq!['.', '.', '.']);
    }
    string_from_chars(&out)
}

/// Sums the counts of a ranked list; `None` when the sum does not fit the
/// machine.
pub fn sum_counts(v: &Vec<WordCount>) -> (r: Option<usize>)
    ensures
        match r {
            Some(x) => x as nat == sum_wc(v.deep_view()),
            None => sum_wc(v.deep_view()) > usize::MAX,
        },
{
    let n = v.len();
    let mut acc: usize = 0;
    let mut i: usize = 0;
    proof {
        assert(v.deep_view().take(0) =~= Seq::<crate::analyzer::WordCountView>::empty());
    }
    while i < n
        invariant
            n == v@.len(),
            v.deep_view().len() == n,
            0 <= i <= n,
            acc as nat == sum_wc(v.deep_view().take(i as int)),
        decreases n - i,
    {
        proof {
            lemma_sum_wc_take_succ(v.deep_view(), i as int);
            assert(v.deep_view()[i as int] == v@[i as int]@);
        }
        let c = v[i].count;
        if c > usize::MAX - acc {
            proof {
                lemma_sum_wc_take_le(v.deep_view(), i + 1);
            }
            return None;
        }
        acc = acc + c;
        i = i + 1;
    }
    proof {
        assert(v.deep_view().take(n as int) =~= v.deep_view());
    }
    Some(acc)
}

/// Prefix sums of counts grow by exactly the next count.
proof fn lemma_sum_wc_take_succ(s: Seq<crate::analyzer::WordCountView>, i: int)
    requires
        0 <= i < s.len(),
    ensures
        sum_wc(s.take(i + 1)) == sum_wc(s.take(i)) + s[i].count,
    decreases i,
{
    if i == 0 {
        assert(s.take(0) =~= Seq::<crate::analyzer::WordCountView>::empty());
        assert(s.take(1)[0] == s[0]);
        assert(s.take(1).drop_first() =~= Seq::<crate::analyzer::WordCountView>::empty());
    } else {
        let t = s.drop_first();
        lemma_sum_wc_take_succ(t, i - 1);
        assert(s.take(i + 1)[0] == s[0]);
        assert(s.take(i)[0] == s[0]);
        assert(s.take(i + 1).drop_first() =~= t.take(i));
        assert(s.take(i).drop_first() =~= t.take(i - 1));
        assert(t[i - 1] == s[i]);
    }
}

/// A prefix of counts never sums to more than the whole.
proof fn lemma_sum_wc_take_le(s: Seq<crate::analyzer::WordCountView>, i: int)
    requires
        0 <= i <= s.len(),
    ensures
        sum_wc(s.take(i)) <= sum_wc(s),
    decreases s.len() - i,
{
    if i == s.len() {
        assert(s.take(i) =~= s);
    } else {
        lemma_sum_wc_take_succ(s, i);
        lemma_sum_wc_take_le(s, i + 1);
    }
}

} // verus!
