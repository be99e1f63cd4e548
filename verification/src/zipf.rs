use vstd::prelude::*;
use crate::analyzer::{WordCount, WordCountView};

verus! {

/// Whether the Zipf reference curve derives from the filtered list or the
/// original unfiltered dataset.
#[derive(Debug, Clone, Copy, PartialEq, Eq, Structural)]
pub enum ZipfBasis {
    Filtered,
    Unfiltered,
}

/// Which word anchors the ideal curve: the reference list's own top word
/// (Absolute) or the top of the visible window (Relative).
#[derive(Debug, Clone, Copy, PartialEq, Eq, Structural)]
pub enum ZipfReference {
    Absolute,
    Relative,
}

/// Whether the chart plots only the visible window (Relative) or the entire
/// filtered dataset (Absolute).
#[derive(Debug, Clone, Copy, PartialEq, Eq, Structural)]
pub enum ChartScope {
    Relative,
    Absolute,
}

/// The Zipf-fit configuration: whether the overlay is on, which list anchors
/// the reference curve, and how the anchor word is chosen.
#[derive(Debug, Clone, Copy, PartialEq, Eq, Structural)]
pub struct ZipfFitState {
    pub enabled: bool,
    pub basis: ZipfBasis,
    pub reference: ZipfReference,
}

impl ZipfFitState {
    /// The overlay starts disabled and, once enabled, anchors absolutely on
    /// the unfiltered table until reconfigured.
    pub fn new() -> (r: ZipfFitState)
        ensures
            !r.enabled,
            r.basis == ZipfBasis::Unfiltered,
            r.reference == ZipfReference::Absolute,
    {
        ZipfFitState {
            enabled: false,
            basis: ZipfBasis::Unfiltered,
            reference: ZipfReference::Absolute,
        }
    }
}

/// An exact nonnegative rational: `num / den`.
#[derive(Debug, Clone, Copy, PartialEq, Eq, Structural)]
pub struct Ratio {
    pub num: u128,
    pub den: u128,
}

/// The fit ratio of `word` as an exact fraction (numerator, denominator):
/// actual frequency over the frequency the reference Zipf curve predicts at
/// the word's rank. `None` when the overlay is off or the anchoring list is
/// empty.
pub open spec fn fit_spec(
    word: WordCountView,
    chart: Seq<WordCountView>,
    reference: Seq<WordCountView>,
    state: ZipfFitState,
    scope: ChartScope,
) -> Option<(int, int)> {
    if !state.enabled {
        None
    } else if state.reference == ZipfReference::Relative && scope == ChartScope::Relative {
        // ideal = (chart[0].count * chart[0].rank) / rank, so
        // ratio = (count * rank) / (chart[0].count * chart[0].rank)
        if chart.len() == 0 {
            None
        } else {
            Some(
                (
                    (word.count * word.rank) as int,
                    (chart[0].count * chart[0].rank) as int,
                ),
            )
        }
    } else {
        // absolute anchoring (also the fallback for a relative reference over
        // the full dataset): ideal = reference[0].count / rank, so
        // ratio = (count * rank) / reference[0].count
        if reference.len() == 0 {
            None
        } else {
            Some(((word.count * word.rank) as int, reference[0].count as int))
        }
    }
}

/// Computes the exact fit ratio of `word` against the configured reference
/// curve.
pub fn calculate_zipf_fit(
    word: &WordCount,
    chart_words: &Vec<WordCount>,
    reference_words: &Vec<WordCount>,
    state: &ZipfFitState,
    scope: &ChartScope,
) -> (r: Option<Ratio>)
    ensures
        match r {
            Some(q) => fit_spec(
                word@,
                chart_words.deep_view(),
                reference_words.deep_view(),
                *state,
                *scope,
            ) == Some((q.num as int, q.den as int)),
            None => fit_spec(
                word@,
                chart_words.deep_view(),
                reference_words.deep_view(),
                *state,
                *scope,
            ) is None,
        },
{
    if !state.enabled {
        return None;
    }
    proof {
        lemma_usize_product_fits(word.count as int, word.rank as int);
    }
    let num = (word.count as u128) * (word.rank as u128);
    if state.reference == ZipfReference::Relative && *scope == ChartScope::Relative {
        if chart_words.len() == 0 {
            return None;
        }
        let first = &chart_words[0];
        proof {
            lemma_usize_product_fits(first.count as int, first.rank as int);
            assert(chart_words.deep_view()[0] == chart_words@[0]@);
        }
        let den = (first.count as u128) * (first.rank as u128);
        Some(Ratio { num, den })
    } else {
        if reference_words.len() == 0 {
            return None;
        }
        let first = &reference_words[0];
        proof {
            assert(reference_words.deep_view()[0] == reference_words@[0]@);
        }
        let den = first.count as u128;
        Some(Ratio { num, den })
    }
}

/// The product of two machine-word counts fits in 128 bits.
proof fn lemma_usize_product_fits(a: int, b: int)
    requires
        0 <= a <= usize::MAX,
        0 <= b <= usize::MAX,
    ensures
        a * b <= u128::MAX,
{
    assert(a * b <= u64::MAX * u64::MAX) by (nonlinear_arith)
        requires
            0 <= a <= u64::MAX,
            0 <= b <= u64::MAX,
    ;
}

// ----------------------------------------------------------------------------
// Deviation classes: how far a ratio strays from the ideal curve.
// ----------------------------------------------------------------------------

/// How a word's fit ratio relates to the ideal curve, for display only:
/// within ten percent, mildly or moderately off on either side, or extreme.
#[derive(Debug, Clone, Copy, PartialEq, Eq, Structural)]
pub enum DeviationClass {
    Nominal,
    MildUnder,
    MildOver,
    ModerateUnder,
    ModerateOver,
    ExtremeUnder,
    ExtremeOver,
}

/// The deviation class of the exact ratio `num / den`: nominal in
/// [0.9, 1.1], mild in [0.7, 0.9) and (1.1, 1.3], moderate in [0.5, 0.7) and
/// (1.3, 2.0], extreme outside.
pub open spec fn class_spec(num: int, den: int) -> DeviationClass {
    if 10 * num >= 9 * den && 10 * num <= 11 * den {
        DeviationClass::Nominal
    } else if 10 * num >= 7 * den && 10 * num < 9 * den {
        DeviationClass::MildUnder
    } else if 10 * num > 11 * den && 10 * num <= 13 * den {
        DeviationClass::MildOver
    } else if 10 * num >= 5 * den && 10 * num < 7 * den {
        DeviationClass::ModerateUnder
    } else if 10 * num > 13 * den && num <= 2 * den {
        DeviationClass::ModerateOver
    } else if 10 * num < 5 * den {
        DeviationClass::ExtremeUnder
    } else {
        DeviationClass::ExtremeOver
    }
}

/// Splits `x * m` (for small `m`) into 64-bit-aligned high and low halves,
/// exactly.
fn mul_small(x: u128, m: u128) -> (r: (u128, u128))
    requires
        m <= 32,
    ensures
        x as int * m as int == r.0 * 0x1_0000_0000_0000_0000 + r.1,
        r.1 < 0x1_0000_0000_0000_0000,
{
    let b: u128 = 0x1_0000_0000_0000_0000;
    let hi = x / b;
    let lo = x % b;
    proof {
        assert(hi <= 0x0_ffff_ffff_ffff_ffffu128) by (nonlinear_arith)
            requires
                hi == x / 0x1_0000_0000_0000_0000u128,
                x <= u128::MAX,
        ;
        assert(hi * m <= 0x20_0000_0000_0000_0000u128) by (nonlinear_arith)
            requires
                0 <= hi < 0x1_0000_0000_0000_0000u128,
                0 <= m <= 32,
        ;
        assert(lo * m <= 0x20_0000_0000_0000_0000u128) by (nonlinear_arith)
            requires
                0 <= lo < 0x1_0000_0000_0000_0000u128,
                0 <= m <= 32,
        ;
    }
    let him = hi * m;
    let lom = lo * m;
    let carry = lom / b;
    let r0 = him + carry;
    let r1 = lom % b;
    proof {
        vstd::arithmetic::div_mod::lemma_fundamental_div_mod(x as int, b as int);
        vstd::arithmetic::div_mod::lemma_fundamental_div_mod(lom as int, b as int);
        assert((hi * b + lo) * m == (hi * m) * b + lo * m) by (nonlinear_arith);
        assert(x as int * m as int == r0 * 0x1_0000_0000_0000_0000 + r1) by (nonlinear_arith)
            requires
                x == hi * b + lo,
                lom == lo * m,
                lom == carry * b + r1,
                him == hi * m,
                r0 == him + carry,
                b == 0x1_0000_0000_0000_0000,
        ;
    }
    (r0, r1)
}

/// Decides whether `x * m <= y * n` exactly, for small factors, without
/// overflowing 128-bit arithmetic.
fn prod_le(x: u128, m: u128, y: u128, n: u128) -> (r: bool)
    requires
        m <= 32,
        n <= 32,
    ensures
        r == (x as int * m as int <= y as int * n as int),
{
    let (a_hi, a_lo) = mul_small(x, m);
    let (b_hi, b_lo) = mul_small(y, n);
    let r = a_hi < b_hi || (a_hi == b_hi && a_lo <= b_lo);
    proof {
        let b: int = 0x1_0000_0000_0000_0000;
        assert(r == (a_hi * b + a_lo <= b_hi * b + b_lo)) by (nonlinear_arith)
            requires
                0 <= a_lo < b,
                0 <= b_lo < b,
                0 <= a_hi,
                0 <= b_hi,
                b == 0x1_0000_0000_0000_0000,
                r == (a_hi < b_hi || (a_hi == b_hi && a_lo <= b_lo)),
        ;
    }
    r
}

/// Classifies an exact ratio against the ideal curve.
pub fn deviation_class(ratio: &Ratio) -> (r: DeviationClass)
    requires
        ratio.den >= 1,
    ensures
        r == class_spec(ratio.num as int, ratio.den as int),
{
    let num = ratio.num;
    let den = ratio.den;
    if prod_le(den, 9, num, 10) && prod_le(num, 10, den, 11) {
        DeviationClass::Nominal
    } else if prod_le(den, 7, num, 10) && !prod_le(den, 9, num, 10) {
        DeviationClass::MildUnder
    } else if !prod_le(num, 10, den, 11) && prod_le(num, 10, den, 13) {
        DeviationClass::MildOver
    } else if prod_le(den, 5, num, 10) && !prod_le(den, 7, num, 10) {
        DeviationClass::ModerateUnder
    } else if !prod_le(num, 10, den, 13) && prod_le(num, 1, den, 2) {
        DeviationClass::ModerateOver
    } else if !prod_le(den, 5, num, 10) {
        DeviationClass::ExtremeUnder
    } else {
        DeviationClass::ExtremeOver
    }
}

// ----------------------------------------------------------------------------
// Laws of the fit ratio.
// ----------------------------------------------------------------------------

/// Law (absolute anchoring): the reference list's own top word — rank one —
/// always fits exactly: its ratio is one, whatever the chart scope.
pub proof fn lemma_absolute_reference_ratio_one(
    word: WordCountView,
    chart: Seq<WordCountView>,
    reference: Seq<WordCountView>,
    state: ZipfFitState,
    scope: ChartScope,
)
    requires
        state.enabled,
        state.reference == ZipfReference::Absolute || scope == ChartScope::Absolute,
        reference.len() > 0,
        word == reference[0],
        reference[0].rank == 1,
    ensures
        fit_spec(word, chart, reference, state, scope) == Some(
            (reference[0].count as int, reference[0].count as int),
        ),
{
}

/// Law (relative anchoring over the visible window): the window's own top
/// word always fits exactly: its ratio is one.
pub proof fn lemma_relative_reference_ratio_one(
    word: WordCountView,
    chart: Seq<WordCountView>,
    reference: Seq<WordCountView>,
    state: ZipfFitState,
)
    requires
        state.enabled,
        state.reference == ZipfReference::Relative,
        chart.len() > 0,
        word == chart[0],
    ensures
        fit_spec(word, chart, reference, state, ChartScope::Relative) == Some(
            ((chart[0].count * chart[0].rank) as int, (chart[0].count * chart[0].rank) as int),
        ),
{
}

/// A ratio of exactly one is nominal.
pub proof fn lemma_ratio_one_is_nominal(x: int)
    requires
        x > 0,
    ensures
        class_spec(x, x) == DeviationClass::Nominal,
{
}

} // verus!
