use vstd::prelude::*;
use crate::analyzer::{
    Tag, TagView, Dataset, WordCount, tag_in, has_tag_named, clone_word_counts, sum_wc, str_eq,
};
use crate::filter::{FilterSet, filter_wf, apply_spec, apply_filter};
use crate::search::{is_search_results, compute_search_results, fuzzy_spec, some_val};
use crate::zipf::{ZipfFitState, ZipfBasis, ChartScope};
use crate::parser::{string_from_chars, lower_of};

verus! {

// ----------------------------------------------------------------------------
// Input model: the keys the controller reacts to, as plain values.
// ----------------------------------------------------------------------------

/// One key press, reduced to what the controller distinguishes.
#[derive(Debug, Clone, Copy, PartialEq, Eq, Structural)]
pub enum Key {
    Char(char),
    CtrlChar(char),
    Up,
    Down,
    Home,
    End,
    PageUp,
    PageDown,
    Enter,
    Esc,
    Backspace,
    Tab,
    BackTab,
}

/// Which input mode is active; exactly one at a time.
#[derive(Debug, Clone, Copy, PartialEq, Eq, Structural)]
pub enum InputMode {
    Normal,
    Search,
    NumberInput,
    Filter,
}

/// Where the two-step filter flow stands: picking a tag, or picking what to
/// do with the picked tag.
#[derive(Debug)]
pub enum FilterInputState {
    SelectingTag,
    SelectingAction(Tag),
}

/// Whether counts display raw or as a percentage of the total.
#[derive(Debug, Clone, Copy, PartialEq, Eq, Structural)]
pub enum NormalizationMode {
    Raw,
    Percentage,
}

// ----------------------------------------------------------------------------
// Decimal input buffers.
// ----------------------------------------------------------------------------

/// Whether `c` is a decimal digit.
pub open spec fn is_digit(c: char) -> bool {
    c == '0' || c == '1' || c == '2' || c == '3' || c == '4' || c == '5' || c == '6' || c == '7'
        || c == '8' || c == '9'
}

/// The value of a decimal digit.
pub open spec fn digit_val(c: char) -> nat {
    if c == '0' {
        0
    } else if c == '1' {
        1
    } else if c == '2' {
        2
    } else if c == '3' {
        3
    } else if c == '4' {
        4
    } else if c == '5' {
        5
    } else if c == '6' {
        6
    } else if c == '7' {
        7
    } else if c == '8' {
        8
    } else {
        9
    }
}

/// Whether every character of `s` is a decimal digit.
pub open spec fn all_digits(s: Seq<char>) -> bool {
    forall|i: int| 0 <= i < s.len() ==> is_digit(#[trigger] s[i])
}

/// The number a digit string denotes.
pub open spec fn digits_val(s: Seq<char>) -> nat
    decreases s.len(),
{
    if s.len() == 0 {
        0
    } else {
        digits_val(s.drop_last()) * 10 + digit_val(s.last())
    }
}

/// A longer digit string never denotes a smaller number.
proof fn lemma_digits_val_take_le(s: Seq<char>, i: int)
    requires
        0 <= i <= s.len(),
    ensures
        digits_val(s.take(i)) <= digits_val(s),
    decreases s.len() - i,
{
    if i == s.len() {
        assert(s.take(i) =~= s);
    } else {
        assert(s.take(i + 1).drop_last() =~= s.take(i));
        assert(s.take(i + 1).last() == s[i]);
        assert(digits_val(s.take(i + 1)) == digits_val(s.take(i)) * 10 + digit_val(s[i]));
        assert(digits_val(s.take(i)) <= digits_val(s.take(i)) * 10) by (nonlinear_arith)
            requires
                digits_val(s.take(i)) >= 0,
        ;
        lemma_digits_val_take_le(s, i + 1);
    }
}

/// Parses a digit buffer as a number; `None` when the buffer is empty or the
/// value does not fit the machine.
pub fn parse_digits(s: &Vec<char>) -> (r: Option<usize>)
    requires
        all_digits(s@),
    ensures
        match r {
            Some(x) => s@.len() > 0 && x as nat == digits_val(s@),
            None => s@.len() == 0 || digits_val(s@) > usize::MAX,
        },
{
    let n = s.len();
    if n == 0 {
        return None;
    }
    let mut acc: usize = 0;
    let mut i: usize = 0;
    proof {
        assert(s@.take(0) =~= Seq::<char>::empty());
    }
    while i < n
        invariant
            n == s@.len(),
            all_digits(s@),
            0 <= i <= n,
            acc as nat == digits_val(s@.take(i as int)),
        decreases n - i,
    {
        let c = s[i];
        let d: usize = digit_of(c);
        proof {
            assert(is_digit(s@[i as int]));
            assert(s@.take(i + 1).drop_last() =~= s@.take(i as int));
            assert(s@.take(i + 1).last() == s@[i as int]);
        }
        if acc > (usize::MAX - d) / 10 {
            proof {
                assert(digits_val(s@.take(i + 1)) == (acc as nat) * 10 + digit_val(s@[i as int]));
                assert((acc as nat) * 10 + (d as nat) > usize::MAX) by (nonlinear_arith)
                    requires
                        acc as nat > ((usize::MAX - d) / 10) as nat,
                        acc as nat >= 0,
                        0 <= d <= 9,
                        usize::MAX - d == ((usize::MAX - d) / 10) * 10 + (usize::MAX - d) % 10,
                        0 <= (usize::MAX - d) % 10 < 10,
                ;
                lemma_digits_val_take_le(s@, i + 1);
            }
            return None;
        }
        proof {
            assert((acc as nat) * 10 + (d as nat) <= usize::MAX) by (nonlinear_arith)
                requires
                    acc as nat <= ((usize::MAX - d) / 10) as nat,
                    acc as nat >= 0,
                    0 <= d <= 9,
                    usize::MAX - d >= ((usize::MAX - d) / 10) * 10,
            ;
        }
        acc = acc * 10 + d;
        i = i + 1;
    }
    proof {
        assert(s@.take(n as int) =~= s@);
    }
    Some(acc)
}

/// The numeric value of a digit character.
fn digit_of(c: char) -> (r: usize)
    requires
        is_digit(c),
    ensures
        r as nat == digit_val(c),
        r <= 9,
{
    if c == '0' {
        0
    } else if c == '1' {
        1
    } else if c == '2' {
        2
    } else if c == '3' {
        3
    } else if c == '4' {
        4
    } else if c == '5' {
        5
    } else if c == '6' {
        6
    } else if c == '7' {
        7
    } else if c == '8' {
        8
    } else {
        9
    }
}

/// Decides whether `c` is a decimal digit.
fn is_digit_exec(c: char) -> (r: bool)
    ensures
        r == is_digit(c),
{
    c == '0' || c == '1' || c == '2' || c == '3' || c == '4' || c == '5' || c == '6' || c == '7'
        || c == '8' || c == '9'
}

// ----------------------------------------------------------------------------
// The session controller.
// ----------------------------------------------------------------------------

/// Where a 1-based line number lands in a list of length `len`: clamped into
/// the valid index range, or zero when the list is empty.
pub open spec fn jump_target(line: nat, len: nat) -> nat {
    if len == 0 {
        0
    } else {
        let idx = if line == 0 {
            0
        } else {
            (line - 1) as nat
        };
        if idx < len {
            idx
        } else {
            (len - 1) as nat
        }
    }
}

/// Where a downward move by `amount` lands from `sel` in a list of length
/// `len`: clamped at the last index, or zero when the list is empty.
pub open spec fn down_target(sel: nat, amount: nat, len: nat) -> nat {
    if len == 0 {
        0
    } else if sel + amount < len {
        sel + amount
    } else {
        (len - 1) as nat
    }
}

/// Where an upward move by `amount` lands from `sel`: clamped at zero.
pub open spec fn up_target(sel: nat, amount: nat) -> nat {
    if sel >= amount {
        (sel - amount) as nat
    } else {
        0
    }
}

/// The interactive session: the loaded datasets, the single global filter and
/// its per-dataset caches, the per-dataset cursor memory, the search state,
/// and the display toggles. Caches are a pure derivation of the filter and
/// the datasets, never stale.
pub struct App {
    pub datasets: Vec<Dataset>,
    pub active_dataset_index: usize,
    pub visible_dataset_start: usize,
    pub chart_mode: bool,
    pub filtered_word_counts: Vec<WordCount>,
    pub per_dataset_filtered: Vec<Vec<WordCount>>,
    pub cursors: Vec<usize>,
    pub scroll_memory: Vec<usize>,
    pub selected_index: usize,
    pub scroll_offset: usize,
    pub should_quit: bool,
    pub total_nanos: u64,
    pub visible_area_height: usize,
    pub number_input: Vec<char>,
    pub log_scale: bool,
    pub zipf: ZipfFitState,
    pub chart_scope: ChartScope,
    pub normalization_mode: NormalizationMode,
    pub filter_set: FilterSet,
    pub available_tags: Vec<Tag>,
    pub filter_input_state: FilterInputState,
    pub input_mode: InputMode,
    pub search_query: Vec<char>,
    pub search_results: Vec<usize>,
    pub current_search_index: usize,
}

impl App {
    /// The structural part of the invariant: shapes, bounds, and the filter's
    /// own invariant.
    pub open spec fn base_wf(self) -> bool {
        &&& self.datasets@.len() >= 1
        &&& self.active_dataset_index < self.datasets@.len()
        &&& self.per_dataset_filtered@.len() == self.datasets@.len()
        &&& self.cursors@.len() == self.datasets@.len()
        &&& self.scroll_memory@.len() == self.datasets@.len()
        &&& filter_wf(self.filter_set@)
        &&& self.visible_area_height >= 1
        &&& all_digits(self.number_input@)
        &&& forall|d: int|
            0 <= d < self.datasets@.len() ==> sum_wc(
                (#[trigger] self.datasets.deep_view()[d]).word_counts,
            ) <= usize::MAX
    }

    /// The full invariant: on top of `base_wf`, every cache is exactly the
    /// filter applied to its dataset, the active filtered list mirrors the
    /// active cache, the selection and scroll are clamped, and the search
    /// results are exactly the matches of the current query against the
    /// active filtered list.
    pub open spec fn wf(self) -> bool {
        &&& self.base_wf()
        &&& forall|d: int|
            0 <= d < self.datasets@.len() ==> #[trigger] self.per_dataset_filtered.deep_view()[d]
                == apply_spec(self.filter_set@, self.datasets.deep_view()[d].word_counts)
        &&& self.filtered_word_counts.deep_view() == apply_spec(
            self.filter_set@,
            self.datasets.deep_view()[self.active_dataset_index as int].word_counts,
        )
        &&& (self.selected_index < self.filtered_word_counts@.len() || (
        self.filtered_word_counts@.len() == 0 && self.selected_index == 0))
        &&& self.scroll_offset <= self.selected_index
        &&& is_search_results(
            self.search_query@,
            self.filtered_word_counts.deep_view(),
            self.search_results@,
        )
        &&& (self.current_search_index < self.search_results@.len()
            || self.current_search_index == 0)
    }

    /// The length of the active filtered list.
    pub open spec fn filtered_len(self) -> nat {
        self.filtered_word_counts@.len()
    }

    /// Builds the session over the loaded datasets: the first dataset is
    /// active, the filter is empty, every cache is the (empty) filter applied
    /// to its dataset, chart mode is on exactly for a single dataset, and
    /// every toggle starts in its default position.
    pub fn new(datasets: Vec<Dataset>, total_nanos: u64) -> (r: App)
        requires
            datasets@.len() >= 1,
            forall|d: int|
                0 <= d < datasets@.len() ==> sum_wc(
                    (#[trigger] datasets.deep_view()[d]).word_counts,
                ) <= usize::MAX,
        ensures
            r.wf(),
            r.datasets.deep_view() == datasets.deep_view(),
            r.active_dataset_index == 0,
            r.chart_mode == (datasets@.len() == 1),
            !r.should_quit,
            r.selected_index == 0,
            r.input_mode == InputMode::Normal,
            r.filter_set@.exclude_tags.len() == 0,
            r.filter_set@.include_only_tags.len() == 0,
            !r.filter_set@.exclude_single,
            !r.log_scale,
            !r.zipf.enabled,
            r.chart_scope == ChartScope::Relative,
            r.normalization_mode == NormalizationMode::Raw,
            r.search_query@.len() == 0,
            r.search_results@.len() == 0,
            r.total_nanos == total_nanos,
            tag_names_distinct(r.available_tags.deep_view()),
            forall|nm: Seq<char>|
                tag_in(r.available_tags.deep_view(), nm) <==> datasets_have_tag(
                    datasets.deep_view(),
                    nm,
                ),
    {
        let n = datasets.len();
        let chart_mode = n == 1;
        let available_tags = collect_available_tags(&datasets);
        let mut cursors: Vec<usize> = Vec::new();
        let mut scroll_memory: Vec<usize> = Vec::new();
        let mut i: usize = 0;
        while i < n
            invariant
                0 <= i <= n,
                cursors@.len() == i,
                scroll_memory@.len() == i,
            decreases n - i,
        {
            cursors.push(0);
            scroll_memory.push(0);
            i = i + 1;
        }
        let filter_set = FilterSet::new();
        let mut per_dataset_filtered: Vec<Vec<WordCount>> = Vec::new();
        let mut d: usize = 0;
        while d < n
            invariant
                n == datasets@.len(),
                0 <= d <= n,
                per_dataset_filtered@.len() == d,
                filter_set@.exclude_tags.len() == 0,
                filter_set@.include_only_tags.len() == 0,
                !filter_set@.exclude_single,
                filter_wf(filter_set@),
                forall|k: int|
                    0 <= k < d ==> #[trigger] per_dataset_filtered.deep_view()[k] == apply_spec(
                        filter_set@,
                        datasets.deep_view()[k].word_counts,
                    ),
            decreases n - d,
        {
            let filtered = apply_filter(&filter_set, &datasets[d].word_counts);
            let ghost prev = per_dataset_filtered.deep_view();
            per_dataset_filtered.push(filtered);
            proof {
                assert(datasets.deep_view()[d as int].word_counts == datasets@[d as int]@.word_counts);
                assert(per_dataset_filtered.deep_view() =~= prev.push(
                    apply_spec(filter_set@, datasets.deep_view()[d as int].word_counts),
                ));
            }
            d = d + 1;
        }
        let filtered_word_counts = clone_word_counts(&per_dataset_filtered[0]);
        proof {
            assert(per_dataset_filtered.deep_view()[0] == per_dataset_filtered@[0].deep_view());
        }
        let r = App {
            datasets,
            active_dataset_index: 0,
            visible_dataset_start: 0,
            chart_mode,
            filtered_word_counts,
            per_dataset_filtered,
            cursors,
            scroll_memory,
            selected_index: 0,
            scroll_offset: 0,
            should_quit: false,
            total_nanos,
            visible_area_height: 20,
            number_input: Vec::new(),
            log_scale: false,
            zipf: ZipfFitState::new(),
            chart_scope: ChartScope::Relative,
            normalization_mode: NormalizationMode::Raw,
            filter_set,
            available_tags,
            filter_input_state: FilterInputState::SelectingTag,
            input_mode: InputMode::Normal,
            search_query: Vec::new(),
            search_results: Vec::new(),
            current_search_index: 0,
        };
        proof {
            assert(is_search_results(
                r.search_query@,
                r.filtered_word_counts.deep_view(),
                r.search_results@,
            ));
        }
        r
    }

    /// Selects `new_index` and remembers it as the active dataset's cursor;
    /// the scroll window follows the selection.
    pub fn update_selection(&mut self, new_index: usize)
        requires
            old(self).wf(),
            new_index < old(self).filtered_len() || (old(self).filtered_len() == 0 && new_index
                == 0),
        ensures
            final(self).wf(),
            final(self).selected_index == new_index,
            final(self).cursors@ == old(self).cursors@.update(
                old(self).active_dataset_index as int,
                new_index,
            ),
            *final(self) == (App {
                selected_index: new_index,
                cursors: final(self).cursors,
                scroll_offset: final(self).scroll_offset,
                ..*old(self)
            }),
    {
        self.selected_index = new_index;
        let a = self.active_dataset_index;
        self.cursors[a] = new_index;
        if self.scroll_offset > new_index {
            self.scroll_offset = new_index;
        }
    }

    /// The window of the filtered list the renderer shows: from the scroll
    /// offset, at most one screen of rows.
    pub fn visible_range(&self) -> (r: (usize, usize))
        requires
            self.wf(),
        ensures
            r.0 == self.scroll_offset,
            r.1 as int == if self.scroll_offset + self.visible_area_height
                <= self.filtered_len() {
                self.scroll_offset + self.visible_area_height
            } else {
                self.filtered_len() as int
            },
            r.0 <= r.1 || self.filtered_len() == 0,
    {
        let len = self.filtered_word_counts.len();
        let end = if self.scroll_offset <= len && self.visible_area_height <= len
            - self.scroll_offset {
            self.scroll_offset + self.visible_area_height
        } else {
            len
        };
        (self.scroll_offset, end)
    }

    /// Records the height the renderer last measured (at least one row) and
    /// keeps the scroll window over the selection.
    pub fn set_visible_height(&mut self, height: usize)
        requires
            old(self).wf(),
        ensures
            final(self).wf(),
            final(self).visible_area_height == if height >= 1 {
                height
            } else {
                1
            },
            *final(self) == (App {
                visible_area_height: final(self).visible_area_height,
                ..*old(self)
            }),
    {
        self.visible_area_height = if height >= 1 {
            height
        } else {
            1
        };
    }

    /// Moves the selection down by `amount`, clamped at the end of the list.
    pub fn move_down_by(&mut self, amount: usize)
        requires
            old(self).wf(),
        ensures
            final(self).wf(),
            final(self).selected_index as nat == down_target(
                old(self).selected_index as nat,
                amount as nat,
                old(self).filtered_len(),
            ),
            *final(self) == (App {
                selected_index: final(self).selected_index,
                cursors: final(self).cursors,
                scroll_offset: final(self).scroll_offset,
                ..*old(self)
            }),
    {
        let len = self.filtered_word_counts.len();
        if len == 0 {
            self.update_selection(0);
            return ;
        }
        let target = if amount < len - self.selected_index {
            self.selected_index + amount
        } else {
            len - 1
        };
        self.update_selection(target);
    }

    /// Moves the selection up by `amount`, clamped at the top of the list.
    pub fn move_up_by(&mut self, amount: usize)
        requires
            old(self).wf(),
        ensures
            final(self).wf(),
            final(self).selected_index as nat == up_target(
                old(self).selected_index as nat,
                amount as nat,
            ),
            *final(self) == (App {
                selected_index: final(self).selected_index,
                cursors: final(self).cursors,
                scroll_offset: final(self).scroll_offset,
                ..*old(self)
            }),
    {
        let target = if self.selected_index >= amount {
            self.selected_index - amount
        } else {
            0
        };
        self.update_selection(target);
    }

    /// Jumps to a 1-based line number, clamped into the list.
    pub fn jump_to_line(&mut self, line: usize)
        requires
            old(self).wf(),
        ensures
            final(self).wf(),
            final(self).selected_index as nat == jump_target(
                line as nat,
                old(self).filtered_len(),
            ),
            *final(self) == (App {
                selected_index: final(self).selected_index,
                cursors: final(self).cursors,
                scroll_offset: final(self).scroll_offset,
                ..*old(self)
            }),
    {
        let len = self.filtered_word_counts.len();
        if len == 0 {
            self.update_selection(0);
            return ;
        }
        let idx = if line == 0 {
            0
        } else {
            line - 1
        };
        let target = if idx < len {
            idx
        } else {
            len - 1
        };
        self.update_selection(target);
    }

    /// Recomputes the search results for the current query against the
    /// active filtered list.
    fn update_search_results(&mut self)
        requires
            old(self).base_wf(),
            old(self).selected_index < old(self).filtered_word_counts@.len() || (old(self).filtered_word_counts@.len() == 0 && old(self).selected_index == 0),
        ensures
            final(self).base_wf(),
            is_search_results(
                final(self).search_query@,
                final(self).filtered_word_counts.deep_view(),
                final(self).search_results@,
            ),
            final(self).current_search_index == 0,
            *final(self) == (App {
                search_results: final(self).search_results,
                current_search_index: 0,
                ..*old(self)
            }),
    {
        let q = string_from_chars(&self.search_query);
        self.search_results = compute_search_results(&q, &self.filtered_word_counts);
        self.current_search_index = 0;
    }

    /// Rebuilds every dataset's filtered cache from the current filter,
    /// refreshes the active filtered list, clamps the selection (falling back
    /// to the top when it no longer fits), and recomputes the search results,
    /// which a filter change makes stale.
    pub fn apply_current_filter_to_all_datasets(&mut self)
        requires
            old(self).base_wf(),
        ensures
            final(self).wf(),
            final(self).selected_index == if old(self).selected_index < final(self).filtered_len() {
                old(self).selected_index
            } else {
                0
            },
            *final(self) == (App {
                per_dataset_filtered: final(self).per_dataset_filtered,
                filtered_word_counts: final(self).filtered_word_counts,
                selected_index: final(self).selected_index,
                scroll_offset: final(self).scroll_offset,
                search_results: final(self).search_results,
                current_search_index: 0,
                ..*old(self)
            }),
    {
        let n = self.datasets.len();
        let mut caches: Vec<Vec<WordCount>> = Vec::new();
        let mut d: usize = 0;
        while d < n
            invariant
                n == self.datasets@.len(),
                0 <= d <= n,
                caches@.len() == d,
                forall|k: int|
                    0 <= k < d ==> #[trigger] caches.deep_view()[k] == apply_spec(
                        self.filter_set@,
                        self.datasets.deep_view()[k].word_counts,
                    ),
            decreases n - d,
        {
            let filtered = apply_filter(&self.filter_set, &self.datasets[d].word_counts);
            let ghost prev = caches.deep_view();
            caches.push(filtered);
            proof {
                assert(self.datasets.deep_view()[d as int].word_counts == self.datasets@[d as int]@.word_counts);
                assert(caches.deep_view() =~= prev.push(
                    apply_spec(self.filter_set@, self.datasets.deep_view()[d as int].word_counts),
                ));
            }
            d = d + 1;
        }
        self.per_dataset_filtered = caches;
        let a = self.active_dataset_index;
        self.filtered_word_counts = clone_word_counts(&self.per_dataset_filtered[a]);
        proof {
            assert(self.per_dataset_filtered.deep_view()[a as int] == self.per_dataset_filtered@[a as int].deep_view());
        }
        if self.selected_index >= self.filtered_word_counts.len() {
            self.selected_index = 0;
        }
        if self.scroll_offset > self.selected_index {
            self.scroll_offset = self.selected_index;
        }
        self.update_search_results();
    }

    /// What activating dataset `d` does: the leaving dataset's selection and
    /// scroll are remembered; `d`'s remembered selection is restored clamped
    /// into its filtered list and its remembered scroll clamped at the
    /// selection; the active filtered list becomes `d`'s cache; the search
    /// results are recomputed (pinned through the invariant); nothing else
    /// changes.
    pub open spec fn switched_to(pre: App, post: App, d: int) -> bool {
        let cursors = pre.cursors@.update(pre.active_dataset_index as int, pre.selected_index);
        let scrolls = pre.scroll_memory@.update(
            pre.active_dataset_index as int,
            pre.scroll_offset,
        );
        &&& post.active_dataset_index as int == d
        &&& post.cursors@ == cursors
        &&& post.scroll_memory@ == scrolls
        &&& post.filtered_word_counts.deep_view() == apply_spec(
            pre.filter_set@,
            pre.datasets.deep_view()[d].word_counts,
        )
        &&& post.selected_index as nat == jump_target(
            cursors[d] as nat + 1,
            post.filtered_len(),
        )
        &&& post.scroll_offset == (if scrolls[d] <= post.selected_index {
            scrolls[d]
        } else {
            post.selected_index
        })
        &&& post == (App {
            active_dataset_index: post.active_dataset_index,
            filtered_word_counts: post.filtered_word_counts,
            cursors: post.cursors,
            scroll_memory: post.scroll_memory,
            selected_index: post.selected_index,
            scroll_offset: post.scroll_offset,
            search_results: post.search_results,
            current_search_index: 0,
            ..pre
        })
    }

    /// Saves the current dataset's selection and scroll, activates dataset
    /// `dataset_index`, restores that dataset's remembered cursor and scroll
    /// (clamped), and recomputes the search results, which a dataset switch
    /// makes stale. An out-of-range index is tolerated as a no-op.
    pub fn switch_to_dataset(&mut self, dataset_index: usize)
        requires
            old(self).wf(),
        ensures
            final(self).wf(),
            dataset_index >= old(self).datasets@.len() ==> *final(self) == *old(self),
            dataset_index < old(self).datasets@.len() ==> App::switched_to(
                *old(self),
                *final(self),
                dataset_index as int,
            ),
    {
        // an out-of-range index is tolerated as a no-op
        if dataset_index >= self.datasets.len() {
            return ;
        }
        // remember where we were
        let a = self.active_dataset_index;
        let sel = self.selected_index;
        self.cursors[a] = sel;
        let off = self.scroll_offset;
        self.scroll_memory[a] = off;
        self.active_dataset_index = dataset_index;
        self.filtered_word_counts = clone_word_counts(&self.per_dataset_filtered[dataset_index]);
        proof {
            assert(self.per_dataset_filtered.deep_view()[dataset_index as int]
                == self.per_dataset_filtered@[dataset_index as int].deep_view());
        }
        // restore this dataset's cursor, clamped into the current list
        let saved = self.cursors[dataset_index];
        let len = self.filtered_word_counts.len();
        let restored = if len == 0 {
            0
        } else if saved < len {
            saved
        } else {
            len - 1
        };
        self.selected_index = restored;
        // restore its scroll, kept at or above the selection
        let saved_scroll = self.scroll_memory[dataset_index];
        self.scroll_offset = if saved_scroll <= restored {
            saved_scroll
        } else {
            restored
        };
        self.update_search_results();
    }

    /// Cyclic successor of the active dataset.
    pub open spec fn next_index(self) -> int {
        if self.active_dataset_index + 1 < self.datasets@.len() {
            self.active_dataset_index + 1
        } else {
            0
        }
    }

    /// Cyclic predecessor of the active dataset.
    pub open spec fn prev_index(self) -> int {
        if self.active_dataset_index == 0 {
            self.datasets@.len() - 1
        } else {
            self.active_dataset_index - 1
        }
    }

    /// Activates the next dataset, cyclically; outside chart mode the
    /// visible column window follows.
    pub fn next_dataset(&mut self)
        requires
            old(self).wf(),
        ensures
            final(self).wf(),
            final(self).active_dataset_index == old(self).next_index(),
            App::switched_to(
                *old(self),
                App { visible_dataset_start: old(self).visible_dataset_start, ..*final(self) },
                old(self).next_index(),
            ),
    {
        let n = self.datasets.len();
        let next = if self.active_dataset_index + 1 < n {
            self.active_dataset_index + 1
        } else {
            0
        };
        self.switch_to_dataset(next);
        if !self.chart_mode {
            self.update_visible_datasets_for_tab();
        }
    }

    /// Activates the previous dataset, cyclically; outside chart mode the
    /// visible column window follows.
    pub fn prev_dataset(&mut self)
        requires
            old(self).wf(),
        ensures
            final(self).wf(),
            final(self).active_dataset_index == old(self).prev_index(),
            App::switched_to(
                *old(self),
                App { visible_dataset_start: old(self).visible_dataset_start, ..*final(self) },
                old(self).prev_index(),
            ),
    {
        let n = self.datasets.len();
        let prev = if self.active_dataset_index == 0 {
            n - 1
        } else {
            self.active_dataset_index - 1
        };
        self.switch_to_dataset(prev);
        if !self.chart_mode {
            self.update_visible_datasets_for_tab();
        }
    }

    /// Scrolls the multi-dataset column window so the active dataset is
    /// among the (at most four) visible columns.
    pub fn update_visible_datasets_for_tab(&mut self)
        requires
            old(self).wf(),
        ensures
            final(self).wf(),
            *final(self) == (App {
                visible_dataset_start: final(self).visible_dataset_start,
                ..*old(self)
            }),
            ({
                let mv = if old(self).datasets@.len() < 4 {
                    old(self).datasets@.len() as int
                } else {
                    4
                };
                final(self).visible_dataset_start == if old(self).active_dataset_index < old(self).visible_dataset_start {
                    old(self).active_dataset_index as int
                } else if old(self).active_dataset_index >= old(self).visible_dataset_start + mv {
                    old(self).active_dataset_index - mv + 1
                } else {
                    old(self).visible_dataset_start as int
                }
            }),
    {
        let n = self.datasets.len();
        let max_visible = if 4 < n {
            4
        } else {
            n
        };
        if self.active_dataset_index < self.visible_dataset_start {
            self.visible_dataset_start = self.active_dataset_index;
        } else if self.visible_dataset_start <= usize::MAX - max_visible
            && self.active_dataset_index >= self.visible_dataset_start + max_visible {
            self.visible_dataset_start = self.active_dataset_index - max_visible + 1;
        }
    }

    /// Flips between the single-dataset chart layout and the side-by-side
    /// comparison layout.
    pub fn toggle_chart_mode(&mut self)
        requires
            old(self).wf(),
        ensures
            final(self).wf(),
            final(self).chart_mode == !old(self).chart_mode,
            *final(self) == (App { chart_mode: !old(self).chart_mode, ..*old(self) }),
    {
        self.chart_mode = !self.chart_mode;
    }

    /// Flips the singleton-count exclusion and reapplies the filter
    /// everywhere.
    pub fn toggle_single_words_filter(&mut self)
        requires
            old(self).wf(),
        ensures
            final(self).wf(),
            final(self).filter_set@.exclude_single == !old(self).filter_set@.exclude_single,
            final(self).filter_set@.exclude_tags == old(self).filter_set@.exclude_tags,
            final(self).filter_set@.include_only_tags == old(self).filter_set@.include_only_tags,
            *final(self) == (App {
                filter_set: final(self).filter_set,
                per_dataset_filtered: final(self).per_dataset_filtered,
                filtered_word_counts: final(self).filtered_word_counts,
                selected_index: final(self).selected_index,
                scroll_offset: final(self).scroll_offset,
                search_results: final(self).search_results,
                current_search_index: 0,
                ..*old(self)
            }),
    {
        let v = self.filter_set.exclude_single;
        self.filter_set.set_exclude_single(!v);
        self.apply_current_filter_to_all_datasets();
    }

    /// Flips whether the designated stop-words tag is excluded, then
    /// reapplies the filter everywhere. Does nothing when the catalog has no
    /// such tag.
    pub fn toggle_stopword_filter(&mut self)
        requires
            old(self).wf(),
        ensures
            final(self).wf(),
            !tag_in(old(self).available_tags.deep_view(), "Stop Words"@) ==> *final(self) == *old(self),
            tag_in(old(self).available_tags.deep_view(), "Stop Words"@) ==> final(self).filter_set@.exclude_tags == if tag_in(
                old(self).filter_set@.exclude_tags,
                "Stop Words"@,
            ) {
                old(self).filter_set@.exclude_tags.filter(
                    |t: TagView| t.name != "Stop Words"@,
                )
            } else {
                old(self).filter_set@.exclude_tags.push(
                    old(self).available_tags.deep_view()[stopword_index(
                        old(self).available_tags.deep_view(),
                    )],
                )
            },
            tag_in(old(self).available_tags.deep_view(), "Stop Words"@) ==> ({
                &&& final(self).filter_set@.include_only_tags == if tag_in(
                    old(self).filter_set@.exclude_tags,
                    "Stop Words"@,
                ) {
                    old(self).filter_set@.include_only_tags
                } else {
                    old(self).filter_set@.include_only_tags.filter(
                        |t: TagView| t.name != "Stop Words"@,
                    )
                }
                &&& final(self).filter_set@.exclude_single == old(self).filter_set@.exclude_single
            }),
            *final(self) == (App {
                filter_set: final(self).filter_set,
                per_dataset_filtered: final(self).per_dataset_filtered,
                filtered_word_counts: final(self).filtered_word_counts,
                selected_index: final(self).selected_index,
                scroll_offset: final(self).scroll_offset,
                search_results: final(self).search_results,
                current_search_index: final(self).current_search_index,
                ..*old(self)
            }),
    {
        let name: String = stopword_name();
        let found = find_tag_index(&self.available_tags, &name);
        match found {
            Some(k) => {
                if has_tag_named(&self.filter_set.exclude_tags, &name) {
                    self.filter_set.remove_exclude_tag(&name);
                    proof {
                        assert(self.filter_set@.exclude_tags =~= old(self).filter_set@.exclude_tags.filter(|t: TagView| t.name != "Stop Words"@));
                    }
                } else {
                    let tag = self.available_tags[k].clone();
                    proof {
                        assert(tag@ == self.available_tags.deep_view()[k as int]);
                        lemma_stopword_index(self.available_tags.deep_view(), k as int);
                    }
                    self.filter_set.add_exclude_tag(tag);
                }
                self.apply_current_filter_to_all_datasets();
            },
            None => {},
        }
    }
}

// ----------------------------------------------------------------------------
// What one key press does, mode by mode. Each predicate pins the new state
// exactly: the named effect happens and nothing else changes. The per-mode
// handlers ensure them, and `handle_key` carries them to the caller.
// ----------------------------------------------------------------------------

/// Only the selection cursor — and the scroll window and cursor memory that
/// follow it — changed.
pub open spec fn cursor_only(pre: App, post: App) -> bool {
    post == (App {
        selected_index: post.selected_index,
        cursors: post.cursors,
        scroll_offset: post.scroll_offset,
        ..pre
    })
}

/// The selection moved down by `amount`, clamped at the end of the list.
pub open spec fn moved_down_by(pre: App, post: App, amount: nat) -> bool {
    &&& cursor_only(pre, post)
    &&& post.selected_index as nat == down_target(
        pre.selected_index as nat,
        amount,
        pre.filtered_len(),
    )
}

/// The selection moved up by `amount`, clamped at the top.
pub open spec fn moved_up_by(pre: App, post: App, amount: nat) -> bool {
    &&& cursor_only(pre, post)
    &&& post.selected_index as nat == up_target(pre.selected_index as nat, amount)
}

/// The selection jumped to the top of the list.
pub open spec fn moved_to_top(pre: App, post: App) -> bool {
    &&& cursor_only(pre, post)
    &&& post.selected_index == 0
}

/// The selection jumped to the bottom of the list (staying at zero when the
/// list is empty).
pub open spec fn moved_to_bottom(pre: App, post: App) -> bool {
    &&& cursor_only(pre, post)
    &&& post.selected_index as nat == (if pre.filtered_len() == 0 {
        0nat
    } else {
        (pre.filtered_len() - 1) as nat
    })
}

/// The session cycled to dataset `d` with full switch semantics (cursor and
/// scroll memory saved and restored); only the multi-dataset column window
/// may additionally have moved to keep `d` visible.
pub open spec fn cycled_to(pre: App, post: App, d: int) -> bool {
    App::switched_to(pre, App { visible_dataset_start: pre.visible_dataset_start, ..post }, d)
}

/// The filter changed and was reapplied everywhere: every cache, the active
/// filtered list, the clamped selection and the search results are the
/// derived state `wf` pins for the new filter; nothing else changed.
pub open spec fn refiltered(pre: App, post: App) -> bool {
    post == (App {
        filter_set: post.filter_set,
        input_mode: post.input_mode,
        filter_input_state: post.filter_input_state,
        per_dataset_filtered: post.per_dataset_filtered,
        filtered_word_counts: post.filtered_word_counts,
        selected_index: post.selected_index,
        scroll_offset: post.scroll_offset,
        search_results: post.search_results,
        current_search_index: post.current_search_index,
        ..pre
    })
}

/// A buffered (or bufferless) `g`/`G` line jump: the digit buffer is spent;
/// with no buffer, `g` goes to the top and `G` to the bottom; a buffered
/// number jumps to that 1-based line, clamped; an unusable buffer is
/// discarded silently and moves nothing.
pub open spec fn line_jump_ok(pre: App, post: App, c: char) -> bool {
    &&& post.number_input@.len() == 0
    &&& post == (App {
        selected_index: post.selected_index,
        cursors: post.cursors,
        scroll_offset: post.scroll_offset,
        number_input: post.number_input,
        ..pre
    })
    &&& (pre.number_input@.len() == 0 ==> (if c == 'g' {
        post.selected_index == 0
    } else {
        post.selected_index as nat == (if pre.filtered_len() == 0 {
            0nat
        } else {
            (pre.filtered_len() - 1) as nat
        })
    }))
    &&& (pre.number_input@.len() > 0 && digits_val(pre.number_input@) <= usize::MAX
        ==> post.selected_index as nat == jump_target(
        digits_val(pre.number_input@),
        pre.filtered_len(),
    ))
    &&& (pre.number_input@.len() > 0 && digits_val(pre.number_input@) > usize::MAX ==> post
        == (App { number_input: post.number_input, ..pre }))
}

/// Search-result cycling with `n` (forward) or `N` (backward): with no
/// results nothing happens; otherwise the match cursor steps cyclically and
/// the selection jumps to that result.
pub open spec fn search_cycle_ok(pre: App, post: App, forward: bool) -> bool {
    if pre.search_results@.len() == 0 {
        post == pre
    } else {
        let idx = if forward {
            if pre.current_search_index + 1 < pre.search_results@.len() {
                pre.current_search_index + 1
            } else {
                0int
            }
        } else {
            if pre.current_search_index == 0 {
                pre.search_results@.len() - 1
            } else {
                pre.current_search_index - 1
            }
        };
        &&& post.current_search_index as int == idx
        &&& post.selected_index == pre.search_results@[idx]
        &&& post == (App {
            selected_index: post.selected_index,
            cursors: post.cursors,
            scroll_offset: post.scroll_offset,
            current_search_index: post.current_search_index,
            ..pre
        })
    }
}

/// The singleton-count exclusion flipped (tag lists untouched) and the
/// filter was reapplied everywhere.
pub open spec fn singles_toggled_ok(pre: App, post: App) -> bool {
    &&& post.filter_set@.exclude_single == !pre.filter_set@.exclude_single
    &&& post.filter_set@.exclude_tags == pre.filter_set@.exclude_tags
    &&& post.filter_set@.include_only_tags == pre.filter_set@.include_only_tags
    &&& post.input_mode == pre.input_mode
    &&& post.current_search_index == 0
    &&& refiltered(pre, post)
}

/// The designated stop-words tag flipped in or out of the exclusion list and
/// the filter was reapplied; without such a catalog tag, nothing happens.
pub open spec fn stopword_toggled_ok(pre: App, post: App) -> bool {
    &&& (!tag_in(pre.available_tags.deep_view(), "Stop Words"@) ==> post == pre)
    &&& (tag_in(pre.available_tags.deep_view(), "Stop Words"@) ==> ({
        &&& post.filter_set@.exclude_tags == (if tag_in(
            pre.filter_set@.exclude_tags,
            "Stop Words"@,
        ) {
            pre.filter_set@.exclude_tags.filter((|t: TagView| t.name != "Stop Words"@))
        } else {
            pre.filter_set@.exclude_tags.push(
                pre.available_tags.deep_view()[stopword_index(pre.available_tags.deep_view())],
            )
        })
        &&& post.filter_set@.exclude_single == pre.filter_set@.exclude_single
        &&& post.input_mode == pre.input_mode
    }))
    &&& refiltered(pre, post)
}

/// What one key does in normal mode.
pub open spec fn normal_step_ok(pre: App, post: App, key: Key) -> bool {
    match key {
        Key::Down => moved_down_by(pre, post, 1),
        Key::Up => moved_up_by(pre, post, 1),
        Key::Home => moved_to_top(pre, post),
        Key::End => moved_to_bottom(pre, post),
        Key::PageDown => moved_down_by(pre, post, pre.visible_area_height as nat),
        Key::PageUp => moved_up_by(pre, post, pre.visible_area_height as nat),
        Key::Tab => cycled_to(pre, post, pre.next_index()),
        Key::BackTab => cycled_to(pre, post, pre.prev_index()),
        Key::CtrlChar(c) => {
            if c == 'd' {
                moved_down_by(pre, post, (pre.visible_area_height / 2) as nat)
            } else if c == 'u' {
                moved_up_by(pre, post, (pre.visible_area_height / 2) as nat)
            } else if c == 'f' {
                moved_down_by(pre, post, pre.visible_area_height as nat)
            } else if c == 'b' {
                moved_up_by(pre, post, pre.visible_area_height as nat)
            } else {
                post == pre
            }
        },
        Key::Char(c) => normal_char_ok(pre, post, c),
        _ => post == pre,
    }
}

/// What one character does in normal mode.
pub open spec fn normal_char_ok(pre: App, post: App, c: char) -> bool {
    if c == 'q' {
        post == (App { should_quit: true, ..pre })
    } else if c == 'j' || c == 'l' {
        moved_down_by(pre, post, 1)
    } else if c == 'k' || c == 'h' {
        moved_up_by(pre, post, 1)
    } else if c == 'g' || c == 'G' {
        line_jump_ok(pre, post, c)
    } else if c == '/' {
        &&& post.search_query@.len() == 0
        &&& post.search_results@.len() == 0
        &&& post == (App {
            input_mode: InputMode::Search,
            search_query: post.search_query,
            search_results: post.search_results,
            current_search_index: 0,
            ..pre
        })
    } else if c == 'n' {
        search_cycle_ok(pre, post, true)
    } else if c == 'N' {
        search_cycle_ok(pre, post, false)
    } else if c == 'L' {
        post == (App { log_scale: !pre.log_scale, ..pre })
    } else if c == 'Z' {
        post == (App { zipf: cycle_zipf(pre.zipf), ..pre })
    } else if c == 'A' {
        post == (App {
            chart_scope: (if pre.chart_scope == ChartScope::Relative {
                ChartScope::Absolute
            } else {
                ChartScope::Relative
            }),
            ..pre
        })
    } else if c == '%' {
        post == (App {
            normalization_mode: (if pre.normalization_mode == NormalizationMode::Raw {
                NormalizationMode::Percentage
            } else {
                NormalizationMode::Raw
            }),
            ..pre
        })
    } else if c == 'C' {
        post == (App { chart_mode: !pre.chart_mode, ..pre })
    } else if c == '[' {
        if pre.chart_mode {
            cycled_to(pre, post, pre.prev_index())
        } else {
            post == pre
        }
    } else if c == ']' {
        if pre.chart_mode {
            cycled_to(pre, post, pre.next_index())
        } else {
            post == pre
        }
    } else if c == 'S' {
        stopword_toggled_ok(pre, post)
    } else if c == 'U' {
        singles_toggled_ok(pre, post)
    } else if c == 'F' {
        &&& post.filter_input_state is SelectingTag
        &&& post == (App {
            input_mode: InputMode::Filter,
            filter_input_state: post.filter_input_state,
            ..pre
        })
    } else if is_digit(c) {
        &&& post.number_input@ == pre.number_input@.push(c)
        &&& post == (App {
            input_mode: InputMode::NumberInput,
            number_input: post.number_input,
            ..pre
        })
    } else {
        post == pre
    }
}

/// What one key does in search mode.
pub open spec fn search_step_ok(pre: App, post: App, key: Key) -> bool {
    match key {
        Key::Enter => {
            &&& (pre.search_results@.len() > 0 ==> post.selected_index == pre.search_results@[0])
            &&& (pre.search_results@.len() == 0 ==> post == (App {
                input_mode: InputMode::Normal,
                ..pre
            }))
            &&& post == (App {
                input_mode: InputMode::Normal,
                selected_index: post.selected_index,
                cursors: post.cursors,
                scroll_offset: post.scroll_offset,
                ..pre
            })
        },
        Key::Esc => {
            &&& post.search_query@.len() == 0
            &&& post.search_results@.len() == 0
            &&& post == (App {
                input_mode: InputMode::Normal,
                search_query: post.search_query,
                search_results: post.search_results,
                current_search_index: 0,
                ..pre
            })
        },
        Key::Backspace => {
            &&& post.search_query@ == (if pre.search_query@.len() > 0 {
                pre.search_query@.drop_last()
            } else {
                pre.search_query@
            })
            &&& post == (App {
                search_query: post.search_query,
                search_results: post.search_results,
                current_search_index: 0,
                ..pre
            })
        },
        Key::Char(c) => {
            &&& post.search_query@ == pre.search_query@.push(c)
            &&& post == (App {
                search_query: post.search_query,
                search_results: post.search_results,
                current_search_index: 0,
                ..pre
            })
        },
        _ => post == pre,
    }
}

/// What one key does in number-input mode.
pub open spec fn number_step_ok(pre: App, post: App, key: Key) -> bool {
    match key {
        Key::Esc => {
            &&& post.number_input@.len() == 0
            &&& post == (App {
                input_mode: InputMode::Normal,
                number_input: post.number_input,
                ..pre
            })
        },
        Key::Char(c) => {
            if c == 'g' || c == 'G' {
                &&& post.input_mode == InputMode::Normal
                &&& post.number_input@.len() == 0
                &&& (pre.number_input@.len() > 0 && digits_val(pre.number_input@) <= usize::MAX
                    ==> post.selected_index as nat == jump_target(
                    digits_val(pre.number_input@),
                    pre.filtered_len(),
                ))
                &&& (pre.number_input@.len() == 0 || digits_val(pre.number_input@) > usize::MAX
                    ==> post.selected_index == pre.selected_index && post.cursors == pre.cursors
                    && post.scroll_offset == pre.scroll_offset)
                &&& post == (App {
                    input_mode: InputMode::Normal,
                    number_input: post.number_input,
                    selected_index: post.selected_index,
                    cursors: post.cursors,
                    scroll_offset: post.scroll_offset,
                    ..pre
                })
            } else if is_digit(c) {
                &&& post.number_input@ == pre.number_input@.push(c)
                &&& post == (App { number_input: post.number_input, ..pre })
            } else {
                post == pre
            }
        },
        _ => post == pre,
    }
}

/// What one key does in filter mode, step by step of the two-step flow.
pub open spec fn filter_step_ok(pre: App, post: App, key: Key) -> bool {
    match pre.filter_input_state {
        FilterInputState::SelectingTag => match key {
            Key::Esc => post == (App { input_mode: InputMode::Normal, ..pre }),
            Key::Char(c) => {
                if c == 'c' {
                    &&& post.filter_set@.exclude_tags.len() == 0
                    &&& post.filter_set@.include_only_tags.len() == 0
                    &&& !post.filter_set@.exclude_single
                    &&& post.input_mode == InputMode::Normal
                    &&& post.current_search_index == 0
                    &&& refiltered(pre, post)
                } else if is_digit(c) {
                    let d = digit_val(c);
                    if 1 <= d && d <= pre.available_tags@.len() {
                        &&& (post.filter_input_state matches FilterInputState::SelectingAction(t)
                            && t@ == pre.available_tags.deep_view()[d - 1])
                        &&& post == (App {
                            filter_input_state: post.filter_input_state,
                            ..pre
                        })
                    } else {
                        post == pre
                    }
                } else {
                    post == pre
                }
            },
            _ => post == pre,
        },
        FilterInputState::SelectingAction(t) => match key {
            Key::Esc => {
                &&& post.filter_input_state is SelectingTag
                &&& post == (App { filter_input_state: post.filter_input_state, ..pre })
            },
            Key::Char(c) => {
                if c == 'e' {
                    &&& post.filter_set@.include_only_tags
                        == pre.filter_set@.include_only_tags.filter(
                        (|tv: TagView| tv.name != t@.name),
                    )
                    &&& post.filter_set@.exclude_tags == (if tag_in(
                        pre.filter_set@.exclude_tags,
                        t@.name,
                    ) {
                        pre.filter_set@.exclude_tags
                    } else {
                        pre.filter_set@.exclude_tags.push(t@)
                    })
                    &&& post.filter_set@.exclude_single == pre.filter_set@.exclude_single
                    &&& post.filter_input_state is SelectingTag
                    &&& post.input_mode == InputMode::Normal
                    &&& post.current_search_index == 0
                    &&& refiltered(pre, post)
                } else if c == 'i' {
                    &&& post.filter_set@.exclude_tags == pre.filter_set@.exclude_tags.filter(
                        (|tv: TagView| tv.name != t@.name),
                    )
                    &&& post.filter_set@.include_only_tags == (if tag_in(
                        pre.filter_set@.include_only_tags,
                        t@.name,
                    ) {
                        pre.filter_set@.include_only_tags
                    } else {
                        pre.filter_set@.include_only_tags.push(t@)
                    })
                    &&& post.filter_set@.exclude_single == pre.filter_set@.exclude_single
                    &&& post.filter_input_state is SelectingTag
                    &&& post.input_mode == InputMode::Normal
                    &&& post.current_search_index == 0
                    &&& refiltered(pre, post)
                } else {
                    post == pre
                }
            },
            _ => post == pre,
        },
    }
}


impl App {
    /// Applies one key in search mode: characters extend the query (with
    /// live-updated results), backspace shortens it, `Enter` jumps to the
    /// top match and leaves search mode, `Esc` cancels, clearing query and
    /// results.
    pub fn handle_search_input(&mut self, key: Key)
        requires
            old(self).wf(),
        ensures
            final(self).wf(),
            search_step_ok(*old(self), *final(self), key),
    {
        match key {
            Key::Enter => {
                if self.search_results.len() > 0 {
                    let target = self.search_results[0];
                    self.update_selection(target);
                }
                self.input_mode = InputMode::Normal;
            },
            Key::Esc => {
                self.search_query = Vec::new();
                self.search_results = Vec::new();
                self.current_search_index = 0;
                self.input_mode = InputMode::Normal;
                proof {
                    assert(is_search_results(
                        self.search_query@,
                        self.filtered_word_counts.deep_view(),
                        self.search_results@,
                    ));
                }
            },
            Key::Backspace => {
                let ghost prev_query = self.search_query@;
                let _ = self.search_query.pop();
                proof {
                    if prev_query.len() > 0 {
                        assert(self.search_query@ =~= prev_query.drop_last());
                    }
                }
                self.update_search_results();
            },
            Key::Char(c) => {
                self.search_query.push(c);
                self.update_search_results();
            },
            _ => {},
        }
    }

    /// Applies one key in number-input mode: digits extend the buffer, `Esc`
    /// discards it, `g`/`G` jump to the buffered 1-based line (clamped into
    /// the list; an unusable buffer is discarded silently) and leave the
    /// mode.
    pub fn handle_number_input(&mut self, key: Key)
        requires
            old(self).wf(),
        ensures
            final(self).wf(),
            number_step_ok(*old(self), *final(self), key),
    {
        match key {
            Key::Char(c) => {
                if c == 'g' || c == 'G' {
                    if self.number_input.len() > 0 {
                        let parsed = parse_digits(&self.number_input);
                        match parsed {
                            Some(line) => {
                                self.jump_to_line(line);
                            },
                            None => {},
                        }
                        self.number_input = Vec::new();
                    }
                    self.input_mode = InputMode::Normal;
                } else if is_digit_exec(c) {
                    self.number_input.push(c);
                    proof {
                        assert(all_digits(self.number_input@));
                    }
                }
            },
            Key::Esc => {
                self.number_input = Vec::new();
                self.input_mode = InputMode::Normal;
            },
            _ => {},
        }
    }

    /// Applies one key in filter mode. In the tag-picking step, a digit picks
    /// a catalog tag by ordinal, `c` clears the whole filter, `Esc` leaves
    /// filter mode. In the action step, `e` excludes the picked tag, `i`
    /// includes it exclusively, `Esc` returns to tag picking. Every filter
    /// change is reapplied to every dataset at once.
    #[verifier::rlimit(100)]
    pub fn handle_filter_input(&mut self, key: Key)
        requires
            old(self).wf(),
        ensures
            final(self).wf(),
            filter_step_ok(*old(self), *final(self), key),
    {
        let in_tag_step = match &self.filter_input_state {
            FilterInputState::SelectingTag => true,
            FilterInputState::SelectingAction(_) => false,
        };
        if in_tag_step {
            match key {
                Key::Esc => {
                    self.input_mode = InputMode::Normal;
                },
                Key::Char(c) => {
                    if c == 'c' {
                        self.filter_set.clear();
                        self.apply_current_filter_to_all_datasets();
                        self.input_mode = InputMode::Normal;
                    } else if is_digit_exec(c) {
                        let d = digit_of(c);
                        if d >= 1 && d - 1 < self.available_tags.len() {
                            let tag = self.available_tags[d - 1].clone();
                            self.filter_input_state = FilterInputState::SelectingAction(tag);
                        }
                    }
                },
                _ => {},
            }
        } else {
            match key {
                Key::Esc => {
                    self.filter_input_state = FilterInputState::SelectingTag;
                },
                Key::Char(c) => {
                    if c == 'e' || c == 'i' {
                        let chosen: Option<Tag> = match &self.filter_input_state {
                            FilterInputState::SelectingAction(t) => Some(t.clone()),
                            FilterInputState::SelectingTag => None,
                        };
                        match chosen {
                            Some(tag) => {
                                if c == 'e' {
                                    self.filter_set.add_exclude_tag(tag);
                                } else {
                                    self.filter_set.add_include_tag(tag);
                                }
                                self.filter_input_state = FilterInputState::SelectingTag;
                                self.apply_current_filter_to_all_datasets();
                                self.input_mode = InputMode::Normal;
                            },
                            None => {},
                        }
                    }
                },
                _ => {},
            }
        }
    }

    /// Applies one key in normal mode: navigation is clamped at both ends of
    /// the list, digits start the line-jump buffer, `/` opens search, `F`
    /// opens the filter flow, the display toggles flip their flags, and
    /// Tab/BackTab (or `[`/`]` in chart mode) cycle through the datasets.
    #[verifier::rlimit(100)]
    pub fn handle_normal_input(&mut self, key: Key)
        requires
            old(self).wf(),
        ensures
            final(self).wf(),
            normal_step_ok(*old(self), *final(self), key),
    {
        match key {
            Key::Down => {
                self.move_down_by(1);
            },
            Key::Up => {
                self.move_up_by(1);
            },
            Key::Home => {
                self.jump_to_line(1);
            },
            Key::End => {
                let len = self.filtered_word_counts.len();
                self.jump_to_line(len);
            },
            Key::PageDown => {
                let h = self.visible_area_height;
                self.move_down_by(h);
            },
            Key::PageUp => {
                let h = self.visible_area_height;
                self.move_up_by(h);
            },
            Key::CtrlChar(c) => {
                if c == 'd' {
                    let h = self.visible_area_height / 2;
                    self.move_down_by(h);
                } else if c == 'u' {
                    let h = self.visible_area_height / 2;
                    self.move_up_by(h);
                } else if c == 'f' {
                    let h = self.visible_area_height;
                    self.move_down_by(h);
                } else if c == 'b' {
                    let h = self.visible_area_height;
                    self.move_up_by(h);
                }
            },
            Key::Tab => {
                self.next_dataset();
            },
            Key::BackTab => {
                self.prev_dataset();
            },
            Key::Char(c) => {
                self.handle_normal_char(c);
            },
            _ => {},
        }
    }

    /// Applies one normal-mode character command.
    #[verifier::rlimit(100)]
    fn handle_normal_char(&mut self, c: char)
        requires
            old(self).wf(),
        ensures
            final(self).wf(),
            normal_char_ok(*old(self), *final(self), c),
    {
        if c == 'q' {
            self.should_quit = true;
        } else if c == 'j' || c == 'l' {
                self.move_down_by(1);
            } else if c == 'k' || c == 'h' {
                self.move_up_by(1);
            } else if c == 'g' || c == 'G' {
                if self.number_input.len() > 0 {
                    let parsed = parse_digits(&self.number_input);
                    match parsed {
                        Some(line) => {
                            self.jump_to_line(line);
                        },
                        None => {},
                    }
                    self.number_input = Vec::new();
                } else if c == 'g' {
                    self.jump_to_line(1);
                } else {
                    let len = self.filtered_word_counts.len();
                    self.jump_to_line(len);
                }
            } else if c == '/' {
                self.search_query = Vec::new();
                self.search_results = Vec::new();
                self.current_search_index = 0;
                self.input_mode = InputMode::Search;
                proof {
                    assert(is_search_results(
                        self.search_query@,
                        self.filtered_word_counts.deep_view(),
                        self.search_results@,
                    ));
                }
            } else if c == 'n' {
                if self.search_results.len() > 0 {
                    let next = if self.current_search_index + 1 < self.search_results.len() {
                        self.current_search_index + 1
                    } else {
                        0
                    };
                    self.current_search_index = next;
                    let target = self.search_results[next];
                    self.update_selection(target);
                }
            } else if c == 'N' {
                if self.search_results.len() > 0 {
                    let prev = if self.current_search_index == 0 {
                        self.search_results.len() - 1
                    } else {
                        self.current_search_index - 1
                    };
                    self.current_search_index = prev;
                    let target = self.search_results[prev];
                    self.update_selection(target);
                }
            } else if c == 'L' {
                self.log_scale = !self.log_scale;
            } else if c == 'Z' {
                self.zipf = cycle_zipf_exec(&self.zipf);
            } else if c == 'A' {
                self.chart_scope = if self.chart_scope == ChartScope::Relative {
                    ChartScope::Absolute
                } else {
                    ChartScope::Relative
                };
            } else if c == '%' {
                self.normalization_mode = if self.normalization_mode
                    == NormalizationMode::Raw {
                    NormalizationMode::Percentage
                } else {
                    NormalizationMode::Raw
                };
            } else if c == 'C' {
                self.toggle_chart_mode();
            } else if c == '[' {
                if self.chart_mode {
                    self.prev_dataset();
                }
            } else if c == ']' {
                if self.chart_mode {
                    self.next_dataset();
                }
            } else if c == 'S' {
                self.toggle_stopword_filter();
            } else if c == 'U' {
                self.toggle_single_words_filter();
            } else if c == 'F' {
                self.filter_input_state = FilterInputState::SelectingTag;
                self.input_mode = InputMode::Filter;
            } else if is_digit_exec(c) {
                self.number_input.push(c);
                self.input_mode = InputMode::NumberInput;
                proof {
                    assert(all_digits(self.number_input@));
                }
            }
    }

    /// The list the Zipf reference curve anchors on, as the configured basis
    /// selects: the active filtered list, or the active dataset's original
    /// unfiltered table.
    pub fn zipf_reference_list(&self) -> (r: &Vec<WordCount>)
        requires
            self.wf(),
        ensures
            r.deep_view() == (if self.zipf.basis == ZipfBasis::Filtered {
                self.filtered_word_counts.deep_view()
            } else {
                self.datasets.deep_view()[self.active_dataset_index as int].word_counts
            }),
    {
        match self.zipf.basis {
            ZipfBasis::Filtered => &self.filtered_word_counts,
            ZipfBasis::Unfiltered => {
                let d = &self.datasets[self.active_dataset_index];
                proof {
                    assert(self.datasets.deep_view()[self.active_dataset_index as int]
                        == self.datasets@[self.active_dataset_index as int]@);
                }
                &d.word_counts
            },
        }
    }

    /// Dispatches one key to the active input mode's handler.
    pub fn handle_key(&mut self, key: Key)
        requires
            old(self).wf(),
        ensures
            final(self).wf(),
            old(self).input_mode == InputMode::Normal ==> normal_step_ok(
                *old(self),
                *final(self),
                key,
            ),
            old(self).input_mode == InputMode::Search ==> search_step_ok(
                *old(self),
                *final(self),
                key,
            ),
            old(self).input_mode == InputMode::NumberInput ==> number_step_ok(
                *old(self),
                *final(self),
                key,
            ),
            old(self).input_mode == InputMode::Filter ==> filter_step_ok(
                *old(self),
                *final(self),
                key,
            ),
    {
        let mode = self.input_mode;
        match mode {
            InputMode::Search => self.handle_search_input(key),
            InputMode::NumberInput => self.handle_number_input(key),
            InputMode::Filter => self.handle_filter_input(key),
            InputMode::Normal => self.handle_normal_input(key),
        }
    }
}

/// Law: when the current query — nonempty, and still nonempty after case
/// folding — equals an entire word of the active filtered list, that word is
/// among the session's search results (a match at position zero is the best
/// possible score), and every result ranked above it also matched at
/// position zero.
pub proof fn lemma_whole_word_query_in_results(app: App, i: int)
    requires
        app.wf(),
        0 <= i < app.filtered_word_counts.deep_view().len(),
        app.search_query@.len() > 0,
        lower_of(app.search_query@).len() > 0,
        lower_of(app.search_query@) == lower_of(app.filtered_word_counts.deep_view()[i].word),
    ensures
        fuzzy_spec(app.search_query@, app.filtered_word_counts.deep_view()[i].word) == Some(0int),
        app.search_results@.contains(i as usize),
        forall|a: int, j: int|
            0 <= a < j < app.search_results@.len() && #[trigger] app.search_results@[j] == i
                as usize ==> some_val(
                fuzzy_spec(
                    app.search_query@,
                    app.filtered_word_counts.deep_view()[(#[trigger] app.search_results@[a]) as int].word,
                ),
            ) == 0,
{
    vstd::std_specs::vec::axiom_spec_len(&app.filtered_word_counts);
    crate::search::lemma_whole_word_query_tops(
        app.search_query@,
        app.filtered_word_counts.deep_view(),
        app.search_results@,
        i,
    );
}

/// One press of the overlay key walks the Zipf state through off, absolute
/// anchoring, relative anchoring, and back to off.
pub open spec fn cycle_zipf(z: ZipfFitState) -> ZipfFitState {
    if !z.enabled {
        ZipfFitState { enabled: true, reference: crate::zipf::ZipfReference::Absolute, ..z }
    } else if z.reference == crate::zipf::ZipfReference::Absolute {
        ZipfFitState { enabled: true, reference: crate::zipf::ZipfReference::Relative, ..z }
    } else {
        ZipfFitState { enabled: false, ..z }
    }
}

/// Computes `cycle_zipf`.
fn cycle_zipf_exec(z: &ZipfFitState) -> (r: ZipfFitState)
    ensures
        r == cycle_zipf(*z),
{
    if !z.enabled {
        ZipfFitState { enabled: true, reference: crate::zipf::ZipfReference::Absolute, ..*z }
    } else if z.reference == crate::zipf::ZipfReference::Absolute {
        ZipfFitState { enabled: true, reference: crate::zipf::ZipfReference::Relative, ..*z }
    } else {
        ZipfFitState { enabled: false, ..*z }
    }
}

/// The reserved name of the stop-words tag.
fn stopword_name() -> (r: String)
    ensures
        r@ == "Stop Words"@,
{
    "Stop Words".to_owned()
}

/// The position of the first tag named "Stop Words" in the catalog.
pub open spec fn stopword_index(tags: Seq<TagView>) -> int
    decreases tags.len(),
{
    if tags.len() == 0 {
        0
    } else if tags[0].name == "Stop Words"@ {
        0
    } else {
        1 + stopword_index(tags.drop_first())
    }
}

proof fn lemma_stopword_index(tags: Seq<TagView>, k: int)
    requires
        0 <= k < tags.len(),
        tags[k].name == "Stop Words"@,
        forall|j: int| 0 <= j < k ==> (#[trigger] tags[j]).name != "Stop Words"@,
    ensures
        stopword_index(tags) == k,
    decreases k,
{
    if k == 0 {
    } else {
        assert(tags[0].name != "Stop Words"@);
        assert forall|j: int| 0 <= j < k - 1 implies (#[trigger] tags.drop_first()[j]).name
            != "Stop Words"@ by {
            assert(tags.drop_first()[j] == tags[j + 1]);
        }
        assert(tags.drop_first()[k - 1] == tags[k]);
        lemma_stopword_index(tags.drop_first(), k - 1);
    }
}

/// Finds the first catalog tag named `name`.
fn find_tag_index(tags: &Vec<Tag>, name: &String) -> (r: Option<usize>)
    ensures
        match r {
            Some(k) => {
                &&& k < tags@.len()
                &&& tags.deep_view()[k as int].name == name@
                &&& forall|j: int| 0 <= j < k ==> (#[trigger] tags.deep_view()[j]).name != name@
            },
            None => !tag_in(tags.deep_view(), name@),
        },
{
    let n = tags.len();
    let mut i: usize = 0;
    while i < n
        invariant
            n == tags@.len(),
            0 <= i <= n,
            forall|j: int| 0 <= j < i ==> (#[trigger] tags.deep_view()[j]).name != name@,
        decreases n - i,
    {
        if str_eq(tags[i].name.as_str(), name.as_str()) {
            proof {
                assert(tags.deep_view()[i as int].name == name@);
            }
            return Some(i);
        }
        i = i + 1;
    }
    None
}

/// Whether any word of any dataset carries a tag named `nm`.
pub open spec fn datasets_have_tag(datasets: Seq<crate::analyzer::DatasetView>, nm: Seq<char>) -> bool {
    exists|d: int, w: int|
        0 <= d < datasets.len() && 0 <= w < datasets[d].word_counts.len() && tag_in(
            #[trigger] datasets[d].word_counts[w].tags,
            nm,
        )
}

/// Whether the tag names are pairwise distinct.
pub open spec fn tag_names_distinct(tags: Seq<TagView>) -> bool {
    forall|i: int, j: int|
        0 <= i < j < tags.len() ==> (#[trigger] tags[i]).name != (#[trigger] tags[j]).name
}

/// Gathers one tag per distinct tag name occurring anywhere in the datasets,
/// in encounter order.
fn collect_available_tags(datasets: &Vec<Dataset>) -> (r: Vec<Tag>)
    ensures
        tag_names_distinct(r.deep_view()),
        forall|nm: Seq<char>|
            tag_in(r.deep_view(), nm) <==> datasets_have_tag(datasets.deep_view(), nm),
{
    let nd = datasets.len();
    let mut out: Vec<Tag> = Vec::new();
    let mut d: usize = 0;
    while d < nd
        invariant
            nd == datasets@.len(),
            0 <= d <= nd,
            tag_names_distinct(out.deep_view()),
            forall|nm: Seq<char>|
                #[trigger] tag_in(out.deep_view(), nm) <==> exists|dd: int, w: int|
                    0 <= dd < d && 0 <= w < datasets.deep_view()[dd].word_counts.len() && tag_in(
                        #[trigger] datasets.deep_view()[dd].word_counts[w].tags,
                        nm,
                    ),
        decreases nd - d,
    {
        let nw = datasets[d].word_counts.len();
        let mut w: usize = 0;
        proof {
            assert(datasets.deep_view()[d as int].word_counts == datasets@[d as int]@.word_counts);
        }
        while w < nw
            invariant
                nd == datasets@.len(),
                0 <= d < nd,
                nw == datasets@[d as int].word_counts@.len(),
                datasets.deep_view()[d as int].word_counts.len() == nw,
                0 <= w <= nw,
                tag_names_distinct(out.deep_view()),
                forall|nm: Seq<char>|
                    #[trigger] tag_in(out.deep_view(), nm) <==> (exists|dd: int, ww: int|
                        0 <= dd < d && 0 <= ww < datasets.deep_view()[dd].word_counts.len()
                            && tag_in(
                            #[trigger] datasets.deep_view()[dd].word_counts[ww].tags,
                            nm,
                        )) || (exists|ww: int|
                        0 <= ww < w && tag_in(
                            #[trigger] datasets.deep_view()[d as int].word_counts[ww].tags,
                            nm,
                        )),
            decreases nw - w,
        {
            let nt = datasets[d].word_counts[w].tags.len();
            let mut t: usize = 0;
            proof {
                assert(datasets.deep_view()[d as int].word_counts[w as int].tags == datasets@[d as int]@.word_counts[w as int].tags);
                assert(datasets@[d as int]@.word_counts[w as int].tags == datasets@[d as int].word_counts@[w as int]@.tags);
                assert(datasets@[d as int].word_counts@[w as int]@.tags == datasets@[d as int].word_counts@[w as int].tags.deep_view());
            }
            while t < nt
                invariant
                    nd == datasets@.len(),
                    0 <= d < nd,
                    nw == datasets@[d as int].word_counts@.len(),
                    datasets.deep_view()[d as int].word_counts.len() == nw,
                    0 <= w < nw,
                    nt == datasets@[d as int].word_counts@[w as int].tags@.len(),
                    datasets.deep_view()[d as int].word_counts[w as int].tags.len() == nt,
                    datasets.deep_view()[d as int].word_counts[w as int].tags == datasets@[d as int].word_counts@[w as int].tags.deep_view(),
                    0 <= t <= nt,
                    tag_names_distinct(out.deep_view()),
                    forall|nm: Seq<char>|
                        #[trigger] tag_in(out.deep_view(), nm) <==> (exists|dd: int, ww: int|
                            0 <= dd < d && 0 <= ww < datasets.deep_view()[dd].word_counts.len()
                                && tag_in(
                                #[trigger] datasets.deep_view()[dd].word_counts[ww].tags,
                                nm,
                            )) || (exists|ww: int|
                            0 <= ww < w && tag_in(
                                #[trigger] datasets.deep_view()[d as int].word_counts[ww].tags,
                                nm,
                            )) || (exists|tt: int|
                            0 <= tt < t && (#[trigger] datasets.deep_view()[d as int].word_counts[w as int].tags[tt]).name == nm),
                decreases nt - t,
            {
                let tag_ref = &datasets[d].word_counts[w].tags[t];
                let ghost tv = datasets.deep_view()[d as int].word_counts[w as int].tags[t as int];
                proof {
                    assert(tag_ref@ == tv);
                }
                if !has_tag_named(&out, &tag_ref.name) {
                    let ghost prev = out.deep_view();
                    out.push(tag_ref.clone());
                    proof {
                        assert(out.deep_view() =~= prev.push(tv));
                        assert forall|nm: Seq<char>| #[trigger] tag_in(out.deep_view(), nm)
                            implies (tag_in(prev, nm) || nm == tv.name) by {
                            let i = choose|i: int|
                                0 <= i < out.deep_view().len() && out.deep_view()[i].name == nm;
                            if i < prev.len() {
                                assert(prev[i].name == nm);
                            }
                        }
                        assert forall|nm: Seq<char>| (tag_in(prev, nm) || nm == tv.name)
                            implies #[trigger] tag_in(out.deep_view(), nm) by {
                            if tag_in(prev, nm) {
                                let i = choose|i: int|
                                    0 <= i < prev.len() && prev[i].name == nm;
                                assert(out.deep_view()[i].name == nm);
                            } else {
                                assert(out.deep_view()[prev.len() as int].name == nm);
                            }
                        }
                    }
                }
                t = t + 1;
            }
            w = w + 1;
        }
        d = d + 1;
    }
    proof {
        assert forall|nm: Seq<char>| #[trigger] tag_in(out.deep_view(), nm) implies
            datasets_have_tag(datasets.deep_view(), nm) by {}
        assert forall|nm: Seq<char>| datasets_have_tag(datasets.deep_view(), nm)
            implies #[trigger] tag_in(out.deep_view(), nm) by {}
    }
    out
}

} // verus!
