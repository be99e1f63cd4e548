use vstd::prelude::*;
use crate::analyzer::{
    Tag, TagView, WordCount, WordCountView, tag_in, clone_tags, has_tag_named,
};

verus! {

// ----------------------------------------------------------------------------
// FilterSet: the single global filter applied to every dataset.
// ----------------------------------------------------------------------------

/// The global filter: tags whose words are hidden, tags that words must carry
/// (any of them) to stay, and whether singleton-count words are dropped.
#[derive(Debug)]
pub struct FilterSet {
    pub exclude_tags: Vec<Tag>,
    pub include_only_tags: Vec<Tag>,
    pub exclude_single: bool,
}

/// The mathematical content of a filter.
pub ghost struct FilterSetView {
    pub exclude_tags: Seq<TagView>,
    pub include_only_tags: Seq<TagView>,
    pub exclude_single: bool,
}

impl View for FilterSet {
    type V = FilterSetView;

    open spec fn view(&self) -> FilterSetView {
        FilterSetView {
            exclude_tags: self.exclude_tags.deep_view(),
            include_only_tags: self.include_only_tags.deep_view(),
            exclude_single: self.exclude_single,
        }
    }
}

/// The filter's invariant: no tag name stands in both the exclusion and the
/// inclusion list.
pub open spec fn filter_wf(f: FilterSetView) -> bool {
    forall|i: int|
        0 <= i < f.exclude_tags.len() ==> !tag_in(
            f.include_only_tags,
            (#[trigger] f.exclude_tags[i]).name,
        )
}

/// Whether any of `wc_tags` is named among `tags`.
pub open spec fn any_tag_in(wc_tags: Seq<TagView>, tags: Seq<TagView>) -> bool {
    exists|i: int| 0 <= i < wc_tags.len() && tag_in(tags, (#[trigger] wc_tags[i]).name)
}

/// The filter predicate, evaluated in fixed order: singleton exclusion, then
/// tag exclusion, then the inclusion requirement (empty inclusion list means
/// no requirement).
pub open spec fn matches_spec(f: FilterSetView, wc: WordCountView) -> bool {
    if f.exclude_single && wc.count == 1 {
        false
    } else if any_tag_in(wc.tags, f.exclude_tags) {
        false
    } else if f.include_only_tags.len() > 0 {
        any_tag_in(wc.tags, f.include_only_tags)
    } else {
        true
    }
}

/// Decides `any_tag_in`.
fn any_tag_in_exec(wc_tags: &Vec<Tag>, tags: &Vec<Tag>) -> (r: bool)
    ensures
        r == any_tag_in(wc_tags.deep_view(), tags.deep_view()),
{
    let n = wc_tags.len();
    let mut i: usize = 0;
    while i < n
        invariant
            n == wc_tags@.len(),
            0 <= i <= n,
            forall|k: int|
                0 <= k < i ==> !tag_in(tags.deep_view(), (#[trigger] wc_tags.deep_view()[k]).name),
        decreases n - i,
    {
        if has_tag_named(tags, &wc_tags[i].name) {
            proof {
                assert(tag_in(tags.deep_view(), wc_tags.deep_view()[i as int].name));
            }
            return true;
        }
        i = i + 1;
    }
    false
}

/// Copies `tags` without the tags named `name`.
fn retain_tags_not_named(tags: &Vec<Tag>, name: &String) -> (r: Vec<Tag>)
    ensures
        r.deep_view() == tags.deep_view().filter(
            |t: TagView| t.name != name@,
        ),
{
    let n = tags.len();
    let mut out: Vec<Tag> = Vec::new();
    let mut i: usize = 0;
    proof {
        reveal(Seq::filter);
        assert(tags.deep_view().take(0) =~= Seq::<TagView>::empty());
        assert(out.deep_view() =~= Seq::<TagView>::empty().filter(|t: TagView| t.name != name@));
    }
    while i < n
        invariant
            n == tags@.len(),
            0 <= i <= n,
            out.deep_view() == tags.deep_view().take(i as int).filter(
                |t: TagView| t.name != name@,
            ),
        decreases n - i,
    {
        proof {
            reveal(Seq::filter);
            assert(tags.deep_view().take(i + 1).drop_last() =~= tags.deep_view().take(i as int));
            assert(tags.deep_view().take(i + 1).last() == tags.deep_view()[i as int]);
        }
        let keep = !str_eq_strings(&tags[i].name, name);
        if keep {
            let ghost prev = out.deep_view();
            out.push(tags[i].clone());
            proof {
                assert(out.deep_view() =~= prev.push(tags.deep_view()[i as int]));
            }
        }
        i = i + 1;
    }
    proof {
        assert(tags.deep_view().take(n as int) =~= tags.deep_view());
    }
    out
}

/// Decides equality of two strings.
fn str_eq_strings(a: &String, b: &String) -> (r: bool)
    ensures
        r == (a@ == b@),
{
    *a == *b
}

impl FilterSet {
    /// The empty filter: nothing excluded, nothing required.
    pub fn new() -> (r: FilterSet)
        ensures
            r@.exclude_tags == Seq::<TagView>::empty(),
            r@.include_only_tags == Seq::<TagView>::empty(),
            !r@.exclude_single,
            filter_wf(r@),
    {
        let r = FilterSet {
            exclude_tags: Vec::new(),
            include_only_tags: Vec::new(),
            exclude_single: false,
        };
        proof {
            assert(r@.exclude_tags =~= Seq::<TagView>::empty());
            assert(r@.include_only_tags =~= Seq::<TagView>::empty());
        }
        r
    }

    /// Whether the filter lets every word through.
    pub fn is_empty(&self) -> (r: bool)
        ensures
            r == (self@.exclude_tags.len() == 0 && self@.include_only_tags.len() == 0
                && !self@.exclude_single),
    {
        self.exclude_tags.is_empty() && self.include_only_tags.is_empty() && !self.exclude_single
    }

    /// Whether the filter keeps `word_count`.
    pub fn matches(&self, word_count: &WordCount) -> (r: bool)
        ensures
            r == matches_spec(self@, word_count@),
    {
        // 1. singleton exclusion
        if self.exclude_single && word_count.count == 1 {
            return false;
        }
        // 2. tag exclusion: any excluded tag hides the word
        if any_tag_in_exec(&word_count.tags, &self.exclude_tags) {
            return false;
        }
        // 3. inclusion requirement: with a non-empty inclusion list a word
        // must carry at least one of its tags
        if !self.include_only_tags.is_empty() {
            return any_tag_in_exec(&word_count.tags, &self.include_only_tags);
        }
        true
    }

    /// Adds `tag` to the exclusion list, first evicting its name from the
    /// inclusion list so the two can never overlap.
    pub fn add_exclude_tag(&mut self, tag: Tag)
        ensures
            final(self)@.exclude_single == old(self)@.exclude_single,
            final(self)@.include_only_tags == old(self)@.include_only_tags.filter(
                |t: TagView| t.name != tag@.name,
            ),
            final(self)@.exclude_tags == if tag_in(old(self)@.exclude_tags, tag@.name) {
                old(self)@.exclude_tags
            } else {
                old(self)@.exclude_tags.push(tag@)
            },
            filter_wf(old(self)@) ==> filter_wf(final(self)@),
    {
        let ghost old_view = self@;
        self.include_only_tags = retain_tags_not_named(&self.include_only_tags, &tag.name);
        if !has_tag_named(&self.exclude_tags, &tag.name) {
            let ghost prev = self.exclude_tags.deep_view();
            let ghost t_view = tag@;
            self.exclude_tags.push(tag);
            proof {
                assert(self.exclude_tags.deep_view() =~= prev.push(t_view));
            }
        }
        proof {
            let f = self@;
            if filter_wf(old_view) {
                assert forall|i: int|
                    0 <= i < f.exclude_tags.len() implies !tag_in(
                    f.include_only_tags,
                    (#[trigger] f.exclude_tags[i]).name,
                ) by {
                    let nm = f.exclude_tags[i].name;
                    if tag_in(f.include_only_tags, nm) {
                        let j = choose|j: int|
                            0 <= j < f.include_only_tags.len() && f.include_only_tags[j].name
                                == nm;
                        old_view.include_only_tags.lemma_filter_pred(
                            |t: TagView| t.name != tag@.name,
                            j,
                        );
                        assert(nm != tag@.name);
                        assert(i < old_view.exclude_tags.len());
                        assert(old_view.exclude_tags[i] == f.exclude_tags[i]);
                        assert(old_view.include_only_tags.filter(
                            |t: TagView| t.name != tag@.name,
                        ).contains(f.include_only_tags[j]));
                        lemma_filter_member_src(
                            old_view.include_only_tags,
                            |t: TagView| t.name != tag@.name,
                            f.include_only_tags[j],
                        );
                        assert(tag_in(old_view.include_only_tags, nm));
                    }
                }
            }
        }
    }

    /// Adds `tag` to the inclusion list, first evicting its name from the
    /// exclusion list so the two can never overlap.
    pub fn add_include_tag(&mut self, tag: Tag)
        ensures
            final(self)@.exclude_single == old(self)@.exclude_single,
            final(self)@.exclude_tags == old(self)@.exclude_tags.filter(
                |t: TagView| t.name != tag@.name,
            ),
            final(self)@.include_only_tags == if tag_in(
                old(self)@.include_only_tags,
                tag@.name,
            ) {
                old(self)@.include_only_tags
            } else {
                old(self)@.include_only_tags.push(tag@)
            },
            filter_wf(old(self)@) ==> filter_wf(final(self)@),
    {
        let ghost old_view = self@;
        self.exclude_tags = retain_tags_not_named(&self.exclude_tags, &tag.name);
        if !has_tag_named(&self.include_only_tags, &tag.name) {
            let ghost prev = self.include_only_tags.deep_view();
            let ghost t_view = tag@;
            self.include_only_tags.push(tag);
            proof {
                assert(self.include_only_tags.deep_view() =~= prev.push(t_view));
            }
        }
        proof {
            let f = self@;
            if filter_wf(old_view) {
                assert forall|i: int|
                    0 <= i < f.exclude_tags.len() implies !tag_in(
                    f.include_only_tags,
                    (#[trigger] f.exclude_tags[i]).name,
                ) by {
                    let nm = f.exclude_tags[i].name;
                    old_view.exclude_tags.lemma_filter_pred(|t: TagView| t.name != tag@.name, i);
                    assert(nm != tag@.name);
                    lemma_filter_member_src(
                        old_view.exclude_tags,
                        |t: TagView| t.name != tag@.name,
                        f.exclude_tags[i],
                    );
                    assert(tag_in(old_view.exclude_tags, nm) || old_view.exclude_tags.contains(
                        f.exclude_tags[i],
                    ));
                    if tag_in(f.include_only_tags, nm) {
                        let j = choose|j: int|
                            0 <= j < f.include_only_tags.len() && f.include_only_tags[j].name
                                == nm;
                        if j < old_view.include_only_tags.len() {
                            assert(old_view.include_only_tags[j] == f.include_only_tags[j]);
                            assert(tag_in(old_view.include_only_tags, nm));
                            let a = choose|a: int|
                                0 <= a < old_view.exclude_tags.len()
                                    && old_view.exclude_tags[a].name == nm;
                        }
                    }
                }
            }
        }
    }

    /// Removes every exclusion-list tag named `name`.
    pub fn remove_exclude_tag(&mut self, name: &String)
        ensures
            final(self)@.exclude_single == old(self)@.exclude_single,
            final(self)@.include_only_tags == old(self)@.include_only_tags,
            final(self)@.exclude_tags == old(self)@.exclude_tags.filter(
                |t: TagView| t.name != name@,
            ),
            filter_wf(old(self)@) ==> filter_wf(final(self)@),
    {
        let ghost old_view = self@;
        self.exclude_tags = retain_tags_not_named(&self.exclude_tags, name);
        proof {
            let f = self@;
            if filter_wf(old_view) {
                assert forall|i: int|
                    0 <= i < f.exclude_tags.len() implies !tag_in(
                    f.include_only_tags,
                    (#[trigger] f.exclude_tags[i]).name,
                ) by {
                    lemma_filter_member_src(
                        old_view.exclude_tags,
                        |t: TagView| t.name != name@,
                        f.exclude_tags[i],
                    );
                    assert(old_view.exclude_tags.contains(f.exclude_tags[i]));
                    let a = choose|a: int|
                        0 <= a < old_view.exclude_tags.len() && old_view.exclude_tags[a] == f
                            .exclude_tags[i];
                }
            }
        }
    }

    /// Flips the singleton-count exclusion.
    pub fn set_exclude_single(&mut self, value: bool)
        ensures
            final(self)@.exclude_single == value,
            final(self)@.exclude_tags == old(self)@.exclude_tags,
            final(self)@.include_only_tags == old(self)@.include_only_tags,
            filter_wf(old(self)@) ==> filter_wf(final(self)@),
    {
        self.exclude_single = value;
    }

    /// Resets the filter to let everything through.
    pub fn clear(&mut self)
        ensures
            final(self)@.exclude_tags == Seq::<TagView>::empty(),
            final(self)@.include_only_tags == Seq::<TagView>::empty(),
            !final(self)@.exclude_single,
            filter_wf(final(self)@),
    {
        self.exclude_tags.clear();
        self.include_only_tags.clear();
        self.exclude_single = false;
        proof {
            assert(self@.exclude_tags =~= Seq::<TagView>::empty());
            assert(self@.include_only_tags =~= Seq::<TagView>::empty());
        }
    }
}

impl Clone for FilterSet {
    /// An exact copy.
    fn clone(&self) -> (r: FilterSet)
        ensures
            r@ == self@,
    {
        let r = FilterSet {
            exclude_tags: clone_tags(&self.exclude_tags),
            include_only_tags: clone_tags(&self.include_only_tags),
            exclude_single: self.exclude_single,
        };
        proof {
            assert(r@ =~= self@);
        }
        r
    }
}

/// A member of a filtered sequence is a member of the source.
proof fn lemma_filter_member_src<A>(s: Seq<A>, p: spec_fn(A) -> bool, x: A)
    requires
        s.filter(p).contains(x),
    ensures
        s.contains(x),
    decreases s.len(),
{
    reveal(Seq::filter);
    if s.len() > 0 {
        let pre = s.drop_last();
        if p(s.last()) && x == s.last() {
            assert(s[s.len() - 1] == x);
        } else {
            assert(pre.filter(p).contains(x)) by {
                let i = choose|i: int| 0 <= i < s.filter(p).len() && s.filter(p)[i] == x;
                if p(s.last()) {
                    assert(s.filter(p).drop_last() =~= pre.filter(p));
                    assert(i < s.filter(p).len() - 1);
                    assert(pre.filter(p)[i] == x);
                }
            }
            lemma_filter_member_src(pre, p, x);
            let i = choose|i: int| 0 <= i < pre.len() && pre[i] == x;
            assert(s[i] == x);
        }
    }
}

/// Law: no tag name is ever in both the exclusion and the inclusion list.
/// `FilterSet::new` establishes `filter_wf` and every mutator preserves it,
/// so this holds after any sequence of mutator calls.
pub proof fn lemma_filter_exclusivity(f: FilterSetView, name: Seq<char>)
    requires
        filter_wf(f),
    ensures
        !(tag_in(f.exclude_tags, name) && tag_in(f.include_only_tags, name)),
{
    if tag_in(f.exclude_tags, name) && tag_in(f.include_only_tags, name) {
        let i = choose|i: int| 0 <= i < f.exclude_tags.len() && f.exclude_tags[i].name == name;
        assert(!tag_in(f.include_only_tags, f.exclude_tags[i].name));
    }
}

// ----------------------------------------------------------------------------
// The filter engine: evaluates the filter over a ranked list and re-ranks the
// survivors densely.
// ----------------------------------------------------------------------------

/// The rows of `src` that the filter keeps, still carrying their old ranks.
pub open spec fn keep_spec(f: FilterSetView, src: Seq<WordCountView>) -> Seq<WordCountView> {
    src.filter(|wc: WordCountView| matches_spec(f, wc))
}

/// `wc` with its rank replaced.
pub open spec fn with_rank(wc: WordCountView, r: int) -> WordCountView {
    WordCountView { rank: r as nat, ..wc }
}

/// `s` re-ranked densely from 1.
pub open spec fn rerank_spec(s: Seq<WordCountView>) -> Seq<WordCountView> {
    Seq::new(s.len(), |i: int| with_rank(s[i], i + 1))
}

/// What filtering produces: the surviving rows in source order, re-ranked
/// densely from 1.
pub open spec fn apply_spec(f: FilterSetView, src: Seq<WordCountView>) -> Seq<WordCountView> {
    rerank_spec(keep_spec(f, src))
}

/// Applies the filter to a ranked list: survivors keep their source order and
/// all fields but rank, and are re-ranked densely from 1.
pub fn apply_filter(f: &FilterSet, source: &Vec<WordCount>) -> (r: Vec<WordCount>)
    ensures
        r.deep_view() == apply_spec(f@, source.deep_view()),
{
    let ghost fv = f@;
    let ghost src = source.deep_view();
    let n = source.len();
    let mut out: Vec<WordCount> = Vec::new();
    let mut i: usize = 0;
    proof {
        reveal(Seq::filter);
        assert(src.take(0) =~= Seq::<WordCountView>::empty());
        assert(out.deep_view() =~= rerank_spec(keep_spec(fv, src.take(0))));
    }
    while i < n
        invariant
            n == source@.len(),
            fv == f@,
            src == source.deep_view(),
            0 <= i <= n,
            out.deep_view() == rerank_spec(keep_spec(fv, src.take(i as int))),
            out@.len() == keep_spec(fv, src.take(i as int)).len(),
        decreases n - i,
    {
        proof {
            reveal(Seq::filter);
            assert(src.take(i + 1).drop_last() =~= src.take(i as int));
            assert(src.take(i + 1).last() == src[i as int]);
            src.take(i as int).lemma_filter_len(|wc: WordCountView| matches_spec(fv, wc));
        }
        if f.matches(&source[i]) {
            let ghost prev_kept = keep_spec(fv, src.take(i as int));
            let rank = out.len() + 1;
            let wc = WordCount {
                word: source[i].word.clone(),
                count: source[i].count,
                rank,
                tags: clone_tags(&source[i].tags),
            };
            proof {
                assert(wc@ == with_rank(src[i as int], (prev_kept.len() + 1) as int));
            }
            let ghost prev_out = out.deep_view();
            let ghost wc_view = wc@;
            out.push(wc);
            proof {
                reveal(Seq::filter);
                assert(out.deep_view() =~= prev_out.push(wc_view));
                assert(keep_spec(fv, src.take(i + 1)) =~= prev_kept.push(src[i as int]));
                assert forall|k: int|
                    0 <= k < prev_out.push(wc_view).len() implies prev_out.push(wc_view)[k]
                    == rerank_spec(keep_spec(fv, src.take(i + 1)))[k] by {
                    if k < prev_out.len() {
                        assert(prev_out[k] == rerank_spec(prev_kept)[k]);
                    }
                }
                assert(out.deep_view() =~= rerank_spec(keep_spec(fv, src.take(i + 1))));
            }
        } else {
            proof {
                reveal(Seq::filter);
                assert(keep_spec(fv, src.take(i + 1)) =~= keep_spec(fv, src.take(i as int)));
            }
        }
        i = i + 1;
    }
    proof {
        assert(src.take(n as int) =~= src);
    }
    out
}

// ----------------------------------------------------------------------------
// Laws of filtering.
// ----------------------------------------------------------------------------

/// The filter predicate never reads the rank.
proof fn lemma_matches_ignores_rank(f: FilterSetView, wc: WordCountView, r: int)
    ensures
        matches_spec(f, with_rank(wc, r)) == matches_spec(f, wc),
{
}

/// Filtering a sequence all of whose rows match returns it unchanged.
proof fn lemma_filter_all_match(f: FilterSetView, s: Seq<WordCountView>)
    requires
        forall|i: int| 0 <= i < s.len() ==> matches_spec(f, #[trigger] s[i]),
    ensures
        keep_spec(f, s) == s,
    decreases s.len(),
{
    reveal(Seq::filter);
    if s.len() > 0 {
        assert forall|i: int| 0 <= i < s.drop_last().len() implies matches_spec(
            f,
            #[trigger] s.drop_last()[i],
        ) by {
            assert(s.drop_last()[i] == s[i]);
        }
        lemma_filter_all_match(f, s.drop_last());
        assert(matches_spec(f, s.last()));
        assert(keep_spec(f, s) =~= s);
    } else {
        assert(keep_spec(f, s) =~= s);
    }
}

/// Law: filtering is idempotent — applying the same filter to its own output
/// yields that output unchanged, word for word and rank for rank.
pub proof fn lemma_filter_idempotent(f: FilterSetView, src: Seq<WordCountView>)
    ensures
        apply_spec(f, apply_spec(f, src)) == apply_spec(f, src),
{
    let kept = keep_spec(f, src);
    let out = apply_spec(f, src);
    assert forall|i: int| 0 <= i < out.len() implies matches_spec(f, #[trigger] out[i]) by {
        src.lemma_filter_pred(|wc: WordCountView| matches_spec(f, wc), i);
        assert(out[i] == with_rank(kept[i], i + 1));
        lemma_matches_ignores_rank(f, kept[i], i + 1);
    }
    lemma_filter_all_match(f, out);
    assert(apply_spec(f, out) =~= out) by {
        assert forall|i: int| 0 <= i < out.len() implies rerank_spec(out)[i] == out[i] by {
            assert(out[i] == with_rank(kept[i], i + 1));
            assert(with_rank(out[i], i + 1) == out[i]);
        }
    }
}

/// Law: filtered ranks are dense 1..=len, and each surviving row keeps its
/// word, count and tags; survivors appear in source order (filtering only
/// removes rows).
pub proof fn lemma_filter_dense_and_faithful(f: FilterSetView, src: Seq<WordCountView>)
    ensures
        apply_spec(f, src).len() == keep_spec(f, src).len() <= src.len(),
        forall|i: int|
            0 <= i < apply_spec(f, src).len() ==> {
                &&& (#[trigger] apply_spec(f, src)[i]).rank == i + 1
                &&& apply_spec(f, src)[i].word == keep_spec(f, src)[i].word
                &&& apply_spec(f, src)[i].count == keep_spec(f, src)[i].count
                &&& apply_spec(f, src)[i].tags == keep_spec(f, src)[i].tags
                &&& matches_spec(f, apply_spec(f, src)[i])
            },
{
    let kept = keep_spec(f, src);
    src.lemma_filter_len(|wc: WordCountView| matches_spec(f, wc));
    assert forall|i: int| 0 <= i < apply_spec(f, src).len() implies {
        &&& (#[trigger] apply_spec(f, src)[i]).rank == i + 1
        &&& apply_spec(f, src)[i].word == kept[i].word
        &&& apply_spec(f, src)[i].count == kept[i].count
        &&& apply_spec(f, src)[i].tags == kept[i].tags
        &&& matches_spec(f, apply_spec(f, src)[i])
    } by {
        src.lemma_filter_pred(|wc: WordCountView| matches_spec(f, wc), i);
        lemma_matches_ignores_rank(f, kept[i], i + 1);
    }
}

/// Law (order preservation): any two surviving rows sit at two source
/// positions in the same relative order — filtering only removes rows, it
/// never reorders them. The returned pair names those source positions.
pub proof fn lemma_filter_order_preserved(
    f: FilterSetView,
    src: Seq<WordCountView>,
    i: int,
    j: int,
) -> (ab: (int, int))
    requires
        0 <= i < j < keep_spec(f, src).len(),
    ensures
        0 <= ab.0 < ab.1 < src.len(),
        src[ab.0] == keep_spec(f, src)[i],
        src[ab.1] == keep_spec(f, src)[j],
{
    lemma_filter_pair_order(src, |wc: WordCountView| matches_spec(f, wc), i, j)
}

/// Two rows of a filtered sequence come from two source positions in the same
/// order; the returned pair names those positions.
proof fn lemma_filter_pair_order<A>(s: Seq<A>, p: spec_fn(A) -> bool, i: int, j: int) -> (ab: (
    int,
    int,
))
    requires
        0 <= i < j < s.filter(p).len(),
    ensures
        0 <= ab.0 < ab.1 < s.len(),
        s[ab.0] == s.filter(p)[i],
        s[ab.1] == s.filter(p)[j],
    decreases s.len(),
{
    reveal(Seq::filter);
    s.lemma_filter_len(p);
    let out = s.filter(p);
    let pre = s.drop_last();
    if p(s.last()) && j == out.len() - 1 {
        // the later row is the last source element; the earlier one comes
        // from the prefix
        assert(out.drop_last() =~= pre.filter(p));
        assert(pre.filter(p)[i] == out[i]);
        let a = lemma_filter_member_index(pre, p, i);
        assert(s[a] == out[i]);
        assert(s[s.len() - 1] == out[j]);
        (a, s.len() - 1)
    } else {
        if p(s.last()) {
            assert(out.drop_last() =~= pre.filter(p));
            assert(pre.filter(p)[i] == out[i] && pre.filter(p)[j] == out[j]);
        } else {
            assert(out =~= pre.filter(p));
        }
        let ab = lemma_filter_pair_order(pre, p, i, j);
        assert(s[ab.0] == out[i] && s[ab.1] == out[j]);
        ab
    }
}

/// A filtered row at a given position comes from some source position; the
/// returned index names that position.
proof fn lemma_filter_member_index<A>(s: Seq<A>, p: spec_fn(A) -> bool, i: int) -> (a: int)
    requires
        0 <= i < s.filter(p).len(),
    ensures
        0 <= a < s.len(),
        s[a] == s.filter(p)[i],
    decreases s.len(),
{
    reveal(Seq::filter);
    s.lemma_filter_len(p);
    let out = s.filter(p);
    let pre = s.drop_last();
    if p(s.last()) && i == out.len() - 1 {
        assert(s[s.len() - 1] == out[i]);
        s.len() - 1
    } else {
        if p(s.last()) {
            assert(out.drop_last() =~= pre.filter(p));
            assert(pre.filter(p)[i] == out[i]);
        } else {
            assert(out =~= pre.filter(p));
        }
        let a = lemma_filter_member_index(pre, p, i);
        assert(s[a] == out[i]);
        a
    }
}

} // verus!
