use vstd::prelude::*;
use crate::parser::{lower_of, to_lowercase, chars_of};
use crate::counting::{
    count_in, firsts, first_index, base_counts, pair_words, sum_pairs, sum_counts_over,
    lemma_count_in_bounds, lemma_firsts_props, lemma_first_index_props, lemma_first_index_unique,
    lemma_firsts_order, lemma_sum_counts_over, lemma_base_counts_words, lemma_sum_pairs_base,
    lemma_base_counts_step_seen, lemma_base_counts_step_new,
};
use crate::sort::{TotalOrdered, sorted, insertion_sort};

verus! {

// ----------------------------------------------------------------------------
// Core data model: tags, word counts, datasets, and their mathematical views.
// ----------------------------------------------------------------------------

/// A catalog tag. Its identity is its name: two tags with the same name are
/// the same tag, even when their descriptive fields differ.
#[derive(Debug)]
pub struct Tag {
    pub name: String,
    pub color: Option<String>,
    pub description: Option<String>,
}

/// The mathematical content of a tag.
pub ghost struct TagView {
    pub name: Seq<char>,
    pub color: Option<Seq<char>>,
    pub description: Option<Seq<char>>,
}

/// The view of an optional string.
pub open spec fn opt_str_view(s: Option<String>) -> Option<Seq<char>> {
    match s {
        Some(x) => Some(x@),
        None => None,
    }
}

impl View for Tag {
    type V = TagView;

    open spec fn view(&self) -> TagView {
        TagView {
            name: self.name@,
            color: opt_str_view(self.color),
            description: opt_str_view(self.description),
        }
    }
}

impl DeepView for Tag {
    type V = TagView;

    open spec fn deep_view(&self) -> TagView {
        self.view()
    }
}

impl PartialEq for Tag {
    /// Tags compare by name alone, their stable identity key.
    fn eq(&self, other: &Tag) -> (r: bool) {
        self.name == other.name
    }
}

impl vstd::std_specs::cmp::PartialEqSpecImpl for Tag {
    open spec fn obeys_eq_spec() -> bool {
        true
    }

    open spec fn eq_spec(&self, other: &Tag) -> bool {
        self.name@ == other.name@
    }
}

impl Clone for Tag {
    /// An exact copy, descriptive fields included.
    fn clone(&self) -> (r: Tag)
        ensures
            r@ == self@,
    {
        Tag {
            name: self.name.clone(),
            color: clone_opt_string(&self.color),
            description: clone_opt_string(&self.description),
        }
    }
}

fn clone_opt_string(s: &Option<String>) -> (r: Option<String>)
    ensures
        opt_str_view(r) == opt_str_view(*s),
{
    match s {
        Some(x) => Some(x.clone()),
        None => None,
    }
}

/// Whether some tag in `tags` carries the name `name`.
pub open spec fn tag_in(tags: Seq<TagView>, name: Seq<char>) -> bool {
    exists|i: int| 0 <= i < tags.len() && tags[i].name == name
}

/// Decides whether `tags` holds a tag named `name`.
pub fn has_tag_named(tags: &Vec<Tag>, name: &String) -> (r: bool)
    ensures
        r == tag_in(tags.deep_view(), name@),
{
    let n = tags.len();
    let mut i: usize = 0;
    while i < n
        invariant
            n == tags@.len(),
            0 <= i <= n,
            forall|k: int| 0 <= k < i ==> tags.deep_view()[k].name != name@,
        decreases n - i,
    {
        if tags[i].name == *name {
            proof {
                assert(tags.deep_view()[i as int].name == name@);
            }
            return true;
        }
        i = i + 1;
    }
    false
}

/// Copies a tag list exactly.
pub fn clone_tags(tags: &Vec<Tag>) -> (r: Vec<Tag>)
    ensures
        r.deep_view() == tags.deep_view(),
{
    let n = tags.len();
    let mut out: Vec<Tag> = Vec::new();
    let mut i: usize = 0;
    while i < n
        invariant
            n == tags@.len(),
            0 <= i <= n,
            out.deep_view() == tags.deep_view().take(i as int),
        decreases n - i,
    {
        out.push(tags[i].clone());
        proof {
            assert(out.deep_view() =~= tags.deep_view().take(i as int).push(
                tags.deep_view()[i as int],
            ));
            assert(tags.deep_view().take(i + 1) =~= tags.deep_view().take(i as int).push(
                tags.deep_view()[i as int],
            ));
        }
        i = i + 1;
    }
    proof {
        assert(tags.deep_view().take(n as int) =~= tags.deep_view());
    }
    out
}

/// Decides string equality on exact character sequences.
pub fn str_eq(a: &str, b: &str) -> (r: bool)
    ensures
        r == (a@ == b@),
{
    let va = chars_of(a);
    let vb = chars_of(b);
    if va.len() != vb.len() {
        proof {
            assert(a@.len() != b@.len());
        }
        return false;
    }
    let n = va.len();
    let mut i: usize = 0;
    while i < n
        invariant
            n == va@.len() == vb@.len(),
            va@ == a@,
            vb@ == b@,
            0 <= i <= n,
            forall|k: int| 0 <= k < i ==> va@[k] == vb@[k],
        decreases n - i,
    {
        if va[i] != vb[i] {
            return false;
        }
        i = i + 1;
    }
    proof {
        assert(a@ =~= b@);
    }
    true
}

/// One ranked row: a word, how often it occurred, its dense 1-based rank in
/// the list that produced it, and the catalog tags it carries.
#[derive(Debug)]
pub struct WordCount {
    pub word: String,
    pub count: usize,
    pub rank: usize,
    pub tags: Vec<Tag>,
}

/// The mathematical content of a ranked row.
pub ghost struct WordCountView {
    pub word: Seq<char>,
    pub count: nat,
    pub rank: nat,
    pub tags: Seq<TagView>,
}

impl View for WordCount {
    type V = WordCountView;

    open spec fn view(&self) -> WordCountView {
        WordCountView {
            word: self.word@,
            count: self.count as nat,
            rank: self.rank as nat,
            tags: self.tags.deep_view(),
        }
    }
}

impl DeepView for WordCount {
    type V = WordCountView;

    open spec fn deep_view(&self) -> WordCountView {
        self.view()
    }
}

impl Clone for WordCount {
    /// An exact copy.
    fn clone(&self) -> (r: WordCount)
        ensures
            r@ == self@,
    {
        WordCount {
            word: self.word.clone(),
            count: self.count,
            rank: self.rank,
            tags: clone_tags(&self.tags),
        }
    }
}

/// Copies a ranked list exactly.
pub fn clone_word_counts(v: &Vec<WordCount>) -> (r: Vec<WordCount>)
    ensures
        r.deep_view() == v.deep_view(),
{
    let n = v.len();
    let mut out: Vec<WordCount> = Vec::new();
    let mut i: usize = 0;
    while i < n
        invariant
            n == v@.len(),
            0 <= i <= n,
            out.deep_view() == v.deep_view().take(i as int),
        decreases n - i,
    {
        out.push(v[i].clone());
        proof {
            assert(out.deep_view() =~= v.deep_view().take(i as int).push(
                v.deep_view()[i as int],
            ));
            assert(v.deep_view().take(i + 1) =~= v.deep_view().take(i as int).push(
                v.deep_view()[i as int],
            ));
        }
        i = i + 1;
    }
    proof {
        assert(v.deep_view().take(n as int) =~= v.deep_view());
    }
    out
}

/// An immutable analysis result: a name, the ranked word table, its
/// aggregates, and how long parsing and analysis took (in nanoseconds).
#[derive(Debug)]
pub struct Dataset {
    pub name: String,
    pub word_counts: Vec<WordCount>,
    pub total_words: usize,
    pub unique_words: usize,
    pub parse_nanos: u64,
    pub analyze_nanos: u64,
}

/// The mathematical content of a dataset.
pub ghost struct DatasetView {
    pub name: Seq<char>,
    pub word_counts: Seq<WordCountView>,
    pub total_words: nat,
    pub unique_words: nat,
    pub parse_nanos: nat,
    pub analyze_nanos: nat,
}

impl View for Dataset {
    type V = DatasetView;

    open spec fn view(&self) -> DatasetView {
        DatasetView {
            name: self.name@,
            word_counts: self.word_counts.deep_view(),
            total_words: self.total_words as nat,
            unique_words: self.unique_words as nat,
            parse_nanos: self.parse_nanos as nat,
            analyze_nanos: self.analyze_nanos as nat,
        }
    }
}

impl DeepView for Dataset {
    type V = DatasetView;

    open spec fn deep_view(&self) -> DatasetView {
        self.view()
    }
}

impl Clone for Dataset {
    /// An exact copy.
    fn clone(&self) -> (r: Dataset)
        ensures
            r@ == self@,
    {
        Dataset {
            name: self.name.clone(),
            word_counts: clone_word_counts(&self.word_counts),
            total_words: self.total_words,
            unique_words: self.unique_words,
            parse_nanos: self.parse_nanos,
            analyze_nanos: self.analyze_nanos,
        }
    }
}

// ----------------------------------------------------------------------------
// TagMatcher: a word-to-tags lookup built from a catalog.
// ----------------------------------------------------------------------------

/// One catalog definition handed to the matcher: a tag and the member words
/// it covers.
pub struct TagDef {
    pub name: String,
    pub color: Option<String>,
    pub description: Option<String>,
    pub words: Vec<String>,
}

/// The mathematical content of a catalog definition.
pub ghost struct TagDefView {
    pub name: Seq<char>,
    pub color: Option<Seq<char>>,
    pub description: Option<Seq<char>>,
    pub words: Seq<Seq<char>>,
}

impl View for TagDef {
    type V = TagDefView;

    open spec fn view(&self) -> TagDefView {
        TagDefView {
            name: self.name@,
            color: opt_str_view(self.color),
            description: opt_str_view(self.description),
            words: self.words.deep_view(),
        }
    }
}

impl DeepView for TagDef {
    type V = TagDefView;

    open spec fn deep_view(&self) -> TagDefView {
        self.view()
    }
}

/// The tag a catalog definition declares.
pub open spec fn def_tag(d: TagDefView) -> TagView {
    TagView { name: d.name, color: d.color, description: d.description }
}

/// The tags the catalog definitions declare, in catalog order.
pub open spec fn def_tags(ds: Seq<TagDefView>) -> Seq<TagView> {
    ds.map_values(|d: TagDefView| def_tag(d))
}

/// Whether some definition named `nm` lists a word that lowercases to `w`.
pub open spec fn def_covers(ds: Seq<TagDefView>, w: Seq<char>, nm: Seq<char>) -> bool {
    exists|d: int, j: int|
        0 <= d < ds.len() && 0 <= j < ds[d].words.len() && ds[d].name == nm && lower_of(
            #[trigger] ds[d].words[j],
        ) == w
}

/// Whether `t` is exactly the tag some definition declares that lists a word
/// lowercasing to `w` — the provenance of a looked-up tag.
pub open spec fn lookup_from_defs(ds: Seq<TagDefView>, w: Seq<char>, t: TagView) -> bool {
    exists|d: int, j: int|
        0 <= d < ds.len() && 0 <= j < ds[d].words.len() && lower_of(#[trigger] ds[d].words[j])
            == w && t == def_tag(ds[d])
}

struct TagRow {
    word: String,
    tags: Vec<Tag>,
}

/// The lookup table a matcher holds: lowercased keys paired with tag lists.
pub ghost struct TagRowView {
    pub word: Seq<char>,
    pub tags: Seq<TagView>,
}

impl View for TagRow {
    type V = TagRowView;

    closed spec fn view(&self) -> TagRowView {
        TagRowView { word: self.word@, tags: self.tags.deep_view() }
    }
}

impl DeepView for TagRow {
    type V = TagRowView;

    closed spec fn deep_view(&self) -> TagRowView {
        self.view()
    }
}

/// Maps words to the catalog tags that list them. Lookups are
/// case-insensitive; unknown words carry no tags.
pub struct TagMatcher {
    rows: Vec<TagRow>,
    available: Vec<Tag>,
}

/// First-match lookup of `w` among the rows.
pub open spec fn lookup_rows(rows: Seq<TagRowView>, w: Seq<char>) -> Seq<TagView>
    decreases rows.len(),
{
    if rows.len() == 0 {
        Seq::empty()
    } else if rows[0].word == w {
        rows[0].tags
    } else {
        lookup_rows(rows.drop_first(), w)
    }
}

impl TagMatcher {
    /// The matcher's rows: lowercased keys with their tag lists.
    pub closed spec fn rows_spec(self) -> Seq<TagRowView> {
        self.rows.deep_view()
    }

    /// The tags stored for the (already lowercased) key `w`; empty when the
    /// key is unknown.
    pub open spec fn lookup_spec(self, w: Seq<char>) -> Seq<TagView> {
        lookup_rows(self.rows_spec(), w)
    }

    /// The catalog tags, in catalog order.
    pub closed spec fn available_spec(self) -> Seq<TagView> {
        self.available.deep_view()
    }

    /// An empty matcher: no catalog, no tags for any word.
    pub fn new() -> (r: TagMatcher)
        ensures
            r.rows_spec() == Seq::<TagRowView>::empty(),
            forall|w: Seq<char>| r.lookup_spec(w) == Seq::<TagView>::empty(),
            r.available_spec() == Seq::<TagView>::empty(),
    {
        let r = TagMatcher { rows: Vec::new(), available: Vec::new() };
        proof {
            assert(r.rows_spec() =~= Seq::<TagRowView>::empty());
            assert(r.available_spec() =~= Seq::<TagView>::empty());
        }
        r
    }

    /// Builds the matcher from catalog definitions: each definition's tag is
    /// available, and a word carries exactly the tags of the definitions that
    /// list it (case-insensitively, deduplicated by tag name).
    pub fn from_entries(defs: Vec<TagDef>) -> (r: TagMatcher)
        ensures
            r.available_spec() == def_tags(defs.deep_view()),
            forall|w: Seq<char>, nm: Seq<char>|
                #[trigger] tag_in(r.lookup_spec(w), nm) <==> #[trigger] def_covers(
                    defs.deep_view(),
                    w,
                    nm,
                ),
            forall|w: Seq<char>, k: int|
                0 <= k < r.lookup_spec(w).len() ==> lookup_from_defs(
                    defs.deep_view(),
                    w,
                    #[trigger] r.lookup_spec(w)[k],
                ),
    {
        let nd = defs.len();
        let mut rows: Vec<TagRow> = Vec::new();
        let mut available: Vec<Tag> = Vec::new();
        let mut d: usize = 0;
        proof {
            assert(available.deep_view() =~= def_tags(defs.deep_view().take(0)));
        }
        while d < nd
            invariant
                nd == defs@.len(),
                defs.deep_view().len() == nd,
                0 <= d <= nd,
                available.deep_view() == def_tags(defs.deep_view().take(d as int)),
                rows_keys_distinct(rows.deep_view()),
                forall|w: Seq<char>, nm: Seq<char>|
                    #[trigger] tag_in(lookup_rows(rows.deep_view(), w), nm) <==> def_covers(
                        defs.deep_view().take(d as int),
                        w,
                        nm,
                    ),
                forall|w: Seq<char>, k: int|
                    0 <= k < lookup_rows(rows.deep_view(), w).len() ==> lookup_from_defs(
                        defs.deep_view().take(d as int),
                        w,
                        #[trigger] lookup_rows(rows.deep_view(), w)[k],
                    ),
            decreases nd - d,
        {
            let tag = Tag {
                name: defs[d].name.clone(),
                color: clone_opt_string(&defs[d].color),
                description: clone_opt_string(&defs[d].description),
            };
            let ghost dv = defs.deep_view()[d as int];
            proof {
                assert(tag@ == def_tag(dv));
            }
            let ghost prev_avail = available.deep_view();
            available.push(tag.clone());
            proof {
                assert(available.deep_view() =~= prev_avail.push(def_tag(dv)));
                assert(def_tags(defs.deep_view().take(d + 1)) =~= prev_avail.push(def_tag(dv)));
            }
            let nw = defs[d].words.len();
            let mut j: usize = 0;
            proof {
                assert(dv.words.len() == nw);
            }
            while j < nw
                invariant
                    nd == defs@.len(),
                    defs.deep_view().len() == nd,
                    0 <= d < nd,
                    nw == defs@[d as int].words@.len(),
                    dv == defs.deep_view()[d as int],
                    dv.words.len() == nw,
                    tag@ == def_tag(dv),
                    0 <= j <= nw,
                    rows_keys_distinct(rows.deep_view()),
                    forall|w: Seq<char>, nm: Seq<char>|
                        #[trigger] tag_in(lookup_rows(rows.deep_view(), w), nm) <==> (def_covers(
                            defs.deep_view().take(d as int),
                            w,
                            nm,
                        ) || (nm == dv.name && exists|jj: int|
                            0 <= jj < j && lower_of(#[trigger] dv.words[jj]) == w)),
                    forall|w: Seq<char>, k: int|
                        0 <= k < lookup_rows(rows.deep_view(), w).len() ==> (lookup_from_defs(
                            defs.deep_view().take(d as int),
                            w,
                            #[trigger] lookup_rows(rows.deep_view(), w)[k],
                        ) || (lookup_rows(rows.deep_view(), w)[k] == def_tag(dv) && exists|jj: int|
                            0 <= jj < j && lower_of(#[trigger] dv.words[jj]) == w)),
                decreases nw - j,
            {
                let key = to_lowercase(defs[d].words[j].as_str());
                proof {
                    assert(defs@[d as int].words@[j as int]@ == dv.words[j as int]);
                    assert(key@ == lower_of(dv.words[j as int]));
                }
                let found = find_row(&rows, &key);
                let ghost old_rows = rows.deep_view();
                match found {
                    Some(k) => {
                        proof {
                            lemma_lookup_at_key(old_rows, k as int);
                        }
                        if !has_tag_named(&rows[k].tags, &tag.name) {
                            let word_keep = rows[k].word.clone();
                            let mut tags_new = clone_tags(&rows[k].tags);
                            tags_new.push(tag.clone());
                            let ghost appended = old_rows[k as int].tags.push(tag@);
                            rows[k] = TagRow { word: word_keep, tags: tags_new };
                            proof {
                                assert(tags_new.deep_view() =~= appended);
                                assert(rows.deep_view() =~= old_rows.update(
                                    k as int,
                                    TagRowView { word: key@, tags: appended },
                                ));
                                lemma_lookup_update(
                                    old_rows,
                                    k as int,
                                    TagRowView { word: key@, tags: appended },
                                );
                                lemma_lookup_at_key(rows.deep_view(), k as int);
                                assert forall|w: Seq<char>, nm: Seq<char>|
                                    #[trigger] tag_in(lookup_rows(rows.deep_view(), w), nm)
                                        <==> (def_covers(defs.deep_view().take(d as int), w, nm)
                                        || (nm == dv.name && exists|jj: int|
                                        0 <= jj < j + 1 && lower_of(#[trigger] dv.words[jj])
                                            == w)) by {
                                    lemma_tag_in_push(old_rows[k as int].tags, tag@, nm);
                                    assert(tag_in(lookup_rows(old_rows, w), nm) <==> (
                                    def_covers(defs.deep_view().take(d as int), w, nm) || (nm
                                        == dv.name && exists|jj: int|
                                        0 <= jj < j && lower_of(#[trigger] dv.words[jj]) == w)));
                                    if w == key@ {
                                        assert(lookup_rows(rows.deep_view(), w) == appended);
                                        assert(lower_of(dv.words[j as int]) == w);
                                    } else {
                                        assert(lookup_rows(rows.deep_view(), w) == lookup_rows(
                                            old_rows,
                                            w,
                                        ));
                                        assert forall|jj: int|
                                            0 <= jj < j + 1 && lower_of(
                                                #[trigger] dv.words[jj],
                                            ) == w implies jj < j by {}
                                    }
                                }
                                assert forall|w: Seq<char>, k2: int|
                                    0 <= k2 < lookup_rows(rows.deep_view(), w).len() implies (
                                lookup_from_defs(
                                    defs.deep_view().take(d as int),
                                    w,
                                    #[trigger] lookup_rows(rows.deep_view(), w)[k2],
                                ) || (lookup_rows(rows.deep_view(), w)[k2] == def_tag(dv)
                                    && exists|jj: int|
                                    0 <= jj < j + 1 && lower_of(#[trigger] dv.words[jj])
                                        == w)) by {
                                    assert(0 <= k2 < lookup_rows(old_rows, w).len()
                                        ==> (lookup_from_defs(
                                        defs.deep_view().take(d as int),
                                        w,
                                        lookup_rows(old_rows, w)[k2],
                                    ) || (lookup_rows(old_rows, w)[k2] == def_tag(dv)
                                        && exists|jj: int|
                                        0 <= jj < j && lower_of(#[trigger] dv.words[jj]) == w)));
                                    if w == key@ {
                                        assert(lookup_rows(rows.deep_view(), w) == appended);
                                        assert(lookup_rows(old_rows, w) == old_rows[k as int].tags);
                                        if k2 < appended.len() - 1 {
                                            assert(appended[k2] == old_rows[k as int].tags[k2]);
                                        } else {
                                            assert(appended[k2] == tag@);
                                            assert(lower_of(dv.words[j as int]) == w);
                                        }
                                    } else {
                                        assert(lookup_rows(rows.deep_view(), w) == lookup_rows(
                                            old_rows,
                                            w,
                                        ));
                                    }
                                }
                            }
                        } else {
                            proof {
                                assert forall|w: Seq<char>, nm: Seq<char>|
                                    #[trigger] tag_in(lookup_rows(rows.deep_view(), w), nm)
                                        <==> (def_covers(defs.deep_view().take(d as int), w, nm)
                                        || (nm == dv.name && exists|jj: int|
                                        0 <= jj < j + 1 && lower_of(#[trigger] dv.words[jj])
                                            == w)) by {
                                    assert(tag_in(lookup_rows(old_rows, w), nm) <==> (
                                    def_covers(defs.deep_view().take(d as int), w, nm) || (nm
                                        == dv.name && exists|jj: int|
                                        0 <= jj < j && lower_of(#[trigger] dv.words[jj]) == w)));
                                    assert(rows.deep_view() == old_rows);
                                    if nm == dv.name && exists|jj: int|
                                        0 <= jj < j + 1 && lower_of(#[trigger] dv.words[jj])
                                            == w {
                                        let jj = choose|jj: int|
                                            0 <= jj < j + 1 && lower_of(
                                                #[trigger] dv.words[jj],
                                            ) == w;
                                        if jj == j as int {
                                            assert(w == key@);
                                            assert(lookup_rows(rows.deep_view(), w) == old_rows[k as int].tags);
                                            assert(tag_in(old_rows[k as int].tags, tag@.name));
                                        }
                                    }
                                }
                                assert forall|w: Seq<char>, k2: int|
                                    0 <= k2 < lookup_rows(rows.deep_view(), w).len() implies (
                                lookup_from_defs(
                                    defs.deep_view().take(d as int),
                                    w,
                                    #[trigger] lookup_rows(rows.deep_view(), w)[k2],
                                ) || (lookup_rows(rows.deep_view(), w)[k2] == def_tag(dv)
                                    && exists|jj: int|
                                    0 <= jj < j + 1 && lower_of(#[trigger] dv.words[jj])
                                        == w)) by {
                                    assert(rows.deep_view() == old_rows);
                                    assert(0 <= k2 < lookup_rows(old_rows, w).len()
                                        ==> (lookup_from_defs(
                                        defs.deep_view().take(d as int),
                                        w,
                                        lookup_rows(old_rows, w)[k2],
                                    ) || (lookup_rows(old_rows, w)[k2] == def_tag(dv)
                                        && exists|jj: int|
                                        0 <= jj < j && lower_of(#[trigger] dv.words[jj]) == w)));
                                }
                            }
                        }
                    },
                    None => {
                        proof {
                            lemma_lookup_no_key(old_rows, key@);
                        }
                        let mut fresh_tags: Vec<Tag> = Vec::new();
                        fresh_tags.push(tag.clone());
                        let word_new = string_clone(&key);
                        rows.push(TagRow { word: word_new, tags: fresh_tags });
                        proof {
                            assert(fresh_tags.deep_view() =~= seq![tag@]);
                            assert(rows.deep_view() =~= old_rows.push(
                                TagRowView { word: key@, tags: seq![tag@] },
                            ));
                            lemma_lookup_push(
                                old_rows,
                                TagRowView { word: key@, tags: seq![tag@] },
                            );
                            assert forall|w: Seq<char>, nm: Seq<char>|
                                #[trigger] tag_in(lookup_rows(rows.deep_view(), w), nm)
                                    <==> (def_covers(defs.deep_view().take(d as int), w, nm) || (
                                nm == dv.name && exists|jj: int|
                                    0 <= jj < j + 1 && lower_of(#[trigger] dv.words[jj])
                                        == w)) by {
                                assert(tag_in(lookup_rows(old_rows, w), nm) <==> (
                                def_covers(defs.deep_view().take(d as int), w, nm) || (nm
                                    == dv.name && exists|jj: int|
                                    0 <= jj < j && lower_of(#[trigger] dv.words[jj]) == w)));
                                if w == key@ {
                                    assert(lookup_rows(rows.deep_view(), w) == seq![tag@]);
                                    assert(lookup_rows(old_rows, w) == Seq::<TagView>::empty());
                                    assert(!tag_in(lookup_rows(old_rows, w), nm));
                                    assert(lower_of(dv.words[j as int]) == w);
                                    assert forall|nm2: Seq<char>|
                                        tag_in(seq![tag@], nm2) implies nm2 == tag@.name by {
                                        let i2 = choose|i2: int|
                                            0 <= i2 < 1 && seq![tag@][i2].name == nm2;
                                    }
                                    if nm == tag@.name {
                                        assert(seq![tag@][0].name == nm);
                                        assert(tag_in(seq![tag@], nm));
                                    }
                                } else {
                                    assert(lookup_rows(rows.deep_view(), w) == lookup_rows(
                                        old_rows,
                                        w,
                                    ));
                                    assert forall|jj: int|
                                        0 <= jj < j + 1 && lower_of(#[trigger] dv.words[jj]) == w
                                        implies jj < j by {}
                                }
                            }
                            assert forall|w: Seq<char>, k2: int|
                                0 <= k2 < lookup_rows(rows.deep_view(), w).len() implies (
                            lookup_from_defs(
                                defs.deep_view().take(d as int),
                                w,
                                #[trigger] lookup_rows(rows.deep_view(), w)[k2],
                            ) || (lookup_rows(rows.deep_view(), w)[k2] == def_tag(dv)
                                && exists|jj: int|
                                0 <= jj < j + 1 && lower_of(#[trigger] dv.words[jj])
                                    == w)) by {
                                assert(0 <= k2 < lookup_rows(old_rows, w).len()
                                    ==> (lookup_from_defs(
                                    defs.deep_view().take(d as int),
                                    w,
                                    lookup_rows(old_rows, w)[k2],
                                ) || (lookup_rows(old_rows, w)[k2] == def_tag(dv)
                                    && exists|jj: int|
                                    0 <= jj < j && lower_of(#[trigger] dv.words[jj]) == w)));
                                if w == key@ {
                                    assert(lookup_rows(rows.deep_view(), w) == seq![tag@]);
                                    assert(lookup_rows(rows.deep_view(), w)[k2] == tag@);
                                    assert(lower_of(dv.words[j as int]) == w);
                                } else {
                                    assert(lookup_rows(rows.deep_view(), w) == lookup_rows(
                                        old_rows,
                                        w,
                                    ));
                                }
                            }
                        }
                    },
                }
                j = j + 1;
            }
            proof {
                lemma_def_covers_take_succ(defs.deep_view(), d as int);
                lemma_lookup_from_defs_take_succ(defs.deep_view(), d as int);
                assert forall|w: Seq<char>, nm: Seq<char>|
                    #[trigger] tag_in(lookup_rows(rows.deep_view(), w), nm) <==> def_covers(
                        defs.deep_view().take(d + 1),
                        w,
                        nm,
                    ) by {}
                assert forall|w: Seq<char>, k: int|
                    0 <= k < lookup_rows(rows.deep_view(), w).len() implies lookup_from_defs(
                    defs.deep_view().take(d + 1),
                    w,
                    #[trigger] lookup_rows(rows.deep_view(), w)[k],
                ) by {}
            }
            d = d + 1;
        }
        proof {
            assert(defs.deep_view().take(nd as int) =~= defs.deep_view());
        }
        let r = TagMatcher { rows, available };
        r
    }

    /// The tags of `word`, looked up case-insensitively.
    pub fn get_tags(&self, word: &str) -> (r: Vec<Tag>)
        ensures
            r.deep_view() == self.lookup_spec(lower_of(word@)),
    {
        let key = to_lowercase(word);
        let n = self.rows.len();
        let mut i: usize = 0;
        proof {
            assert(self.rows_spec().skip(0) =~= self.rows_spec());
        }
        while i < n
            invariant
                n == self.rows@.len(),
                0 <= i <= n,
                key@ == lower_of(word@),
                lookup_rows(self.rows_spec().skip(i as int), key@) == lookup_rows(
                    self.rows_spec(),
                    key@,
                ),
            decreases n - i,
        {
            proof {
                assert(self.rows_spec().skip(i as int)[0] == self.rows_spec()[i as int]);
                assert(self.rows_spec().skip(i as int).drop_first() =~= self.rows_spec().skip(
                    i + 1,
                ));
            }
            if str_eq(self.rows[i].word.as_str(), key.as_str()) {
                return clone_tags(&self.rows[i].tags);
            }
            i = i + 1;
        }
        proof {
            assert(self.rows_spec().skip(n as int) =~= Seq::<TagRowView>::empty());
        }
        Vec::new()
    }

    /// The catalog tags, in catalog order.
    pub fn available_tags(&self) -> (r: &Vec<Tag>)
        ensures
            r.deep_view() == self.available_spec(),
    {
        &self.available
    }

    /// The first catalog tag carrying `name`, if any.
    pub fn get_tag_by_name(&self, name: &str) -> (r: Option<&Tag>)
        ensures
            match r {
                Some(t) => {
                    &&& tag_in(self.available_spec(), name@)
                    &&& t@.name == name@
                    &&& exists|i: int|
                        0 <= i < self.available_spec().len() && #[trigger] self.available_spec()[i]
                            == t@ && (forall|j: int|
                            0 <= j < i ==> (#[trigger] self.available_spec()[j]).name != name@)
                },
                None => !tag_in(self.available_spec(), name@),
            },
    {
        let n = self.available.len();
        let mut i: usize = 0;
        while i < n
            invariant
                n == self.available@.len(),
                0 <= i <= n,
                forall|k: int| 0 <= k < i ==> (#[trigger] self.available.deep_view()[k]).name
                    != name@,
            decreases n - i,
        {
            if str_eq(self.available[i].name.as_str(), name) {
                proof {
                    assert(self.available_spec()[i as int].name == name@);
                    assert(0 <= i < self.available_spec().len() && self.available_spec()[i as int]
                        == self.available@[i as int]@ && (forall|j: int|
                        0 <= j < i ==> (#[trigger] self.available_spec()[j]).name != name@));
                }
                return Some(&self.available[i]);
            }
            i = i + 1;
        }
        None
    }
}

// ----------------------------------------------------------------------------
// WordAnalyzer: counts tokens and ranks the distinct words.
// ----------------------------------------------------------------------------

struct CountEntry {
    word: String,
    count: usize,
}

/// Counts word occurrences and produces the ranked frequency table.
pub struct WordAnalyzer {
    counts: Vec<CountEntry>,
    tag_matcher: Option<TagMatcher>,
}

/// The tags a (possibly absent) matcher assigns to `w`.
pub open spec fn tags_for(matcher: Option<TagMatcher>, w: Seq<char>) -> Seq<TagView> {
    match matcher {
        Some(m) => m.lookup_spec(lower_of(w)),
        None => Seq::<TagView>::empty(),
    }
}

/// What it means for `table` to rank the rows `rows`: same (word, count)
/// pairs, distinct words, dense 1-based ranks, counts non-increasing, ties
/// broken by the rows' own order, and tags as the matcher assigns them.
pub open spec fn is_ranked_view_of(
    rows: Seq<(Seq<char>, nat)>,
    matcher: Option<TagMatcher>,
    table: Seq<WordCountView>,
) -> bool {
    &&& table.len() == rows.len()
    &&& forall|i: int| 0 <= i < table.len() ==> (#[trigger] table[i]).rank == i + 1
    &&& forall|i: int|
        0 <= i < table.len() ==> (#[trigger] table[i]).tags == tags_for(matcher, table[i].word)
    &&& forall|i: int|
        0 <= i < table.len() ==> exists|k: int|
            0 <= k < rows.len() && #[trigger] rows[k] == ((#[trigger] table[i]).word, table[i].count)
    &&& forall|k: int|
        0 <= k < rows.len() ==> exists|i: int|
            0 <= i < table.len() && (#[trigger] rows[k]).0 == (#[trigger] table[i]).word && rows[k].1 == table[i].count
    &&& forall|i: int, j: int|
        0 <= i < j < table.len() ==> (#[trigger] table[i]).count >= (#[trigger] table[j]).count
    &&& forall|i: int, j: int|
        0 <= i < j < table.len() && (#[trigger] table[i]).count == (#[trigger] table[j]).count
            ==> first_index(pair_words(rows), table[i].word) < first_index(
            pair_words(rows),
            table[j].word,
        )
    &&& forall|i: int, j: int|
        0 <= i < table.len() && 0 <= j < table.len() && i != j ==> (#[trigger] table[i]).word != (
        #[trigger] table[j]).word
}

/// What it means for `table` to be the ranked frequency table of `tokens`.
pub open spec fn is_ranked_table_of(
    tokens: Seq<Seq<char>>,
    matcher: Option<TagMatcher>,
    table: Seq<WordCountView>,
) -> bool {
    is_ranked_view_of(base_counts(tokens), matcher, table)
}

/// The sum of the counts of a table.
pub open spec fn sum_wc(table: Seq<WordCountView>) -> nat
    decreases table.len(),
{
    if table.len() == 0 {
        0
    } else {
        table[0].count + sum_wc(table.drop_first())
    }
}

/// The words of a table, in rank order.
pub open spec fn words_of(table: Seq<WordCountView>) -> Seq<Seq<char>> {
    table.map_values(|wc: WordCountView| wc.word)
}

struct RankEntry {
    word: String,
    count: usize,
    pos: usize,
}

impl TotalOrdered for RankEntry {
    /// Count descending; equal counts ordered by first occurrence (`pos`).
    closed spec fn le(self, other: Self) -> bool {
        self.count > other.count || (self.count == other.count && self.pos <= other.pos)
    }

    proof fn le_total(a: Self, b: Self) {
    }

    proof fn le_trans(a: Self, b: Self, c: Self) {
    }

    fn le_exec(&self, other: &Self) -> (r: bool) {
        self.count > other.count || (self.count == other.count && self.pos <= other.pos)
    }
}

impl WordAnalyzer {
    /// The analyzer's current frequency rows: distinct words with counts, in
    /// first-occurrence order.
    pub closed spec fn counts_view(self) -> Seq<(Seq<char>, nat)> {
        self.counts@.map_values(|e: CountEntry| (e.word@, e.count as nat))
    }

    /// The matcher the analyzer tags words with, if any.
    pub closed spec fn matcher_spec(self) -> Option<TagMatcher> {
        self.tag_matcher
    }

    /// The sum of all stored counts.
    pub open spec fn total_spec(self) -> nat {
        sum_pairs(self.counts_view())
    }

    /// The number of distinct words stored.
    pub open spec fn unique_spec(self) -> nat {
        self.counts_view().len()
    }

    /// The analyzer's invariant: its words are distinct and their counts sum
    /// to a machine-representable total.
    pub open spec fn wf(self) -> bool {
        &&& sum_pairs(self.counts_view()) <= usize::MAX
        &&& pair_words(self.counts_view()).no_duplicates()
    }

    /// A fresh analyzer with no counts and no tag matcher.
    pub fn new() -> (r: WordAnalyzer)
        ensures
            r.counts_view() == Seq::<(Seq<char>, nat)>::empty(),
            r.matcher_spec() is None,
            r.wf(),
    {
        let r = WordAnalyzer { counts: Vec::new(), tag_matcher: None };
        proof {
            assert(r.counts_view() =~= Seq::<(Seq<char>, nat)>::empty());
            assert(pair_words(r.counts_view()) =~= Seq::<Seq<char>>::empty());
        }
        r
    }

    /// A fresh analyzer that will tag ranked words through `tag_matcher`.
    pub fn with_tags(tag_matcher: TagMatcher) -> (r: WordAnalyzer)
        ensures
            r.counts_view() == Seq::<(Seq<char>, nat)>::empty(),
            r.matcher_spec() == Some(tag_matcher),
            r.wf(),
    {
        let r = WordAnalyzer { counts: Vec::new(), tag_matcher: Some(tag_matcher) };
        proof {
            assert(r.counts_view() =~= Seq::<(Seq<char>, nat)>::empty());
            assert(pair_words(r.counts_view()) =~= Seq::<Seq<char>>::empty());
        }
        r
    }

    /// The matcher the analyzer tags words with, if any.
    pub fn tag_matcher(&self) -> (r: Option<&TagMatcher>)
        ensures
            match r {
                Some(m) => self.matcher_spec() == Some(*m),
                None => self.matcher_spec() is None,
            },
    {
        self.tag_matcher.as_ref()
    }

    /// Counts the given tokens (replacing any previous counts) and returns
    /// their ranked frequency table.
    pub fn analyze(&mut self, words: Vec<String>) -> (r: Vec<WordCount>)
        ensures
            final(self).matcher_spec() == old(self).matcher_spec(),
            final(self).counts_view() == base_counts(words.deep_view()),
            final(self).wf(),
            final(self).total_spec() == words.deep_view().len(),
            final(self).unique_spec() == firsts(words.deep_view()).len(),
            is_ranked_table_of(words.deep_view(), old(self).matcher_spec(), r.deep_view()),
    {
        self.counts.clear();
        let ghost tokens = words.deep_view();
        let n = words.len();
        let mut i: usize = 0;
        proof {
            assert(tokens.len() == words@.len());
            assert(tokens.take(0) =~= Seq::<Seq<char>>::empty());
            assert(self.counts_view() =~= Seq::<(Seq<char>, nat)>::empty());
            assert(base_counts(Seq::<Seq<char>>::empty()) =~= Seq::<(Seq<char>, nat)>::empty());
        }
        while i < n
            invariant
                n == words@.len(),
                tokens == words.deep_view(),
                tokens.len() == n,
                0 <= i <= n,
                self.counts_view() == base_counts(tokens.take(i as int)),
                self.tag_matcher == old(self).tag_matcher,
            decreases n - i,
        {
            let ghost pre = tokens.take(i as int);
            let ghost cur = tokens.take(i + 1);
            proof {
                assert(tokens[i as int] == words@[i as int]@);
                lemma_firsts_props(pre);
                lemma_base_counts_words(pre);
            }
            let found = Self::find_entry(&self.counts, &words[i]);
            match found {
                Some(k) => {
                    proof {
                        assert(pair_words(self.counts_view())[k as int] == firsts(pre)[k as int]);
                        assert(firsts(pre)[k as int] == words@[i as int]@);
                        lemma_count_in_bounds(pre, tokens[i as int]);
                        assert(self.counts_view()[k as int].1 == count_in(pre, tokens[i as int]));
                        assert(self.counts@[k as int].count < n);
                    }
                    let c = self.counts[k].count;
                    let w = self.counts[k].word.clone();
                    let ghost before = self.counts@;
                    self.counts[k] = CountEntry { word: w, count: c + 1 };
                    proof {
                        lemma_base_counts_step_seen(tokens, i as int, k as int);
                        assert(self.counts_view() =~= base_counts(pre).update(
                            k as int,
                            (tokens[i as int], (count_in(pre, tokens[i as int]) + 1) as nat),
                        ));
                    }
                },
                None => {
                    proof {
                        assert forall|k: int|
                            0 <= k < firsts(pre).len() implies firsts(pre)[k] != words@[i as int]@ by {
                            assert(pair_words(self.counts_view())[k] == firsts(pre)[k]);
                        }
                        assert(!firsts(pre).contains(tokens[i as int]));
                    }
                    let w = words[i].clone();
                    self.counts.push(CountEntry { word: w, count: 1 });
                    proof {
                        lemma_base_counts_step_new(tokens, i as int);
                        assert(self.counts_view() =~= base_counts(pre).push(
                            (tokens[i as int], 1nat),
                        ));
                    }
                },
            }
            i = i + 1;
        }
        proof {
            assert(tokens.take(n as int) =~= tokens);
            lemma_sum_pairs_base(tokens);
            lemma_firsts_props(tokens);
            lemma_base_counts_words(tokens);
        }
        self.get_ranked_words()
    }

    /// Finds the row of `w`, if one exists.
    fn find_entry(counts: &Vec<CountEntry>, w: &String) -> (r: Option<usize>)
        ensures
            match r {
                Some(k) => k < counts@.len() && counts@.map_values(
                    |e: CountEntry| (e.word@, e.count as nat),
                )[k as int].0 == w@,
                None => forall|k: int|
                    0 <= k < counts@.len() ==> (#[trigger] counts@[k]).word@ != w@,
            },
    {
        let n = counts.len();
        let mut i: usize = 0;
        while i < n
            invariant
                n == counts@.len(),
                0 <= i <= n,
                forall|k: int| 0 <= k < i ==> counts@[k].word@ != w@,
            decreases n - i,
        {
            if counts[i].word == *w {
                return Some(i);
            }
            i = i + 1;
        }
        None
    }

    /// The ranked frequency table of the stored counts: sorted by count
    /// descending, ties in first-occurrence order, ranks dense from 1, tags
    /// attached per word.
    pub fn get_ranked_words(&self) -> (r: Vec<WordCount>)
        requires
            self.wf(),
        ensures
            is_ranked_view_of(self.counts_view(), self.matcher_spec(), r.deep_view()),
    {
        let ghost rows = self.counts_view();
        let n = self.counts.len();
        let mut entries: Vec<RankEntry> = Vec::new();
        let mut i: usize = 0;
        while i < n
            invariant
                n == self.counts@.len(),
                0 <= i <= n,
                entries@.len() == i,
                forall|k: int|
                    0 <= k < i ==> {
                        &&& (#[trigger] entries@[k]).pos == k
                        &&& entries@[k].word@ == self.counts_view()[k].0
                        &&& entries@[k].count as nat == self.counts_view()[k].1
                    },
            decreases n - i,
        {
            entries.push(
                RankEntry {
                    word: self.counts[i].word.clone(),
                    count: self.counts[i].count,
                    pos: i,
                },
            );
            i = i + 1;
        }
        let ghost orig = entries@;
        proof {
            assert(orig.no_duplicates()) by {
                assert forall|a: int, b: int|
                    0 <= a < b < orig.len() implies orig[a] != orig[b] by {
                    assert(orig[a].pos == a && orig[b].pos == b);
                }
            }
        }
        insertion_sort(&mut entries);
        proof {
            broadcast use vstd::seq_lib::group_to_multiset_ensures;

            orig.lemma_multiset_has_no_duplicates();
            entries@.lemma_multiset_has_no_duplicates_conv();
            assert forall|idx: int| 0 <= idx < entries@.len() implies orig.contains(
                #[trigger] entries@[idx],
            ) by {
                assert(entries@.contains(entries@[idx]));
                assert(entries@.to_multiset().count(entries@[idx]) > 0);
            }
            assert forall|k: int| 0 <= k < orig.len() implies entries@.contains(
                #[trigger] orig[k],
            ) by {
                assert(orig.contains(orig[k]));
                assert(orig.to_multiset().count(orig[k]) > 0);
            }
        }
        let mut out: Vec<WordCount> = Vec::new();
        let mut j: usize = 0;
        while j < n
            invariant
                n == entries@.len() == rows.len(),
                rows == self.counts_view(),
                0 <= j <= n,
                out.deep_view().len() == j,
                self.wf(),
                sorted(entries@),
                entries@.no_duplicates(),
                orig.len() == n,
                forall|k: int|
                    0 <= k < n ==> {
                        &&& (#[trigger] orig[k]).pos == k
                        &&& orig[k].word@ == rows[k].0
                        &&& orig[k].count as nat == rows[k].1
                    },
                forall|idx: int|
                    0 <= idx < entries@.len() ==> orig.contains(#[trigger] entries@[idx]),
                forall|k: int| 0 <= k < n ==> entries@.contains(#[trigger] orig[k]),
                forall|k: int|
                    0 <= k < j ==> {
                        &&& (#[trigger] out.deep_view()[k]).word == entries@[k].word@
                        &&& out.deep_view()[k].count == entries@[k].count as nat
                        &&& out.deep_view()[k].rank == k + 1
                        &&& out.deep_view()[k].tags == tags_for(
                            self.matcher_spec(),
                            out.deep_view()[k].word,
                        )
                    },
            decreases n - j,
        {
            let tags = match &self.tag_matcher {
                Some(m) => m.get_tags(entries[j].word.as_str()),
                None => Vec::new(),
            };
            proof {
                assert(tags.deep_view() =~= tags_for(
                    self.matcher_spec(),
                    entries@[j as int].word@,
                ));
            }
            let wc = WordCount {
                word: entries[j].word.clone(),
                count: entries[j].count,
                rank: j + 1,
                tags,
            };
            let ghost prev = out.deep_view();
            out.push(wc);
            proof {
                assert(out.deep_view() =~= prev.push(wc@));
            }
            j = j + 1;
        }
        proof {
            self.lemma_assemble_table(rows, orig, entries@, out.deep_view());
        }
        out
    }

    /// Knits the loop facts into the ranked-table predicate.
    #[verifier::rlimit(100)]
    proof fn lemma_assemble_table(
        self,
        rows: Seq<(Seq<char>, nat)>,
        orig: Seq<RankEntry>,
        es: Seq<RankEntry>,
        table: Seq<WordCountView>,
    )
        requires
            self.wf(),
            rows == self.counts_view(),
            orig.len() == rows.len(),
            es.len() == rows.len(),
            table.len() == es.len(),
            sorted(es),
            es.no_duplicates(),
            forall|k: int|
                0 <= k < orig.len() ==> {
                    &&& (#[trigger] orig[k]).pos == k
                    &&& orig[k].word@ == rows[k].0
                    &&& orig[k].count as nat == rows[k].1
                },
            forall|idx: int| 0 <= idx < es.len() ==> orig.contains(#[trigger] es[idx]),
            forall|k: int| 0 <= k < orig.len() ==> es.contains(#[trigger] orig[k]),
            forall|k: int|
                0 <= k < table.len() ==> {
                    &&& (#[trigger] table[k]).word == es[k].word@
                    &&& table[k].count == es[k].count as nat
                    &&& table[k].rank == k + 1
                    &&& table[k].tags == tags_for(self.matcher_spec(), table[k].word)
                },
        ensures
            is_ranked_view_of(rows, self.matcher_spec(), table),
    {
        // every sorted entry mirrors the row at its recorded position
        assert forall|idx: int| 0 <= idx < es.len() implies {
            &&& 0 <= (#[trigger] es[idx]).pos < rows.len()
            &&& rows[es[idx].pos as int].0 == es[idx].word@
            &&& rows[es[idx].pos as int].1 == es[idx].count as nat
        } by {
            assert(orig.contains(es[idx]));
            let k = choose|k: int| 0 <= k < orig.len() && orig[k] == es[idx];
            assert(orig[k].pos == k);
        }
        // every table row comes from `rows`
        assert forall|i: int| 0 <= i < table.len() implies exists|k: int|
            0 <= k < rows.len() && #[trigger] rows[k] == ((#[trigger] table[i]).word, table[i].count) by {
            let k = es[i].pos as int;
            assert(rows[k] == (table[i].word, table[i].count));
        }
        // every row appears in the table
        assert forall|k: int| 0 <= k < rows.len() implies exists|i: int|
            0 <= i < table.len() && (#[trigger] rows[k]).0 == table[i].word && rows[k].1 == table[i].count by {
            assert(es.contains(orig[k]));
            let i = choose|i: int| 0 <= i < es.len() && es[i] == orig[k];
            assert(table[i].word == rows[k].0 && table[i].count == rows[k].1);
        }
        // counts never increase
        assert forall|i: int, j: int| 0 <= i < j < table.len() implies (#[trigger] table[i]).count
            >= (#[trigger] table[j]).count by {
            assert(es[i].le(es[j]));
        }
        // positions are unique among the sorted entries
        assert forall|i: int, j: int|
            0 <= i < es.len() && 0 <= j < es.len() && i != j implies (#[trigger] es[i]).pos != (
        #[trigger] es[j]).pos by {
            if es[i].pos == es[j].pos {
                assert(orig.contains(es[i]));
                assert(orig.contains(es[j]));
                let k1 = choose|k: int| 0 <= k < orig.len() && orig[k] == es[i];
                let k2 = choose|k: int| 0 <= k < orig.len() && orig[k] == es[j];
                assert(orig[k1].pos == k1 && orig[k2].pos == k2);
                assert(k1 == k2);
                assert(es[i] == es[j]);
            }
        }
        // ties are ordered by first occurrence among the rows
        assert forall|i: int, j: int|
            0 <= i < j < table.len() && (#[trigger] table[i]).count == (
        #[trigger] table[j]).count implies first_index(pair_words(rows), table[i].word)
            < first_index(pair_words(rows), table[j].word) by {
            assert(es[i].le(es[j]));
            assert(es[i].pos <= es[j].pos);
            assert(es[i].pos != es[j].pos);
            assert(pair_words(rows)[es[i].pos as int] == rows[es[i].pos as int].0);
            assert(pair_words(rows)[es[j].pos as int] == rows[es[j].pos as int].0);
            lemma_first_index_unique(pair_words(rows), es[i].pos as int);
            lemma_first_index_unique(pair_words(rows), es[j].pos as int);
        }
        // words are pairwise distinct
        assert forall|i: int, j: int|
            0 <= i < table.len() && 0 <= j < table.len() && i != j implies (
        #[trigger] table[i]).word != (#[trigger] table[j]).word by {
            if table[i].word == table[j].word {
                assert(es[i].pos != es[j].pos);
                assert(pair_words(rows)[es[i].pos as int] == rows[es[i].pos as int].0);
                assert(pair_words(rows)[es[j].pos as int] == rows[es[j].pos as int].0);
                assert(pair_words(rows)[es[i].pos as int] == pair_words(rows)[es[j].pos as int]);
                assert(pair_words(rows).no_duplicates());
            }
        }
    }

    /// Sums every stored count.
    pub fn total_words(&self) -> (r: usize)
        requires
            self.wf(),
        ensures
            r as nat == self.total_spec(),
    {
        let n = self.counts.len();
        let mut sum: usize = 0;
        let mut i: usize = 0;
        proof {
            assert(self.counts_view().take(0) =~= Seq::<(Seq<char>, nat)>::empty());
        }
        while i < n
            invariant
                n == self.counts@.len(),
                0 <= i <= n,
                sum_pairs(self.counts_view()) <= usize::MAX,
                sum as nat == sum_pairs(self.counts_view().take(i as int)),
            decreases n - i,
        {
            proof {
                lemma_sum_pairs_take_succ(self.counts_view(), i as int);
                lemma_sum_pairs_take_le(self.counts_view(), i + 1);
                assert(self.counts_view()[i as int].1 == self.counts@[i as int].count as nat);
            }
            sum = sum + self.counts[i].count;
            i = i + 1;
        }
        proof {
            assert(self.counts_view().take(n as int) =~= self.counts_view());
        }
        sum
    }

    /// The number of distinct words counted.
    pub fn unique_words(&self) -> (r: usize)
        ensures
            r as nat == self.unique_spec(),
    {
        self.counts.len()
    }
}

impl Default for WordAnalyzer {
    /// The same analyzer `new` builds: no counts, no tag matcher.
    fn default() -> (r: WordAnalyzer)
        ensures
            r.counts_view() == Seq::<(Seq<char>, nat)>::empty(),
            r.matcher_spec() is None,
            r.wf(),
    {
        WordAnalyzer::new()
    }
}

/// Prefix sums grow by exactly the next count.
proof fn lemma_sum_pairs_take_succ(s: Seq<(Seq<char>, nat)>, i: int)
    requires
        0 <= i < s.len(),
    ensures
        sum_pairs(s.take(i + 1)) == sum_pairs(s.take(i)) + s[i].1,
    decreases i,
{
    if i == 0 {
        assert(s.take(0) =~= Seq::<(Seq<char>, nat)>::empty());
        assert(s.take(1)[0] == s[0]);
        assert(s.take(1).drop_first() =~= Seq::<(Seq<char>, nat)>::empty());
    } else {
        let t = s.drop_first();
        lemma_sum_pairs_take_succ(t, i - 1);
        assert(s.take(i + 1)[0] == s[0]);
        assert(s.take(i)[0] == s[0]);
        assert(s.take(i + 1).drop_first() =~= t.take(i));
        assert(s.take(i).drop_first() =~= t.take(i - 1));
        assert(t[i - 1] == s[i]);
    }
}

/// A prefix never sums to more than the whole.
proof fn lemma_sum_pairs_take_le(s: Seq<(Seq<char>, nat)>, i: int)
    requires
        0 <= i <= s.len(),
    ensures
        sum_pairs(s.take(i)) <= sum_pairs(s),
    decreases s.len() - i,
{
    if i == s.len() {
        assert(s.take(i) =~= s);
    } else {
        lemma_sum_pairs_take_succ(s, i);
        lemma_sum_pairs_take_le(s, i + 1);
    }
}

// ----------------------------------------------------------------------------
// Laws of the ranked table.
// ----------------------------------------------------------------------------

/// Bridges a table whose counts are occurrence counts to the word-list sum.
proof fn lemma_sum_wc_bridge(tokens: Seq<Seq<char>>, table: Seq<WordCountView>)
    requires
        forall|i: int|
            0 <= i < table.len() ==> (#[trigger] table[i]).count == count_in(
                tokens,
                table[i].word,
            ),
    ensures
        sum_wc(table) == sum_counts_over(tokens, words_of(table)),
    decreases table.len(),
{
    if table.len() > 0 {
        assert forall|i: int| 0 <= i < table.drop_first().len() implies (#[trigger] table.drop_first()[i]).count
            == count_in(tokens, table.drop_first()[i].word) by {
            assert(table.drop_first()[i] == table[i + 1]);
        }
        lemma_sum_wc_bridge(tokens, table.drop_first());
        assert(words_of(table).drop_first() =~= words_of(table.drop_first()));
        assert(words_of(table)[0] == table[0].word);
    }
}

/// Law: for any token stream, the ranked table's counts sum to the number of
/// tokens, and the table has exactly one row per distinct token.
pub proof fn lemma_table_totals(
    tokens: Seq<Seq<char>>,
    matcher: Option<TagMatcher>,
    table: Seq<WordCountView>,
)
    requires
        is_ranked_table_of(tokens, matcher, table),
    ensures
        sum_wc(table) == tokens.len(),
        table.len() == firsts(tokens).len(),
{
    let rows = base_counts(tokens);
    lemma_firsts_props(tokens);
    lemma_base_counts_words(tokens);
    assert forall|i: int| 0 <= i < table.len() implies (#[trigger] table[i]).count == count_in(
        tokens,
        table[i].word,
    ) by {
        let k = choose|k: int|
            0 <= k < rows.len() && rows[k] == (table[i].word, table[i].count);
        assert(rows[k].0 == firsts(tokens)[k] && rows[k].1 == count_in(tokens, firsts(tokens)[k]));
    }
    lemma_sum_wc_bridge(tokens, table);
    let ws = words_of(table);
    assert(ws.no_duplicates()) by {
        assert forall|a: int, b: int| 0 <= a < b < ws.len() implies ws[a] != ws[b] by {
            assert(ws[a] == table[a].word && ws[b] == table[b].word);
        }
    }
    assert forall|t: int| 0 <= t < tokens.len() implies ws.contains(#[trigger] tokens[t]) by {
        assert(tokens.contains(tokens[t]));
        assert(firsts(tokens).contains(tokens[t]));
        let k = choose|k: int|
            0 <= k < firsts(tokens).len() && firsts(tokens)[k] == tokens[t];
        assert(rows[k].0 == tokens[t]);
        let i = choose|i: int|
            0 <= i < table.len() && rows[k].0 == table[i].word && rows[k].1 == table[i].count;
        assert(ws[i] == tokens[t]);
    }
    lemma_sum_counts_over(tokens, ws);
}

/// Law: the ranks of a ranked table are exactly 1..=n in order, and counts
/// never increase as rank grows.
pub proof fn lemma_ranks_dense_counts_monotone(
    tokens: Seq<Seq<char>>,
    matcher: Option<TagMatcher>,
    table: Seq<WordCountView>,
)
    requires
        is_ranked_table_of(tokens, matcher, table),
    ensures
        forall|i: int| 0 <= i < table.len() ==> (#[trigger] table[i]).rank == i + 1,
        forall|i: int, j: int|
            0 <= i <= j < table.len() ==> (#[trigger] table[i]).count >= (
            #[trigger] table[j]).count,
{
}

/// Law: among rows of equal count, the earlier rank goes to the word that
/// first occurred earlier in the token stream (the documented tie-break).
pub proof fn lemma_equal_counts_first_occurrence(
    tokens: Seq<Seq<char>>,
    matcher: Option<TagMatcher>,
    table: Seq<WordCountView>,
    i: int,
    j: int,
)
    requires
        is_ranked_table_of(tokens, matcher, table),
        0 <= i < j < table.len(),
        table[i].count == table[j].count,
    ensures
        first_index(tokens, table[i].word) < first_index(tokens, table[j].word),
{
    let rows = base_counts(tokens);
    lemma_base_counts_words(tokens);
    lemma_firsts_props(tokens);
    let f = firsts(tokens);
    let w1 = table[i].word;
    let w2 = table[j].word;
    assert(f.contains(w1)) by {
        let k = choose|k: int| 0 <= k < rows.len() && rows[k] == (w1, table[i].count);
        assert(f[k] == w1);
    }
    assert(f.contains(w2)) by {
        let k = choose|k: int| 0 <= k < rows.len() && rows[k] == (w2, table[j].count);
        assert(f[k] == w2);
    }
    lemma_first_index_props(f, w1);
    lemma_first_index_props(f, w2);
    let k1 = first_index(f, w1);
    let k2 = first_index(f, w2);
    assert(k1 < k2);
    lemma_firsts_order(tokens, k1, k2);
}

/// Whether the lookup keys are pairwise distinct.
pub open spec fn rows_keys_distinct(rows: Seq<TagRowView>) -> bool {
    forall|k1: int, k2: int|
        0 <= k1 < k2 < rows.len() ==> (#[trigger] rows[k1]).word != (#[trigger] rows[k2]).word
}

/// Finds the row keyed by `key`, if any.
fn find_row(rows: &Vec<TagRow>, key: &String) -> (r: Option<usize>)
    ensures
        match r {
            Some(k) => k < rows@.len() && rows.deep_view()[k as int].word == key@,
            None => forall|k: int|
                0 <= k < rows@.len() ==> (#[trigger] rows.deep_view()[k]).word != key@,
        },
{
    let n = rows.len();
    let mut i: usize = 0;
    while i < n
        invariant
            n == rows@.len(),
            0 <= i <= n,
            forall|k: int| 0 <= k < i ==> (#[trigger] rows.deep_view()[k]).word != key@,
        decreases n - i,
    {
        if str_eq(rows[i].word.as_str(), key.as_str()) {
            proof {
                assert(rows.deep_view()[i as int].word == key@);
            }
            return Some(i);
        }
        i = i + 1;
    }
    None
}

/// Copies a string exactly.
fn string_clone(s: &String) -> (r: String)
    ensures
        r@ == s@,
{
    s.clone()
}

/// With distinct keys, looking a key up yields exactly its row's tags.
proof fn lemma_lookup_at_key(rows: Seq<TagRowView>, k: int)
    requires
        rows_keys_distinct(rows),
        0 <= k < rows.len(),
    ensures
        lookup_rows(rows, rows[k].word) == rows[k].tags,
    decreases rows.len(),
{
    if k == 0 {
    } else {
        assert(rows[0].word != rows[k].word);
        let t = rows.drop_first();
        assert(t[k - 1] == rows[k]);
        assert forall|k1: int, k2: int|
            0 <= k1 < k2 < t.len() implies (#[trigger] t[k1]).word != (#[trigger] t[k2]).word by {
            assert(t[k1] == rows[k1 + 1] && t[k2] == rows[k2 + 1]);
        }
        lemma_lookup_at_key(t, k - 1);
    }
}

/// Looking up an absent key yields nothing.
proof fn lemma_lookup_no_key(rows: Seq<TagRowView>, w: Seq<char>)
    requires
        forall|k: int| 0 <= k < rows.len() ==> (#[trigger] rows[k]).word != w,
    ensures
        lookup_rows(rows, w) == Seq::<TagView>::empty(),
    decreases rows.len(),
{
    if rows.len() > 0 {
        assert(rows[0].word != w);
        let t = rows.drop_first();
        assert forall|k: int| 0 <= k < t.len() implies (#[trigger] t[k]).word != w by {
            assert(t[k] == rows[k + 1]);
        }
        lemma_lookup_no_key(t, w);
    }
}

/// Replacing one row's tags (keeping its key) changes only that key's lookup.
proof fn lemma_lookup_update(rows: Seq<TagRowView>, k: int, row: TagRowView)
    requires
        rows_keys_distinct(rows),
        0 <= k < rows.len(),
        row.word == rows[k].word,
    ensures
        rows_keys_distinct(rows.update(k, row)),
        lookup_rows(rows.update(k, row), row.word) == row.tags,
        forall|w: Seq<char>|
            w != row.word ==> #[trigger] lookup_rows(rows.update(k, row), w) == lookup_rows(
                rows,
                w,
            ),
    decreases rows.len(),
{
    let upd = rows.update(k, row);
    assert forall|k1: int, k2: int|
        0 <= k1 < k2 < upd.len() implies (#[trigger] upd[k1]).word != (#[trigger] upd[k2]).word by {
        assert(upd[k1].word == rows[k1].word && upd[k2].word == rows[k2].word);
    }
    lemma_lookup_at_key(upd, k);
    assert(upd[k].word == row.word);
    assert forall|w: Seq<char>| w != row.word implies #[trigger] lookup_rows(upd, w)
        == lookup_rows(rows, w) by {
        lemma_lookup_other(rows, k, row, w);
    }
}

/// Helper for `lemma_lookup_update`: other keys see the old table.
proof fn lemma_lookup_other(rows: Seq<TagRowView>, k: int, row: TagRowView, w: Seq<char>)
    requires
        0 <= k < rows.len(),
        row.word == rows[k].word,
        w != row.word,
    ensures
        lookup_rows(rows.update(k, row), w) == lookup_rows(rows, w),
    decreases rows.len(),
{
    let upd = rows.update(k, row);
    if k == 0 {
        assert(upd[0].word == row.word);
        assert(upd.drop_first() =~= rows.drop_first());
    } else {
        assert(upd[0] == rows[0]);
        if rows[0].word == w {
        } else {
            assert(upd.drop_first() =~= rows.drop_first().update(k - 1, row));
            assert(rows.drop_first()[k - 1] == rows[k]);
            lemma_lookup_other(rows.drop_first(), k - 1, row, w);
        }
    }
}

/// Appending a row with a fresh key adds exactly that key's lookup.
proof fn lemma_lookup_push(rows: Seq<TagRowView>, row: TagRowView)
    requires
        rows_keys_distinct(rows),
        forall|k: int| 0 <= k < rows.len() ==> (#[trigger] rows[k]).word != row.word,
    ensures
        rows_keys_distinct(rows.push(row)),
        lookup_rows(rows.push(row), row.word) == row.tags,
        forall|w: Seq<char>|
            w != row.word ==> #[trigger] lookup_rows(rows.push(row), w) == lookup_rows(rows, w),
    decreases rows.len(),
{
    let p = rows.push(row);
    assert forall|k1: int, k2: int|
        0 <= k1 < k2 < p.len() implies (#[trigger] p[k1]).word != (#[trigger] p[k2]).word by {
        if k2 < p.len() - 1 {
            assert(p[k1] == rows[k1] && p[k2] == rows[k2]);
        } else {
            assert(p[k1] == rows[k1] && p[k2] == row);
        }
    }
    assert(p[p.len() - 1] == row);
    lemma_lookup_at_key(p, p.len() - 1);
    assert forall|w: Seq<char>| w != row.word implies #[trigger] lookup_rows(p, w) == lookup_rows(
        rows,
        w,
    ) by {
        lemma_lookup_push_other(rows, row, w);
    }
}

/// Helper for `lemma_lookup_push`: other keys see the old table.
proof fn lemma_lookup_push_other(rows: Seq<TagRowView>, row: TagRowView, w: Seq<char>)
    requires
        w != row.word,
    ensures
        lookup_rows(rows.push(row), w) == lookup_rows(rows, w),
    decreases rows.len(),
{
    let p = rows.push(row);
    if rows.len() == 0 {
        assert(p[0] == row);
        assert(p.drop_first() =~= Seq::<TagRowView>::empty());
        assert(lookup_rows(Seq::<TagRowView>::empty(), w) == Seq::<TagView>::empty());
    } else {
        assert(p[0] == rows[0]);
        if rows[0].word == w {
        } else {
            assert(p.drop_first() =~= rows.drop_first().push(row));
            lemma_lookup_push_other(rows.drop_first(), row, w);
        }
    }
}

/// Appending one tag to a list adds exactly its name to the name set.
proof fn lemma_tag_in_push(tags: Seq<TagView>, t: TagView, nm: Seq<char>)
    ensures
        tag_in(tags.push(t), nm) <==> (tag_in(tags, nm) || t.name == nm),
{
    let p = tags.push(t);
    if tag_in(p, nm) {
        let i = choose|i: int| 0 <= i < p.len() && p[i].name == nm;
        if i < p.len() - 1 {
            assert(tags[i].name == nm);
        }
    }
    if tag_in(tags, nm) {
        let i = choose|i: int| 0 <= i < tags.len() && tags[i].name == nm;
        assert(p[i].name == nm);
    }
    if t.name == nm {
        assert(p[p.len() - 1].name == nm);
    }
}

/// Extending the processed catalog by one definition extends tag provenance
/// by that definition's own tag over its own words.
proof fn lemma_lookup_from_defs_take_succ(ds: Seq<TagDefView>, d: int)
    requires
        0 <= d < ds.len(),
    ensures
        forall|w: Seq<char>, t: TagView|
            #[trigger] lookup_from_defs(ds.take(d + 1), w, t) <==> (lookup_from_defs(
                ds.take(d),
                w,
                t,
            ) || (t == def_tag(ds[d]) && exists|j: int|
                0 <= j < ds[d].words.len() && lower_of(#[trigger] ds[d].words[j]) == w)),
{
    assert forall|w: Seq<char>, t: TagView|
        #[trigger] lookup_from_defs(ds.take(d + 1), w, t) <==> (lookup_from_defs(ds.take(d), w, t)
        || (t == def_tag(ds[d]) && exists|j: int|
            0 <= j < ds[d].words.len() && lower_of(#[trigger] ds[d].words[j]) == w)) by {
        if lookup_from_defs(ds.take(d + 1), w, t) {
            let (dd, j) = choose|dd: int, j: int|
                0 <= dd < ds.take(d + 1).len() && 0 <= j < ds.take(d + 1)[dd].words.len()
                    && lower_of(#[trigger] ds.take(d + 1)[dd].words[j]) == w && t == def_tag(
                    ds.take(d + 1)[dd],
                );
            if dd < d {
                assert(ds.take(d)[dd] == ds.take(d + 1)[dd]);
                assert(lower_of(ds.take(d)[dd].words[j]) == w);
            } else {
                assert(ds.take(d + 1)[dd] == ds[d]);
                assert(lower_of(ds[d].words[j]) == w);
            }
        }
        if lookup_from_defs(ds.take(d), w, t) {
            let (dd, j) = choose|dd: int, j: int|
                0 <= dd < ds.take(d).len() && 0 <= j < ds.take(d)[dd].words.len() && lower_of(
                    #[trigger] ds.take(d)[dd].words[j],
                ) == w && t == def_tag(ds.take(d)[dd]);
            assert(ds.take(d + 1)[dd] == ds.take(d)[dd]);
            assert(lower_of(ds.take(d + 1)[dd].words[j]) == w);
        }
        if t == def_tag(ds[d]) && exists|j: int|
            0 <= j < ds[d].words.len() && lower_of(#[trigger] ds[d].words[j]) == w {
            let j = choose|j: int|
                0 <= j < ds[d].words.len() && lower_of(#[trigger] ds[d].words[j]) == w;
            assert(ds.take(d + 1)[d] == ds[d]);
            assert(lower_of(ds.take(d + 1)[d].words[j]) == w);
        }
    }
}

/// Extending the processed catalog by one definition extends coverage by that
/// definition's own words.
proof fn lemma_def_covers_take_succ(ds: Seq<TagDefView>, d: int)
    requires
        0 <= d < ds.len(),
    ensures
        forall|w: Seq<char>, nm: Seq<char>|
            #[trigger] def_covers(ds.take(d + 1), w, nm) <==> (def_covers(ds.take(d), w, nm) || (
            nm == ds[d].name && exists|j: int|
                0 <= j < ds[d].words.len() && lower_of(#[trigger] ds[d].words[j]) == w)),
{
    assert forall|w: Seq<char>, nm: Seq<char>|
        #[trigger] def_covers(ds.take(d + 1), w, nm) <==> (def_covers(ds.take(d), w, nm) || (nm
        == ds[d].name && exists|j: int|
            0 <= j < ds[d].words.len() && lower_of(#[trigger] ds[d].words[j]) == w)) by {
        if def_covers(ds.take(d + 1), w, nm) {
            let (dd, j) = choose|dd: int, j: int|
                0 <= dd < ds.take(d + 1).len() && 0 <= j < ds.take(d + 1)[dd].words.len()
                    && ds.take(d + 1)[dd].name == nm && lower_of(
                    #[trigger] ds.take(d + 1)[dd].words[j],
                ) == w;
            if dd < d {
                assert(ds.take(d)[dd] == ds.take(d + 1)[dd]);
                assert(lower_of(ds.take(d)[dd].words[j]) == w);
            } else {
                assert(ds.take(d + 1)[dd] == ds[d]);
                assert(lower_of(ds[d].words[j]) == w);
            }
        }
        if def_covers(ds.take(d), w, nm) {
            let (dd, j) = choose|dd: int, j: int|
                0 <= dd < ds.take(d).len() && 0 <= j < ds.take(d)[dd].words.len() && ds.take(
                    d,
                )[dd].name == nm && lower_of(#[trigger] ds.take(d)[dd].words[j]) == w;
            assert(ds.take(d + 1)[dd] == ds.take(d)[dd]);
            assert(lower_of(ds.take(d + 1)[dd].words[j]) == w);
        }
        if nm == ds[d].name && exists|j: int|
            0 <= j < ds[d].words.len() && lower_of(#[trigger] ds[d].words[j]) == w {
            let j = choose|j: int|
                0 <= j < ds[d].words.len() && lower_of(#[trigger] ds[d].words[j]) == w;
            assert(ds.take(d + 1)[d] == ds[d]);
            assert(lower_of(ds.take(d + 1)[d].words[j]) == w);
        }
    }
}

impl Clone for TagMatcher {
    /// An exact copy: same lookups, same catalog.
    fn clone(&self) -> (r: TagMatcher)
        ensures
            r.rows_spec() == self.rows_spec(),
            r.available_spec() == self.available_spec(),
            forall|w: Seq<char>| #[trigger] r.lookup_spec(w) == self.lookup_spec(w),
    {
        let n = self.rows.len();
        let mut rows: Vec<TagRow> = Vec::new();
        let mut i: usize = 0;
        while i < n
            invariant
                n == self.rows@.len(),
                0 <= i <= n,
                rows.deep_view() == self.rows.deep_view().take(i as int),
            decreases n - i,
        {
            rows.push(TagRow {
                word: self.rows[i].word.clone(),
                tags: clone_tags(&self.rows[i].tags),
            });
            proof {
                assert(rows.deep_view() =~= self.rows.deep_view().take(i as int).push(
                    self.rows.deep_view()[i as int],
                ));
                assert(self.rows.deep_view().take(i + 1) =~= self.rows.deep_view().take(
                    i as int,
                ).push(self.rows.deep_view()[i as int]));
            }
            i = i + 1;
        }
        proof {
            assert(self.rows.deep_view().take(n as int) =~= self.rows.deep_view());
        }
        TagMatcher { rows, available: clone_tags(&self.available) }
    }
}

} // verus!
