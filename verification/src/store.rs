//! The archive store: items, the shared category vocabulary, and the
//! many-to-many links between them, together with the tag-synchronization
//! operations (idempotent tag creation, link creation/removal, orphan-tag
//! cleanup) and the per-field patch dispatch.

use vstd::prelude::*;

verus! {

/// One stored item row, as the relational store keeps it.
pub struct TweetRow {
    pub rest_id: String,
    pub sort_index: String,
    pub screen_name: String,
    pub created_at: i64,
    pub fetched_at: i64,
    pub full_text: String,
    pub quoted_text: String,
    pub bookmarked: bool,
    pub liked: bool,
    pub important: bool,
    pub archived: bool,
}

/// Mathematical model of one item row.
pub struct RowView {
    pub rest_id: Seq<char>,
    pub sort_index: Seq<char>,
    pub screen_name: Seq<char>,
    pub created_at: int,
    pub fetched_at: int,
    pub full_text: Seq<char>,
    pub quoted_text: Seq<char>,
    pub bookmarked: bool,
    pub liked: bool,
    pub important: bool,
    pub archived: bool,
}

impl View for TweetRow {
    type V = RowView;

    open spec fn view(&self) -> RowView {
        RowView {
            rest_id: self.rest_id@,
            sort_index: self.sort_index@,
            screen_name: self.screen_name@,
            created_at: self.created_at as int,
            fetched_at: self.fetched_at as int,
            full_text: self.full_text@,
            quoted_text: self.quoted_text@,
            bookmarked: self.bookmarked,
            liked: self.liked,
            important: self.important,
            archived: self.archived,
        }
    }
}

/// A named tag with its generated identifier.
pub struct Category {
    pub id: u64,
    pub name: String,
}

/// Mathematical model of a category row.
pub struct CatView {
    pub id: int,
    pub name: Seq<char>,
}

impl View for Category {
    type V = CatView;

    open spec fn view(&self) -> CatView {
        CatView { id: self.id as int, name: self.name@ }
    }
}

/// One (item, category) association.
pub struct CategoryLink {
    pub tweet_id: String,
    pub category_id: u64,
}

/// Mathematical model of a link row.
pub struct LinkView {
    pub tweet_id: Seq<char>,
    pub category_id: int,
}

impl View for CategoryLink {
    type V = LinkView;

    open spec fn view(&self) -> LinkView {
        LinkView { tweet_id: self.tweet_id@, category_id: self.category_id as int }
    }
}

/// The whole store: item rows, category rows, link rows, and the next
/// category identifier to be generated.
pub struct Store {
    pub items: Vec<TweetRow>,
    pub categories: Vec<Category>,
    pub links: Vec<CategoryLink>,
    pub next_category_id: u64,
}

/// Mathematical model of the whole store.
pub struct StoreView {
    pub items: Seq<RowView>,
    pub categories: Seq<CatView>,
    pub links: Seq<LinkView>,
    pub next_id: int,
}

impl View for Store {
    type V = StoreView;

    open spec fn view(&self) -> StoreView {
        StoreView {
            items: self.items@.map_values(|r: TweetRow| r@),
            categories: self.categories@.map_values(|c: Category| c@),
            links: self.links@.map_values(|l: CategoryLink| l@),
            next_id: self.next_category_id as int,
        }
    }
}

/// A patch request: each field optional, applied independently.
pub struct UpdateTweet {
    pub add_category: Option<String>,
    pub remove_category: Option<String>,
    pub important: Option<bool>,
    pub archived: Option<bool>,
}

/// Mathematical model of a patch request.
pub struct UpdateView {
    pub add_category: Option<Seq<char>>,
    pub remove_category: Option<Seq<char>>,
    pub important: Option<bool>,
    pub archived: Option<bool>,
}

impl View for UpdateTweet {
    type V = UpdateView;

    open spec fn view(&self) -> UpdateView {
        UpdateView {
            add_category: match self.add_category {
                Some(ref s) => Some(s@),
                None => None,
            },
            remove_category: match self.remove_category {
                Some(ref s) => Some(s@),
                None => None,
            },
            important: self.important,
            archived: self.archived,
        }
    }
}

/// Failures the store operations report.
#[derive(Debug, PartialEq, Eq)]
pub enum StoreError {
    /// A patch request named no recognized field.
    InvalidPatch,
    /// A statement failed at the store (constraint violation and the like).
    Execution,
    /// No connection could be acquired; used by callers that own a pool.
    Unavailable,
}

// --- spec-level helpers -----------------------------------------------------

/// Some item row has identifier `tid`.
pub open spec fn has_item(items: Seq<RowView>, tid: Seq<char>) -> bool {
    exists|i: int| 0 <= i < items.len() && (#[trigger] items[i]).rest_id == tid
}

/// Some category row is named `name`.
pub open spec fn has_cat(cats: Seq<CatView>, name: Seq<char>) -> bool {
    exists|i: int| 0 <= i < cats.len() && (#[trigger] cats[i]).name == name
}

/// Some category row has identifier `cid`.
pub open spec fn cat_exists(cats: Seq<CatView>, cid: int) -> bool {
    exists|i: int| 0 <= i < cats.len() && (#[trigger] cats[i]).id == cid
}

/// Identifier of the first category named `name`, or -1 when there is none.
pub open spec fn find_cat_id(cats: Seq<CatView>, name: Seq<char>) -> int
    decreases cats.len(),
{
    if cats.len() == 0 {
        -1
    } else if cats[0].name == name {
        cats[0].id
    } else {
        find_cat_id(cats.drop_first(), name)
    }
}

/// Name of the first category with identifier `cid`, or empty when absent.
pub open spec fn cat_name(cats: Seq<CatView>, cid: int) -> Seq<char>
    decreases cats.len(),
{
    if cats.len() == 0 {
        Seq::empty()
    } else if cats[0].id == cid {
        cats[0].name
    } else {
        cat_name(cats.drop_first(), cid)
    }
}

/// A link from item `tid` to category `cid` exists.
pub open spec fn has_link(links: Seq<LinkView>, tid: Seq<char>, cid: int) -> bool {
    exists|i: int|
        0 <= i < links.len() && (#[trigger] links[i]).tweet_id == tid && links[i].category_id
            == cid
}

/// Number of links attached to category `cid`.
pub open spec fn link_count(links: Seq<LinkView>, cid: int) -> nat {
    links.filter(|l: LinkView| l.category_id == cid).len()
}

/// Number of links between item `tid` and category `cid`.
pub open spec fn links_between(links: Seq<LinkView>, tid: Seq<char>, cid: int) -> nat {
    links.filter(|l: LinkView| l.tweet_id == tid && l.category_id == cid).len()
}

/// Number of categories named `name`.
pub open spec fn cats_named(cats: Seq<CatView>, name: Seq<char>) -> nat {
    cats.filter(|c: CatView| c.name == name).len()
}

impl StoreView {
    /// Referential integrity and uniqueness of the store.
    pub open spec fn wf(self) -> bool {
        &&& 0 <= self.next_id
        &&& forall|i: int, j: int|
            0 <= i < j < self.items.len() ==> (#[trigger] self.items[i]).rest_id != (
            #[trigger] self.items[j]).rest_id
        &&& forall|i: int, j: int|
            0 <= i < j < self.categories.len() ==> (#[trigger] self.categories[i]).id != (
            #[trigger] self.categories[j]).id && self.categories[i].name
                != self.categories[j].name
        &&& forall|i: int| 0 <= i < self.categories.len() ==> 0 <= (#[trigger] self.categories[i]).id
            < self.next_id
        &&& forall|i: int, j: int|
            0 <= i < j < self.links.len() ==> !((#[trigger] self.links[i]).tweet_id == (
            #[trigger] self.links[j]).tweet_id && self.links[i].category_id
                == self.links[j].category_id)
        &&& forall|i: int|
            0 <= i < self.links.len() ==> cat_exists(
                self.categories,
                (#[trigger] self.links[i]).category_id,
            )
        &&& forall|i: int|
            0 <= i < self.links.len() ==> has_item(self.items, (#[trigger] self.links[i]).tweet_id)
    }
}

// --- spec-level transitions -------------------------------------------------

/// Create the category `name` unless it already exists (idempotent upsert).
pub open spec fn upsert_category(s: StoreView, name: Seq<char>) -> StoreView {
    if has_cat(s.categories, name) {
        s
    } else {
        StoreView {
            items: s.items,
            categories: s.categories.push(CatView { id: s.next_id, name }),
            links: s.links,
            next_id: s.next_id + 1,
        }
    }
}

/// Link item `tid` to the category named `name` unless already linked.
/// Meaningful when the category exists.
pub open spec fn with_link(s: StoreView, tid: Seq<char>, name: Seq<char>) -> StoreView {
    let cid = find_cat_id(s.categories, name);
    if has_link(s.links, tid, cid) {
        s
    } else {
        StoreView {
            items: s.items,
            categories: s.categories,
            links: s.links.push(LinkView { tweet_id: tid, category_id: cid }),
            next_id: s.next_id,
        }
    }
}

/// Effect of an add-tag instruction: upsert the category, then link the item
/// if it exists. The flag is false when the item is missing (the link step
/// fails at the store; the upsert has already happened).
pub open spec fn spec_add_category(s: StoreView, tid: Seq<char>, name: Seq<char>) -> (
    StoreView,
    bool,
) {
    let s1 = upsert_category(s, name);
    if has_item(s1.items, tid) {
        (with_link(s1, tid, name), true)
    } else {
        (s1, false)
    }
}

/// Remove the link from item `tid` to the category named `name`, if present.
pub open spec fn without_link(s: StoreView, tid: Seq<char>, name: Seq<char>) -> StoreView {
    let cid = find_cat_id(s.categories, name);
    StoreView {
        items: s.items,
        categories: s.categories,
        links: s.links.filter(|l: LinkView| !(l.tweet_id == tid && l.category_id == cid)),
        next_id: s.next_id,
    }
}

/// Delete every category row that no link references (global orphan sweep).
pub open spec fn sweep_orphans(s: StoreView) -> StoreView {
    StoreView {
        items: s.items,
        categories: s.categories.filter(|c: CatView| link_count(s.links, c.id) > 0),
        links: s.links,
        next_id: s.next_id,
    }
}

/// Effect of a remove-tag instruction: unlink, then sweep orphans.
pub open spec fn spec_remove_category(s: StoreView, tid: Seq<char>, name: Seq<char>) -> StoreView {
    sweep_orphans(without_link(s, tid, name))
}

/// `r` with its `important` flag set to `v` when its identifier is `tid`.
pub open spec fn row_set_important(r: RowView, tid: Seq<char>, v: bool) -> RowView {
    if r.rest_id == tid {
        RowView {
            rest_id: r.rest_id,
            sort_index: r.sort_index,
            screen_name: r.screen_name,
            created_at: r.created_at,
            fetched_at: r.fetched_at,
            full_text: r.full_text,
            quoted_text: r.quoted_text,
            bookmarked: r.bookmarked,
            liked: r.liked,
            important: v,
            archived: r.archived,
        }
    } else {
        r
    }
}

/// `r` with its `archived` flag set to `v` when its identifier is `tid`.
pub open spec fn row_set_archived(r: RowView, tid: Seq<char>, v: bool) -> RowView {
    if r.rest_id == tid {
        RowView {
            rest_id: r.rest_id,
            sort_index: r.sort_index,
            screen_name: r.screen_name,
            created_at: r.created_at,
            fetched_at: r.fetched_at,
            full_text: r.full_text,
            quoted_text: r.quoted_text,
            bookmarked: r.bookmarked,
            liked: r.liked,
            important: r.important,
            archived: v,
        }
    } else {
        r
    }
}

/// Effect of a set-important instruction.
pub open spec fn spec_set_important(s: StoreView, tid: Seq<char>, v: bool) -> StoreView {
    StoreView {
        items: s.items.map_values(|r: RowView| row_set_important(r, tid, v)),
        categories: s.categories,
        links: s.links,
        next_id: s.next_id,
    }
}

/// Effect of a set-archived instruction.
pub open spec fn spec_set_archived(s: StoreView, tid: Seq<char>, v: bool) -> StoreView {
    StoreView {
        items: s.items.map_values(|r: RowView| row_set_archived(r, tid, v)),
        categories: s.categories,
        links: s.links,
        next_id: s.next_id,
    }
}

/// The patch names at least one recognized field.
pub open spec fn has_fields(u: UpdateView) -> bool {
    u.add_category is Some || u.remove_category is Some || u.important is Some || u.archived
        is Some
}

/// Effect of a whole patch request: the present fields are applied in order
/// (add tag, remove tag, important, archived); the first failure aborts the
/// remaining fields; a patch with no field is rejected untouched.
pub open spec fn spec_patch(s: StoreView, tid: Seq<char>, u: UpdateView) -> (
    StoreView,
    Result<(), StoreError>,
) {
    if !has_fields(u) {
        (s, Err(StoreError::InvalidPatch))
    } else {
        let added = match u.add_category {
            Some(name) => spec_add_category(s, tid, name),
            None => (s, true),
        };
        if !added.1 {
            (added.0, Err(StoreError::Execution))
        } else {
            let s2 = match u.remove_category {
                Some(name) => spec_remove_category(added.0, tid, name),
                None => added.0,
            };
            let s3 = match u.important {
                Some(v) => spec_set_important(s2, tid, v),
                None => s2,
            };
            let s4 = match u.archived {
                Some(v) => spec_set_archived(s3, tid, v),
                None => s3,
            };
            (s4, Ok(()))
        }
    }
}

// --- proof helpers ----------------------------------------------------------

/// One unfolding step of `filter` at the pushed-on last element.
pub proof fn lemma_filter_push<A>(s: Seq<A>, pred: spec_fn(A) -> bool, x: A)
    ensures
        s.push(x).filter(pred) == if pred(x) {
            s.filter(pred).push(x)
        } else {
            s.filter(pred)
        },
{
    reveal(Seq::filter);
    assert(s.push(x).drop_last() =~= s);
    assert(s.push(x).last() == x);
}

/// `find_cat_id` returns the identifier of a category actually named `name`,
/// and -1 exactly when no category is.
pub proof fn lemma_find_cat_id(cats: Seq<CatView>, name: Seq<char>)
    ensures
        has_cat(cats, name) ==> exists|j: int|
            0 <= j < cats.len() && (#[trigger] cats[j]).name == name && cats[j].id == find_cat_id(
                cats,
                name,
            ),
        !has_cat(cats, name) ==> find_cat_id(cats, name) == -1,
    decreases cats.len(),
{
    if cats.len() > 0 {
        if cats[0].name == name {
            assert(cats[0].name == name && cats[0].id == find_cat_id(cats, name));
        } else {
            let rest = cats.drop_first();
            lemma_find_cat_id(rest, name);
            assert(forall|k: int| 0 <= k < rest.len() ==> rest[k] == cats[k + 1]);
            if has_cat(cats, name) {
                let i = choose|i: int| 0 <= i < cats.len() && (#[trigger] cats[i]).name == name;
                assert(rest[i - 1].name == name);
                assert(has_cat(rest, name));
                let j = choose|j: int|
                    0 <= j < rest.len() && (#[trigger] rest[j]).name == name && rest[j].id
                        == find_cat_id(rest, name);
                assert(cats[j + 1].name == name && cats[j + 1].id == find_cat_id(cats, name));
            } else {
                assert(forall|k: int| 0 <= k < rest.len() ==> (#[trigger] rest[k]).name != name)
                    by {
                    assert(forall|k: int|
                        0 <= k < rest.len() ==> rest[k] == (#[trigger] cats[k + 1]));
                }
            }
        }
    }
}

/// A scan that finds the first category named `name` at position `i` agrees
/// with `find_cat_id`; a scan that finds none agrees with -1.
pub proof fn lemma_find_cat_id_at(cats: Seq<CatView>, name: Seq<char>, i: int)
    requires
        0 <= i <= cats.len(),
        forall|j: int| 0 <= j < i ==> (#[trigger] cats[j]).name != name,
        i < cats.len() ==> cats[i].name == name,
    ensures
        i < cats.len() ==> find_cat_id(cats, name) == cats[i].id,
        i == cats.len() ==> find_cat_id(cats, name) == -1,
    decreases i,
{
    if cats.len() == 0 {
    } else if i == 0 {
    } else {
        let rest = cats.drop_first();
        assert(forall|k: int| 0 <= k < rest.len() ==> rest[k] == (#[trigger] cats[k + 1]));
        lemma_find_cat_id_at(rest, name, i - 1);
    }
}

/// A scan that finds the first category with identifier `cid` at position `i`
/// agrees with `cat_name`.
pub proof fn lemma_cat_name_at(cats: Seq<CatView>, cid: int, i: int)
    requires
        0 <= i <= cats.len(),
        forall|j: int| 0 <= j < i ==> (#[trigger] cats[j]).id != cid,
        i < cats.len() ==> cats[i].id == cid,
    ensures
        i < cats.len() ==> cat_name(cats, cid) == cats[i].name,
        i == cats.len() ==> cat_name(cats, cid) == Seq::<char>::empty(),
    decreases i,
{
    if cats.len() == 0 {
    } else if i == 0 {
    } else {
        let rest = cats.drop_first();
        assert(forall|k: int| 0 <= k < rest.len() ==> rest[k] == (#[trigger] cats[k + 1]));
        lemma_cat_name_at(rest, cid, i - 1);
    }
}

/// With pairwise-distinct names, exactly one category is named `name` when
/// any is.
pub proof fn lemma_distinct_names_count(cats: Seq<CatView>, name: Seq<char>)
    requires
        forall|i: int, j: int|
            0 <= i < j < cats.len() ==> (#[trigger] cats[i]).name != (#[trigger] cats[j]).name,
    ensures
        cats_named(cats, name) == if has_cat(cats, name) {
            1nat
        } else {
            0nat
        },
    decreases cats.len(),
{
    reveal(Seq::filter);
    if cats.len() > 0 {
        let prefix = cats.drop_last();
        let last = cats.last();
        assert(forall|k: int| 0 <= k < prefix.len() ==> prefix[k] == (#[trigger] cats[k]));
        lemma_distinct_names_count(prefix, name);
        if last.name == name {
            assert(!has_cat(prefix, name)) by {
                if has_cat(prefix, name) {
                    let i = choose|i: int|
                        0 <= i < prefix.len() && (#[trigger] prefix[i]).name == name;
                    assert(cats[i].name == cats[cats.len() - 1].name);
                }
            }
            assert(has_cat(cats, name)) by {
                assert(cats[cats.len() - 1].name == name);
            }
        } else {
            assert(has_cat(cats, name) == has_cat(prefix, name)) by {
                if has_cat(cats, name) {
                    let i = choose|i: int| 0 <= i < cats.len() && (#[trigger] cats[i]).name == name;
                    assert(prefix[i].name == name);
                }
                if has_cat(prefix, name) {
                    let i = choose|i: int|
                        0 <= i < prefix.len() && (#[trigger] prefix[i]).name == name;
                    assert(cats[i].name == name);
                }
            }
        }
    }
}

/// With pairwise-distinct link pairs, at most one link joins `tid` to `cid`.
pub proof fn lemma_distinct_pairs_count(links: Seq<LinkView>, tid: Seq<char>, cid: int)
    requires
        forall|i: int, j: int|
            0 <= i < j < links.len() ==> !((#[trigger] links[i]).tweet_id == (
            #[trigger] links[j]).tweet_id && links[i].category_id == links[j].category_id),
    ensures
        links_between(links, tid, cid) == if has_link(links, tid, cid) {
            1nat
        } else {
            0nat
        },
    decreases links.len(),
{
    reveal(Seq::filter);
    if links.len() > 0 {
        let prefix = links.drop_last();
        let last = links.last();
        assert(forall|k: int| 0 <= k < prefix.len() ==> prefix[k] == (#[trigger] links[k]));
        lemma_distinct_pairs_count(prefix, tid, cid);
        if last.tweet_id == tid && last.category_id == cid {
            assert(!has_link(prefix, tid, cid)) by {
                if has_link(prefix, tid, cid) {
                    let i = choose|i: int|
                        0 <= i < prefix.len() && (#[trigger] prefix[i]).tweet_id == tid
                            && prefix[i].category_id == cid;
                    assert(links[i].tweet_id == links[links.len() - 1].tweet_id
                        && links[i].category_id == links[links.len() - 1].category_id);
                }
            }
            assert(has_link(links, tid, cid)) by {
                assert(links[links.len() - 1].tweet_id == tid && links[links.len()
                    - 1].category_id == cid);
            }
        } else {
            assert(has_link(links, tid, cid) == has_link(prefix, tid, cid)) by {
                if has_link(links, tid, cid) {
                    let i = choose|i: int|
                        0 <= i < links.len() && (#[trigger] links[i]).tweet_id == tid
                            && links[i].category_id == cid;
                    assert(prefix[i].tweet_id == tid && prefix[i].category_id == cid);
                }
                if has_link(prefix, tid, cid) {
                    let i = choose|i: int|
                        0 <= i < prefix.len() && (#[trigger] prefix[i]).tweet_id == tid
                            && prefix[i].category_id == cid;
                    assert(links[i].tweet_id == tid && links[i].category_id == cid);
                }
            }
        }
    }
}

/// Removing the links between `tid` and `cid` lowers the usage count of `cid`
/// by exactly their number and leaves other categories' counts unchanged.
pub proof fn lemma_count_after_removal(links: Seq<LinkView>, tid: Seq<char>, cid: int, other: int)
    ensures
        link_count(
            links.filter(|l: LinkView| !(l.tweet_id == tid && l.category_id == cid)),
            cid,
        ) == link_count(links, cid) - links_between(links, tid, cid),
        other != cid ==> link_count(
            links.filter(|l: LinkView| !(l.tweet_id == tid && l.category_id == cid)),
            other,
        ) == link_count(links, other),
    decreases links.len(),
{
    reveal(Seq::filter);
    broadcast use vstd::seq_lib::group_filter_ensures;

    if links.len() > 0 {
        let prefix = links.drop_last();
        let last = links.last();
        lemma_count_after_removal(prefix, tid, cid, other);
        let keep = |l: LinkView| !(l.tweet_id == tid && l.category_id == cid);
        let of_cid = |l: LinkView| l.category_id == cid;
        let of_other = |l: LinkView| l.category_id == other;
        let between = |l: LinkView| l.tweet_id == tid && l.category_id == cid;
        assert(links.filter(keep) == if keep(last) {
            prefix.filter(keep).push(last)
        } else {
            prefix.filter(keep)
        });
        if keep(last) {
            lemma_filter_push(prefix.filter(keep), of_cid, last);
            lemma_filter_push(prefix.filter(keep), of_other, last);
        }
    }
}

// --- well-formedness preservation -------------------------------------------

/// The idempotent category upsert preserves well-formedness, and afterwards
/// the category exists.
pub proof fn lemma_upsert_wf(s: StoreView, name: Seq<char>)
    requires
        s.wf(),
    ensures
        upsert_category(s, name).wf(),
        has_cat(upsert_category(s, name).categories, name),
        upsert_category(s, name).items == s.items,
        upsert_category(s, name).links == s.links,
{
    let r = upsert_category(s, name);
    if !has_cat(s.categories, name) {
        let rc = r.categories;
        let n = s.categories.len() as int;
        assert(forall|k: int| 0 <= k < n ==> rc[k] == (#[trigger] s.categories[k]));
        assert(rc[n].name == name && rc[n].id == s.next_id);
        assert(forall|i: int|
            0 <= i < s.categories.len() ==> (#[trigger] s.categories[i]).name != name);
        assert forall|i: int, j: int| 0 <= i < j < rc.len() implies (#[trigger] rc[i]).id != (
        #[trigger] rc[j]).id && rc[i].name != rc[j].name by {
            if j == n {
                assert(rc[i] == s.categories[i]);
                assert(s.categories[i].id < s.next_id);
                assert(s.categories[i].name != name);
            }
        }
        assert forall|i: int| 0 <= i < s.links.len() implies cat_exists(
            rc,
            (#[trigger] s.links[i]).category_id,
        ) by {
            assert(cat_exists(s.categories, s.links[i].category_id));
            let j = choose|j: int|
                0 <= j < s.categories.len() && (#[trigger] s.categories[j]).id
                    == s.links[i].category_id;
            assert(rc[j].id == s.links[i].category_id);
        }
    }
}

/// Linking an existing item to an existing category preserves
/// well-formedness.
pub proof fn lemma_with_link_wf(s: StoreView, tid: Seq<char>, name: Seq<char>)
    requires
        s.wf(),
        has_cat(s.categories, name),
        has_item(s.items, tid),
    ensures
        with_link(s, tid, name).wf(),
        with_link(s, tid, name).items == s.items,
        with_link(s, tid, name).categories == s.categories,
        has_link(with_link(s, tid, name).links, tid, find_cat_id(s.categories, name)),
{
    let cid = find_cat_id(s.categories, name);
    lemma_find_cat_id(s.categories, name);
    let r = with_link(s, tid, name);
    if !has_link(s.links, tid, cid) {
        assert(forall|k: int| 0 <= k < s.links.len() ==> r.links[k] == (#[trigger] s.links[k]));
        assert(r.links[s.links.len() as int].tweet_id == tid && r.links[s.links.len()
            as int].category_id == cid);
        assert(cat_exists(s.categories, cid));
    }
}

/// The whole add-tag instruction preserves well-formedness.
pub proof fn lemma_add_category_wf(s: StoreView, tid: Seq<char>, name: Seq<char>)
    requires
        s.wf(),
    ensures
        spec_add_category(s, tid, name).0.wf(),
{
    lemma_upsert_wf(s, name);
    let s1 = upsert_category(s, name);
    if has_item(s1.items, tid) {
        lemma_with_link_wf(s1, tid, name);
    }
}

/// Filtering the link rows keeps pairwise distinctness and referential
/// integrity of the survivors.
proof fn lemma_links_filter_wf(s: StoreView, keep: spec_fn(LinkView) -> bool)
    requires
        s.wf(),
    ensures
        forall|i: int, j: int|
            0 <= i < j < s.links.filter(keep).len() ==> !((#[trigger] s.links.filter(
                keep,
            )[i]).tweet_id == (#[trigger] s.links.filter(keep)[j]).tweet_id && s.links.filter(
                keep,
            )[i].category_id == s.links.filter(keep)[j].category_id),
        forall|i: int|
            0 <= i < s.links.filter(keep).len() ==> cat_exists(
                s.categories,
                (#[trigger] s.links.filter(keep)[i]).category_id,
            ) && has_item(s.items, s.links.filter(keep)[i].tweet_id),
    decreases s.links.len(),
{
    lemma_filter_subseq_distinct_links(s.links, keep);
    broadcast use vstd::seq_lib::group_filter_ensures, Seq::lemma_filter_contains_rev;

    let out = s.links.filter(keep);
    assert forall|i: int| 0 <= i < out.len() implies cat_exists(
        s.categories,
        (#[trigger] out[i]).category_id,
    ) && has_item(s.items, out[i].tweet_id) by {
        assert(out.contains(out[i]));
        assert(s.links.contains(out[i]));
        let k = choose|k: int| 0 <= k < s.links.len() && s.links[k] == out[i];
        assert(cat_exists(s.categories, s.links[k].category_id));
        assert(has_item(s.items, s.links[k].tweet_id));
    }
}

/// A filtered link sequence keeps pairwise distinctness of (item, category)
/// pairs.
proof fn lemma_filter_subseq_distinct_links(links: Seq<LinkView>, keep: spec_fn(LinkView) -> bool)
    requires
        forall|i: int, j: int|
            0 <= i < j < links.len() ==> !((#[trigger] links[i]).tweet_id == (
            #[trigger] links[j]).tweet_id && links[i].category_id == links[j].category_id),
    ensures
        forall|i: int, j: int|
            0 <= i < j < links.filter(keep).len() ==> !((#[trigger] links.filter(
                keep,
            )[i]).tweet_id == (#[trigger] links.filter(keep)[j]).tweet_id && links.filter(
                keep,
            )[i].category_id == links.filter(keep)[j].category_id),
    decreases links.len(),
{
    reveal(Seq::filter);
    broadcast use vstd::seq_lib::group_filter_ensures;

    if links.len() > 0 {
        let prefix = links.drop_last();
        let last = links.last();
        assert(forall|k: int| 0 <= k < prefix.len() ==> prefix[k] == (#[trigger] links[k]));
        lemma_filter_subseq_distinct_links(prefix, keep);
        let pout = prefix.filter(keep);
        let out = links.filter(keep);
        if keep(last) {
            assert(out == pout.push(last));
            assert forall|i: int| 0 <= i < pout.len() implies !((#[trigger] pout[i]).tweet_id
                == last.tweet_id && pout[i].category_id == last.category_id) by {
                broadcast use Seq::lemma_filter_contains_rev;

                assert(pout.contains(pout[i]));
                assert(prefix.contains(pout[i]));
                let k = choose|k: int| 0 <= k < prefix.len() && prefix[k] == pout[i];
                assert(!(links[k].tweet_id == links[links.len() - 1].tweet_id
                    && links[k].category_id == links[links.len() - 1].category_id));
            }
        } else {
            assert(out == pout);
        }
    }
}

/// A filtered category sequence keeps pairwise distinctness of identifiers
/// and names, and the id bound.
proof fn lemma_filter_subseq_distinct_cats(
    cats: Seq<CatView>,
    keep: spec_fn(CatView) -> bool,
    bound: int,
)
    requires
        forall|i: int, j: int|
            0 <= i < j < cats.len() ==> (#[trigger] cats[i]).id != (#[trigger] cats[j]).id
                && cats[i].name != cats[j].name,
        forall|i: int| 0 <= i < cats.len() ==> 0 <= (#[trigger] cats[i]).id < bound,
    ensures
        forall|i: int, j: int|
            0 <= i < j < cats.filter(keep).len() ==> (#[trigger] cats.filter(keep)[i]).id != (
            #[trigger] cats.filter(keep)[j]).id && cats.filter(keep)[i].name != cats.filter(
                keep,
            )[j].name,
        forall|i: int| 0 <= i < cats.filter(keep).len() ==> 0 <= (#[trigger] cats.filter(keep)[i]).id
            < bound,
    decreases cats.len(),
{
    reveal(Seq::filter);
    broadcast use vstd::seq_lib::group_filter_ensures;

    if cats.len() > 0 {
        let prefix = cats.drop_last();
        let last = cats.last();
        assert(forall|k: int| 0 <= k < prefix.len() ==> prefix[k] == (#[trigger] cats[k]));
        lemma_filter_subseq_distinct_cats(prefix, keep, bound);
        let pout = prefix.filter(keep);
        let out = cats.filter(keep);
        assert(0 <= last.id < bound);
        if keep(last) {
            assert(out == pout.push(last));
            assert forall|i: int| 0 <= i < pout.len() implies (#[trigger] pout[i]).id != last.id
                && pout[i].name != last.name by {
                broadcast use Seq::lemma_filter_contains_rev;

                assert(pout.contains(pout[i]));
                assert(prefix.contains(pout[i]));
                let k = choose|k: int| 0 <= k < prefix.len() && prefix[k] == pout[i];
                assert(cats[k].id != cats[cats.len() - 1].id && cats[k].name != cats[cats.len()
                    - 1].name);
            }
        } else {
            assert(out == pout);
        }
    }
}

/// The whole remove-tag instruction preserves well-formedness, and afterwards
/// no category row is orphaned.
pub proof fn lemma_remove_category_wf(s: StoreView, tid: Seq<char>, name: Seq<char>)
    requires
        s.wf(),
    ensures
        spec_remove_category(s, tid, name).wf(),
        spec_remove_category(s, tid, name).items == s.items,
        forall|i: int|
            0 <= i < spec_remove_category(s, tid, name).categories.len() ==> link_count(
                spec_remove_category(s, tid, name).links,
                (#[trigger] spec_remove_category(s, tid, name).categories[i]).id,
            ) > 0,
{
    broadcast use vstd::seq_lib::group_filter_ensures;

    let cid = find_cat_id(s.categories, name);
    let keep = |l: LinkView| !(l.tweet_id == tid && l.category_id == cid);
    let s1 = without_link(s, tid, name);
    lemma_links_filter_wf(s, keep);
    assert(s1.wf());
    let r = sweep_orphans(s1);
    let keep_cat = |c: CatView| link_count(s1.links, c.id) > 0;
    lemma_filter_subseq_distinct_cats(s1.categories, keep_cat, s1.next_id);
    // every surviving link's category survives the sweep
    assert forall|i: int| 0 <= i < r.links.len() implies cat_exists(
        r.categories,
        (#[trigger] r.links[i]).category_id,
    ) by {
        let lcid = r.links[i].category_id;
        assert(cat_exists(s1.categories, lcid));
        let j = choose|j: int| 0 <= j < s1.categories.len() && (#[trigger] s1.categories[j]).id
            == lcid;
        let c = s1.categories[j];
        assert(link_count(s1.links, lcid) > 0) by {
            assert(s1.links.filter(|l: LinkView| l.category_id == lcid).contains(s1.links[i]));
        }
        assert(keep_cat(c));
        assert(s1.categories.contains(c));
        assert(r.categories.contains(c));
        let k = choose|k: int| 0 <= k < r.categories.len() && r.categories[k] == c;
        assert(r.categories[k].id == lcid);
    }
    // the sweep keeps only categories with at least one link
    assert forall|i: int| 0 <= i < r.categories.len() implies link_count(
        r.links,
        (#[trigger] r.categories[i]).id,
    ) > 0 by {
        assert(keep_cat(r.categories[i]));
    }
}

/// Setting a scalar flag preserves well-formedness: item identifiers, the
/// categories, and the links are untouched.
pub proof fn lemma_set_flag_wf(s: StoreView, tid: Seq<char>, v: bool, archived: bool)
    requires
        s.wf(),
    ensures
        (if archived {
            spec_set_archived(s, tid, v)
        } else {
            spec_set_important(s, tid, v)
        }).wf(),
{
    let r = if archived {
        spec_set_archived(s, tid, v)
    } else {
        spec_set_important(s, tid, v)
    };
    assert(forall|i: int| 0 <= i < s.items.len() ==> (#[trigger] r.items[i]).rest_id
        == s.items[i].rest_id);
    assert(forall|i: int|
        0 <= i < s.links.len() ==> has_item(s.items, (#[trigger] s.links[i]).tweet_id)
            ==> has_item(r.items, s.links[i].tweet_id)) by {
        assert(forall|i: int|
            0 <= i < s.links.len() && has_item(s.items, (#[trigger] s.links[i]).tweet_id) ==> {
                let j = choose|j: int|
                    0 <= j < s.items.len() && (#[trigger] s.items[j]).rest_id
                        == s.links[i].tweet_id;
                r.items[j].rest_id == s.links[i].tweet_id
            });
    }
}

// --- laws of the tag synchronizer -------------------------------------------

/// Adding a tag is idempotent: a second identical add changes nothing, and
/// after an add exactly one category bears the name and exactly one link
/// joins the item to it.
pub proof fn lemma_add_category_idempotent(s: StoreView, tid: Seq<char>, name: Seq<char>)
    requires
        s.wf(),
        has_item(s.items, tid),
    ensures
        spec_add_category(s, tid, name).1,
        spec_add_category(spec_add_category(s, tid, name).0, tid, name) == spec_add_category(
            s,
            tid,
            name,
        ),
        cats_named(spec_add_category(s, tid, name).0.categories, name) == 1,
        links_between(
            spec_add_category(s, tid, name).0.links,
            tid,
            find_cat_id(spec_add_category(s, tid, name).0.categories, name),
        ) == 1,
{
    lemma_upsert_wf(s, name);
    let s1 = upsert_category(s, name);
    lemma_with_link_wf(s1, tid, name);
    let r = with_link(s1, tid, name);
    let cid = find_cat_id(s1.categories, name);
    lemma_distinct_names_count(r.categories, name);
    lemma_distinct_pairs_count(r.links, tid, cid);
    assert(upsert_category(r, name) == r);
    assert(with_link(r, tid, name) == r);
}

/// When the removed link was the last use of the category, the orphan sweep
/// deletes the category row itself.
pub proof fn lemma_remove_category_cleans(s: StoreView, tid: Seq<char>, name: Seq<char>)
    requires
        s.wf(),
        link_count(s.links, find_cat_id(s.categories, name)) == links_between(
            s.links,
            tid,
            find_cat_id(s.categories, name),
        ),
    ensures
        !has_cat(spec_remove_category(s, tid, name).categories, name),
{
    broadcast use vstd::seq_lib::group_filter_ensures, Seq::lemma_filter_contains_rev;

    let cid = find_cat_id(s.categories, name);
    let s1 = without_link(s, tid, name);
    let r = sweep_orphans(s1);
    lemma_count_after_removal(s.links, tid, cid, 0);
    assert(link_count(s1.links, cid) == 0);
    if has_cat(r.categories, name) {
        let keep_cat = |c: CatView| link_count(s1.links, c.id) > 0;
        let i = choose|i: int| 0 <= i < r.categories.len() && (#[trigger] r.categories[i]).name
            == name;
        let c = r.categories[i];
        assert(keep_cat(c));
        assert(r.categories.contains(c));
        assert(s1.categories.contains(c));
        let k = choose|k: int| 0 <= k < s.categories.len() && s.categories[k] == c;
        assert(has_cat(s.categories, name)) by {
            assert(s.categories[k].name == name);
        }
        lemma_find_cat_id(s.categories, name);
        let j = choose|j: int|
            0 <= j < s.categories.len() && (#[trigger] s.categories[j]).name == name
                && s.categories[j].id == cid;
        assert(k == j);
        assert(c.id == cid);
        assert(false);
    }
}

/// The whole patch dispatch preserves well-formedness.
pub proof fn lemma_patch_wf(s: StoreView, tid: Seq<char>, u: UpdateView)
    requires
        s.wf(),
    ensures
        spec_patch(s, tid, u).0.wf(),
{
    if has_fields(u) {
        let added = match u.add_category {
            Some(name) => spec_add_category(s, tid, name),
            None => (s, true),
        };
        if u.add_category is Some {
            lemma_add_category_wf(s, tid, u.add_category.unwrap());
        }
        if added.1 {
            let s2 = match u.remove_category {
                Some(name) => spec_remove_category(added.0, tid, name),
                None => added.0,
            };
            if u.remove_category is Some {
                lemma_remove_category_wf(added.0, tid, u.remove_category.unwrap());
            }
            let s3 = match u.important {
                Some(v) => spec_set_important(s2, tid, v),
                None => s2,
            };
            if u.important is Some {
                lemma_set_flag_wf(s2, tid, u.important.unwrap(), false);
            }
            if u.archived is Some {
                lemma_set_flag_wf(s3, tid, u.archived.unwrap(), true);
            }
        }
    }
}

// --- executable operations --------------------------------------------------

fn clone_row(r: &TweetRow) -> (out: TweetRow)
    ensures
        out == *r,
{
    let out = TweetRow {
        rest_id: r.rest_id.clone(),
        sort_index: r.sort_index.clone(),
        screen_name: r.screen_name.clone(),
        created_at: r.created_at,
        fetched_at: r.fetched_at,
        full_text: r.full_text.clone(),
        quoted_text: r.quoted_text.clone(),
        bookmarked: r.bookmarked,
        liked: r.liked,
        important: r.important,
        archived: r.archived,
    };
    out
}

impl Store {
    /// A store with no items, no categories and no links.
    pub fn new() -> (s: Store)
        ensures
            s@.wf(),
            s@.items.len() == 0,
            s@.categories.len() == 0,
            s@.links.len() == 0,
            s@.next_id == 0,
    {
        let s = Store {
            items: Vec::new(),
            categories: Vec::new(),
            links: Vec::new(),
            next_category_id: 0,
        };
        proof {
            assert(s@.items =~= Seq::<RowView>::empty());
            assert(s@.categories =~= Seq::<CatView>::empty());
            assert(s@.links =~= Seq::<LinkView>::empty());
        }
        s
    }

    /// Ingest one item row. Rows are created by an out-of-scope ingestion
    /// process; the rest of the library only reads and patches them.
    pub fn insert_item(&mut self, row: TweetRow)
        requires
            old(self)@.wf(),
            !has_item(old(self)@.items, row@.rest_id),
        ensures
            final(self)@.wf(),
            final(self)@.items == old(self)@.items.push(row@),
            final(self)@.categories == old(self)@.categories,
            final(self)@.links == old(self)@.links,
            final(self)@.next_id == old(self)@.next_id,
    {
        let ghost pre = self@;
        let ghost rv = row@;
        self.items.push(row);
        proof {
            assert(self@.items =~= pre.items.push(rv));
            assert(self@.categories =~= pre.categories);
            assert(self@.links =~= pre.links);
            let cur = self@;
            assert(forall|k: int| 0 <= k < pre.items.len() ==> cur.items[k] == (
            #[trigger] pre.items[k]));
            assert forall|i: int| 0 <= i < cur.links.len() implies has_item(
                cur.items,
                (#[trigger] cur.links[i]).tweet_id,
            ) by {
                assert(has_item(pre.items, pre.links[i].tweet_id));
                let j = choose|j: int|
                    0 <= j < pre.items.len() && (#[trigger] pre.items[j]).rest_id
                        == pre.links[i].tweet_id;
                assert(cur.items[j].rest_id == cur.links[i].tweet_id);
            }
            assert forall|i: int, j: int| 0 <= i < j < cur.items.len() implies (
            #[trigger] cur.items[i]).rest_id != (#[trigger] cur.items[j]).rest_id by {
                if j == cur.items.len() - 1 {
                    assert(cur.items[i] == pre.items[i]);
                    assert(!has_item(pre.items, rv.rest_id));
                }
            }
        }
    }

    /// Index of the first category named `name`, if any.
    fn find_category(&self, name: &String) -> (r: Option<usize>)
        ensures
            match r {
                Some(i) => i < self.categories@.len() && self@.categories[i as int].name == name@
                    && self@.categories[i as int].id == find_cat_id(self@.categories, name@),
                None => !has_cat(self@.categories, name@) && find_cat_id(self@.categories, name@)
                    == -1,
            },
    {
        let mut i: usize = 0;
        while i < self.categories.len()
            invariant
                i <= self.categories@.len(),
                self@.categories.len() == self.categories@.len(),
                forall|j: int| 0 <= j < i ==> (#[trigger] self@.categories[j]).name != name@,
            decreases self.categories@.len() - i,
        {
            if self.categories[i].name.eq(name) {
                proof {
                    lemma_find_cat_id_at(self@.categories, name@, i as int);
                }
                return Some(i);
            }
            i += 1;
        }
        proof {
            lemma_find_cat_id_at(self@.categories, name@, i as int);
        }
        None
    }

    /// Does an item with identifier `tid` exist?
    fn contains_item(&self, tid: &String) -> (r: bool)
        ensures
            r == has_item(self@.items, tid@),
    {
        let mut i: usize = 0;
        while i < self.items.len()
            invariant
                i <= self.items@.len(),
                self@.items.len() == self.items@.len(),
                forall|j: int| 0 <= j < i ==> (#[trigger] self@.items[j]).rest_id != tid@,
            decreases self.items@.len() - i,
        {
            if self.items[i].rest_id.eq(tid) {
                assert(self@.items[i as int].rest_id == tid@);
                return true;
            }
            i += 1;
        }
        false
    }

    /// Does a link from `tid` to category `cid` exist?
    fn contains_link(&self, tid: &String, cid: u64) -> (r: bool)
        ensures
            r == has_link(self@.links, tid@, cid as int),
    {
        let mut i: usize = 0;
        while i < self.links.len()
            invariant
                i <= self.links@.len(),
                self@.links.len() == self.links@.len(),
                forall|j: int|
                    0 <= j < i ==> !((#[trigger] self@.links[j]).tweet_id == tid@
                        && self@.links[j].category_id == cid as int),
            decreases self.links@.len() - i,
        {
            if self.links[i].tweet_id.eq(tid) && self.links[i].category_id == cid {
                assert(self@.links[i as int].tweet_id == tid@ && self@.links[i as int].category_id
                    == cid as int);
                return true;
            }
            i += 1;
        }
        false
    }

    /// Add the tag `name` to the item `tweet_id`: create the category if
    /// absent, then link the item unless already linked. Fails (after the
    /// category upsert) when the item does not exist.
    pub fn add_category(&mut self, tweet_id: &String, name: &String) -> (r: Result<
        (),
        StoreError,
    >)
        requires
            old(self)@.wf(),
            old(self).next_category_id < u64::MAX,
        ensures
            final(self)@.wf(),
            final(self)@ == spec_add_category(old(self)@, tweet_id@, name@).0,
            (r is Ok) == spec_add_category(old(self)@, tweet_id@, name@).1,
            r is Err ==> r == Err::<(), StoreError>(StoreError::Execution),
    {
        let ghost pre = self@;
        let cat_id_val: u64 = match self.find_category(name) {
            Some(i) => self.categories[i].id,
            None => {
                let id = self.next_category_id;
                self.categories.push(Category { id, name: name.clone() });
                self.next_category_id = id + 1;
                proof {
                    assert(self@.categories =~= pre.categories.push(
                        CatView { id: pre.next_id, name: name@ },
                    ));
                    assert(self@.items =~= pre.items);
                    assert(self@.links =~= pre.links);
                    assert(self@ == upsert_category(pre, name@));
                    assert(forall|j: int|
                        0 <= j < pre.categories.len() ==> (#[trigger] self@.categories[j]).name
                            != name@);
                    lemma_find_cat_id_at(self@.categories, name@, pre.categories.len() as int);
                }
                id
            },
        };
        proof {
            if has_cat(pre.categories, name@) {
                assert(self@ == pre);
                assert(self@ == upsert_category(pre, name@));
            }
            lemma_upsert_wf(pre, name@);
            assert(self@.wf());
            assert(cat_id_val as int == find_cat_id(self@.categories, name@));
        }
        let ghost s1 = self@;
        if !self.contains_item(tweet_id) {
            proof {
                assert(!has_item(s1.items, tweet_id@));
                assert(spec_add_category(pre, tweet_id@, name@) == (s1, false));
            }
            return Err(StoreError::Execution);
        }
        if !self.contains_link(tweet_id, cat_id_val) {
            let ghost before_link = self@;
            self.links.push(
                CategoryLink { tweet_id: tweet_id.clone(), category_id: cat_id_val },
            );
            proof {
                assert(self@.links =~= before_link.links.push(
                    LinkView { tweet_id: tweet_id@, category_id: cat_id_val as int },
                ));
                assert(self@.items =~= before_link.items);
                assert(self@.categories =~= before_link.categories);
                assert(self@ == with_link(s1, tweet_id@, name@));
            }
        } else {
            proof {
                assert(self@ == with_link(s1, tweet_id@, name@));
            }
        }
        proof {
            lemma_with_link_wf(s1, tweet_id@, name@);
            assert(spec_add_category(pre, tweet_id@, name@) == (self@, true));
        }
        Ok(())
    }

    /// Number of links attached to category `cid`.
    pub(crate) fn count_links(&self, cid: u64) -> (r: usize)
        ensures
            r == link_count(self@.links, cid as int),
    {
        broadcast use vstd::seq_lib::group_filter_ensures;

        let mut i: usize = 0;
        let mut cnt: usize = 0;
        proof {
            assert(self@.links.take(0) =~= Seq::<LinkView>::empty());
            reveal(Seq::filter);
        }
        while i < self.links.len()
            invariant
                i <= self.links@.len(),
                self@.links.len() == self.links@.len(),
                cnt == link_count(self@.links.take(i as int), cid as int),
                cnt <= i,
            decreases self.links@.len() - i,
        {
            let ghost prefix = self@.links.take(i as int);
            proof {
                assert(self@.links.take(i as int + 1) =~= prefix.push(self@.links[i as int]));
                lemma_filter_push(prefix, |l: LinkView| l.category_id == cid as int, self@.links[i as int]);
            }
            if self.links[i].category_id == cid {
                cnt += 1;
            }
            i += 1;
        }
        proof {
            assert(self@.links.take(i as int) =~= self@.links);
        }
        cnt
    }

    /// Remove the tag `name` from the item `tweet_id` if linked (no error if
    /// not), then delete every category row left without links.
    #[verifier::loop_isolation(false)]
    pub fn remove_category(&mut self, tweet_id: &String, name: &String)
        requires
            old(self)@.wf(),
        ensures
            final(self)@.wf(),
            final(self)@ == spec_remove_category(old(self)@, tweet_id@, name@),
    {
        broadcast use vstd::seq_lib::group_filter_ensures;

        let ghost pre = self@;
        let ghost cid = find_cat_id(pre.categories, name@);
        // delete the (item, category) link, if present
        let cat_idx = self.find_category(name);
        let mut new_links: Vec<CategoryLink> = Vec::new();
        proof {
            assert(pre.links.take(0) =~= Seq::<LinkView>::empty());
            reveal(Seq::filter);
            assert(new_links@.map_values(|l: CategoryLink| l@) =~= Seq::<LinkView>::empty());
        }
        let mut i: usize = 0;
        while i < self.links.len()
            invariant
                i <= self.links@.len(),
                new_links@.map_values(|l: CategoryLink| l@) == pre.links.take(i as int).filter(
                    |l: LinkView| !(l.tweet_id == tweet_id@ && l.category_id == cid),
                ),
            decreases self.links@.len() - i,
        {
            let ghost here = |l: LinkView| !(l.tweet_id == tweet_id@ && l.category_id == cid);
            let ghost prefix = pre.links.take(i as int);
            let ghost lv = pre.links[i as int];
            proof {
                assert(pre.links.take(i as int + 1) =~= prefix.push(lv));
                lemma_filter_push(prefix, here, lv);
            }
            let matches_removed: bool = match cat_idx {
                Some(ci) => {
                    self.links[i].tweet_id.eq(tweet_id) && self.links[i].category_id
                        == self.categories[ci].id
                },
                None => false,
            };
            proof {
                if cat_idx is None {
                    assert(cid == -1);
                    assert(cat_exists(pre.categories, lv.category_id));
                    let j = choose|j: int|
                        0 <= j < pre.categories.len() && (#[trigger] pre.categories[j]).id
                            == lv.category_id;
                    assert(pre.categories[j].id >= 0);
                    assert(lv.category_id != cid);
                }
            }
            if !matches_removed {
                let ghost prev = new_links@;
                new_links.push(clone_link(&self.links[i]));
                proof {
                    assert(new_links@.map_values(|l: CategoryLink| l@) =~= prev.map_values(
                        |l: CategoryLink| l@,
                    ).push(lv));
                    assert(here(lv));
                }
            } else {
                proof {
                    assert(!here(lv));
                }
            }
            i += 1;
        }
        proof {
            assert(pre.links.take(i as int) =~= pre.links);
        }
        self.links = new_links;
        proof {
            assert(self@.items =~= pre.items);
            assert(self@.categories =~= pre.categories);
            assert(self@ == without_link(pre, tweet_id@, name@));
            lemma_links_filter_wf_outer(pre, tweet_id@, name@);
        }
        let ghost s1 = self@;
        // orphan sweep: keep only categories that still have links
        let mut new_cats: Vec<Category> = Vec::new();
        proof {
            assert(s1.categories.take(0) =~= Seq::<CatView>::empty());
            reveal(Seq::filter);
            assert(new_cats@.map_values(|c: Category| c@) =~= Seq::<CatView>::empty());
        }
        let mut k: usize = 0;
        while k < self.categories.len()
            invariant
                k <= self.categories@.len(),
                self@ == s1,
                new_cats@.map_values(|c: Category| c@) == s1.categories.take(k as int).filter(
                    |c: CatView| link_count(s1.links, c.id) > 0,
                ),
            decreases self.categories@.len() - k,
        {
            let ghost here = |c: CatView| link_count(s1.links, c.id) > 0;
            let ghost prefix = s1.categories.take(k as int);
            let ghost cv = s1.categories[k as int];
            proof {
                assert(s1.categories.take(k as int + 1) =~= prefix.push(cv));
                lemma_filter_push(prefix, here, cv);
            }
            let used = self.count_links(self.categories[k].id);
            if used > 0 {
                let ghost prev = new_cats@;
                new_cats.push(clone_category(&self.categories[k]));
                proof {
                    assert(new_cats@.map_values(|c: Category| c@) =~= prev.map_values(
                        |c: Category| c@,
                    ).push(cv));
                    assert(here(cv));
                }
            } else {
                proof {
                    assert(!here(cv));
                }
            }
            k += 1;
        }
        proof {
            assert(s1.categories.take(k as int) =~= s1.categories);
        }
        self.categories = new_cats;
        proof {
            assert(self@.items =~= s1.items);
            assert(self@.links =~= s1.links);
            assert(self@ == sweep_orphans(s1));
            lemma_remove_category_wf(pre, tweet_id@, name@);
        }
    }
}

fn clone_link(l: &CategoryLink) -> (out: CategoryLink)
    ensures
        out == *l,
{
    let out = CategoryLink { tweet_id: l.tweet_id.clone(), category_id: l.category_id };
    out
}

fn clone_category(c: &Category) -> (out: Category)
    ensures
        out == *c,
{
    let out = Category { id: c.id, name: c.name.clone() };
    out
}

/// Unlinking preserves well-formedness (wrapper around the filter lemma).
proof fn lemma_links_filter_wf_outer(s: StoreView, tid: Seq<char>, name: Seq<char>)
    requires
        s.wf(),
    ensures
        without_link(s, tid, name).wf(),
{
    let cid = find_cat_id(s.categories, name);
    lemma_links_filter_wf(s, |l: LinkView| !(l.tweet_id == tid && l.category_id == cid));
}

impl Store {
    /// Set the `important` flag of the item `tweet_id` (no effect, no error,
    /// when the item does not exist).
    #[verifier::loop_isolation(false)]
    pub fn set_important(&mut self, tweet_id: &String, v: bool)
        requires
            old(self)@.wf(),
        ensures
            final(self)@.wf(),
            final(self)@ == spec_set_important(old(self)@, tweet_id@, v),
    {
        let ghost pre = self@;
        let mut i: usize = 0;
        while i < self.items.len()
            invariant
                i <= self.items@.len(),
                self.items@.len() == pre.items.len(),
                self.categories@ == old(self).categories@,
                self.links@ == old(self).links@,
                self.next_category_id == old(self).next_category_id,
                forall|j: int|
                    0 <= j < i ==> (#[trigger] self@.items[j]) == row_set_important(
                        pre.items[j],
                        tweet_id@,
                        v,
                    ),
                forall|j: int| i <= j < pre.items.len() ==> (#[trigger] self@.items[j])
                    == pre.items[j],
            decreases self.items@.len() - i,
        {
            let ghost head = self@;
            if self.items[i].rest_id.eq(tweet_id) {
                let mut row = clone_row(&self.items[i]);
                row.important = v;
                self.items[i] = row;
            }
            proof {
                assert(head.items[i as int] == pre.items[i as int]);
                assert(self@.items.len() == head.items.len());
                assert(forall|j: int|
                    0 <= j < head.items.len() && j != i ==> self@.items[j] == (
                    #[trigger] head.items[j]));
                assert(self@.items[i as int] == row_set_important(pre.items[i as int], tweet_id@, v));
                assert forall|j: int| 0 <= j < i + 1 implies (#[trigger] self@.items[j])
                    == row_set_important(pre.items[j], tweet_id@, v) by {
                    if j < i {
                        assert(self@.items[j] == head.items[j]);
                        assert(head.items[j] == row_set_important(pre.items[j], tweet_id@, v));
                    }
                }
                assert forall|j: int| i + 1 <= j < pre.items.len() implies (
                #[trigger] self@.items[j]) == pre.items[j] by {
                    assert(self@.items[j] == head.items[j]);
                    assert(head.items[j] == pre.items[j]);
                }
            }
            i += 1;
        }
        proof {
            assert(self@.items =~= pre.items.map_values(
                |r: RowView| row_set_important(r, tweet_id@, v),
            ));
            assert(self@ == spec_set_important(pre, tweet_id@, v));
            lemma_set_flag_wf(pre, tweet_id@, v, false);
        }
    }

    /// Set the `archived` flag of the item `tweet_id` (no effect, no error,
    /// when the item does not exist).
    #[verifier::loop_isolation(false)]
    pub fn set_archived(&mut self, tweet_id: &String, v: bool)
        requires
            old(self)@.wf(),
        ensures
            final(self)@.wf(),
            final(self)@ == spec_set_archived(old(self)@, tweet_id@, v),
    {
        let ghost pre = self@;
        let mut i: usize = 0;
        while i < self.items.len()
            invariant
                i <= self.items@.len(),
                self.items@.len() == pre.items.len(),
                self.categories@ == old(self).categories@,
                self.links@ == old(self).links@,
                self.next_category_id == old(self).next_category_id,
                forall|j: int|
                    0 <= j < i ==> (#[trigger] self@.items[j]) == row_set_archived(
                        pre.items[j],
                        tweet_id@,
                        v,
                    ),
                forall|j: int| i <= j < pre.items.len() ==> (#[trigger] self@.items[j])
                    == pre.items[j],
            decreases self.items@.len() - i,
        {
            let ghost head = self@;
            if self.items[i].rest_id.eq(tweet_id) {
                let mut row = clone_row(&self.items[i]);
                row.archived = v;
                self.items[i] = row;
            }
            proof {
                assert(head.items[i as int] == pre.items[i as int]);
                assert(self@.items.len() == head.items.len());
                assert(forall|j: int|
                    0 <= j < head.items.len() && j != i ==> self@.items[j] == (
                    #[trigger] head.items[j]));
                assert(self@.items[i as int] == row_set_archived(pre.items[i as int], tweet_id@, v));
                assert forall|j: int| 0 <= j < i + 1 implies (#[trigger] self@.items[j])
                    == row_set_archived(pre.items[j], tweet_id@, v) by {
                    if j < i {
                        assert(self@.items[j] == head.items[j]);
                        assert(head.items[j] == row_set_archived(pre.items[j], tweet_id@, v));
                    }
                }
                assert forall|j: int| i + 1 <= j < pre.items.len() implies (
                #[trigger] self@.items[j]) == pre.items[j] by {
                    assert(self@.items[j] == head.items[j]);
                    assert(head.items[j] == pre.items[j]);
                }
            }
            i += 1;
        }
        proof {
            assert(self@.items =~= pre.items.map_values(
                |r: RowView| row_set_archived(r, tweet_id@, v),
            ));
            assert(self@ == spec_set_archived(pre, tweet_id@, v));
            lemma_set_flag_wf(pre, tweet_id@, v, true);
        }
    }

    /// Apply a whole patch request: each present field in order (add tag,
    /// remove tag, important, archived), aborting at the first failure; a
    /// patch with no recognized field is rejected without touching the store.
    pub fn patch(&mut self, rest_id: &String, update: &UpdateTweet) -> (r: Result<(), StoreError>)
        requires
            old(self)@.wf(),
            old(self).next_category_id < u64::MAX,
        ensures
            final(self)@.wf(),
            final(self)@ == spec_patch(old(self)@, rest_id@, update@).0,
            r == spec_patch(old(self)@, rest_id@, update@).1,
            !has_fields(update@) ==> *final(self) == *old(self),
    {
        let ghost pre = self@;
        let any = update.add_category.is_some() || update.remove_category.is_some()
            || update.important.is_some() || update.archived.is_some();
        if !any {
            return Err(StoreError::InvalidPatch);
        }
        if let Some(ref name) = update.add_category {
            let added = self.add_category(rest_id, name);
            if let Err(e) = added {
                proof {
                    assert(spec_patch(pre, rest_id@, update@).0 == self@);
                    assert(spec_patch(pre, rest_id@, update@).1 == Err::<(), StoreError>(
                        StoreError::Execution,
                    ));
                }
                return Err(e);
            }
        }
        if let Some(ref name) = update.remove_category {
            self.remove_category(rest_id, name);
        }
        if let Some(v) = update.important {
            self.set_important(rest_id, v);
        }
        if let Some(v) = update.archived {
            self.set_archived(rest_id, v);
        }
        Ok(())
    }
}

} // verus!
