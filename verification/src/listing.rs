//! Read-side queries over the store: the filtered, sorted, paginated item
//! listing, the category listing ordered by usage, and the summary counts.

use vstd::prelude::*;

use crate::params::{ListRequest, ReqView, spec_page_offset};
use crate::store::{cat_name, CatView, LinkView, RowView, Store, StoreView};
use crate::text::contains_ci;

verus! {

/// An item as returned to the client: the stored row together with the
/// aggregated list of its category names.
pub struct Tweet {
    pub rest_id: String,
    pub sort_index: String,
    pub screen_name: String,
    pub created_at: i64,
    pub fetched_at: i64,
    pub full_text: String,
    pub quoted_text: String,
    pub bookmarked: bool,
    pub liked: bool,
    pub important: bool,
    pub archived: bool,
    pub categories: Vec<String>,
}

/// Mathematical model of a returned item.
pub struct TweetView {
    pub rest_id: Seq<char>,
    pub sort_index: Seq<char>,
    pub screen_name: Seq<char>,
    pub created_at: int,
    pub fetched_at: int,
    pub full_text: Seq<char>,
    pub quoted_text: Seq<char>,
    pub bookmarked: bool,
    pub liked: bool,
    pub important: bool,
    pub archived: bool,
    pub categories: Seq<Seq<char>>,
}

impl View for Tweet {
    type V = TweetView;

    open spec fn view(&self) -> TweetView {
        TweetView {
            rest_id: self.rest_id@,
            sort_index: self.sort_index@,
            screen_name: self.screen_name@,
            created_at: self.created_at as int,
            fetched_at: self.fetched_at as int,
            full_text: self.full_text@,
            quoted_text: self.quoted_text@,
            bookmarked: self.bookmarked,
            liked: self.liked,
            important: self.important,
            archived: self.archived,
            categories: self.categories@.map_values(|s: String| s@),
        }
    }
}

/// Derived summary counts over the whole store.
pub struct Info {
    pub total: i64,
    pub categorized: i64,
    pub uncategorized: i64,
    pub archived: i64,
    pub important: i64,
}

// --- spec: mapping rows to returned items -----------------------------------

/// Names of the categories linked to item `tid`, in link-table order.
pub open spec fn cats_of(s: StoreView, tid: Seq<char>) -> Seq<Seq<char>> {
    s.links.filter(|l: LinkView| l.tweet_id == tid).map_values(
        |l: LinkView| cat_name(s.categories, l.category_id),
    )
}

/// The returned shape of one stored row: the row plus its category names.
pub open spec fn tweet_of(s: StoreView, r: RowView) -> TweetView {
    TweetView {
        rest_id: r.rest_id,
        sort_index: r.sort_index,
        screen_name: r.screen_name,
        created_at: r.created_at,
        fetched_at: r.fetched_at,
        full_text: r.full_text,
        quoted_text: r.quoted_text,
        bookmarked: r.bookmarked,
        liked: r.liked,
        important: r.important,
        archived: r.archived,
        categories: cats_of(s, r.rest_id),
    }
}

/// Every stored item in its returned shape, in store order.
pub open spec fn all_tweets(s: StoreView) -> Seq<TweetView> {
    s.items.map_values(|r: RowView| tweet_of(s, r))
}

// --- spec: matching ----------------------------------------------------------

/// One search term matches an item when it occurs (case-insensitively) in the
/// identifier, the handle, the body text, the quoted text, or any linked
/// category name.
pub open spec fn term_matches(t: TweetView, term: Seq<char>) -> bool {
    ||| contains_ci(t.rest_id, term)
    ||| contains_ci(t.screen_name, term)
    ||| contains_ci(t.full_text, term)
    ||| contains_ci(t.quoted_text, term)
    ||| exists|i: int| 0 <= i < t.categories.len() && contains_ci(#[trigger] t.categories[i], term)
}

/// An item passes the filters: not archived (when hidden), not categorized
/// (when hidden), and every search term matches somewhere.
pub open spec fn tweet_matches(t: TweetView, rv: ReqView) -> bool {
    &&& (rv.hide_archived ==> !t.archived)
    &&& (rv.hide_categorized ==> t.categories.len() == 0)
    &&& (forall|k: int| 0 <= k < rv.terms.len() ==> term_matches(t, #[trigger] rv.terms[k]))
}

/// The matching items, in store order.
pub open spec fn matching_tweets(s: StoreView, rv: ReqView) -> Seq<TweetView> {
    all_tweets(s).filter(|t: TweetView| tweet_matches(t, rv))
}

// --- spec: stable descending sort by an integer key ---------------------------

/// Insert `x` after every element whose key is at least `key(x)` (keeps the
/// sort stable).
pub open spec fn insert_desc_by<A>(x: A, s: Seq<A>, key: spec_fn(A) -> int) -> Seq<A>
    decreases s.len(),
{
    if s.len() == 0 {
        seq![x]
    } else if key(s[0]) >= key(x) {
        seq![s[0]] + insert_desc_by(x, s.drop_first(), key)
    } else {
        seq![x] + s
    }
}

/// Stable insertion sort, descending by `key`: equal keys keep their input
/// order.
pub open spec fn sort_desc_by<A>(s: Seq<A>, key: spec_fn(A) -> int) -> Seq<A>
    decreases s.len(),
{
    if s.len() == 0 {
        s
    } else {
        insert_desc_by(s.last(), sort_desc_by(s.drop_last(), key), key)
    }
}

/// Keys never increase along the sequence.
pub open spec fn sorted_desc_by<A>(s: Seq<A>, key: spec_fn(A) -> int) -> bool {
    forall|i: int, j: int| 0 <= i < j < s.len() ==> key(#[trigger] s[i]) >= key(#[trigger] s[j])
}

/// A scan that stops at the first element with a smaller key finds where
/// `insert_desc_by` places `x`.
pub proof fn lemma_insert_desc_at<A>(s: Seq<A>, key: spec_fn(A) -> int, x: A, j: int)
    requires
        0 <= j <= s.len(),
        forall|k: int| 0 <= k < j ==> key(#[trigger] s[k]) >= key(x),
        j < s.len() ==> key(s[j]) < key(x),
    ensures
        insert_desc_by(x, s, key) == s.insert(j, x),
    decreases j,
{
    if j == 0 {
        if s.len() == 0 {
            assert(s.insert(0, x) =~= seq![x]);
        } else {
            assert(insert_desc_by(x, s, key) == seq![x] + s);
            assert(s.insert(0, x) =~= seq![x] + s);
        }
    } else {
        let rest = s.drop_first();
        assert(forall|k: int| 0 <= k < rest.len() ==> rest[k] == (#[trigger] s[k + 1]));
        lemma_insert_desc_at(rest, key, x, j - 1);
        assert(seq![s[0]] + rest.insert(j - 1, x) =~= s.insert(j, x));
    }
}

/// Inserting keeps the sequence sorted.
pub proof fn lemma_insert_desc_sorted<A>(x: A, s: Seq<A>, key: spec_fn(A) -> int)
    requires
        sorted_desc_by(s, key),
    ensures
        sorted_desc_by(insert_desc_by(x, s, key), key),
    decreases s.len(),
{
    if s.len() > 0 {
        let rest = s.drop_first();
        assert(forall|k: int| 0 <= k < rest.len() ==> rest[k] == (#[trigger] s[k + 1]));
        if key(s[0]) >= key(x) {
            lemma_insert_desc_sorted(x, rest, key);
            let inner = insert_desc_by(x, rest, key);
            let out = insert_desc_by(x, s, key);
            assert(out == seq![s[0]] + inner);
            assert forall|i: int, j: int| 0 <= i < j < out.len() implies key(#[trigger] out[i])
                >= key(#[trigger] out[j]) by {
                if i == 0 {
                    // the head dominates the whole tail
                    lemma_insert_desc_members(x, rest, key);
                    assert(out[j] == inner[j - 1]);
                    let e = inner[j - 1];
                    assert(e == x || rest.contains(e));
                    if rest.contains(e) {
                        let k = choose|k: int| 0 <= k < rest.len() && rest[k] == e;
                        assert(key(s[0]) >= key(s[k + 1]));
                    }
                } else {
                    assert(out[i] == inner[i - 1] && out[j] == inner[j - 1]);
                }
            }
        }
    }
}

/// Every element of an insertion result is the inserted element or one of the
/// originals.
pub proof fn lemma_insert_desc_members<A>(x: A, s: Seq<A>, key: spec_fn(A) -> int)
    ensures
        insert_desc_by(x, s, key).len() == s.len() + 1,
        forall|i: int|
            0 <= i < insert_desc_by(x, s, key).len() ==> (#[trigger] insert_desc_by(x, s, key)[i])
                == x || s.contains(insert_desc_by(x, s, key)[i]),
    decreases s.len(),
{
    if s.len() > 0 {
        let rest = s.drop_first();
        assert(forall|k: int| 0 <= k < rest.len() ==> rest[k] == (#[trigger] s[k + 1]));
        lemma_insert_desc_members(x, rest, key);
        let out = insert_desc_by(x, s, key);
        if key(s[0]) >= key(x) {
            let inner = insert_desc_by(x, rest, key);
            assert forall|i: int| 0 <= i < out.len() implies (#[trigger] out[i]) == x
                || s.contains(out[i]) by {
                if i == 0 {
                    assert(s[0] == s[0]);
                    assert(s.contains(s[0]));
                } else {
                    assert(out[i] == inner[i - 1]);
                    if inner[i - 1] == x {
                    } else {
                        assert(rest.contains(inner[i - 1]));
                        let k = choose|k: int| 0 <= k < rest.len() && rest[k] == inner[i - 1];
                        assert(s[k + 1] == inner[i - 1]);
                        assert(s.contains(s[k + 1]));
                    }
                }
            }
        } else {
            assert forall|i: int| 0 <= i < out.len() implies (#[trigger] out[i]) == x
                || s.contains(out[i]) by {
                if i > 0 {
                    assert(out[i] == s[i - 1]);
                    assert(s.contains(s[i - 1]));
                }
            }
        }
    }
}

/// The sort really sorts (descending by key).
pub proof fn lemma_sort_desc_sorted<A>(s: Seq<A>, key: spec_fn(A) -> int)
    ensures
        sorted_desc_by(sort_desc_by(s, key), key),
        sort_desc_by(s, key).len() == s.len(),
    decreases s.len(),
{
    if s.len() > 0 {
        lemma_sort_desc_sorted(s.drop_last(), key);
        lemma_insert_desc_sorted(s.last(), sort_desc_by(s.drop_last(), key), key);
        lemma_insert_desc_members(s.last(), sort_desc_by(s.drop_last(), key), key);
    }
}

/// A property of every input element holds of every output element.
pub proof fn lemma_sort_desc_pred<A>(s: Seq<A>, key: spec_fn(A) -> int, pred: spec_fn(A) -> bool)
    requires
        forall|i: int| 0 <= i < s.len() ==> pred(#[trigger] s[i]),
    ensures
        sort_desc_by(s, key).len() == s.len(),
        forall|i: int|
            0 <= i < s.len() ==> pred(#[trigger] sort_desc_by(s, key)[i]),
    decreases s.len(),
{
    if s.len() > 0 {
        let prefix = s.drop_last();
        assert(forall|k: int| 0 <= k < prefix.len() ==> prefix[k] == (#[trigger] s[k]));
        lemma_sort_desc_pred(prefix, key, pred);
        let inner = sort_desc_by(prefix, key);
        lemma_insert_desc_members(s.last(), inner, key);
        let out = sort_desc_by(s, key);
        assert(pred(s.last()));
        assert forall|i: int| 0 <= i < s.len() implies pred(#[trigger] out[i]) by {
            assert(out[i] == seq_at(out, i));
            if out[i] == s.last() {
            } else {
                assert(out[i] == s.last() || inner.contains(out[i]));
                if inner.contains(out[i]) {
                    let k = choose|k: int| 0 <= k < inner.len() && inner[k] == out[i];
                    assert(pred(inner[k]));
                }
            }
        }
    }
}

/// The element of `s` at `i` (names an indexed element inside a proof).
pub open spec fn seq_at<A>(s: Seq<A>, i: int) -> A {
    s[i]
}

// --- spec: pagination --------------------------------------------------------

/// The requested page of a sorted listing: rows `offset .. offset+size`,
/// clamped to the sequence.
pub open spec fn page_slice(s: Seq<TweetView>, size: int, number: int) -> Seq<TweetView> {
    let off = spec_page_offset(size, number);
    let lo = if off < 0 {
        0
    } else if off > s.len() {
        s.len() as int
    } else {
        off
    };
    let hi_raw = lo + size;
    let hi = if hi_raw < lo {
        lo
    } else if hi_raw > s.len() {
        s.len() as int
    } else {
        hi_raw
    };
    s.subrange(lo, hi)
}

/// The full listing pipeline: map rows to returned items, filter, sort by
/// creation time descending (stable), and take the requested page.
pub open spec fn spec_list_items(s: StoreView, rv: ReqView) -> Seq<TweetView> {
    page_slice(
        sort_desc_by(matching_tweets(s, rv), |t: TweetView| t.created_at),
        rv.page_size,
        rv.page_number,
    )
}

// --- spec: category listing and summary --------------------------------------

/// A category name with its usage count.
pub struct CatCount {
    pub name: Seq<char>,
    pub count: int,
}

/// The categories that links still reference, each with its usage count, in
/// store order.
pub open spec fn counted_cats(s: StoreView) -> Seq<CatCount> {
    s.categories.filter(|c: CatView| crate::store::link_count(s.links, c.id) > 0).map_values(
        |c: CatView| CatCount { name: c.name, count: crate::store::link_count(s.links, c.id) as int },
    )
}

/// The category listing: names ordered by usage count descending; ties keep
/// store order, so the result is deterministic for a fixed store.
pub open spec fn spec_list_categories(s: StoreView) -> Seq<Seq<char>> {
    sort_desc_by(counted_cats(s), |c: CatCount| c.count).map_values(|c: CatCount| c.name)
}

/// Some link references item `tid`.
pub open spec fn has_any_link(links: Seq<LinkView>, tid: Seq<char>) -> bool {
    exists|i: int| 0 <= i < links.len() && (#[trigger] links[i]).tweet_id == tid
}

/// Number of items with at least one linked category.
pub open spec fn count_categorized(s: StoreView) -> int {
    s.items.filter(|r: RowView| has_any_link(s.links, r.rest_id)).len() as int
}

/// Number of archived items.
pub open spec fn count_archived(s: StoreView) -> int {
    s.items.filter(|r: RowView| r.archived).len() as int
}

/// Number of important items.
pub open spec fn count_important(s: StoreView) -> int {
    s.items.filter(|r: RowView| r.important).len() as int
}

// --- executable queries -------------------------------------------------------

/// A category name with its usage count (executable shape).
pub struct NamedCount {
    pub name: String,
    pub count: usize,
}

impl View for NamedCount {
    type V = CatCount;

    open spec fn view(&self) -> CatCount {
        CatCount { name: self.name@, count: self.count as int }
    }
}

impl Store {
    /// Name of the category with identifier `cid`, or empty when absent.
    #[verifier::loop_isolation(false)]
    fn category_name_by_id(&self, cid: u64) -> (r: String)
        ensures
            r@ == cat_name(self@.categories, cid as int),
    {
        let mut i: usize = 0;
        while i < self.categories.len()
            invariant
                i <= self.categories@.len(),
                forall|j: int| 0 <= j < i ==> (#[trigger] self@.categories[j]).id != cid as int,
            decreases self.categories@.len() - i,
        {
            if self.categories[i].id == cid {
                proof {
                    crate::store::lemma_cat_name_at(self@.categories, cid as int, i as int);
                }
                return self.categories[i].name.clone();
            }
            i += 1;
        }
        proof {
            crate::store::lemma_cat_name_at(self@.categories, cid as int, i as int);
        }
        String::new()
    }

    /// The category names linked to item `tid`, in link-table order.
    #[verifier::loop_isolation(false)]
    fn item_categories(&self, tid: &String) -> (r: Vec<String>)
        ensures
            r@.map_values(|s: String| s@) == cats_of(self@, tid@),
    {
        let mut out: Vec<String> = Vec::new();
        proof {
            reveal(Seq::filter);
            assert(self@.links.take(0) =~= Seq::<LinkView>::empty());
            assert(out@.map_values(|s: String| s@) =~= Seq::<Seq<char>>::empty());
            assert(Seq::<LinkView>::empty().map_values(
                |l: LinkView| cat_name(self@.categories, l.category_id),
            ) =~= Seq::<Seq<char>>::empty());
        }
        let mut i: usize = 0;
        while i < self.links.len()
            invariant
                i <= self.links@.len(),
                out@.map_values(|s: String| s@) == self@.links.take(i as int).filter(
                    |l: LinkView| l.tweet_id == tid@,
                ).map_values(|l: LinkView| cat_name(self@.categories, l.category_id)),
            decreases self.links@.len() - i,
        {
            let ghost prefix = self@.links.take(i as int);
            let ghost lv = self@.links[i as int];
            let ghost pred = |l: LinkView| l.tweet_id == tid@;
            let ghost f = |l: LinkView| cat_name(self@.categories, l.category_id);
            proof {
                assert(self@.links.take(i as int + 1) =~= prefix.push(lv));
                crate::store::lemma_filter_push(prefix, pred, lv);
            }
            if self.links[i].tweet_id.eq(tid) {
                let ghost prev = out@;
                let name = self.category_name_by_id(self.links[i].category_id);
                out.push(name);
                proof {
                    assert(pred(lv));
                    assert(prefix.filter(pred).push(lv).map_values(f) =~= prefix.filter(
                        pred,
                    ).map_values(f).push(f(lv)));
                    assert(out@.map_values(|s: String| s@) =~= prev.map_values(
                        |s: String| s@,
                    ).push(f(lv)));
                }
            } else {
                proof {
                    assert(!pred(lv));
                }
            }
            i += 1;
        }
        proof {
            assert(self@.links.take(i as int) =~= self@.links);
        }
        out
    }

    /// The item at position `i` in its returned shape.
    fn build_tweet(&self, i: usize) -> (t: Tweet)
        requires
            i < self@.items.len(),
        ensures
            t@ == tweet_of(self@, self@.items[i as int]),
    {
        let row = &self.items[i];
        let categories = self.item_categories(&row.rest_id);
        let t = Tweet {
            rest_id: row.rest_id.clone(),
            sort_index: row.sort_index.clone(),
            screen_name: row.screen_name.clone(),
            created_at: row.created_at,
            fetched_at: row.fetched_at,
            full_text: row.full_text.clone(),
            quoted_text: row.quoted_text.clone(),
            bookmarked: row.bookmarked,
            liked: row.liked,
            important: row.important,
            archived: row.archived,
            categories,
        };
        t
    }
}

/// Does `term` match this item in any of the five searched places?
#[verifier::loop_isolation(false)]
fn term_matches_exec(t: &Tweet, term: &String) -> (r: bool)
    ensures
        r == term_matches(t@, term@),
{
    if crate::text::contains_ci_exec(t.rest_id.as_str(), term.as_str()) {
        return true;
    }
    if crate::text::contains_ci_exec(t.screen_name.as_str(), term.as_str()) {
        return true;
    }
    if crate::text::contains_ci_exec(t.full_text.as_str(), term.as_str()) {
        return true;
    }
    if crate::text::contains_ci_exec(t.quoted_text.as_str(), term.as_str()) {
        return true;
    }
    let mut i: usize = 0;
    while i < t.categories.len()
        invariant
            i <= t.categories@.len(),
            forall|j: int| 0 <= j < i ==> !contains_ci(#[trigger] t@.categories[j], term@),
        decreases t.categories@.len() - i,
    {
        if crate::text::contains_ci_exec(t.categories[i].as_str(), term.as_str()) {
            assert(contains_ci(t@.categories[i as int], term@));
            return true;
        }
        i += 1;
    }
    false
}

/// Does this item pass every filter of the request?
#[verifier::loop_isolation(false)]
fn tweet_matches_exec(t: &Tweet, req: &ListRequest) -> (r: bool)
    ensures
        r == tweet_matches(t@, req@),
{
    if req.hide_archived && t.archived {
        return false;
    }
    if req.hide_categorized && t.categories.len() > 0 {
        return false;
    }
    let mut k: usize = 0;
    while k < req.terms.len()
        invariant
            k <= req.terms@.len(),
            forall|j: int| 0 <= j < k ==> term_matches(t@, (#[trigger] req@.terms[j])),
        decreases req.terms@.len() - k,
    {
        if !term_matches_exec(t, &req.terms[k]) {
            assert(!term_matches(t@, req@.terms[k as int]));
            return false;
        }
        k += 1;
    }
    true
}

/// Place `x` after the existing items whose creation time is no older.
#[verifier::loop_isolation(false)]
fn insert_tweet_sorted(v: &mut Vec<Tweet>, x: Tweet)
    ensures
        final(v)@.map_values(|t: Tweet| t@) == insert_desc_by(
            x@,
            old(v)@.map_values(|t: Tweet| t@),
            |t: TweetView| t.created_at,
        ),
{
    let mut j: usize = 0;
    while j < v.len() && v[j].created_at >= x.created_at
        invariant
            j <= v@.len(),
            forall|k: int| 0 <= k < j ==> (#[trigger] v@[k]@).created_at >= x@.created_at,
        decreases v@.len() - j,
    {
        j += 1;
    }
    let ghost before = v@.map_values(|t: Tweet| t@);
    proof {
        lemma_insert_desc_at(before, |t: TweetView| t.created_at, x@, j as int);
    }
    v.insert(j, x);
    proof {
        assert(v@.map_values(|t: Tweet| t@) =~= before.insert(j as int, x@));
    }
}

/// Stable insertion sort of items, newest first.
#[verifier::loop_isolation(false)]
fn sort_tweets(v: Vec<Tweet>) -> (out: Vec<Tweet>)
    ensures
        out@.map_values(|t: Tweet| t@) == sort_desc_by(
            v@.map_values(|t: Tweet| t@),
            |t: TweetView| t.created_at,
        ),
{
    let ghost whole = v@.map_values(|t: Tweet| t@);
    let mut rest = v;
    let mut out: Vec<Tweet> = Vec::new();
    let ghost mut k: int = 0;
    proof {
        assert(rest@ =~= v@.skip(0));
        assert(whole.take(0) =~= Seq::<TweetView>::empty());
        assert(out@.map_values(|t: Tweet| t@) =~= sort_desc_by(
            whole.take(0),
            |t: TweetView| t.created_at,
        ));
    }
    while rest.len() > 0
        invariant
            0 <= k <= v@.len(),
            rest@ == v@.skip(k),
            out@.map_values(|t: Tweet| t@) == sort_desc_by(
                whole.take(k),
                |t: TweetView| t.created_at,
            ),
            whole == v@.map_values(|t: Tweet| t@),
        decreases rest@.len(),
    {
        let x = rest.remove(0);
        proof {
            assert(x == v@[k]);
            assert(rest@ =~= v@.skip(k + 1));
        }
        insert_tweet_sorted(&mut out, x);
        proof {
            let key = |t: TweetView| t.created_at;
            assert(whole.take(k + 1).drop_last() =~= whole.take(k));
            assert(whole.take(k + 1).last() == x@);
            assert(sort_desc_by(whole.take(k + 1), key) == insert_desc_by(
                x@,
                sort_desc_by(whole.take(k), key),
                key,
            ));
            k = k + 1;
        }
    }
    proof {
        assert(whole.take(k) =~= whole);
    }
    out
}

impl Store {
    /// The listing operation: filter, search, sort newest first, paginate.
    #[verifier::loop_isolation(false)]
    pub fn list_items(&self, req: &ListRequest) -> (r: Vec<Tweet>)
        requires
            1 <= req.page_size,
            1 <= req.page_number,
            req.page_number * req.page_size <= i64::MAX,
        ensures
            r@.map_values(|t: Tweet| t@) == spec_list_items(self@, req@),
    {
        let ghost rv = req@;
        let ghost pred = |t: TweetView| tweet_matches(t, rv);
        let mut found: Vec<Tweet> = Vec::new();
        proof {
            reveal(Seq::filter);
            assert(all_tweets(self@).take(0) =~= Seq::<TweetView>::empty());
            assert(found@.map_values(|t: Tweet| t@) =~= all_tweets(self@).take(0).filter(pred));
        }
        let mut i: usize = 0;
        while i < self.items.len()
            invariant
                i <= self@.items.len(),
                found@.map_values(|t: Tweet| t@) == all_tweets(self@).take(i as int).filter(
                    pred,
                ),
            decreases self@.items.len() - i,
        {
            let ghost prefix = all_tweets(self@).take(i as int);
            let ghost tv = all_tweets(self@)[i as int];
            proof {
                assert(all_tweets(self@).take(i as int + 1) =~= prefix.push(tv));
                crate::store::lemma_filter_push(prefix, pred, tv);
            }
            let t = self.build_tweet(i);
            proof {
                assert(t@ == tv);
            }
            if tweet_matches_exec(&t, req) {
                let ghost prev = found@;
                found.push(t);
                proof {
                    assert(found@.map_values(|t2: Tweet| t2@) =~= prev.map_values(
                        |t2: Tweet| t2@,
                    ).push(tv));
                }
            }
            i += 1;
        }
        proof {
            assert(all_tweets(self@).take(i as int) =~= all_tweets(self@));
            assert(found@.map_values(|t: Tweet| t@) == matching_tweets(self@, rv));
        }
        let mut sorted = sort_tweets(found);
        let ghost sorted_view = sort_desc_by(matching_tweets(self@, rv), |t: TweetView| t.created_at);
        proof {
            assert((req.page_number - 1) * req.page_size + req.page_size == req.page_number
                * req.page_size) by (nonlinear_arith);
            assert(0 <= (req.page_number - 1) * req.page_size) by (nonlinear_arith)
                requires
                    1 <= req.page_size,
                    1 <= req.page_number,
            ;
        }
        let off = crate::params::page_offset(req.page_size, req.page_number);
        let hi_wanted = off + req.page_size;
        let len = sorted.len();
        let lo: usize = if off as u128 >= len as u128 {
            len
        } else {
            off as usize
        };
        let hi: usize = if hi_wanted as u128 >= len as u128 {
            len
        } else {
            hi_wanted as usize
        };
        sorted.truncate(hi);
        let page = sorted.split_off(lo);
        proof {
            assert(page@.map_values(|t: Tweet| t@) =~= sorted_view.subrange(lo as int, hi as int));
            assert(spec_list_items(self@, rv) == sorted_view.subrange(lo as int, hi as int));
        }
        page
    }

    /// The category listing: every used category name, ordered by usage count
    /// descending (ties keep store order).
    #[verifier::loop_isolation(false)]
    pub fn list_categories(&self) -> (r: Vec<String>)
        ensures
            r@.map_values(|s: String| s@) == spec_list_categories(self@),
    {
        let ghost s = self@;
        let ghost keepc = |c: CatView| crate::store::link_count(s.links, c.id) > 0;
        let ghost f = |c: CatView| CatCount {
            name: c.name,
            count: crate::store::link_count(s.links, c.id) as int,
        };
        let mut counted: Vec<NamedCount> = Vec::new();
        proof {
            reveal(Seq::filter);
            assert(s.categories.take(0) =~= Seq::<CatView>::empty());
            assert(counted@.map_values(|c: NamedCount| c@) =~= s.categories.take(0).filter(
                keepc,
            ).map_values(f));
        }
        let mut i: usize = 0;
        while i < self.categories.len()
            invariant
                i <= s.categories.len(),
                counted@.map_values(|c: NamedCount| c@) == s.categories.take(i as int).filter(
                    keepc,
                ).map_values(f),
            decreases s.categories.len() - i,
        {
            let ghost prefix = s.categories.take(i as int);
            let ghost cv = s.categories[i as int];
            proof {
                assert(s.categories.take(i as int + 1) =~= prefix.push(cv));
                crate::store::lemma_filter_push(prefix, keepc, cv);
            }
            let cnt = self.count_links(self.categories[i].id);
            if cnt > 0 {
                let ghost prev = counted@;
                counted.push(NamedCount { name: self.categories[i].name.clone(), count: cnt });
                proof {
                    assert(keepc(cv));
                    assert(prefix.filter(keepc).push(cv).map_values(f) =~= prefix.filter(
                        keepc,
                    ).map_values(f).push(f(cv)));
                    assert(counted@.map_values(|c: NamedCount| c@) =~= prev.map_values(
                        |c: NamedCount| c@,
                    ).push(f(cv)));
                }
            } else {
                proof {
                    assert(!keepc(cv));
                }
            }
            i += 1;
        }
        proof {
            assert(s.categories.take(i as int) =~= s.categories);
            assert(counted@.map_values(|c: NamedCount| c@) == counted_cats(s));
        }
        // sort by usage count, descending, stable
        let ghost ckey = |c: CatCount| c.count;
        let mut rest = counted;
        let ghost whole = counted_cats(s);
        let mut sorted: Vec<NamedCount> = Vec::new();
        let ghost mut k: int = 0;
        proof {
            assert(rest@.map_values(|c: NamedCount| c@) =~= whole.skip(0));
            assert(whole.take(0) =~= Seq::<CatCount>::empty());
            assert(sorted@.map_values(|c: NamedCount| c@) =~= sort_desc_by(whole.take(0), ckey));
        }
        while rest.len() > 0
            invariant
                0 <= k <= whole.len(),
                rest@.map_values(|c: NamedCount| c@) == whole.skip(k),
                sorted@.map_values(|c: NamedCount| c@) == sort_desc_by(whole.take(k), ckey),
                whole == counted_cats(s),
                ckey == (|c: CatCount| c.count),
            decreases rest@.len(),
        {
            let ghost prev_rest = rest@;
            let x = rest.remove(0);
            proof {
                assert(x == prev_rest[0]);
                assert(x@ == prev_rest.map_values(|c: NamedCount| c@)[0]);
                assert(x@ == whole.skip(k)[0]);
                assert(x@ == whole[k]);
                assert(rest@ =~= prev_rest.skip(1));
                assert(rest@.map_values(|c: NamedCount| c@) =~= prev_rest.map_values(
                    |c: NamedCount| c@,
                ).skip(1));
                assert(rest@.map_values(|c: NamedCount| c@) =~= whole.skip(k + 1));
            }
            // find the insertion point
            let mut j: usize = 0;
            while j < sorted.len() && sorted[j].count >= x.count
                invariant
                    j <= sorted@.len(),
                    forall|m: int| 0 <= m < j ==> (#[trigger] sorted@[m]@).count >= x@.count,
                decreases sorted@.len() - j,
            {
                j += 1;
            }
            let ghost before = sorted@.map_values(|c: NamedCount| c@);
            proof {
                lemma_insert_desc_at(before, ckey, x@, j as int);
            }
            sorted.insert(j, x);
            proof {
                assert(sorted@.map_values(|c: NamedCount| c@) =~= before.insert(j as int, x@));
                assert(whole.take(k + 1).drop_last() =~= whole.take(k));
                assert(whole.take(k + 1).last() == x@);
                assert(sort_desc_by(whole.take(k + 1), ckey) == insert_desc_by(
                    x@,
                    sort_desc_by(whole.take(k), ckey),
                    ckey,
                ));
                k = k + 1;
            }
        }
        proof {
            assert(whole.take(k) =~= whole);
        }
        // project the names
        let mut out: Vec<String> = Vec::new();
        proof {
            assert(out@.map_values(|n: String| n@) =~= sort_desc_by(whole, ckey).map_values(
                |c: CatCount| c.name,
            ).take(0));
        }
        let mut m: usize = 0;
        while m < sorted.len()
            invariant
                m <= sorted@.len(),
                sorted@.map_values(|c: NamedCount| c@) == sort_desc_by(whole, ckey),
                out@.map_values(|n: String| n@) == sort_desc_by(whole, ckey).map_values(
                    |c: CatCount| c.name,
                ).take(m as int),
                whole == counted_cats(s),
                ckey == (|c: CatCount| c.count),
            decreases sorted@.len() - m,
        {
            let ghost prev = out@;
            out.push(sorted[m].name.clone());
            proof {
                assert(out@.map_values(|n: String| n@) =~= prev.map_values(|n: String| n@).push(
                    sorted@[m as int]@.name,
                ));
                assert(sort_desc_by(whole, ckey).map_values(|c: CatCount| c.name).take(
                    m as int + 1,
                ) =~= sort_desc_by(whole, ckey).map_values(|c: CatCount| c.name).take(
                    m as int,
                ).push(sort_desc_by(whole, ckey).map_values(|c: CatCount| c.name)[m as int]));
            }
            m += 1;
        }
        proof {
            assert(sort_desc_by(whole, ckey).map_values(|c: CatCount| c.name).take(m as int)
                =~= sort_desc_by(whole, ckey).map_values(|c: CatCount| c.name));
        }
        out
    }

    /// The summary counts: total, categorized, uncategorized, archived,
    /// important.
    #[verifier::loop_isolation(false)]
    pub fn summary(&self) -> (info: Info)
        requires
            self@.items.len() <= i64::MAX,
        ensures
            info.total == self@.items.len(),
            info.categorized == count_categorized(self@),
            info.uncategorized == info.total - info.categorized,
            info.archived == count_archived(self@),
            info.important == count_important(self@),
    {
        let ghost s = self@;
        let ghost pcat = |r: RowView| has_any_link(s.links, r.rest_id);
        let ghost parch = |r: RowView| r.archived;
        let ghost pimp = |r: RowView| r.important;
        let mut n_cat: usize = 0;
        let mut n_arch: usize = 0;
        let mut n_imp: usize = 0;
        proof {
            reveal(Seq::filter);
            broadcast use vstd::seq_lib::group_filter_ensures;

            assert(s.items.take(0) =~= Seq::<RowView>::empty());
        }
        let mut i: usize = 0;
        while i < self.items.len()
            invariant
                i <= s.items.len(),
                n_cat == s.items.take(i as int).filter(pcat).len(),
                n_arch == s.items.take(i as int).filter(parch).len(),
                n_imp == s.items.take(i as int).filter(pimp).len(),
                n_cat <= i && n_arch <= i && n_imp <= i,
            decreases s.items.len() - i,
        {
            let ghost prefix = s.items.take(i as int);
            let ghost rv = s.items[i as int];
            proof {
                assert(s.items.take(i as int + 1) =~= prefix.push(rv));
                crate::store::lemma_filter_push(prefix, pcat, rv);
                crate::store::lemma_filter_push(prefix, parch, rv);
                crate::store::lemma_filter_push(prefix, pimp, rv);
            }
            if self.item_has_link(i) {
                n_cat += 1;
            }
            if self.items[i].archived {
                n_arch += 1;
            }
            if self.items[i].important {
                n_imp += 1;
            }
            i += 1;
        }
        proof {
            assert(s.items.take(i as int) =~= s.items);
        }
        let total = self.items.len();
        Info {
            total: total as i64,
            categorized: n_cat as i64,
            uncategorized: (total - n_cat) as i64,
            archived: n_arch as i64,
            important: n_imp as i64,
        }
    }

    /// Does the item at position `i` have at least one linked category?
    #[verifier::loop_isolation(false)]
    fn item_has_link(&self, i: usize) -> (r: bool)
        requires
            i < self@.items.len(),
        ensures
            r == has_any_link(self@.links, self@.items[i as int].rest_id),
    {
        let tid = &self.items[i].rest_id;
        let mut j: usize = 0;
        while j < self.links.len()
            invariant
                j <= self@.links.len(),
                forall|m: int| 0 <= m < j ==> (#[trigger] self@.links[m]).tweet_id != tid@,
            decreases self@.links.len() - j,
        {
            if self.links[j].tweet_id.eq(tid) {
                assert(self@.links[j as int].tweet_id == tid@);
                return true;
            }
            j += 1;
        }
        false
    }
}

// --- laws of the listing ------------------------------------------------------

/// Every listed item passes every filter of the request.
pub proof fn lemma_list_items_match(s: StoreView, rv: ReqView)
    ensures
        forall|i: int|
            0 <= i < spec_list_items(s, rv).len() ==> tweet_matches(
                #[trigger] spec_list_items(s, rv)[i],
                rv,
            ),
{
    broadcast use vstd::seq_lib::group_filter_ensures;

    let key = |t: TweetView| t.created_at;
    let pred = |t: TweetView| tweet_matches(t, rv);
    let m = matching_tweets(s, rv);
    lemma_sort_desc_pred(m, key, pred);
    let sorted = sort_desc_by(m, key);
    assert forall|i: int| 0 <= i < spec_list_items(s, rv).len() implies tweet_matches(
        #[trigger] spec_list_items(s, rv)[i],
        rv,
    ) by {
        let listed = spec_list_items(s, rv);
        assert(listed[i] == seq_at(listed, i));
        // a page entry is an entry of the sorted sequence
        let off = spec_page_offset(rv.page_size, rv.page_number);
        let lo = if off < 0 {
            0
        } else if off > sorted.len() {
            sorted.len() as int
        } else {
            off
        };
        assert(listed[i] == sorted[lo + i]);
        assert(pred(sorted[lo + i]));
    }
}

/// The default listing (both hide flags on) contains no archived item and no
/// categorized item.
pub proof fn lemma_default_listing_excludes(s: StoreView, rv: ReqView)
    requires
        rv.hide_archived,
        rv.hide_categorized,
    ensures
        forall|i: int|
            0 <= i < spec_list_items(s, rv).len() ==> !(#[trigger] spec_list_items(s, rv)[i]).archived
                && spec_list_items(s, rv)[i].categories.len() == 0,
{
    lemma_list_items_match(s, rv);
}

/// Search is conjunctive across terms: every listed item matches every term
/// (and, by `term_matches`, each term disjunctively over the five fields).
pub proof fn lemma_search_is_conjunctive(s: StoreView, rv: ReqView)
    ensures
        forall|i: int, k: int|
            0 <= i < spec_list_items(s, rv).len() && 0 <= k < rv.terms.len() ==> term_matches(
                #[trigger] spec_list_items(s, rv)[i],
                #[trigger] rv.terms[k],
            ),
{
    lemma_list_items_match(s, rv);
}

/// The category listing is ordered by usage count, descending; ties keep
/// store order, so the listing is a function of the store alone.
pub proof fn lemma_list_categories_sorted(s: StoreView)
    ensures
        sorted_desc_by(sort_desc_by(counted_cats(s), |c: CatCount| c.count), |c: CatCount| c.count),
{
    lemma_sort_desc_sorted(counted_cats(s), |c: CatCount| c.count);
}

/// Every listed category name belongs to a category row of the store.
pub proof fn lemma_listed_names_exist(s: StoreView)
    ensures
        forall|i: int|
            0 <= i < spec_list_categories(s).len() ==> crate::store::has_cat(
                s.categories,
                #[trigger] spec_list_categories(s)[i],
            ),
{
    broadcast use vstd::seq_lib::group_filter_ensures, Seq::lemma_filter_contains_rev;

    let ckey = |c: CatCount| c.count;
    let pred = |c: CatCount| crate::store::has_cat(s.categories, c.name);
    let counted = counted_cats(s);
    let kept = s.categories.filter(|c: CatView| crate::store::link_count(s.links, c.id) > 0);
    assert forall|i: int| 0 <= i < counted.len() implies pred(#[trigger] counted[i]) by {
        assert(counted[i].name == kept[i].name);
        assert(kept.contains(kept[i]));
        assert(s.categories.contains(kept[i]));
        let j = choose|j: int| 0 <= j < s.categories.len() && s.categories[j] == kept[i];
        assert(s.categories[j].name == counted[i].name);
    }
    lemma_sort_desc_pred(counted, ckey, pred);
    let sorted = sort_desc_by(counted, ckey);
    assert forall|i: int| 0 <= i < spec_list_categories(s).len() implies crate::store::has_cat(
        s.categories,
        #[trigger] spec_list_categories(s)[i],
    ) by {
        assert(spec_list_categories(s)[i] == sorted[i].name);
        assert(pred(sorted[i]));
    }
}

/// After removing the only link of a category, the category listing no
/// longer contains its name.
pub proof fn lemma_removed_category_not_listed(s: StoreView, tid: Seq<char>, name: Seq<char>)
    requires
        s.wf(),
        crate::store::link_count(s.links, crate::store::find_cat_id(s.categories, name))
            == crate::store::links_between(
            s.links,
            tid,
            crate::store::find_cat_id(s.categories, name),
        ),
    ensures
        forall|i: int|
            0 <= i < spec_list_categories(crate::store::spec_remove_category(s, tid, name)).len()
                ==> (#[trigger] spec_list_categories(
                crate::store::spec_remove_category(s, tid, name),
            )[i]) != name,
{
    let r = crate::store::spec_remove_category(s, tid, name);
    crate::store::lemma_remove_category_cleans(s, tid, name);
    lemma_listed_names_exist(r);
    assert forall|i: int| 0 <= i < spec_list_categories(r).len() implies (
    #[trigger] spec_list_categories(r)[i]) != name by {
        if spec_list_categories(r)[i] == name {
            assert(crate::store::has_cat(r.categories, name));
        }
    }
}

} // verus!
