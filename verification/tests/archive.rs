use tweet_archive::listing::Tweet;
use tweet_archive::params::{normalize, page_offset, Parameters};
use tweet_archive::sql::{build_list_query, build_patch_commands, categories_query, summary_query, SqlValue};
use tweet_archive::store::{Store, StoreError, TweetRow, UpdateTweet};
use tweet_archive::text::{contains_ci_exec, split_ws_exec};

fn row(id: &str, handle: &str, text: &str, created: i64, archived: bool) -> TweetRow {
    TweetRow {
        rest_id: id.to_string(),
        sort_index: id.to_string(),
        screen_name: handle.to_string(),
        created_at: created,
        fetched_at: created + 1,
        full_text: text.to_string(),
        quoted_text: String::new(),
        bookmarked: true,
        liked: false,
        important: false,
        archived,
    }
}

fn no_filters() -> Parameters {
    Parameters {
        page_size: None,
        page_number: None,
        hide_archived: None,
        hide_categorized: None,
        search: None,
    }
}

fn empty_patch() -> UpdateTweet {
    UpdateTweet { add_category: None, remove_category: None, important: None, archived: None }
}

fn listed_ids(items: &[Tweet]) -> Vec<String> {
    items.iter().map(|t| t.rest_id.clone()).collect()
}

#[test]
fn pagination_offset_formula() {
    assert_eq!(page_offset(20, 3), 40);
    assert_eq!(page_offset(10, 1), 0);
    assert_eq!(page_offset(7, 5), 28);
}

#[test]
fn normalize_defaults() {
    let r = normalize(no_filters());
    assert_eq!(r.page_size, 10);
    assert_eq!(r.page_number, 1);
    assert!(r.hide_archived);
    assert!(r.hide_categorized);
    assert!(r.terms.is_empty());
}

#[test]
fn normalize_splits_search_on_whitespace() {
    let mut p = no_filters();
    p.search = Some("  foo \t bar\nbaz ".to_string());
    let r = normalize(p);
    assert_eq!(r.terms, vec!["foo".to_string(), "bar".to_string(), "baz".to_string()]);

    let mut p2 = no_filters();
    p2.search = Some(String::new());
    let r2 = normalize(p2);
    assert!(r2.terms.is_empty());
}

#[test]
fn case_insensitive_substring() {
    assert!(contains_ci_exec("Hello World", "lo wo"));
    assert!(contains_ci_exec("FOO", "foo"));
    assert!(contains_ci_exec("abc", ""));
    assert!(!contains_ci_exec("abc", "abd"));
    assert!(!contains_ci_exec("ab", "abc"));
}

#[test]
fn split_empty_and_blank() {
    assert!(split_ws_exec("").is_empty());
    assert!(split_ws_exec("   \t ").is_empty());
    assert_eq!(split_ws_exec("one"), vec!["one".to_string()]);
}

#[test]
fn default_listing_excludes_archived_and_categorized() {
    let mut store = Store::new();
    store.insert_item(row("A", "alice", "plain", 3, false));
    store.insert_item(row("B", "bob", "archived one", 2, true));
    store.insert_item(row("C", "carol", "tagged one", 1, false));
    store
        .add_category(&"C".to_string(), &"x".to_string())
        .expect("item C exists");

    let req = normalize(no_filters());
    let listed = store.list_items(&req);
    assert_eq!(listed_ids(&listed), vec!["A".to_string()]);
}

#[test]
fn listing_orders_by_created_at_descending() {
    let mut store = Store::new();
    store.insert_item(row("old", "a", "t", 10, false));
    store.insert_item(row("new", "b", "t", 30, false));
    store.insert_item(row("mid", "c", "t", 20, false));
    let req = normalize(no_filters());
    let listed = store.list_items(&req);
    assert_eq!(
        listed_ids(&listed),
        vec!["new".to_string(), "mid".to_string(), "old".to_string()]
    );
}

#[test]
fn listing_paginates() {
    let mut store = Store::new();
    for i in 0..5 {
        store.insert_item(row(&format!("t{}", i), "h", "text", i as i64, false));
    }
    let mut p = no_filters();
    p.page_size = Some(2);
    p.page_number = Some(2);
    let req = normalize(p);
    let listed = store.list_items(&req);
    // newest first: t4 t3 | t2 t1 | t0 — page 2 is t2 t1
    assert_eq!(listed_ids(&listed), vec!["t2".to_string(), "t1".to_string()]);
}

#[test]
fn search_is_and_across_terms_or_within_a_term() {
    let mut store = Store::new();
    // matches both terms: "foo" in text, "bar" in handle
    store.insert_item(row("both", "barbara", "some foo text", 3, false));
    // matches only "foo"
    store.insert_item(row("only_foo", "alice", "foo alone", 2, false));
    // matches only "bar"
    store.insert_item(row("only_bar", "barbara", "nothing here", 1, false));

    let mut p = no_filters();
    p.search = Some("foo bar".to_string());
    let req = normalize(p);
    let listed = store.list_items(&req);
    assert_eq!(listed_ids(&listed), vec!["both".to_string()]);
}

#[test]
fn search_is_case_insensitive_and_reaches_categories() {
    let mut store = Store::new();
    store.insert_item(row("tagged", "handle", "text", 1, false));
    store
        .add_category(&"tagged".to_string(), &"News".to_string())
        .expect("item exists");

    let mut p = no_filters();
    p.hide_categorized = Some(false);
    p.search = Some("NEWS".to_string());
    let req = normalize(p);
    let listed = store.list_items(&req);
    assert_eq!(listed_ids(&listed), vec!["tagged".to_string()]);
    assert_eq!(listed[0].categories, vec!["News".to_string()]);
}

#[test]
fn add_category_twice_leaves_one_link_and_one_row() {
    let mut store = Store::new();
    store.insert_item(row("t1", "h", "text", 1, false));
    let id = "t1".to_string();
    let news = "news".to_string();
    store.add_category(&id, &news).expect("first add");
    store.add_category(&id, &news).expect("second add");
    assert_eq!(store.categories.len(), 1);
    assert_eq!(store.categories[0].name, "news");
    assert_eq!(store.links.len(), 1);
    assert_eq!(store.links[0].tweet_id, "t1");
}

#[test]
fn removing_last_link_deletes_the_category() {
    let mut store = Store::new();
    store.insert_item(row("t1", "h", "text", 1, false));
    let id = "t1".to_string();
    let news = "news".to_string();
    store.add_category(&id, &news).expect("add");
    store.remove_category(&id, &news);
    assert!(store.categories.is_empty());
    assert!(store.links.is_empty());
    assert!(store.list_categories().is_empty());
}

#[test]
fn remove_of_absent_link_is_silent() {
    let mut store = Store::new();
    store.insert_item(row("t1", "h", "text", 1, false));
    store.remove_category(&"t1".to_string(), &"missing".to_string());
    assert!(store.categories.is_empty());
}

#[test]
fn empty_patch_is_rejected_without_writes() {
    let mut store = Store::new();
    store.insert_item(row("t1", "h", "text", 1, false));
    let before_items = store.items.len();
    let r = store.patch(&"t1".to_string(), &empty_patch());
    assert_eq!(r, Err(StoreError::InvalidPatch));
    assert_eq!(store.items.len(), before_items);
    assert!(store.categories.is_empty());
    assert!(store.links.is_empty());
    assert!(!store.items[0].important);
    assert!(!store.items[0].archived);
}

#[test]
fn patch_applies_each_present_field() {
    let mut store = Store::new();
    store.insert_item(row("t1", "h", "text", 1, false));
    let mut u = empty_patch();
    u.add_category = Some("news".to_string());
    u.important = Some(true);
    u.archived = Some(true);
    store.patch(&"t1".to_string(), &u).expect("patch");
    assert_eq!(store.categories.len(), 1);
    assert_eq!(store.links.len(), 1);
    assert!(store.items[0].important);
    assert!(store.items[0].archived);
}

#[test]
fn patch_add_for_missing_item_fails_after_upsert() {
    let mut store = Store::new();
    let mut u = empty_patch();
    u.add_category = Some("news".to_string());
    let r = store.patch(&"ghost".to_string(), &u);
    assert_eq!(r, Err(StoreError::Execution));
    // the category upsert has already happened, the link has not
    assert_eq!(store.categories.len(), 1);
    assert!(store.links.is_empty());
}

#[test]
fn summary_on_empty_store_is_all_zeros() {
    let store = Store::new();
    let info = store.summary();
    assert_eq!(info.total, 0);
    assert_eq!(info.categorized, 0);
    assert_eq!(info.uncategorized, 0);
    assert_eq!(info.archived, 0);
    assert_eq!(info.important, 0);
}

#[test]
fn summary_counts() {
    let mut store = Store::new();
    store.insert_item(row("a", "h", "t", 1, false));
    store.insert_item(row("b", "h", "t", 2, true));
    store.insert_item(row("c", "h", "t", 3, false));
    store.add_category(&"a".to_string(), &"x".to_string()).expect("add");
    store.set_important(&"c".to_string(), true);
    let info = store.summary();
    assert_eq!(info.total, 3);
    assert_eq!(info.categorized, 1);
    assert_eq!(info.uncategorized, 2);
    assert_eq!(info.archived, 1);
    assert_eq!(info.important, 1);
}

#[test]
fn categories_ordered_by_usage_descending_and_deterministic() {
    let mut store = Store::new();
    for id in ["a", "b", "c"] {
        store.insert_item(row(id, "h", "t", 1, false));
    }
    // rare: 1 use; common: 3 uses; middling: 2 uses
    store.add_category(&"a".to_string(), &"rare".to_string()).unwrap();
    for id in ["a", "b", "c"] {
        store.add_category(&id.to_string(), &"common".to_string()).unwrap();
    }
    for id in ["a", "b"] {
        store.add_category(&id.to_string(), &"middling".to_string()).unwrap();
    }
    let names = store.list_categories();
    assert_eq!(
        names,
        vec!["common".to_string(), "middling".to_string(), "rare".to_string()]
    );

    // ties are deterministic: same input, same output, store order kept
    let mut tied = Store::new();
    tied.insert_item(row("a", "h", "t", 1, false));
    tied.add_category(&"a".to_string(), &"first".to_string()).unwrap();
    tied.add_category(&"a".to_string(), &"second".to_string()).unwrap();
    let once = tied.list_categories();
    let twice = tied.list_categories();
    assert_eq!(once, vec!["first".to_string(), "second".to_string()]);
    assert_eq!(once, twice);
}

#[test]
fn list_query_text_and_args() {
    let mut p = no_filters();
    p.search = Some("foo bar".to_string());
    let req = normalize(p);
    let stmt = build_list_query(&req);
    let expected = "SELECT tweets.rest_id, tweets.sort_index, tweets.screen_name, tweets.created_at, tweets.fetched_at, tweets.full_text, tweets.bookmarked, tweets.liked, tweets.important, tweets.archived, COALESCE(tweets.quoted_text, '') as quoted_text, array_remove(array_agg(c.name), NULL) as categories FROM tweets LEFT JOIN tweet_categories ON tweets.rest_id = tweet_categories.tweet_id LEFT JOIN categories c ON tweet_categories.category_id = c.id WHERE 1 = 1 AND archived = false GROUP BY tweets.rest_id, fetched_at, sort_index HAVING 1 = 1 AND array_length(array_remove(array_agg(c.name), NULL), 1) IS NULL AND (rest_id ILIKE $3 OR screen_name ILIKE $3 OR full_text ILIKE $3 OR quoted_text ILIKE $3 OR BOOL_OR(c.name ILIKE $3)) AND (rest_id ILIKE $4 OR screen_name ILIKE $4 OR full_text ILIKE $4 OR quoted_text ILIKE $4 OR BOOL_OR(c.name ILIKE $4)) ORDER BY created_at DESC LIMIT $1 OFFSET $2";
    assert_eq!(stmt.text, expected);
    assert_eq!(
        stmt.args,
        vec![
            SqlValue::Int(10),
            SqlValue::Int(0),
            SqlValue::Text("%foo%".to_string()),
            SqlValue::Text("%bar%".to_string()),
        ]
    );
}

#[test]
fn list_query_without_filters() {
    let mut p = no_filters();
    p.hide_archived = Some(false);
    p.hide_categorized = Some(false);
    p.page_size = Some(20);
    p.page_number = Some(3);
    let req = normalize(p);
    let stmt = build_list_query(&req);
    assert!(stmt.text.contains("WHERE 1 = 1 GROUP BY"));
    assert!(stmt.text.contains("HAVING 1 = 1 ORDER BY"));
    assert_eq!(stmt.args, vec![SqlValue::Int(20), SqlValue::Int(40)]);
}

#[test]
fn patch_commands_in_field_order() {
    let mut u = empty_patch();
    u.add_category = Some("news".to_string());
    u.important = Some(true);
    let cmds = build_patch_commands(&"t1".to_string(), &u).expect("fields present");
    assert_eq!(cmds.len(), 3);
    assert_eq!(
        cmds[0].text,
        "INSERT INTO categories (name) VALUES ($1) ON CONFLICT (name) DO NOTHING;"
    );
    assert_eq!(cmds[0].args, vec![SqlValue::Text("news".to_string())]);
    assert_eq!(
        cmds[1].text,
        "INSERT INTO tweet_categories (tweet_id, category_id) SELECT $2, id FROM categories WHERE name = $1;"
    );
    assert_eq!(
        cmds[1].args,
        vec![SqlValue::Text("news".to_string()), SqlValue::Text("t1".to_string())]
    );
    assert_eq!(cmds[2].text, "UPDATE tweets SET important = $2 WHERE rest_id = $1");
    assert_eq!(
        cmds[2].args,
        vec![SqlValue::Text("t1".to_string()), SqlValue::Bool(true)]
    );
}

#[test]
fn patch_commands_for_remove() {
    let mut u = empty_patch();
    u.remove_category = Some("news".to_string());
    let cmds = build_patch_commands(&"t1".to_string(), &u).expect("fields present");
    assert_eq!(cmds.len(), 2);
    assert_eq!(
        cmds[0].text,
        "DELETE FROM tweet_categories WHERE tweet_id = $1 AND category_id = (SELECT id FROM categories WHERE name = $2);"
    );
    assert_eq!(
        cmds[0].args,
        vec![SqlValue::Text("t1".to_string()), SqlValue::Text("news".to_string())]
    );
    assert_eq!(
        cmds[1].text,
        "DELETE FROM categories WHERE id NOT IN (SELECT category_id FROM tweet_categories);"
    );
    assert!(cmds[1].args.is_empty());
}

#[test]
fn patch_commands_reject_empty_patch() {
    let r = build_patch_commands(&"t1".to_string(), &empty_patch());
    assert!(matches!(r, Err(StoreError::InvalidPatch)));
}

#[test]
fn fixed_queries() {
    let c = categories_query();
    assert_eq!(
        c.text,
        "SELECT name FROM tweet_categories join categories on tweet_categories.category_id = categories.id GROUP BY name ORDER BY count(*) DESC"
    );
    assert!(c.args.is_empty());
    let s = summary_query();
    assert!(s.text.starts_with("select total.num as total"));
    assert!(s.args.is_empty());
}

#[test]
fn page_beyond_the_end_is_empty() {
    let mut store = Store::new();
    store.insert_item(row("a", "h", "t", 1, false));
    let mut p = no_filters();
    p.page_number = Some(5);
    let req = normalize(p);
    assert!(store.list_items(&req).is_empty());
}

#[test]
fn oversized_page_returns_everything() {
    let mut store = Store::new();
    store.insert_item(row("a", "h", "t", 1, false));
    store.insert_item(row("b", "h", "t", 2, false));
    let mut p = no_filters();
    p.page_size = Some(1000);
    let req = normalize(p);
    assert_eq!(store.list_items(&req).len(), 2);
}

#[test]
fn explicit_flags_pass_through() {
    let mut p = no_filters();
    p.hide_archived = Some(false);
    p.hide_categorized = Some(false);
    let r = normalize(p);
    assert!(!r.hide_archived);
    assert!(!r.hide_categorized);

    let mut store = Store::new();
    store.insert_item(row("arch", "h", "t", 2, true));
    store.insert_item(row("tag", "h", "t", 1, false));
    store.add_category(&"tag".to_string(), &"x".to_string()).unwrap();
    let listed = store.list_items(&r);
    assert_eq!(listed_ids(&listed), vec!["arch".to_string(), "tag".to_string()]);
}
