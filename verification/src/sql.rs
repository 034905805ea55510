//! Construction of the parameterized statements that the I/O layer runs
//! against the relational store: the dynamic listing query (whose shape
//! varies with the filters and search terms) and the fixed statements of the
//! tag synchronizer, the category listing and the summary.
//!
//! Every statement is built as (text, argument vector) with positional
//! placeholders: the pagination pair is always `$1`/`$2`, and each search
//! term occupies the next slot, reused across the five OR-branches of its
//! fragment. The contracts pin the text and the arguments exactly, so the
//! placeholder count always equals the argument count.

use vstd::prelude::*;

use crate::params::{ListRequest, ReqView, spec_page_offset};
use crate::store::{has_fields, StoreError, UpdateTweet, UpdateView};

verus! {

/// One positional argument of a statement.
#[derive(Debug, PartialEq, Eq)]
pub enum SqlValue {
    Int(i64),
    Bool(bool),
    Text(String),
}

/// Mathematical model of one positional argument.
#[verifier::ext_equal]
pub enum ArgView {
    Int(i64),
    Bool(bool),
    Text(Seq<char>),
}

impl View for SqlValue {
    type V = ArgView;

    open spec fn view(&self) -> ArgView {
        match self {
            SqlValue::Int(n) => ArgView::Int(*n),
            SqlValue::Bool(b) => ArgView::Bool(*b),
            SqlValue::Text(s) => ArgView::Text(s@),
        }
    }
}

/// A statement: its text and its positional argument vector, `$1` first.
pub struct Statement {
    pub text: String,
    pub args: Vec<SqlValue>,
}

/// Mathematical model of a statement.
#[verifier::ext_equal]
pub struct StatementView {
    pub text: Seq<char>,
    pub args: Seq<ArgView>,
}

impl View for Statement {
    type V = StatementView;

    open spec fn view(&self) -> StatementView {
        StatementView { text: self.text@, args: self.args@.map_values(|v: SqlValue| v@) }
    }
}

// --- spec: rendering placeholder numbers --------------------------------------

/// The decimal digit character for `d` (meaningful for 0 through 9).
pub open spec fn digit_char(d: int) -> char {
    if d == 0 {
        '0'
    } else if d == 1 {
        '1'
    } else if d == 2 {
        '2'
    } else if d == 3 {
        '3'
    } else if d == 4 {
        '4'
    } else if d == 5 {
        '5'
    } else if d == 6 {
        '6'
    } else if d == 7 {
        '7'
    } else if d == 8 {
        '8'
    } else {
        '9'
    }
}

/// Decimal representation of a nonnegative number, most significant digit
/// first.
pub open spec fn dec_digits(n: int) -> Seq<char>
    decreases n,
{
    if n < 10 {
        seq![digit_char(n)]
    } else {
        dec_digits(n / 10).push(digit_char(n % 10))
    }
}

/// The placeholder `$n`.
pub open spec fn dollar(n: int) -> Seq<char> {
    seq!['$'] + dec_digits(n)
}

// --- spec: the listing query text ---------------------------------------------

/// The per-term HAVING fragment: one disjunction over the five searched
/// places, all referencing the same placeholder `$k`.
pub open spec fn term_fragment(k: int) -> Seq<char> {
    "(rest_id ILIKE "@ + dollar(k) + " OR screen_name ILIKE "@ + dollar(k)
        + " OR full_text ILIKE "@ + dollar(k) + " OR quoted_text ILIKE "@ + dollar(k)
        + " OR BOOL_OR(c.name ILIKE "@ + dollar(k) + "))"@
}

/// The AND-joined WHERE clauses: the unconditional predicate, then the
/// archived filter when it is on.
pub open spec fn where_sql(rv: ReqView) -> Seq<char> {
    if rv.hide_archived {
        "1 = 1 AND archived = false"@
    } else {
        "1 = 1"@
    }
}

/// The AND-joined per-term fragments, term `i` bound to placeholder `$(2+i+1)`.
pub open spec fn terms_sql(n: int) -> Seq<char>
    decreases n,
{
    if n <= 0 {
        Seq::empty()
    } else {
        terms_sql(n - 1) + " AND "@ + term_fragment(2 + n)
    }
}

/// The AND-joined HAVING clauses: the unconditional predicate, the
/// empty-aggregate filter when hiding categorized items, then one fragment
/// per search term.
pub open spec fn having_sql(rv: ReqView) -> Seq<char> {
    (if rv.hide_categorized {
        "1 = 1 AND array_length(array_remove(array_agg(c.name), NULL), 1) IS NULL"@
    } else {
        "1 = 1"@
    }) + terms_sql(rv.terms.len() as int)
}

/// The whole listing statement text: fixed projection and join skeleton,
/// the WHERE and HAVING clause lists, a fixed ORDER BY, and the pagination
/// pair bound to `$1`/`$2`.
pub open spec fn list_query_text(rv: ReqView) -> Seq<char> {
    "SELECT tweets.rest_id, tweets.sort_index, tweets.screen_name, tweets.created_at, tweets.fetched_at, tweets.full_text, tweets.bookmarked, tweets.liked, tweets.important, tweets.archived, COALESCE(tweets.quoted_text, '') as quoted_text, array_remove(array_agg(c.name), NULL) as categories FROM tweets LEFT JOIN tweet_categories ON tweets.rest_id = tweet_categories.tweet_id LEFT JOIN categories c ON tweet_categories.category_id = c.id WHERE "@
        + where_sql(rv)
        + " GROUP BY tweets.rest_id, fetched_at, sort_index HAVING "@
        + having_sql(rv)
        + " ORDER BY created_at DESC LIMIT $1 OFFSET $2"@
}

/// A search term wrapped in wildcard markers on both sides (substring
/// semantics).
pub open spec fn wildcard(t: Seq<char>) -> Seq<char> {
    seq!['%'] + t + seq!['%']
}

// --- executable rendering ----------------------------------------------------

fn append_digit(out: &mut String, d: u64)
    requires
        d < 10,
    ensures
        final(out)@ == old(out)@ + seq![digit_char(d as int)],
{
    match d {
        0 => {
            proof {
                reveal_strlit("0");
            }
            out.append("0");
        },
        1 => {
            proof {
                reveal_strlit("1");
            }
            out.append("1");
        },
        2 => {
            proof {
                reveal_strlit("2");
            }
            out.append("2");
        },
        3 => {
            proof {
                reveal_strlit("3");
            }
            out.append("3");
        },
        4 => {
            proof {
                reveal_strlit("4");
            }
            out.append("4");
        },
        5 => {
            proof {
                reveal_strlit("5");
            }
            out.append("5");
        },
        6 => {
            proof {
                reveal_strlit("6");
            }
            out.append("6");
        },
        7 => {
            proof {
                reveal_strlit("7");
            }
            out.append("7");
        },
        8 => {
            proof {
                reveal_strlit("8");
            }
            out.append("8");
        },
        _ => {
            proof {
                reveal_strlit("9");
            }
            out.append("9");
        },
    }
    proof {
        assert(final(out)@ =~= old(out)@ + seq![digit_char(d as int)]);
    }
}

/// Append the decimal digits of `n`.
fn append_uint(out: &mut String, n: u64)
    ensures
        final(out)@ == old(out)@ + dec_digits(n as int),
    decreases n,
{
    if n < 10 {
        append_digit(out, n);
    } else {
        append_uint(out, n / 10);
        let ghost mid = out@;
        append_digit(out, n % 10);
        proof {
            assert(out@ =~= old(out)@ + dec_digits(n as int / 10).push(digit_char(
                n as int % 10,
            )));
        }
    }
}

/// Append the placeholder `$n`.
fn append_dollar(out: &mut String, n: u64)
    ensures
        final(out)@ == old(out)@ + dollar(n as int),
{
    proof {
        reveal_strlit("$");
    }
    out.append("$");
    let ghost mid = out@;
    append_uint(out, n);
    proof {
        assert("$"@ =~= seq!['$']);
        assert(out@ =~= old(out)@ + dollar(n as int));
    }
}

/// Append one per-term HAVING fragment referencing placeholder `$k`.
fn append_term_fragment(out: &mut String, k: u64)
    ensures
        final(out)@ == old(out)@ + term_fragment(k as int),
{
    out.append("(rest_id ILIKE ");
    append_dollar(out, k);
    out.append(" OR screen_name ILIKE ");
    append_dollar(out, k);
    out.append(" OR full_text ILIKE ");
    append_dollar(out, k);
    out.append(" OR quoted_text ILIKE ");
    append_dollar(out, k);
    out.append(" OR BOOL_OR(c.name ILIKE ");
    append_dollar(out, k);
    out.append("))");
    proof {
        assert(out@ =~= old(out)@ + term_fragment(k as int));
    }
}

/// Build the listing statement for a canonical request: the WHERE and HAVING
/// clause lists follow the filters, each search term is wrapped in wildcard
/// markers and bound once, and the text references exactly the placeholders
/// `$1` through `$(args.len())` — `$1`/`$2` for the pagination pair, one
/// further slot per term, reused across the five branches of its fragment.
#[verifier::loop_isolation(false)]
pub fn build_list_query(req: &ListRequest) -> (stmt: Statement)
    requires
        i64::MIN < req.page_number,
        i64::MIN <= (req.page_number - 1) * req.page_size <= i64::MAX,
        req.terms@.len() + 3 <= u64::MAX,
    ensures
        stmt@.text == list_query_text(req@),
        stmt@.args.len() == 2 + req@.terms.len(),
        stmt@.args[0] == ArgView::Int(req.page_size),
        (stmt@.args[1] matches ArgView::Int(o) && o == spec_page_offset(
            req@.page_size,
            req@.page_number,
        )),
        forall|i: int|
            0 <= i < req@.terms.len() ==> (#[trigger] stmt@.args[2 + i]) == ArgView::Text(
                wildcard(req@.terms[i]),
            ),
{
    let ghost rv = req@;
    let mut args: Vec<SqlValue> = Vec::new();
    args.push(SqlValue::Int(req.page_size));
    let off = crate::params::page_offset(req.page_size, req.page_number);
    args.push(SqlValue::Int(off));
    let mut i: usize = 0;
    while i < req.terms.len()
        invariant
            i <= rv.terms.len(),
            args@.len() == 2 + i,
            args@[0]@ == ArgView::Int(req.page_size),
            args@[1]@ == ArgView::Int(off),
            forall|j: int|
                0 <= j < i ==> (#[trigger] args@[2 + j]@) == ArgView::Text(wildcard(rv.terms[j])),
        decreases rv.terms.len() - i,
    {
        proof {
            reveal_strlit("%");
        }
        let mut w = String::new();
        w.append("%");
        w.append(req.terms[i].as_str());
        w.append("%");
        proof {
            assert("%"@ =~= seq!['%']);
            assert(w@ =~= wildcard(rv.terms[i as int]));
        }
        args.push(SqlValue::Text(w));
        i += 1;
    }
    let mut text = String::new();
    text.append(
        "SELECT tweets.rest_id, tweets.sort_index, tweets.screen_name, tweets.created_at, tweets.fetched_at, tweets.full_text, tweets.bookmarked, tweets.liked, tweets.important, tweets.archived, COALESCE(tweets.quoted_text, '') as quoted_text, array_remove(array_agg(c.name), NULL) as categories FROM tweets LEFT JOIN tweet_categories ON tweets.rest_id = tweet_categories.tweet_id LEFT JOIN categories c ON tweet_categories.category_id = c.id WHERE ",
    );
    if req.hide_archived {
        text.append("1 = 1 AND archived = false");
    } else {
        text.append("1 = 1");
    }
    text.append(" GROUP BY tweets.rest_id, fetched_at, sort_index HAVING ");
    if req.hide_categorized {
        text.append("1 = 1 AND array_length(array_remove(array_agg(c.name), NULL), 1) IS NULL");
    } else {
        text.append("1 = 1");
    }
    let ghost base = text@;
    proof {
        assert(base + terms_sql(0) =~= base);
    }
    let mut k: usize = 0;
    while k < req.terms.len()
        invariant
            k <= rv.terms.len(),
            text@ == base + terms_sql(k as int),
        decreases rv.terms.len() - k,
    {
        text.append(" AND ");
        append_term_fragment(&mut text, (k as u64) + 3);
        proof {
            assert(text@ =~= base + terms_sql(k as int + 1));
        }
        k += 1;
    }
    text.append(" ORDER BY created_at DESC LIMIT $1 OFFSET $2");
    proof {
        assert(text@ =~= list_query_text(rv));
    }
    Statement { text, args }
}

// --- the fixed statements -----------------------------------------------------

/// Text of the idempotent category upsert (`$1` = name).
pub open spec fn upsert_category_sql() -> Seq<char> {
    "INSERT INTO categories (name) VALUES ($1) ON CONFLICT (name) DO NOTHING;"@
}

/// Text of the link insert (`$1` = name, `$2` = item identifier).
pub open spec fn insert_link_sql() -> Seq<char> {
    "INSERT INTO tweet_categories (tweet_id, category_id) SELECT $2, id FROM categories WHERE name = $1;"@
}

/// Text of the link delete (`$1` = item identifier, `$2` = name).
pub open spec fn delete_link_sql() -> Seq<char> {
    "DELETE FROM tweet_categories WHERE tweet_id = $1 AND category_id = (SELECT id FROM categories WHERE name = $2);"@
}

/// Text of the global orphan sweep (no arguments).
pub open spec fn sweep_orphans_sql() -> Seq<char> {
    "DELETE FROM categories WHERE id NOT IN (SELECT category_id FROM tweet_categories);"@
}

/// Text of the important-flag update (`$1` = item identifier, `$2` = value).
pub open spec fn set_important_sql() -> Seq<char> {
    "UPDATE tweets SET important = $2 WHERE rest_id = $1"@
}

/// Text of the archived-flag update (`$1` = item identifier, `$2` = value).
pub open spec fn set_archived_sql() -> Seq<char> {
    "UPDATE tweets SET archived = $2 WHERE rest_id = $1"@
}

/// The statements an add-tag instruction runs, in order.
pub open spec fn add_cmds(tid: Seq<char>, name: Seq<char>) -> Seq<StatementView> {
    seq![
        StatementView { text: upsert_category_sql(), args: seq![ArgView::Text(name)] },
        StatementView {
            text: insert_link_sql(),
            args: seq![ArgView::Text(name), ArgView::Text(tid)],
        },
    ]
}

/// The statements a remove-tag instruction runs, in order.
pub open spec fn remove_cmds(tid: Seq<char>, name: Seq<char>) -> Seq<StatementView> {
    seq![
        StatementView {
            text: delete_link_sql(),
            args: seq![ArgView::Text(tid), ArgView::Text(name)],
        },
        StatementView { text: sweep_orphans_sql(), args: Seq::empty() },
    ]
}

/// The single statement a scalar-flag instruction runs.
pub open spec fn flag_cmds(text: Seq<char>, tid: Seq<char>, v: bool) -> Seq<StatementView> {
    seq![StatementView { text, args: seq![ArgView::Text(tid), ArgView::Bool(v)] }]
}

/// The ordered statement list of a whole patch request: the present fields
/// in order (add tag, remove tag, important, archived).
pub open spec fn patch_commands(tid: Seq<char>, u: UpdateView) -> Seq<StatementView> {
    (match u.add_category {
        Some(name) => add_cmds(tid, name),
        None => Seq::empty(),
    }) + (match u.remove_category {
        Some(name) => remove_cmds(tid, name),
        None => Seq::empty(),
    }) + (match u.important {
        Some(v) => flag_cmds(set_important_sql(), tid, v),
        None => Seq::empty(),
    }) + (match u.archived {
        Some(v) => flag_cmds(set_archived_sql(), tid, v),
        None => Seq::empty(),
    })
}

/// Build the ordered statement list for a patch request; a request with no
/// recognized field is rejected without any statement.
pub fn build_patch_commands(rest_id: &String, update: &UpdateTweet) -> (r: Result<
    Vec<Statement>,
    StoreError,
>)
    ensures
        has_fields(update@) ==> (r matches Ok(cmds) && cmds@.map_values(|c: Statement| c@)
            == patch_commands(rest_id@, update@)),
        !has_fields(update@) ==> (r matches Err(e) && e == StoreError::InvalidPatch),
{
    let any = update.add_category.is_some() || update.remove_category.is_some()
        || update.important.is_some() || update.archived.is_some();
    if !any {
        return Err(StoreError::InvalidPatch);
    }
    let mut cmds: Vec<Statement> = Vec::new();
    if let Some(ref name) = update.add_category {
        let mut a1: Vec<SqlValue> = Vec::new();
        a1.push(SqlValue::Text(name.clone()));
        cmds.push(
            Statement {
                text: String::from_str(
                    "INSERT INTO categories (name) VALUES ($1) ON CONFLICT (name) DO NOTHING;",
                ),
                args: a1,
            },
        );
        let mut a2: Vec<SqlValue> = Vec::new();
        a2.push(SqlValue::Text(name.clone()));
        a2.push(SqlValue::Text(rest_id.clone()));
        cmds.push(
            Statement {
                text: String::from_str(
                    "INSERT INTO tweet_categories (tweet_id, category_id) SELECT $2, id FROM categories WHERE name = $1;",
                ),
                args: a2,
            },
        );
    }
    proof {
        assert(cmds@.map_values(|c: Statement| c@) =~~= match update@.add_category {
            Some(name) => add_cmds(rest_id@, name),
            None => Seq::<StatementView>::empty(),
        });
    }
    let ghost seg1 = cmds@.map_values(|c: Statement| c@);
    if let Some(ref name) = update.remove_category {
        let mut a1: Vec<SqlValue> = Vec::new();
        a1.push(SqlValue::Text(rest_id.clone()));
        a1.push(SqlValue::Text(name.clone()));
        cmds.push(
            Statement {
                text: String::from_str(
                    "DELETE FROM tweet_categories WHERE tweet_id = $1 AND category_id = (SELECT id FROM categories WHERE name = $2);",
                ),
                args: a1,
            },
        );
        cmds.push(
            Statement {
                text: String::from_str(
                    "DELETE FROM categories WHERE id NOT IN (SELECT category_id FROM tweet_categories);",
                ),
                args: Vec::new(),
            },
        );
    }
    proof {
        assert(cmds@.map_values(|c: Statement| c@) =~~= seg1 + match update@.remove_category {
            Some(name) => remove_cmds(rest_id@, name),
            None => Seq::<StatementView>::empty(),
        });
    }
    let ghost seg2 = cmds@.map_values(|c: Statement| c@);
    if let Some(v) = update.important {
        let mut a1: Vec<SqlValue> = Vec::new();
        a1.push(SqlValue::Text(rest_id.clone()));
        a1.push(SqlValue::Bool(v));
        cmds.push(
            Statement {
                text: String::from_str("UPDATE tweets SET important = $2 WHERE rest_id = $1"),
                args: a1,
            },
        );
    }
    proof {
        assert(cmds@.map_values(|c: Statement| c@) =~~= seg2 + match update@.important {
            Some(v) => flag_cmds(set_important_sql(), rest_id@, v),
            None => Seq::<StatementView>::empty(),
        });
    }
    let ghost seg3 = cmds@.map_values(|c: Statement| c@);
    if let Some(v) = update.archived {
        let mut a1: Vec<SqlValue> = Vec::new();
        a1.push(SqlValue::Text(rest_id.clone()));
        a1.push(SqlValue::Bool(v));
        cmds.push(
            Statement {
                text: String::from_str("UPDATE tweets SET archived = $2 WHERE rest_id = $1"),
                args: a1,
            },
        );
    }
    proof {
        assert(cmds@.map_values(|c: Statement| c@) =~~= seg3 + match update@.archived {
            Some(v) => flag_cmds(set_archived_sql(), rest_id@, v),
            None => Seq::<StatementView>::empty(),
        });
        assert(cmds@.map_values(|c: Statement| c@) =~~= patch_commands(rest_id@, update@));
    }
    Ok(cmds)
}

/// Text of the category listing: names grouped and ordered by usage count
/// descending.
pub open spec fn categories_sql() -> Seq<char> {
    "SELECT name FROM tweet_categories join categories on tweet_categories.category_id = categories.id GROUP BY name ORDER BY count(*) DESC"@
}

/// The category-listing statement (no arguments).
pub fn categories_query() -> (stmt: Statement)
    ensures
        stmt@.text == categories_sql(),
        stmt@.args.len() == 0,
{
    let stmt = Statement {
        text: String::from_str(
            "SELECT name FROM tweet_categories join categories on tweet_categories.category_id = categories.id GROUP BY name ORDER BY count(*) DESC",
        ),
        args: Vec::new(),
    };
    proof {
        assert(stmt@.args =~= Seq::<ArgView>::empty());
    }
    stmt
}

/// Text of the summary query: total, uncategorized, categorized, archived
/// and important counts in one row.
pub open spec fn summary_sql() -> Seq<char> {
    "select total.num as total, uncategorized.num as uncategorized, total.num - uncategorized.num as categorized, archived.num as archived, important.num as important from (select count(*) num from tweets) as total, (SELECT COUNT(*) num FROM tweets WHERE rest_id NOT IN (SELECT tweet_id FROM tweet_categories)) as uncategorized, (select count(*) num from tweets where archived = true) as archived, (select count(*) num from tweets where important = true) as important"@
}

/// The summary statement (no arguments).
pub fn summary_query() -> (stmt: Statement)
    ensures
        stmt@.text == summary_sql(),
        stmt@.args.len() == 0,
{
    let stmt = Statement {
        text: String::from_str(
            "select total.num as total, uncategorized.num as uncategorized, total.num - uncategorized.num as categorized, archived.num as archived, important.num as important from (select count(*) num from tweets) as total, (SELECT COUNT(*) num FROM tweets WHERE rest_id NOT IN (SELECT tweet_id FROM tweet_categories)) as uncategorized, (select count(*) num from tweets where archived = true) as archived, (select count(*) num from tweets where important = true) as important",
        ),
        args: Vec::new(),
    };
    proof {
        assert(stmt@.args =~= Seq::<ArgView>::empty());
    }
    stmt
}

} // verus!
