//! Normalization of raw request parameters into a canonical listing request.
//!
//! Every optional field is defaulted (page size 10, page number 1, both hide
//! flags on), and the free-text search string is split on whitespace into
//! independent terms; an absent or empty search yields no terms.

use vstd::prelude::*;

use crate::text;

verus! {

/// Raw, optional filter/pagination/search input as the client sent it.
pub struct Parameters {
    pub page_size: Option<i64>,
    pub page_number: Option<i64>,
    pub hide_archived: Option<bool>,
    pub hide_categorized: Option<bool>,
    pub search: Option<String>,
}

/// Canonical listing request: all fields defaulted, search split into terms.
pub struct ListRequest {
    pub page_size: i64,
    pub page_number: i64,
    pub hide_archived: bool,
    pub hide_categorized: bool,
    pub terms: Vec<String>,
}

/// Mathematical model of a canonical listing request.
pub struct ReqView {
    pub page_size: int,
    pub page_number: int,
    pub hide_archived: bool,
    pub hide_categorized: bool,
    pub terms: Seq<Seq<char>>,
}

impl View for ListRequest {
    type V = ReqView;

    open spec fn view(&self) -> ReqView {
        ReqView {
            page_size: self.page_size as int,
            page_number: self.page_number as int,
            hide_archived: self.hide_archived,
            hide_categorized: self.hide_categorized,
            terms: self.terms@.map_values(|t: String| t@),
        }
    }
}

impl ListRequest {
    /// The search terms as character sequences.
    pub open spec fn terms_view(&self) -> Seq<Seq<char>> {
        self.terms@.map_values(|t: String| t@)
    }
}

pub const DEFAULT_PAGE_SIZE: i64 = 10;

pub const DEFAULT_PAGE_NUMBER: i64 = 1;

/// The search text of `p`, or the empty sequence when no search was given.
pub open spec fn search_view(p: &Parameters) -> Seq<char> {
    match p.search {
        Some(ref s) => s@,
        None => Seq::empty(),
    }
}

/// Default every absent field and split the search text into terms.
///
/// No field is range-checked: zero or negative page values pass through
/// unchanged.
pub fn normalize(p: Parameters) -> (r: ListRequest)
    ensures
        r.page_size == p.page_size.unwrap_or(DEFAULT_PAGE_SIZE),
        r.page_number == p.page_number.unwrap_or(DEFAULT_PAGE_NUMBER),
        r.hide_archived == p.hide_archived.unwrap_or(true),
        r.hide_categorized == p.hide_categorized.unwrap_or(true),
        r.terms_view() == text::split_ws(search_view(&p)),
{
    let terms: Vec<String> = match p.search {
        Some(ref s) => text::split_ws_exec(s.as_str()),
        None => {
            let empty: Vec<String> = Vec::new();
            proof {
                assert(empty@.map_values(|t: String| t@) =~= Seq::<Seq<char>>::empty());
                text::lemma_split_ws_empty();
            }
            empty
        },
    };
    ListRequest {
        page_size: p.page_size.unwrap_or(DEFAULT_PAGE_SIZE),
        page_number: p.page_number.unwrap_or(DEFAULT_PAGE_NUMBER),
        hide_archived: p.hide_archived.unwrap_or(true),
        hide_categorized: p.hide_categorized.unwrap_or(true),
        terms,
    }
}

/// Offset of the first row of the requested page: pages are 1-based and
/// `page_size` rows long.
pub open spec fn spec_page_offset(size: int, number: int) -> int {
    (number - 1) * size
}

/// Compute the pagination offset `(page_number - 1) * page_size`.
pub fn page_offset(size: i64, number: i64) -> (r: i64)
    requires
        i64::MIN < number,
        i64::MIN <= (number - 1) * size <= i64::MAX,
    ensures
        r == spec_page_offset(size as int, number as int),
{
    (number - 1) * size
}

} // verus!
