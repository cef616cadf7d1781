//! The public post search: its query parameters and how they become a
//! listing request.

use vstd::prelude::*;
use crate::predicate::Predicate;

verus! {

/// The query parameters of the public post search.  `page` is one-based
/// on the wire; absent means the first page.
pub struct SearchParams {
    pub keyword: Option<String>,
    pub tag_id: Option<i32>,
    pub date_range: Option<(i64, i64)>,
    pub page: Option<i32>,
}

impl SearchParams {
    /// The listing inputs of a search: its predicate — the public search
    /// sees only rows not soft-deleted — and the zero-based page index.
    pub fn to_query(self) -> (r: (Predicate, i32))
        ensures
            r.0@.tag_id == self.tag_id,
            r.0@.keyword == (match self.keyword {
                Some(k) => Some(k@),
                None => None,
            }),
            r.0@.is_del == Some(false),
            r.0@.start == (match self.date_range {
                Some(d) => Some(d.0),
                None => None,
            }),
            r.0@.end == (match self.date_range {
                Some(d) => Some(d.1),
                None => None,
            }),
            r.1 as int == (match self.page {
                None => 0int,
                Some(p) => if p == i32::MIN {
                    p as int
                } else {
                    p - 1
                },
            }),
    {
        let (start, end) = match self.date_range {
            Some(d) => (Some(d.0), Some(d.1)),
            None => (None, None),
        };
        let page: i32 = match self.page {
            None => 0,
            Some(p) => if p == i32::MIN {
                p
            } else {
                p - 1
            },
        };
        let f = Predicate {
            tag_id: self.tag_id,
            keyword: self.keyword,
            is_del: Some(false),
            start,
            end,
        };
        (f, page)
    }
}

} // verus!
