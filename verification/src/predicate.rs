//! The listing predicate: four optional criteria, combined with AND.
//!
//! Each absent criterion imposes no constraint.  The tag criterion is a
//! substring search for the flanked token on the encoded column, never a
//! decode.  The date range applies only when both bounds are present: a
//! half-open range is no constraint at all, by design.
//!
//! Counting and fetching take the same predicate value, so the two can
//! never disagree on which rows match.

use vstd::prelude::*;
use crate::codec::blob_contains_tag;
use crate::codec::contains_seq;
use crate::codec::token_of;
use crate::post::Model;
use crate::post::ModelView;
use vstd::string::StrSliceExecFns;

verus! {

/// The optional criteria of a post listing.
pub struct Predicate {
    pub tag_id: Option<i32>,
    pub keyword: Option<String>,
    pub is_del: Option<bool>,
    pub start: Option<i64>,
    pub end: Option<i64>,
}

/// The mathematical value of a predicate.
#[verifier::ext_equal]
pub struct PredicateView {
    pub tag_id: Option<i32>,
    pub keyword: Option<Seq<char>>,
    pub is_del: Option<bool>,
    pub start: Option<i64>,
    pub end: Option<i64>,
}

impl View for Predicate {
    type V = PredicateView;

    open spec fn view(&self) -> PredicateView {
        PredicateView {
            tag_id: self.tag_id,
            keyword: match self.keyword {
                Some(ref k) => Some(k@),
                None => None,
            },
            is_del: self.is_del,
            start: self.start,
            end: self.end,
        }
    }
}

/// Tag criterion: the encoded column must hold the token of the wanted id.
/// A row without a tag column matches no tag criterion.
pub open spec fn tag_matches(p: ModelView, f: PredicateView) -> bool {
    match f.tag_id {
        None => true,
        Some(t) => match p.tag_id {
            None => false,
            Some(blob) => contains_seq(blob, token_of(t as int)),
        },
    }
}

/// Keyword criterion: the title must hold the keyword as a substring.
pub open spec fn keyword_matches(p: ModelView, f: PredicateView) -> bool {
    match f.keyword {
        None => true,
        Some(k) => contains_seq(p.title, k),
    }
}

/// Soft-delete criterion: the flag must equal the wanted value exactly.
pub open spec fn del_matches(p: ModelView, f: PredicateView) -> bool {
    match f.is_del {
        None => true,
        Some(d) => p.is_del == d,
    }
}

/// Date criterion: applied only when both bounds are present, and then
/// inclusive on both sides.
pub open spec fn date_matches(p: ModelView, f: PredicateView) -> bool {
    match (f.start, f.end) {
        (Some(a), Some(b)) => a <= p.publish_time <= b,
        _ => true,
    }
}

/// The whole predicate: the conjunction of its four criteria.
pub open spec fn satisfies(p: ModelView, f: PredicateView) -> bool {
    tag_matches(p, f) && keyword_matches(p, f) && del_matches(p, f) && date_matches(p, f)
}

/// Substring search over characters.
pub fn str_contains(hay: &str, needle: &str) -> (b: bool)
    ensures
        b == contains_seq(hay@, needle@),
{
    let hl = hay.unicode_len();
    let nl = needle.unicode_len();
    if nl > hl {
        return false;
    }
    if nl == 0 {
        proof {
            assert(hay@.subrange(0, 0 + needle@.len() as int) =~= needle@);
            assert(contains_seq(hay@, needle@));
        }
        return true;
    }
    let mut i: usize = 0;
    while i <= hl - nl
        invariant
            1 <= nl <= hl,
            hl == hay@.len(),
            nl == needle@.len(),
            0 <= i <= hl - nl + 1,
            forall|ii: int| 0 <= ii < i ==> #[trigger] hay@.subrange(ii, ii + nl) != needle@,
        decreases hl - nl + 1 - i,
    {
        let mut j: usize = 0;
        let mut matched = true;
        while j < nl && matched
            invariant
                1 <= nl <= hl,
                hl == hay@.len(),
                nl == needle@.len(),
                0 <= i <= hl - nl,
                0 <= j <= nl,
                matched ==> forall|jj: int| 0 <= jj < j ==> hay@[i + jj] == needle@[jj],
                !matched ==> hay@.subrange(i as int, i + nl) != needle@,
            decreases nl - j + (if matched {
                1int
            } else {
                0int
            }),
        {
            if hay.get_char(i + j) != needle.get_char(j) {
                proof {
                    assert(hay@.subrange(i as int, i + nl)[j as int] == hay@[i + j]);
                }
                matched = false;
            } else {
                j += 1;
            }
        }
        if matched {
            proof {
                assert(hay@.subrange(i as int, i + nl) =~= needle@);
            }
            return true;
        }
        i += 1;
    }
    proof {
        assert forall|ii: int| 0 <= ii && ii + nl <= hl implies #[trigger] hay@.subrange(
            ii,
            ii + nl,
        ) != needle@ by {
            assert(ii < hl - nl + 1);
        }
    }
    false
}

impl Predicate {
    /// The predicate with no criterion: every row matches it.
    pub fn new() -> (r: Predicate)
        ensures
            r@.tag_id is None,
            r@.keyword is None,
            r@.is_del is None,
            r@.start is None,
            r@.end is None,
            forall|p: ModelView| satisfies(p, r@),
    {
        Predicate { tag_id: None, keyword: None, is_del: None, start: None, end: None }
    }

    /// Does a row satisfy every supplied criterion?
    pub fn matches_post(&self, p: &Model) -> (b: bool)
        ensures
            b == satisfies(p@, self@),
    {
        let tag_ok = match &self.tag_id {
            None => true,
            Some(t) => match &p.tag_id {
                None => false,
                Some(blob) => blob_contains_tag(blob, *t),
            },
        };
        let kw_ok = match &self.keyword {
            None => true,
            Some(k) => str_contains(p.title.as_str(), k.as_str()),
        };
        let del_ok = match self.is_del {
            None => true,
            Some(d) => p.is_del == d,
        };
        let date_ok = match (self.start, self.end) {
            (Some(a), Some(b)) => a <= p.publish_time && p.publish_time <= b,
            _ => true,
        };
        tag_ok && kw_ok && del_ok && date_ok
    }
}

/// Conjunction: a row that carries the wanted tag but whose title misses
/// the keyword is excluded when both criteria are supplied together, and
/// included when only the tag criterion is supplied.
pub proof fn lemma_conjunction(p: ModelView, t: i32, kw: Seq<char>)
    requires
        p.tag_id matches Some(blob) && contains_seq(blob, token_of(t as int)),
        !contains_seq(p.title, kw),
    ensures
        !satisfies(
            p,
            PredicateView {
                tag_id: Some(t),
                keyword: Some(kw),
                is_del: None,
                start: None,
                end: None,
            },
        ),
        satisfies(
            p,
            PredicateView { tag_id: Some(t), keyword: None, is_del: None, start: None, end: None },
        ),
{
}

/// A half-open date range is no constraint: with one bound absent, the
/// other bound has no effect on what matches.
pub proof fn lemma_half_open_range(p: ModelView, f: PredicateView)
    ensures
        f.end is None ==> satisfies(p, f) == satisfies(p, PredicateView { start: None, ..f }),
        f.start is None ==> satisfies(p, f) == satisfies(p, PredicateView { end: None, ..f }),
{
}

} // verus!
