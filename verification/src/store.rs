//! The post store and the operations the services run against it.
//!
//! The store holds the rows in ascending id order (ids are assigned by the
//! store and never reused), so newest-first listing order is the reverse.
//! Every operation is one call on an exclusive reference: one indivisible
//! step against the store, never a read followed by a separate write, so
//! the increment-and-fetch and toggle-and-fetch cannot lose updates under
//! interleaving.

use vstd::prelude::*;
use vstd::arithmetic::div_mod::lemma_fundamental_div_mod;
use vstd::arithmetic::div_mod::lemma_fundamental_div_mod_converse;
use crate::codec::encode_spec;
use crate::codec::tags_to_u8;
use crate::post::Model;
use crate::post::ModelView;
use crate::predicate::satisfies;
use crate::predicate::Predicate;
use crate::predicate::PredicateView;

verus! {

/// Rows per listing page: fixed, not configurable per request.
pub const PAGE_SIZE: u64 = 10;

/// How an operation against the store fails.
#[derive(Clone, Copy, Debug, PartialEq, Eq, Structural)]
pub enum Error {
    /// No row matched an id-keyed operation, or a listing page held no rows.
    NotFound,
    /// The store could not perform the operation itself.
    StoreFailure,
}

/// One served listing page.
#[derive(Debug)]
pub struct PagedResult {
    /// The zero-based page index that was requested, echoed back.
    pub page: i32,
    /// Ceiling of matching rows over the page size.
    pub page_total: u64,
    /// The rows of this page, newest id first.
    pub posts: Vec<Model>,
}

/// The post table: rows in ascending id order, and the next id to assign.
pub struct PostStore {
    pub posts: Vec<Model>,
    pub next_id: i32,
}

/// Index of the first row with the given id, or -1 when there is none.
pub open spec fn find_idx(rows: Seq<ModelView>, id: i32) -> int
    decreases rows.len(),
{
    if rows.len() == 0 {
        -1
    } else if rows[0].id == id {
        0
    } else {
        let r = find_idx(rows.skip(1), id);
        if r < 0 {
            -1
        } else {
            1 + r
        }
    }
}

pub proof fn lemma_find_idx(rows: Seq<ModelView>, id: i32)
    ensures
        ({
            let k = find_idx(rows, id);
            &&& -1 <= k < rows.len()
            &&& k >= 0 ==> rows[k].id == id && (forall|j: int| 0 <= j < k ==> rows[j].id != id)
            &&& k == -1 ==> forall|j: int| 0 <= j < rows.len() ==> rows[j].id != id
        }),
    decreases rows.len(),
{
    if rows.len() > 0 && rows[0].id != id {
        lemma_find_idx(rows.skip(1), id);
        let r = find_idx(rows.skip(1), id);
        if r >= 0 {
            assert(rows[1 + r].id == rows.skip(1)[r].id);
            assert forall|j: int| 0 <= j < 1 + r implies rows[j].id != id by {
                if j >= 1 {
                    assert(rows.skip(1)[j - 1].id != id);
                }
            }
        } else {
            assert forall|j: int| 0 <= j < rows.len() implies rows[j].id != id by {
                if j >= 1 {
                    assert(rows.skip(1)[j - 1].id != id);
                }
            }
        }
    }
}

/// Two row sequences with the same ids have the same first index for
/// every id.
pub proof fn lemma_find_idx_same_ids(a: Seq<ModelView>, b: Seq<ModelView>, id: i32)
    requires
        a.len() == b.len(),
        forall|i: int| 0 <= i < a.len() ==> a[i].id == #[trigger] b[i].id,
    ensures
        find_idx(a, id) == find_idx(b, id),
    decreases a.len(),
{
    if a.len() > 0 {
        assert(forall|i: int| 0 <= i < a.skip(1).len() ==> a.skip(1)[i].id == #[trigger] b.skip(
            1,
        )[i].id);
        lemma_find_idx_same_ids(a.skip(1), b.skip(1), id);
    }
}

/// The row after a soft-delete toggle.
pub open spec fn toggled(p: ModelView) -> ModelView {
    ModelView { is_del: !p.is_del, ..p }
}

/// The row after one hit increment.
pub open spec fn hit_bumped(p: ModelView) -> ModelView {
    ModelView { hit: (p.hit + 1) as i32, ..p }
}

/// Whether a fetch asked for the hit increment: absent means yes.
pub open spec fn inc_requested(inc_hit: Option<bool>) -> bool {
    match inc_hit {
        None => true,
        Some(b) => b,
    }
}

/// Whether a row passes an optional soft-delete constraint.
pub open spec fn del_passes(p: ModelView, is_del: Option<bool>) -> bool {
    match is_del {
        None => true,
        Some(d) => p.is_del == d,
    }
}

proof fn lemma_filter_snoc<A>(s: Seq<A>, x: A, pred: spec_fn(A) -> bool)
    ensures
        s.push(x).filter(pred) == s.filter(pred) + (if pred(x) {
            seq![x]
        } else {
            Seq::<A>::empty()
        }),
{
    reveal(Seq::filter);
    assert(s.push(x).drop_last() =~= s);
    if pred(x) {
        assert(s.push(x).filter(pred) =~= s.filter(pred) + seq![x]);
    } else {
        assert(s.push(x).filter(pred) =~= s.filter(pred) + Seq::<A>::empty());
    }
}

impl PostStore {
    /// The mathematical value of the table: its rows, in stored order.
    pub open spec fn rows(self) -> Seq<ModelView> {
        self.posts@.map_values(|m: Model| m@)
    }

    /// Well-formed: ids strictly ascending, all below the next id, and no
    /// negative hit counter.
    pub open spec fn wf(self) -> bool {
        &&& forall|i: int, j: int|
            0 <= i < j < self.rows().len() ==> #[trigger] self.rows()[i].id < #[trigger] self.rows()[j].id
        &&& forall|i: int| 0 <= i < self.rows().len() ==> (#[trigger] self.rows()[i].id) < self.next_id
        &&& forall|i: int| 0 <= i < self.rows().len() ==> (#[trigger] self.rows()[i].hit) >= 0
    }

    /// The rows a predicate keeps, in stored (ascending id) order.
    pub open spec fn matching(self, f: PredicateView) -> Seq<ModelView> {
        self.rows().filter(|p: ModelView| satisfies(p, f))
    }

    /// The rows a predicate keeps, newest id first: the listing order.
    pub open spec fn matching_desc(self, f: PredicateView) -> Seq<ModelView> {
        self.matching(f).reverse()
    }

    /// An empty table; ids start at 1.
    pub fn new() -> (r: PostStore)
        ensures
            r.wf(),
            r.rows() == Seq::<ModelView>::empty(),
            r.next_id == 1,
    {
        let r = PostStore { posts: Vec::new(), next_id: 1 };
        proof {
            assert(r.rows() =~= Seq::<ModelView>::empty());
        }
        r
    }

    /// How many rows satisfy the predicate.
    pub fn select_record_total(&self, f: &Predicate) -> (n: u64)
        ensures
            n as int == self.matching(f@).len(),
    {
        let ghost pred = |p: ModelView| satisfies(p, f@);
        let mut n: u64 = 0;
        let mut i: usize = 0;
        proof {
            assert(self.rows().take(0).filter(pred) =~= Seq::<ModelView>::empty());
        }
        while i < self.posts.len()
            invariant
                0 <= i <= self.posts@.len(),
                n as int == self.rows().take(i as int).filter(pred).len(),
                n <= i,
                pred == (|p: ModelView| satisfies(p, f@)),
            decreases self.posts@.len() - i,
        {
            let ghost pre = self.rows().take(i as int);
            proof {
                assert(self.rows().take(i + 1) =~= pre.push(self.rows()[i as int]));
                lemma_filter_snoc(pre, self.rows()[i as int], pred);
            }
            if f.matches_post(&self.posts[i]) {
                proof {
                    assert(self.rows()[i as int] == self.posts@[i as int]@);
                }
                n += 1;
            }
            i += 1;
        }
        proof {
            assert(self.rows().take(self.posts@.len() as int) =~= self.rows());
        }
        n
    }

    /// Flip the soft-delete flag of the row with the given id, atomically,
    /// and return the new flag; `NotFound` when no row has the id.
    #[verifier::loop_isolation(false)]
    pub fn update_post_del(&mut self, id: i32) -> (r: Result<bool, Error>)
        requires
            old(self).wf(),
        ensures
            final(self).wf(),
            final(self).next_id == old(self).next_id,
            ({
                let k = find_idx(old(self).rows(), id);
                if k >= 0 {
                    &&& final(self).rows() == old(self).rows().update(
                        k,
                        toggled(old(self).rows()[k]),
                    )
                    &&& r == Ok::<bool, Error>(!old(self).rows()[k].is_del)
                } else {
                    &&& final(self).rows() == old(self).rows()
                    &&& r == Err::<bool, Error>(Error::NotFound)
                }
            }),
    {
        proof {
            lemma_find_idx(old(self).rows(), id);
        }
        let ghost k = find_idx(old(self).rows(), id);
        let mut i: usize = 0;
        while i < self.posts.len()
            invariant
                0 <= i <= self.posts@.len(),
                *self == *old(self),
                forall|j: int| 0 <= j < i ==> old(self).rows()[j].id != id,
            decreases self.posts@.len() - i,
        {
            if self.posts[i].id == id {
                proof {
                    assert(old(self).rows()[i as int].id == id);
                    assert(k == i as int);
                }
                let mut m = self.posts.remove(i);
                m.is_del = !m.is_del;
                let new_del = m.is_del;
                let ghost mview = m@;
                proof {
                    assert(mview =~= toggled(old(self).rows()[k]));
                }
                self.posts.insert(i, m);
                proof {
                    assert(self.posts@ =~= old(self).posts@.update(k, self.posts@[k as int]));
                    assert(self.posts@[k as int]@ == mview);
                    assert(self.rows() =~= old(self).rows().update(
                        k,
                        toggled(old(self).rows()[k]),
                    ));
                    assert(forall|a: int| 0 <= a < self.rows().len() ==> #[trigger] self.rows()[a].id
                        == old(self).rows()[a].id);
                    assert(forall|a: int| 0 <= a < self.rows().len() ==> #[trigger] self.rows()[a].hit
                        == old(self).rows()[a].hit);
                }
                return Ok(new_del);
            }
            i += 1;
        }
        proof {
            assert(k == -1);
        }
        Err(Error::NotFound)
    }

    /// The rows of one page: the matching rows in listing order, after
    /// skipping `offset` rows and taking at most `size`.
    pub open spec fn page_slice(self, f: PredicateView, size: int, offset: int) -> Seq<ModelView> {
        let m = self.matching_desc(f);
        if size <= 0 || offset < 0 || offset >= m.len() {
            Seq::empty()
        } else if offset + size <= m.len() {
            m.subrange(offset, offset + size)
        } else {
            m.subrange(offset, m.len() as int)
        }
    }

    /// Fetch one page: matching rows, newest id first, `offset` skipped,
    /// at most `page_size` taken.
    #[verifier::loop_isolation(false)]
    pub fn select_posts(&self, f: &Predicate, page_size: u64, offset: u64) -> (r: Vec<Model>)
        ensures
            r@.map_values(|m: Model| m@) == self.page_slice(f@, page_size as int, offset as int),
    {
        let ghost pred = |p: ModelView| satisfies(p, f@);
        let ghost m_asc = self.matching(f@);
        let ghost m_desc = self.matching_desc(f@);
        let mut asc: Vec<Model> = Vec::new();
        let mut i: usize = 0;
        proof {
            assert(self.rows().take(0).filter(pred) =~= Seq::<ModelView>::empty());
            assert(asc@.map_values(|m: Model| m@) =~= Seq::<ModelView>::empty());
        }
        while i < self.posts.len()
            invariant
                0 <= i <= self.posts@.len(),
                asc@.map_values(|m: Model| m@) == self.rows().take(i as int).filter(pred),
            decreases self.posts@.len() - i,
        {
            let ghost pre = self.rows().take(i as int);
            proof {
                assert(self.rows().take(i + 1) =~= pre.push(self.rows()[i as int]));
                lemma_filter_snoc(pre, self.rows()[i as int], pred);
            }
            if f.matches_post(&self.posts[i]) {
                let c = self.posts[i].clone();
                let ghost prev = asc@;
                asc.push(c);
                proof {
                    assert(asc@.map_values(|m: Model| m@) =~= prev.map_values(|m: Model| m@).push(
                        self.rows()[i as int],
                    ));
                }
            }
            i += 1;
        }
        proof {
            assert(self.rows().take(self.posts@.len() as int) =~= self.rows());
            assert(asc@.map_values(|m: Model| m@) == m_asc);
            assert(m_asc.take(m_asc.len() as int) =~= m_asc);
            assert(m_desc.take(0) =~= Seq::<ModelView>::empty());
        }
        let mut desc: Vec<Model> = Vec::new();
        while asc.len() > 0
            invariant
                asc@.len() + desc@.len() == m_asc.len(),
                asc@.map_values(|m: Model| m@) == m_asc.take(asc@.len() as int),
                desc@.map_values(|m: Model| m@) == m_desc.take(desc@.len() as int),
            decreases asc@.len(),
        {
            let ghost a = asc@.len() as int;
            let ghost d = desc@.len() as int;
            let ghost prev_asc = asc@;
            let ghost prev_desc = desc@;
            let last = asc.pop().unwrap();
            proof {
                assert(prev_asc.map_values(|m: Model| m@)[a - 1] == m_asc.take(a)[a - 1]);
                assert(last@ == m_asc[a - 1]);
                assert(asc@.map_values(|m: Model| m@) =~= m_asc.take(a - 1));
                assert(m_desc[d] == m_asc[m_asc.len() - 1 - d]);
            }
            desc.push(last);
            proof {
                assert(desc@.map_values(|m: Model| m@) =~= prev_desc.map_values(
                    |m: Model| m@,
                ).push(m_asc[a - 1]));
                assert(desc@.map_values(|m: Model| m@) =~= m_desc.take(d + 1));
            }
        }
        proof {
            assert(m_desc.take(m_desc.len() as int) =~= m_desc);
            assert(desc@.map_values(|m: Model| m@) == m_desc);
        }
        let total = desc.len();
        let mut r: Vec<Model> = Vec::new();
        proof {
            assert(r@.map_values(|m: Model| m@) =~= Seq::<ModelView>::empty());
        }
        if page_size == 0 || offset >= total as u64 {
            return r;
        }
        let off = offset as usize;
        let end: usize = if page_size > (total - off) as u64 {
            total
        } else {
            off + page_size as usize
        };
        let mut j = off;
        while j < end
            invariant
                off <= j <= end <= total,
                r@.map_values(|m: Model| m@) == m_desc.subrange(off as int, j as int),
            decreases end - j,
        {
            let c = desc[j].clone();
            let ghost prev = r@;
            r.push(c);
            proof {
                assert(r@.map_values(|m: Model| m@) =~= prev.map_values(|m: Model| m@).push(
                    m_desc[j as int],
                ));
                assert(m_desc.subrange(off as int, j + 1) =~= m_desc.subrange(
                    off as int,
                    j as int,
                ).push(m_desc[j as int]));
            }
            j += 1;
        }
        proof {
            assert(r@.map_values(|m: Model| m@) == self.page_slice(
                f@,
                page_size as int,
                offset as int,
            ));
        }
        r
    }

    /// The rows served for a zero-based page index.  A negative page, like
    /// an offset past the end, yields nothing.
    pub open spec fn listing(self, f: PredicateView, page: int) -> Seq<ModelView> {
        if page < 0 {
            Seq::empty()
        } else {
            self.page_slice(f, PAGE_SIZE as int, (PAGE_SIZE as int) * page)
        }
    }

    /// Number of pages: ceiling of the matching total over the page size.
    pub open spec fn page_total_of(total: int) -> int {
        (total + (PAGE_SIZE as int) - 1) / (PAGE_SIZE as int)
    }

    /// Serve one listing page: count the matching rows for the page total,
    /// fetch the page, and refuse an empty page as `NotFound` rather than
    /// returning it — a deliberate compatibility quirk of this engine.
    pub fn list_posts(&self, f: &Predicate, page: i32) -> (r: Result<PagedResult, Error>)
        ensures
            ({
                let items = self.listing(f@, page as int);
                &&& items.len() == 0 ==> r == Err::<PagedResult, Error>(Error::NotFound)
                &&& items.len() > 0 ==> (r matches Ok(pr) && pr.page == page
                    && pr.page_total as int == Self::page_total_of(self.matching(f@).len() as int)
                    && pr.posts@.map_values(|m: Model| m@) == items)
            }),
    {
        if page < 0 {
            return Err(Error::NotFound);
        }
        let total = self.select_record_total(f);
        let page_total = total / PAGE_SIZE + (if total % PAGE_SIZE == 0 {
            0
        } else {
            1
        });
        proof {
            let t = total as int;
            let q = t / 10;
            let rm = t % 10;
            lemma_fundamental_div_mod(t, 10);
            if rm == 0 {
                lemma_fundamental_div_mod_converse(t + 9, 10, q, 9);
            } else {
                lemma_fundamental_div_mod_converse(t + 9, 10, q + 1, rm - 1);
            }
            assert(page_total as int == Self::page_total_of(t));
        }
        let offset = (page as u64) * PAGE_SIZE;
        let posts = self.select_posts(f, PAGE_SIZE, offset);
        proof {
            assert(posts@.map_values(|m: Model| m@).len() == posts@.len());
        }
        if posts.len() == 0 {
            return Err(Error::NotFound);
        }
        Ok(PagedResult { page, page_total, posts })
    }

    /// Locate the row with the given id (and, when supplied, the wanted
    /// soft-delete flag) and return it; when the hit increment is
    /// requested — it is by default — add 1 to `hit` in the same
    /// indivisible step and return the row as incremented.  A counter at
    /// its ceiling fails as the store would, leaving the row unchanged.
    #[verifier::loop_isolation(false)]
    pub fn select_a_post(&mut self, id: i32, is_del: Option<bool>, inc_hit: Option<bool>) -> (r:
        Result<Option<Model>, Error>)
        requires
            old(self).wf(),
        ensures
            final(self).wf(),
            final(self).next_id == old(self).next_id,
            ({
                let k = find_idx(old(self).rows(), id);
                if k >= 0 && del_passes(old(self).rows()[k], is_del) {
                    if inc_requested(inc_hit) {
                        if old(self).rows()[k].hit < i32::MAX {
                            &&& final(self).rows() == old(self).rows().update(
                                k,
                                hit_bumped(old(self).rows()[k]),
                            )
                            &&& r matches Ok(Some(m)) && m@ == hit_bumped(old(self).rows()[k])
                        } else {
                            &&& final(self).rows() == old(self).rows()
                            &&& r == Err::<Option<Model>, Error>(Error::StoreFailure)
                        }
                    } else {
                        &&& final(self).rows() == old(self).rows()
                        &&& r matches Ok(Some(m)) && m@ == old(self).rows()[k]
                    }
                } else {
                    &&& final(self).rows() == old(self).rows()
                    &&& r == Ok::<Option<Model>, Error>(None)
                }
            }),
    {
        proof {
            lemma_find_idx(old(self).rows(), id);
        }
        let ghost k = find_idx(old(self).rows(), id);
        let inc = match inc_hit {
            None => true,
            Some(b) => b,
        };
        let mut i: usize = 0;
        while i < self.posts.len()
            invariant
                0 <= i <= self.posts@.len(),
                *self == *old(self),
                forall|j: int| 0 <= j < i ==> old(self).rows()[j].id != id,
            decreases self.posts@.len() - i,
        {
            if self.posts[i].id == id {
                proof {
                    assert(old(self).rows()[i as int].id == id);
                    assert(k == i as int);
                }
                let del_ok = match is_del {
                    None => true,
                    Some(d) => self.posts[i].is_del == d,
                };
                if !del_ok {
                    return Ok(None);
                }
                if !inc {
                    let out = self.posts[i].clone();
                    return Ok(Some(out));
                }
                if self.posts[i].hit == i32::MAX {
                    return Err(Error::StoreFailure);
                }
                let mut m = self.posts.remove(i);
                m.hit = m.hit + 1;
                let ghost mview = m@;
                proof {
                    assert(mview =~= hit_bumped(old(self).rows()[k]));
                }
                let out = m.clone();
                self.posts.insert(i, m);
                proof {
                    assert(self.posts@ =~= old(self).posts@.update(k, self.posts@[k as int]));
                    assert(self.posts@[k as int]@ == mview);
                    assert(self.rows() =~= old(self).rows().update(
                        k,
                        hit_bumped(old(self).rows()[k]),
                    ));
                    assert(forall|a: int| 0 <= a < self.rows().len() ==> #[trigger] self.rows()[a].id
                        == old(self).rows()[a].id);
                    assert(forall|a: int| 0 <= a < self.rows().len() ==> #[trigger] self.rows()[a].hit
                        >= old(self).rows()[a].hit);
                }
                return Ok(Some(out));
            }
            i += 1;
        }
        proof {
            assert(k == -1);
        }
        Ok(None)
    }

    /// Append a new post: the store assigns the next id; the row starts
    /// with no hits, not deleted, and no edit time; the tag list is stored
    /// encoded.
    pub fn insert_new_post(
        &mut self,
        title: String,
        tag_id: Vec<i32>,
        md_path: String,
        html_path: String,
        words_len: i32,
        summary: String,
        publish_time: i64,
    ) -> (id: i32)
        requires
            old(self).wf(),
            old(self).next_id < i32::MAX,
        ensures
            final(self).wf(),
            id == old(self).next_id,
            final(self).next_id == old(self).next_id + 1,
            final(self).rows() == old(self).rows().push(
                ModelView {
                    id: old(self).next_id,
                    title: title@,
                    summary: summary@,
                    md_path: md_path@,
                    html_path: html_path@,
                    hit: 0,
                    words_len: Some(words_len),
                    is_del: false,
                    publish_time,
                    update_time: None,
                    tag_id: Some(encode_spec(tag_id@)),
                },
            ),
    {
        let id = self.next_id;
        let blob = tags_to_u8(tag_id);
        let m = Model {
            id,
            title,
            summary,
            md_path,
            html_path,
            hit: 0,
            words_len: Some(words_len),
            is_del: false,
            publish_time,
            update_time: None,
            tag_id: Some(blob),
        };
        let ghost mview = m@;
        self.posts.push(m);
        self.next_id = self.next_id + 1;
        proof {
            assert(self.rows() =~= old(self).rows().push(mview));
            assert(mview =~= ModelView {
                id: old(self).next_id,
                title: old(self).rows().push(mview)[old(self).rows().len() as int].title,
                summary: mview.summary,
                md_path: mview.md_path,
                html_path: mview.html_path,
                hit: 0,
                words_len: mview.words_len,
                is_del: false,
                publish_time,
                update_time: None,
                tag_id: mview.tag_id,
            });
            assert(forall|a: int| 0 <= a < old(self).rows().len() ==> #[trigger] self.rows()[a]
                == old(self).rows()[a]);
        }
        id
    }

    /// The row after an edit: new title, tags, content locator and
    /// summary, and the edit time set; everything else kept.
    pub open spec fn edited(
        p: ModelView,
        title: Seq<char>,
        blob: Seq<u8>,
        md_path: Seq<char>,
        summary: Seq<char>,
        update_time: i64,
    ) -> ModelView {
        ModelView {
            title,
            summary,
            md_path,
            update_time: Some(update_time),
            tag_id: Some(blob),
            ..p
        }
    }

    /// Edit the row with the given id and return how many rows changed:
    /// one when the id exists, none otherwise.
    #[verifier::loop_isolation(false)]
    pub fn update_post(
        &mut self,
        id: i32,
        title: String,
        tag_id: Vec<i32>,
        md_path: String,
        summary: String,
        update_time: i64,
    ) -> (n: u64)
        requires
            old(self).wf(),
        ensures
            final(self).wf(),
            final(self).next_id == old(self).next_id,
            ({
                let k = find_idx(old(self).rows(), id);
                if k >= 0 {
                    &&& final(self).rows() == old(self).rows().update(
                        k,
                        Self::edited(
                            old(self).rows()[k],
                            title@,
                            encode_spec(tag_id@),
                            md_path@,
                            summary@,
                            update_time,
                        ),
                    )
                    &&& n == 1
                } else {
                    &&& final(self).rows() == old(self).rows()
                    &&& n == 0
                }
            }),
    {
        proof {
            lemma_find_idx(old(self).rows(), id);
        }
        let ghost k = find_idx(old(self).rows(), id);
        let blob = tags_to_u8(tag_id);
        let mut i: usize = 0;
        while i < self.posts.len()
            invariant
                0 <= i <= self.posts@.len(),
                *self == *old(self),
                forall|j: int| 0 <= j < i ==> old(self).rows()[j].id != id,
            decreases self.posts@.len() - i,
        {
            if self.posts[i].id == id {
                proof {
                    assert(old(self).rows()[i as int].id == id);
                    assert(k == i as int);
                }
                let prev = self.posts.remove(i);
                let m = Model {
                    id: prev.id,
                    title,
                    summary,
                    md_path,
                    html_path: prev.html_path,
                    hit: prev.hit,
                    words_len: prev.words_len,
                    is_del: prev.is_del,
                    publish_time: prev.publish_time,
                    update_time: Some(update_time),
                    tag_id: Some(blob),
                };
                let ghost mview = m@;
                proof {
                    assert(mview =~= Self::edited(
                        old(self).rows()[k],
                        title@,
                        encode_spec(tag_id@),
                        md_path@,
                        summary@,
                        update_time,
                    ));
                }
                self.posts.insert(i, m);
                proof {
                    assert(self.posts@ =~= old(self).posts@.update(k, self.posts@[k as int]));
                    assert(self.posts@[k as int]@ == mview);
                    assert(self.rows() =~= old(self).rows().update(k, mview));
                    assert(forall|a: int| 0 <= a < self.rows().len() ==> #[trigger] self.rows()[a].id
                        == old(self).rows()[a].id);
                    assert(forall|a: int| 0 <= a < self.rows().len() ==> #[trigger] self.rows()[a].hit
                        == old(self).rows()[a].hit);
                }
                return 1;
            }
            i += 1;
        }
        proof {
            assert(k == -1);
        }
        0
    }
}

/// The rows after `n` hit increments on the row at `k`.
pub open spec fn bump_n(rows: Seq<ModelView>, k: int, n: nat) -> Seq<ModelView>
    decreases n,
{
    if n == 0 {
        rows
    } else {
        let prev = bump_n(rows, k, (n - 1) as nat);
        prev.update(k, hit_bumped(prev[k]))
    }
}

/// Hit increments accumulate: `n` fetch-and-increment steps on the same
/// row add exactly `n` to its counter, touch nothing else, and keep every
/// id where it was, so all `n` calls keyed by one id land on that row.
/// Each fetch (`select_a_post`) is one such step on an exclusive
/// reference — one indivisible operation against the store — so no
/// interleaving of `n` calls can lose an increment.
pub proof fn lemma_hit_increments_accumulate(rows: Seq<ModelView>, k: int, n: nat)
    requires
        0 <= k < rows.len(),
        rows[k].hit + n <= i32::MAX,
    ensures
        bump_n(rows, k, n).len() == rows.len(),
        bump_n(rows, k, n)[k] == (ModelView { hit: (rows[k].hit + n) as i32, ..rows[k] }),
        forall|j: int| 0 <= j < rows.len() && j != k ==> bump_n(rows, k, n)[j] == rows[j],
        forall|id: i32| find_idx(bump_n(rows, k, n), id) == #[trigger] find_idx(rows, id),
    decreases n,
{
    if n == 0 {
        assert(bump_n(rows, k, n)[k] =~= ModelView { hit: (rows[k].hit + n) as i32, ..rows[k] });
    } else {
        lemma_hit_increments_accumulate(rows, k, (n - 1) as nat);
        assert(bump_n(rows, k, n)[k] =~= ModelView { hit: (rows[k].hit + n) as i32, ..rows[k] });
    }
    assert forall|id: i32| find_idx(bump_n(rows, k, n), id) == #[trigger] find_idx(rows, id) by {
        assert(forall|j: int| 0 <= j < rows.len() ==> rows[j].id == #[trigger] bump_n(
            rows,
            k,
            n,
        )[j].id);
        lemma_find_idx_same_ids(rows, bump_n(rows, k, n), id);
    }
}

/// Two toggles in a row restore the rows exactly: the toggle is keyed by
/// id, the id stays where it was, and flipping the flag twice is the
/// identity.  A toggle on an id the table lacks changes nothing and is
/// `NotFound` (see `update_post_del`).
pub proof fn lemma_toggle_twice(rows: Seq<ModelView>, id: i32)
    requires
        find_idx(rows, id) >= 0,
    ensures
        ({
            let k = find_idx(rows, id);
            let once = rows.update(k, toggled(rows[k]));
            &&& find_idx(once, id) == k
            &&& once.update(k, toggled(once[k])) == rows
        }),
{
    let k = find_idx(rows, id);
    lemma_find_idx(rows, id);
    let once = rows.update(k, toggled(rows[k]));
    assert(forall|i: int| 0 <= i < rows.len() ==> rows[i].id == #[trigger] once[i].id);
    lemma_find_idx_same_ids(rows, once, id);
    assert(toggled(toggled(rows[k])) =~= rows[k]);
    assert(once.update(k, toggled(once[k])) =~= rows);
}

} // verus!
