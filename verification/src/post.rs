//! The persistent post row, as the store holds it.
//!
//! `tag_id` holds the encoded tag column (see `codec`), `publish_time` and
//! `update_time` are timestamps in seconds, `hit` is the view counter and
//! `is_del` the soft-delete flag.

use vstd::prelude::*;

verus! {

/// One post row.
#[derive(Debug)]
pub struct Model {
    pub id: i32,
    pub title: String,
    pub summary: String,
    pub md_path: String,
    pub html_path: String,
    pub hit: i32,
    pub words_len: Option<i32>,
    pub is_del: bool,
    pub publish_time: i64,
    pub update_time: Option<i64>,
    pub tag_id: Option<Vec<u8>>,
}

/// The mathematical value of a post row: text as character sequences, the
/// tag column as its bytes.
#[verifier::ext_equal]
pub struct ModelView {
    pub id: i32,
    pub title: Seq<char>,
    pub summary: Seq<char>,
    pub md_path: Seq<char>,
    pub html_path: Seq<char>,
    pub hit: i32,
    pub words_len: Option<i32>,
    pub is_del: bool,
    pub publish_time: i64,
    pub update_time: Option<i64>,
    pub tag_id: Option<Seq<u8>>,
}

impl View for Model {
    type V = ModelView;

    open spec fn view(&self) -> ModelView {
        ModelView {
            id: self.id,
            title: self.title@,
            summary: self.summary@,
            md_path: self.md_path@,
            html_path: self.html_path@,
            hit: self.hit,
            words_len: self.words_len,
            is_del: self.is_del,
            publish_time: self.publish_time,
            update_time: self.update_time,
            tag_id: match self.tag_id {
                Some(v) => Some(v@),
                None => None,
            },
        }
    }
}

impl Clone for Model {
    fn clone(&self) -> (res: Self)
        ensures
            res@ == self@,
    {
        let tag_id = match &self.tag_id {
            Some(v) => {
                let c = v.clone();
                proof {
                    assert(c@ =~= v@);
                }
                Some(c)
            },
            None => None,
        };
        let res = Model {
            id: self.id,
            title: self.title.clone(),
            summary: self.summary.clone(),
            md_path: self.md_path.clone(),
            html_path: self.html_path.clone(),
            hit: self.hit,
            words_len: self.words_len,
            is_del: self.is_del,
            publish_time: self.publish_time,
            update_time: self.update_time,
            tag_id,
        };
        proof {
            assert(res@ =~= self@);
        }
        res
    }
}

} // verus!
