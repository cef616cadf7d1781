use lily_blog::post::Model;
use lily_blog::predicate::Predicate;
use lily_blog::store::Error;
use lily_blog::store::PostStore;

fn post_titles() -> Vec<String> {
    let mut titles = Vec::new();
    let mut i = 1;
    while i <= 25 {
        titles.push(format!("post number {}", i));
        i += 1;
    }
    titles
}

fn sample_store() -> PostStore {
    let mut store = PostStore::new();
    for (i, title) in post_titles().into_iter().enumerate() {
        let tags = if i % 2 == 0 { vec![2, 3] } else { vec![12] };
        let id = store.insert_new_post(
            title,
            tags,
            format!("/md/{}.md", i + 1),
            format!("/html/{}.html", i + 1),
            100,
            String::from("a summary"),
            1_700_000_000 + i as i64,
        );
        assert_eq!(id, i as i32 + 1);
    }
    store
}

fn all() -> Predicate {
    Predicate::new()
}

#[test]
fn pagination_arithmetic() {
    let store = sample_store();
    assert_eq!(store.select_record_total(&all()), 25);

    let page0 = store.list_posts(&all(), 0).unwrap();
    assert_eq!(page0.page, 0);
    assert_eq!(page0.page_total, 3);
    assert_eq!(page0.posts.len(), 10);
    // newest id first
    assert_eq!(page0.posts[0].id, 25);
    assert_eq!(page0.posts[9].id, 16);

    let page2 = store.list_posts(&all(), 2).unwrap();
    assert_eq!(page2.posts.len(), 5);
    assert_eq!(page2.posts[0].id, 5);
    assert_eq!(page2.posts[4].id, 1);

    assert_eq!(store.list_posts(&all(), 3).unwrap_err(), Error::NotFound);
    assert_eq!(store.list_posts(&all(), -1).unwrap_err(), Error::NotFound);
}

#[test]
fn page_total_rounds_up() {
    let mut store = PostStore::new();
    for i in 0..10 {
        store.insert_new_post(
            format!("t{}", i),
            vec![],
            String::from("m"),
            String::from("h"),
            0,
            String::from("s"),
            0,
        );
    }
    assert_eq!(store.list_posts(&all(), 0).unwrap().page_total, 1);
    store.insert_new_post(
        String::from("t10"),
        vec![],
        String::from("m"),
        String::from("h"),
        0,
        String::from("s"),
        0,
    );
    assert_eq!(store.list_posts(&all(), 0).unwrap().page_total, 2);
}

#[test]
fn empty_page_is_not_found() {
    let store = PostStore::new();
    assert_eq!(store.list_posts(&all(), 0).unwrap_err(), Error::NotFound);
}

#[test]
fn predicate_conjunction_excludes() {
    let store = sample_store();
    // every even-index post carries tag 2; none of their titles holds "foo"
    let mut tag_only = Predicate::new();
    tag_only.tag_id = Some(2);
    let with_tag = store.select_record_total(&tag_only);
    assert_eq!(with_tag, 13);

    let mut both = Predicate::new();
    both.tag_id = Some(2);
    both.keyword = Some(String::from("foo"));
    assert_eq!(store.select_record_total(&both), 0);
    assert_eq!(store.list_posts(&both, 0).unwrap_err(), Error::NotFound);

    // tag 12 never matches as a substring of tag 2's rows or the reverse
    let mut tag12 = Predicate::new();
    tag12.tag_id = Some(12);
    assert_eq!(store.select_record_total(&tag12), 12);
    let mut tag1 = Predicate::new();
    tag1.tag_id = Some(1);
    assert_eq!(store.select_record_total(&tag1), 0);
}

#[test]
fn keyword_filters_titles() {
    let store = sample_store();
    let mut kw = Predicate::new();
    kw.keyword = Some(String::from("number 2"));
    // "number 2", "number 20" .. "number 25"
    assert_eq!(store.select_record_total(&kw), 7);
}

#[test]
fn date_range_needs_both_bounds() {
    let store = sample_store();
    // a full range keeps only the rows inside it, bounds inclusive
    let mut ranged = Predicate::new();
    ranged.start = Some(1_700_000_005);
    ranged.end = Some(1_700_000_009);
    assert_eq!(store.select_record_total(&ranged), 5);

    // only a start: no date constraint at all, not an open-ended bound
    let mut half = Predicate::new();
    half.start = Some(9_999_999_999);
    assert_eq!(store.select_record_total(&half), 25);

    // only an end behaves the same way
    let mut half_end = Predicate::new();
    half_end.end = Some(-1);
    assert_eq!(store.select_record_total(&half_end), 25);
}

#[test]
fn get_post_increments_hit_by_default() {
    let mut store = sample_store();
    let first = store.select_a_post(7, None, None).unwrap().unwrap();
    assert_eq!(first.hit, 1);
    let second = store.select_a_post(7, None, Some(true)).unwrap().unwrap();
    assert_eq!(second.hit, 2);
    // each of N sequential calls observes its own increment: no lost update
    for n in 3..=10 {
        let seen = store.select_a_post(7, None, None).unwrap().unwrap();
        assert_eq!(seen.hit, n);
    }
    assert_eq!(store.posts[6].hit, 10);
}

#[test]
fn get_post_without_increment_leaves_hit() {
    let mut store = sample_store();
    let seen = store.select_a_post(3, None, Some(false)).unwrap().unwrap();
    assert_eq!(seen.hit, 0);
    let again = store.select_a_post(3, None, Some(false)).unwrap().unwrap();
    assert_eq!(again.hit, 0);
    assert_eq!(store.posts[2].hit, 0);
}

#[test]
fn get_post_respects_del_filter() {
    let mut store = sample_store();
    // no row with id 3 among the deleted
    assert!(store.select_a_post(3, Some(true), None).unwrap().is_none());
    // and the miss must not touch the counter
    assert_eq!(store.posts[2].hit, 0);
    assert!(store.select_a_post(999, None, None).unwrap().is_none());
}

#[test]
fn hit_at_ceiling_is_store_failure() {
    let mut store = PostStore::new();
    store.insert_new_post(
        String::from("old"),
        vec![],
        String::from("m"),
        String::from("h"),
        0,
        String::from("s"),
        0,
    );
    store.posts[0].hit = i32::MAX;
    let res = store.select_a_post(1, None, None);
    assert_eq!(res.unwrap_err(), Error::StoreFailure);
    assert_eq!(store.posts[0].hit, i32::MAX);
}

#[test]
fn toggle_twice_restores() {
    let mut store = sample_store();
    assert!(!store.posts[4].is_del);
    assert_eq!(store.update_post_del(5), Ok(true));
    assert!(store.posts[4].is_del);
    assert_eq!(store.update_post_del(5), Ok(false));
    assert!(!store.posts[4].is_del);
}

#[test]
fn toggle_missing_id_is_not_found() {
    let mut store = sample_store();
    assert_eq!(store.update_post_del(1000), Err(Error::NotFound));
}

#[test]
fn deleted_rows_filtered_from_public_listing() {
    let mut store = sample_store();
    store.update_post_del(25).unwrap();
    let mut visible = Predicate::new();
    visible.is_del = Some(false);
    assert_eq!(store.select_record_total(&visible), 24);
    let page = store.list_posts(&visible, 0).unwrap();
    assert_eq!(page.posts[0].id, 24);
    let mut hidden = Predicate::new();
    hidden.is_del = Some(true);
    assert_eq!(store.select_record_total(&hidden), 1);
}

#[test]
fn edit_post_updates_fields() {
    let mut store = sample_store();
    let n = store.update_post(
        2,
        String::from("edited title"),
        vec![2, 3, 4, 5],
        String::from("/md/new.md"),
        String::from("new summary"),
        1_800_000_000,
    );
    assert_eq!(n, 1);
    let row: &Model = &store.posts[1];
    assert_eq!(row.title, "edited title");
    assert_eq!(row.md_path, "/md/new.md");
    assert_eq!(row.summary, "new summary");
    assert_eq!(row.update_time, Some(1_800_000_000));
    // the edit leaves the rendered locator and counters alone
    assert_eq!(row.html_path, "/html/2.html");
    assert_eq!(row.hit, 0);
    assert_eq!(row.tag_id, Some(b"X2XX3XX4XX5X".to_vec()));

    let missing = store.update_post(
        1000,
        String::from("x"),
        vec![],
        String::from("x"),
        String::from("x"),
        0,
    );
    assert_eq!(missing, 0);
}

#[test]
fn insert_assigns_fresh_ids_and_defaults() {
    let mut store = PostStore::new();
    let id = store.insert_new_post(
        String::from("first"),
        vec![9],
        String::from("/md/a.md"),
        String::from("/html/a.html"),
        42,
        String::from("sum"),
        123,
    );
    assert_eq!(id, 1);
    assert_eq!(store.next_id, 2);
    let row = &store.posts[0];
    assert_eq!(row.hit, 0);
    assert!(!row.is_del);
    assert_eq!(row.update_time, None);
    assert_eq!(row.words_len, Some(42));
    assert_eq!(row.publish_time, 123);
    assert_eq!(row.tag_id, Some(b"X9X".to_vec()));
}
