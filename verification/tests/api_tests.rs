use lily_blog::api::SearchParams;
use lily_blog::post::Model;
use lily_blog::predicate::str_contains;
use lily_blog::predicate::Predicate;
use lily_blog::render::clean_markdown;
use lily_blog::render::render_post_body;
use lily_blog::service::get_service_addr;
use lily_blog::service::get_service_url;
use lily_blog::service::Service;

#[test]
fn search_params_become_listing_inputs() {
    let params = SearchParams {
        keyword: Some(String::from("rust")),
        tag_id: Some(4),
        date_range: Some((100, 200)),
        page: Some(3),
    };
    let (f, page) = params.to_query();
    assert_eq!(page, 2);
    assert_eq!(f.tag_id, Some(4));
    assert_eq!(f.keyword, Some(String::from("rust")));
    assert_eq!(f.is_del, Some(false));
    assert_eq!(f.start, Some(100));
    assert_eq!(f.end, Some(200));
}

#[test]
fn search_params_default_page_is_first() {
    let params = SearchParams { keyword: None, tag_id: None, date_range: None, page: None };
    let (f, page) = params.to_query();
    assert_eq!(page, 0);
    assert_eq!(f.tag_id, None);
    assert_eq!(f.keyword, None);
    assert_eq!(f.start, None);
    assert_eq!(f.end, None);
}

#[test]
fn predicate_matches_single_post() {
    let post = Model {
        id: 1,
        title: String::from("a story about rust"),
        summary: String::new(),
        md_path: String::new(),
        html_path: String::new(),
        hit: 0,
        words_len: None,
        is_del: false,
        publish_time: 50,
        update_time: None,
        tag_id: Some(b"X2XX3X".to_vec()),
    };
    let mut f = Predicate::new();
    assert!(f.matches_post(&post));
    f.tag_id = Some(2);
    assert!(f.matches_post(&post));
    f.keyword = Some(String::from("foo"));
    assert!(!f.matches_post(&post));
    f.keyword = Some(String::from("rust"));
    assert!(f.matches_post(&post));
    f.is_del = Some(true);
    assert!(!f.matches_post(&post));
}

#[test]
fn tagless_post_matches_no_tag_filter() {
    let post = Model {
        id: 1,
        title: String::from("t"),
        summary: String::new(),
        md_path: String::new(),
        html_path: String::new(),
        hit: 0,
        words_len: None,
        is_del: false,
        publish_time: 0,
        update_time: None,
        tag_id: None,
    };
    let mut f = Predicate::new();
    f.tag_id = Some(1);
    assert!(!f.matches_post(&post));
}

#[test]
fn str_contains_is_plain_substring() {
    assert!(str_contains("hello world", "lo wo"));
    assert!(str_contains("anything", ""));
    assert!(!str_contains("abc", "abd"));
    assert!(str_contains("\u{4e2d}\u{6587}text", "\u{6587}t"));
}

#[test]
fn render_produces_html_and_word_count() {
    let (html, words) = render_post_body("# Hi Mercury!");
    assert_eq!(html, "<h1>Hi Mercury!</h1>");
    assert_eq!(words, 9);
}

#[test]
fn clean_markdown_strips_symbols() {
    assert_eq!(clean_markdown("# Hi *there*_!"), "Hithere");
    assert_eq!(clean_markdown(""), "");
    assert_eq!(clean_markdown("\u{4e2d} \u{6587}"), "\u{4e2d}\u{6587}");
}

#[test]
fn service_addresses() {
    assert_eq!(get_service_addr("8080"), "[::1]:8080");
    assert_eq!(get_service_url("8080"), "http://[::1]:8080");
    assert_eq!(Service::Post.env_key(), "POST_SRV_PORT");
    assert_eq!(Service::Tag.env_key(), "TAG_SRV_PORT");
    assert_eq!(Service::Comment.env_key(), "COMMENT_SRV_PORT");
    assert_eq!(Service::Admin.env_key(), "ADMIN_SRV_PORT");
    assert_eq!(Service::BlogApi.env_key(), "BLOG_API_PORT");
}
