use lily_blog::codec::blob_contains_tag;
use lily_blog::codec::bytes_contain;
use lily_blog::codec::tag_token;
use lily_blog::codec::tags_to_u8;
use lily_blog::codec::u8_to_tags;

#[test]
fn test_u8_to_tags() {
    let tags = vec![1, 2, 3, 4, 5];
    let bytes = tags_to_u8(tags.clone());
    println!("{}", String::from_utf8(bytes.clone()).unwrap());
    let reformed_tags = u8_to_tags(bytes);
    assert_eq!(tags, reformed_tags);
}

#[test]
fn encode_shape_is_flanked_tokens() {
    assert_eq!(tags_to_u8(vec![1, 2]), b"X1XX2X".to_vec());
    assert_eq!(tags_to_u8(vec![]), b"".to_vec());
    assert_eq!(tags_to_u8(vec![-7]), b"X-7X".to_vec());
    assert_eq!(tags_to_u8(vec![120]), b"X120X".to_vec());
}

#[test]
fn round_trip_prefix_ids() {
    let tags = vec![1, 12, 21];
    assert_eq!(u8_to_tags(tags_to_u8(tags.clone())), tags);
}

#[test]
fn round_trip_empty() {
    assert_eq!(tags_to_u8(vec![]), Vec::<u8>::new());
    assert_eq!(u8_to_tags(Vec::new()), Vec::<i32>::new());
}

#[test]
fn round_trip_extremes_and_duplicates() {
    let tags = vec![i32::MIN, -1, 0, 0, i32::MAX, 7, 7];
    assert_eq!(u8_to_tags(tags_to_u8(tags.clone())), tags);
}

#[test]
fn membership_no_prefix_collision() {
    let blob = tags_to_u8(vec![12]);
    assert!(blob_contains_tag(&blob, 12));
    assert!(!blob_contains_tag(&blob, 1));
    assert!(!blob_contains_tag(&blob, 2));
    let blob = tags_to_u8(vec![1, 12, 21]);
    assert!(blob_contains_tag(&blob, 1));
    assert!(blob_contains_tag(&blob, 12));
    assert!(blob_contains_tag(&blob, 21));
    assert!(!blob_contains_tag(&blob, 2));
    assert!(!blob_contains_tag(&blob, 121));
}

#[test]
fn token_bytes() {
    assert_eq!(tag_token(34), b"X34X".to_vec());
    assert_eq!(tag_token(-5), b"X-5X".to_vec());
}

#[test]
fn decode_discards_unparsable_segments() {
    assert_eq!(u8_to_tags(b"XX".to_vec()), Vec::<i32>::new());
    assert_eq!(u8_to_tags(b"X+5X".to_vec()), vec![5]);
    assert_eq!(u8_to_tags(b"X-3X".to_vec()), vec![-3]);
    assert_eq!(u8_to_tags(b"XabcXX9X".to_vec()), vec![9]);
    assert_eq!(u8_to_tags(b"X99999999999X".to_vec()), Vec::<i32>::new());
    assert_eq!(u8_to_tags(b"X2147483647XX-2147483648X".to_vec()), vec![i32::MAX, i32::MIN]);
    assert_eq!(u8_to_tags(b"X2147483648X".to_vec()), Vec::<i32>::new());
    assert_eq!(u8_to_tags(b"5".to_vec()), vec![5]);
    assert_eq!(u8_to_tags(b"X 5X".to_vec()), Vec::<i32>::new());
}

#[test]
fn decode_invalid_utf8_is_empty() {
    assert_eq!(u8_to_tags(vec![b'X', b'5', b'X', 0xff]), Vec::<i32>::new());
    assert_eq!(u8_to_tags(vec![0xC0, 0xAF]), Vec::<i32>::new());
    assert_eq!(u8_to_tags(vec![0xED, 0xA0, 0x80]), Vec::<i32>::new());
}

#[test]
fn decode_accepts_multibyte_text_around_tokens() {
    let mut bytes = "caf\u{e9}X7X\u{4e2d}\u{6587}".as_bytes().to_vec();
    assert_eq!(u8_to_tags(bytes.clone()), vec![7]);
    bytes.push(0x80);
    assert_eq!(u8_to_tags(bytes), Vec::<i32>::new());
}

#[test]
fn bytes_contain_plain_search() {
    assert!(bytes_contain(&b"hello world".to_vec(), &b"lo wo".to_vec()));
    assert!(!bytes_contain(&b"hello".to_vec(), &b"world".to_vec()));
    assert!(bytes_contain(&b"abc".to_vec(), &b"".to_vec()));
    assert!(!bytes_contain(&b"ab".to_vec(), &b"abc".to_vec()));
}
