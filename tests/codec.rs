use icp_blog::codec::{decode, encode, MAX_SIZE};
use icp_blog::post::validate;
use icp_blog::{Post, Violations};

fn sample() -> Post {
    Post {
        id: 9,
        title: "Grüße".to_string(),
        content: "Hello world".to_string(),
        author: "2vxsx-fae".to_string(),
        created_at: 1_700_000_000_000,
        updated_at: Some(1_700_000_000_500),
        likes: 2,
        categories: vec!["a".to_string(), "".to_string(), "日本".to_string()],
        liked_by: vec!["p1".to_string(), "p2".to_string()],
    }
}

#[test]
fn round_trip() {
    let p = sample();
    let bytes = encode(&p).unwrap();
    assert_eq!(decode(&bytes), Some(p));
}

#[test]
fn round_trip_without_update_time() {
    let mut p = sample();
    p.updated_at = None;
    p.likes = 0;
    p.liked_by = vec![];
    p.categories = vec![];
    let bytes = encode(&p).unwrap();
    assert_eq!(decode(&bytes), Some(p));
}

#[test]
fn exact_layout() {
    let p = Post {
        id: 1,
        title: "A".to_string(),
        content: "".to_string(),
        author: "".to_string(),
        created_at: 2,
        updated_at: None,
        likes: 0,
        categories: vec![],
        liked_by: vec![],
    };
    let expected: Vec<u8> = vec![
        1, 0, 0, 0, 0, 0, 0, 0, // id
        1, 0, 0, 0, b'A', // title
        0, 0, 0, 0, // content
        0, 0, 0, 0, // author
        2, 0, 0, 0, 0, 0, 0, 0, // created_at
        0, // no update time
        0, 0, 0, 0, // likes
        0, 0, 0, 0, // categories
        0, 0, 0, 0, // liked_by
    ];
    assert_eq!(encode(&p), Some(expected));
}

#[test]
fn too_large_is_refused() {
    let mut p = sample();
    p.content = "z".repeat(MAX_SIZE);
    assert_eq!(encode(&p), None);
}

#[test]
fn garbage_and_trailing_bytes_are_refused() {
    assert_eq!(decode(&[1, 2, 3]), None);
    let mut bytes = encode(&sample()).unwrap();
    bytes.push(0);
    assert_eq!(decode(&bytes), None);
}

#[test]
fn inconsistent_ledger_is_refused() {
    let mut p = sample();
    p.likes = 3;
    assert_eq!(decode(&encode(&p).unwrap()), None);
    let mut q = sample();
    q.liked_by = vec!["p1".to_string(), "p1".to_string()];
    assert_eq!(decode(&encode(&q).unwrap()), None);
}

#[test]
fn invalid_utf8_is_refused() {
    let mut p = sample();
    p.title = "ab".to_string();
    let mut bytes = encode(&p).unwrap();
    bytes[12] = 0xff;
    assert_eq!(decode(&bytes), None);
}

#[test]
fn validation_rules() {
    assert_eq!(validate("", "x"), Violations { title_too_short: true, content_too_short: true });
    assert_eq!(validate("a", "12345"), Violations { title_too_short: false, content_too_short: false });
    assert_eq!(validate("a", "1234"), Violations { title_too_short: false, content_too_short: true });
}
