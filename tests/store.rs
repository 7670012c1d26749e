use ic_stable_structures::DefaultMemoryImpl;
use icp_blog::store::PostStore;
use icp_blog::{DurableMemory, Error, Post, Violations};

fn fresh() -> PostStore {
    PostStore::new(DurableMemory { memory: DefaultMemoryImpl::default() }).expect("a new store")
}

fn who(name: &str) -> String {
    name.to_string()
}

fn create(store: &mut PostStore, title: &str, content: &str, caller: &str) -> Result<Post, Error> {
    store.create(title.to_string(), content.to_string(), vec!["news".to_string()], &who(caller), 100)
}

#[test]
fn like_dislike_delete_scenario() {
    let mut store = fresh();
    let (a, b, c) = (who("alice"), who("bob"), who("carol"));
    let post = create(&mut store, "Hi", "Hello world", "alice").unwrap();
    assert_eq!(post.id, 0);
    assert_eq!(post.likes, 0);
    assert_eq!(post.author, a);

    let liked = store.like(0, &b).unwrap();
    assert_eq!(liked.likes, 1);
    assert_eq!(liked.liked_by, vec![b.clone()]);

    assert_eq!(store.like(0, &b), Err(Error::AlreadyLiked));
    assert_eq!(store.dislike(0, &c), Err(Error::NotLiked));
    assert_eq!(store.delete(0, &a), Err(Error::HasLikes));

    let unliked = store.dislike(0, &b).unwrap();
    assert_eq!(unliked.likes, 0);
    assert!(unliked.liked_by.is_empty());

    let removed = store.delete(0, &a).unwrap();
    assert_eq!(removed.id, 0);
    assert_eq!(store.read(0), Err(Error::NotFound));
}

#[test]
fn invalid_payload_lists_both_rules_and_keeps_counter() {
    let mut store = fresh();
    let r = create(&mut store, "", "x", "alice");
    assert_eq!(
        r,
        Err(Error::ValidationError(Violations { title_too_short: true, content_too_short: true }))
    );
    assert_eq!(store.read(0), Err(Error::NotFound));
    let next = create(&mut store, "Title", "Hello", "alice").unwrap();
    assert_eq!(next.id, 0);
}

#[test]
fn each_rule_reported_alone() {
    let mut store = fresh();
    assert_eq!(
        create(&mut store, "", "Hello world", "alice"),
        Err(Error::ValidationError(Violations { title_too_short: true, content_too_short: false }))
    );
    assert_eq!(
        create(&mut store, "T", "four", "alice"),
        Err(Error::ValidationError(Violations { title_too_short: false, content_too_short: true }))
    );
    // Characters count, not bytes: five two-byte characters pass.
    assert!(create(&mut store, "T", "ééééé", "alice").is_ok());
}

#[test]
fn ids_increase_across_deletes() {
    let mut store = fresh();
    let a = who("alice");
    let first = create(&mut store, "One", "first post", "alice").unwrap();
    let second = create(&mut store, "Two", "second post", "alice").unwrap();
    store.delete(second.id, &a).unwrap();
    let third = create(&mut store, "Three", "third post", "alice").unwrap();
    assert_eq!((first.id, second.id, third.id), (0, 1, 2));
    store.delete(first.id, &a).unwrap();
    let fourth = create(&mut store, "Four", "fourth post", "alice").unwrap();
    assert_eq!(fourth.id, 3);
}

#[test]
fn generate_unique_id_counts_up() {
    let mut store = fresh();
    assert_eq!(store.generate_unique_id(), Some(0));
    assert_eq!(store.generate_unique_id(), Some(1));
    let post = create(&mut store, "Hi", "Hello world", "alice").unwrap();
    assert_eq!(post.id, 2);
}

#[test]
fn read_after_create_gives_same_post() {
    let mut store = fresh();
    let post = store
        .create(
            "Hi".to_string(),
            "Hello world".to_string(),
            vec!["a".to_string(), "b".to_string()],
            &who("alice"),
            42,
        )
        .unwrap();
    assert_eq!(post.created_at, 42);
    assert_eq!(post.updated_at, None);
    assert_eq!(post.categories, vec!["a".to_string(), "b".to_string()]);
    assert_eq!(store.read(post.id), Ok(post));
}

#[test]
fn likes_match_ledger_after_each_step() {
    let mut store = fresh();
    create(&mut store, "Hi", "Hello world", "alice").unwrap();
    let names = ["p1", "p2", "p3", "p4"];
    for n in names.iter() {
        let p = store.like(0, &who(n)).unwrap();
        assert_eq!(p.likes as usize, p.liked_by.len());
    }
    let p = store.dislike(0, &who("p2")).unwrap();
    assert_eq!(p.likes, 3);
    assert_eq!(p.likes as usize, p.liked_by.len());
    assert!(!p.liked_by.contains(&who("p2")));
    // The last identity moves into the freed place.
    assert_eq!(p.liked_by, vec![who("p1"), who("p4"), who("p3")]);
    let stored = store.read(0).unwrap();
    assert_eq!(stored.likes as usize, stored.liked_by.len());
}

#[test]
fn like_twice_keeps_likes() {
    let mut store = fresh();
    create(&mut store, "Hi", "Hello world", "alice").unwrap();
    store.like(0, &who("bob")).unwrap();
    assert_eq!(store.like(0, &who("bob")), Err(Error::AlreadyLiked));
    assert_eq!(store.read(0).unwrap().likes, 1);
}

#[test]
fn dislike_without_like_keeps_likes() {
    let mut store = fresh();
    create(&mut store, "Hi", "Hello world", "alice").unwrap();
    assert_eq!(store.dislike(0, &who("bob")), Err(Error::MinLikesReached));
    store.like(0, &who("carol")).unwrap();
    assert_eq!(store.dislike(0, &who("bob")), Err(Error::NotLiked));
    assert_eq!(store.read(0).unwrap().likes, 1);
}

#[test]
fn liked_post_cannot_be_deleted() {
    let mut store = fresh();
    let post = create(&mut store, "Hi", "Hello world", "alice").unwrap();
    let liked = store.like(post.id, &who("bob")).unwrap();
    assert_eq!(store.delete(post.id, &who("alice")), Err(Error::HasLikes));
    assert_eq!(store.read(post.id), Ok(liked));
}

#[test]
fn only_author_updates_or_deletes() {
    let mut store = fresh();
    let post = create(&mut store, "Hi", "Hello world", "alice").unwrap();
    let eve = who("eve");
    assert_eq!(
        store.update(post.id, "New".to_string(), "New content".to_string(), vec![], &eve, 7),
        Err(Error::NotAuthorized)
    );
    assert_eq!(store.delete(post.id, &eve), Err(Error::NotAuthorized));
    assert_eq!(store.read(post.id), Ok(post));
}

#[test]
fn update_replaces_fields_and_sets_time() {
    let mut store = fresh();
    let post = create(&mut store, "Hi", "Hello world", "alice").unwrap();
    store.like(post.id, &who("bob")).unwrap();
    let updated = store
        .update(post.id, "New".to_string(), "New content".to_string(), vec!["x".to_string()], &who("alice"), 500)
        .unwrap();
    assert_eq!(updated.title, "New");
    assert_eq!(updated.content, "New content");
    assert_eq!(updated.categories, vec!["x".to_string()]);
    assert_eq!(updated.updated_at, Some(500));
    assert_eq!(updated.created_at, 100);
    assert_eq!(updated.likes, 1);
    assert_eq!(updated.liked_by, vec![who("bob")]);
    assert_eq!(updated.author, "alice");
    assert_eq!(store.read(post.id), Ok(updated));
}

#[test]
fn update_validates_payload() {
    let mut store = fresh();
    let post = create(&mut store, "Hi", "Hello world", "alice").unwrap();
    assert_eq!(
        store.update(post.id, "".to_string(), "abc".to_string(), vec![], &who("alice"), 9),
        Err(Error::ValidationError(Violations { title_too_short: true, content_too_short: true }))
    );
    assert_eq!(store.read(post.id), Ok(post));
}

#[test]
fn missing_post_is_not_found() {
    let mut store = fresh();
    let a = who("alice");
    assert_eq!(store.read(7), Err(Error::NotFound));
    assert_eq!(
        store.update(7, "T".to_string(), "Hello".to_string(), vec![], &a, 1),
        Err(Error::NotFound)
    );
    assert_eq!(store.delete(7, &a), Err(Error::NotFound));
    assert_eq!(store.like(7, &a), Err(Error::NotFound));
    assert_eq!(store.dislike(7, &a), Err(Error::NotFound));
}

#[test]
fn oversized_post_is_refused_and_uses_no_id() {
    let mut store = fresh();
    let long = "x".repeat(1100);
    assert_eq!(create(&mut store, "T", &long, "alice"), Err(Error::RecordTooLarge));
    let post = create(&mut store, "T", "Hello", "alice").unwrap();
    assert_eq!(post.id, 0);
    assert_eq!(
        store.update(0, "T".to_string(), long, vec![], &who("alice"), 3),
        Err(Error::RecordTooLarge)
    );
    assert_eq!(store.read(0), Ok(post));
}

#[test]
fn like_that_would_overflow_the_bound_is_refused() {
    let mut store = fresh();
    let body = "y".repeat(900);
    create(&mut store, "T", &body, "alice").unwrap();
    let mut refused = false;
    for i in 0..20 {
        let name = format!("principal-number-{:04}", i);
        match store.like(0, &name) {
            Ok(p) => assert_eq!(p.likes as usize, p.liked_by.len()),
            Err(e) => {
                assert_eq!(e, Error::RecordTooLarge);
                refused = true;
                break;
            }
        }
    }
    assert!(refused);
    let p = store.read(0).unwrap();
    assert_eq!(p.likes as usize, p.liked_by.len());
}

#[test]
fn restore_reads_back_what_was_stored() {
    let memory = DefaultMemoryImpl::default();
    let post = {
        let mut store = PostStore::new(DurableMemory { memory: memory.clone() }).unwrap();
        create(&mut store, "One", "first post", "alice").unwrap();
        store.like(0, &who("bob")).unwrap()
    };
    let mut store = PostStore::restore(DurableMemory { memory }).unwrap();
    assert_eq!(store.read(0), Ok(post));
    let next = create(&mut store, "Two", "second post", "alice").unwrap();
    assert_eq!(next.id, 1);
}

#[test]
fn restore_on_blank_memory_is_empty() {
    let mut store = PostStore::restore(DurableMemory { memory: DefaultMemoryImpl::default() }).unwrap();
    assert_eq!(store.read(0), Err(Error::NotFound));
    assert_eq!(store.generate_unique_id(), Some(0));
}

#[test]
fn new_replaces_what_memory_held() {
    let memory = DefaultMemoryImpl::default();
    {
        let mut store = PostStore::new(DurableMemory { memory: memory.clone() }).unwrap();
        create(&mut store, "One", "first post", "alice").unwrap();
    }
    let mut store = PostStore::new(DurableMemory { memory }).unwrap();
    assert_eq!(store.read(0), Err(Error::NotFound));
    assert_eq!(create(&mut store, "Two", "second post", "alice").unwrap().id, 0);
}
