use crate::codec::{decode, encode, encoding, lemma_decode_encode, lemma_enc_strs_prefix, parse_post, MAX_SIZE};
use crate::post::{validate, violations_of, Error, Post, PostView};
use crate::storage::{
    cell_loadable, cell_value, has_magic, manager_loadable, map_entries, map_loadable,
    memory_bytes, region_bytes, DurableMemory, IdCell, PostMap, Region,
};
use vstd::bytes::{spec_u32_from_le_bytes, u32_from_le_bytes};
use vstd::slice::slice_subrange;
use vstd::prelude::*;

verus! {

/// The durable region that holds the identifier counter.
pub const COUNTER_REGION: u8 = 0;

/// The durable region that holds the posts.
pub const POSTS_REGION: u8 = 1;

/// The mathematical value of an operation's result.
pub open spec fn view_result(r: Result<Post, Error>) -> Result<PostView, Error> {
    match r {
        Ok(p) => Ok(p@),
        Err(e) => Err(e),
    }
}

/// A result that would write a post too large to store becomes an error.
pub open spec fn within_bound(r: Result<PostView, Error>) -> Result<PostView, Error> {
    match r {
        Ok(u) => if encoding(u).len() <= MAX_SIZE {
            Ok(u)
        } else {
            Err(Error::RecordTooLarge)
        },
        Err(e) => Err(e),
    }
}

/// A post as it is first created: no update yet and nobody has liked it.
pub open spec fn fresh_post(
    id: u64,
    title: Seq<char>,
    content: Seq<char>,
    categories: Seq<Seq<char>>,
    author: Seq<char>,
    now: u64,
) -> PostView {
    PostView {
        id,
        title,
        content,
        author,
        created_at: now,
        updated_at: None,
        likes: 0,
        categories,
        liked_by: Seq::empty(),
    }
}

/// What `create` yields when the counter stands at `next`.
pub open spec fn create_outcome(
    next: u64,
    title: Seq<char>,
    content: Seq<char>,
    categories: Seq<Seq<char>>,
    author: Seq<char>,
    now: u64,
) -> Result<PostView, Error> {
    if violations_of(title, content).any() {
        Err(Error::ValidationError(violations_of(title, content)))
    } else if next == u64::MAX {
        Err(Error::CapacityExhausted)
    } else {
        within_bound(Ok(fresh_post(next, title, content, categories, author, now)))
    }
}

/// What `update` yields on the post `v`, before the size bound.
pub open spec fn update_outcome(
    v: PostView,
    title: Seq<char>,
    content: Seq<char>,
    categories: Seq<Seq<char>>,
    caller: Seq<char>,
    now: u64,
) -> Result<PostView, Error> {
    if v.author != caller {
        Err(Error::NotAuthorized)
    } else if violations_of(title, content).any() {
        Err(Error::ValidationError(violations_of(title, content)))
    } else {
        Ok(
            PostView {
                id: v.id,
                title,
                content,
                author: v.author,
                created_at: v.created_at,
                updated_at: Some(now),
                likes: v.likes,
                categories,
                liked_by: v.liked_by,
            },
        )
    }
}

/// What `delete` yields on the post `v`.
pub open spec fn delete_outcome(v: PostView, caller: Seq<char>) -> Result<PostView, Error> {
    if v.author != caller {
        Err(Error::NotAuthorized)
    } else if v.likes > 0 {
        Err(Error::HasLikes)
    } else {
        Ok(v)
    }
}

/// What `like` yields on the post `v`, before the size bound.
pub open spec fn like_outcome(v: PostView, caller: Seq<char>) -> Result<PostView, Error> {
    if v.likes == u32::MAX {
        Err(Error::MaxLikesReached)
    } else if v.liked_by.contains(caller) {
        Err(Error::AlreadyLiked)
    } else {
        Ok(
            PostView {
                id: v.id,
                title: v.title,
                content: v.content,
                author: v.author,
                created_at: v.created_at,
                updated_at: v.updated_at,
                likes: (v.likes + 1) as u32,
                categories: v.categories,
                liked_by: v.liked_by.push(caller),
            },
        )
    }
}

/// The ledger with `x` taken out: the last identity moves into its place.
pub open spec fn ledger_without(s: Seq<Seq<char>>, x: Seq<char>) -> Seq<Seq<char>> {
    s.update(s.index_of(x), s.last()).drop_last()
}

/// What `dislike` yields on the post `v`, before the size bound.
pub open spec fn dislike_outcome(v: PostView, caller: Seq<char>) -> Result<PostView, Error> {
    if v.likes == 0 {
        Err(Error::MinLikesReached)
    } else if !v.liked_by.contains(caller) {
        Err(Error::NotLiked)
    } else {
        Ok(
            PostView {
                id: v.id,
                title: v.title,
                content: v.content,
                author: v.author,
                created_at: v.created_at,
                updated_at: v.updated_at,
                likes: (v.likes - 1) as u32,
                categories: v.categories,
                liked_by: ledger_without(v.liked_by, caller),
            },
        )
    }
}

/// Where `x` stands in the ledger, if anywhere.
fn ledger_position(ledger: &Vec<String>, x: &String) -> (r: Option<usize>)
    ensures
        r matches Some(i) ==> i < ledger@.len() && ledger.deep_view()[i as int] == x@,
        r is None ==> !ledger.deep_view().contains(x@),
{
    let ghost s = ledger.deep_view();
    let mut i: usize = 0;
    while i < ledger.len()
        invariant
            i <= ledger@.len(),
            s == ledger.deep_view(),
            forall|k: int| 0 <= k < i ==> s[k] != x@,
        decreases ledger@.len() - i,
    {
        if ledger[i] == *x {
            return Some(i);
        }
        i = i + 1;
    }
    None
}

/// Whether the first four bytes of a memory hold no region manager header,
/// or one of the version the manager reads.
pub fn manager_header_ok(h: &[u8]) -> (r: bool)
    requires
        h@.len() == 4,
    ensures
        r == (!has_magic(h@, 0, seq![77u8, 71u8, 82u8]) || h@[3] == 1),
{
    assert(h@.subrange(0, 3) =~= seq![h@[0], h@[1], h@[2]]);
    !(h[0] == 77 && h[1] == 71 && h[2] == 82) || h[3] == 1
}

/// Whether the first eight bytes of a region hold no cell header, one of
/// another version, or one whose stored value has eight bytes.
pub fn cell_header_ok(h: &[u8]) -> (r: bool)
    requires
        h@.len() == 8,
    ensures
        r == (!has_magic(h@, 0, seq![83u8, 67u8, 76u8]) || h@[3] != 1 || spec_u32_from_le_bytes(
            h@.subrange(4, 8),
        ) == 8),
{
    assert(h@.subrange(0, 3) =~= seq![h@[0], h@[1], h@[2]]);
    if !(h[0] == 83 && h[1] == 67 && h[2] == 76) || h[3] != 1 {
        return true;
    }
    u32_from_le_bytes(slice_subrange(h, 4, 8)) == 8
}

/// Whether the first 56 bytes of a region hold no map header, or a
/// second-version map header with an allocator header of the version read.
pub fn map_header_ok(h: &[u8]) -> (r: bool)
    requires
        h@.len() == 56,
    ensures
        r == (!has_magic(h@, 0, seq![66u8, 84u8, 82u8]) || (h@[3] == 2 && has_magic(
            h@,
            52,
            seq![66u8, 84u8, 65u8],
        ) && h@[55] == 1)),
{
    assert(h@.subrange(0, 3) =~= seq![h@[0], h@[1], h@[2]]);
    assert(h@.subrange(52, 55) =~= seq![h@[52], h@[53], h@[54]]);
    !(h[0] == 66 && h[1] == 84 && h[2] == 82) || (h[3] == 2 && h[52] == 66 && h[53] == 84 && h[54]
        == 65 && h[55] == 1)
}

/// Whether every stored identifier, whose largest is `last`, lies below
/// the counter value `next`.
pub fn ids_below(last: Option<u64>, next: u64) -> (r: bool)
    ensures
        r == (last matches Some(k) ==> k < next),
{
    match last {
        Some(k) => k < next,
        None => true,
    }
}

fn memory_loadable(memory: &DurableMemory) -> (r: bool)
    ensures
        r == manager_loadable(memory_bytes(*memory)),
{
    let pages = memory.pages();
    if pages == 0 {
        return true;
    }
    let h = memory.read_bytes(0, 4);
    let ghost b = memory_bytes(*memory);
    assert(h@.subrange(0, 3) =~= b.subrange(0, 3));
    manager_header_ok(h.as_slice())
}

fn counter_region_loadable(region: &Region) -> (r: bool)
    ensures
        r == cell_loadable(region_bytes(*region)),
{
    let pages = region.pages();
    if pages == 0 {
        return true;
    }
    let h = region.read_bytes(0, 8);
    let ghost b = region_bytes(*region);
    assert(h@.subrange(0, 3) =~= b.subrange(0, 3));
    assert(h@.subrange(4, 8) =~= b.subrange(4, 8));
    cell_header_ok(h.as_slice())
}

fn posts_region_loadable(region: &Region) -> (r: bool)
    ensures
        r == map_loadable(region_bytes(*region)),
{
    let pages = region.pages();
    if pages == 0 {
        return true;
    }
    let h = region.read_bytes(0, 56);
    let ghost b = region_bytes(*region);
    assert(h@.subrange(0, 3) =~= b.subrange(0, 3));
    assert(h@.subrange(52, 55) =~= b.subrange(52, 55));
    map_header_ok(h.as_slice())
}

/// The store: an identifier counter and a map from identifiers to encoded
/// posts, both in durable memory.
pub struct PostStore {
    counter: IdCell,
    posts: PostMap,
}

impl PostStore {
    /// The identifier the next created post gets.
    pub closed spec fn next_id(&self) -> u64 {
        cell_value(self.counter)
    }

    /// The encoded posts by identifier.
    pub closed spec fn entries(&self) -> Map<u64, Seq<u8>> {
        map_entries(self.posts)
    }

    /// The post under `id`, or why there is none.
    pub open spec fn lookup(&self, id: u64) -> Result<PostView, Error> {
        if !self.entries().contains_key(id) {
            Err(Error::NotFound)
        } else {
            match parse_post(self.entries()[id]) {
                Some(v) => Ok(v),
                None => Err(Error::Corrupted),
            }
        }
    }

    /// What `update` yields on this store.
    pub open spec fn update_result(
        &self,
        id: u64,
        title: Seq<char>,
        content: Seq<char>,
        categories: Seq<Seq<char>>,
        caller: Seq<char>,
        now: u64,
    ) -> Result<PostView, Error> {
        within_bound(
            match self.lookup(id) {
                Ok(v) => update_outcome(v, title, content, categories, caller, now),
                Err(e) => Err(e),
            },
        )
    }

    /// What `delete` yields on this store.
    pub open spec fn delete_result(&self, id: u64, caller: Seq<char>) -> Result<PostView, Error> {
        match self.lookup(id) {
            Ok(v) => delete_outcome(v, caller),
            Err(e) => Err(e),
        }
    }

    /// What `like` yields on this store.
    pub open spec fn like_result(&self, id: u64, caller: Seq<char>) -> Result<PostView, Error> {
        within_bound(
            match self.lookup(id) {
                Ok(v) => like_outcome(v, caller),
                Err(e) => Err(e),
            },
        )
    }

    /// What `dislike` yields on this store.
    pub open spec fn dislike_result(&self, id: u64, caller: Seq<char>) -> Result<PostView, Error> {
        within_bound(
            match self.lookup(id) {
                Ok(v) => dislike_outcome(v, caller),
                Err(e) => Err(e),
            },
        )
    }

    /// Every stored identifier lies below the counter, so the counter never
    /// hands out an identifier that is in use.
    pub closed spec fn wf(&self) -> bool {
        forall|k: u64| self.entries().contains_key(k) ==> k < self.next_id()
    }

    /// A new, empty store that owns `memory`, replacing what it held.
    /// Nothing, where the memory holds a region manager of another version,
    /// or where the counter's region cannot grow.
    pub fn new(memory: DurableMemory) -> (r: Option<PostStore>)
        ensures
            !manager_loadable(memory_bytes(memory)) ==> r is None,
            r matches Some(s) ==> s.next_id() == 0 && s.entries().dom().is_empty() && s.wf(),
    {
        if !memory_loadable(&memory) {
            return None;
        }
        let (counter_region, posts_region) = memory.split(COUNTER_REGION, POSTS_REGION);
        let counter = match IdCell::create(counter_region, 0) {
            Some(c) => c,
            None => return None,
        };
        let posts = PostMap::create(posts_region);
        Some(PostStore { counter, posts })
    }

    /// The store that `memory` holds, or a new one where it holds none; the
    /// store owns `memory` from then on. Nothing, where the memory holds a
    /// region manager, counter or map that cannot be read back, or where a
    /// stored identifier is not below the counter.
    pub fn restore(memory: DurableMemory) -> (r: Option<PostStore>)
        ensures
            !manager_loadable(memory_bytes(memory)) ==> r is None,
            r matches Some(s) ==> s.wf(),
    {
        if !memory_loadable(&memory) {
            return None;
        }
        let (counter_region, posts_region) = memory.split(COUNTER_REGION, POSTS_REGION);
        if !counter_region_loadable(&counter_region) || !posts_region_loadable(&posts_region) {
            return None;
        }
        let counter = match IdCell::restore(counter_region, 0) {
            Some(c) => c,
            None => return None,
        };
        let posts = PostMap::restore(posts_region);
        if !ids_below(posts.last_key(), counter.get()) {
            return None;
        }
        Some(PostStore { counter, posts })
    }

    /// The post under `id`.
    pub fn read(&self, id: u64) -> (r: Result<Post, Error>)
        ensures
            view_result(r) == self.lookup(id),
            r matches Ok(p) ==> p@.valid(),
    {
        match self.posts.get(id) {
            None => Err(Error::NotFound),
            Some(b) => match decode(b.as_slice()) {
                Some(p) => Ok(p),
                None => Err(Error::Corrupted),
            },
        }
    }

    /// Writes `p` under `id` where its encoding fits the bound.
    fn persist(&mut self, id: u64, p: Post) -> (r: Result<Post, Error>)
        ensures
            view_result(r) == within_bound(Ok(p@)),
            r is Ok ==> final(self).entries() == old(self).entries().insert(id, encoding(p@)),
            r is Err ==> final(self).entries() == old(self).entries(),
            final(self).next_id() == old(self).next_id(),
    {
        match encode(&p) {
            None => Err(Error::RecordTooLarge),
            Some(b) => {
                self.posts.insert(id, b);
                Ok(p)
            },
        }
    }

    /// Hands out the counter's value and moves the counter up by one. At the
    /// top of the range it hands out nothing and the counter stays.
    pub fn generate_unique_id(&mut self) -> (r: Option<u64>)
        ensures
            old(self).next_id() == u64::MAX ==> r is None,
            old(self).next_id() == u64::MAX ==> final(self).next_id() == old(self).next_id(),
            old(self).next_id() < u64::MAX ==> r == Some(old(self).next_id()),
            old(self).next_id() < u64::MAX ==> final(self).next_id() == old(self).next_id() + 1,
            final(self).entries() == old(self).entries(),
            old(self).wf() ==> final(self).wf(),
    {
        let current = self.counter.get();
        if current == u64::MAX {
            return None;
        }
        self.counter.set(current + 1);
        Some(current)
    }

    /// Creates a post by `caller` at time `now` under the next identifier.
    /// A payload that breaks a field rule uses up no identifier.
    pub fn create(
        &mut self,
        title: String,
        content: String,
        categories: Vec<String>,
        caller: &String,
        now: u64,
    ) -> (r: Result<Post, Error>)
        ensures
            view_result(r) == create_outcome(
                old(self).next_id(),
                title@,
                content@,
                categories.deep_view(),
                caller@,
                now,
            ),
            r matches Ok(p) ==> {
                &&& p.id == old(self).next_id()
                &&& p@.valid()
                &&& final(self).next_id() == old(self).next_id() + 1
                &&& final(self).entries() == old(self).entries().insert(p.id, encoding(p@))
                &&& old(self).wf() ==> !old(self).entries().contains_key(p.id)
            },
            old(self).wf() ==> final(self).wf(),
            r is Err ==> final(self).next_id() == old(self).next_id() && final(self).entries()
                == old(self).entries(),
    {
        let violations = validate(title.as_str(), content.as_str());
        if violations.title_too_short || violations.content_too_short {
            return Err(Error::ValidationError(violations));
        }
        let id = self.counter.get();
        if id == u64::MAX {
            return Err(Error::CapacityExhausted);
        }
        let post = Post {
            id,
            title,
            content,
            author: caller.clone(),
            created_at: now,
            updated_at: None,
            likes: 0,
            categories,
            liked_by: Vec::new(),
        };
        assert(post.liked_by.deep_view() =~= Seq::<Seq<char>>::empty());
        let bytes = match encode(&post) {
            Some(b) => b,
            None => return Err(Error::RecordTooLarge),
        };
        let issued = self.generate_unique_id();
        assert(issued == Some(id));
        self.posts.insert(id, bytes);
        Ok(post)
    }

    /// Replaces the title, body text and categories of the post under `id`,
    /// when `caller` wrote it and the payload meets the field rules.
    pub fn update(
        &mut self,
        id: u64,
        title: String,
        content: String,
        categories: Vec<String>,
        caller: &String,
        now: u64,
    ) -> (r: Result<Post, Error>)
        ensures
            view_result(r) == old(self).update_result(
                id,
                title@,
                content@,
                categories.deep_view(),
                caller@,
                now,
            ),
            r matches Ok(p) ==> p@.valid() && final(self).entries() == old(self).entries().insert(
                id,
                encoding(p@),
            ),
            r is Err ==> final(self).entries() == old(self).entries(),
            final(self).next_id() == old(self).next_id(),
            old(self).wf() ==> final(self).wf(),
    {
        let mut post = match self.read(id) {
            Ok(p) => p,
            Err(e) => return Err(e),
        };
        if post.author != *caller {
            return Err(Error::NotAuthorized);
        }
        let violations = validate(title.as_str(), content.as_str());
        if violations.title_too_short || violations.content_too_short {
            return Err(Error::ValidationError(violations));
        }
        post.title = title;
        post.content = content;
        post.categories = categories;
        post.updated_at = Some(now);
        self.persist(id, post)
    }

    /// Removes the post under `id`, when `caller` wrote it and nobody likes it.
    pub fn delete(&mut self, id: u64, caller: &String) -> (r: Result<Post, Error>)
        ensures
            view_result(r) == old(self).delete_result(id, caller@),
            r is Ok ==> final(self).entries() == old(self).entries().remove(id),
            r is Err ==> final(self).entries() == old(self).entries(),
            final(self).next_id() == old(self).next_id(),
            old(self).wf() ==> final(self).wf(),
    {
        let post = match self.read(id) {
            Ok(p) => p,
            Err(e) => return Err(e),
        };
        if post.author != *caller {
            return Err(Error::NotAuthorized);
        }
        if post.likes > 0 {
            return Err(Error::HasLikes);
        }
        self.posts.remove(id);
        Ok(post)
    }

    /// Records that `caller` likes the post under `id`; each identity likes
    /// a post at most once.
    pub fn like(&mut self, id: u64, caller: &String) -> (r: Result<Post, Error>)
        ensures
            view_result(r) == old(self).like_result(id, caller@),
            r matches Ok(p) ==> p@.valid() && final(self).entries() == old(self).entries().insert(
                id,
                encoding(p@),
            ),
            r is Err ==> final(self).entries() == old(self).entries(),
            final(self).next_id() == old(self).next_id(),
            old(self).wf() ==> final(self).wf(),
    {
        let mut post = match self.read(id) {
            Ok(p) => p,
            Err(e) => return Err(e),
        };
        if post.likes == u32::MAX {
            return Err(Error::MaxLikesReached);
        }
        if ledger_position(&post.liked_by, caller).is_some() {
            return Err(Error::AlreadyLiked);
        }
        let ghost before = post.liked_by.deep_view();
        post.likes = post.likes + 1;
        post.liked_by.push(caller.clone());
        assert(post.liked_by.deep_view() =~= before.push(caller@));
        proof {
            lemma_like_keeps_count(before, caller@);
        }
        self.persist(id, post)
    }

    /// Withdraws the like of `caller` from the post under `id`.
    pub fn dislike(&mut self, id: u64, caller: &String) -> (r: Result<Post, Error>)
        ensures
            view_result(r) == old(self).dislike_result(id, caller@),
            r matches Ok(p) ==> p@.valid() && final(self).entries() == old(self).entries().insert(
                id,
                encoding(p@),
            ),
            r is Err ==> final(self).entries() == old(self).entries(),
            final(self).next_id() == old(self).next_id(),
            old(self).wf() ==> final(self).wf(),
    {
        let mut post = match self.read(id) {
            Ok(p) => p,
            Err(e) => return Err(e),
        };
        if post.likes == 0 {
            return Err(Error::MinLikesReached);
        }
        let k = match ledger_position(&post.liked_by, caller) {
            Some(k) => k,
            None => return Err(Error::NotLiked),
        };
        let ghost before = post.liked_by.deep_view();
        proof {
            let c = before.index_of(caller@);
            assert(before[k as int] == caller@);
            assert(c == k as int);
        }
        post.likes = post.likes - 1;
        post.liked_by.swap_remove(k);
        assert(post.liked_by.deep_view() =~= ledger_without(before, caller@));
        proof {
            lemma_dislike_keeps_count(before, caller@);
        }
        self.persist(id, post)
    }
}

/// Adding an identity that is not yet in the ledger keeps it free of
/// repeats and grows it by one.
proof fn lemma_like_keeps_count(ledger: Seq<Seq<char>>, x: Seq<char>)
    requires
        ledger.no_duplicates(),
        !ledger.contains(x),
    ensures
        ledger.push(x).no_duplicates(),
        ledger.push(x).len() == ledger.len() + 1,
{
    let s = ledger.push(x);
    assert forall|i: int, j: int| 0 <= i < s.len() && 0 <= j < s.len() && i != j implies s[i]
        != s[j] by {
        if i == ledger.len() as int {
            assert(ledger[j] == s[j]);
        } else if j == ledger.len() as int {
            assert(ledger[i] == s[i]);
        }
    }
}

/// Taking out an identity that is in the ledger keeps it free of repeats
/// and shrinks it by one.
proof fn lemma_dislike_keeps_count(ledger: Seq<Seq<char>>, x: Seq<char>)
    requires
        ledger.no_duplicates(),
        ledger.contains(x),
    ensures
        ledger_without(ledger, x).no_duplicates(),
        ledger_without(ledger, x).len() == ledger.len() - 1,
{
    let k = ledger.index_of(x);
    let s = ledger_without(ledger, x);
    let last = ledger.len() - 1;
    assert forall|i: int, j: int| 0 <= i < s.len() && 0 <= j < s.len() && i != j implies s[i]
        != s[j] by {
        let i0 = if i == k { last } else { i };
        let j0 = if j == k { last } else { j };
        assert(s[i] == ledger[i0]);
        assert(s[j] == ledger[j0]);
    }
}

/// Every post the store yields has as many likes as identities in its
/// ledger: a stored post, and the post each operation would write.
pub proof fn lemma_likes_match_ledger(
    s: PostStore,
    id: u64,
    title: Seq<char>,
    content: Seq<char>,
    categories: Seq<Seq<char>>,
    caller: Seq<char>,
    now: u64,
)
    ensures
        s.lookup(id) matches Ok(v) ==> v.valid(),
        create_outcome(s.next_id(), title, content, categories, caller, now) matches Ok(v)
            ==> v.valid(),
        s.update_result(id, title, content, categories, caller, now) matches Ok(v) ==> v.valid(),
        s.delete_result(id, caller) matches Ok(v) ==> v.valid(),
        s.like_result(id, caller) matches Ok(v) ==> v.valid(),
        s.dislike_result(id, caller) matches Ok(v) ==> v.valid(),
{
    if let Ok(v) = s.lookup(id) {
        if !v.liked_by.contains(caller) {
            lemma_like_keeps_count(v.liked_by, caller);
        } else {
            lemma_dislike_keeps_count(v.liked_by, caller);
        }
    }
    assert(Seq::<Seq<char>>::empty().no_duplicates());
}

/// Identifiers that `create` hands out strictly increase over any run of
/// operations, deletions included: every operation leaves the counter where
/// it was or moves it up, and `create` hands out the counter and moves it up.
pub proof fn lemma_created_ids_increase(
    run: Seq<PostStore>,
    i: int,
    j: int,
    first: u64,
    second: u64,
)
    requires
        forall|k: int| 0 <= k < run.len() - 1 ==> #[trigger] run[k].next_id() <= run[k + 1].next_id(),
        0 <= i < j < run.len() - 1,
        first == run[i].next_id() && run[i + 1].next_id() == first + 1,
        second == run[j].next_id() && run[j + 1].next_id() == second + 1,
    ensures
        first < second,
{
    lemma_counter_rises(run, i + 1, j);
}

/// An identifier that `create` hands out is not in use: no stored post has
/// it, deleted ones included, since every stored identifier lies below the
/// counter and deleted ones were handed out below it too.
pub proof fn lemma_created_id_is_unused(
    s: PostStore,
    title: Seq<char>,
    content: Seq<char>,
    categories: Seq<Seq<char>>,
    author: Seq<char>,
    now: u64,
    p: PostView,
)
    requires
        s.wf(),
        create_outcome(s.next_id(), title, content, categories, author, now) == Ok::<
            PostView,
            Error,
        >(p),
    ensures
        p.id == s.next_id(),
        !s.entries().contains_key(p.id),
{
}

proof fn lemma_counter_rises(run: Seq<PostStore>, a: int, b: int)
    requires
        forall|k: int| 0 <= k < run.len() - 1 ==> #[trigger] run[k].next_id() <= run[k + 1].next_id(),
        0 <= a <= b < run.len(),
    ensures
        run[a].next_id() <= run[b].next_id(),
    decreases b - a,
{
    if a < b {
        lemma_counter_rises(run, a, b - 1);
        assert(run[b - 1].next_id() <= run[b].next_id());
    }
}

/// Reading a post right after `create` wrote it gives back that same post.
pub proof fn lemma_read_after_create(
    before: PostStore,
    after: PostStore,
    title: Seq<char>,
    content: Seq<char>,
    categories: Seq<Seq<char>>,
    author: Seq<char>,
    now: u64,
    p: PostView,
)
    requires
        create_outcome(before.next_id(), title, content, categories, author, now) == Ok::<
            PostView,
            Error,
        >(p),
        after.entries() == before.entries().insert(p.id, encoding(p)),
    ensures
        after.lookup(p.id) == Ok::<PostView, Error>(p),
{
    assert(Seq::<Seq<char>>::empty().no_duplicates());
    lemma_decode_encode(p);
}

/// Liking a post a second time by the same identity is refused as already
/// liked, and the post stays as the first like left it.
pub proof fn lemma_like_twice(
    before: PostStore,
    after: PostStore,
    id: u64,
    caller: Seq<char>,
    p: PostView,
)
    requires
        before.like_result(id, caller) == Ok::<PostView, Error>(p),
        after.entries() == before.entries().insert(id, encoding(p)),
    ensures
        after.lookup(id) == Ok::<PostView, Error>(p),
        after.like_result(id, caller) == Err::<PostView, Error>(Error::AlreadyLiked),
{
    let v = before.lookup(id).unwrap();
    lemma_like_keeps_count(v.liked_by, caller);
    lemma_decode_encode(p);
    lemma_enc_strs_prefix(p.liked_by, 0);
    assert(p.liked_by[p.liked_by.len() - 1] == caller);
}

/// Withdrawing a like that the caller never gave is refused as not liked,
/// on a post that has likes.
pub proof fn lemma_dislike_without_like(s: PostStore, id: u64, caller: Seq<char>, v: PostView)
    requires
        s.lookup(id) == Ok::<PostView, Error>(v),
        v.likes > 0,
        !v.liked_by.contains(caller),
    ensures
        s.dislike_result(id, caller) == Err::<PostView, Error>(Error::NotLiked),
{
}

/// Its author cannot delete a post that has likes, and the post stays
/// readable as it was.
pub proof fn lemma_liked_post_stays(
    before: PostStore,
    after: PostStore,
    id: u64,
    caller: Seq<char>,
    v: PostView,
)
    requires
        before.lookup(id) == Ok::<PostView, Error>(v),
        v.likes > 0,
        after.entries() == before.entries(),
    ensures
        v.author == caller ==> before.delete_result(id, caller) == Err::<PostView, Error>(
            Error::HasLikes,
        ),
        before.delete_result(id, caller) is Err,
        after.lookup(id) == Ok::<PostView, Error>(v),
{
}

/// Only the author may update or delete a post: anyone else is refused as
/// not authorized.
pub proof fn lemma_only_author_edits(
    s: PostStore,
    id: u64,
    title: Seq<char>,
    content: Seq<char>,
    categories: Seq<Seq<char>>,
    caller: Seq<char>,
    now: u64,
    v: PostView,
)
    requires
        s.lookup(id) == Ok::<PostView, Error>(v),
        v.author != caller,
    ensures
        s.update_result(id, title, content, categories, caller, now) == Err::<PostView, Error>(
            Error::NotAuthorized,
        ),
        s.delete_result(id, caller) == Err::<PostView, Error>(Error::NotAuthorized),
{
}

} // verus!
