use vstd::prelude::*;

verus! {

/// The smallest number of characters a title may have.
pub const MIN_TITLE_LEN: u64 = 1;

/// The smallest number of characters a body text may have.
pub const MIN_CONTENT_LEN: u64 = 5;

/// Which field rules a payload broke; every broken rule is reported.
#[derive(Debug, Clone, Copy, PartialEq, Eq, Structural)]
pub struct Violations {
    pub title_too_short: bool,
    pub content_too_short: bool,
}

/// Why an operation on the store did not happen.
#[derive(Debug, Clone, Copy, PartialEq, Eq, Structural)]
pub enum Error {
    NotFound,
    NotAuthorized,
    ValidationError(Violations),
    HasLikes,
    AlreadyLiked,
    NotLiked,
    MaxLikesReached,
    MinLikesReached,
    CapacityExhausted,
    /// The encoded post would exceed the fixed bound on stored values.
    RecordTooLarge,
    /// The stored bytes for a post do not decode: the fatal decoding
    /// failure of a damaged map, reported as an internal error.
    Corrupted,
}

/// A blog post as it is stored.
#[derive(Debug, Clone, PartialEq, Eq)]
pub struct Post {
    pub id: u64,
    pub title: String,
    pub content: String,
    pub author: String,
    pub created_at: u64,
    pub updated_at: Option<u64>,
    pub likes: u32,
    pub categories: Vec<String>,
    pub liked_by: Vec<String>,
}

/// The mathematical value of a post.
pub struct PostView {
    pub id: u64,
    pub title: Seq<char>,
    pub content: Seq<char>,
    pub author: Seq<char>,
    pub created_at: u64,
    pub updated_at: Option<u64>,
    pub likes: u32,
    pub categories: Seq<Seq<char>>,
    pub liked_by: Seq<Seq<char>>,
}

impl View for Post {
    type V = PostView;

    open spec fn view(&self) -> PostView {
        PostView {
            id: self.id,
            title: self.title@,
            content: self.content@,
            author: self.author@,
            created_at: self.created_at,
            updated_at: self.updated_at,
            likes: self.likes,
            categories: self.categories.deep_view(),
            liked_by: self.liked_by.deep_view(),
        }
    }
}

impl PostView {
    /// The like count is the size of the ledger, and nobody is in it twice.
    pub open spec fn valid(self) -> bool {
        &&& self.likes as nat == self.liked_by.len()
        &&& self.liked_by.no_duplicates()
    }
}

/// The rules a title and a body text must meet before they are written.
pub open spec fn violations_of(title: Seq<char>, content: Seq<char>) -> Violations {
    Violations {
        title_too_short: title.len() < MIN_TITLE_LEN,
        content_too_short: content.len() < MIN_CONTENT_LEN,
    }
}

impl Violations {
    pub open spec fn any(self) -> bool {
        self.title_too_short || self.content_too_short
    }
}

/// Relies on validator::validate_length with only a minimum: true when the
/// text has at least `min` characters.
#[verifier::external_body]
fn has_min_length(s: &str, min: u64) -> (r: bool)
    ensures
        r == (s@.len() >= min),
{
    validator::validate_length(s, Some(min), None, None)
}

/// Checks a title and a body text against the field rules, collecting every
/// rule that is broken.
pub fn validate(title: &str, content: &str) -> (r: Violations)
    ensures
        r == violations_of(title@, content@),
{
    Violations {
        title_too_short: !has_min_length(title, MIN_TITLE_LEN),
        content_too_short: !has_min_length(content, MIN_CONTENT_LEN),
    }
}

} // verus!
