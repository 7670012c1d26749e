//! A durable store of blog posts: identifier allocation, a byte codec for
//! posts, and the create / read / update / delete / like / dislike rules.
pub mod codec;
mod storage;
pub mod store;
pub mod post;

pub use post::{Error, Post, PostView, Violations};
pub use storage::DurableMemory;
