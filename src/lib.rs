//! An index of immutable posts by creation hour and by tag, kept as a tree of
//! paths over an append-only content graph.
pub mod clock;
pub mod graph;
pub mod laws;
pub mod path;
pub mod posts;
pub mod text;

pub use clock::UtcInstant;
pub use graph::{ContentGraph, ContentHash, EnsureOutcome};
pub use path::{IndexError, Path};
pub use posts::{
    create_post, get_all_tags, get_posts_by_tag, get_posts_by_time, CreateTaskInput,
    GetPostsByTagInput, GetPostsByTimeInput, GetPostsOutput, GetTagsOutput, Post,
};
