//! Parsing and threading engine for org-social documents: a profile header
//! followed by posts, whose bodies carry inline markup and fenced blocks, and
//! whose reply references are assembled into conversation trees.
pub mod text;
pub mod tokenizer;
pub mod blocks;
pub mod util;
pub mod profile;
pub mod post;
pub mod parser;
pub mod poll;
pub mod feed;
pub mod threading;
pub mod new_post;
pub mod reply;
pub mod notifications;
