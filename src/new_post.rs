//! The fields of a post being composed: a new post, a reply, or a vote.
use vstd::prelude::*;
use crate::text::{trim, trim_str, string_views};
use crate::post::{Post, PostSpec, fresh_post, full_id_of, copy_strings, copy_opt, copy_opt_strings};
use crate::profile::ostr;
use crate::util::get_current_timestamp;

verus! {

/// A post being composed.
pub struct NewPostState {
    pub lang: String,
    pub tags: Vec<String>,
    pub mood: String,
    pub content: String,
    pub reply_to: Option<String>,
    pub poll_end: Option<String>,
    pub poll_option: Option<String>,
}

/// The post composed from these fields, dated `timestamp`: empty language,
/// tags and mood are left out, and the client is recorded.
pub open spec fn composed(s: NewPostState, timestamp: Seq<char>, client: Seq<char>) -> PostSpec {
    PostSpec {
        lang: if s.lang@.len() == 0 {
            None
        } else {
            Some(s.lang@)
        },
        tags: if s.tags@.len() == 0 {
            None
        } else {
            Some(string_views(s.tags@))
        },
        mood: if s.mood@.len() == 0 {
            None
        } else {
            Some(s.mood@)
        },
        reply_to: ostr(s.reply_to),
        poll_end: ostr(s.poll_end),
        poll_option: ostr(s.poll_option),
        client: Some(client),
        ..fresh_post(timestamp, s.content@)
    }
}

pub open spec fn tags_or_empty(t: Option<Vec<String>>) -> Seq<Seq<char>> {
    match t {
        Some(v) => string_views(v@),
        None => seq![],
    }
}

impl NewPostState {
    /// Empty fields.
    pub fn new() -> (r: NewPostState)
        ensures
            r.lang@.len() == 0 && r.tags@.len() == 0 && r.mood@.len() == 0 && r.content@.len() == 0,
            r.reply_to is None && r.poll_end is None && r.poll_option is None,
    {
        NewPostState {
            lang: String::new(),
            tags: Vec::new(),
            mood: String::new(),
            content: String::new(),
            reply_to: None,
            poll_end: None,
            poll_option: None,
        }
    }

    /// A reply to `reply_to`, starting with the given tags.
    pub fn reply(reply_to: String, initial_tags: Option<Vec<String>>) -> (r: NewPostState)
        ensures
            r.reply_to == Some(reply_to),
            string_views(r.tags@) == tags_or_empty(initial_tags),
            r.lang@.len() == 0 && r.mood@.len() == 0 && r.content@.len() == 0,
            r.poll_end is None && r.poll_option is None,
    {
        let tags = match initial_tags {
            Some(t) => t,
            None => Vec::new(),
        };
        NewPostState {
            lang: String::new(),
            tags,
            mood: String::new(),
            content: String::new(),
            reply_to: Some(reply_to),
            poll_end: None,
            poll_option: None,
        }
    }

    /// A reply to a post, addressed by its full identifier, with its tags.
    pub fn reply_to_post(target_post: Post) -> (r: NewPostState)
        ensures
            ostr(r.reply_to) == Some(full_id_of(target_post@)),
            string_views(r.tags@) == match target_post@.tags {
                Some(t) => t,
                None => seq![],
            },
            r.lang@.len() == 0 && r.mood@.len() == 0 && r.content@.len() == 0,
            r.poll_end is None && r.poll_option is None,
    {
        Self::reply(target_post.full_id(), copy_opt_strings(target_post.tags()))
    }

    /// A vote for `poll_option` on `reply_to`, starting with the given tags.
    pub fn vote(reply_to: String, initial_tags: Option<Vec<String>>, poll_option: String) -> (r:
        NewPostState)
        ensures
            r.reply_to == Some(reply_to),
            r.poll_option == Some(poll_option),
            string_views(r.tags@) == tags_or_empty(initial_tags),
            r.lang@.len() == 0 && r.mood@.len() == 0 && r.content@.len() == 0,
            r.poll_end is None,
    {
        let tags = match initial_tags {
            Some(t) => t,
            None => Vec::new(),
        };
        NewPostState {
            lang: String::new(),
            tags,
            mood: String::new(),
            content: String::new(),
            reply_to: Some(reply_to),
            poll_end: None,
            poll_option: Some(poll_option),
        }
    }

    /// A vote on a post, addressed by its full identifier, with its tags.
    pub fn vote_on_post(target_post: Post, poll_option: String) -> (r: NewPostState)
        ensures
            ostr(r.reply_to) == Some(full_id_of(target_post@)),
            r.poll_option == Some(poll_option),
            string_views(r.tags@) == match target_post@.tags {
                Some(t) => t,
                None => seq![],
            },
            r.lang@.len() == 0 && r.mood@.len() == 0 && r.content@.len() == 0,
            r.poll_end is None,
    {
        Self::vote(target_post.full_id(), copy_opt_strings(target_post.tags()), poll_option)
    }

    /// True when the body holds more than whitespace.
    pub fn is_empty(&self) -> (r: bool)
        ensures
            r == (trim(self.content@).len() > 0),
    {
        trim_str(self.content.as_str()).unicode_len() > 0
    }

    pub fn is_reply(&self) -> (r: bool)
        ensures
            r == self.reply_to is Some,
    {
        self.reply_to.is_some()
    }

    pub fn is_vote(&self) -> (r: bool)
        ensures
            r == self.poll_option is Some,
    {
        self.poll_option.is_some()
    }

    pub fn is_poll(&self) -> (r: bool)
        ensures
            r == self.poll_end is Some,
    {
        self.poll_end.is_some()
    }

    /// The post these fields make, dated `timestamp`.
    pub fn create_post_at(&self, timestamp: String, client_name: &str) -> (r: Post)
        ensures
            r@ == composed(*self, timestamp@, client_name@),
    {
        let mut post = Post::new(timestamp, self.content.clone());
        post.set_lang(if self.lang.unicode_len() == 0 {
            None
        } else {
            Some(self.lang.clone())
        });
        post.set_tags(if self.tags.len() == 0 {
            None
        } else {
            Some(copy_strings(&self.tags))
        });
        post.set_mood(if self.mood.unicode_len() == 0 {
            None
        } else {
            Some(self.mood.clone())
        });
        post.set_reply_to(copy_opt(&self.reply_to));
        post.set_poll_end(copy_opt(&self.poll_end));
        post.set_poll_option(copy_opt(&self.poll_option));
        post.set_client(Some(client_name.to_string()));
        post
    }

    /// The post these fields make, dated now.
    pub fn create_post(&self, client_name: &str) -> (r: Post)
        ensures
            exists|t: Seq<char>| r@ == #[trigger] composed(*self, t, client_name@),
    {
        let timestamp = get_current_timestamp();
        let ghost t = timestamp@;
        self.create_post_at(timestamp, client_name)
    }
}

} // verus!
