use org_social_lib_rs::feed::{sort_newest_first, Feed};
use org_social_lib_rs::new_post::NewPostState;
use org_social_lib_rs::post::Post;
use org_social_lib_rs::profile::Profile;
use org_social_lib_rs::reply::{ReplyField, ReplyManager, ReplyState};
use org_social_lib_rs::util::{parse_timestamp, Moment};

#[test]
fn user_feed_is_newest_first_and_credited() {
    let mut me = Profile::default();
    me.set_nick("me".to_string());
    let posts = vec![
        Post::new("2024-01-01T00:00:00+00:00".to_string(), "old".to_string()),
        Post::new("bad".to_string(), "timeless".to_string()),
        Post::new("2025-01-01T00:00:00+00:00".to_string(), "new".to_string()),
    ];
    let feed = Feed::create_user_feed(&me, posts);
    let contents: Vec<&str> = feed.posts.iter().map(|p| p.content()).collect();
    assert_eq!(contents, vec!["new", "old", "timeless"]);
    assert!(feed.posts.iter().all(|p| p.author().as_deref() == Some("me")));
    assert_eq!(feed.len(), 3);
    assert!(!feed.is_empty());
    assert_eq!(feed.get_recent_posts(2).len(), 2);
    assert_eq!(feed.profile_for_post(&feed.posts[0]).map(|p| p.nick()), Some("me"));
    let start = Moment { secs: 1_735_689_600, nanos: 0, offset: 0 };
    let end = Moment { secs: 1_735_689_600, nanos: 0, offset: 0 };
    assert_eq!(feed.posts_in_range(start, end).len(), 1);
}

#[test]
fn assembled_feed_marks_sources() {
    let mut me = Profile::default();
    me.set_nick("me".to_string());
    let friend = Profile::default();
    let theirs = vec![Post::new("x".to_string(), "hi".to_string())];
    let feed = Feed::assemble(&me, vec![], vec![(friend, theirs, "https://f.org/s.org".to_string())]);
    assert_eq!(feed.posts[0].author().as_deref(), Some("unknown"));
    assert_eq!(feed.posts_from_source("https://f.org/s.org").len(), 1);
    assert_eq!(feed.profiles.len(), 2);
}

#[test]
fn newest_first_keeps_ties_in_order() {
    let a = Post::new("2025-01-01T00:00:00+00:00".to_string(), "a".to_string());
    let b = Post::new("2025-01-01T01:00:00+01:00".to_string(), "b".to_string());
    let sorted = sort_newest_first(vec![a, b]);
    assert_eq!(sorted[0].content(), "a");
    assert_eq!(sorted[1].content(), "b");
}

#[test]
fn timestamps_in_both_forms() {
    assert!(parse_timestamp("2025-08-20T15:23:45+0200").is_some());
    assert!(parse_timestamp("2025-08-20T15:23:45+02:00").is_some());
    assert!(parse_timestamp("yesterday").is_none());
}

#[test]
fn new_post_fields() {
    let mut s = NewPostState::new();
    assert!(!s.is_empty());
    s.content = "hello".to_string();
    s.lang = "en".to_string();
    assert!(s.is_empty());
    assert!(!s.is_reply() && !s.is_vote() && !s.is_poll());
    let post = s.create_post_at("2025-01-01T00:00:00+00:00".to_string(), "cli");
    assert_eq!(post.lang().as_deref(), Some("en"));
    assert_eq!(post.tags(), &None);
    assert_eq!(post.client().as_deref(), Some("cli"));
    let mut target = Post::new("t".to_string(), "x".to_string());
    target.set_source(Some("s".to_string()));
    target.set_tags(Some(vec!["k".to_string()]));
    let r = NewPostState::reply_to_post(target.clone());
    assert_eq!(r.reply_to.as_deref(), Some("s#t"));
    assert_eq!(r.tags, vec!["k".to_string()]);
    let v = NewPostState::vote_on_post(target, "yes".to_string());
    assert!(v.is_vote() && v.is_reply());
    assert!(s.create_post("cli").client().is_some());
}

#[test]
fn reply_editing() {
    let mut r = ReplyState::new("s#t".to_string(), None);
    for c in "hi".chars() {
        r.handle_input(c);
    }
    r.handle_newline();
    r.handle_input('x');
    assert_eq!(r.content, "hi\nx");
    r.handle_backspace();
    assert_eq!(r.content, "hi\n");
    assert_eq!(r.get_cursor_position(), 3);
    r.next_field();
    assert!(r.current_field == ReplyField::Tags);
    for c in "#a b".chars() {
        r.handle_input(c);
    }
    assert_eq!(r.get_current_field_text(), "#a b");
    r.finalize_tags_input();
    assert_eq!(r.tags, vec!["a".to_string(), "b".to_string()]);
    r.remove_last_tag();
    assert_eq!(r.tags, vec!["a".to_string()]);
    r.prev_field();
    assert!(r.current_field == ReplyField::Content);
    assert!(r.is_ready_to_submit());
    let post = r.reply_post_at("2025-01-01T00:00:00+00:00".to_string());
    assert_eq!(post.reply_to().as_deref(), Some("s#t"));
    assert_eq!(post.client().as_deref(), Some("org-social-rs"));
    assert!(r.create_reply_post().starts_with("\n**\n:PROPERTIES:"));
    assert_eq!(ReplyManager::new("/tmp/x.org").file_path(), "/tmp/x.org");
}

#[test]
fn sources_sorted_without_repeats() {
    let mut a = Post::new("1".to_string(), String::new());
    a.set_source(Some("https://b.org".to_string()));
    let mut b = Post::new("2".to_string(), String::new());
    b.set_source(Some("https://a.org".to_string()));
    let c = Post::new("3".to_string(), String::new());
    let mut d = Post::new("4".to_string(), String::new());
    d.set_source(Some("https://b.org".to_string()));
    let feed = Feed { posts: vec![a, b, c, d], profiles: vec![], profile_map: vec![] };
    assert_eq!(feed.sources(), vec!["https://a.org".to_string(), "https://b.org".to_string()]);
}

#[test]
fn reply_cursors_count_bytes() {
    let mut r = ReplyState::new("t".to_string(), None);
    r.content = "éa".to_string();
    r.content_cursor = 2;
    r.handle_input('x');
    assert_eq!(r.content, "éxa");
    assert_eq!(r.content_cursor, 3);
    r.handle_backspace();
    assert_eq!(r.content, "éa");
    assert_eq!(r.content_cursor, 2);
    r.next_field();
    r.mood = "é".to_string();
    r.next_field();
    assert_eq!(r.mood_cursor, 2);
    r.prev_field();
    r.next_field();
    assert_eq!(r.mood_cursor, 2);
    r.prev_field();
    r.prev_field();
    assert_eq!(r.content_cursor, 3);
    let mut z = ReplyState::new("t".to_string(), None);
    z.handle_backspace();
    assert_eq!(z.content, "");
    assert_eq!(z.content_cursor, 0);
}
