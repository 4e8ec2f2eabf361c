use org_social_lib_rs::feed::Feed;
use org_social_lib_rs::post::Post;
use org_social_lib_rs::threading::{build_forest, create_placeholder_post, resolve_reply_target, ThreadView};

fn feed_of(posts: Vec<Post>) -> Feed {
    Feed { posts, profiles: vec![], profile_map: Vec::new() }
}

#[test]
fn test_placeholder_parent_linking() {
    let mut reply_post = Post::new("reply1".to_string(), "This is a reply".to_string());
    reply_post.set_reply_to(Some("missing_post".to_string()));
    reply_post.set_author("user1".to_string());

    let posts = vec![reply_post.clone()];
    let feed = feed_of(posts.clone());
    let thread_view = ThreadView::from_feed(&feed);

    assert_eq!(thread_view.thread_count(), 1);
    let root = &thread_view.roots[0];
    assert_eq!(root.post.id(), "missing_post");
    assert_eq!(root.post.content(), "[Post not available]");
    assert_eq!(root.post.author().as_deref(), Some("unknown"));
    assert_eq!(root.replies.len(), 1);
    let reply_node = &root.replies[0];
    assert_eq!(reply_node.post.id(), "reply1");
    assert_eq!(reply_node.post.content(), "This is a reply");
    assert_eq!(reply_node.depth, 1);
}

#[test]
fn test_multiple_replies_to_missing_post() {
    let mut reply1 = Post::new("reply1".to_string(), "First reply".to_string());
    reply1.set_reply_to(Some("missing_post".to_string()));
    let mut reply2 = Post::new("reply2".to_string(), "Second reply".to_string());
    reply2.set_reply_to(Some("missing_post".to_string()));

    let posts = vec![reply1, reply2];
    let feed = feed_of(posts.clone());
    let thread_view = ThreadView::from_feed(&feed);

    assert_eq!(thread_view.thread_count(), 1);
    let root = &thread_view.roots[0];
    assert_eq!(root.post.id(), "missing_post");
    assert_eq!(root.replies.len(), 2);
    for reply in &root.replies {
        assert_eq!(reply.depth, 1);
    }
}

#[test]
fn test_timestamp_fallback_matching() {
    let original_post = Post::new("2025-08-15T10:30:00+00:00".to_string(), "Original post".to_string());
    let mut reply_post = Post::new("reply1".to_string(), "This is a reply".to_string());
    reply_post.set_reply_to(Some("https://external.site/social.org/#2025-08-15T10:30:00+00:00".to_string()));
    reply_post.set_author("user1".to_string());

    let posts = vec![original_post.clone(), reply_post.clone()];
    let feed = feed_of(posts.clone());
    let thread_view = ThreadView::from_feed(&feed);

    assert_eq!(thread_view.thread_count(), 1);
    let root = &thread_view.roots[0];
    assert_eq!(root.post.id(), "2025-08-15T10:30:00+00:00");
    assert_eq!(root.post.content(), "Original post");
    assert_eq!(root.replies.len(), 1);
    let reply_node = &root.replies[0];
    assert_eq!(reply_node.post.id(), "reply1");
    assert_eq!(reply_node.post.content(), "This is a reply");
    assert_eq!(reply_node.depth, 1);
}

#[test]
fn test_timestamp_fallback_no_match_creates_placeholder() {
    let mut reply_post = Post::new("reply1".to_string(), "This is a reply".to_string());
    reply_post.set_reply_to(Some("https://external.site/social.org/#2025-12-25T00:00:00+00:00".to_string()));
    reply_post.set_author("user1".to_string());

    let posts = vec![reply_post.clone()];
    let feed = feed_of(posts.clone());
    let thread_view = ThreadView::from_feed(&feed);

    assert_eq!(thread_view.thread_count(), 1);
    let root = &thread_view.roots[0];
    assert_eq!(root.post.id(), "2025-12-25T00:00:00+00:00");
    assert_eq!(root.post.content(), "[Post not available]");
    assert_eq!(root.post.author().as_deref(), Some("unknown"));
    assert_eq!(root.replies.len(), 1);
    let reply_node = &root.replies[0];
    assert_eq!(reply_node.post.id(), "reply1");
    assert_eq!(reply_node.post.content(), "This is a reply");
    assert_eq!(reply_node.depth, 1);
}

#[test]
fn reply_resolution_by_bare_id() {
    let a = Post::new("t1".to_string(), "A".to_string());
    let mut b = Post::new("t2".to_string(), "B".to_string());
    b.set_reply_to(Some("t1".to_string()));
    let view = ThreadView::from_feed(&feed_of(vec![b, a]));
    assert_eq!(view.thread_count(), 1);
    assert_eq!(view.roots[0].post.id(), "t1");
    assert_eq!(view.roots[0].replies.len(), 1);
    assert_eq!(view.roots[0].replies[0].post.id(), "t2");
    assert_eq!(view.roots[0].replies[0].depth, 1);
}

#[test]
fn dangling_reply_gets_placeholder() {
    let mut b = Post::new("b".to_string(), "B".to_string());
    b.set_reply_to(Some("missing".to_string()));
    let view = ThreadView::from_feed(&feed_of(vec![b]));
    assert_eq!(view.thread_count(), 1);
    let root = &view.roots[0];
    assert_eq!(root.post.id(), "missing");
    assert_eq!(root.post.content(), "[Post not available]");
    assert_eq!(root.post.author().as_deref(), Some("unknown"));
    assert_eq!(root.replies.len(), 1);
    assert_eq!(root.replies[0].depth, 1);
}

#[test]
fn timestamp_fallback_across_sources() {
    let a = Post::new("2025-01-01T00:00:00+0000".to_string(), "A".to_string());
    let mut b = Post::new("b".to_string(), "B".to_string());
    b.set_reply_to(Some("other-source#2025-01-01T00:00:00+0000".to_string()));
    let view = ThreadView::from_feed(&feed_of(vec![a, b]));
    assert_eq!(view.thread_count(), 1);
    assert_eq!(view.roots[0].post.id(), "2025-01-01T00:00:00+0000");
    assert_eq!(view.roots[0].replies[0].post.id(), "b");
}

fn ids(view: &ThreadView) -> Vec<String> {
    view.roots.iter().map(|r| r.post.id().to_string()).collect()
}

#[test]
fn roots_newest_first_replies_oldest_first() {
    let t1 = Post::new("2025-01-01T00:00:00+00:00".to_string(), "1".to_string());
    let t2 = Post::new("2024-06-01T00:00:00+00:00".to_string(), "2".to_string());
    let t3 = Post::new("2025-06-01T00:00:00+00:00".to_string(), "3".to_string());
    let timeless = Post::new("no-time".to_string(), "x".to_string());
    let mut r_late = Post::new("2025-07-01T00:00:00+00:00".to_string(), "late".to_string());
    r_late.set_reply_to(Some("2025-06-01T00:00:00+00:00".to_string()));
    let mut r_early = Post::new("2025-06-02T00:00:00+00:00".to_string(), "early".to_string());
    r_early.set_reply_to(Some("2025-06-01T00:00:00+00:00".to_string()));
    let view = ThreadView::from_feed(&feed_of(vec![timeless, t1, t2, t3, r_late, r_early]));
    assert_eq!(
        ids(&view),
        vec!["2025-06-01T00:00:00+00:00", "2025-01-01T00:00:00+00:00", "2024-06-01T00:00:00+00:00", "no-time"]
    );
    let kids: Vec<&str> = view.roots[0].replies.iter().map(|r| r.post.id()).collect();
    assert_eq!(kids, vec!["2025-06-02T00:00:00+00:00", "2025-07-01T00:00:00+00:00"]);
    assert_eq!(view.total_posts(), 6);
    assert_eq!(view.flatten().len(), 6);
}

#[test]
fn sorting_twice_keeps_the_order() {
    let a = Post::new("2025-01-01T00:00:00+00:00".to_string(), "a".to_string());
    let b = Post::new("2025-01-01T00:00:00+00:00".to_string(), "b".to_string());
    let c = Post::new("2024-01-01T00:00:00+00:00".to_string(), "c".to_string());
    let mut view = ThreadView::from_feed(&feed_of(vec![c, a, b]));
    let first: Vec<String> = view.roots.iter().map(|r| r.post.content().to_string()).collect();
    view.sort_threads();
    let second: Vec<String> = view.roots.iter().map(|r| r.post.content().to_string()).collect();
    assert_eq!(first, second);
    assert_eq!(first, vec!["a", "b", "c"]);
}

#[test]
fn deep_chains_count_depth_from_the_root() {
    let a = Post::new("a".to_string(), "A".to_string());
    let mut b = Post::new("b".to_string(), "B".to_string());
    b.set_reply_to(Some("a".to_string()));
    let mut c = Post::new("c".to_string(), "C".to_string());
    c.set_reply_to(Some("b".to_string()));
    let view = ThreadView::from_feed(&feed_of(vec![a, b, c]));
    assert_eq!(view.roots[0].replies[0].replies[0].depth, 2);
}

#[test]
fn adding_posts_incrementally() {
    let mut view = ThreadView::new();
    assert!(view.is_empty());
    view.add_post(Post::new("2025-01-01T00:00:00+00:00".to_string(), "root".to_string()));
    let mut reply = Post::new("2025-02-01T00:00:00+00:00".to_string(), "reply".to_string());
    reply.set_reply_to(Some("2025-01-01T00:00:00+00:00".to_string()));
    view.add_post(reply);
    assert_eq!(view.thread_count(), 1);
    assert_eq!(view.roots[0].replies.len(), 1);
    assert_eq!(view.roots[0].replies[0].depth, 1);
    assert_eq!(view.roots[0].latest_activity_time, view.roots[0].replies[0].latest_activity_time);
    let mut orphan = Post::new("o".to_string(), "orphan".to_string());
    orphan.set_reply_to(Some("src#gone".to_string()));
    view.add_post(orphan);
    assert_eq!(view.thread_count(), 2);
    let holder = view.roots.iter().find(|r| r.post.id() == "gone").unwrap();
    assert_eq!(holder.post.source().as_deref(), Some("src"));
    assert_eq!(holder.replies[0].depth, 1);
}

#[test]
fn resolving_and_placeholders() {
    let table = vec![("x".to_string(), "s#x".to_string()), ("x".to_string(), "t#x".to_string())];
    assert_eq!(resolve_reply_target("x", &table), "t#x");
    assert_eq!(resolve_reply_target("y", &table), "y");
    assert_eq!(resolve_reply_target("a#b", &table), "a#b");
    let p = create_placeholder_post("https://h.org/s.org#a#b");
    assert_eq!(p.id(), "b");
    assert_eq!(p.source().as_deref(), Some("https://h.org/s.org"));
    let q = create_placeholder_post("#z");
    assert_eq!(q.id(), "z");
    assert!(q.source().is_none());
}

#[test]
fn forest_before_ordering_keeps_input_order() {
    let a = Post::new("2024-01-01T00:00:00+00:00".to_string(), "a".to_string());
    let b = Post::new("2025-01-01T00:00:00+00:00".to_string(), "b".to_string());
    let mut r1 = Post::new("r1".to_string(), "r1".to_string());
    r1.set_reply_to(Some("gone".to_string()));
    let mut r2 = Post::new("r2".to_string(), "r2".to_string());
    r2.set_reply_to(Some("2024-01-01T00:00:00+00:00".to_string()));
    let roots = build_forest(&vec![a, r1, b, r2]);
    let ids: Vec<&str> = roots.iter().map(|r| r.post.id()).collect();
    assert_eq!(ids, vec!["2024-01-01T00:00:00+00:00", "2025-01-01T00:00:00+00:00", "gone"]);
    assert_eq!(roots[0].replies[0].post.id(), "r2");
    assert_eq!(roots[2].replies[0].post.id(), "r1");
}
