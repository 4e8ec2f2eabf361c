use org_social_lib_rs::notifications::{
    is_mention_to_user, is_reply_to_user, NotificationFeed, NotificationType,
};
use org_social_lib_rs::post::Post;
use org_social_lib_rs::profile::Profile;

#[test]
fn test_mention_detection() {
    let mut user_profile = Profile::default();
    user_profile.set_nick("testuser".to_string());
    user_profile.set_source(Some("https://example.com/social.org".to_string()));

    let post_content = "Hello [[org-social:https://example.com/social.org][testuser]]!".to_string();
    let mut post = Post::new("test123".to_string(), post_content);
    post.parse_content();

    assert!(is_mention_to_user(&post, &user_profile));
}

#[test]
fn test_reply_detection() {
    let user_posts = vec![
        Post::new("user_post_1".to_string(), "First user post".to_string()),
        Post::new("user_post_2".to_string(), "Second user post".to_string()),
    ];

    let mut reply_post = Post::new("reply_1".to_string(), "This is a reply".to_string());
    reply_post.set_reply_to(Some("https://example.com/social.org#user_post_1".to_string()));

    assert!(is_reply_to_user(&reply_post, &user_posts));
}

#[test]
fn test_notification_feed_creation() {
    let mut user_profile = Profile::default();
    user_profile.set_nick("testuser".to_string());

    let user_posts = vec![Post::new("user_post_1".to_string(), "User's post".to_string())];

    let mut mention_post = Post::new(
        "mention_1".to_string(),
        "Hello [[org-social:https://example.com/social.org][testuser]]!".to_string(),
    );
    mention_post.parse_content();

    let mut reply_post = Post::new("reply_1".to_string(), "Reply to user".to_string());
    reply_post.set_reply_to(Some("https://example.com/social.org#user_post_1".to_string()));

    let all_posts = vec![mention_post, reply_post];

    let notification_feed =
        NotificationFeed::create_notification_feed(&user_profile, &user_posts, all_posts);

    assert_eq!(notification_feed.len(), 2);
}

#[test]
fn test_no_duplicates_for_mention_and_reply() {
    let mut user_profile = Profile::default();
    user_profile.set_nick("testuser".to_string());

    let user_posts = vec![Post::new("user_post_1".to_string(), "User's post".to_string())];

    let mut mention_and_reply_post = Post::new(
        "both_1".to_string(),
        "Reply to [[org-social:https://example.com/social.org][testuser]]'s post".to_string(),
    );
    mention_and_reply_post.set_reply_to(Some("https://example.com/social.org#user_post_1".to_string()));
    mention_and_reply_post.parse_content();

    let all_posts = vec![mention_and_reply_post];

    let notification_feed =
        NotificationFeed::create_notification_feed(&user_profile, &user_posts, all_posts);

    assert_eq!(notification_feed.len(), 1);
    assert_eq!(notification_feed.notifications[0].notification_type, NotificationType::MentionAndReply);
}

#[test]
fn own_posts_and_repeats_are_skipped_newest_first() {
    let mut me = Profile::default();
    me.set_nick("me".to_string());
    let mine = vec![Post::new("u1".to_string(), "mine".to_string())];
    let mut own = Post::new("2025-01-03T00:00:00+00:00".to_string(), "self".to_string());
    own.set_author("me".to_string());
    own.set_reply_to(Some("u1".to_string()));
    let mut older = Post::new("2025-01-01T00:00:00+00:00".to_string(), "old".to_string());
    older.set_reply_to(Some("x#u1".to_string()));
    let mut newer = Post::new("2025-01-02T00:00:00+00:00".to_string(), "hey @me".to_string());
    newer.set_content("[[org-social:https://m.org/s.org][someone]] hey @someone".to_string());
    let repeat = older.clone();
    let feed = NotificationFeed::create_notification_feed(&me, &mine, vec![own, older, newer, repeat]);
    assert_eq!(feed.len(), 2);
    assert_eq!(feed.notifications[0].post.id(), "2025-01-02T00:00:00+00:00");
    assert_eq!(feed.notifications[0].notification_type, NotificationType::Mention);
    assert_eq!(feed.notifications[1].notification_type, NotificationType::Reply);
    assert_eq!(feed.get_recent_notifications(1).len(), 1);
    assert_eq!(feed.notifications_by_type(NotificationType::Reply).len(), 1);
    assert!(!feed.is_empty());
}
