use org_social_lib_rs::parser::{parse_file, serialize_file};
use org_social_lib_rs::post::Post;
use org_social_lib_rs::profile::Profile;
use org_social_lib_rs::tokenizer::Token;

#[test]
fn test_post_self_parsing() {
    let content = "This is *bold* text with /italic/ formatting.\nAnd a second line with ~code~.".to_string();
    let post = Post::new("test-id".to_string(), content.clone());

    assert_eq!(post.content(), &content);
    assert!(!post.tokens().is_empty());

    let tokens = post.tokens();
    assert!(tokens.iter().any(|t| matches!(t, Token::Bold(_))));
    assert!(tokens.iter().any(|t| matches!(t, Token::Italic(_))));
    assert!(tokens.iter().any(|t| matches!(t, Token::InlineCode(_))));
}

#[test]
fn test_content_reparsing() {
    let mut post = Post::new("test-id".to_string(), "Initial content".to_string());
    let initial_token_count = post.tokens().len();

    post.set_content("New *bold* content with /italic/ and ~code~".to_string());

    assert!(post.tokens().len() >= initial_token_count);
    assert!(post.tokens().iter().any(|t| matches!(t, Token::Bold(_))));
}

#[test]
fn test_from_org_social_format_with_multiline() {
    let post_lines = vec![
        "**".to_string(),
        ":PROPERTIES:".to_string(),
        ":ID: 2025-05-01T12:00:00+0100".to_string(),
        ":TAGS: test multiline".to_string(),
        ":END:".to_string(),
        "".to_string(),
        "First line of content".to_string(),
        "Second line with *formatting*".to_string(),
        "Third line".to_string(),
    ];

    let post = Post::from(post_lines);

    assert_eq!(post.id(), "2025-05-01T12:00:00+0100");
    assert_eq!(post.tags(), &Some(vec!["test".to_string(), "multiline".to_string()]));

    let content = post.content();
    assert_eq!(content.lines().count(), 3);
    assert!(content.contains("First line of content"));
    assert!(content.contains("Second line with *formatting*"));
    assert!(content.contains("Third line"));

    assert!(!post.tokens().is_empty());
    assert!(post.tokens().iter().any(|t| matches!(t, Token::Bold(_))));
}

const DOC: &str = "#+TITLE: My feed\n#+NICK: alice\n#+DESCRIPTION: Notes\n#+AVATAR: https://a.org/me.png\n#+LINK: https://a.org\n#+FOLLOW: bob https://b.org/social.org\n#+FOLLOW: carol https://c.org/social.org\n#+CONTACT: mailto:a@a.org\n\n* Posts\n**\n:PROPERTIES:\n:ID: 2025-01-01T10:00:00+0100\n:LANG: en\n:TAGS: rust\n:TAGS: verus org\n:CLIENT: cli\n:REPLY_TO: https://b.org/social.org#2024-12-31T09:00:00+0100\n:MOOD: happy\n:END:\n\nHello *world*\n\nSecond paragraph\n**\n:PROPERTIES:\n:ID: 2025-01-02T10:00:00+0100\n:POLL_END: 2030-01-01T00:00:00+0000\n:POLL_OPTION: yes\n:UNKNOWN: ignored\n:END:\n\n- [ ] yes\n- [ ] no\n";

#[test]
fn parse_document_fields() {
    let (profile, posts) = parse_file(DOC, Some("https://a.org/social.org".to_string()));
    assert_eq!(profile.title(), "My feed");
    assert_eq!(profile.nick(), "alice");
    assert_eq!(profile.description(), "Notes");
    assert_eq!(profile.avatar().map(|s| s.as_str()), Some("https://a.org/me.png"));
    assert_eq!(profile.link().unwrap(), &vec!["https://a.org".to_string()]);
    assert_eq!(
        profile.follow().clone().unwrap(),
        vec![
            ("bob".to_string(), "https://b.org/social.org".to_string()),
            ("carol".to_string(), "https://c.org/social.org".to_string())
        ]
    );
    assert_eq!(profile.contact().unwrap(), &vec!["mailto:a@a.org".to_string()]);
    assert_eq!(profile.source().map(|s| s.as_str()), Some("https://a.org/social.org"));
    assert_eq!(posts.len(), 2);
    let p = &posts[0];
    assert_eq!(p.id(), "2025-01-01T10:00:00+0100");
    assert_eq!(p.lang().as_deref(), Some("en"));
    assert_eq!(p.tags(), &Some(vec!["rust".to_string(), "verus".to_string(), "org".to_string()]));
    assert_eq!(p.client().as_deref(), Some("cli"));
    assert_eq!(p.reply_to().as_deref(), Some("https://b.org/social.org#2024-12-31T09:00:00+0100"));
    assert_eq!(p.mood().as_deref(), Some("happy"));
    assert_eq!(p.content(), "Hello *world*\n\nSecond paragraph");
    assert_eq!(p.source().as_deref(), Some("https://a.org/social.org"));
    assert_eq!(p.full_id(), "https://a.org/social.org#2025-01-01T10:00:00+0100");
    assert!(p.tokens().iter().any(|t| matches!(t, Token::Bold(_))));
    let q = &posts[1];
    assert_eq!(q.poll_end().as_deref(), Some("2030-01-01T00:00:00+0000"));
    assert_eq!(q.content(), "- [ ] yes\n- [ ] no");
    assert!(q.is_poll());
    assert!(q.get_poll().is_some());
    assert!(q.is_poll_vote() == false);
}

#[test]
fn document_round_trip() {
    let (profile, posts) = parse_file(DOC, None);
    let text = serialize_file(&profile, &posts);
    let (profile2, posts2) = parse_file(&text, None);
    assert_eq!(profile2.title(), profile.title());
    assert_eq!(profile2.nick(), profile.nick());
    assert_eq!(profile2.description(), profile.description());
    assert_eq!(profile2.avatar(), profile.avatar());
    assert_eq!(profile2.link(), profile.link());
    assert_eq!(profile2.follow(), profile.follow());
    assert_eq!(profile2.contact(), profile.contact());
    assert_eq!(posts2.len(), posts.len());
    // The blank line that separates two posts is read back into the body of
    // the earlier one.
    assert_eq!(posts2[0].content(), format!("{}\n", posts[0].content()));
    assert_eq!(posts2[1].content(), posts[1].content());
    for (a, b) in posts.iter().zip(posts2.iter()) {
        assert_eq!(a.id(), b.id());
        assert_eq!(a.lang(), b.lang());
        assert_eq!(a.tags(), b.tags());
        assert_eq!(a.client(), b.client());
        assert_eq!(a.reply_to(), b.reply_to());
        assert_eq!(a.poll_end(), b.poll_end());
        assert_eq!(a.poll_option(), b.poll_option());
        assert_eq!(a.mood(), b.mood());
    }
}

#[test]
fn single_post_round_trip() {
    let mut profile = Profile::default();
    profile.set_nick("n".to_string());
    let mut post = Post::new("2025-03-01T08:00:00+0000".to_string(), "Line one\n\nLine *two*".to_string());
    post.set_mood(Some("calm".to_string()));
    post.set_tags(Some(vec!["x".to_string()]));
    let text = serialize_file(&profile, &[post.clone()]);
    let (reread, posts2) = parse_file(&text, None);
    assert_eq!(reread.nick(), "n");
    assert_eq!(posts2.len(), 1);
    assert_eq!(posts2[0].id(), post.id());
    assert_eq!(posts2[0].content(), post.content());
    assert_eq!(posts2[0].mood(), post.mood());
    assert_eq!(posts2[0].tags(), post.tags());
}

#[test]
fn serialize_exact_text() {
    let mut profile = Profile::default();
    profile.set_nick("n".to_string());
    let mut post = Post::new("2025-01-01T00:00:00+0000".to_string(), "Body".to_string());
    post.set_tags(Some(vec!["a".to_string(), "b".to_string()]));
    let text = serialize_file(&profile, &[post]);
    assert_eq!(text, "#+NICK: n\n\n* Posts\n**\n:PROPERTIES:\n:ID: 2025-01-01T00:00:00+0000\n:TAGS: a b\n:END:\n\nBody");
    assert_eq!(serialize_file(&Profile::default(), &[]), "");
}

#[test]
fn document_without_posts_header() {
    let (profile, posts) = parse_file("#+TITLE: T\n**\n:PROPERTIES:\n:END:\n", None);
    assert_eq!(profile.title(), "T");
    assert!(posts.is_empty());
}

#[test]
fn post_accessors_and_summary() {
    let mut post = Post::new("id1".to_string(), "abcdef".to_string());
    assert_eq!(post.summary(3), "abc...");
    assert_eq!(post.summary(10), "abcdef");
    assert_eq!(post.full_id(), "id1");
    post.set_source(Some("src".to_string()));
    assert_eq!(post.full_id(), "src#id1");
    post.set_id("id2".to_string());
    assert_eq!(post.id(), "id2");
    post.set_author("me".to_string());
    assert_eq!(post.author().as_deref(), Some("me"));
    post.set_poll_option(Some("x".to_string()));
    post.set_reply_to(Some("r".to_string()));
    assert!(post.is_poll_vote());
    assert!(post.time().is_none());
}

#[test]
fn post_time_from_identifier() {
    let a = Post::new("2025-01-01T00:00:00+00:00".to_string(), String::new());
    let b = Post::new("2025-01-01T01:00:00+0100".to_string(), String::new());
    let ta = a.time().unwrap();
    let tb = b.time().unwrap();
    assert_eq!(ta.secs, 1735689600);
    assert_eq!(tb.secs, 1735689600);
    assert_eq!(tb.offset, 3600);
    assert!(Post::new("not a time".to_string(), String::new()).time().is_none());
}

#[test]
fn display_with_follow_nick() {
    let mut profile = Profile::default();
    profile.set_nick("me".to_string());
    let (profile, _) = parse_file("#+FOLLOW: bob https://b.org/social.org/\n", None);
    let mut post = Post::new("2025-01-01T10:30:00+0000".to_string(), "Hi".to_string());
    post.set_author("alice".to_string());
    post.set_lang(Some("en".to_string()));
    post.set_tags(Some(vec!["t1".to_string()]));
    post.set_reply_to(Some("https://b.org/social.org#42".to_string()));
    post.set_mood(Some("ok".to_string()));
    let text = post.format_for_display(Some(&profile));
    assert_eq!(text, "--- alice #en #t1 • 2025-01-01 10:30 ---\nReply to: bob#42 | Mood: ok\nHi");
    let plain = Post::new(String::new(), "x".to_string()).format_for_display(None);
    assert_eq!(plain, "--- unknown ---\nx");
}

#[test]
fn profile_display_text() {
    let (profile, _) = parse_file(
        "#+TITLE: T\n#+NICK: n\n#+LINK: a\n#+LINK: b\n#+FOLLOW: bob https://b.org\n#+CONTACT: c\n",
        Some("src".to_string()),
    );
    assert_eq!(
        profile.display_text(),
        "Title: T\nNick: n\nLinks:\n  1. a\n  2. b\nFollowing: 1 user\n  1. bob - https://b.org\nContact: c\nSource: src"
    );
}

#[test]
fn summary_cuts_by_bytes() {
    let post = Post::new("i".to_string(), "éa".to_string());
    assert_eq!(post.summary(2), "é...");
    assert_eq!(post.summary(3), "éa");
}

#[test]
fn drawer_opens_only_on_an_exact_line() {
    let lines = vec![
        "**".to_string(),
        ":PROPERTIES: extra".to_string(),
        ":ID: x".to_string(),
        ":END:".to_string(),
    ];
    assert_eq!(Post::from(lines).id(), "");
}
