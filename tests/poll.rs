use org_social_lib_rs::poll::{
    count_poll_votes, create_vote_reply, has_poll_options_in_content, is_poll_post,
    parse_poll_from_content, vote_reply_at, Poll, PollOption, PollStatus,
};
use org_social_lib_rs::post::Post;
use org_social_lib_rs::util::Moment;

#[test]
fn test_poll_option_creation() {
    let option = PollOption { text: "Option A".to_string(), votes: 5 };
    assert_eq!(option.text, "Option A");
    assert_eq!(option.votes, 5);
}

#[test]
fn test_poll_status_determination() {
    let future_time = "2030-01-01T12:00:00+00:00".to_string();
    let status = Poll::determine_status(&Some(future_time));
    assert_eq!(status, PollStatus::Active);

    let past_time = "2020-01-01T12:00:00+00:00".to_string();
    let status = Poll::determine_status(&Some(past_time));
    assert_eq!(status, PollStatus::Ended);

    let status = Poll::determine_status(&None);
    assert_eq!(status, PollStatus::Invalid);
}

#[test]
fn test_poll_creation() {
    let options = vec!["Option A".to_string(), "Option B".to_string()];
    let poll_end = Some("2030-01-01T12:00:00+00:00".to_string());
    let poll = Poll::new(options, poll_end, 0, 2);

    assert_eq!(poll.options.len(), 2);
    assert_eq!(poll.total_votes, 0);
    assert_eq!(poll.status, PollStatus::Active);
}

#[test]
fn test_add_vote() {
    let options = vec!["Option A".to_string(), "Option B".to_string()];
    let poll_end = Some("2030-01-01T12:00:00+00:00".to_string());
    let mut poll = Poll::new(options, poll_end, 0, 2);

    assert!(poll.add_vote(0));
    assert_eq!(poll.options[0].votes, 1);
    assert_eq!(poll.total_votes, 1);

    assert!(!poll.add_vote(5));
    assert_eq!(poll.total_votes, 1);
}

#[test]
fn test_add_vote_by_text() {
    let options = vec!["Option A".to_string(), "Option B".to_string()];
    let poll_end = Some("2030-01-01T12:00:00+00:00".to_string());
    let mut poll = Poll::new(options, poll_end, 0, 2);

    assert!(poll.add_vote_by_text("Option A"));
    assert_eq!(poll.options[0].votes, 1);
    assert_eq!(poll.total_votes, 1);

    assert!(poll.add_vote_by_text("option b"));
    assert_eq!(poll.options[1].votes, 1);
    assert_eq!(poll.total_votes, 2);

    assert!(!poll.add_vote_by_text("Option C"));
    assert_eq!(poll.total_votes, 2);
}

#[test]
fn test_has_poll_options_in_content() {
    let content_with_poll = "Here's a poll:\n- [ ] Option A\n- [ ] Option B\nWhat do you think?";
    assert!(has_poll_options_in_content(content_with_poll));

    let content_without_poll = "Just a regular post\nNo poll here";
    assert!(!has_poll_options_in_content(content_without_poll));

    let content_single_option = "Poll with one option:\n- [ ] Only option";
    assert!(!has_poll_options_in_content(content_single_option));
}

#[test]
fn test_parse_poll_from_content() {
    let content = "What's your favorite color?\n- [ ] Red\n- [ ] Blue\n- [ ] Green\nThanks for voting!";
    let poll_end = Some("2030-01-01T12:00:00+00:00".to_string());

    let poll = parse_poll_from_content(content, poll_end).unwrap();
    assert_eq!(poll.options.len(), 3);
    assert_eq!(poll.options[0].text, "Red");
    assert_eq!(poll.options[1].text, "Blue");
    assert_eq!(poll.options[2].text, "Green");
    assert_eq!(poll.start_line, 1);
    assert_eq!(poll.end_line, 3);
}

#[test]
fn test_is_poll_post() {
    let mut post = Post::new("test_id".to_string(), "- [ ] Option A\n- [ ] Option B".to_string());

    assert!(!is_poll_post(&post));

    post.set_poll_end(Some("2030-01-01T12:00:00+00:00".to_string()));
    assert!(is_poll_post(&post));

    post.set_content("Just regular content".to_string());
    assert!(!is_poll_post(&post));
}

#[test]
fn test_create_vote_reply() {
    let reply = create_vote_reply("poll_post_id", "Option A", Some("I choose A!"));

    assert_eq!(reply.reply_to().as_deref(), Some("poll_post_id"));
    assert_eq!(reply.poll_option().as_deref(), Some("Option A"));
    assert_eq!(reply.content(), "I choose A!");
    assert_eq!(reply.client().as_deref(), Some("org-social-rs"));
}

#[test]
fn test_count_poll_votes() {
    let mut poll_post = Post::new("poll_id".to_string(), "- [ ] Option A\n- [ ] Option B".to_string());
    poll_post.set_poll_end(Some("2030-01-01T12:00:00+00:00".to_string()));

    let reply1 = create_vote_reply("poll_id", "Option A", Some("Vote 1"));
    let reply2 = create_vote_reply("poll_id", "Option B", Some("Vote 2"));
    let reply3 = create_vote_reply("poll_id", "Option A", Some("Vote 3"));

    let replies = vec![reply1, reply2, reply3];
    let poll_with_votes = count_poll_votes(&poll_post, &replies).unwrap();

    assert_eq!(poll_with_votes.total_votes, 3);
    assert_eq!(poll_with_votes.options[0].votes, 2);
    assert_eq!(poll_with_votes.options[1].votes, 1);
}

#[test]
fn status_at_a_given_time() {
    let now = Moment { secs: 1_700_000_000, nanos: 0, offset: 0 };
    let end = Some("2023-11-14T22:13:20+00:00".to_string());
    assert_eq!(Poll::status_at_time(&end, now), PollStatus::Active);
    let later = Moment { secs: 1_700_000_001, nanos: 0, offset: 0 };
    assert_eq!(Poll::status_at_time(&end, later), PollStatus::Ended);
    assert_eq!(Poll::status_at_time(&Some("soon".to_string()), now), PollStatus::Invalid);
}

#[test]
fn summary_and_clearing() {
    let mut poll = Poll::new_at(vec!["a".to_string(), "b".to_string()], None, 0, 1, PollStatus::Invalid);
    assert!(poll.add_vote(1));
    assert_eq!(poll.get_summary(), "Poll (2 options, 1 votes, Invalid)");
    poll.clear_votes();
    assert_eq!(poll.total_votes, 0);
    assert_eq!(poll.options[1].votes, 0);
    assert!(!poll.is_active());
}

#[test]
fn vote_reply_with_fixed_time() {
    let r = vote_reply_at("2025-01-01T00:00:00+0000".to_string(), "p", "A", None);
    assert_eq!(r.id(), "2025-01-01T00:00:00+0000");
    assert_eq!(r.content(), "");
    assert_eq!(r.poll_option().as_deref(), Some("A"));
}

#[test]
fn vote_from_reply_needs_exact_option() {
    let mut poll = Poll::new_at(vec!["Yes".to_string(), "No".to_string()], None, 0, 1, PollStatus::Active);
    let mut reply = Post::new("r".to_string(), String::new());
    reply.set_poll_option(Some("yes".to_string()));
    assert!(!poll.add_vote_from_reply(&reply));
    reply.set_poll_option(Some("Yes".to_string()));
    assert!(poll.add_vote_from_reply(&reply));
    assert_eq!(poll.options[0].votes, 1);
}
