//! Polls: a post with a closing time and at least two `- [ ]` option lines,
//! and the votes that replies cast on it.
use vstd::prelude::*;
use vstd::string::StringExecFns;
use crate::text::{
    lines, lines_of, char_views, trim, trim_chars, trim_str, to_lower, lower_of, string_of, string_views, lemma_string_views_push,
};
use crate::post::{Post, PostSpec, starts, fresh_post};
use crate::profile::ostr;
use crate::util::{Moment, moment_of, parse_timestamp, now_moment, earlier, get_current_timestamp};
use crate::blocks::starts_with_chars;

verus! {

/// One option of a poll and the votes it has.
#[derive(Debug, Clone, PartialEq)]
pub struct PollOption {
    pub text: String,
    pub votes: usize,
}

/// Whether a poll still takes votes.
#[derive(Debug, Clone, Copy, PartialEq, Eq)]
pub enum PollStatus {
    Active,
    Ended,
    Invalid,
}

/// A poll with its options and tallies.
#[derive(Debug, Clone, PartialEq)]
pub struct Poll {
    pub options: Vec<PollOption>,
    pub poll_end: Option<String>,
    pub status: PollStatus,
    pub total_votes: usize,
    pub start_line: usize,
    pub end_line: usize,
}

/// The status of a poll closing at `poll_end`, seen at `now`: ended once
/// `now` is past the closing time, invalid without a readable closing time.
pub open spec fn status_at(poll_end: Option<Seq<char>>, now: Moment) -> PollStatus {
    match poll_end {
        Some(e) => match moment_of(e) {
            Some(end) => if earlier(end, now) {
                PollStatus::Ended
            } else {
                PollStatus::Active
            },
            None => PollStatus::Invalid,
        },
        None => PollStatus::Invalid,
    }
}

pub open spec fn option_texts(os: Seq<PollOption>) -> Seq<Seq<char>> {
    os.map_values(|o: PollOption| o.text@)
}

/// The first option whose text, trimmed and lower-cased, equals `key`.
pub open spec fn first_match(os: Seq<PollOption>, key: Seq<char>, k: int) -> Option<int>
    decreases os.len() - k,
{
    if k < 0 || k >= os.len() {
        None
    } else if lower_of(trim(os[k].text@)) == key {
        Some(k)
    } else {
        first_match(os, key, k + 1)
    }
}

/// A poll option line: `- [ ]` after trimming.
pub open spec fn option_line(l: Seq<char>) -> bool {
    starts(trim(l), "- [ ]"@)
}

/// The text of an option line.
pub open spec fn option_text(l: Seq<char>) -> Seq<char> {
    trim(trim(l).subrange(5, trim(l).len() as int))
}

/// The verdict of the option-run scan from line `k`, with `run` option lines
/// seen in the current run: the first run of option lines decides, and it
/// must hold at least two.
pub open spec fn has_options_from(ls: Seq<Seq<char>>, k: int, run: int) -> bool
    decreases ls.len() - k,
{
    if k < 0 || k >= ls.len() {
        run >= 2
    } else if option_line(ls[k]) {
        has_options_from(ls, k + 1, run + 1)
    } else if run > 0 {
        run >= 2
    } else {
        has_options_from(ls, k + 1, run)
    }
}

/// What the poll section scan has gathered: option texts, first and last
/// option line.
pub struct PollScan {
    pub texts: Seq<Seq<char>>,
    pub start: Option<int>,
    pub end: Option<int>,
}

/// Scans lines from `k`: the section opens at the first option line and
/// closes at the first non-empty line that is not an option line; options
/// with empty text are skipped.
pub open spec fn scan_poll(ls: Seq<Seq<char>>, k: int, acc: PollScan) -> PollScan
    decreases ls.len() - k,
{
    if k < 0 || k >= ls.len() {
        acc
    } else if option_line(ls[k]) {
        let t = option_text(ls[k]);
        let next = PollScan {
            texts: if t.len() > 0 {
                acc.texts.push(t)
            } else {
                acc.texts
            },
            start: if acc.start is None {
                Some(k)
            } else {
                acc.start
            },
            end: Some(k),
        };
        scan_poll(ls, k + 1, next)
    } else if acc.start is Some && trim(ls[k]).len() > 0 {
        acc
    } else {
        scan_poll(ls, k + 1, acc)
    }
}

pub open spec fn poll_scan(content: Seq<char>) -> PollScan {
    scan_poll(lines_of(content), 0, PollScan { texts: seq![], start: None, end: None })
}

/// A reply casts a vote when it names one of the options exactly.
pub open spec fn casts_vote(texts: Seq<Seq<char>>, reply: PostSpec) -> bool {
    match reply.poll_option {
        Some(o) => exists|j: int| 0 <= j < texts.len() && #[trigger] texts[j] == o,
        None => false,
    }
}

/// The number of replies among `rs` that cast a vote.
pub open spec fn votes_cast(texts: Seq<Seq<char>>, rs: Seq<PostSpec>) -> nat
    decreases rs.len(),
{
    if rs.len() == 0 {
        0
    } else {
        votes_cast(texts, rs.drop_last()) + if casts_vote(texts, rs.last()) {
            1nat
        } else {
            0nat
        }
    }
}

/// `first_match` finds an index within the options.
pub proof fn lemma_first_match_in_range(os: Seq<PollOption>, key: Seq<char>, k: int)
    requires
        0 <= k,
    ensures
        first_match(os, key, k) matches Some(i) ==> k <= i < os.len(),
    decreases os.len() - k,
{
    if k < os.len() && lower_of(trim(os[k].text@)) != key {
        lemma_first_match_in_range(os, key, k + 1);
    }
}

proof fn lemma_first_match_found(os: Seq<PollOption>, key: Seq<char>, k: int, j: int)
    requires
        0 <= k <= j < os.len(),
        lower_of(trim(os[j].text@)) == key,
    ensures
        first_match(os, key, k) is Some,
    decreases j - k,
{
    if lower_of(trim(os[k].text@)) != key {
        lemma_first_match_found(os, key, k + 1, j);
    }
}

/// A post is a poll when it has a closing time and a run of at least two option lines.
pub open spec fn is_poll_spec(p: PostSpec) -> bool {
    p.poll_end is Some && has_options_from(lines_of(p.content), 0, 0)
}

pub open spec fn opt_text(o: Option<&str>) -> Option<Seq<char>> {
    match o {
        Some(c) => Some(c@),
        None => None,
    }
}

/// The vote reply for `option_text` on `poll_post_id`, dated `timestamp`.
pub open spec fn vote_reply_spec(
    timestamp: Seq<char>,
    poll_post_id: Seq<char>,
    option_text: Seq<char>,
    voter_content: Option<Seq<char>>,
) -> PostSpec {
    let content = match voter_content {
        Some(c) => c,
        None => seq![],
    };
    PostSpec {
        reply_to: Some(poll_post_id),
        poll_option: Some(option_text),
        client: Some("org-social-rs"@),
        ..fresh_post(timestamp, content)
    }
}

fn is_option_line(l: &Vec<char>) -> (r: bool)
    ensures
        r == option_line(l@),
{
    let t = trim_chars(l);
    let pre = vec!['-', ' ', '[', ' ', ']'];
    assert(pre@ =~= "- [ ]"@) by {
        reveal_strlit("- [ ]");
    }
    let r = starts_with_chars(&t, &pre);
    proof {
        if r {
            assert(t@.subrange(0, 5) == "- [ ]"@);
        }
        if starts(trim(l@), "- [ ]"@) {
            assert(t@.subrange(0, pre@.len() as int) == pre@);
        }
    }
    r
}

/// Whether the body holds a run of at least two poll option lines, the first
/// run deciding.
pub fn has_poll_options_in_content(content: &str) -> (r: bool)
    ensures
        r == has_options_from(lines_of(content@), 0, 0),
{
    let ls = lines(content);
    let ghost lv = lines_of(content@);
    assert(lv.len() == ls@.len());
    let mut run: usize = 0;
    let mut k: usize = 0;
    while k < ls.len()
        invariant
            k <= ls@.len(),
            run <= k,
            lv == lines_of(content@),
            char_views(ls@) == lv,
            lv.len() == ls@.len(),
            has_options_from(lv, 0, 0) == has_options_from(lv, k as int, run as int),
        decreases ls@.len() - k,
    {
        assert(ls@[k as int]@ == lv[k as int]);
        if is_option_line(&ls[k]) {
            run += 1;
        } else if run > 0 {
            assert(has_options_from(lv, k as int, run as int) == (run >= 2));
            return run >= 2;
        }
        k += 1;
    }
    run >= 2
}

/// Whether a post is a poll.
pub fn is_poll_post(post: &Post) -> (r: bool)
    ensures
        r == is_poll_spec(post@),
{
    if post.poll_end().is_none() {
        return false;
    }
    has_poll_options_in_content(post.content())
}

fn option_text_exec(l: &Vec<char>) -> (r: String)
    requires
        option_line(l@),
    ensures
        r@ == option_text(l@),
{
    let t = trim_chars(l);
    proof {
        reveal_strlit("- [ ]");
    }
    let rest = string_of(t.as_slice(), 5, t.len());
    trim_str(rest.as_str())
}

/// The poll in a body, when its poll section holds at least two options.
pub fn parse_poll_from_content(content: &str, poll_end: Option<String>) -> (r: Option<Poll>)
    ensures
        match r {
            Some(p) => poll_scan(content@).texts.len() >= 2 && option_texts(p.options@)
                == poll_scan(content@).texts && p.start_line == (match poll_scan(content@).start {
                Some(s) => s,
                None => 0,
            }) && p.end_line == (match poll_scan(content@).end {
                Some(e) => e,
                None => 0,
            }) && ostr(p.poll_end) == ostr(poll_end) && p.total_votes == 0 && (forall|k: int|
                0 <= k < p.options@.len() ==> (#[trigger] p.options@[k]).votes == 0),
            None => poll_scan(content@).texts.len() < 2,
        },
{
    let ls = lines(content);
    let ghost lv = lines_of(content@);
    let mut texts: Vec<String> = Vec::new();
    let mut start: Option<usize> = None;
    let mut end: Option<usize> = None;
    let mut k: usize = 0;
    let mut stop = false;
    assert(string_views(texts@) =~= Seq::<Seq<char>>::empty());
    assert(lv.len() == ls@.len());
    while k < ls.len() && !stop
        invariant
            k <= ls@.len(),
            lv.len() == ls@.len(),
            char_views(ls@) == lv,
            lv == lines_of(content@),
            ({
                let acc = PollScan {
                    texts: string_views(texts@),
                    start: match start {
                        Some(s) => Some(s as int),
                        None => None,
                    },
                    end: match end {
                        Some(e) => Some(e as int),
                        None => None,
                    },
                };
                if stop {
                    poll_scan(content@) == acc
                } else {
                    poll_scan(content@) == scan_poll(lv, k as int, acc)
                }
            }),
        decreases ls@.len() - k + (if stop {
            0int
        } else {
            1int
        }),
    {
        assert(ls@[k as int]@ == lv[k as int]);
        if is_option_line(&ls[k]) {
            if start.is_none() {
                start = Some(k);
            }
            let t = option_text_exec(&ls[k]);
            if t.unicode_len() > 0 {
                let ghost before = texts@;
                texts.push(t);
                proof {
                    lemma_string_views_push(before, t);
                }
            }
            end = Some(k);
            k += 1;
        } else if start.is_some() && trim_chars(&ls[k]).len() > 0 {
            stop = true;
        } else {
            k += 1;
        }
    }
    if texts.len() >= 2 {
        let s = match start {
            Some(s) => s,
            None => 0,
        };
        let e = match end {
            Some(e) => e,
            None => 0,
        };
        Some(Poll::new(texts, poll_end, s, e))
    } else {
        None
    }
}

/// The poll of a post, when the post is one.
pub fn parse_poll_from_post(post: &Post) -> (r: Option<Poll>)
    ensures
        r is Some <==> (is_poll_spec(post@) && poll_scan(post@.content).texts.len() >= 2),
        r matches Some(p) ==> option_texts(p.options@) == poll_scan(post@.content).texts
            && p.total_votes == 0 && forall|k: int| 0 <= k < p.options@.len() ==> (#[trigger] p.options@[k]).votes == 0,
{
    if !is_poll_post(post) {
        return None;
    }
    let end = match post.poll_end() {
        Some(e) => Some(e.clone()),
        None => None,
    };
    parse_poll_from_content(post.content(), end)
}

/// Whether a reply's option text, trimmed and lower-cased, matches one of
/// the option texts so treated.
pub open spec fn matches_some(os: Seq<PollOption>, reply: PostSpec) -> bool {
    match reply.poll_option {
        Some(o) => first_match(os, lower_of(trim(o)), 0) is Some,
        None => false,
    }
}

/// The number of replies among `rs` whose option matches.
pub open spec fn text_votes(os: Seq<PollOption>, rs: Seq<PostSpec>) -> nat
    decreases rs.len(),
{
    if rs.len() == 0 {
        0
    } else {
        text_votes(os, rs.drop_last()) + if matches_some(os, rs.last()) {
            1nat
        } else {
            0nat
        }
    }
}

proof fn lemma_first_match_votes(os: Seq<PollOption>, ns: Seq<PollOption>, key: Seq<char>, k: int)
    requires
        os.len() == ns.len(),
        forall|i: int| 0 <= i < os.len() ==> (#[trigger] os[i]).text == ns[i].text,
    ensures
        first_match(os, key, k) == first_match(ns, key, k),
    decreases os.len() - k,
{
    if 0 <= k < os.len() {
        assert(os[k].text == ns[k].text);
        lemma_first_match_votes(os, ns, key, k + 1);
    }
}

/// The poll of `poll_post` with one vote counted for each reply whose option
/// matches one, as `add_vote_by_text` matches.
pub fn count_poll_votes(poll_post: &Post, replies: &[Post]) -> (r: Option<Poll>)
    ensures
        r is Some <==> (is_poll_spec(poll_post@) && poll_scan(poll_post@.content).texts.len() >= 2),
        r matches Some(p) ==> option_texts(p.options@) == poll_scan(poll_post@.content).texts
            && p.total_votes == text_votes(p.options@, post_views(replies@))
            && forall|j: int| 0 <= j < p.options@.len() ==> (#[trigger] p.options@[j]).votes == votes_for(p.options@, post_views(replies@), j),
{
    let mut poll = match parse_poll_from_post(poll_post) {
        Some(p) => p,
        None => {
            return None;
        },
    };
    let ghost rs = post_views(replies@);
    let ghost texts = option_texts(poll.options@);
    let mut k: usize = 0;
    while k < replies.len()
        invariant
            is_poll_spec(poll_post@),
            poll_scan(poll_post@.content).texts.len() >= 2,
            texts == poll_scan(poll_post@.content).texts,
            texts == option_texts(poll.options@),
            rs == post_views(replies@),
            k <= replies@.len(),
            poll.total_votes <= k,
            forall|j: int| 0 <= j < poll.options@.len() ==> (#[trigger] poll.options@[j]).votes <= poll.total_votes,
            poll.total_votes == text_votes(poll.options@, rs.subrange(0, k as int)),
            forall|j: int| 0 <= j < poll.options@.len() ==> (#[trigger] poll.options@[j]).votes == votes_for(poll.options@, rs.subrange(0, k as int), j),
        decreases replies@.len() - k,
    {
        let ghost before = poll.options@;
        let ghost t0 = poll.total_votes;
        assert(forall|j: int| 0 <= j < before.len() ==> (#[trigger] before[j]).votes <= t0);
        let ghost rp = replies@[k as int]@;
        assert(rs[k as int] == rp);
        let po = replies[k].poll_option();
        match po {
            Some(vote_option) => {
                let hit = poll.add_vote_by_text(vote_option.as_str());
                proof {
                    let key = lower_of(trim(vote_option@));
                    lemma_first_match_in_range(before, key, 0);
                    assert(poll.options@.len() == before.len());
                    assert forall|i: int| 0 <= i < before.len() implies (#[trigger] before[i]).text == poll.options@[i].text by {}
                    assert forall|j: int| 0 <= j < poll.options@.len() implies (#[trigger] poll.options@[j]).votes <= poll.total_votes by {
                        assert(before[j].votes <= t0);
                    }
                    assert(option_texts(poll.options@) =~= texts) by {
                        assert forall|j: int| 0 <= j < texts.len() implies option_texts(poll.options@)[j] == texts[j] by {
                            assert(option_texts(before)[j] == before[j].text@);
                            assert(option_texts(poll.options@)[j] == poll.options@[j].text@);
                        }
                    }
                    lemma_text_votes_same(before, poll.options@, rs.subrange(0, k as int));
                    assert(rs.subrange(0, k + 1).drop_last() =~= rs.subrange(0, k as int));
                    assert(rs.subrange(0, k + 1).last() == rp);
                    lemma_text_votes_same(before, poll.options@, rs.subrange(0, k + 1));
                    assert(matches_some(before, rp) == hit);
                    assert forall|j: int| 0 <= j < poll.options@.len() implies (#[trigger] poll.options@[j]).votes == votes_for(poll.options@, rs.subrange(0, k + 1), j) by {
                        lemma_votes_for_same(before, poll.options@, rs.subrange(0, k as int), j);
                        lemma_votes_for_same(before, poll.options@, rs.subrange(0, k + 1), j);
                        assert(before[j].votes == votes_for(before, rs.subrange(0, k as int), j));
                    }
                }
            },
            None => {
                proof {
                    assert(rs.subrange(0, k + 1).drop_last() =~= rs.subrange(0, k as int));
                    assert(rs.subrange(0, k + 1).last() == rp);
                    assert forall|j: int| 0 <= j < poll.options@.len() implies (#[trigger] poll.options@[j]).votes == votes_for(poll.options@, rs.subrange(0, k + 1), j) by {
                        assert(before[j].votes == votes_for(before, rs.subrange(0, k as int), j));
                    }
                }
            },
        }
        k += 1;
    }
    assert(rs.subrange(0, rs.len() as int) =~= rs);
    Some(poll)
}

/// The number of replies among `rs` whose vote goes to option `j`.
pub open spec fn votes_for(os: Seq<PollOption>, rs: Seq<PostSpec>, j: int) -> nat
    decreases rs.len(),
{
    if rs.len() == 0 {
        0
    } else {
        votes_for(os, rs.drop_last(), j) + match rs.last().poll_option {
            Some(o) => if first_match(os, lower_of(trim(o)), 0) == Some(j) {
                1nat
            } else {
                0nat
            },
            None => 0nat,
        }
    }
}

proof fn lemma_votes_for_same(os: Seq<PollOption>, ns: Seq<PollOption>, rs: Seq<PostSpec>, j: int)
    requires
        os.len() == ns.len(),
        forall|i: int| 0 <= i < os.len() ==> (#[trigger] os[i]).text == ns[i].text,
    ensures
        votes_for(os, rs, j) == votes_for(ns, rs, j),
    decreases rs.len(),
{
    if rs.len() > 0 {
        lemma_votes_for_same(os, ns, rs.drop_last(), j);
        if let Some(o) = rs.last().poll_option {
            lemma_first_match_votes(os, ns, lower_of(trim(o)), 0);
        }
    }
}

proof fn lemma_text_votes_same(os: Seq<PollOption>, ns: Seq<PollOption>, rs: Seq<PostSpec>)
    requires
        os.len() == ns.len(),
        forall|i: int| 0 <= i < os.len() ==> (#[trigger] os[i]).text == ns[i].text,
    ensures
        text_votes(os, rs) == text_votes(ns, rs),
    decreases rs.len(),
{
    if rs.len() > 0 {
        lemma_text_votes_same(os, ns, rs.drop_last());
        if let Some(o) = rs.last().poll_option {
            lemma_first_match_votes(os, ns, lower_of(trim(o)), 0);
        }
    }
}

pub open spec fn post_views(ps: Seq<Post>) -> Seq<PostSpec> {
    ps.map_values(|p: Post| p@)
}

/// The reply that casts a vote for `option_text`, dated `timestamp`.
pub fn vote_reply_at(
    timestamp: String,
    poll_post_id: &str,
    option_text: &str,
    voter_content: Option<&str>,
) -> (r: Post)
    ensures
        r@ == vote_reply_spec(timestamp@, poll_post_id@, option_text@, opt_text(voter_content)),
{
    let content = match voter_content {
        Some(c) => c.to_string(),
        None => String::new(),
    };
    let mut reply_post = Post::new(timestamp, content);
    reply_post.set_reply_to(Some(poll_post_id.to_string()));
    reply_post.set_poll_option(Some(option_text.to_string()));
    reply_post.set_client(Some(String::from_str("org-social-rs")));
    reply_post
}

/// The reply that casts a vote for `option_text`, dated now.
pub fn create_vote_reply(poll_post_id: &str, option_text: &str, voter_content: Option<&str>) -> (r:
    Post)
    ensures
        exists|t: Seq<char>|
            r@ == #[trigger] vote_reply_spec(t, poll_post_id@, option_text@, opt_text(voter_content)),
{
    let timestamp = get_current_timestamp();
    let ghost t = timestamp@;
    vote_reply_at(timestamp, poll_post_id, option_text, voter_content)
}

/// The decimal digits of `n`.
pub open spec fn decimal(n: nat) -> Seq<char>
    decreases n,
{
    if n < 10 {
        seq![digit(n)]
    } else {
        decimal(n / 10) + seq![digit(n % 10)]
    }
}

pub open spec fn digit(d: nat) -> char {
    if d == 0 {
        '0'
    } else if d == 1 {
        '1'
    } else if d == 2 {
        '2'
    } else if d == 3 {
        '3'
    } else if d == 4 {
        '4'
    } else if d == 5 {
        '5'
    } else if d == 6 {
        '6'
    } else if d == 7 {
        '7'
    } else if d == 8 {
        '8'
    } else {
        '9'
    }
}

fn digit_char(d: usize) -> (r: char)
    requires
        d < 10,
    ensures
        r == digit(d as nat),
{
    if d == 0 {
        '0'
    } else if d == 1 {
        '1'
    } else if d == 2 {
        '2'
    } else if d == 3 {
        '3'
    } else if d == 4 {
        '4'
    } else if d == 5 {
        '5'
    } else if d == 6 {
        '6'
    } else if d == 7 {
        '7'
    } else if d == 8 {
        '8'
    } else {
        '9'
    }
}

/// `n` written in decimal.
pub fn decimal_text(n: usize) -> (r: String)
    ensures
        r@ == decimal(n as nat),
    decreases n,
{
    if n < 10 {
        let mut s = String::new();
        s.push(digit_char(n));
        assert(s@ =~= decimal(n as nat));
        s
    } else {
        let mut s = decimal_text(n / 10);
        s.push(digit_char(n % 10));
        assert(s@ =~= decimal(n as nat));
        s
    }
}

pub open spec fn status_word(s: PollStatus) -> Seq<char> {
    match s {
        PollStatus::Active => "Active"@,
        PollStatus::Ended => "Ended"@,
        PollStatus::Invalid => "Invalid"@,
    }
}

impl Poll {
    /// A poll with the given options, no votes, and the given status.
    pub fn new_at(
        options: Vec<String>,
        poll_end: Option<String>,
        start_line: usize,
        end_line: usize,
        status: PollStatus,
    ) -> (r: Poll)
        ensures
            option_texts(r.options@) == string_views(options@),
            forall|k: int| 0 <= k < r.options@.len() ==> (#[trigger] r.options@[k]).votes == 0,
            r.total_votes == 0,
            r.start_line == start_line,
            r.end_line == end_line,
            r.status == status,
            ostr(r.poll_end) == ostr(poll_end),
    {
        let mut poll_options: Vec<PollOption> = Vec::new();
        let mut rest = options;
        let ghost orig = rest@;
        while rest.len() > 0
            invariant
                option_texts(poll_options@) + string_views(rest@) == string_views(orig),
                forall|k: int| 0 <= k < poll_options@.len() ==> (#[trigger] poll_options@[k]).votes == 0,
            decreases rest@.len(),
        {
            let ghost r0 = rest@;
            let ghost opts_before = poll_options@;
            let text = rest.remove(0);
            poll_options.push(PollOption { text, votes: 0 });
            assert(option_texts(poll_options@) =~= option_texts(opts_before).push(text@));
            assert(string_views(r0) =~= seq![text@] + string_views(rest@));
        }
        assert(option_texts(poll_options@) =~= string_views(orig));
        Poll { options: poll_options, poll_end, status, total_votes: 0, start_line, end_line }
    }

    /// A poll with the given options and no votes, its status taken from the clock.
    pub fn new(options: Vec<String>, poll_end: Option<String>, start_line: usize, end_line: usize) -> (r:
        Poll)
        ensures
            option_texts(r.options@) == string_views(options@),
            forall|k: int| 0 <= k < r.options@.len() ==> (#[trigger] r.options@[k]).votes == 0,
            r.total_votes == 0,
            r.start_line == start_line,
            r.end_line == end_line,
            ostr(r.poll_end) == ostr(poll_end),
            exists|now: Moment| r.status == #[trigger] status_at(ostr(poll_end), now),
    {
        let status = Self::determine_status(&poll_end);
        Self::new_at(options, poll_end, start_line, end_line, status)
    }

    /// The status of a poll closing at `poll_end`, seen at `now`.
    pub fn status_at_time(poll_end: &Option<String>, now: Moment) -> (r: PollStatus)
        ensures
            r == status_at(ostr(*poll_end), now),
    {
        match poll_end {
            Some(end_time) => match parse_timestamp(end_time.as_str()) {
                Some(end) => if crate::util::is_earlier(end, now) {
                    PollStatus::Ended
                } else {
                    PollStatus::Active
                },
                None => PollStatus::Invalid,
            },
            None => PollStatus::Invalid,
        }
    }

    /// The status of a poll closing at `poll_end`, seen now.
    pub fn determine_status(poll_end: &Option<String>) -> (r: PollStatus)
        ensures
            exists|now: Moment| r == #[trigger] status_at(ostr(*poll_end), now),
    {
        let now = now_moment();
        Self::status_at_time(poll_end, now)
    }

    /// Takes the status from the clock anew.
    pub fn update_status(&mut self)
        ensures
            exists|now: Moment| final(self).status == #[trigger] status_at(ostr(old(self).poll_end), now),
    {
        self.status = Self::determine_status(&self.poll_end);
    }

    /// No tally is at its largest value.
    pub open spec fn below_max(&self) -> bool {
        forall|k: int| 0 <= k < self.options@.len() ==> (#[trigger] self.options@[k]).votes < usize::MAX
    }

    pub fn all_below_max(&self) -> (r: bool)
        ensures
            r == self.below_max(),
    {
        let mut k: usize = 0;
        while k < self.options.len()
            invariant
                k <= self.options@.len(),
                forall|j: int| 0 <= j < k ==> (#[trigger] self.options@[j]).votes < usize::MAX,
            decreases self.options@.len() - k,
        {
            if self.options[k].votes == usize::MAX {
                return false;
            }
            k += 1;
        }
        true
    }

    /// Counts a vote for the option at `option_index`, if there is one.
    pub fn add_vote(&mut self, option_index: usize) -> (r: bool)
        requires
            old(self).total_votes < usize::MAX,
            old(self).below_max(),
        ensures
            r == (option_index < old(self).options@.len()),
            r ==> final(self).options@ == old(self).options@.update(
                option_index as int,
                PollOption {
                    votes: (old(self).options@[option_index as int].votes + 1) as usize,
                    ..old(self).options@[option_index as int]
                },
            ) && final(self).total_votes == old(self).total_votes + 1,
            !r ==> final(self).options@ == old(self).options@ && final(self).total_votes == old(
                self,
            ).total_votes,
            final(self).status == old(self).status,
            final(self).start_line == old(self).start_line,
            final(self).end_line == old(self).end_line,
    {
        if option_index < self.options.len() {
            self.bump(option_index);
            true
        } else {
            false
        }
    }

    fn bump(&mut self, k: usize)
        requires
            k < old(self).options@.len(),
            old(self).total_votes < usize::MAX,
            old(self).below_max(),
        ensures
            final(self).options@ == old(self).options@.update(
                k as int,
                PollOption {
                    votes: (old(self).options@[k as int].votes + 1) as usize,
                    ..old(self).options@[k as int]
                },
            ),
            final(self).total_votes == old(self).total_votes + 1,
            final(self).status == old(self).status,
            final(self).poll_end == old(self).poll_end,
            final(self).start_line == old(self).start_line,
            final(self).end_line == old(self).end_line,
    {
        let mut opts: Vec<PollOption> = Vec::new();
        std::mem::swap(&mut opts, &mut self.options);
        let ghost o0 = opts@;
        let mut o = opts.remove(k);
        o.votes = o.votes + 1;
        opts.insert(k, o);
        assert(opts@ =~= o0.update(k as int, PollOption { votes: (o0[k as int].votes + 1) as usize, ..o0[k as int] }));
        self.options = opts;
        self.total_votes = self.total_votes + 1;
    }

    /// Counts a vote for the first option whose text, trimmed and
    /// lower-cased, matches `option_text` trimmed and lower-cased.
    pub fn add_vote_by_text(&mut self, option_text: &str) -> (r: bool)
        requires
            old(self).total_votes < usize::MAX,
            old(self).below_max(),
        ensures
            r == first_match(old(self).options@, lower_of(trim(option_text@)), 0) is Some,
            match first_match(old(self).options@, lower_of(trim(option_text@)), 0) {
                Some(k) => final(self).options@ == old(self).options@.update(
                    k,
                    PollOption { votes: (old(self).options@[k].votes + 1) as usize, ..old(self).options@[k] },
                ) && final(self).total_votes == old(self).total_votes + 1,
                None => final(self).options@ == old(self).options@ && final(self).total_votes == old(
                    self,
                ).total_votes,
            },
            final(self).status == old(self).status,
    {
        let key = to_lower(trim_str(option_text).as_str());
        let ghost os = self.options@;
        let mut k: usize = 0;
        while k < self.options.len()
            invariant
                k <= self.options@.len(),
                self.options@ == os,
                self.options@ == old(self).options@,
                self.status == old(self).status,
                self.total_votes == old(self).total_votes,
                self.total_votes < usize::MAX,
                key@ == lower_of(trim(option_text@)),
                self.below_max(),
                first_match(os, key@, 0) == first_match(os, key@, k as int),
            decreases self.options@.len() - k,
        {
            let t = to_lower(trim_str(self.options[k].text.as_str()).as_str());
            if t.eq(&key) {
                self.bump(k);
                return true;
            }
            k += 1;
        }
        false
    }

    /// Counts the vote a reply casts, when it names one of the options
    /// exactly; the vote goes where `add_vote_by_text` puts it.
    pub fn add_vote_from_reply(&mut self, reply: &Post) -> (r: bool)
        requires
            old(self).total_votes < usize::MAX,
            old(self).below_max(),
        ensures
            r == casts_vote(option_texts(old(self).options@), reply@),
            r ==> first_match(old(self).options@, lower_of(trim(reply@.poll_option->0)), 0) is Some,
            r ==> ({
                let k = first_match(old(self).options@, lower_of(trim(reply@.poll_option->0)), 0)->0;
                final(self).options@ == old(self).options@.update(
                    k,
                    PollOption { votes: (old(self).options@[k].votes + 1) as usize, ..old(self).options@[k] },
                ) && final(self).total_votes == old(self).total_votes + 1
            }),
            !r ==> final(self).options@ == old(self).options@ && final(self).total_votes == old(
                self,
            ).total_votes,
            final(self).status == old(self).status,
    {
        let po = reply.poll_option();
        if let Some(poll_option) = po {
            let ghost texts = option_texts(self.options@);
            let mut found = false;
            let mut k: usize = 0;
            while k < self.options.len()
                invariant
                    self.options@ == old(self).options@,
                    texts == option_texts(self.options@),
                    k <= self.options@.len(),
                    found == exists|j: int| 0 <= j < k && #[trigger] texts[j] == poll_option@,
                decreases self.options@.len() - k,
            {
                assert(texts[k as int] == self.options@[k as int].text@);
                if self.options[k].text.eq(poll_option) {
                    found = true;
                }
                k += 1;
            }
            if found {
                proof {
                    let j = choose|j: int| 0 <= j < self.options@.len() && #[trigger] texts[j] == poll_option@;
                    lemma_first_match_found(self.options@, lower_of(trim(poll_option@)), 0, j);
                }
                return self.add_vote_by_text(poll_option.as_str());
            }
        }
        false
    }

    pub fn is_active(&self) -> (r: bool)
        ensures
            r == (self.status == PollStatus::Active),
    {
        match self.status {
            PollStatus::Active => true,
            _ => false,
        }
    }

    /// `Poll (N options, M votes, Status)`
    pub fn get_summary(&self) -> (r: String)
        ensures
            r@ == "Poll ("@ + decimal(self.options@.len()) + " options, "@ + decimal(
                self.total_votes as nat,
            ) + " votes, "@ + status_word(self.status) + ")"@,
    {
        let mut out = String::from_str("Poll (");
        out.append(decimal_text(self.options.len()).as_str());
        out.append(" options, ");
        out.append(decimal_text(self.total_votes).as_str());
        out.append(" votes, ");
        let word = match self.status {
            PollStatus::Active => String::from_str("Active"),
            PollStatus::Ended => String::from_str("Ended"),
            PollStatus::Invalid => String::from_str("Invalid"),
        };
        out.append(word.as_str());
        out.append(")");
        out
    }

    /// Sets every tally to zero.
    pub fn clear_votes(&mut self)
        ensures
            final(self).total_votes == 0,
            option_texts(final(self).options@) == option_texts(old(self).options@),
            final(self).poll_end == old(self).poll_end,
            final(self).status == old(self).status,
            final(self).start_line == old(self).start_line,
            final(self).end_line == old(self).end_line,
            forall|k: int| 0 <= k < final(self).options@.len() ==> (#[trigger] final(self).options@[k]).votes == 0,
    {
        let mut rest: Vec<PollOption> = Vec::new();
        std::mem::swap(&mut rest, &mut self.options);
        let ghost orig = rest@;
        let mut done: Vec<PollOption> = Vec::new();
        while rest.len() > 0
            invariant
                option_texts(done@) + option_texts(rest@) == option_texts(orig),
                forall|k: int| 0 <= k < done@.len() ==> (#[trigger] done@[k]).votes == 0,
            decreases rest@.len(),
        {
            let ghost r0 = rest@;
            let ghost d0 = done@;
            let mut o = rest.remove(0);
            o.votes = 0;
            done.push(o);
            assert(option_texts(done@) =~= option_texts(d0).push(o.text@));
            assert(option_texts(r0) =~= seq![o.text@] + option_texts(rest@));
        }
        assert(option_texts(done@) =~= option_texts(orig));
        self.options = done;
        self.total_votes = 0;
    }
}

} // verus!
