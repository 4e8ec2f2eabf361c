//! Notifications: posts by others that mention a user or reply to one of
//! the user's posts.
use vstd::prelude::*;
use crate::text::{chars_of, string_views};
use crate::tokenizer::{Token, Tok};
use crate::post::{Post, PostSpec, time_of, after_hash};
use crate::profile::{Profile, ProfileSpec, ostr};
use crate::util::{Moment, is_earlier};
use crate::feed::{newer_first, in_range};

verus! {

/// Why a post is a notification.
#[derive(Debug, Clone, Copy, PartialEq, Eq, Structural)]
pub enum NotificationType {
    /// The post mentions the user.
    Mention,
    /// The post replies to one of the user's posts.
    Reply,
    /// Both.
    MentionAndReply,
}

/// A post and why it concerns the user.
#[derive(Debug, Clone)]
pub struct Notification {
    pub post: Post,
    pub notification_type: NotificationType,
}

/// A user's notifications, newest first.
pub struct NotificationFeed {
    pub notifications: Vec<Notification>,
}

/// Whether `needle` occurs in `hay`.
pub open spec fn occurs(hay: Seq<char>, needle: Seq<char>) -> bool {
    exists|i: int| 0 <= i && i + needle.len() <= hay.len() && #[trigger] hay.subrange(i, i + needle.len()) == needle
}

/// A mention token names the user: by nick (with or without `@`), by the
/// user's document address, or the body writes `@username`.
pub open spec fn mention_hits(t: Tok, p: PostSpec, u: ProfileSpec) -> bool {
    match t {
        Tok::Mention(url, name) => name == u.nick || seq!['@'] + name == u.nick || u.source == Some(
            url,
        ) || occurs(p.content, seq!['@'] + name),
        _ => false,
    }
}

pub open spec fn mentions_user(p: PostSpec, u: ProfileSpec) -> bool {
    exists|k: int| 0 <= k < p.tokens.len() && #[trigger] mention_hits(p.tokens[k], p, u)
}

/// The post replies to one of `user_posts`: the part of its reference after
/// the last `#` is one of their identifiers.
pub open spec fn replies_to_user(p: PostSpec, user_posts: Seq<PostSpec>) -> bool {
    match p.reply_to {
        Some(r) => exists|k: int| 0 <= k < user_posts.len() && #[trigger] user_posts[k].id == after_hash(r),
        None => false,
    }
}

pub open spec fn kind_of(mention: bool, reply: bool) -> Option<NotificationType> {
    if mention && reply {
        Some(NotificationType::MentionAndReply)
    } else if mention {
        Some(NotificationType::Mention)
    } else if reply {
        Some(NotificationType::Reply)
    } else {
        None
    }
}

pub open spec fn post_views(ps: Seq<Post>) -> Seq<PostSpec> {
    ps.map_values(|p: Post| p@)
}

fn occurs_exec(hay: &Vec<char>, needle: &Vec<char>) -> (r: bool)
    ensures
        r == occurs(hay@, needle@),
{
    let n = hay.len();
    let m = needle.len();
    if m > n {
        return false;
    }
    let mut i: usize = 0;
    while i <= n - m
        invariant
            m <= n,
            n == hay@.len(),
            m == needle@.len(),
            forall|j: int| 0 <= j < i ==> #[trigger] hay@.subrange(j, j + m) != needle@,
        decreases n - m + 1 - i,
    {
        let mut k: usize = 0;
        let mut same = true;
        while k < m
            invariant
                k <= m,
                i + m <= n,
                n == hay@.len(),
                m == needle@.len(),
                same == forall|j: int| 0 <= j < k ==> hay@[i + j] == needle@[j],
            decreases m - k,
        {
            if hay[i + k] != needle[k] {
                same = false;
            }
            k += 1;
        }
        if same {
            assert(hay@.subrange(i as int, i + m) =~= needle@);
            return true;
        }
        assert(hay@.subrange(i as int, i + m) != needle@) by {
            let j = choose|j: int| 0 <= j < m && hay@[i + j] != needle@[j];
            assert(hay@.subrange(i as int, i + m)[j] == hay@[i + j]);
        }
        i += 1;
    }
    proof {
        assert forall|j: int| 0 <= j && j + needle@.len() <= hay@.len() implies #[trigger] hay@.subrange(j, j + needle@.len()) != needle@ by {
            assert(j < i);
        }
    }
    false
}

fn token_hits(t: &Token, post: &Post, user: &Profile) -> (r: bool)
    ensures
        r == mention_hits(t@, post@, user@),
{
    match t {
        Token::Mention { url, username } => {
            let nick = user.nick().to_string();
            let mut at = String::new();
            at.push('@');
            at.append(username.as_str());
            if username.eq(&nick) || at.eq(&nick) {
                return true;
            }
            match user.source() {
                Some(src) => {
                    if url.eq(src) {
                        return true;
                    }
                },
                None => {},
            }
            proof {
                assert(at@ =~= seq!['@'] + username@);
            }
            occurs_exec(&chars_of(post.content()), &chars_of(at.as_str()))
        },
        _ => false,
    }
}

/// Whether a post mentions the user.
pub fn is_mention_to_user(post: &Post, user_profile: &Profile) -> (r: bool)
    ensures
        r == mentions_user(post@, user_profile@),
{
    let tokens = post.tokens();
    let mut k: usize = 0;
    while k < tokens.len()
        invariant
            k <= tokens@.len(),
            crate::tokenizer::views(tokens@) == post@.tokens,
            forall|j: int| 0 <= j < k ==> !mention_hits(post@.tokens[j], post@, user_profile@),
        decreases tokens@.len() - k,
    {
        assert(tokens@[k as int]@ == post@.tokens[k as int]);
        if token_hits(&tokens[k], post, user_profile) {
            return true;
        }
        k += 1;
    }
    false
}

/// Whether a post replies to one of the user's posts.
pub fn is_reply_to_user(post: &Post, user_posts: &[Post]) -> (r: bool)
    ensures
        r == replies_to_user(post@, post_views(user_posts@)),
{
    let rt = post.reply_to();
    match rt {
        Some(reply_to) => {
            assert(ostr(*rt) == post@.reply_to);
            let id = after_last_hash_text(reply_to.as_str());
            let mut k: usize = 0;
            while k < user_posts.len()
                invariant
                    k <= user_posts@.len(),
                    post@.reply_to == Some(reply_to@),
                    id@ == after_hash(post@.reply_to->0),
                    forall|j: int| 0 <= j < k ==> user_posts@[j]@.id != id@,
                decreases user_posts@.len() - k,
            {
                if user_posts[k].id().to_string().eq(&id) {
                    assert(post@.reply_to == Some(reply_to@));
                    assert(post_views(user_posts@)[k as int] == user_posts@[k as int]@);
                    assert(post_views(user_posts@)[k as int].id == after_hash(reply_to@));
                    return true;
                }
                k += 1;
            }
            proof {
                assert forall|j: int| 0 <= j < user_posts@.len() implies #[trigger] post_views(user_posts@)[j].id != after_hash(post@.reply_to->0) by {
                    assert(post_views(user_posts@)[j] == user_posts@[j]@);
                }
            }
            false
        },
        None => false,
    }
}

fn after_last_hash_text(s: &str) -> (r: String)
    ensures
        r@ == after_hash(s@),
{
    let v = chars_of(s);
    let n = v.len();
    let mut j = n;
    while j > 0 && v[j - 1] != '#'
        invariant
            j <= n == v@.len(),
            v@ == s@,
            crate::post::last_index(v@, n as int, '#') == crate::post::last_index(v@, j as int, '#'),
        decreases j,
    {
        j -= 1;
    }
    if j == 0 {
        s.to_string()
    } else {
        crate::text::string_of(v.as_slice(), j, n)
    }
}

/// The notifications of `ns` of one kind, in order, as (post, kind) pairs.
pub open spec fn of_kind(ns: Seq<Notification>, t: NotificationType) -> Seq<(PostSpec, NotificationType)>
    decreases ns.len(),
{
    if ns.len() == 0 {
        seq![]
    } else if ns.last().notification_type == t {
        of_kind(ns.drop_last(), t).push((ns.last().post@, t))
    } else {
        of_kind(ns.drop_last(), t)
    }
}

pub open spec fn note_views(ns: Seq<Notification>) -> Seq<(PostSpec, NotificationType)> {
    ns.map_values(|n: Notification| (n.post@, n.notification_type))
}

/// The notifications of `ns` whose post time lies within `[start, end]`.
pub open spec fn notes_within(ns: Seq<Notification>, start: Moment, end: Moment) -> Seq<(PostSpec, NotificationType)>
    decreases ns.len(),
{
    if ns.len() == 0 {
        seq![]
    } else if in_range(time_of(ns.last().post@), start, end) {
        notes_within(ns.drop_last(), start, end).push((ns.last().post@, ns.last().notification_type))
    } else {
        notes_within(ns.drop_last(), start, end)
    }
}

/// Some gathered notification is about a post with identifier `id`.
pub open spec fn has_id(g: Seq<(PostSpec, NotificationType)>, id: Seq<char>) -> bool {
    exists|j: int| 0 <= j < g.len() && #[trigger] g[j].0.id == id
}

/// The notifications owed for `ps` in order: a post by the user is skipped,
/// as is a post whose identifier an earlier notification already has; the
/// rest count when they mention the user or reply to one of `ups`.
pub open spec fn gathered(ps: Seq<PostSpec>, u: ProfileSpec, ups: Seq<PostSpec>) -> Seq<(PostSpec, NotificationType)>
    decreases ps.len(),
{
    if ps.len() == 0 {
        seq![]
    } else {
        let g = gathered(ps.drop_last(), u, ups);
        let p = ps.last();
        if p.author == Some(u.nick) || has_id(g, p.id) {
            g
        } else {
            match kind_of(mentions_user(p, u), replies_to_user(p, ups)) {
                Some(t) => g.push((p, t)),
                None => g,
            }
        }
    }
}

pub open spec fn notes_newest_first(ns: Seq<Notification>) -> bool {
    forall|i: int| 0 <= i < ns.len() - 1 ==> #[trigger] newer_first(time_of(ns[i].post@), time_of(ns[i + 1].post@))
}

impl Notification {
    pub fn new(post: Post, notification_type: NotificationType) -> (r: Notification)
        ensures
            r.post == post,
            r.notification_type == notification_type,
    {
        Notification { post, notification_type }
    }

    fn duplicate(&self) -> (r: Notification)
        ensures
            r.post@ == self.post@,
            r.notification_type == self.notification_type,
    {
        Notification { post: self.post.duplicate(), notification_type: self.notification_type }
    }
}

impl NotificationFeed {
    /// The posts of others that mention the user or reply to one of
    /// `user_posts`, each identifier once (the first post with it counts),
    /// newest first.
    pub fn create_notification_feed(
        user_profile: &Profile,
        user_posts: &[Post],
        all_posts: Vec<Post>,
    ) -> (r: NotificationFeed)
        ensures
            notes_newest_first(r.notifications@),
            all_ok(r.notifications@, user_profile@, post_views(user_posts@)),
            note_views(r.notifications@).to_multiset() == gathered(
                post_views(all_posts@),
                user_profile@,
                post_views(user_posts@),
            ).to_multiset(),
    {
        let ghost ps = post_views(all_posts@);
        let ghost ups = post_views(user_posts@);
        let ghost u = user_profile@;
        let mut found: Vec<Notification> = Vec::new();
        let mut seen: Vec<String> = Vec::new();
        let nick = user_profile.nick().to_string();
        let mut rest = all_posts;
        let ghost total = ps.len();
        while rest.len() > 0
            invariant
                nick@ == user_profile@.nick,
                u == user_profile@,
                ups == post_views(user_posts@),
                ps.len() == total,
                rest@.len() <= total,
                post_views(rest@) == ps.subrange(total - rest@.len(), total as int),
                all_ok(found@, u, ups),
                note_views(found@) == gathered(ps.subrange(0, total - rest@.len()), u, ups),
                string_views(seen@) == note_views(found@).map_values(|e: (PostSpec, NotificationType)| e.0.id),
            decreases rest@.len(),
        {
            let ghost i = total - rest@.len();
            let ghost r0 = rest@;
            let post = rest.remove(0);
            proof {
                assert(post_views(r0)[0] == post@);
                assert(post@ == ps[i]);
                assert(rest@ =~= r0.subrange(1, r0.len() as int));
                assert(post_views(rest@) =~= post_views(r0).subrange(1, r0.len() as int));
                assert(post_views(rest@) =~= ps.subrange(i + 1, total as int));
                assert(ps.subrange(0, i + 1).drop_last() =~= ps.subrange(0, i));
                assert(ps.subrange(0, i + 1).last() == post@);
            }
            let ghost g = note_views(found@);
            let own = match post.author() {
                Some(a) => a.eq(&nick),
                None => false,
            };
            let mut dup = false;
            let mut k: usize = 0;
            let id = post.id().to_string();
            assert(seen@.len() == string_views(seen@).len());
            assert(seen@.len() == g.len());
            while k < seen.len()
                invariant
                    k <= seen@.len(),
                    seen@.len() == g.len(),
                    string_views(seen@) == g.map_values(|e: (PostSpec, NotificationType)| e.0.id),
                    dup == exists|j: int| 0 <= j < k && #[trigger] g[j].0.id == id@,
                decreases seen@.len() - k,
            {
                assert(string_views(seen@)[k as int] == seen@[k as int]@);
                assert(g.map_values(|e: (PostSpec, NotificationType)| e.0.id)[k as int] == g[k as int].0.id);
                if seen[k].eq(&id) {
                    dup = true;
                }
                k += 1;
            }
            assert(dup == has_id(g, post@.id));
            if !own && !dup {
                let m = is_mention_to_user(&post, user_profile);
                let r = is_reply_to_user(&post, user_posts);
                let kind = if m && r {
                    Some(NotificationType::MentionAndReply)
                } else if m {
                    Some(NotificationType::Mention)
                } else if r {
                    Some(NotificationType::Reply)
                } else {
                    None
                };
                match kind {
                    Some(t) => {
                        let ghost s0 = seen@;
                        let ghost f0 = found@;
                        seen.push(id);
                        let note = Notification::new(post, t);
                        found.push(note);
                        proof {
                            crate::text::lemma_string_views_push(s0, id);
                            assert(note_views(found@) =~= g.push((note.post@, t)));
                            assert(note_views(found@).map_values(|e: (PostSpec, NotificationType)| e.0.id) =~= g.map_values(|e: (PostSpec, NotificationType)| e.0.id).push(note.post@.id));
                            assert forall|k2: int| 0 <= k2 < found@.len() implies note_ok(#[trigger] found@[k2], u, ups) by {
                                if k2 < f0.len() {
                                    assert(found@[k2] == f0[k2]);
                                }
                            }
                        }
                    },
                    None => {},
                }
            }
        }
        let ghost all_found = found@;
        let notifications = sort_notifications(found, Ghost(u), Ghost(ups));
        assert(ps.subrange(0, total as int) =~= ps);
        NotificationFeed { notifications }
    }

    /// Notifications whose post time lies within `[start, end]`, in order.
    pub fn notifications_in_range(&self, start: Moment, end: Moment) -> (r: Vec<Notification>)
        ensures
            note_views(r@) == notes_within(self.notifications@, start, end),
    {
        let ghost ns = self.notifications@;
        let mut out: Vec<Notification> = Vec::new();
        let mut k: usize = 0;
        while k < self.notifications.len()
            invariant
                k <= ns.len(),
                ns == self.notifications@,
                note_views(out@) == notes_within(ns.subrange(0, k as int), start, end),
            decreases ns.len() - k,
        {
            let ghost o0 = out@;
            proof {
                assert(ns.subrange(0, k + 1).drop_last() =~= ns.subrange(0, k as int));
                assert(ns.subrange(0, k + 1).last() == ns[k as int]);
            }
            match self.notifications[k].post.time() {
                Some(t) => {
                    if !is_earlier(t, start) && !is_earlier(end, t) {
                        let n = self.notifications[k].duplicate();
                        out.push(n);
                        assert(note_views(out@) =~= note_views(o0).push((n.post@, n.notification_type)));
                    }
                },
                None => {},
            }
            k += 1;
        }
        assert(ns.subrange(0, ns.len() as int) =~= ns);
        out
    }

    /// The first `limit` notifications.
    pub fn get_recent_notifications(&self, limit: usize) -> (r: Vec<Notification>)
        ensures
            r@.len() == if limit < self.notifications@.len() { limit as int } else { self.notifications@.len() as int },
            forall|k: int| 0 <= k < r@.len() ==> (#[trigger] r@[k]).post@ == self.notifications@[k].post@,
    {
        let mut out: Vec<Notification> = Vec::new();
        let mut k: usize = 0;
        while k < self.notifications.len() && k < limit
            invariant
                k <= self.notifications@.len(),
                k <= limit,
                out@.len() == k,
                forall|j: int| 0 <= j < out@.len() ==> (#[trigger] out@[j]).post@ == self.notifications@[j].post@,
            decreases self.notifications@.len() - k,
        {
            out.push(self.notifications[k].duplicate());
            k += 1;
        }
        out
    }

    /// The notifications of one kind, in order.
    pub fn notifications_by_type(&self, notification_type: NotificationType) -> (r: Vec<Notification>)
        ensures
            note_views(r@) == of_kind(self.notifications@, notification_type),
    {
        let ghost ns = self.notifications@;
        let mut out: Vec<Notification> = Vec::new();
        let mut k: usize = 0;
        while k < self.notifications.len()
            invariant
                k <= ns.len(),
                ns == self.notifications@,
                note_views(out@) == of_kind(ns.subrange(0, k as int), notification_type),
            decreases ns.len() - k,
        {
            let ghost o0 = out@;
            proof {
                assert(ns.subrange(0, k + 1).drop_last() =~= ns.subrange(0, k as int));
                assert(ns.subrange(0, k + 1).last() == ns[k as int]);
            }
            if self.notifications[k].notification_type == notification_type {
                let n = self.notifications[k].duplicate();
                out.push(n);
                assert(note_views(out@) =~= note_views(o0).push((n.post@, n.notification_type)));
            }
            k += 1;
        }
        assert(ns.subrange(0, ns.len() as int) =~= ns);
        out
    }

    pub fn len(&self) -> (r: usize)
        ensures
            r == self.notifications@.len(),
    {
        self.notifications.len()
    }

    pub fn is_empty(&self) -> (r: bool)
        ensures
            r == (self.notifications@.len() == 0),
    {
        self.notifications.len() == 0
    }
}

fn newer_or_same(a: Option<Moment>, b: Option<Moment>) -> (r: bool)
    ensures
        r == newer_first(a, b),
{
    match (a, b) {
        (Some(x), Some(y)) => !is_earlier(x, y),
        (Some(_), None) => true,
        (None, Some(_)) => false,
        (None, None) => true,
    }
}

/// The notification is owed to the user for the reason it gives, and the
/// post is not the user's own.
pub open spec fn note_ok(n: Notification, u: ProfileSpec, ups: Seq<PostSpec>) -> bool {
    kind_of(mentions_user(n.post@, u), replies_to_user(n.post@, ups)) == Some(n.notification_type)
        && n.post@.author != Some(u.nick)
}

pub open spec fn all_ok(ns: Seq<Notification>, u: ProfileSpec, ups: Seq<PostSpec>) -> bool {
    forall|k: int| 0 <= k < ns.len() ==> note_ok(#[trigger] ns[k], u, ups)
}

/// Stable insertion sort, newest post first, timeless last.
fn sort_notifications(ns: Vec<Notification>, Ghost(u): Ghost<ProfileSpec>, Ghost(ups): Ghost<Seq<PostSpec>>) -> (r: Vec<Notification>)
    ensures
        notes_newest_first(r@),
        all_ok(ns@, u, ups) ==> all_ok(r@, u, ups),
        note_views(r@).to_multiset() == note_views(ns@).to_multiset(),
{
    let ghost orig = ns@;
    let mut rest = ns;
    let mut out: Vec<Notification> = Vec::new();
    assert(note_views(out@) =~= note_views(orig.subrange(0, 0)));
    while rest.len() > 0
        invariant
            notes_newest_first(out@),
            orig == ns@,
            out@.len() + rest@.len() == orig.len(),
            rest@ == orig.subrange(out@.len() as int, orig.len() as int),
            all_ok(orig, u, ups) ==> all_ok(out@, u, ups),
            note_views(out@).to_multiset() == note_views(orig.subrange(0, out@.len() as int)).to_multiset(),
        decreases rest@.len(),
    {
        let ghost done = out@.len();
        let x = rest.remove(0);
        assert(x == orig[done as int]);
        let tx = x.post.time();
        let ghost before = out@;
        let mut p = out.len();
        while p > 0 && !newer_or_same(out[p - 1].post.time(), tx)
            invariant
                p <= out@.len(),
                out@ == before,
                tx == time_of(x.post@),
                forall|j: int| p <= j < out@.len() ==> !newer_first(time_of((#[trigger] out@[j]).post@), tx),
            decreases p,
        {
            p -= 1;
        }
        out.insert(p, x);
        proof {
            assert forall|i: int| 0 <= i < out@.len() - 1 implies #[trigger] newer_first(time_of(out@[i].post@), time_of(out@[i + 1].post@)) by {
                if i + 1 < p {
                    assert(out@[i] == before[i] && out@[i + 1] == before[i + 1]);
                } else if i + 1 == p {
                    assert(out@[i] == before[i]);
                } else if i == p {
                    assert(out@[i + 1] == before[i]);
                } else {
                    let j = i - 1;
                    assert(out@[i] == before[j] && out@[i + 1] == before[j + 1]);
                    assert(newer_first(time_of(before[j].post@), time_of(before[j + 1].post@)));
                }
            }
            if all_ok(orig, u, ups) {
                assert(note_ok(orig[done as int], u, ups));
                assert forall|k: int| 0 <= k < out@.len() implies note_ok(#[trigger] out@[k], u, ups) by {
                    if k < p {
                        assert(out@[k] == before[k]);
                    } else if k == p {
                        assert(out@[k] == orig[done as int]);
                    } else {
                        assert(out@[k] == before[k - 1]);
                    }
                }
            }
            assert(rest@ =~= orig.subrange(out@.len() as int, orig.len() as int));
            let vx = (x.post@, x.notification_type);
            assert(note_views(out@) =~= note_views(before).insert(p as int, vx));
            vstd::seq_lib::to_multiset_insert(note_views(before), p as int, vx);
            assert(note_views(orig.subrange(0, done as int + 1)) =~= note_views(orig.subrange(0, done as int)).push(vx));
            vstd::seq_lib::to_multiset_build(note_views(orig.subrange(0, done as int)), vx);
        }
    }
    assert(orig.subrange(0, orig.len() as int) =~= orig);
    out
}

} // verus!
