//! A feed: the posts of a user and of the accounts they follow, newest
//! first, with the profile that wrote each post.
use vstd::prelude::*;
use crate::profile::{Profile, ProfileSpec, ostr};
use crate::post::{Post, PostSpec, time_of};
use crate::util::{Moment, earlier, is_earlier};
use crate::text::{chars_of, string_views};

verus! {

/// Posts from several sources, the profiles involved, and for each post
/// identifier the index of its author's profile.
pub struct Feed {
    pub posts: Vec<Post>,
    pub profiles: Vec<Profile>,
    pub profile_map: Vec<(String, usize)>,
}

/// `a` may stand before `b` in a feed: newest first, timeless last.
pub open spec fn newer_first(a: Option<Moment>, b: Option<Moment>) -> bool {
    match (a, b) {
        (Some(x), Some(y)) => !earlier(x, y),
        (Some(_), None) => true,
        (None, Some(_)) => false,
        (None, None) => true,
    }
}

pub open spec fn newest_first(ps: Seq<PostSpec>) -> bool {
    forall|i: int| 0 <= i < ps.len() - 1 ==> #[trigger] newer_first(time_of(ps[i]), time_of(ps[i + 1]))
}

/// A time within `[start, end]`; no time is within no range.
pub open spec fn in_range(t: Option<Moment>, start: Moment, end: Moment) -> bool {
    match t {
        Some(x) => !earlier(x, start) && !earlier(end, x),
        None => false,
    }
}

/// The posts of `ps` whose time lies within `[start, end]`, in order.
pub open spec fn posts_within(ps: Seq<PostSpec>, start: Moment, end: Moment) -> Seq<PostSpec>
    decreases ps.len(),
{
    if ps.len() == 0 {
        seq![]
    } else if in_range(time_of(ps.last()), start, end) {
        posts_within(ps.drop_last(), start, end).push(ps.last())
    } else {
        posts_within(ps.drop_last(), start, end)
    }
}

/// The posts of `ps` whose source is `source`, in order.
pub open spec fn posts_of_source(ps: Seq<PostSpec>, source: Seq<char>) -> Seq<PostSpec>
    decreases ps.len(),
{
    if ps.len() == 0 {
        seq![]
    } else if ps.last().source == Some(source) {
        posts_of_source(ps.drop_last(), source).push(ps.last())
    } else {
        posts_of_source(ps.drop_last(), source)
    }
}

pub open spec fn post_views(ps: Seq<Post>) -> Seq<PostSpec> {
    ps.map_values(|p: Post| p@)
}

fn newer_or_same(a: Option<Moment>, b: Option<Moment>) -> (r: bool)
    ensures
        r == newer_first(a, b),
{
    match (a, b) {
        (Some(x), Some(y)) => !is_earlier(x, y),
        (Some(_), None) => true,
        (None, Some(_)) => false,
        (None, None) => true,
    }
}

/// Orders posts newest first, timeless posts last, keeping the input order
/// among posts with equal times.
/// `s` with `x` placed after the last post not older than it: one step of a
/// stable insertion sort, newest first, timeless last.
pub open spec fn ins_post(s: Seq<PostSpec>, x: PostSpec) -> Seq<PostSpec>
    decreases s.len(),
{
    if s.len() == 0 {
        seq![x]
    } else if newer_first(time_of(s.last()), time_of(x)) {
        s.push(x)
    } else {
        ins_post(s.drop_last(), x).push(s.last())
    }
}

/// The stable sort of `s`, newest first: posts with equal times (or none)
/// keep their order.
pub open spec fn isort_posts(s: Seq<PostSpec>) -> Seq<PostSpec>
    decreases s.len(),
{
    if s.len() == 0 {
        seq![]
    } else {
        ins_post(isort_posts(s.drop_last()), s.last())
    }
}

proof fn lemma_ins_post_at(s: Seq<PostSpec>, x: PostSpec, p: int)
    requires
        0 <= p <= s.len(),
        forall|j: int| p <= j < s.len() ==> !newer_first(time_of(#[trigger] s[j]), time_of(x)),
        p > 0 ==> newer_first(time_of(s[p - 1]), time_of(x)),
    ensures
        s.insert(p, x) == ins_post(s, x),
    decreases s.len(),
{
    if s.len() == 0 {
        assert(s.insert(p, x) =~= seq![x]);
    } else if p == s.len() {
        assert(s.insert(p, x) =~= s.push(x));
    } else {
        assert(!newer_first(time_of(s[s.len() - 1]), time_of(x)));
        lemma_ins_post_at(s.drop_last(), x, p);
        assert(s.insert(p, x) =~= s.drop_last().insert(p, x).push(s.last()));
    }
}

pub fn sort_newest_first(posts: Vec<Post>) -> (r: Vec<Post>)
    ensures
        post_views(r@) == isort_posts(post_views(posts@)),
        newest_first(post_views(r@)),
        r@.len() == posts@.len(),
        post_views(r@).to_multiset() == post_views(posts@).to_multiset(),
{
    let ghost orig = posts@;
    let mut rest = posts;
    let mut out: Vec<Post> = Vec::new();
    assert(post_views(out@) =~= post_views(orig.subrange(0, 0)));
    assert(rest@ =~= orig.subrange(0, orig.len() as int));
    while rest.len() > 0
        invariant
            newest_first(post_views(out@)),
            orig == posts@,
            out@.len() + rest@.len() == orig.len(),
            rest@ == orig.subrange(out@.len() as int, orig.len() as int),
            post_views(out@).to_multiset() == post_views(orig.subrange(0, out@.len() as int)).to_multiset(),
            post_views(out@) == isort_posts(post_views(orig.subrange(0, out@.len() as int))),
        decreases rest@.len(),
    {
        let ghost done = out@.len();
        let x = rest.remove(0);
        assert(x == orig[done as int]);
        let tx = x.time();
        let ghost before = out@;
        let ghost pvb = post_views(before);
        let mut p = out.len();
        while p > 0 && !newer_or_same(out[p - 1].time(), tx)
            invariant
                p <= out@.len(),
                out@ == before,
                pvb == post_views(before),
                tx == time_of(x@),
                forall|j: int| p <= j < out@.len() ==> !newer_first(time_of(#[trigger] out@[j]@), tx),
            decreases p,
        {
            p -= 1;
        }
        out.insert(p, x);
        proof {
            let pv = post_views(out@);
            assert forall|i: int| 0 <= i < pv.len() - 1 implies #[trigger] newer_first(time_of(pv[i]), time_of(pv[i + 1])) by {
                if i + 1 < p {
                    assert(pv[i] == pvb[i] && pv[i + 1] == pvb[i + 1]);
                } else if i + 1 == p {
                    assert(pv[i] == pvb[i]);
                } else if i == p {
                    assert(pv[i + 1] == pvb[i]);
                } else {
                    let j = i - 1;
                    assert(pv[i] == pvb[j] && pv[i + 1] == pvb[j + 1]);
                    assert(newer_first(time_of(pvb[j]), time_of(pvb[j + 1])));
                }
            }
            assert(rest@ =~= orig.subrange(out@.len() as int, orig.len() as int));
            assert(post_views(out@) =~= post_views(before).insert(p as int, x@));
            vstd::seq_lib::to_multiset_insert(post_views(before), p as int, x@);
            assert(post_views(orig.subrange(0, done as int + 1)) =~= post_views(orig.subrange(0, done as int)).push(x@));
            vstd::seq_lib::to_multiset_build(post_views(orig.subrange(0, done as int)), x@);
            lemma_ins_post_at(pvb, x@, p as int);
            assert(post_views(orig.subrange(0, done as int + 1)).drop_last() =~= post_views(orig.subrange(0, done as int)));
        }
    }
    assert(orig.subrange(0, orig.len() as int) =~= orig);
    out
}


/// `a` comes strictly before `b` in code point order, as `String`'s order
/// (byte order of UTF-8) ranks them.
pub open spec fn lex_lt(a: Seq<char>, b: Seq<char>) -> bool
    decreases a.len(),
{
    if a.len() == 0 {
        b.len() > 0
    } else if b.len() == 0 {
        false
    } else if a[0] != b[0] {
        a[0] < b[0]
    } else {
        lex_lt(a.drop_first(), b.drop_first())
    }
}

proof fn lemma_lex_total(a: Seq<char>, b: Seq<char>)
    ensures
        a == b || lex_lt(a, b) || lex_lt(b, a),
    decreases a.len(),
{
    if a.len() > 0 && b.len() > 0 && a[0] == b[0] {
        lemma_lex_total(a.drop_first(), b.drop_first());
        if a.drop_first() == b.drop_first() {
            assert(a =~= seq![a[0]] + a.drop_first());
            assert(b =~= seq![b[0]] + b.drop_first());
        }
    } else if a.len() == 0 && b.len() == 0 {
        assert(a =~= b);
    }
}

fn lex_less(a: &Vec<char>, b: &Vec<char>) -> (r: bool)
    ensures
        r == lex_lt(a@, b@),
{
    let mut i: usize = 0;
    assert(a@.subrange(0, a@.len() as int) =~= a@);
    assert(b@.subrange(0, b@.len() as int) =~= b@);
    while i < a.len() && i < b.len() && a[i] == b[i]
        invariant
            i <= a@.len(),
            i <= b@.len(),
            lex_lt(a@, b@) == lex_lt(a@.subrange(i as int, a@.len() as int), b@.subrange(i as int, b@.len() as int)),
        decreases a@.len() - i,
    {
        proof {
            let x = a@.subrange(i as int, a@.len() as int);
            let y = b@.subrange(i as int, b@.len() as int);
            assert(x.drop_first() =~= a@.subrange(i + 1, a@.len() as int));
            assert(y.drop_first() =~= b@.subrange(i + 1, b@.len() as int));
        }
        i += 1;
    }
    let ghost x = a@.subrange(i as int, a@.len() as int);
    let ghost y = b@.subrange(i as int, b@.len() as int);
    if i == a.len() {
        assert(x.len() == 0);
        i < b.len()
    } else if i == b.len() {
        false
    } else {
        assert(x[0] == a@[i as int] && y[0] == b@[i as int]);
        a[i] < b[i]
    }
}

/// Strictly increasing, so without repeats.
pub open spec fn strictly_sorted(v: Seq<Seq<char>>) -> bool {
    forall|i: int| 0 <= i < v.len() - 1 ==> #[trigger] lex_lt(v[i], v[i + 1])
}

/// An absent source, or one that `v` holds.
pub open spec fn listed(v: Seq<Seq<char>>, o: Option<Seq<char>>) -> bool {
    match o {
        Some(s) => v.contains(s),
        None => true,
    }
}

/// `s` is the source of one of the posts.
pub open spec fn is_source(ps: Seq<PostSpec>, s: Seq<char>) -> bool {
    exists|j: int| 0 <= j < ps.len() && #[trigger] ps[j].source == Some(s)
}

/// The author a followed document's posts are credited to.
pub open spec fn label(nick: Seq<char>) -> Seq<char> {
    if nick.len() == 0 {
        "unknown"@
    } else {
        nick
    }
}

/// Posts of a followed document, credited to its nick and marked with its address.
pub open spec fn sourced(ps: Seq<PostSpec>, nick: Seq<char>, src: Seq<char>) -> Seq<PostSpec> {
    ps.map_values(|p: PostSpec| PostSpec { author: Some(label(nick)), source: Some(src), ..p })
}

/// The posts of the followed documents, document by document.
pub open spec fn followed_posts(fs: Seq<(Profile, Vec<Post>, String)>) -> Seq<PostSpec>
    decreases fs.len(),
{
    if fs.len() == 0 {
        seq![]
    } else {
        followed_posts(fs.drop_last()) + sourced(post_views(fs.last().1@), fs.last().0@.nick, fs.last().2@)
    }
}

/// The profiles of the followed documents, in order.
pub open spec fn followed_profiles(fs: Seq<(Profile, Vec<Post>, String)>) -> Seq<ProfileSpec> {
    fs.map_values(|f: (Profile, Vec<Post>, String)| f.0@)
}

/// The posts with `nick` as their author.
pub open spec fn credited(ps: Seq<PostSpec>, nick: Seq<char>) -> Seq<PostSpec> {
    ps.map_values(|p: PostSpec| PostSpec { author: Some(nick), ..p })
}

/// The index of the first profile whose nick is the post's author, or 0.
pub open spec fn author_index(profiles: Seq<ProfileSpec>, author: Option<Seq<char>>, k: int) -> int
    decreases profiles.len() - k,
{
    if k < 0 || k >= profiles.len() {
        0
    } else if author == Some(profiles[k].nick) {
        k
    } else {
        author_index(profiles, author, k + 1)
    }
}

pub open spec fn profile_views(ps: Seq<Profile>) -> Seq<ProfileSpec> {
    ps.map_values(|p: Profile| p@)
}

fn find_author(profiles: &Vec<Profile>, author: &Option<String>) -> (r: usize)
    ensures
        r as int == author_index(profile_views(profiles@), ostr(*author), 0),
{
    let ghost pv = profile_views(profiles@);
    let mut k: usize = 0;
    while k < profiles.len()
        invariant
            k <= profiles@.len(),
            pv == profile_views(profiles@),
            author_index(pv, ostr(*author), 0) == author_index(pv, ostr(*author), k as int),
        decreases profiles@.len() - k,
    {
        match author {
            Some(a) => {
                if a.as_str().to_string().eq(&profiles[k].nick().to_string()) {
                    return k;
                }
            },
            None => {},
        }
        k += 1;
    }
    0
}

/// The profile index registered last for a post identifier.
pub open spec fn map_lookup(m: Seq<(Seq<char>, usize)>, id: Seq<char>) -> Option<usize>
    decreases m.len(),
{
    if m.len() == 0 {
        None
    } else if m.last().0 == id {
        Some(m.last().1)
    } else {
        map_lookup(m.drop_last(), id)
    }
}

pub open spec fn map_view(m: Seq<(String, usize)>) -> Seq<(Seq<char>, usize)> {
    m.map_values(|e: (String, usize)| (e.0@, e.1))
}

impl Feed {
    /// A feed from already gathered posts and profiles: the user's posts get
    /// the user's nick as author; each followed document's posts get its
    /// nick (or `unknown` when empty) as author and its address as source.
    /// Posts keep their order, the user's first; the profiles are the user's
    /// then the followed ones in order; each post identifier maps to the first
    /// profile whose nick is the post's author, else the user's.
    pub fn assemble(
        user_profile: &Profile,
        user_posts: Vec<Post>,
        followed: Vec<(Profile, Vec<Post>, String)>,
    ) -> (r: Feed)
        ensures
            post_views(r.posts@) == credited(post_views(user_posts@), user_profile@.nick) + followed_posts(followed@),
            profile_views(r.profiles@) == seq![user_profile@] + followed_profiles(followed@),
            r.profile_map@.len() == r.posts@.len(),
            forall|k: int| 0 <= k < r.profile_map@.len() ==> (#[trigger] r.profile_map@[k]).0@ == r.posts@[k]@.id
                && r.profile_map@[k].1 as int == author_index(profile_views(r.profiles@), r.posts@[k]@.author, 0),
    {
        let ghost nick = user_profile@.nick;
        let ghost ups = post_views(user_posts@);
        let mut profiles: Vec<Profile> = Vec::new();
        profiles.push(user_profile.clone_profile());
        assert(profile_views(profiles@) =~= seq![user_profile@]);
        let mut all_posts: Vec<Post> = Vec::new();
        let mut rest_posts = user_posts;
        let ghost total = rest_posts@.len();
        while rest_posts.len() > 0
            invariant
                profile_views(profiles@) == seq![user_profile@],
                all_posts@.len() + rest_posts@.len() == total,
                ups.len() == total,
                nick == user_profile@.nick,
                post_views(rest_posts@) == ups.subrange(all_posts@.len() as int, total as int),
                post_views(all_posts@) == credited(ups.subrange(0, all_posts@.len() as int), nick),
            decreases rest_posts@.len(),
        {
            let ghost i = all_posts@.len() as int;
            let ghost r0 = rest_posts@;
            let ghost a0 = all_posts@;
            let mut post = rest_posts.remove(0);
            assert(post_views(r0)[0] == post@);
            post.set_author(user_profile.nick().to_string());
            all_posts.push(post);
            proof {
                assert(rest_posts@ =~= r0.subrange(1, r0.len() as int));
                assert(post_views(rest_posts@) =~= post_views(r0).subrange(1, r0.len() as int));
                assert(ups.subrange(0, i + 1) =~= ups.subrange(0, i).push(ups[i]));
                assert(post_views(all_posts@) =~= post_views(a0).push(post@));
                assert(credited(ups.subrange(0, i + 1), nick) =~= credited(ups.subrange(0, i), nick).push(PostSpec { author: Some(nick), ..ups[i] }));
            }
        }
        assert(ups.subrange(0, total as int) =~= ups);
        let ghost base = post_views(all_posts@);
        let ghost fs = followed@;
        let mut rest = followed;
        let ghost n_followed = rest@.len();
        assert(fs.subrange(0, 0) =~= Seq::<(Profile, Vec<Post>, String)>::empty());
        assert(post_views(all_posts@) =~= base + followed_posts(fs.subrange(0, 0)));
        assert(profile_views(profiles@) =~= seq![user_profile@] + followed_profiles(fs.subrange(0, 0)));
        while rest.len() > 0
            invariant
                profiles@.len() + rest@.len() == n_followed + 1,
                rest@.len() <= n_followed,
                fs.len() == n_followed,
                rest@ == fs.subrange(n_followed - rest@.len(), n_followed as int),
                post_views(all_posts@) == base + followed_posts(fs.subrange(0, n_followed - rest@.len())),
                profile_views(profiles@) == seq![user_profile@] + followed_profiles(fs.subrange(0, n_followed - rest@.len())),
            decreases rest@.len(),
        {
            let ghost i = n_followed - rest@.len();
            let ghost r0 = rest@;
            let (profile, posts, source) = rest.remove(0);
            let ghost f = fs[i];
            assert(r0[0] == f);
            assert(rest@ =~= fs.subrange(i + 1, n_followed as int));
            let author_nick = if profile.nick().unicode_len() == 0 {
                String::from_str("unknown")
            } else {
                profile.nick().to_string()
            };
            assert(author_nick@ == label(profile@.nick));
            let ghost start = post_views(all_posts@);
            let ghost pv = post_views(posts@);
            let mut ps = posts;
            let ghost pt = ps@.len();
            while ps.len() > 0
                invariant
                    pv.len() == pt,
                    ps@.len() <= pt,
                    post_views(ps@) == pv.subrange(pt - ps@.len(), pt as int),
                    post_views(all_posts@) == start + sourced(pv.subrange(0, pt - ps@.len()), profile@.nick, source@),
                    author_nick@ == label(profile@.nick),
                decreases ps@.len(),
            {
                let ghost j = pt - ps@.len();
                let ghost q0 = ps@;
                let ghost a0 = all_posts@;
                let mut post = ps.remove(0);
                assert(post_views(q0)[0] == post@);
                assert(post@ == pv[j]);
                post.set_author(author_nick.clone());
                post.set_source(Some(source.clone()));
                all_posts.push(post);
                proof {
                    assert(ps@ =~= q0.subrange(1, q0.len() as int));
                    assert(post_views(ps@) =~= post_views(q0).subrange(1, q0.len() as int));
                    assert(pv.subrange(0, j + 1) =~= pv.subrange(0, j).push(pv[j]));
                    assert(post_views(all_posts@) =~= post_views(a0).push(post@));
                    assert(sourced(pv.subrange(0, j + 1), profile@.nick, source@) =~= sourced(pv.subrange(0, j), profile@.nick, source@).push(
                        PostSpec { author: Some(label(profile@.nick)), source: Some(source@), ..pv[j] }));
                }
            }
            assert(pv.subrange(0, pt as int) =~= pv);
            let ghost p0 = profiles@;
            profiles.push(profile);
            proof {
                assert(fs.subrange(0, i + 1).drop_last() =~= fs.subrange(0, i));
                assert(fs.subrange(0, i + 1).last() == f);
                assert(profile_views(profiles@) =~= profile_views(p0).push(f.0@));
                assert(followed_profiles(fs.subrange(0, i + 1)) =~= followed_profiles(fs.subrange(0, i)).push(f.0@));
            }
        }
        assert(fs.subrange(0, n_followed as int) =~= fs);
        let profile_map = Self::map_authors(&all_posts, &profiles);
        Feed { posts: all_posts, profiles, profile_map }
    }

    fn map_authors(posts: &Vec<Post>, profiles: &Vec<Profile>) -> (r: Vec<(String, usize)>)
        ensures
            r@.len() == posts@.len(),
            forall|k: int| 0 <= k < r@.len() ==> (#[trigger] r@[k]).0@ == posts@[k]@.id
                && r@[k].1 as int == author_index(profile_views(profiles@), posts@[k]@.author, 0),
    {
        let mut m: Vec<(String, usize)> = Vec::new();
        let mut k: usize = 0;
        while k < posts.len()
            invariant
                k <= posts@.len(),
                m@.len() == k,
                forall|j: int| 0 <= j < m@.len() ==> (#[trigger] m@[j]).0@ == posts@[j]@.id
                    && m@[j].1 as int == author_index(profile_views(profiles@), posts@[j]@.author, 0),
            decreases posts@.len() - k,
        {
            let idx = find_author(profiles, posts[k].author());
            m.push((posts[k].id().to_string(), idx));
            k += 1;
        }
        m
    }

    /// The user's own posts as a feed, newest first, all credited to the user.
    pub fn create_user_feed(user_profile: &Profile, user_posts: Vec<Post>) -> (r: Feed)
        ensures
            newest_first(post_views(r.posts@)),
            post_views(r.posts@).to_multiset() == credited(post_views(user_posts@), user_profile@.nick).to_multiset(),
            post_views(r.posts@) == isort_posts(credited(post_views(user_posts@), user_profile@.nick)),
            forall|k: int| 0 <= k < r.posts@.len() ==> (#[trigger] r.posts@[k])@.author == Some(user_profile@.nick),
            r.profiles@.len() == 1,
            r.profiles@[0]@ == user_profile@,
            r.profile_map@.len() == r.posts@.len(),
            forall|k: int| 0 <= k < r.profile_map@.len() ==> (#[trigger] r.profile_map@[k]).0@ == r.posts@[k]@.id && r.profile_map@[k].1 == 0,
    {
        let ghost orig = post_views(user_posts@);
        let ghost nick = user_profile@.nick;
        let mut posts: Vec<Post> = Vec::new();
        let mut rest = user_posts;
        let ghost total = rest@.len();
        while rest.len() > 0
            invariant
                posts@.len() + rest@.len() == total,
                orig.len() == total,
                nick == user_profile@.nick,
                post_views(rest@) == orig.subrange(posts@.len() as int, total as int),
                post_views(posts@) == credited(orig.subrange(0, posts@.len() as int), nick),
            decreases rest@.len(),
        {
            let ghost i = posts@.len() as int;
            let ghost r0 = rest@;
            let ghost p0 = posts@;
            let mut post = rest.remove(0);
            assert(post_views(r0)[0] == post@);
            assert(post@ == orig[i]);
            post.set_author(user_profile.nick().to_string());
            posts.push(post);
            proof {
                assert(rest@ =~= r0.subrange(1, r0.len() as int));
                assert(post_views(rest@) =~= post_views(r0).subrange(1, r0.len() as int));
                assert(post_views(rest@) =~= orig.subrange(i + 1, total as int));
                assert(orig.subrange(0, i + 1) =~= orig.subrange(0, i).push(orig[i]));
                assert(post_views(posts@) =~= post_views(p0).push(post@));
                assert(credited(orig.subrange(0, i + 1), nick) =~= credited(orig.subrange(0, i), nick).push(PostSpec { author: Some(nick), ..orig[i] }));
            }
        }
        assert(orig.subrange(0, total as int) =~= orig);
        let ghost unsorted = post_views(posts@);
        let posts = sort_newest_first(posts);
        proof {
            assert forall|k: int| 0 <= k < posts@.len() implies (#[trigger] posts@[k])@.author == Some(nick) by {
                assert(post_views(posts@)[k] == posts@[k]@);
                crate::threading::lemma_in_multiset(post_views(posts@), unsorted, k);
                let m = choose|m: int| 0 <= m < unsorted.len() && unsorted[m] == post_views(posts@)[k];
            }
        }
        let mut profiles: Vec<Profile> = Vec::new();
        profiles.push(user_profile.clone_profile());
        let profile_map = Self::map_authors(&posts, &profiles);
        proof {
            assert forall|k: int| 0 <= k < profile_map@.len() implies (#[trigger] profile_map@[k]).0@ == posts@[k]@.id && profile_map@[k].1 == 0 by {
                assert(profile_views(profiles@)[0] == user_profile@);
                assert(author_index(profile_views(profiles@), posts@[k]@.author, 1) == 0);
            }
        }
        Feed { posts, profiles, profile_map }
    }

    /// Posts whose time lies within `[start, end]`, in feed order.
    pub fn posts_in_range(&self, start: Moment, end: Moment) -> (r: Vec<Post>)
        ensures
            post_views(r@) == posts_within(post_views(self.posts@), start, end),
    {
        let ghost ps = post_views(self.posts@);
        let mut out: Vec<Post> = Vec::new();
        let mut k: usize = 0;
        while k < self.posts.len()
            invariant
                k <= self.posts@.len(),
                ps == post_views(self.posts@),
                post_views(out@) == posts_within(ps.subrange(0, k as int), start, end),
            decreases self.posts@.len() - k,
        {
            let ghost o0 = out@;
            proof {
                assert(ps.subrange(0, k + 1).drop_last() =~= ps.subrange(0, k as int));
                assert(ps.subrange(0, k + 1).last() == self.posts@[k as int]@);
            }
            match self.posts[k].time() {
                Some(t) => {
                    if !is_earlier(t, start) && !is_earlier(end, t) {
                        let p = self.posts[k].duplicate();
                        out.push(p);
                        assert(post_views(out@) =~= post_views(o0).push(p@));
                    }
                },
                None => {},
            }
            k += 1;
        }
        assert(ps.subrange(0, self.posts@.len() as int) =~= ps);
        out
    }

    /// The first `limit` posts.
    pub fn get_recent_posts(&self, limit: usize) -> (r: Vec<Post>)
        ensures
            r@.len() == if limit < self.posts@.len() { limit as int } else { self.posts@.len() as int },
            forall|k: int| 0 <= k < r@.len() ==> (#[trigger] r@[k])@ == self.posts@[k]@,
    {
        let mut out: Vec<Post> = Vec::new();
        let mut k: usize = 0;
        while k < self.posts.len() && k < limit
            invariant
                k <= self.posts@.len(),
                k <= limit,
                out@.len() == k,
                forall|j: int| 0 <= j < out@.len() ==> (#[trigger] out@[j])@ == self.posts@[j]@,
            decreases self.posts@.len() - k,
        {
            out.push(self.posts[k].duplicate());
            k += 1;
        }
        out
    }

    /// The posts whose source is `source`, in feed order.
    pub fn posts_from_source(&self, source: &str) -> (r: Vec<Post>)
        ensures
            post_views(r@) == posts_of_source(post_views(self.posts@), source@),
    {
        let ghost ps = post_views(self.posts@);
        let mut out: Vec<Post> = Vec::new();
        let mut k: usize = 0;
        while k < self.posts.len()
            invariant
                k <= self.posts@.len(),
                ps == post_views(self.posts@),
                post_views(out@) == posts_of_source(ps.subrange(0, k as int), source@),
            decreases self.posts@.len() - k,
        {
            let ghost o0 = out@;
            proof {
                assert(ps.subrange(0, k + 1).drop_last() =~= ps.subrange(0, k as int));
                assert(ps.subrange(0, k + 1).last() == self.posts@[k as int]@);
            }
            let src = self.posts[k].source();
            match src {
                Some(s) => {
                    if s.eq(&source.to_string()) {
                        let p = self.posts[k].duplicate();
                        out.push(p);
                        assert(post_views(out@) =~= post_views(o0).push(p@));
                    }
                },
                None => {},
            }
            k += 1;
        }
        assert(ps.subrange(0, self.posts@.len() as int) =~= ps);
        out
    }

    /// The sources of the posts, each once, in ascending order.
    pub fn sources(&self) -> (r: Vec<String>)
        ensures
            strictly_sorted(string_views(r@)),
            forall|k: int| 0 <= k < r@.len() ==> is_source(post_views(self.posts@), #[trigger] r@[k]@),
            forall|j: int| 0 <= j < self.posts@.len() ==> listed(string_views(r@), (#[trigger] self.posts@[j])@.source),
    {
        let ghost ps = post_views(self.posts@);
        let mut out: Vec<String> = Vec::new();
        let mut keys: Vec<Vec<char>> = Vec::new();
        let mut k: usize = 0;
        while k < self.posts.len()
            invariant
                k <= self.posts@.len(),
                ps == post_views(self.posts@),
                out@.len() == keys@.len(),
                forall|i: int| 0 <= i < keys@.len() ==> (#[trigger] keys@[i])@ == out@[i]@,
                strictly_sorted(string_views(out@)),
                forall|i: int| 0 <= i < out@.len() ==> is_source(ps, #[trigger] out@[i]@),
                forall|j: int| 0 <= j < k ==> listed(string_views(out@), (#[trigger] self.posts@[j])@.source),
            decreases self.posts@.len() - k,
        {
            assert(ps[k as int] == self.posts@[k as int]@);
            let src = self.posts[k].source();
            match src {
                Some(s) => {
                    let x = chars_of(s.as_str());
                    let mut p: usize = 0;
                    while p < keys.len() && lex_less(&keys[p], &x)
                        invariant
                            p <= keys@.len(),
                            forall|i: int| 0 <= i < p ==> lex_lt(#[trigger] keys@[i]@, x@),
                        decreases keys@.len() - p,
                    {
                        p += 1;
                    }
                    let ghost before = out@;
                    let ghost sv = string_views(before);
                    assert(forall|i: int| 0 <= i < p ==> lex_lt(#[trigger] sv[i], x@)) by {
                        assert forall|i: int| 0 <= i < p implies lex_lt(#[trigger] sv[i], x@) by {
                            assert(keys@[i]@ == out@[i]@);
                        }
                    };
                    if p < keys.len() && crate::blocks::same_chars(&keys[p], &x) {
                        proof {
                            assert(sv[p as int] == x@);
                            assert(string_views(out@).contains(s@));
                        }
                    } else {
                        proof {
                            if p < keys@.len() {
                                lemma_lex_total(keys@[p as int]@, x@);
                                assert(keys@[p as int]@ == sv[p as int]);
                            }
                        }
                        let entry = s.clone();
                        out.insert(p, entry);
                        keys.insert(p, x);
                        proof {
                            let nv = string_views(out@);
                            assert(nv =~= sv.insert(p as int, x@));
                            assert forall|i: int| 0 <= i < nv.len() - 1 implies #[trigger] lex_lt(nv[i], nv[i + 1]) by {
                                if i + 1 < p {
                                    assert(lex_lt(sv[i], sv[i + 1]));
                                } else if i + 1 == p {
                                } else if i == p {
                                } else {
                                    let j = i - 1;
                                    assert(lex_lt(sv[j], sv[j + 1]));
                                }
                            }
                            assert(is_source(ps, x@)) by {
                                assert(ps[k as int].source == Some(x@));
                            }
                            assert forall|i: int| 0 <= i < out@.len() implies is_source(ps, #[trigger] out@[i]@) by {
                                if i < p {
                                    assert(out@[i] == before[i]);
                                } else if i > p {
                                    assert(out@[i] == before[i - 1]);
                                }
                            }
                            assert forall|i: int| 0 <= i < keys@.len() implies (#[trigger] keys@[i])@ == out@[i]@ by {}
                            assert forall|j: int| 0 <= j < k + 1 implies listed(string_views(out@), (#[trigger] self.posts@[j])@.source) by {
                                if j < k {
                                    if let Some(t) = self.posts@[j]@.source {
                                        assert(sv.contains(t));
                                        let w = choose|w: int| 0 <= w < sv.len() && sv[w] == t;
                                        if w < p {
                                            assert(nv[w] == t);
                                        } else {
                                            assert(nv[w + 1] == t);
                                        }
                                    }
                                } else {
                                    assert(nv[p as int] == x@);
                                }
                            }
                        }
                    }
                },
                None => {},
            }
            k += 1;
        }
        out
    }

    pub fn len(&self) -> (r: usize)
        ensures
            r == self.posts@.len(),
    {
        self.posts.len()
    }

    pub fn is_empty(&self) -> (r: bool)
        ensures
            r == (self.posts@.len() == 0),
    {
        self.posts.len() == 0
    }

    /// The profile at the index registered last for the post's identifier;
    /// none when the identifier is not registered or the index names no profile.
    pub fn profile_for_post(&self, post: &Post) -> (r: Option<&Profile>)
        ensures
            match map_lookup(map_view(self.profile_map@), post@.id) {
                Some(i) => if (i as int) < self.profiles@.len() {
                    r matches Some(p) && *p == self.profiles@[i as int]
                } else {
                    r is None
                },
                None => r is None,
            },
    {
        let mut k = self.profile_map.len();
        assert(self.profile_map@.subrange(0, k as int) =~= self.profile_map@);
        while k > 0
            invariant
                k <= self.profile_map@.len(),
                map_lookup(map_view(self.profile_map@), post@.id) == map_lookup(map_view(self.profile_map@.subrange(0, k as int)), post@.id),
            decreases k,
        {
            let ghost t = map_view(self.profile_map@.subrange(0, k as int));
            assert(t.drop_last() =~= map_view(self.profile_map@.subrange(0, k - 1)));
            assert(t.last() == (self.profile_map@[k - 1].0@, self.profile_map@[k - 1].1));
            if self.profile_map[k - 1].0.eq(&post.id().to_string()) {
                let idx = self.profile_map[k - 1].1;
                if idx < self.profiles.len() {
                    return Some(&self.profiles[idx]);
                }
                return None;
            }
            k -= 1;
        }
        None
    }
}

} // verus!
