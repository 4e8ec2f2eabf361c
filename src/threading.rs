//! Conversation threads: a forest of reply trees built from a flat list of
//! posts, with placeholders for missing parents, kept in recency order.
use vstd::prelude::*;
use vstd::multiset::Multiset;
use vstd::string::StringExecFns;
use crate::text::{chars_of, string_of, string_views};
use crate::post::{Post, PostSpec, full_id_of, time_of, fresh_post, after_hash, last_index};
use crate::util::{Moment, earlier, later_of, opt_is_earlier};
use crate::feed::Feed;
use crate::poll::{Poll, option_texts, votes_cast};

verus! {

broadcast use vstd::std_specs::vec::axiom_vec_index_decreases;

/// A post with its direct replies.
pub struct ThreadNode {
    /// The post at this node.
    pub post: Post,
    /// Direct replies, oldest activity first.
    pub replies: Vec<ThreadNode>,
    /// Distance from the root (0 for a root).
    pub depth: usize,
    /// The latest time in this subtree.
    pub latest_activity_time: Option<Moment>,
}

/// A forest of conversations, newest activity first.
pub struct ThreadView {
    /// The roots of the forest.
    pub roots: Vec<ThreadNode>,
    /// Bare identifier to full identifier, later entries overriding earlier ones.
    pub id_map: Vec<(String, String)>,
}

// ---------------------------------------------------------------------------
// Activity and order.
// ---------------------------------------------------------------------------

/// The latest of `acc` and the stored times of `rs`, scanning left to right
/// and replacing only on a strictly later time.
pub open spec fn fold_latest(rs: Seq<ThreadNode>, acc: Option<Moment>) -> Option<Moment>
    decreases rs.len(),
{
    if rs.len() == 0 {
        acc
    } else {
        fold_latest(rs.drop_first(), later_of(acc, rs[0].latest_activity_time))
    }
}

/// The latest time of a node: its own post's time or any reply's.
pub open spec fn own_latest(n: ThreadNode) -> Option<Moment> {
    fold_latest(n.replies@, time_of(n.post@))
}

/// `a` may stand before `b` among replies: oldest first, timeless last.
pub open spec fn reply_order(a: Option<Moment>, b: Option<Moment>) -> bool {
    match (a, b) {
        (Some(x), Some(y)) => !earlier(y, x),
        (Some(_), None) => true,
        (None, Some(_)) => false,
        (None, None) => true,
    }
}

/// `a` may stand before `b` among roots: newest first, timeless last.
pub open spec fn root_order(a: Option<Moment>, b: Option<Moment>) -> bool {
    match (a, b) {
        (Some(x), Some(y)) => !earlier(x, y),
        (Some(_), None) => true,
        (None, Some(_)) => false,
        (None, None) => true,
    }
}

/// Neighbouring nodes stand in the given order.
pub open spec fn ordered(rs: Seq<ThreadNode>, roots: bool) -> bool {
    forall|i: int|
        0 <= i < rs.len() - 1 ==> #[trigger] pair_ordered(rs[i], rs[i + 1], roots)
}

pub open spec fn pair_ordered(a: ThreadNode, b: ThreadNode, roots: bool) -> bool {
    if roots {
        root_order(a.latest_activity_time, b.latest_activity_time)
    } else {
        reply_order(a.latest_activity_time, b.latest_activity_time)
    }
}

/// Every node of the subtree holds its latest time, computed over its replies
/// in their present order, and its replies stand oldest first.
pub open spec fn settled(n: ThreadNode) -> bool
    decreases n,
{
    &&& n.latest_activity_time == own_latest(n)
    &&& ordered(n.replies@, false)
    &&& forall|k: int| 0 <= k < n.replies@.len() ==> settled(#[trigger] n.replies@[k])
}

/// Two subtrees with the same posts and depths, replies in the same order;
/// times may differ.
pub open spec fn same_shape(a: ThreadNode, b: ThreadNode) -> bool
    decreases a,
{
    &&& a.post@ == b.post@
    &&& a.depth == b.depth
    &&& a.replies@.len() == b.replies@.len()
    &&& forall|k: int|
        #![trigger a.replies@[k]]
        0 <= k < a.replies@.len() ==> same_shape(a.replies@[k], b.replies@[k])
}

/// At every node of the subtree the replies stand oldest first.
pub open spec fn replies_sorted(n: ThreadNode) -> bool
    decreases n,
{
    &&& ordered(n.replies@, false)
    &&& forall|k: int| 0 <= k < n.replies@.len() ==> replies_sorted(#[trigger] n.replies@[k])
}

/// Every node of the subtree holds its latest time.
pub open spec fn activity_ok(n: ThreadNode) -> bool
    decreases n,
{
    &&& n.latest_activity_time == own_latest(n)
    &&& forall|k: int| 0 <= k < n.replies@.len() ==> activity_ok(#[trigger] n.replies@[k])
}

/// Every reply sits one level below its parent.
pub open spec fn depth_ok(n: ThreadNode) -> bool
    decreases n,
{
    forall|k: int|
        0 <= k < n.replies@.len() ==> (#[trigger] n.replies@[k]).depth == n.depth + 1 && depth_ok(
            n.replies@[k],
        )
}

/// Two subtrees with the same posts, depths and times, in the same order.
pub open spec fn same_tree(a: ThreadNode, b: ThreadNode) -> bool
    decreases a,
{
    &&& a.post@ == b.post@
    &&& a.depth == b.depth
    &&& a.latest_activity_time == b.latest_activity_time
    &&& a.replies@.len() == b.replies@.len()
    &&& forall|k: int|
        #![trigger a.replies@[k]]
        0 <= k < a.replies@.len() ==> same_tree(a.replies@[k], b.replies@[k])
}

pub open spec fn same_forest(a: Seq<ThreadNode>, b: Seq<ThreadNode>) -> bool {
    a.len() == b.len() && forall|k: int| 0 <= k < a.len() ==> same_tree(#[trigger] a[k], b[k])
}

/// The number of posts in a subtree.
pub open spec fn count(n: ThreadNode) -> nat
    decreases n,
{
    1 + count_from(n, 0)
}

pub open spec fn count_from(n: ThreadNode, k: int) -> nat
    decreases n, n.replies@.len() - k,
{
    if k < 0 || k >= n.replies@.len() {
        0
    } else {
        count(n.replies@[k]) + count_from(n, k + 1)
    }
}


/// The posts of a subtree, each before its replies, replies in order.
pub open spec fn preorder(n: ThreadNode) -> Seq<PostSpec>
    decreases n,
{
    seq![n.post@] + preorder_from(n, 0)
}

pub open spec fn preorder_from(n: ThreadNode, k: int) -> Seq<PostSpec>
    decreases n, n.replies@.len() - k,
{
    if k < 0 || k >= n.replies@.len() {
        seq![]
    } else {
        preorder(n.replies@[k]) + preorder_from(n, k + 1)
    }
}

/// The posts of a forest, tree by tree.
pub open spec fn forest_posts(rs: Seq<ThreadNode>) -> Seq<PostSpec>
    decreases rs.len(),
{
    if rs.len() == 0 {
        seq![]
    } else {
        forest_posts(rs.drop_last()) + preorder(rs.last())
    }
}

/// The number of posts of a forest.
pub open spec fn forest_count(rs: Seq<ThreadNode>) -> nat
    decreases rs.len(),
{
    if rs.len() == 0 {
        0
    } else {
        forest_count(rs.drop_last()) + count(rs.last())
    }
}


/// The posts of a subtree, as a multiset.
pub open spec fn posts_ms(n: ThreadNode) -> Multiset<PostSpec>
    decreases n,
{
    Multiset::singleton(n.post@).add(kids_ms(n, 0))
}

pub open spec fn kids_ms(n: ThreadNode, k: int) -> Multiset<PostSpec>
    decreases n, n.replies@.len() - k,
{
    if k < 0 || k >= n.replies@.len() {
        Multiset::empty()
    } else {
        posts_ms(n.replies@[k]).add(kids_ms(n, k + 1))
    }
}

/// The posts of a forest, as a multiset.
pub open spec fn seq_ms(rs: Seq<ThreadNode>) -> Multiset<PostSpec>
    decreases rs.len(),
{
    if rs.len() == 0 {
        Multiset::empty()
    } else {
        seq_ms(rs.drop_last()).add(posts_ms(rs.last()))
    }
}

/// Some node of the subtree has `t` as its full identifier.
pub open spec fn has_full_id(n: ThreadNode, t: Seq<char>) -> bool
    decreases n,
{
    full_id_of(n.post@) == t || exists|k: int|
        0 <= k < n.replies@.len() && has_full_id(#[trigger] n.replies@[k], t)
}

/// Some node of the forest has `t` as its full identifier.
pub open spec fn forest_has(rs: Seq<ThreadNode>, t: Seq<char>) -> bool {
    exists|k: int| 0 <= k < rs.len() && has_full_id(#[trigger] rs[k], t)
}

proof fn lemma_seq_ms_front(x: ThreadNode, s: Seq<ThreadNode>)
    ensures
        seq_ms(seq![x] + s) == posts_ms(x).add(seq_ms(s)),
    decreases s.len(),
{
    broadcast use vstd::multiset::group_multiset_axioms;
    if s.len() == 0 {
        assert((seq![x] + s).drop_last() =~= Seq::<ThreadNode>::empty());
        assert((seq![x] + s).last() == x);
        assert(seq_ms(Seq::<ThreadNode>::empty()) == Multiset::<PostSpec>::empty());
        assert(seq_ms(s) == Multiset::<PostSpec>::empty());
        assert(seq_ms(seq![x] + s) == seq_ms(Seq::<ThreadNode>::empty()).add(posts_ms(x)));
        assert(seq_ms(seq![x] + s) =~= posts_ms(x).add(seq_ms(s)));
    } else {
        lemma_seq_ms_front(x, s.drop_last());
        assert((seq![x] + s).drop_last() =~= seq![x] + s.drop_last());
        assert((seq![x] + s).last() == s.last());
        assert(seq_ms(seq![x] + s) =~= posts_ms(x).add(seq_ms(s)));
    }
}

proof fn lemma_kids_ms(n: ThreadNode, k: int)
    requires
        0 <= k <= n.replies@.len(),
    ensures
        kids_ms(n, k) == seq_ms(n.replies@.subrange(k, n.replies@.len() as int)),
    decreases n.replies@.len() - k,
{
    let r = n.replies@;
    if k == r.len() {
        assert(r.subrange(k, r.len() as int) =~= Seq::<ThreadNode>::empty());
    } else {
        lemma_kids_ms(n, k + 1);
        assert(r.subrange(k, r.len() as int) =~= seq![r[k]] + r.subrange(k + 1, r.len() as int));
        lemma_seq_ms_front(r[k], r.subrange(k + 1, r.len() as int));
    }
}

/// The posts of a node: its own and those under its replies.
proof fn lemma_posts_ms(n: ThreadNode)
    ensures
        posts_ms(n) == Multiset::singleton(n.post@).add(seq_ms(n.replies@)),
{
    lemma_kids_ms(n, 0);
    assert(n.replies@.subrange(0, n.replies@.len() as int) =~= n.replies@);
}

proof fn lemma_seq_ms_same(a: Seq<ThreadNode>, b: Seq<ThreadNode>)
    requires
        a.len() == b.len(),
        forall|k: int| 0 <= k < a.len() ==> posts_ms(#[trigger] a[k]) == posts_ms(b[k]),
    ensures
        seq_ms(a) == seq_ms(b),
    decreases a.len(),
{
    if a.len() > 0 {
        assert(posts_ms(a[a.len() - 1]) == posts_ms(b[b.len() - 1]));
        lemma_seq_ms_same(a.drop_last(), b.drop_last());
    }
}

proof fn lemma_seq_ms_remove(b: Seq<ThreadNode>, j: int)
    requires
        0 <= j < b.len(),
    ensures
        seq_ms(b) == seq_ms(b.remove(j)).add(posts_ms(b[j])),
    decreases b.len(),
{
    broadcast use vstd::multiset::group_multiset_axioms;
    if j == b.len() - 1 {
        assert(b.remove(j) =~= b.drop_last());
    } else {
        lemma_seq_ms_remove(b.drop_last(), j);
        assert(b.remove(j).drop_last() =~= b.drop_last().remove(j));
        assert(b.remove(j).last() == b.last());
        assert(seq_ms(b) =~= seq_ms(b.remove(j)).add(posts_ms(b[j])));
    }
}

/// Reordering a forest keeps its posts.
proof fn lemma_seq_ms_perm(a: Seq<ThreadNode>, b: Seq<ThreadNode>)
    requires
        a.to_multiset() == b.to_multiset(),
    ensures
        seq_ms(a) == seq_ms(b),
    decreases a.len(),
{
    broadcast use vstd::multiset::group_multiset_axioms;
    broadcast use vstd::seq_lib::to_multiset_len, vstd::seq_lib::to_multiset_remove, vstd::seq_lib::to_multiset_contains;
    if a.len() == 0 {
        assert(a.to_multiset().len() == a.len());
        assert(b.to_multiset().len() == b.len());
        assert(b.len() == 0);
        assert(b =~= Seq::<ThreadNode>::empty());
        assert(a =~= Seq::<ThreadNode>::empty());
    } else {
        let x = a.last();
        lemma_in_multiset(a, b, a.len() - 1);
        let j = choose|m: int| 0 <= m < b.len() && b[m] == x;
        assert(a.remove(a.len() - 1) =~= a.drop_last());
        assert(a.drop_last().to_multiset() == a.to_multiset().remove(x));
        assert(b.remove(j).to_multiset() == b.to_multiset().remove(x));
        lemma_seq_ms_perm(a.drop_last(), b.remove(j));
        lemma_seq_ms_remove(b, j);
    }
}

/// The first node of `rs` at or after `j` whose subtree has `t` as a full
/// identifier.
pub open spec fn first_has(rs: Seq<ThreadNode>, t: Seq<char>, j: int) -> Option<int>
    decreases rs.len() - j,
{
    if j < 0 || j >= rs.len() {
        None
    } else if has_full_id(rs[j], t) {
        Some(j)
    } else {
        first_has(rs, t, j + 1)
    }
}

proof fn lemma_first_has(rs: Seq<ThreadNode>, t: Seq<char>, j: int)
    requires
        0 <= j,
    ensures
        first_has(rs, t, j) matches Some(k) ==> j <= k < rs.len() && has_full_id(rs[k], t),
        first_has(rs, t, j) is None ==> forall|k: int| j <= k < rs.len() ==> !has_full_id(#[trigger] rs[k], t),
    decreases rs.len() - j,
{
    if j < rs.len() && !has_full_id(rs[j], t) {
        lemma_first_has(rs, t, j + 1);
    }
}

/// The same subtree: the very same posts, depths and times at every node.
pub open spec fn same_node(a: ThreadNode, b: ThreadNode) -> bool
    decreases a,
{
    &&& a.post == b.post
    &&& a.depth == b.depth
    &&& a.latest_activity_time == b.latest_activity_time
    &&& a.replies@.len() == b.replies@.len()
    &&& forall|j: int| 0 <= j < a.replies@.len() ==> same_node(#[trigger] a.replies@[j], b.replies@[j])
}

proof fn lemma_same_node_refl(a: ThreadNode)
    ensures
        same_node(a, a),
    decreases a,
{
    assert forall|j: int| 0 <= j < a.replies@.len() implies same_node(#[trigger] a.replies@[j], a.replies@[j]) by {
        lemma_same_node_refl(a.replies@[j]);
    }
}

/// `b` is `a` with a new reply of post `p` (and no replies of its own) put
/// under the first node, depth first, whose full identifier is `t`, one
/// level below it; every other node is left as it was.
pub open spec fn grafted(a: ThreadNode, b: ThreadNode, t: Seq<char>, p: PostSpec) -> bool
    decreases a,
{
    &&& b.post == a.post
    &&& b.depth == a.depth
    &&& b.latest_activity_time == a.latest_activity_time
    &&& if full_id_of(a.post@) == t {
        &&& b.replies@.len() == a.replies@.len() + 1
        &&& forall|j: int| 0 <= j < a.replies@.len() ==> #[trigger] b.replies@[j] == a.replies@[j]
        &&& b.replies@.last().post@ == p
        &&& b.replies@.last().replies@.len() == 0
        &&& a.depth < usize::MAX ==> b.replies@.last().depth == a.depth + 1
    } else {
        &&& b.replies@.len() == a.replies@.len()
        &&& match first_has(a.replies@, t, 0) {
            Some(k) => 0 <= k < a.replies@.len() && (forall|j: int|
                0 <= j < a.replies@.len() && j != k ==> same_node(#[trigger] b.replies@[j], a.replies@[j]))
                && grafted(a.replies@[k], b.replies@[k], t, p),
            None => false,
        }
    }
}

/// `b` is the forest `a` with a post `p` added for a reply to `t`: under the
/// first node, depth first, whose full identifier is `t`, one level below
/// it; failing that, as the only reply (at depth 1) of a new placeholder root
/// for `t`.
pub open spec fn forest_grafted(a: Seq<ThreadNode>, b: Seq<ThreadNode>, t: Seq<char>, p: PostSpec) -> bool {
    match first_has(a, t, 0) {
        Some(k) => 0 <= k < a.len() && b.len() == a.len() && (forall|j: int|
            0 <= j < a.len() && j != k ==> same_node(#[trigger] b[j], a[j])) && grafted(a[k], b[k], t, p),
        None => {
            &&& b.len() == a.len() + 1
            &&& forall|j: int| 0 <= j < a.len() ==> same_node(#[trigger] b[j], a[j])
            &&& b.last().post@ == placeholder_of(t)
            &&& b.last().depth == 0
            &&& b.last().replies@.len() == 1
            &&& b.last().replies@[0].post@ == p
            &&& b.last().replies@[0].depth == 1
            &&& b.last().replies@[0].replies@.len() == 0
        },
    }
}

/// `b` is the forest `a` with post `p` added, before the forest is put back
/// in recency order: a post that replies to nothing is a new root at depth 0
/// with no replies; a reply is placed for its target resolved against `table`.
pub open spec fn added(a: Seq<ThreadNode>, b: Seq<ThreadNode>, table: Seq<(Seq<char>, Seq<char>)>, p: PostSpec) -> bool {
    match p.reply_to {
        None => {
            &&& b.len() == a.len() + 1
            &&& forall|j: int| 0 <= j < a.len() ==> same_node(#[trigger] b[j], a[j])
            &&& b.last().post@ == p
            &&& b.last().depth == 0
            &&& b.last().replies@.len() == 0
        },
        Some(r) => forest_grafted(a, b, resolve(r, table), p),
    }
}

/// Every node of `rs` is a root at depth 0 with each reply one level below
/// its parent.
pub open spec fn all_rooted(rs: Seq<ThreadNode>) -> bool {
    forall|k: int| 0 <= k < rs.len() ==> (#[trigger] rs[k]).depth == 0 && depth_ok(rs[k])
}

/// Every subtree of `rs` is settled.
pub open spec fn all_settled(rs: Seq<ThreadNode>) -> bool {
    forall|k: int| 0 <= k < rs.len() ==> settled(#[trigger] rs[k])
}

/// A forest in recency order: roots newest first, every subtree settled.
pub open spec fn recency_ordered(roots: Seq<ThreadNode>) -> bool {
    &&& ordered(roots, true)
    &&& forall|k: int| 0 <= k < roots.len() ==> settled(#[trigger] roots[k])
}

/// Equal multisets hold the same elements.
pub proof fn lemma_in_multiset<A>(a: Seq<A>, b: Seq<A>, k: int)
    requires
        a.to_multiset() == b.to_multiset(),
        0 <= k < a.len(),
    ensures
        exists|m: int| 0 <= m < b.len() && b[m] == a[k],
{
    broadcast use vstd::seq_lib::to_multiset_contains;
    assert(a.contains(a[k]));
    assert(b.to_multiset().count(a[k]) > 0);
    assert(b.contains(a[k]));
}

proof fn lemma_fold_push(rs: Seq<ThreadNode>, x: ThreadNode, acc: Option<Moment>)
    ensures
        fold_latest(rs.push(x), acc) == later_of(fold_latest(rs, acc), x.latest_activity_time),
    decreases rs.len(),
{
    if rs.len() > 0 {
        assert(rs.push(x)[0] == rs[0]);
        assert(rs.push(x).drop_first() =~= rs.drop_first().push(x));
        lemma_fold_push(rs.drop_first(), x, later_of(acc, rs[0].latest_activity_time));
    } else {
        assert(rs.push(x)[0] == x);
        assert(rs.push(x).drop_first() =~= Seq::<ThreadNode>::empty());
        assert(fold_latest(Seq::<ThreadNode>::empty(), later_of(acc, x.latest_activity_time)) == later_of(acc, x.latest_activity_time));
    }
}

proof fn lemma_fold_same(a: Seq<ThreadNode>, b: Seq<ThreadNode>, acc: Option<Moment>)
    requires
        a.len() == b.len(),
        forall|k: int| 0 <= k < a.len() ==> (#[trigger] a[k]).latest_activity_time == b[k].latest_activity_time,
    ensures
        fold_latest(a, acc) == fold_latest(b, acc),
    decreases a.len(),
{
    if a.len() > 0 {
        assert(a[0].latest_activity_time == b[0].latest_activity_time);
        let a1 = a.drop_first();
        let b1 = b.drop_first();
        assert forall|k: int| 0 <= k < a1.len() implies (#[trigger] a1[k]).latest_activity_time == b1[k].latest_activity_time by {
            assert(a1[k] == a[k + 1]);
            assert(b1[k] == b[k + 1]);
        }
        lemma_fold_same(a1, b1, later_of(acc, a[0].latest_activity_time));
    }
}

// ---------------------------------------------------------------------------
// Ordering replies and roots.
// ---------------------------------------------------------------------------

/// `a` is `b` with the replies at every level put in stable order: same
/// posts and depths (and, when `keep_times`, the same times), the replies of
/// `a` being the stable sort of nodes that are each, in turn, `b`'s replies
/// so treated.
pub open spec fn resorted(a: ThreadNode, b: ThreadNode, keep_times: bool) -> bool
    decreases b,
{
    &&& a.post@ == b.post@
    &&& a.depth == b.depth
    &&& keep_times ==> a.latest_activity_time == b.latest_activity_time
    &&& exists|st: Seq<ThreadNode>|
        #[trigger] isort(st, false) == a.replies@ && st.len() == b.replies@.len() && forall|k: int|
            0 <= k < st.len() ==> resorted(#[trigger] st[k], b.replies@[k], keep_times)
}

/// `s` with `x` placed after the last node that may stand before it, the
/// nodes after that moved one place on: one step of a stable insertion sort.
pub open spec fn ins(s: Seq<ThreadNode>, x: ThreadNode, roots: bool) -> Seq<ThreadNode>
    decreases s.len(),
{
    if s.len() == 0 {
        seq![x]
    } else if pair_ordered(s.last(), x, roots) {
        s.push(x)
    } else {
        ins(s.drop_last(), x, roots).push(s.last())
    }
}

/// The stable insertion sort of `s`: nodes with equal times keep their order.
pub open spec fn isort(s: Seq<ThreadNode>, roots: bool) -> Seq<ThreadNode>
    decreases s.len(),
{
    if s.len() == 0 {
        seq![]
    } else {
        ins(isort(s.drop_last(), roots), s.last(), roots)
    }
}

proof fn lemma_ins_at(s: Seq<ThreadNode>, x: ThreadNode, roots: bool, p: int)
    requires
        0 <= p <= s.len(),
        forall|j: int| p <= j < s.len() ==> !pair_ordered(#[trigger] s[j], x, roots),
        p > 0 ==> pair_ordered(s[p - 1], x, roots),
    ensures
        s.insert(p, x) == ins(s, x, roots),
    decreases s.len(),
{
    if s.len() == 0 {
        assert(s.insert(p, x) =~= seq![x]);
    } else if p == s.len() {
        assert(s.insert(p, x) =~= s.push(x));
    } else {
        assert(!pair_ordered(s[s.len() - 1], x, roots));
        lemma_ins_at(s.drop_last(), x, roots, p);
        assert(s.insert(p, x) =~= s.drop_last().insert(p, x).push(s.last()));
    }
}

fn stands_before(a: Option<Moment>, b: Option<Moment>, roots: bool) -> (r: bool)
    ensures
        r == (if roots {
            root_order(a, b)
        } else {
            reply_order(a, b)
        }),
{
    match (a, b) {
        (Some(x), Some(y)) => if roots {
            !crate::util::is_earlier(x, y)
        } else {
            !crate::util::is_earlier(y, x)
        },
        (Some(_), None) => true,
        (None, Some(_)) => false,
        (None, None) => true,
    }
}

proof fn lemma_order_total(a: Option<Moment>, b: Option<Moment>, roots: bool)
    ensures
        roots ==> (root_order(a, b) || root_order(b, a)),
        !roots ==> (reply_order(a, b) || reply_order(b, a)),
{
}

/// Stable insertion sort of settled subtrees by their latest times.
fn sort_nodes(nodes: Vec<ThreadNode>, roots: bool) -> (r: Vec<ThreadNode>)
    ensures
        ordered(r@, roots),
        r@.len() == nodes@.len(),
        all_settled(nodes@) ==> all_settled(r@),
        ordered(nodes@, roots) ==> r@ == nodes@,
        r@.to_multiset() == nodes@.to_multiset(),
        reply_posts(r@).to_multiset() == reply_posts(nodes@).to_multiset(),
        r@ == isort(nodes@, roots),
{
    let ghost orig = nodes@;
    let mut rest = nodes;
    assert(rest@ =~= orig.subrange(0, orig.len() as int));
    let mut out: Vec<ThreadNode> = Vec::new();
    assert(out@ =~= orig.subrange(0, 0));
    assert(reply_posts(out@) =~= reply_posts(orig.subrange(0, 0)));
    while rest.len() > 0
        invariant
            ordered(out@, roots),
            orig == nodes@,
            out@.len() + rest@.len() == orig.len(),
            rest@ == orig.subrange(out@.len() as int, orig.len() as int),
            all_settled(orig) ==> all_settled(out@),
            ordered(orig, roots) ==> out@ == orig.subrange(0, out@.len() as int),
            out@.to_multiset() == orig.subrange(0, out@.len() as int).to_multiset(),
            out@ == isort(orig.subrange(0, out@.len() as int), roots),
            reply_posts(out@).to_multiset() == reply_posts(orig.subrange(0, out@.len() as int)).to_multiset(),
        decreases rest@.len(),
    {
        let ghost done = out@.len();
        let x = rest.remove(0);
        let ghost before = out@;
        let mut p = out.len();
        while p > 0 && !stands_before(out[p - 1].latest_activity_time, x.latest_activity_time, roots)
            invariant
                p <= out@.len(),
                out@ == before,
                forall|j: int|
                    p <= j < out@.len() ==> !pair_ordered(#[trigger] out@[j], x, roots),
            decreases p,
        {
            p -= 1;
        }
        proof {
            if ordered(orig, roots) && done > 0 {
                let j = done - 1;
                assert(orig[j] == out@[j]);
                assert(pair_ordered(orig[j], orig[j + 1], roots));
                assert(p == out@.len());
            }
        }
        out.insert(p, x);
        proof {
            assert forall|i: int| 0 <= i < out@.len() - 1 implies #[trigger] pair_ordered(
                out@[i],
                out@[i + 1],
                roots,
            ) by {
                if i + 1 < p {
                    assert(pair_ordered(before[i], before[i + 1], roots));
                } else if i + 1 == p {
                } else if i == p {
                    lemma_order_total(x.latest_activity_time, before[p as int].latest_activity_time, roots);
                } else {
                    let j = i - 1;
                    assert(pair_ordered(before[j], before[j + 1], roots));
                }
            }
            if all_settled(orig) {
                assert(settled(orig[done as int]));
                assert forall|k: int| 0 <= k < out@.len() implies settled(#[trigger] out@[k]) by {
                    if k < p {
                        assert(out@[k] == before[k]);
                    } else if k == p {
                        assert(out@[k] == orig[done as int]);
                    } else {
                        assert(out@[k] == before[k - 1]);
                    }
                }
            }
            assert(rest@ =~= orig.subrange(out@.len() as int, orig.len() as int));
            if ordered(orig, roots) {
                assert(out@ =~= orig.subrange(0, out@.len() as int));
            }
            assert(x == orig[done as int]);
            lemma_ins_at(before, x, roots, p as int);
            assert(orig.subrange(0, done as int + 1).drop_last() =~= orig.subrange(0, done as int));
            vstd::seq_lib::to_multiset_insert(before, p as int, x);
            assert(orig.subrange(0, done as int + 1) =~= orig.subrange(0, done as int).push(x));
            vstd::seq_lib::to_multiset_build(orig.subrange(0, done as int), x);
            assert(reply_posts(out@) =~= reply_posts(before).insert(p as int, x.post@));
            vstd::seq_lib::to_multiset_insert(reply_posts(before), p as int, x.post@);
            assert(reply_posts(orig.subrange(0, done as int + 1)) =~= reply_posts(orig.subrange(0, done as int)).push(x.post@));
            vstd::seq_lib::to_multiset_build(reply_posts(orig.subrange(0, done as int)), x.post@);
        }
    }
    proof {
        assert(orig.subrange(0, orig.len() as int) =~= orig);
        if ordered(orig, roots) {
            assert(out@ =~= orig);
        }
    }
    out
}

impl ThreadNode {
    /// A node without replies; its latest time is its post's.
    pub fn new(post: Post, depth: usize) -> (r: ThreadNode)
        ensures
            r.post@ == post@,
            r.replies@.len() == 0,
            r.depth == depth,
            r.latest_activity_time == time_of(post@),
    {
        let latest_activity_time = post.time();
        ThreadNode { post, replies: Vec::new(), depth, latest_activity_time }
    }

    pub fn add_reply(&mut self, reply_node: ThreadNode)
        ensures
            final(self).replies@ == old(self).replies@.push(reply_node),
            final(self).post == old(self).post,
            final(self).depth == old(self).depth,
            final(self).latest_activity_time == old(self).latest_activity_time,
    {
        self.replies.push(reply_node);
    }

    /// Recomputes the latest time of every node of the subtree, bottom up.
    pub fn update_latest_activity_time(&mut self)
        ensures
            activity_ok(*final(self)),
            final(self).post == old(self).post,
            final(self).depth == old(self).depth,
            final(self).replies@.len() == old(self).replies@.len(),
            same_shape(*final(self), *old(self)),
        decreases *old(self),
    {
        let ghost orig = self.replies@;
        let mut rest: Vec<ThreadNode> = Vec::new();
        std::mem::swap(&mut rest, &mut self.replies);
        let ghost total = rest@.len();
        let mut done: Vec<ThreadNode> = Vec::new();
        let mut latest = self.post.time();
        while rest.len() > 0
            invariant
                done@.len() + rest@.len() == total,
                total == orig.len(),
                orig == old(self).replies@,
                rest@ == orig.subrange(done@.len() as int, total as int),
                latest == fold_latest(done@, time_of(self.post@)),
                forall|k: int| 0 <= k < done@.len() ==> activity_ok(#[trigger] done@[k]),
                forall|k: int| 0 <= k < done@.len() ==> same_shape(#[trigger] done@[k], orig[k]),
            decreases rest@.len(),
        {
            let ghost i = done@.len() as int;
            let mut child = rest.remove(0);
            assert(child == orig[i]);
            assert(rest@ =~= orig.subrange(i + 1, total as int));
            child.update_latest_activity_time();
            proof {
                lemma_fold_push(done@, child, time_of(self.post@));
            }
            if opt_is_earlier(latest, child.latest_activity_time) {
                latest = child.latest_activity_time;
            }
            done.push(child);
        }
        self.replies = done;
        self.latest_activity_time = latest;
    }

    /// Orders the replies of every node of the subtree oldest first
    /// (timeless last), keeping every reply; equal times keep their order, so
    /// a subtree already in order is left as it is.
    #[verifier::rlimit(60)]
    pub fn sort_replies(&mut self)
        ensures
            final(self).post == old(self).post,
            final(self).depth == old(self).depth,
            final(self).latest_activity_time == old(self).latest_activity_time,
            replies_sorted(*final(self)),
            reply_posts(final(self).replies@).to_multiset() == reply_posts(old(self).replies@).to_multiset(),
            replies_sorted(*old(self)) ==> same_tree(*final(self), *old(self)),
            resorted(*final(self), *old(self), true),
        decreases *old(self),
    {
        let ghost orig = self.replies@;
        let ghost was = replies_sorted(*self);
        proof {
            if was {
                assert(forall|k: int| 0 <= k < orig.len() ==> replies_sorted(#[trigger] orig[k]));
                assert(ordered(orig, false));
            }
        }
        let mut rest: Vec<ThreadNode> = Vec::new();
        std::mem::swap(&mut rest, &mut self.replies);
        let ghost total = rest@.len();
        let mut done: Vec<ThreadNode> = Vec::new();
        while rest.len() > 0
            invariant
                done@.len() + rest@.len() == total,
                total == orig.len(),
                orig == old(self).replies@,
                rest@ == orig.subrange(done@.len() as int, total as int),
                forall|k: int| 0 <= k < done@.len() ==> replies_sorted(#[trigger] done@[k]),
                reply_posts(done@) == reply_posts(orig.subrange(0, done@.len() as int)),
                was ==> forall|k: int| 0 <= k < orig.len() ==> replies_sorted(#[trigger] orig[k]),
                was ==> forall|k: int| 0 <= k < done@.len() ==> same_tree(#[trigger] done@[k], orig[k]),
                forall|k: int| 0 <= k < done@.len() ==> resorted(#[trigger] done@[k], orig[k], true),
            decreases rest@.len(),
        {
            let ghost i = done@.len() as int;
            let ghost d0 = done@;
            let mut child = rest.remove(0);
            assert(child == orig[i]);
            assert(rest@ =~= orig.subrange(i + 1, total as int));
            child.sort_replies();
            assert forall|k: int| 0 <= k < i + 1 implies resorted(#[trigger] d0.push(child)[k], orig[k], true) by {
                if k < i {
                    assert(d0.push(child)[k] == d0[k]);
                }
            }
            done.push(child);
            assert(reply_posts(done@) =~= reply_posts(d0).push(orig[i].post@));
            assert(orig.subrange(0, i + 1) =~= orig.subrange(0, i).push(orig[i]));
            assert(reply_posts(orig.subrange(0, i + 1)) =~= reply_posts(orig.subrange(0, i)).push(orig[i].post@));
        }
        assert(orig.subrange(0, total as int) =~= orig);
        let ghost kids = done@;
        proof {
            if was {
                assert forall|i: int| 0 <= i < kids.len() - 1 implies #[trigger] pair_ordered(
                    kids[i],
                    kids[i + 1],
                    false,
                ) by {
                    assert(same_tree(kids[i], orig[i]));
                    assert(same_tree(kids[i + 1], orig[i + 1]));
                    assert(pair_ordered(orig[i], orig[i + 1], false));
                }
            }
        }
        let sorted = sort_nodes(done, false);
        proof {
            assert forall|j: int| 0 <= j < sorted@.len() implies replies_sorted(#[trigger] sorted@[j]) by {
                lemma_in_multiset(sorted@, kids, j);
                let m = choose|m: int| 0 <= m < kids.len() && kids[m] == sorted@[j];
            }
        }
        self.replies = sorted;
        proof {
            if was {
                assert(sorted@ == kids);
                assert(same_tree(*self, *old(self)));
            }
            assert(isort(kids, false) == self.replies@);
            assert(resorted(*self, *old(self), true));
        }
    }

    /// Settles the subtree: each node's replies settled, ordered oldest first,
    /// and its latest time computed over them. A settled subtree is left as it is.
    #[verifier::rlimit(100)]
    pub fn settle(&mut self)
        ensures
            settled(*final(self)),
            final(self).post == old(self).post,
            final(self).depth == old(self).depth,
            settled(*old(self)) ==> same_tree(*final(self), *old(self)),
            reply_posts(final(self).replies@).to_multiset() == reply_posts(old(self).replies@).to_multiset(),
            depth_ok(*old(self)) ==> depth_ok(*final(self)),
            posts_ms(*final(self)) == posts_ms(*old(self)),
            resorted(*final(self), *old(self), false),
        decreases *old(self),
    {
        let ghost orig = self.replies@;
        let ghost was_settled = settled(*self);
        let ghost was_deep = depth_ok(*self);
        let ghost d = self.depth;
        proof {
            if was_settled {
                assert(forall|k: int| 0 <= k < orig.len() ==> settled(#[trigger] orig[k]));
                assert(ordered(orig, false));
            }
        }
        let mut rest: Vec<ThreadNode> = Vec::new();
        std::mem::swap(&mut rest, &mut self.replies);
        let ghost total = rest@.len();
        let mut done: Vec<ThreadNode> = Vec::new();
        while rest.len() > 0
            invariant
                done@.len() + rest@.len() == total,
                total == orig.len(),
                orig == old(self).replies@,
                rest@ == orig.subrange(done@.len() as int, total as int),
                forall|k: int| 0 <= k < done@.len() ==> settled(#[trigger] done@[k]),
                was_settled ==> forall|k: int|
                    0 <= k < orig.len() ==> settled(#[trigger] orig[k]),
                was_settled ==> forall|k: int|
                    0 <= k < done@.len() ==> same_tree(#[trigger] done@[k], orig[k]),
                reply_posts(done@) == reply_posts(orig.subrange(0, done@.len() as int)),
                d == old(self).depth,
                was_deep == depth_ok(*old(self)),
                was_deep ==> forall|k: int|
                    0 <= k < done@.len() ==> (#[trigger] done@[k]).depth == d + 1 && depth_ok(done@[k]),
                forall|k: int| 0 <= k < done@.len() ==> posts_ms(#[trigger] done@[k]) == posts_ms(orig[k]),
                forall|k: int| 0 <= k < done@.len() ==> resorted(#[trigger] done@[k], orig[k], false),
            decreases rest@.len(),
        {
            let ghost i = done@.len() as int;
            let ghost d0 = done@;
            let mut child = rest.remove(0);
            assert(child == orig[i]);
            child.settle();
            assert forall|k: int| 0 <= k < i + 1 implies resorted(#[trigger] d0.push(child)[k], orig[k], false) by {
                if k < i {
                    assert(d0.push(child)[k] == d0[k]);
                }
            }
            done.push(child);
            assert(rest@ =~= orig.subrange(done@.len() as int, total as int));
            assert(reply_posts(done@) =~= reply_posts(d0).push(orig[i].post@));
            assert(orig.subrange(0, i + 1) =~= orig.subrange(0, i).push(orig[i]));
            assert(reply_posts(orig.subrange(0, i + 1)) =~= reply_posts(orig.subrange(0, i)).push(orig[i].post@));
            assert forall|k: int| 0 <= k < done@.len() implies posts_ms(#[trigger] done@[k]) == posts_ms(orig[k]) by {
                if k < i {
                    assert(done@[k] == d0[k]);
                }
            }
            proof {
                if was_deep {
                    assert(orig[i].depth == d + 1 && depth_ok(orig[i]));
                    assert forall|k: int| 0 <= k < done@.len() implies (#[trigger] done@[k]).depth == d + 1 && depth_ok(done@[k]) by {
                        if k < i {
                            assert(done@[k] == d0[k]);
                        }
                    }
                }
            }
        }
        assert(orig.subrange(0, total as int) =~= orig);
        let ghost settled_children = done@;
        proof {
            if was_settled {
                assert forall|i: int| 0 <= i < settled_children.len() - 1 implies #[trigger] pair_ordered(
                    settled_children[i],
                    settled_children[i + 1],
                    false,
                ) by {
                    assert(same_tree(settled_children[i], orig[i]));
                    assert(same_tree(settled_children[i + 1], orig[i + 1]));
                    assert(pair_ordered(orig[i], orig[i + 1], false));
                }
            }
        }
        let sorted = sort_nodes(done, false);
        let mut latest = self.post.time();
        let mut k: usize = 0;
        while k < sorted.len()
            invariant
                k <= sorted@.len(),
                latest == fold_latest(sorted@.subrange(0, k as int), time_of(self.post@)),
            decreases sorted@.len() - k,
        {
            proof {
                lemma_fold_push(sorted@.subrange(0, k as int), sorted@[k as int], time_of(self.post@));
                assert(sorted@.subrange(0, k + 1) =~= sorted@.subrange(0, k as int).push(sorted@[k as int]));
            }
            if opt_is_earlier(latest, sorted[k].latest_activity_time) {
                latest = sorted[k].latest_activity_time;
            }
            k += 1;
        }
        assert(sorted@.subrange(0, sorted@.len() as int) =~= sorted@);
        assert(all_settled(settled_children));
        proof {
            if was_deep {
                assert forall|j: int| 0 <= j < sorted@.len() implies (#[trigger] sorted@[j]).depth == d + 1 && depth_ok(sorted@[j]) by {
                    lemma_in_multiset(sorted@, settled_children, j);
                    let m = choose|m: int| 0 <= m < settled_children.len() && settled_children[m] == sorted@[j];
                }
            }
        }
        proof {
            lemma_seq_ms_perm(sorted@, settled_children);
            lemma_seq_ms_same(settled_children, orig);
        }
        self.replies = sorted;
        self.latest_activity_time = latest;
        proof {
            lemma_posts_ms(*self);
            lemma_posts_ms(*old(self));
            assert(isort(settled_children, false) == self.replies@);
            assert(resorted(*self, *old(self), false));
            if was_settled {
                assert(sorted@ == settled_children);
                assert forall|k: int| 0 <= k < settled_children.len() implies (#[trigger] settled_children[k]).latest_activity_time == orig[k].latest_activity_time by {
                    assert(same_tree(settled_children[k], orig[k]));
                }
                lemma_fold_same(settled_children, orig, time_of(self.post@));
                assert(same_tree(*self, *old(self)));
            }
        }
    }

    /// The posts of the subtree, each before its replies.
    pub fn flatten(&self) -> (r: Vec<Post>)
        ensures
            post_views(r@) == preorder(*self),
        decreases *self,
    {
        let mut out: Vec<Post> = Vec::new();
        out.push(self.post.duplicate());
        assert(post_views(out@) =~= seq![self.post@]);
        let mut k: usize = 0;
        while k < self.replies.len()
            invariant
                k <= self.replies@.len(),
                post_views(out@) + preorder_from(*self, k as int) == preorder(*self),
            decreases self.replies@.len() - k,
        {
            let sub = self.replies[k].flatten();
            let ghost before = post_views(out@);
            let mut i: usize = 0;
            while i < sub.len()
                invariant
                    i <= sub@.len(),
                    post_views(out@) == before + post_views(sub@.subrange(0, i as int)),
                decreases sub@.len() - i,
            {
                let ghost o0 = out@;
                let p = sub[i].duplicate();
                out.push(p);
                assert(post_views(out@) =~= post_views(o0).push(p@));
                assert(post_views(sub@.subrange(0, i + 1)) =~= post_views(sub@.subrange(0, i as int)).push(sub@[i as int]@));
                i += 1;
            }
            assert(sub@.subrange(0, sub@.len() as int) =~= sub@);
            assert(post_views(out@) + preorder_from(*self, k + 1) =~= before + preorder_from(*self, k as int));
            k += 1;
        }
        assert(post_views(out@) =~= preorder(*self));
        out
    }

    /// The number of posts in the subtree.
    pub fn count_posts(&self) -> (r: usize)
        requires
            count(*self) <= usize::MAX,
        ensures
            r == count(*self),
        decreases *self,
    {
        let mut total: usize = 1;
        let mut k: usize = 0;
        while k < self.replies.len()
            invariant
                k <= self.replies@.len(),
                count(*self) == 1 + count_from(*self, 0),
                count(*self) <= usize::MAX,
                total + count_from(*self, k as int) == count(*self),
            decreases self.replies@.len() - k,
        {
            let c = self.replies[k].count_posts();
            total = total + c;
            k += 1;
        }
        total
    }
}


proof fn lemma_forest_count_prefix(rs: Seq<ThreadNode>, k: int)
    requires
        0 <= k <= rs.len(),
    ensures
        forest_count(rs.subrange(0, k)) <= forest_count(rs),
    decreases rs.len() - k,
{
    if k < rs.len() {
        lemma_forest_count_prefix(rs, k + 1);
        assert(rs.subrange(0, k + 1).drop_last() =~= rs.subrange(0, k));
    } else {
        assert(rs.subrange(0, k) =~= rs);
    }
}

proof fn lemma_count_fits(n: ThreadNode)
    ensures
        count(n) >= 1,
{
}

// ---------------------------------------------------------------------------
// Resolving reply references.
// ---------------------------------------------------------------------------

/// The full identifier registered last for a bare identifier.
pub open spec fn lookup(table: Seq<(Seq<char>, Seq<char>)>, key: Seq<char>) -> Option<Seq<char>>
    decreases table.len(),
{
    if table.len() == 0 {
        None
    } else if table.last().0 == key {
        Some(table.last().1)
    } else {
        lookup(table.drop_last(), key)
    }
}

pub open spec fn table_view(t: Seq<(String, String)>) -> Seq<(Seq<char>, Seq<char>)> {
    t.map_values(|e: (String, String)| (e.0@, e.1@))
}

/// A reference holding `#` is already full; a bare one is looked up, and
/// kept as it is when unknown.
pub open spec fn resolve(reply_to: Seq<char>, table: Seq<(Seq<char>, Seq<char>)>) -> Seq<char> {
    if reply_to.contains('#') {
        reply_to
    } else {
        match lookup(table, reply_to) {
            Some(f) => f,
            None => reply_to,
        }
    }
}

/// The placeholder standing for a missing post: its identifier is the part
/// after the last `#`, its source the non-empty part before the first `#`.
pub open spec fn placeholder_of(target: Seq<char>) -> PostSpec {
    let id = after_hash(target);
    let base = PostSpec { author: Some("unknown"@), ..fresh_post(id, "[Post not available]"@) };
    match crate::text::find_char(target, 0, '#') {
        Some(i) => if i > 0 {
            PostSpec { source: Some(target.subrange(0, i)), ..base }
        } else {
            base
        },
        None => base,
    }
}

/// The first post, in input order, whose full identifier is `target`.
pub open spec fn first_with_full_id(ps: Seq<PostSpec>, target: Seq<char>, k: int) -> Option<int>
    decreases ps.len() - k,
{
    if k < 0 || k >= ps.len() {
        None
    } else if full_id_of(ps[k]) == target {
        Some(k)
    } else {
        first_with_full_id(ps, target, k + 1)
    }
}

/// The first post, in input order, whose bare identifier is `id`.
pub open spec fn first_with_id(ps: Seq<PostSpec>, id: Seq<char>, k: int) -> Option<int>
    decreases ps.len() - k,
{
    if k < 0 || k >= ps.len() {
        None
    } else if ps[k].id == id {
        Some(k)
    } else {
        first_with_id(ps, id, k + 1)
    }
}

/// Where a reply goes.
pub enum Parent {
    /// Under the post at this index of the input.
    Post(usize),
    /// Under the placeholder for this full identifier.
    Missing(String),
}

pub enum ParentSpec {
    Post(int),
    Missing(Seq<char>),
}

pub open spec fn parent_view(p: Parent) -> ParentSpec {
    match p {
        Parent::Post(i) => ParentSpec::Post(i as int),
        Parent::Missing(s) => ParentSpec::Missing(s@),
    }
}

/// The parent of a reply to `target`: the post with that full identifier;
/// failing that, the post whose bare identifier is the part after the last
/// `#` (whatever its source); failing that, a placeholder.
pub open spec fn parent_spec(ps: Seq<PostSpec>, target: Seq<char>) -> ParentSpec {
    match first_with_full_id(ps, target, 0) {
        Some(j) => ParentSpec::Post(j),
        None => match first_with_id(ps, after_hash(target), 0) {
            Some(j) => ParentSpec::Post(j),
            None => ParentSpec::Missing(target),
        },
    }
}

/// The posts of a sequence of nodes.
pub open spec fn reply_posts(ns: Seq<ThreadNode>) -> Seq<PostSpec> {
    ns.map_values(|n: ThreadNode| n.post@)
}

pub open spec fn post_views(ps: Seq<Post>) -> Seq<PostSpec> {
    ps.map_values(|p: Post| p@)
}

fn contains_hash(s: &str) -> (r: bool)
    ensures
        r == s@.contains('#'),
{
    let v = chars_of(s);
    let mut i: usize = 0;
    while i < v.len()
        invariant
            i <= v@.len(),
            v@ == s@,
            forall|j: int| 0 <= j < i ==> v@[j] != '#',
        decreases v@.len() - i,
    {
        if v[i] == '#' {
            assert(s@[i as int] == '#');
            return true;
        }
        i += 1;
    }
    false
}

fn copy_str(s: &String) -> (r: String)
    ensures
        r@ == s@,
{
    s.clone()
}

fn lookup_exec(table: &Vec<(String, String)>, key: &str) -> (r: Option<String>)
    ensures
        match r {
            Some(f) => lookup(table_view(table@), key@) == Some(f@),
            None => lookup(table_view(table@), key@) is None,
        },
{
    let mut k = table.len();
    assert(table@.subrange(0, k as int) =~= table@);
    while k > 0
        invariant
            k <= table@.len(),
            lookup(table_view(table@), key@) == lookup(table_view(table@.subrange(0, k as int)), key@),
        decreases k,
    {
        let ghost t = table_view(table@.subrange(0, k as int));
        assert(t.last() == (table@[k - 1].0@, table@[k - 1].1@));
        assert(t.drop_last() =~= table_view(table@.subrange(0, k - 1)));
        if table[k - 1].0.eq(&key.to_string()) {
            return Some(copy_str(&table[k - 1].1));
        }
        k -= 1;
    }
    None
}

/// Resolves a reply reference against the identifier table.
pub fn resolve_reply_target(reply_to: &str, id_map: &Vec<(String, String)>) -> (r: String)
    ensures
        r@ == resolve(reply_to@, table_view(id_map@)),
{
    if contains_hash(reply_to) {
        reply_to.to_string()
    } else {
        match lookup_exec(id_map, reply_to) {
            Some(f) => f,
            None => reply_to.to_string(),
        }
    }
}

fn after_last_hash(s: &str) -> (r: String)
    ensures
        r@ == after_hash(s@),
{
    let v = chars_of(s);
    let n = v.len();
    let mut j = n;
    while j > 0 && v[j - 1] != '#'
        invariant
            j <= n == v@.len(),
            v@ == s@,
            last_index(v@, n as int, '#') == last_index(v@, j as int, '#'),
        decreases j,
    {
        j -= 1;
    }
    if j == 0 {
        s.to_string()
    } else {
        string_of(v.as_slice(), j, n)
    }
}

/// The placeholder post for a missing reply target.
pub fn create_placeholder_post(reply_target: &str) -> (r: Post)
    ensures
        r@ == placeholder_of(reply_target@),
{
    let id = after_last_hash(reply_target);
    let mut placeholder = Post::new(id, String::from_str("[Post not available]"));
    placeholder.set_author(String::from_str("unknown"));
    let v = chars_of(reply_target);
    proof {
        crate::text::lemma_find_char(v@, 0, '#');
    }
    match crate::text::find_char_exec(&v, 0, '#') {
        Some(i) => {
            if i > 0 {
                placeholder.set_source(Some(string_of(v.as_slice(), 0, i)));
            }
        },
        None => {},
    }
    placeholder
}

/// The first post whose bare identifier is the part of `reply_target` after
/// its last `#`, whatever its source.
pub fn find_by_timestamp_fallback(reply_target: &str, posts: &Vec<Post>) -> (r: Option<usize>)
    ensures
        crate::text::opt_int(r) == first_with_id(post_views(posts@), after_hash(reply_target@), 0),
{
    let ts = after_last_hash(reply_target);
    let ghost pv = post_views(posts@);
    let mut k: usize = 0;
    while k < posts.len()
        invariant
            k <= posts@.len(),
            pv == post_views(posts@),
            ts@ == after_hash(reply_target@),
            first_with_id(pv, ts@, 0) == first_with_id(pv, ts@, k as int),
        decreases posts@.len() - k,
    {
        if posts[k].id().to_string().eq(&ts) {
            return Some(k);
        }
        k += 1;
    }
    None
}

fn find_by_full_id(target: &String, posts: &Vec<Post>) -> (r: Option<usize>)
    ensures
        crate::text::opt_int(r) == first_with_full_id(post_views(posts@), target@, 0),
{
    let ghost pv = post_views(posts@);
    let mut k: usize = 0;
    while k < posts.len()
        invariant
            k <= posts@.len(),
            pv == post_views(posts@),
            first_with_full_id(pv, target@, 0) == first_with_full_id(pv, target@, k as int),
        decreases posts@.len() - k,
    {
        if posts[k].full_id().eq(target) {
            return Some(k);
        }
        k += 1;
    }
    None
}

/// Where a reply to `target` goes among `posts`.
pub fn find_parent(target: String, posts: &Vec<Post>) -> (r: Parent)
    ensures
        parent_view(r) == parent_spec(post_views(posts@), target@),
{
    match find_by_full_id(&target, posts) {
        Some(j) => Parent::Post(j),
        None => match find_by_timestamp_fallback(target.as_str(), posts) {
            Some(j) => Parent::Post(j),
            None => Parent::Missing(target),
        },
    }
}

// ---------------------------------------------------------------------------
// Building the forest.
// ---------------------------------------------------------------------------

/// The bare-to-full identifier table of a list of posts, in input order.
pub open spec fn id_table(ps: Seq<PostSpec>) -> Seq<(Seq<char>, Seq<char>)> {
    ps.map_values(|p: PostSpec| (p.id, full_id_of(p)))
}

/// Where the post at index `i` goes: nowhere (a root) when it replies to
/// nothing, else under the parent its resolved reference picks.
pub open spec fn parent_of(ps: Seq<PostSpec>, i: int) -> Option<ParentSpec> {
    match ps[i].reply_to {
        None => None,
        Some(r) => Some(parent_spec(ps, resolve(r, id_table(ps)))),
    }
}

/// The indices below `n` of the posts placed under `key`, in input order.
pub open spec fn children_in(ps: Seq<PostSpec>, key: Option<ParentSpec>, n: int) -> Seq<int>
    decreases n,
{
    if n <= 0 {
        seq![]
    } else if parent_of(ps, n - 1) == key {
        children_in(ps, key, n - 1).push(n - 1)
    } else {
        children_in(ps, key, n - 1)
    }
}

/// The posts placed under `key` (the roots for `None`), in input order.
pub open spec fn children(ps: Seq<PostSpec>, key: Option<ParentSpec>) -> Seq<int> {
    children_in(ps, key, ps.len() as int)
}

/// `rs` are the nodes of the posts placed under `key`, in input order, each
/// with the nodes placed under it, down to `fuel` levels.
pub open spec fn grown(rs: Seq<ThreadNode>, ps: Seq<PostSpec>, key: ParentSpec, fuel: nat) -> bool
    decreases fuel,
{
    if fuel == 0 {
        rs.len() == 0
    } else {
        let cs = children(ps, Some(key));
        &&& rs.len() == cs.len()
        &&& forall|k: int|
            0 <= k < rs.len() ==> (#[trigger] rs[k]).post@ == ps[cs[k]] && grown(
                rs[k].replies@,
                ps,
                ParentSpec::Post(cs[k]),
                (fuel - 1) as nat,
            )
    }
}

pub open spec fn opt_parent_view(p: Option<Parent>) -> Option<ParentSpec> {
    match p {
        Some(x) => Some(parent_view(x)),
        None => None,
    }
}

fn same_parent(a: &Option<Parent>, b: &Parent) -> (r: bool)
    ensures
        r == (opt_parent_view(*a) == Some(parent_view(*b))),
{
    match (a, b) {
        (Some(Parent::Post(i)), Parent::Post(j)) => *i == *j,
        (Some(Parent::Missing(s)), Parent::Missing(t)) => s.eq(t),
        _ => false,
    }
}

/// The nodes of the posts placed under `parent`, in input order, each with
/// its own subtree, one level deeper.
fn build_children(
    posts: &Vec<Post>,
    parents: &Vec<Option<Parent>>,
    parent: &Parent,
    depth: usize,
    fuel: usize,
) -> (r: Vec<ThreadNode>)
    requires
        parents@.len() == posts@.len(),
        forall|j: int| 0 <= j < parents@.len() ==> opt_parent_view(#[trigger] parents@[j]) == parent_of(post_views(posts@), j),
        depth + fuel < usize::MAX,
    ensures
        forall|k: int| 0 <= k < r@.len() ==> (#[trigger] r@[k]).depth == depth + 1 && depth_ok(r@[k]),
        grown(r@, post_views(posts@), parent_view(*parent), fuel as nat),
    decreases fuel,
{
    let ghost ps = post_views(posts@);
    let ghost key = Some(parent_view(*parent));
    let mut out: Vec<ThreadNode> = Vec::new();
    if fuel == 0 {
        return out;
    }
    let mut j: usize = 0;
    while j < posts.len()
        invariant
            parents@.len() == posts@.len(),
            ps == post_views(posts@),
            key == Some(parent_view(*parent)),
            forall|i: int| 0 <= i < parents@.len() ==> opt_parent_view(#[trigger] parents@[i]) == parent_of(ps, i),
            depth + fuel < usize::MAX,
            fuel > 0,
            j <= posts@.len(),
            forall|k: int| 0 <= k < out@.len() ==> (#[trigger] out@[k]).depth == depth + 1 && depth_ok(out@[k]),
            out@.len() == children_in(ps, key, j as int).len(),
            forall|k: int|
                0 <= k < out@.len() ==> (#[trigger] out@[k]).post@ == ps[children_in(ps, key, j as int)[k]]
                    && grown(
                    out@[k].replies@,
                    ps,
                    ParentSpec::Post(children_in(ps, key, j as int)[k]),
                    (fuel - 1) as nat,
                ),
        decreases posts@.len() - j,
    {
        assert(opt_parent_view(parents@[j as int]) == parent_of(ps, j as int));
        if same_parent(&parents[j], parent) {
            let mut node = ThreadNode::new(posts[j].duplicate(), depth + 1);
            node.replies = build_children(posts, parents, &Parent::Post(j), depth + 1, fuel - 1);
            let ghost before = out@;
            out.push(node);
            proof {
                assert(children_in(ps, key, j + 1) == children_in(ps, key, j as int).push(j as int));
                assert forall|k: int| 0 <= k < out@.len() implies (#[trigger] out@[k]).post@ == ps[children_in(ps, key, j + 1)[k]]
                    && grown(
                    out@[k].replies@,
                    ps,
                    ParentSpec::Post(children_in(ps, key, j + 1)[k]),
                    (fuel - 1) as nat,
                ) by {
                    if k < before.len() {
                        assert(out@[k] == before[k]);
                    }
                }
            }
        }
        j += 1;
    }
    proof {
        assert(grown(out@, ps, parent_view(*parent), fuel as nat));
    }
    out
}

/// Some post is placed under the placeholder for `t`.
pub open spec fn is_missing_target(ps: Seq<PostSpec>, t: Seq<char>) -> bool {
    exists|i: int| 0 <= i < ps.len() && #[trigger] parent_of(ps, i) == Some(ParentSpec::Missing(t))
}

/// `r` is the forest of `ps` before it is put in recency order, with `ts`
/// its missing targets: first the nodes of the posts that reply to nothing,
/// in input order; then one placeholder per missing target, each target once,
/// in order of first reference; under each node the posts placed under it,
/// in input order; every root at depth 0, every reply one level below its
/// parent.
pub open spec fn forest_built(r: Seq<ThreadNode>, ps: Seq<PostSpec>, ts: Seq<Seq<char>>) -> bool {
    let rs = children(ps, None);
    let f = fuel_for(ps.len());
    &&& r.len() == rs.len() + ts.len()
    &&& ts.no_duplicates()
    &&& forall|t: Seq<char>| #[trigger] ts.contains(t) <==> is_missing_target(ps, t)
    &&& forall|k: int|
        0 <= k < rs.len() ==> (#[trigger] r[k]).post@ == ps[rs[k]] && grown(
            r[k].replies@,
            ps,
            ParentSpec::Post(rs[k]),
            f,
        )
    &&& forall|m: int|
        0 <= m < ts.len() ==> (#[trigger] r[rs.len() + m]).post@ == placeholder_of(ts[m]) && grown(
            r[rs.len() + m].replies@,
            ps,
            ParentSpec::Missing(ts[m]),
            f,
        )
    &&& all_rooted(r)
}

/// Some post before index `i` is placed under the placeholder for `t`.
pub open spec fn missing_before(ps: Seq<PostSpec>, t: Seq<char>, i: int) -> bool {
    exists|j: int| 0 <= j < i && #[trigger] parent_of(ps, j) == Some(ParentSpec::Missing(t))
}

pub open spec fn fuel_for(n: nat) -> nat {
    if n < usize::MAX {
        n
    } else {
        (n - 1) as nat
    }
}

/// The forest of a list of posts before it is put in recency order: first
/// the posts that reply to nothing, in input order, then one placeholder for
/// each missing target, in order of first reference; under each node the
/// posts placed under it, in input order, one level deeper. Depths are
/// counted from the roots however long the chain. Replies whose references
/// run in a cycle reach no root and are left out.
pub fn build_forest(posts: &Vec<Post>) -> (r: Vec<ThreadNode>)
    ensures
        exists|ts: Seq<Seq<char>>| #[trigger] forest_built(r@, post_views(posts@), ts),
{
    let ghost ps = post_views(posts@);
    let n = posts.len();
    let fuel: usize = if n < usize::MAX {
        n
    } else {
        n - 1
    };
    let mut id_map: Vec<(String, String)> = Vec::new();
    let mut i: usize = 0;
    while i < n
        invariant
            n == posts@.len(),
            ps == post_views(posts@),
            i <= n,
            table_view(id_map@) == id_table(ps.subrange(0, i as int)),
        decreases n - i,
    {
        let ghost t0 = id_map@;
        let entry = (posts[i].id().to_string(), posts[i].full_id());
        id_map.push(entry);
        assert(table_view(id_map@) =~= table_view(t0).push((ps[i as int].id, full_id_of(ps[i as int]))));
        assert(id_table(ps.subrange(0, i + 1)) =~= id_table(ps.subrange(0, i as int)).push((ps[i as int].id, full_id_of(ps[i as int]))));
        i += 1;
    }
    assert(ps.subrange(0, n as int) =~= ps);
    let mut parents: Vec<Option<Parent>> = Vec::new();
    let mut missing: Vec<String> = Vec::new();
    let mut i: usize = 0;
    while i < n
        invariant
            n == posts@.len(),
            ps == post_views(posts@),
            table_view(id_map@) == id_table(ps),
            i <= n,
            parents@.len() == i,
            forall|j: int| 0 <= j < i ==> opt_parent_view(#[trigger] parents@[j]) == parent_of(ps, j),
            forall|m: int| 0 <= m < missing@.len() ==> is_missing_target(ps, (#[trigger] missing@[m])@),
            string_views(missing@).no_duplicates(),
            forall|t: Seq<char>| #[trigger] string_views(missing@).contains(t) <==> missing_before(ps, t, i as int),
        decreases n - i,
    {
        let ghost ms0 = string_views(missing@);
        let rt = posts[i].reply_to();
        assert(ps[i as int] == posts@[i as int]@);
        match rt {
            Some(reply_to) => {
                let target = resolve_reply_target(reply_to.as_str(), &id_map);
                let p = find_parent(target, posts);
                assert(parent_of(ps, i as int) == Some(parent_view(p)));
                if let Parent::Missing(t) = &p {
                    let mut seen = false;
                    let mut m: usize = 0;
                    while m < missing.len()
                        invariant
                            m <= missing@.len(),
                            ms0 == string_views(missing@),
                            seen == exists|q: int| 0 <= q < m && #[trigger] ms0[q] == t@,
                        decreases missing@.len() - m,
                    {
                        assert(ms0[m as int] == missing@[m as int]@);
                        if missing[m].eq(t) {
                            seen = true;
                        }
                        m += 1;
                    }
                    assert(seen == ms0.contains(t@));
                    if !seen {
                        let ghost m0 = missing@;
                        let copy = copy_str(t);
                        missing.push(copy);
                        assert(is_missing_target(ps, copy@)) by {
                            assert(parent_of(ps, i as int) == Some(ParentSpec::Missing(copy@)));
                        }
                        assert forall|m: int| 0 <= m < missing@.len() implies is_missing_target(ps, (#[trigger] missing@[m])@) by {
                            if m < m0.len() {
                                assert(missing@[m] == m0[m]);
                            }
                        }
                        proof {
                            crate::text::lemma_string_views_push(m0, missing@[m0.len() as int]);
                        }
                        assert(missing@ == m0.push(missing@[m0.len() as int]));
                        assert(string_views(missing@) == ms0.push(t@));
                        assert forall|a: int, b: int| 0 <= a < b < string_views(missing@).len() implies string_views(missing@)[a] != string_views(missing@)[b] by {
                            if b == ms0.len() {
                                assert(ms0.contains(ms0[a]));
                            } else {
                                assert(ms0[a] != ms0[b]);
                            }
                        }
                    }
                    assert forall|t2: Seq<char>| #[trigger] string_views(missing@).contains(t2) <==> missing_before(ps, t2, i + 1) by {
                        if t2 == t@ {
                            assert(string_views(missing@).contains(t2)) by {
                                if seen {
                                    let q = choose|q: int| 0 <= q < ms0.len() && ms0[q] == t2;
                                    assert(string_views(missing@)[q] == t2);
                                } else {
                                    assert(string_views(missing@)[ms0.len() as int] == t2);
                                }
                            }
                            assert(missing_before(ps, t2, i + 1)) by {
                                assert(parent_of(ps, i as int) == Some(ParentSpec::Missing(t2)));
                            }
                        } else {
                            if string_views(missing@).contains(t2) {
                                let q = choose|q: int| 0 <= q < string_views(missing@).len() && string_views(missing@)[q] == t2;
                                assert(ms0.contains(t2)) by {
                                    assert(q < ms0.len());
                                    assert(ms0[q] == t2);
                                }
                            }
                            if missing_before(ps, t2, i + 1) {
                                let j = choose|j: int| 0 <= j < i + 1 && #[trigger] parent_of(ps, j) == Some(ParentSpec::Missing(t2));
                                assert(j < i);
                                assert(ms0.contains(t2));
                                let q = choose|q: int| 0 <= q < ms0.len() && ms0[q] == t2;
                                assert(string_views(missing@)[q] == t2);
                            }
                        }
                    }
                } else {
                    assert forall|t2: Seq<char>| #[trigger] string_views(missing@).contains(t2) <==> missing_before(ps, t2, i + 1) by {
                        if missing_before(ps, t2, i + 1) {
                            let j = choose|j: int| 0 <= j < i + 1 && #[trigger] parent_of(ps, j) == Some(ParentSpec::Missing(t2));
                            assert(j < i);
                        }
                    }
                }
                let ghost pre = parents@;
                parents.push(Some(p));
                assert forall|j: int| 0 <= j < i + 1 implies opt_parent_view(#[trigger] parents@[j]) == parent_of(ps, j) by {
                    if j < i {
                        assert(parents@[j] == pre[j]);
                    }
                }
            },
            None => {
                assert forall|t2: Seq<char>| #[trigger] string_views(missing@).contains(t2) <==> missing_before(ps, t2, i + 1) by {
                    if missing_before(ps, t2, i + 1) {
                        let j = choose|j: int| 0 <= j < i + 1 && #[trigger] parent_of(ps, j) == Some(ParentSpec::Missing(t2));
                        assert(j < i);
                    }
                }
                let ghost pre = parents@;
                parents.push(None);
                assert forall|j: int| 0 <= j < i + 1 implies opt_parent_view(#[trigger] parents@[j]) == parent_of(ps, j) by {
                    if j < i {
                        assert(parents@[j] == pre[j]);
                    }
                }
            },
        }
        i += 1;
    }
    let mut roots: Vec<ThreadNode> = Vec::new();
    let mut i: usize = 0;
    while i < n
        invariant
            n == posts@.len(),
            ps == post_views(posts@),
            parents@.len() == n,
            fuel < usize::MAX,
            fuel as nat == fuel_for(n as nat),
            i <= n,
            forall|j: int| 0 <= j < parents@.len() ==> opt_parent_view(#[trigger] parents@[j]) == parent_of(ps, j),
            forall|k: int| 0 <= k < roots@.len() ==> (#[trigger] roots@[k]).depth == 0 && depth_ok(roots@[k]),
            roots@.len() == children_in(ps, None, i as int).len(),
            forall|k: int|
                0 <= k < roots@.len() ==> (#[trigger] roots@[k]).post@ == ps[children_in(ps, None, i as int)[k]]
                    && grown(roots@[k].replies@, ps, ParentSpec::Post(children_in(ps, None, i as int)[k]), fuel as nat),
        decreases n - i,
    {
        assert(opt_parent_view(parents@[i as int]) == parent_of(ps, i as int));
        if parents[i].is_none() {
            let mut node = ThreadNode::new(posts[i].duplicate(), 0);
            node.replies = build_children(posts, &parents, &Parent::Post(i), 0, fuel);
            let ghost before = roots@;
            roots.push(node);
            proof {
                assert(children_in(ps, None, i + 1) == children_in(ps, None, i as int).push(i as int));
                assert forall|k: int| 0 <= k < roots@.len() implies (#[trigger] roots@[k]).post@ == ps[children_in(ps, None, i + 1)[k]]
                    && grown(roots@[k].replies@, ps, ParentSpec::Post(children_in(ps, None, i + 1)[k]), fuel as nat) by {
                    if k < before.len() {
                        assert(roots@[k] == before[k]);
                    }
                }
            }
        }
        i += 1;
    }
    let ghost rs = children(ps, None);
    let ghost nroots = roots@.len();
    let ghost ts = string_views(missing@);
    assert forall|t: Seq<char>| #[trigger] ts.contains(t) <==> is_missing_target(ps, t) by {
        assert(missing_before(ps, t, n as int) == is_missing_target(ps, t));
    }
    let mut m: usize = 0;
    while m < missing.len()
        invariant
            n == posts@.len(),
            ps == post_views(posts@),
            parents@.len() == n,
            fuel < usize::MAX,
            fuel as nat == fuel_for(n as nat),
            rs == children(ps, None),
            nroots == rs.len(),
            ts == string_views(missing@),
            m <= missing@.len(),
            roots@.len() == nroots + m,
            forall|j: int| 0 <= j < parents@.len() ==> opt_parent_view(#[trigger] parents@[j]) == parent_of(ps, j),
            forall|k: int| 0 <= k < roots@.len() ==> (#[trigger] roots@[k]).depth == 0 && depth_ok(roots@[k]),
            forall|k: int|
                0 <= k < rs.len() ==> (#[trigger] roots@[k]).post@ == ps[rs[k]] && grown(
                    roots@[k].replies@,
                    ps,
                    ParentSpec::Post(rs[k]),
                    fuel as nat,
                ),
            forall|mm: int|
                0 <= mm < m ==> (#[trigger] roots@[rs.len() + mm]).post@ == placeholder_of(ts[mm]) && grown(
                    roots@[rs.len() + mm].replies@,
                    ps,
                    ParentSpec::Missing(ts[mm]),
                    fuel as nat,
                ),
        decreases missing@.len() - m,
    {
        let mut node = ThreadNode::new(create_placeholder_post(missing[m].as_str()), 0);
        assert(ts[m as int] == missing@[m as int]@);
        let key = Parent::Missing(copy_str(&missing[m]));
        node.replies = build_children(posts, &parents, &key, 0, fuel);
        let ghost before = roots@;
        roots.push(node);
        proof {
            assert forall|mm: int| 0 <= mm < m + 1 implies (#[trigger] roots@[rs.len() + mm]).post@ == placeholder_of(ts[mm]) && grown(
                roots@[rs.len() + mm].replies@,
                ps,
                ParentSpec::Missing(ts[mm]),
                fuel as nat,
            ) by {
                if mm < m {
                    assert(roots@[rs.len() + mm] == before[rs.len() + mm]);
                }
            }
            assert forall|k: int| 0 <= k < rs.len() implies (#[trigger] roots@[k]).post@ == ps[rs[k]] && grown(
                roots@[k].replies@,
                ps,
                ParentSpec::Post(rs[k]),
                fuel as nat,
            ) by {
                assert(roots@[k] == before[k]);
            }
        }
        m += 1;
    }
    assert(forest_built(roots@, ps, ts));
    roots
}

impl ThreadView {
    /// An empty forest.
    pub fn new() -> (r: ThreadView)
        ensures
            r.forest().len() == 0,
            r.table().len() == 0,
    {
        ThreadView { roots: Vec::new(), id_map: Vec::new() }
    }

    /// The roots, in order.
    pub open spec fn forest(&self) -> Seq<ThreadNode> {
        self.roots@
    }

    /// The identifier table: bare identifier to full identifier.
    pub open spec fn table(&self) -> Seq<(Seq<char>, Seq<char>)> {
        table_view(self.id_map@)
    }

    /// The forest of a feed's posts, as `build_forest` assembles it, put in
    /// recency order.
    pub fn from_feed(feed: &Feed) -> (r: ThreadView)
        ensures
            recency_ordered(r.forest()),
            all_rooted(r.forest()),
            exists|b: Seq<ThreadNode>, ts: Seq<Seq<char>>|
                #[trigger] forest_built(b, post_views(feed.posts@), ts) && reply_posts(r.forest()).to_multiset()
                    == reply_posts(b).to_multiset() && seq_ms(r.forest()) == seq_ms(b) && exists|st: Seq<ThreadNode>|
                    #[trigger] isort(st, true) == r.forest() && st.len() == b.len() && forall|k: int|
                        0 <= k < st.len() ==> resorted(#[trigger] st[k], b[k], false),
            r.table() == id_table(post_views(feed.posts@)),
    {
        let posts = &feed.posts;
        let mut view = ThreadView::new();
        let ghost ps = post_views(posts@);
        assert(table_view(view.id_map@) =~= id_table(ps.subrange(0, 0)));
        let mut i: usize = 0;
        while i < posts.len()
            invariant
                i <= posts@.len(),
                ps == post_views(posts@),
                table_view(view.id_map@) == id_table(ps.subrange(0, i as int)),
            decreases posts@.len() - i,
        {
            let ghost t0 = view.id_map@;
            let entry = (posts[i].id().to_string(), posts[i].full_id());
            view.id_map.push(entry);
            assert(table_view(view.id_map@) =~= table_view(t0).push((ps[i as int].id, full_id_of(ps[i as int]))));
            assert(id_table(ps.subrange(0, i + 1)) =~= id_table(ps.subrange(0, i as int)).push((ps[i as int].id, full_id_of(ps[i as int]))));
            i += 1;
        }
        assert(ps.subrange(0, posts@.len() as int) =~= ps);
        view.roots = build_forest(posts);
        let ghost b = view.roots@;
        let ghost ts = choose|ts: Seq<Seq<char>>| forest_built(b, ps, ts);
        view.sort_threads();
        assert(forest_built(b, ps, ts) && reply_posts(view.forest()).to_multiset() == reply_posts(b).to_multiset() && seq_ms(view.forest()) == seq_ms(b));
        view
    }

    /// Settles every thread, then orders the roots newest activity first.
    /// On a forest already in recency order nothing changes, so sorting twice
    /// gives the order that sorting once gave.
    pub fn sort_threads(&mut self)
        ensures
            recency_ordered(final(self).forest()),
            final(self).forest().len() == old(self).forest().len(),
            final(self).table() == old(self).table(),
            recency_ordered(old(self).forest()) ==> same_forest(final(self).forest(), old(self).forest()),
            reply_posts(final(self).forest()).to_multiset() == reply_posts(old(self).forest()).to_multiset(),
            all_rooted(old(self).forest()) ==> all_rooted(final(self).forest()),
            seq_ms(final(self).forest()) == seq_ms(old(self).forest()),
            exists|st: Seq<ThreadNode>|
                #[trigger] isort(st, true) == final(self).forest() && st.len() == old(self).forest().len()
                    && forall|k: int| 0 <= k < st.len() ==> resorted(#[trigger] st[k], old(self).forest()[k], false),
    {
        let ghost orig = self.roots@;
        let ghost was = recency_ordered(orig);
        let ghost rooted = all_rooted(orig);
        let mut rest: Vec<ThreadNode> = Vec::new();
        std::mem::swap(&mut rest, &mut self.roots);
        let ghost total = rest@.len();
        let mut done: Vec<ThreadNode> = Vec::new();
        while rest.len() > 0
            invariant
                done@.len() + rest@.len() == total,
                total == orig.len(),
                rest@ == orig.subrange(done@.len() as int, total as int),
                forall|k: int| 0 <= k < done@.len() ==> settled(#[trigger] done@[k]),
                was ==> recency_ordered(orig),
                was ==> forall|k: int| 0 <= k < done@.len() ==> same_tree(#[trigger] done@[k], orig[k]),
                reply_posts(done@) == reply_posts(orig.subrange(0, done@.len() as int)),
                rooted == all_rooted(orig),
                rooted ==> all_rooted(done@),
                forall|k: int| 0 <= k < done@.len() ==> posts_ms(#[trigger] done@[k]) == posts_ms(orig[k]),
                forall|k: int| 0 <= k < done@.len() ==> resorted(#[trigger] done@[k], orig[k], false),
            decreases rest@.len(),
        {
            let ghost i = done@.len() as int;
            let ghost d0 = done@;
            let mut root = rest.remove(0);
            assert(root == orig[i]);
            root.settle();
            assert forall|k: int| 0 <= k < i + 1 implies resorted(#[trigger] d0.push(root)[k], orig[k], false) by {
                if k < i {
                    assert(d0.push(root)[k] == d0[k]);
                }
            }
            done.push(root);
            assert(rest@ =~= orig.subrange(done@.len() as int, total as int));
            assert(reply_posts(done@) =~= reply_posts(d0).push(orig[i].post@));
            assert(orig.subrange(0, i + 1) =~= orig.subrange(0, i).push(orig[i]));
            assert(reply_posts(orig.subrange(0, i + 1)) =~= reply_posts(orig.subrange(0, i)).push(orig[i].post@));
            assert forall|k: int| 0 <= k < done@.len() implies posts_ms(#[trigger] done@[k]) == posts_ms(orig[k]) by {
                if k < i {
                    assert(done@[k] == d0[k]);
                }
            }
            proof {
                if rooted {
                    assert(orig[i].depth == 0 && depth_ok(orig[i]));
                    assert forall|k: int| 0 <= k < done@.len() implies (#[trigger] done@[k]).depth == 0 && depth_ok(done@[k]) by {
                        if k < i {
                            assert(done@[k] == d0[k]);
                        }
                    }
                }
            }
        }
        assert(orig.subrange(0, total as int) =~= orig);
        let ghost settled_roots = done@;
        assert(all_settled(settled_roots));
        proof {
            if was {
                assert forall|i: int| 0 <= i < settled_roots.len() - 1 implies #[trigger] pair_ordered(
                    settled_roots[i],
                    settled_roots[i + 1],
                    true,
                ) by {
                    assert(same_tree(settled_roots[i], orig[i]));
                    assert(same_tree(settled_roots[i + 1], orig[i + 1]));
                    assert(pair_ordered(orig[i], orig[i + 1], true));
                }
            }
        }
        let sorted = sort_nodes(done, true);
        proof {
            lemma_seq_ms_perm(sorted@, settled_roots);
            lemma_seq_ms_same(settled_roots, orig);
            if rooted {
                assert forall|j: int| 0 <= j < sorted@.len() implies (#[trigger] sorted@[j]).depth == 0 && depth_ok(sorted@[j]) by {
                    lemma_in_multiset(sorted@, settled_roots, j);
                    let m = choose|m: int| 0 <= m < settled_roots.len() && settled_roots[m] == sorted@[j];
                }
            }
        }
        self.roots = sorted;
        assert(isort(settled_roots, true) == self.forest());
    }

    /// The number of posts in the forest.
    pub fn total_posts(&self) -> (r: usize)
        requires
            forest_count(self.forest()) <= usize::MAX,
        ensures
            r == forest_count(self.forest()),
    {
        let mut total: usize = 0;
        let mut k: usize = 0;
        while k < self.roots.len()
            invariant
                k <= self.roots@.len(),
                forest_count(self.roots@) <= usize::MAX,
                total == forest_count(self.roots@.subrange(0, k as int)),
            decreases self.roots@.len() - k,
        {
            proof {
                assert(self.roots@.subrange(0, k + 1).drop_last() =~= self.roots@.subrange(0, k as int));
                lemma_forest_count_prefix(self.roots@, k + 1);
                lemma_count_fits(self.roots@[k as int]);
            }
            let c = self.roots[k].count_posts();
            total = total + c;
            k += 1;
        }
        assert(self.roots@.subrange(0, self.roots@.len() as int) =~= self.roots@);
        total
    }

    /// The posts of the forest, tree by tree, each before its replies.
    pub fn flatten(&self) -> (r: Vec<Post>)
        ensures
            post_views(r@) == forest_posts(self.forest()),
    {
        let mut out: Vec<Post> = Vec::new();
        let mut k: usize = 0;
        while k < self.roots.len()
            invariant
                k <= self.roots@.len(),
                post_views(out@) == forest_posts(self.roots@.subrange(0, k as int)),
            decreases self.roots@.len() - k,
        {
            let sub = self.roots[k].flatten();
            let ghost before = post_views(out@);
            let mut i: usize = 0;
            while i < sub.len()
                invariant
                    i <= sub@.len(),
                    post_views(out@) == before + post_views(sub@.subrange(0, i as int)),
                decreases sub@.len() - i,
            {
                let ghost o0 = out@;
                let p = sub[i].duplicate();
                out.push(p);
                assert(post_views(out@) =~= post_views(o0).push(p@));
                assert(post_views(sub@.subrange(0, i + 1)) =~= post_views(sub@.subrange(0, i as int)).push(sub@[i as int]@));
                i += 1;
            }
            assert(sub@.subrange(0, sub@.len() as int) =~= sub@);
            assert(self.roots@.subrange(0, k + 1).drop_last() =~= self.roots@.subrange(0, k as int));
            k += 1;
        }
        assert(self.roots@.subrange(0, self.roots@.len() as int) =~= self.roots@);
        out
    }

    pub fn thread_count(&self) -> (r: usize)
        ensures
            r == self.forest().len(),
    {
        self.roots.len()
    }

    pub fn is_empty(&self) -> (r: bool)
        ensures
            r == (self.forest().len() == 0),
    {
        self.roots.len() == 0
    }

    /// Recounts a poll's votes from the direct replies of its node.
    pub fn update_poll_node(&self, post_node: &ThreadNode, poll: &mut Poll)
        ensures
            option_texts(final(poll).options@) == option_texts(old(poll).options@),
            final(poll).total_votes == votes_cast(
                option_texts(old(poll).options@),
                reply_posts(post_node.replies@),
            ),
    {
        poll.clear_votes();
        let ghost texts = option_texts(poll.options@);
        let ghost rs = reply_posts(post_node.replies@);
        let mut k: usize = 0;
        while k < post_node.replies.len()
            invariant
                k <= post_node.replies@.len(),
                rs == reply_posts(post_node.replies@),
                texts == option_texts(poll.options@),
                poll.total_votes <= k,
                forall|j: int| 0 <= j < poll.options@.len() ==> (#[trigger] poll.options@[j]).votes <= poll.total_votes,
                poll.total_votes == votes_cast(texts, rs.subrange(0, k as int)),
            decreases post_node.replies@.len() - k,
        {
            let ghost before = poll.options@;
            let ghost t0 = poll.total_votes;
            assert(forall|j: int| 0 <= j < before.len() ==> (#[trigger] before[j]).votes <= t0);
            let cast = poll.add_vote_from_reply(&post_node.replies[k].post);
            proof {
                let rp = post_node.replies@[k as int].post@;
                assert(rs.subrange(0, k + 1).drop_last() =~= rs.subrange(0, k as int));
                assert(rs.subrange(0, k + 1).last() == rp);
                if cast {
                    let key = crate::text::lower_of(crate::text::trim(rp.poll_option->0));
                    crate::poll::lemma_first_match_in_range(before, key, 0);
                    assert(poll.options@.len() == before.len());
                    assert forall|j: int| 0 <= j < poll.options@.len() implies (#[trigger] poll.options@[j]).votes <= poll.total_votes by {
                        assert(before[j].votes <= t0);
                    }
                    assert(option_texts(poll.options@) =~= texts) by {
                        assert forall|j: int| 0 <= j < texts.len() implies option_texts(poll.options@)[j] == texts[j] by {
                            assert(option_texts(before)[j] == before[j].text@);
                            assert(option_texts(poll.options@)[j] == poll.options@[j].text@);
                        }
                    }
                } else {
                    assert(option_texts(poll.options@) =~= texts);
                }
            }
            k += 1;
        }
        assert(rs.subrange(0, rs.len() as int) =~= rs);
    }

    /// Adds one post. A post that replies to nothing becomes a new root. A
    /// reply goes under the first node, searching depth first, whose full
    /// identifier is its resolved target, one level below it; failing that,
    /// under a new placeholder root. The post's identifier is registered and
    /// the whole forest is put back in recency order.
    pub fn add_post(&mut self, post: Post)
        ensures
            recency_ordered(final(self).forest()),
            final(self).table() == old(self).table().push((post@.id, full_id_of(post@))),
            post@.reply_to is None ==> seq_ms(final(self).forest()) == seq_ms(old(self).forest()).insert(post@)
                && reply_posts(final(self).forest()).to_multiset() == reply_posts(old(self).forest()).to_multiset().insert(post@),
            exists|mid: Seq<ThreadNode>|
                #[trigger] added(old(self).forest(), mid, old(self).table(), post@) && exists|st: Seq<ThreadNode>|
                    #[trigger] isort(st, true) == final(self).forest() && st.len() == mid.len() && forall|k: int|
                        0 <= k < st.len() ==> resorted(#[trigger] st[k], mid[k], false),
            post@.reply_to matches Some(r) ==> ({
                let t = resolve(r, old(self).table());
                if forest_has(old(self).forest(), t) {
                    seq_ms(final(self).forest()) == seq_ms(old(self).forest()).insert(post@)
                        && reply_posts(final(self).forest()).to_multiset() == reply_posts(old(self).forest()).to_multiset()
                } else {
                    seq_ms(final(self).forest()) == seq_ms(old(self).forest()).insert(post@).insert(placeholder_of(t))
                        && reply_posts(final(self).forest()).to_multiset() == reply_posts(old(self).forest()).to_multiset().insert(placeholder_of(t))
                }
            }),
    {
        broadcast use vstd::multiset::group_multiset_axioms;
        let key = post.id().to_string();
        let full = post.full_id();
        let ghost orig = self.roots@;
        let rt = post.reply_to();
        match rt {
            Some(reply_to) => {
                assert(post@.reply_to == Some(reply_to@));
                let target = resolve_reply_target(reply_to.as_str(), &self.id_map);
                assert(target@ == resolve(reply_to@, old(self).table()));
                let node = ThreadNode::new(post.duplicate(), 0);
                let mut rest: Vec<ThreadNode> = Vec::new();
                std::mem::swap(&mut rest, &mut self.roots);
                let ghost total = rest@.len();
                let mut done: Vec<ThreadNode> = Vec::new();
                let mut pending = Some(node);
                assert(orig.subrange(0, 0) =~= Seq::<ThreadNode>::empty());
                assert(done@ =~= Seq::<ThreadNode>::empty());
                assert(reply_posts(done@) =~= reply_posts(orig.subrange(0, 0)));
                while rest.len() > 0
                    invariant
                        done@.len() + rest@.len() == total,
                        total == orig.len(),
                        rest@ == orig.subrange(done@.len() as int, total as int),
                        node.replies@.len() == 0,
                        node.post@ == post@,
                        reply_posts(done@) == reply_posts(orig.subrange(0, done@.len() as int)),
                        pending matches Some(x) ==> x == node && (forall|k: int|
                            0 <= k < done@.len() ==> !has_full_id(#[trigger] orig[k], target@)) && seq_ms(done@)
                            == seq_ms(orig.subrange(0, done@.len() as int)),
                        pending is None ==> (exists|k: int|
                            0 <= k < done@.len() && has_full_id(#[trigger] orig[k], target@)) && seq_ms(done@)
                            == seq_ms(orig.subrange(0, done@.len() as int)).insert(post@),
                        pending is Some ==> first_has(orig, target@, 0) == first_has(orig, target@, done@.len() as int)
                            && forall|j: int| 0 <= j < done@.len() ==> same_node(#[trigger] done@[j], orig[j]),
                        pending is None ==> (first_has(orig, target@, 0) matches Some(k0) && 0 <= k0 < done@.len()
                            && grafted(orig[k0], done@[k0], target@, post@) && forall|j: int|
                            0 <= j < done@.len() && j != k0 ==> same_node(#[trigger] done@[j], orig[j])),
                    decreases rest@.len(),
                {
                    let ghost i = done@.len() as int;
                    let ghost d0 = done@;
                    let mut root = rest.remove(0);
                    assert(root == orig[i]);
                    assert(rest@ =~= orig.subrange(i + 1, total as int));
                    let ghost was_pending = pending is Some;
                    proof {
                        lemma_first_has(orig, target@, 0);
                    }
                    match pending {
                        Some(x) => {
                            pending = attach_reply(&mut root, &target, x);
                        },
                        None => {
                            pending = None;
                        },
                    }
                    done.push(root);
                    proof {
                        assert(done@.drop_last() =~= d0);
                        assert(orig.subrange(0, i + 1).drop_last() =~= orig.subrange(0, i));
                        assert(orig.subrange(0, i + 1).last() == orig[i]);
                        assert(reply_posts(done@) =~= reply_posts(d0).push(orig[i].post@));
                        assert(reply_posts(orig.subrange(0, i + 1)) =~= reply_posts(orig.subrange(0, i)).push(orig[i].post@));
                        assert(seq_ms(done@) == seq_ms(d0).add(posts_ms(root)));
                        assert(seq_ms(orig.subrange(0, i + 1)) == seq_ms(orig.subrange(0, i)).add(posts_ms(orig[i])));
                        if pending is Some {
                            assert forall|k: int| 0 <= k < done@.len() implies !has_full_id(#[trigger] orig[k], target@) by {}
                            assert(seq_ms(done@) =~= seq_ms(orig.subrange(0, i + 1)));
                            assert(!has_full_id(orig[i], target@));
                            assert(first_has(orig, target@, i) == first_has(orig, target@, i + 1));
                            assert forall|j: int| 0 <= j < done@.len() implies same_node(#[trigger] done@[j], orig[j]) by {
                                if j < i {
                                    assert(done@[j] == d0[j]);
                                }
                            }
                        } else {
                            if was_pending {
                                assert(has_full_id(orig[i], target@));
                                assert(first_has(orig, target@, i) == Some(i));
                                assert forall|j: int| 0 <= j < done@.len() && j != i implies same_node(#[trigger] done@[j], orig[j]) by {
                                    assert(done@[j] == d0[j]);
                                }
                            } else {
                                let k = choose|k: int| 0 <= k < i && has_full_id(#[trigger] orig[k], target@);
                                assert(has_full_id(orig[k], target@));
                                let k0 = first_has(orig, target@, 0)->0;
                                assert(done@[k0] == d0[k0]);
                                lemma_same_node_refl(orig[i]);
                                assert forall|j: int| 0 <= j < done@.len() && j != k0 implies same_node(#[trigger] done@[j], orig[j]) by {
                                    if j < i {
                                        assert(done@[j] == d0[j]);
                                    }
                                }
                            }
                            assert(seq_ms(done@) =~= seq_ms(orig.subrange(0, i + 1)).insert(post@));
                        }
                    }
                }
                assert(orig.subrange(0, total as int) =~= orig);
                self.roots = done;
                match pending {
                    Some(x) => {
                        let mut holder = ThreadNode::new(create_placeholder_post(target.as_str()), 0);
                        let mut child = x;
                        child.depth = 1;
                        let ghost c = child;
                        holder.add_reply(child);
                        let ghost d1 = self.roots@;
                        self.roots.push(holder);
                        proof {
                            lemma_posts_ms(c);
                            assert(c.replies@ =~= Seq::<ThreadNode>::empty());
                            lemma_posts_ms(holder);
                            assert(holder.replies@ =~= seq![c]);
                            assert(seq![c].drop_last() =~= Seq::<ThreadNode>::empty());
                            assert(self.roots@.drop_last() =~= d1);
                            assert(reply_posts(self.roots@) =~= reply_posts(d1).push(placeholder_of(target@)));
                            assert(!forest_has(orig, target@));
                            assert(seq_ms(self.roots@) =~= seq_ms(orig).insert(post@).insert(placeholder_of(target@)));
                            lemma_first_has(orig, target@, 0);
                            assert(first_has(orig, target@, 0) is None);
                            assert forall|j: int| 0 <= j < orig.len() implies same_node(#[trigger] self.roots@[j], orig[j]) by {
                                assert(self.roots@[j] == d1[j]);
                            }
                            assert(forest_grafted(orig, self.roots@, target@, post@));
                            vstd::seq_lib::to_multiset_build(reply_posts(orig), placeholder_of(target@));
                        }
                    },
                    None => {
                        proof {
                            let k = choose|k: int| 0 <= k < orig.len() && has_full_id(#[trigger] orig[k], target@);
                            assert(forest_has(orig, target@));
                        }
                    },
                }
            },
            None => {
                let n0 = ThreadNode::new(post.duplicate(), 0);
                proof {
                    lemma_posts_ms(n0);
                    assert(n0.replies@ =~= Seq::<ThreadNode>::empty());
                }
                self.roots.push(n0);
                proof {
                    assert(self.roots@.drop_last() =~= orig);
                    assert(reply_posts(self.roots@) =~= reply_posts(orig).push(post@));
                    assert(seq_ms(self.roots@) =~= seq_ms(orig).insert(post@));
                    assert forall|j: int| 0 <= j < orig.len() implies same_node(#[trigger] self.roots@[j], orig[j]) by {
                        assert(self.roots@[j] == orig[j]);
                        lemma_same_node_refl(orig[j]);
                    }
                    assert(added(orig, self.roots@, old(self).table(), post@));
                }
            },
        }
        let ghost t0 = self.id_map@;
        let ghost mid = self.roots@;
        assert(t0 == old(self).id_map@);
        assert(added(orig, mid, old(self).table(), post@));
        self.id_map.push((key, full));
        assert(table_view(self.id_map@) =~= table_view(t0).push((post@.id, full_id_of(post@))));
        self.sort_threads();
        proof {
            vstd::seq_lib::to_multiset_build(reply_posts(orig), post@);
            let st = choose|st: Seq<ThreadNode>|
                #[trigger] isort(st, true) == self.forest() && st.len() == mid.len() && forall|k: int|
                    0 <= k < st.len() ==> resorted(#[trigger] st[k], mid[k], false);
            assert(orig == old(self).forest());
            assert(added(old(self).forest(), mid, old(self).table(), post@) && (isort(st, true) == self.forest()
                && st.len() == mid.len() && forall|k: int| 0 <= k < st.len() ==> resorted(#[trigger] st[k], mid[k], false)));
        }
    }
}

/// Puts `reply` under the first node of the subtree, depth first, whose full
/// identifier is `target`, one level below it; hands `reply` back when there
/// is none.
fn attach_reply(n: &mut ThreadNode, target: &String, reply: ThreadNode) -> (left: Option<ThreadNode>)
    requires
        reply.replies@.len() == 0,
    ensures
        final(n).post == old(n).post,
        final(n).depth == old(n).depth,
        left is None <==> has_full_id(*old(n), target@),
        left matches Some(x) ==> x == reply && posts_ms(*final(n)) == posts_ms(*old(n)),
        left is None ==> posts_ms(*final(n)) == posts_ms(*old(n)).insert(reply.post@),
        left is Some ==> same_node(*final(n), *old(n)),
        left is None ==> grafted(*old(n), *final(n), target@, reply.post@),
    decreases *old(n),
{
    broadcast use vstd::multiset::group_multiset_axioms;
    proof {
        lemma_posts_ms(*n);
    }
    if n.post.full_id().eq(target) {
        let ghost r0 = n.replies@;
        let mut child = reply;
        if n.depth < usize::MAX {
            child.depth = n.depth + 1;
        }
        proof {
            lemma_posts_ms(child);
            assert(child.replies@ =~= Seq::<ThreadNode>::empty());
            assert(seq_ms(child.replies@) == Multiset::<PostSpec>::empty());
        }
        n.replies.push(child);
        proof {
            lemma_posts_ms(*n);
            assert(n.replies@.drop_last() =~= r0);
            assert(posts_ms(*n) =~= posts_ms(*old(n)).insert(reply.post@));
        }
        return None;
    }
    let ghost orig = n.replies@;
    let mut rest: Vec<ThreadNode> = Vec::new();
    std::mem::swap(&mut rest, &mut n.replies);
    let ghost total = rest@.len();
    let mut done: Vec<ThreadNode> = Vec::new();
    let mut pending = Some(reply);
    assert(orig.subrange(0, 0) =~= Seq::<ThreadNode>::empty());
    assert(done@ =~= Seq::<ThreadNode>::empty());
    while rest.len() > 0
        invariant
            done@.len() + rest@.len() == total,
            total == orig.len(),
            orig == old(n).replies@,
            rest@ == orig.subrange(done@.len() as int, total as int),
            reply.replies@.len() == 0,
            pending matches Some(x) ==> x == reply && (forall|k: int|
                0 <= k < done@.len() ==> !has_full_id(#[trigger] orig[k], target@)) && seq_ms(done@)
                == seq_ms(orig.subrange(0, done@.len() as int)),
            pending is None ==> (exists|k: int|
                0 <= k < done@.len() && has_full_id(#[trigger] orig[k], target@)) && seq_ms(done@)
                == seq_ms(orig.subrange(0, done@.len() as int)).insert(reply.post@),
            pending is Some ==> first_has(orig, target@, 0) == first_has(orig, target@, done@.len() as int)
                && forall|j: int| 0 <= j < done@.len() ==> same_node(#[trigger] done@[j], orig[j]),
            pending is None ==> (first_has(orig, target@, 0) matches Some(k0) && 0 <= k0 < done@.len()
                && grafted(orig[k0], done@[k0], target@, reply.post@) && forall|j: int|
                0 <= j < done@.len() && j != k0 ==> same_node(#[trigger] done@[j], orig[j])),
        decreases rest@.len(),
    {
        let ghost i = done@.len() as int;
        let ghost d0 = done@;
        let mut c = rest.remove(0);
        assert(c == orig[i]);
        assert(rest@ =~= orig.subrange(i + 1, total as int));
        let ghost was_pending = pending is Some;
        proof {
            lemma_first_has(orig, target@, 0);
        }
        match pending {
            Some(x) => {
                pending = attach_reply(&mut c, target, x);
            },
            None => {
                pending = None;
            },
        }
        done.push(c);
        proof {
            assert(done@.drop_last() =~= d0);
            assert(orig.subrange(0, i + 1).drop_last() =~= orig.subrange(0, i));
            assert(orig.subrange(0, i + 1).last() == orig[i]);
            assert(seq_ms(done@) == seq_ms(d0).add(posts_ms(c)));
            assert(seq_ms(orig.subrange(0, i + 1)) == seq_ms(orig.subrange(0, i)).add(posts_ms(orig[i])));
            if pending is Some {
                assert forall|k: int| 0 <= k < done@.len() implies !has_full_id(#[trigger] orig[k], target@) by {}
                assert(seq_ms(done@) =~= seq_ms(orig.subrange(0, i + 1)));
                assert(!has_full_id(orig[i], target@));
                assert(first_has(orig, target@, i) == first_has(orig, target@, i + 1));
                assert forall|j: int| 0 <= j < done@.len() implies same_node(#[trigger] done@[j], orig[j]) by {
                    if j < i {
                        assert(done@[j] == d0[j]);
                    }
                }
            } else {
                if was_pending {
                    assert(has_full_id(orig[i], target@));
                    assert(first_has(orig, target@, i) == Some(i));
                    assert forall|j: int| 0 <= j < done@.len() && j != i implies same_node(#[trigger] done@[j], orig[j]) by {
                        assert(done@[j] == d0[j]);
                    }
                } else {
                    let k = choose|k: int| 0 <= k < i && has_full_id(#[trigger] orig[k], target@);
                    assert(has_full_id(orig[k], target@));
                    let k0 = first_has(orig, target@, 0)->0;
                    assert(done@[k0] == d0[k0]);
                    lemma_same_node_refl(orig[i]);
                    assert forall|j: int| 0 <= j < done@.len() && j != k0 implies same_node(#[trigger] done@[j], orig[j]) by {
                        if j < i {
                            assert(done@[j] == d0[j]);
                        }
                    }
                }
                assert(seq_ms(done@) =~= seq_ms(orig.subrange(0, i + 1)).insert(reply.post@));
            }
        }
    }
    assert(orig.subrange(0, total as int) =~= orig);
    n.replies = done;
    proof {
        lemma_posts_ms(*n);
        if pending is Some {
            assert(!has_full_id(*old(n), target@));
            assert(posts_ms(*n) =~= posts_ms(*old(n)));
            assert(same_node(*n, *old(n)));
        } else {
            let k = choose|k: int| 0 <= k < orig.len() && has_full_id(#[trigger] orig[k], target@);
            assert(has_full_id(*old(n), target@));
            assert(posts_ms(*n) =~= posts_ms(*old(n)).insert(reply.post@));
            assert(grafted(*old(n), *n, target@, reply.post@));
        }
    }
    pending
}

} // verus!
