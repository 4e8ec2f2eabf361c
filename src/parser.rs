//! Whole documents: the profile header, a `* Posts` line, then the posts.
use vstd::prelude::*;
use crate::text::{
    lines, lines_of, string_of_vec, string_views, char_views, join, join_lines,
    lemma_string_views_push, lemma_prefix_push,
};
use crate::profile::{Profile, ProfileSpec, profile_of_lines, profile_lines, ostr};
use crate::post::{Post, PostSpec, post_of_lines, post_lines, starts};
use crate::blocks::starts_with_chars;
use crate::text::chars_of;

verus! {

/// The index of the first line at or after `i` that starts with `* Posts`,
/// or the number of lines.
pub open spec fn posts_header(ls: Seq<Seq<char>>, i: int) -> int
    decreases ls.len() - i,
{
    if i < 0 || i >= ls.len() {
        ls.len() as int
    } else if starts(ls[i], "* Posts"@) {
        i
    } else {
        posts_header(ls, i + 1)
    }
}

/// The lines of the posts section grouped into posts: each post starts at a
/// line beginning with `**`; lines before the first such line belong to none.
pub open spec fn post_groups(ls: Seq<Seq<char>>) -> Seq<Seq<Seq<char>>>
    decreases ls.len(),
{
    if ls.len() == 0 {
        seq![]
    } else {
        let g = post_groups(ls.drop_last());
        let l = ls.last();
        if starts(l, "**"@) {
            g.push(seq![l])
        } else if g.len() == 0 {
            g
        } else {
            g.update(g.len() - 1, g.last().push(l))
        }
    }
}

/// The profile a document describes, with `source` attached.
pub open spec fn document_profile(text: Seq<char>, source: Option<Seq<char>>) -> ProfileSpec {
    let ls = lines_of(text);
    ProfileSpec { source, ..profile_of_lines(ls.subrange(0, posts_header(ls, 0))) }
}

/// The posts a document holds, in order, each with `source` attached.
pub open spec fn document_posts(text: Seq<char>, source: Option<Seq<char>>) -> Seq<PostSpec> {
    let ls = lines_of(text);
    let h = posts_header(ls, 0);
    if h < ls.len() {
        post_groups(ls.subrange(h + 1, ls.len() as int)).map_values(
            |g: Seq<Seq<char>>| PostSpec { source, ..post_of_lines(g) },
        )
    } else {
        seq![]
    }
}

/// `xs` with an empty line between each two.
pub open spec fn spaced(xs: Seq<Seq<char>>) -> Seq<Seq<char>>
    decreases xs.len(),
{
    if xs.len() == 0 {
        seq![]
    } else if xs.len() == 1 {
        seq![xs[0]]
    } else {
        spaced(xs.drop_last()) + seq![seq![], xs.last()]
    }
}

pub open spec fn post_text(p: PostSpec) -> Seq<char> {
    join(post_lines(p), seq!['\n'])
}

/// The lines of a serialized document: the profile text and a blank line
/// (when the profile text is non-empty), then, when there are posts, the
/// `* Posts` line and the posts separated by blank lines.
pub open spec fn document_lines(p: ProfileSpec, ps: Seq<PostSpec>) -> Seq<Seq<char>> {
    let pc = join(profile_lines(p), seq!['\n']);
    (if pc.len() > 0 {
        seq![pc, seq![]]
    } else {
        seq![]
    }) + (if ps.len() > 0 {
        seq!["* Posts"@] + spaced(ps.map_values(|q: PostSpec| post_text(q)))
    } else {
        seq![]
    })
}

pub open spec fn post_views(ps: Seq<Post>) -> Seq<PostSpec> {
    ps.map_values(|p: Post| p@)
}

fn lines_as_strings(s: &str) -> (r: Vec<String>)
    ensures
        string_views(r@) == lines_of(s@),
{
    let ls = lines(s);
    let mut out: Vec<String> = Vec::new();
    let mut i: usize = 0;
    while i < ls.len()
        invariant
            i <= ls@.len(),
            string_views(out@) == char_views(ls@.subrange(0, i as int)),
            char_views(ls@) == lines_of(s@),
        decreases ls@.len() - i,
    {
        let ghost before = out@;
        let l = string_of_vec(&ls[i]);
        out.push(l);
        proof {
            lemma_string_views_push(before, l);
            lemma_prefix_push(ls@, i as int);
            assert(char_views(ls@.subrange(0, i + 1)) =~= char_views(ls@.subrange(0, i as int)).push(
                ls@[i as int]@,
            ));
        }
        i += 1;
    }
    assert(ls@.subrange(0, ls@.len() as int) =~= ls@);
    out
}

fn line_starts(l: &String, pre: &str) -> (r: bool)
    ensures
        r == starts(l@, pre@),
{
    let v = chars_of(l.as_str());
    let p = chars_of(pre);
    let r = starts_with_chars(&v, &p);
    proof {
        if r {
            assert(v@.subrange(0, p@.len() as int) == p@);
        }
        if starts(l@, pre@) {
            assert(v@.subrange(0, p@.len() as int) == p@);
        }
    }
    r
}

fn copy_source(o: &Option<String>) -> (r: Option<String>)
    ensures
        ostr(r) == ostr(*o),
{
    match o {
        Some(s) => Some(s.clone()),
        None => None,
    }
}

/// Splits a document into its profile and its posts; `source` is attached to
/// the profile and to every post.
pub fn parse_file(file_content: &str, source: Option<String>) -> (r: (Profile, Vec<Post>))
    ensures
        r.0@ == document_profile(file_content@, ostr(source)),
        post_views(r.1@) == document_posts(file_content@, ostr(source)),
{
    let ls = lines_as_strings(file_content);
    let ghost lv = lines_of(file_content@);
    let n = ls.len();
    let mut h: usize = 0;
    while h < n && !line_starts(&ls[h], "* Posts")
        invariant
            h <= n == ls@.len(),
            string_views(ls@) == lv,
            posts_header(lv, 0) == posts_header(lv, h as int),
        decreases n - h,
    {
        assert(ls@[h as int]@ == lv[h as int]);
        h += 1;
    }
    proof {
        if h < n {
            assert(ls@[h as int]@ == lv[h as int]);
        }
    }
    let mut head: Vec<String> = Vec::new();
    let mut i: usize = 0;
    while i < h
        invariant
            i <= h <= n == ls@.len(),
            string_views(head@) == string_views(ls@.subrange(0, i as int)),
        decreases h - i,
    {
        let ghost before = head@;
        head.push(ls[i].clone());
        proof {
            lemma_string_views_push(before, ls@[i as int]);
            lemma_prefix_push(ls@, i as int);
            lemma_string_views_push(ls@.subrange(0, i as int), ls@[i as int]);
        }
        i += 1;
    }
    assert(string_views(ls@.subrange(0, h as int)) =~= lv.subrange(0, h as int));
    let mut profile = Profile::from_lines(&head);
    profile.set_source(copy_source(&source));
    let mut posts: Vec<Post> = Vec::new();
    if h < n {
        let ghost sec = lv.subrange(h + 1, n as int);
        let mut groups: Vec<Vec<String>> = Vec::new();
        let mut k: usize = h + 1;
        while k < n
            invariant
                h < k <= n == ls@.len(),
                string_views(ls@) == lv,
                sec == lv.subrange(h + 1, n as int),
                groups@.map_values(|g: Vec<String>| string_views(g@)) == post_groups(
                    sec.subrange(0, k - h - 1),
                ),
            decreases n - k,
        {
            let ghost before = groups@.map_values(|g: Vec<String>| string_views(g@));
            let ghost l = lv[k as int];
            assert(ls@[k as int]@ == l);
            assert(sec.subrange(0, k - h) =~= sec.subrange(0, k - h - 1).push(l));
            assert(sec.subrange(0, k - h).drop_last() =~= sec.subrange(0, k - h - 1));
            if line_starts(&ls[k], "**") {
                let mut g: Vec<String> = Vec::new();
                g.push(ls[k].clone());
                assert(string_views(g@) =~= seq![l]);
                groups.push(g);
                assert(groups@.map_values(|g: Vec<String>| string_views(g@)) =~= before.push(
                    seq![l],
                ));
            } else if groups.len() > 0 {
                let last = groups.len() - 1;
                let mut g = groups.pop().unwrap();
                let ghost g0 = g@;
                g.push(ls[k].clone());
                proof {
                    lemma_string_views_push(g0, ls@[k as int]);
                }
                groups.push(g);
                assert(groups@.map_values(|g: Vec<String>| string_views(g@)) =~= before.update(
                    last as int,
                    before.last().push(l),
                ));
            }
            k += 1;
        }
        assert(sec.subrange(0, n - h - 1) =~= sec);
        let ghost gv = groups@.map_values(|g: Vec<String>| string_views(g@));
        let mut j: usize = 0;
        while j < groups.len()
            invariant
                j <= groups@.len() == gv.len(),
                gv == groups@.map_values(|g: Vec<String>| string_views(g@)),
                post_views(posts@) == gv.subrange(0, j as int).map_values(
                    |g: Seq<Seq<char>>| PostSpec { source: ostr(source), ..post_of_lines(g) },
                ),
            decreases groups@.len() - j,
        {
            let ghost before = posts@;
            let mut post = Post::from_lines(&groups[j]);
            post.set_source(copy_source(&source));
            posts.push(post);
            assert(gv[j as int] == string_views(groups@[j as int]@));
            assert(post_views(posts@) =~= post_views(before).push(post@));
            assert(gv.subrange(0, j + 1).map_values(
                |g: Seq<Seq<char>>| PostSpec { source: ostr(source), ..post_of_lines(g) },
            ) =~= gv.subrange(0, j as int).map_values(
                |g: Seq<Seq<char>>| PostSpec { source: ostr(source), ..post_of_lines(g) },
            ).push(PostSpec { source: ostr(source), ..post_of_lines(gv[j as int]) }));
            j += 1;
        }
        assert(gv.subrange(0, gv.len() as int) =~= gv);
    }
    (profile, posts)
}

/// Writes a document: the profile, a blank line, `* Posts`, then the posts
/// separated by blank lines.
pub fn serialize_file(profile: &Profile, posts: &[Post]) -> (r: String)
    ensures
        r@ == join(document_lines(profile@, post_views(posts@)), seq!['\n']),
{
    let mut output: Vec<String> = Vec::new();
    let profile_content = profile.to_org_social();
    if profile_content.unicode_len() > 0 {
        output.push(profile_content);
        output.push(String::new());
    }
    let ghost head = string_views(output@);
    let ghost texts = post_views(posts@).map_values(|q: PostSpec| post_text(q));
    if posts.len() > 0 {
        output.push(String::from_str("* Posts"));
        let ghost start = string_views(output@);
        let mut i: usize = 0;
        while i < posts.len()
            invariant
                0 < posts@.len(),
                i <= posts@.len(),
                texts == post_views(posts@).map_values(|q: PostSpec| post_text(q)),
                string_views(output@) == start + (if i == 0 {
                    seq![]
                } else {
                    spaced(texts.subrange(0, i as int)) + seq![seq![]]
                }),
            decreases posts@.len() - i,
        {
            let ghost before = string_views(output@);
            let ghost o0 = output@;
            let text = posts[i].to_org_social();
            output.push(text);
            let ghost o1 = output@;
            let blank = String::new();
            output.push(blank);
            proof {
                lemma_string_views_push(o0, text);
                lemma_string_views_push(o1, blank);
                assert(string_views(output@) == before.push(text@).push(seq![]));
                let a = texts.subrange(0, i + 1);
                assert(a.drop_last() =~= texts.subrange(0, i as int));
                assert(texts[i as int] == post_text(posts@[i as int]@));
                if i == 0 {
                    assert(spaced(a) =~= seq![texts[0]]);
                }
                assert(string_views(output@) =~= start + (spaced(a) + seq![seq![]]));
            }
            i += 1;
        }
        let ghost o2 = output@;
        output.pop();
        assert(output@ =~= o2.drop_last());
        assert(string_views(output@) =~= string_views(o2).drop_last());
        assert(texts.subrange(0, posts@.len() as int) =~= texts);
        assert(string_views(output@) =~= start + spaced(texts));
    }
    assert(string_views(output@) =~= document_lines(profile@, post_views(posts@)));
    join_lines(&output)
}

} // verus!
