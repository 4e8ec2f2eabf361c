//! A post: its metadata, its body, and the tokens and blocks derived from
//! the body.
use vstd::prelude::*;
use vstd::utf8::{encode_utf8, decode_utf8, is_char_boundary};
use vstd::string::StringSliceAdditionalSpecFns;
use vstd::string::StringExecFns;
use crate::text::{
    lemma_string_views_push, lemma_prefix_push,
    chars_of, string_of, string_of_vec, trim, trim_chars, trim_str, is_white, char_is_whitespace,
    string_views, join, join_lines, lines,
};
use crate::tokenizer::{Token, Tokenizer, Tok, views, tokenize_spec, find_pair};
use crate::blocks::{
    ActivatableElement, BlockSpec, OrgBlock, parse_blocks, blocks_of, element_views,
    starts_with_chars,
};
use crate::profile::{Profile, ProfileSpec, ostr, ostrs, append_opt};
use crate::util::{Moment, parse_timestamp, moment_of, format_minutes, minute_text};

verus! {

/// A post of a document.
#[derive(Clone, Debug)]
pub struct Post {
    id: String,
    lang: Option<String>,
    tags: Option<Vec<String>>,
    client: Option<String>,
    reply_to: Option<String>,
    poll_end: Option<String>,
    poll_option: Option<String>,
    mood: Option<String>,
    content: String,
    source: Option<String>,
    author: Option<String>,
    tokens: Vec<Token>,
    blocks: Vec<ActivatableElement>,
}

/// The mathematical value of a post.
pub struct PostSpec {
    pub id: Seq<char>,
    pub lang: Option<Seq<char>>,
    pub tags: Option<Seq<Seq<char>>>,
    pub client: Option<Seq<char>>,
    pub reply_to: Option<Seq<char>>,
    pub poll_end: Option<Seq<char>>,
    pub poll_option: Option<Seq<char>>,
    pub mood: Option<Seq<char>>,
    pub content: Seq<char>,
    pub source: Option<Seq<char>>,
    pub author: Option<Seq<char>>,
    pub tokens: Seq<Tok>,
    pub blocks: Seq<BlockSpec>,
}

impl View for Post {
    type V = PostSpec;

    closed spec fn view(&self) -> PostSpec {
        PostSpec {
            id: self.id@,
            lang: ostr(self.lang),
            tags: ostrs(self.tags),
            client: ostr(self.client),
            reply_to: ostr(self.reply_to),
            poll_end: ostr(self.poll_end),
            poll_option: ostr(self.poll_option),
            mood: ostr(self.mood),
            content: self.content@,
            source: ostr(self.source),
            author: ostr(self.author),
            tokens: views(self.tokens@),
            blocks: element_views(self.blocks@),
        }
    }
}

/// The post with identifier `id` and body `content`, every other field absent.
pub open spec fn fresh_post(id: Seq<char>, content: Seq<char>) -> PostSpec {
    PostSpec {
        id,
        lang: None,
        tags: None,
        client: None,
        reply_to: None,
        poll_end: None,
        poll_option: None,
        mood: None,
        content,
        source: None,
        author: None,
        tokens: tokenize_spec(content),
        blocks: blocks_of(content),
    }
}

/// `source#id` when the post has a source, else `id`.
pub open spec fn full_id_of(p: PostSpec) -> Seq<char> {
    match p.source {
        Some(s) => s + seq!['#'] + p.id,
        None => p.id,
    }
}

/// The time a post's identifier names, if it is non-empty and names one.
pub open spec fn time_of(p: PostSpec) -> Option<Moment> {
    if p.id.len() > 0 {
        moment_of(p.id)
    } else {
        None
    }
}

// ---------------------------------------------------------------------------
// The post grammar.
// ---------------------------------------------------------------------------

pub open spec fn starts(line: Seq<char>, pre: Seq<char>) -> bool {
    pre.len() <= line.len() && line.subrange(0, pre.len() as int) == pre
}

/// First index at or after `i` that is whitespace, or the length.
pub open spec fn word_end(s: Seq<char>, i: int) -> int
    decreases s.len() - i,
{
    if i < 0 || i >= s.len() {
        s.len() as int
    } else if is_white(s[i]) {
        i
    } else {
        word_end(s, i + 1)
    }
}

/// The whitespace-separated words of `s[i..]`, as `str::split_whitespace` gives them.
pub open spec fn words_from(s: Seq<char>, i: int) -> Seq<Seq<char>>
    decreases s.len() - i,
{
    if i < 0 || i >= s.len() {
        seq![]
    } else if is_white(s[i]) {
        words_from(s, i + 1)
    } else {
        let e = word_end(s, i);
        if e <= i || e > s.len() {
            seq![]
        } else {
            seq![s.subrange(i, e)] + words_from(s, e)
        }
    }
}

/// The effect of one property line `:KEY: value` on a post.
pub open spec fn property_line(p: PostSpec, line: Seq<char>) -> PostSpec {
    match find_pair(line, 0, ':', ' ') {
        None => p,
        Some(i) => {
            let key = trim(line.subrange(0, i));
            let raw = line.subrange(i + 2, line.len() as int);
            let v = trim(raw);
            if key == ":ID"@ {
                PostSpec { id: v, ..p }
            } else if key == ":LANG"@ {
                PostSpec { lang: Some(v), ..p }
            } else if key == ":TAGS"@ {
                PostSpec { tags: append_opt(p.tags, words_from(raw, 0)), ..p }
            } else if key == ":CLIENT"@ {
                PostSpec { client: Some(v), ..p }
            } else if key == ":REPLY_TO"@ {
                PostSpec { reply_to: Some(v), ..p }
            } else if key == ":POLL_END"@ {
                PostSpec { poll_end: Some(v), ..p }
            } else if key == ":POLL_OPTION"@ {
                PostSpec { poll_option: Some(v), ..p }
            } else if key == ":MOOD"@ {
                PostSpec { mood: Some(v), ..p }
            } else {
                p
            }
        },
    }
}

/// A post being read: the fields so far, and where the reading stands
/// relative to the property drawer.
pub struct PostReading {
    pub post: PostSpec,
    pub in_properties: bool,
    pub properties_ended: bool,
}

/// The effect of one line of a post's section.
pub open spec fn post_line(a: PostReading, line: Seq<char>) -> PostReading {
    if line == "** :PROPERTIES:"@ || line == ":PROPERTIES:"@ {
        PostReading { in_properties: true, ..a }
    } else if starts(line, ":END:"@) {
        if a.in_properties {
            PostReading { in_properties: false, properties_ended: true, ..a }
        } else {
            a
        }
    } else if trim(line) == "**"@ {
        a
    } else if a.in_properties && starts(line, ":"@) {
        PostReading { post: property_line(a.post, line), ..a }
    } else if a.properties_ended && (a.post.content.len() > 0 || line.len() > 0) {
        PostReading { post: PostSpec { content: a.post.content + line + seq!['\n'], ..a.post }, ..a }
    } else {
        a
    }
}

pub open spec fn post_reading(ls: Seq<Seq<char>>) -> PostReading
    decreases ls.len(),
{
    if ls.len() == 0 {
        PostReading { post: fresh_post(seq![], seq![]), in_properties: false, properties_ended: false }
    } else {
        post_line(post_reading(ls.drop_last()), ls.last())
    }
}

/// The post that the lines of its section describe: a trailing newline of the
/// body is dropped, and tokens and blocks are derived from the body.
pub open spec fn post_of_lines(ls: Seq<Seq<char>>) -> PostSpec {
    let p = post_reading(ls).post;
    let c = if p.content.len() > 0 && p.content.last() == '\n' {
        p.content.drop_last()
    } else {
        p.content
    };
    PostSpec { content: c, tokens: tokenize_spec(c), blocks: blocks_of(c), ..p }
}

/// The property lines of a post: ID (when non-empty), LANG, TAGS (when there
/// is at least one), CLIENT, REPLY_TO, POLL_END, POLL_OPTION, MOOD.
pub open spec fn property_lines(p: PostSpec) -> Seq<Seq<char>> {
    (if p.id.len() > 0 {
        seq![":ID: "@ + p.id]
    } else {
        seq![]
    }) + opt_line(":LANG: "@, p.lang) + (match p.tags {
        Some(ts) => if ts.len() > 0 {
            seq![":TAGS: "@ + join(ts, seq![' '])]
        } else {
            seq![]
        },
        None => seq![],
    }) + opt_line(":CLIENT: "@, p.client) + opt_line(":REPLY_TO: "@, p.reply_to) + opt_line(
        ":POLL_END: "@,
        p.poll_end,
    ) + opt_line(":POLL_OPTION: "@, p.poll_option) + opt_line(":MOOD: "@, p.mood)
}

pub open spec fn opt_line(prefix: Seq<char>, o: Option<Seq<char>>) -> Seq<Seq<char>> {
    match o {
        Some(v) => seq![prefix + v],
        None => seq![],
    }
}

/// The lines of a serialized post: `**`, the property drawer, a blank line,
/// then the body.
pub open spec fn post_lines(p: PostSpec) -> Seq<Seq<char>> {
    seq!["**"@, ":PROPERTIES:"@] + property_lines(p) + seq![":END:"@, seq![], p.content]
}

// ---------------------------------------------------------------------------
// Display.
// ---------------------------------------------------------------------------

/// The index of the last `c` in `s[..j]`.
pub open spec fn last_index(s: Seq<char>, j: int, c: char) -> Option<int>
    decreases j,
{
    if j <= 0 || j > s.len() {
        None
    } else if s[j - 1] == c {
        Some(j - 1)
    } else {
        last_index(s, j - 1, c)
    }
}

/// The part after the last `#`, or the whole reference.
pub open spec fn after_hash(r: Seq<char>) -> Seq<char> {
    match last_index(r, r.len() as int, '#') {
        Some(i) => r.subrange(i + 1, r.len() as int),
        None => r,
    }
}

/// The part before the last `#`, or the whole reference.
pub open spec fn before_hash(r: Seq<char>) -> Seq<char> {
    match last_index(r, r.len() as int, '#') {
        Some(i) => r.subrange(0, i),
        None => r,
    }
}

/// `s` without its trailing slashes.
pub open spec fn strip_slashes(s: Seq<char>) -> Seq<char>
    decreases s.len(),
{
    if s.len() > 0 && s.last() == '/' {
        strip_slashes(s.drop_last())
    } else {
        s
    }
}

/// The nick of the first followed account whose address matches `base`,
/// trailing slashes aside.
pub open spec fn nick_for(fs: Seq<(Seq<char>, Seq<char>)>, base: Seq<char>, k: int) -> Option<
    Seq<char>,
>
    decreases fs.len() - k,
{
    if k < 0 || k >= fs.len() {
        None
    } else if strip_slashes(fs[k].1) == strip_slashes(base) {
        Some(fs[k].0)
    } else {
        nick_for(fs, base, k + 1)
    }
}

/// How a reply reference is shown: `nick#id` when the profile follows the
/// referenced document, else `document#id`.
pub open spec fn reply_display(r: Seq<char>, prof: Option<ProfileSpec>) -> Seq<char> {
    let base = before_hash(r);
    let id = after_hash(r);
    let who = match prof {
        Some(p) => match p.follow {
            Some(fs) => match nick_for(fs, base, 0) {
                Some(n) => n,
                None => base,
            },
            None => base,
        },
        None => base,
    };
    who + seq!['#'] + id
}

pub open spec fn tag_suffix(ts: Seq<Seq<char>>) -> Seq<char>
    decreases ts.len(),
{
    if ts.len() == 0 {
        seq![]
    } else {
        tag_suffix(ts.drop_last()) + " #"@ + ts.last()
    }
}

/// `author #lang #tag... • time`
pub open spec fn header_of(p: PostSpec) -> Seq<char> {
    (match p.author {
        Some(a) => a,
        None => "unknown"@,
    }) + (match p.lang {
        Some(l) => " #"@ + l,
        None => seq![],
    }) + (match p.tags {
        Some(ts) => tag_suffix(ts),
        None => seq![],
    }) + (match time_of(p) {
        Some(m) => match minute_text(m) {
            Some(t) => " • "@ + t,
            None => seq![],
        },
        None => seq![],
    })
}

pub open spec fn metadata_of(p: PostSpec, prof: Option<ProfileSpec>) -> Seq<Seq<char>> {
    opt_line("Client: "@, p.client) + (match p.reply_to {
        Some(r) => seq!["Reply to: "@ + reply_display(r, prof)],
        None => seq![],
    }) + opt_line("Mood: "@, p.mood) + opt_line("Poll ends: "@, p.poll_end) + opt_line(
        "Poll option: "@,
        p.poll_option,
    )
}

/// `--- header ---`, then the metadata joined by ` | ` (when any), then the body.
pub open spec fn display_of(p: PostSpec, prof: Option<ProfileSpec>) -> Seq<char> {
    let meta = metadata_of(p, prof);
    "--- "@ + header_of(p) + " ---\n"@ + (if meta.len() > 0 {
        join(meta, " | "@) + seq!['\n']
    } else {
        seq![]
    }) + p.content
}

// ---------------------------------------------------------------------------
// Executable code.
// ---------------------------------------------------------------------------

pub fn copy_opt(o: &Option<String>) -> (r: Option<String>)
    ensures
        ostr(r) == ostr(*o),
{
    match o {
        Some(s) => Some(s.clone()),
        None => None,
    }
}

pub fn copy_strings(v: &Vec<String>) -> (r: Vec<String>)
    ensures
        string_views(r@) == string_views(v@),
{
    let mut out: Vec<String> = Vec::new();
    let mut i: usize = 0;
    while i < v.len()
        invariant
            i <= v@.len(),
            string_views(out@) == string_views(v@.subrange(0, i as int)),
        decreases v@.len() - i,
    {
        let ghost before = out@;
        out.push(v[i].clone());
        proof {
            lemma_string_views_push(before, v@[i as int]);
            lemma_prefix_push(v@, i as int);
            lemma_string_views_push(v@.subrange(0, i as int), v@[i as int]);
        }
        i += 1;
    }
    assert(v@.subrange(0, v@.len() as int) =~= v@);
    out
}

pub fn copy_opt_strings(o: &Option<Vec<String>>) -> (r: Option<Vec<String>>)
    ensures
        ostrs(r) == ostrs(*o),
{
    match o {
        Some(v) => Some(copy_strings(v)),
        None => None,
    }
}

fn prefixed_line(prefix: &str, s: &String) -> (r: String)
    ensures
        r@ == prefix@ + s@,
{
    let mut out = String::from_str(prefix);
    out.append(s.as_str());
    out
}

fn push_opt_line(out: &mut Vec<String>, prefix: &str, o: &Option<String>)
    ensures
        string_views(final(out)@) == string_views(old(out)@) + opt_line(prefix@, ostr(*o)),
{
    let ghost before = out@;
    if let Some(v) = o {
        out.push(prefixed_line(prefix, v));
    }
    assert(string_views(out@) =~= string_views(before) + opt_line(prefix@, ostr(*o)));
}

/// The words of a string separated by whitespace.
pub fn split_words(s: &str) -> (r: Vec<String>)
    ensures
        string_views(r@) == words_from(s@, 0),
{
    let v = chars_of(s);
    let n = v.len();
    let mut out: Vec<String> = Vec::new();
    let mut i: usize = 0;
    while i < n
        invariant
            n == v@.len(),
            v@ == s@,
            i <= n,
            string_views(out@) + words_from(v@, i as int) == words_from(v@, 0),
        decreases n - i,
    {
        if char_is_whitespace(v[i]) {
            i += 1;
        } else {
            let mut j = i;
            while j < n && !char_is_whitespace(v[j])
                invariant
                    i <= j <= n == v@.len(),
                    word_end(v@, i as int) == word_end(v@, j as int),
                decreases n - j,
            {
                j += 1;
            }
            let ghost before = out@;
            out.push(string_of(v.as_slice(), i, j));
            assert(string_views(out@) =~= string_views(before) + seq![v@.subrange(i as int, j as int)]);
            assert(string_views(out@) + words_from(v@, j as int) =~= string_views(before) + (seq![
                v@.subrange(i as int, j as int),
            ] + words_from(v@, j as int)));
            i = j;
        }
    }
    out
}

fn starts_with_str(line: &Vec<char>, pre: &str) -> (r: bool)
    ensures
        r == starts(line@, pre@),
{
    let p = chars_of(pre);
    let r = starts_with_chars(line, &p);
    proof {
        if r {
            assert(line@.subrange(0, pre@.len() as int) == pre@);
        }
        if starts(line@, pre@) {
            assert(line@.subrange(0, p@.len() as int) == p@);
        }
    }
    r
}

impl Post {
    /// A post with the given identifier and body, its tokens and blocks
    /// derived from the body.
    pub fn new(id: String, content: String) -> (r: Post)
        ensures
            r@ == fresh_post(id@, content@),
    {
        let mut post = Post {
            id,
            lang: None,
            tags: None,
            client: None,
            reply_to: None,
            poll_end: None,
            poll_option: None,
            mood: None,
            content,
            source: None,
            author: None,
            tokens: Vec::new(),
            blocks: Vec::new(),
        };
        post.parse_content();
        post
    }

    /// Derives tokens and blocks anew from the body.
    pub fn parse_content(&mut self)
        ensures
            final(self)@ == (PostSpec {
                tokens: tokenize_spec(old(self)@.content),
                blocks: blocks_of(old(self)@.content),
                ..old(self)@
            }),
    {
        let mut tokenizer = Tokenizer::new(self.content.clone());
        self.tokens = tokenizer.tokenize();
        self.blocks = parse_blocks(self.content.as_str());
    }

    /// An independent copy of this post.
    pub fn duplicate(&self) -> (r: Post)
        ensures
            r@ == self@,
    {
        let mut p = Post {
            id: self.id.clone(),
            lang: copy_opt(&self.lang),
            tags: copy_opt_strings(&self.tags),
            client: copy_opt(&self.client),
            reply_to: copy_opt(&self.reply_to),
            poll_end: copy_opt(&self.poll_end),
            poll_option: copy_opt(&self.poll_option),
            mood: copy_opt(&self.mood),
            content: self.content.clone(),
            source: copy_opt(&self.source),
            author: copy_opt(&self.author),
            tokens: Vec::new(),
            blocks: Vec::new(),
        };
        p.tokens = copy_tokens(&self.tokens);
        p.blocks = copy_blocks(&self.blocks);
        p
    }

    /// Reads a post from the lines of its section.
    pub fn from_lines(lines: &Vec<String>) -> (r: Post)
        ensures
            r@ == post_of_lines(string_views(lines@)),
    {
        let mut post = Post::new(String::new(), String::new());
        let mut in_properties = false;
        let mut properties_ended = false;
        let mut k: usize = 0;
        while k < lines.len()
            invariant
                k <= lines@.len(),
                (PostReading { post: post@, in_properties, properties_ended }) == post_reading(
                    string_views(lines@.subrange(0, k as int)),
                ),
            decreases lines@.len() - k,
        {
            let ghost prev = string_views(lines@.subrange(0, k as int));
            post.read_line(&lines[k], &mut in_properties, &mut properties_ended);
            let ghost next = string_views(lines@.subrange(0, k + 1));
            assert(next.drop_last() =~= prev);
            k += 1;
        }
        assert(lines@.subrange(0, lines@.len() as int) =~= lines@);
        let c = chars_of(post.content.as_str());
        let n = c.len();
        if n > 0 && c[n - 1] == '\n' {
            post.content = string_of(c.as_slice(), 0, n - 1);
            assert(post.content@ =~= c@.drop_last());
        }
        post.parse_content();
        post
    }

    fn read_line(&mut self, line: &String, in_properties: &mut bool, properties_ended: &mut bool)
        ensures
            (PostReading {
                post: final(self)@,
                in_properties: *final(in_properties),
                properties_ended: *final(properties_ended),
            }) == post_line(
                PostReading {
                    post: old(self)@,
                    in_properties: *old(in_properties),
                    properties_ended: *old(properties_ended),
                },
                line@,
            ),
    {
        let v = chars_of(line.as_str());
        let ghost a = PostReading {
            post: self@,
            in_properties: *in_properties,
            properties_ended: *properties_ended,
        };
        if line.eq(&String::from_str("** :PROPERTIES:")) || line.eq(&String::from_str(":PROPERTIES:")) {
            *in_properties = true;
            return ;
        }
        if starts_with_str(&v, ":END:") {
            if *in_properties {
                *properties_ended = true;
                *in_properties = false;
            }
            return ;
        }
        let t = string_of_vec(&trim_chars(&v));
        let stars = String::from_str("**");
        if t.eq(&stars) {
            assert(trim(line@) == "**"@);
            return ;
        }
        assert(trim(line@) != "**"@);
        if *in_properties && starts_with_str(&v, ":") {
            self.read_property(&v);
            return ;
        }
        if *properties_ended && (self.content.unicode_len() > 0 || v.len() > 0) {
            self.content.append(line.as_str());
            self.content.push('\n');
            assert(self.content@ =~= a.post.content + line@ + seq!['\n']);
        }
    }

    fn read_property(&mut self, v: &Vec<char>)
        ensures
            final(self)@ == property_line(old(self)@, v@),
    {
        let n = v.len();
        let mut i: usize = 0;
        while i < n && i + 1 < n && !(v[i] == ':' && v[i + 1] == ' ')
            invariant
                i <= n == v@.len(),
                find_pair(v@, 0, ':', ' ') == find_pair(v@, i as int, ':', ' '),
            decreases n - i,
        {
            i += 1;
        }
        if n == 0 || i >= n - 1 {
            return ;
        }
        assert(find_pair(v@, 0, ':', ' ') == Some(i as int));
        let key = string_of_vec(&trim_chars(&copy_chars(v, 0, i)));
        let raw = string_of(v.as_slice(), i + 2, n);
        let value = trim_str(raw.as_str());
        if key.eq(&String::from_str(":ID")) {
            self.id = value;
        } else if key.eq(&String::from_str(":LANG")) {
            self.lang = Some(value);
        } else if key.eq(&String::from_str(":TAGS")) {
            let words = split_words(raw.as_str());
            let mut list = match self.tags.take() {
                Some(l) => l,
                None => Vec::new(),
            };
            let ghost before = list@;
            let mut w: usize = 0;
            while w < words.len()
                invariant
                    w <= words@.len(),
                    string_views(list@) == string_views(before) + string_views(
                        words@.subrange(0, w as int),
                    ),
                decreases words@.len() - w,
            {
                let ghost l0 = list@;
                list.push(words[w].clone());
                proof {
                    lemma_string_views_push(l0, words@[w as int]);
                    lemma_prefix_push(words@, w as int);
                    lemma_string_views_push(words@.subrange(0, w as int), words@[w as int]);
                    assert(string_views(list@) =~= string_views(before) + string_views(
                        words@.subrange(0, w + 1),
                    ));
                }
                w += 1;
            }
            assert(words@.subrange(0, words@.len() as int) =~= words@);
            self.tags = Some(list);
        } else if key.eq(&String::from_str(":CLIENT")) {
            self.client = Some(value);
        } else if key.eq(&String::from_str(":REPLY_TO")) {
            self.reply_to = Some(value);
        } else if key.eq(&String::from_str(":POLL_END")) {
            self.poll_end = Some(value);
        } else if key.eq(&String::from_str(":POLL_OPTION")) {
            self.poll_option = Some(value);
        } else if key.eq(&String::from_str(":MOOD")) {
            self.mood = Some(value);
        }
    }

    pub fn tokens(&self) -> (r: &[Token])
        ensures
            views(r@) == self@.tokens,
    {
        self.tokens.as_slice()
    }

    pub fn blocks(&self) -> (r: &[ActivatableElement])
        ensures
            element_views(r@) == self@.blocks,
    {
        self.blocks.as_slice()
    }

    /// The time the identifier names; none for an empty identifier or one in
    /// neither accepted form.
    pub fn time(&self) -> (r: Option<Moment>)
        ensures
            r == time_of(self@),
    {
        if self.id.unicode_len() > 0 {
            parse_timestamp(self.id.as_str())
        } else {
            None
        }
    }

    pub fn source(&self) -> (r: &Option<String>)
        ensures
            ostr(*r) == self@.source,
    {
        &self.source
    }

    pub fn lang(&self) -> (r: &Option<String>)
        ensures
            ostr(*r) == self@.lang,
    {
        &self.lang
    }

    pub fn tags(&self) -> (r: &Option<Vec<String>>)
        ensures
            ostrs(*r) == self@.tags,
    {
        &self.tags
    }

    pub fn client(&self) -> (r: &Option<String>)
        ensures
            ostr(*r) == self@.client,
    {
        &self.client
    }

    pub fn reply_to(&self) -> (r: &Option<String>)
        ensures
            ostr(*r) == self@.reply_to,
    {
        &self.reply_to
    }

    pub fn poll_end(&self) -> (r: &Option<String>)
        ensures
            ostr(*r) == self@.poll_end,
    {
        &self.poll_end
    }

    pub fn poll_option(&self) -> (r: &Option<String>)
        ensures
            ostr(*r) == self@.poll_option,
    {
        &self.poll_option
    }

    pub fn mood(&self) -> (r: &Option<String>)
        ensures
            ostr(*r) == self@.mood,
    {
        &self.mood
    }

    pub fn content(&self) -> (r: &str)
        ensures
            r@ == self@.content,
    {
        self.content.as_str()
    }

    pub fn id(&self) -> (r: &str)
        ensures
            r@ == self@.id,
    {
        self.id.as_str()
    }

    pub fn author(&self) -> (r: &Option<String>)
        ensures
            ostr(*r) == self@.author,
    {
        &self.author
    }

    pub fn set_author(&mut self, author: String)
        ensures
            final(self)@ == (PostSpec { author: Some(author@), ..old(self)@ }),
    {
        self.author = Some(author);
    }

    pub fn set_source(&mut self, source: Option<String>)
        ensures
            final(self)@ == (PostSpec { source: ostr(source), ..old(self)@ }),
    {
        self.source = source;
    }

    pub fn set_id(&mut self, id: String)
        ensures
            final(self)@ == (PostSpec { id: id@, ..old(self)@ }),
    {
        self.id = id;
    }

    /// Replaces the body and derives tokens and blocks from the new one.
    pub fn set_content(&mut self, content: String)
        ensures
            final(self)@ == (PostSpec {
                content: content@,
                tokens: tokenize_spec(content@),
                blocks: blocks_of(content@),
                ..old(self)@
            }),
    {
        self.content = content;
        self.parse_content();
    }

    pub fn set_tags(&mut self, tags: Option<Vec<String>>)
        ensures
            final(self)@ == (PostSpec { tags: ostrs(tags), ..old(self)@ }),
    {
        self.tags = tags;
    }

    pub fn set_client(&mut self, client: Option<String>)
        ensures
            final(self)@ == (PostSpec { client: ostr(client), ..old(self)@ }),
    {
        self.client = client;
    }

    pub fn set_reply_to(&mut self, reply_to: Option<String>)
        ensures
            final(self)@ == (PostSpec { reply_to: ostr(reply_to), ..old(self)@ }),
    {
        self.reply_to = reply_to;
    }

    pub fn set_mood(&mut self, mood: Option<String>)
        ensures
            final(self)@ == (PostSpec { mood: ostr(mood), ..old(self)@ }),
    {
        self.mood = mood;
    }

    pub fn set_lang(&mut self, lang: Option<String>)
        ensures
            final(self)@ == (PostSpec { lang: ostr(lang), ..old(self)@ }),
    {
        self.lang = lang;
    }

    pub fn set_poll_end(&mut self, poll_end: Option<String>)
        ensures
            final(self)@ == (PostSpec { poll_end: ostr(poll_end), ..old(self)@ }),
    {
        self.poll_end = poll_end;
    }

    pub fn set_poll_option(&mut self, poll_option: Option<String>)
        ensures
            final(self)@ == (PostSpec { poll_option: ostr(poll_option), ..old(self)@ }),
    {
        self.poll_option = poll_option;
    }

    /// A vote is a reply that names a poll option.
    pub fn is_poll_vote(&self) -> (r: bool)
        ensures
            r == (self@.poll_option is Some && self@.reply_to is Some),
    {
        self.poll_option.is_some() && self.reply_to.is_some()
    }

    /// `source#id` when the post has a source, else `id`.
    pub fn full_id(&self) -> (r: String)
        ensures
            r@ == full_id_of(self@),
    {
        match &self.source {
            Some(source) => {
                let mut out = source.clone();
                out.push('#');
                out.append(self.id.as_str());
                out
            },
            None => self.id.clone(),
        }
    }

    /// The body cut to its first `len` bytes (of UTF-8), with `...` appended
    /// when it was longer; the cut must fall between two characters.
    pub fn summary(&self, len: usize) -> (r: String)
        requires
            encode_utf8(self@.content).len() <= len || is_char_boundary(encode_utf8(self@.content), len as int),
        ensures
            r@ == (if encode_utf8(self@.content).len() > len {
                decode_utf8(encode_utf8(self@.content).subrange(0, len as int)) + "..."@
            } else {
                self@.content
            }),
    {
        let c = self.content.as_str();
        if c.as_bytes().len() > len {
            let (head, _) = c.split_at(len);
            proof {
                vstd::utf8::encode_utf8_decode_utf8(head@);
                assert(c.spec_bytes() == encode_utf8(self@.content));
                assert(encode_utf8(head@) == encode_utf8(self@.content).subrange(0, len as int));
                assert(decode_utf8(encode_utf8(self@.content).subrange(0, len as int)) == head@);
            }
            let mut out = String::from_str(head);
            out.append("...");
            assert(out@ == head@ + "..."@);
            out
        } else {
            self.content.clone()
        }
    }

    /// The post serialized: `**`, the property drawer, a blank line, the body.
    pub fn to_org_social(&self) -> (r: String)
        ensures
            r@ == join(post_lines(self@), seq!['\n']),
    {
        let mut lines: Vec<String> = Vec::new();
        let stars = String::from_str("**");
        lines.push(stars);
        let drawer = String::from_str(":PROPERTIES:");
        lines.push(drawer);
        let ghost head = string_views(lines@);
        assert(head =~= seq!["**"@, ":PROPERTIES:"@]);
        let props = self.property_lines_exec();
        let mut i: usize = 0;
        while i < props.len()
            invariant
                i <= props@.len(),
                string_views(lines@) == head + string_views(props@.subrange(0, i as int)),
            decreases props@.len() - i,
        {
            let ghost l0 = lines@;
            lines.push(props[i].clone());
            proof {
                lemma_string_views_push(l0, props@[i as int]);
                lemma_prefix_push(props@, i as int);
                lemma_string_views_push(props@.subrange(0, i as int), props@[i as int]);
                assert(string_views(lines@) =~= head + string_views(props@.subrange(0, i + 1)));
            }
            i += 1;
        }
        assert(props@.subrange(0, props@.len() as int) =~= props@);
        let ghost l1 = lines@;
        let end_line = String::from_str(":END:");
        lines.push(end_line);
        let ghost l2 = lines@;
        let blank = String::new();
        lines.push(blank);
        let ghost l3 = lines@;
        let body = self.content.clone();
        lines.push(body);
        proof {
            lemma_string_views_push(l1, end_line);
            lemma_string_views_push(l2, blank);
            lemma_string_views_push(l3, body);
            assert(string_views(lines@) =~= post_lines(self@));
        }
        join_lines(&lines)
    }

    fn property_lines_exec(&self) -> (r: Vec<String>)
        ensures
            string_views(r@) == property_lines(self@),
    {
        let mut out: Vec<String> = Vec::new();
        if self.id.unicode_len() > 0 {
            out.push(prefixed_line(":ID: ", &self.id));
        }
        let ghost a = string_views(out@);
        push_opt_line(&mut out, ":LANG: ", &self.lang);
        let ghost b = string_views(out@);
        if let Some(tags) = &self.tags {
            if tags.len() > 0 {
                let mut line = String::from_str(":TAGS: ");
                line.append(join_words(tags).as_str());
                out.push(line);
            }
        }
        let ghost c = string_views(out@);
        assert(c =~= b + (match ostrs(self.tags) {
            Some(ts) => if ts.len() > 0 {
                seq![":TAGS: "@ + join(ts, seq![' '])]
            } else {
                seq![]
            },
            None => seq![],
        }));
        push_opt_line(&mut out, ":CLIENT: ", &self.client);
        push_opt_line(&mut out, ":REPLY_TO: ", &self.reply_to);
        push_opt_line(&mut out, ":POLL_END: ", &self.poll_end);
        push_opt_line(&mut out, ":POLL_OPTION: ", &self.poll_option);
        push_opt_line(&mut out, ":MOOD: ", &self.mood);
        assert(string_views(out@) =~= property_lines(self@));
        out
    }
}

/// Words joined with single spaces.
fn join_words(ws: &Vec<String>) -> (r: String)
    ensures
        r@ == join(string_views(ws@), seq![' ']),
{
    let mut out = String::new();
    let mut i: usize = 0;
    while i < ws.len()
        invariant
            i <= ws@.len(),
            out@ == join(string_views(ws@.subrange(0, i as int)), seq![' ']),
        decreases ws@.len() - i,
    {
        let ghost prev = string_views(ws@.subrange(0, i as int));
        if i > 0 {
            out.push(' ');
        }
        out.append(ws[i].as_str());
        proof {
            let next = string_views(ws@.subrange(0, i + 1));
            assert(next.drop_last() =~= prev);
            if i == 0 {
                assert(out@ =~= next[0]);
            } else {
                assert(out@ =~= join(next.drop_last(), seq![' ']) + seq![' '] + next.last());
            }
        }
        i += 1;
    }
    assert(ws@.subrange(0, ws@.len() as int) =~= ws@);
    out
}

fn last_hash(v: &Vec<char>) -> (r: Option<usize>)
    ensures
        crate::text::opt_int(r) == last_index(v@, v@.len() as int, '#'),
        r matches Some(i) ==> i < v@.len(),
{
    let n = v.len();
    let mut j = n;
    while j > 0 && v[j - 1] != '#'
        invariant
            j <= n == v@.len(),
            last_index(v@, n as int, '#') == last_index(v@, j as int, '#'),
        decreases j,
    {
        j -= 1;
    }
    if j == 0 {
        None
    } else {
        Some(j - 1)
    }
}

fn strip_slashes_exec(v: &Vec<char>) -> (r: Vec<char>)
    ensures
        r@ == strip_slashes(v@),
{
    let mut j = v.len();
    assert(v@.subrange(0, j as int) =~= v@);
    while j > 0 && v[j - 1] == '/'
        invariant
            j <= v@.len(),
            strip_slashes(v@) == strip_slashes(v@.subrange(0, j as int)),
        decreases j,
    {
        assert(v@.subrange(0, j as int).drop_last() =~= v@.subrange(0, j - 1));
        j -= 1;
    }
    copy_chars(v, 0, j)
}

fn reply_display_exec(r: &String, prof: Option<&Profile>) -> (out: String)
    ensures
        out@ == reply_display(
            r@,
            match prof {
                Some(p) => Some(p@),
                None => None,
            },
        ),
{
    let v = chars_of(r.as_str());
    let n = v.len();
    let (base, id) = match last_hash(&v) {
        Some(i) => (copy_chars(&v, 0, i), string_of(v.as_slice(), i + 1, n)),
        None => (copy_chars(&v, 0, n), r.clone()),
    };
    assert(base@ == before_hash(r@)) by {
        assert(v@.subrange(0, n as int) =~= v@);
    }
    let base_key = strip_slashes_exec(&base);
    let ghost pv: Option<ProfileSpec> = match prof {
        Some(p) => Some(p@),
        None => None,
    };
    let mut who = string_of_vec(&base);
    match prof {
        Some(p) => match p.follow() {
            Some(fs) => {
                let ghost fv = crate::profile::pair_views(fs@);
                assert(p@.follow == Some(fv));
                let mut hit: Option<usize> = None;
                let mut k: usize = 0;
                while k < fs.len() && hit.is_none()
                    invariant
                        k <= fs@.len(),
                        fv == crate::profile::pair_views(fs@),
                        base_key@ == strip_slashes(before_hash(r@)),
                        match hit {
                            Some(h) => h < fs@.len() && nick_for(fv, before_hash(r@), 0) == Some(
                                fv[h as int].0,
                            ),
                            None => nick_for(fv, before_hash(r@), 0) == nick_for(
                                fv,
                                before_hash(r@),
                                k as int,
                            ),
                        },
                    decreases fs@.len() - k + (if hit is None {
                        1int
                    } else {
                        0int
                    }),
                {
                    let url_key = strip_slashes_exec(&chars_of(fs[k].1.as_str()));
                    assert(fv[k as int] == (fs@[k as int].0@, fs@[k as int].1@));
                    if crate::blocks::same_chars(&url_key, &base_key) {
                        hit = Some(k);
                    } else {
                        k += 1;
                    }
                }
                match hit {
                    Some(h) => {
                        assert(fv[h as int] == (fs@[h as int].0@, fs@[h as int].1@));
                        who = fs[h].0.clone();
                    },
                    None => {},
                }
            },
            None => {},
        },
        None => {},
    }
    let mut out = who;
    out.push('#');
    out.append(id.as_str());
    out
}

/// Pieces joined with `sep` between each two.
fn join_with(ls: &Vec<String>, sep: &str) -> (r: String)
    ensures
        r@ == join(string_views(ls@), sep@),
{
    let mut out = String::new();
    let mut i: usize = 0;
    while i < ls.len()
        invariant
            i <= ls@.len(),
            out@ == join(string_views(ls@.subrange(0, i as int)), sep@),
        decreases ls@.len() - i,
    {
        let ghost prev = string_views(ls@.subrange(0, i as int));
        if i > 0 {
            out.append(sep);
        }
        out.append(ls[i].as_str());
        proof {
            let next = string_views(ls@.subrange(0, i + 1));
            assert(next.drop_last() =~= prev);
            if i == 0 {
                assert(out@ =~= next[0]);
            } else {
                assert(out@ =~= join(next.drop_last(), sep@) + sep@ + next.last());
            }
        }
        i += 1;
    }
    assert(ls@.subrange(0, ls@.len() as int) =~= ls@);
    out
}

impl Post {
    /// Whether this post is a poll.
    pub fn is_poll(&self) -> (r: bool)
        ensures
            r == crate::poll::is_poll_spec(self@),
    {
        crate::poll::is_poll_post(self)
    }

    /// The poll of this post, when it is one.
    pub fn get_poll(&self) -> (r: Option<crate::poll::Poll>)
        ensures
            r is Some ==> crate::poll::is_poll_spec(self@),
            !crate::poll::is_poll_spec(self@) ==> r is None,
    {
        crate::poll::parse_poll_from_post(self)
    }

    fn header_text(&self) -> (r: String)
        ensures
            r@ == header_of(self@),
    {
        let mut header = match &self.author {
            Some(a) => a.clone(),
            None => String::from_str("unknown"),
        };
        let ghost h0 = header@;
        if let Some(l) = &self.lang {
            header.append(" #");
            header.append(l.as_str());
        }
        let ghost h1 = header@;
        if let Some(tags) = &self.tags {
            let mut k: usize = 0;
            while k < tags.len()
                invariant
                    k <= tags@.len(),
                    header@ == h1 + tag_suffix(string_views(tags@.subrange(0, k as int))),
                decreases tags@.len() - k,
            {
                header.append(" #");
                header.append(tags[k].as_str());
                proof {
                    let next = string_views(tags@.subrange(0, k + 1));
                    assert(next.drop_last() =~= string_views(tags@.subrange(0, k as int)));
                    assert(next.last() == tags@[k as int]@);
                }
                k += 1;
            }
            assert(tags@.subrange(0, tags@.len() as int) =~= tags@);
        }
        let ghost h2 = header@;
        match self.time() {
            Some(m) => match format_minutes(m) {
                Some(t) => {
                    header.append(" • ");
                    header.append(t.as_str());
                },
                None => {},
            },
            None => {},
        }
        proof {
            assert(h1 =~= h0 + (match self@.lang {
                Some(l) => " #"@ + l,
                None => seq![],
            }));
            assert(h2 =~= h1 + (match self@.tags {
                Some(ts) => tag_suffix(ts),
                None => seq![],
            }));
            assert(header@ =~= header_of(self@));
        }
        header
    }

    /// The post as a reader sees it: a header line with author, language,
    /// tags and time, a line of metadata (when there is any), then the body.
    /// A reply reference shows the nick the profile follows it by, if any.
    pub fn format_for_display(&self, profile: Option<&Profile>) -> (r: String)
        ensures
            r@ == display_of(
                self@,
                match profile {
                    Some(p) => Some(p@),
                    None => None,
                },
            ),
    {
        let ghost pv: Option<ProfileSpec> = match profile {
            Some(p) => Some(p@),
            None => None,
        };
        let mut output = String::from_str("--- ");
        output.append(self.header_text().as_str());
        output.append(" ---\n");
        let mut metadata: Vec<String> = Vec::new();
        push_opt_line(&mut metadata, "Client: ", &self.client);
        let ghost m1 = string_views(metadata@);
        if let Some(reply_to) = &self.reply_to {
            let ghost before = metadata@;
            let line = prefixed_line("Reply to: ", &reply_display_exec(reply_to, profile));
            metadata.push(line);
            proof {
                lemma_string_views_push(before, line);
            }
        }
        let ghost m2 = string_views(metadata@);
        push_opt_line(&mut metadata, "Mood: ", &self.mood);
        push_opt_line(&mut metadata, "Poll ends: ", &self.poll_end);
        push_opt_line(&mut metadata, "Poll option: ", &self.poll_option);
        assert(m2 =~= m1 + (match self@.reply_to {
            Some(r) => seq!["Reply to: "@ + reply_display(r, pv)],
            None => seq![],
        }));
        assert(string_views(metadata@) =~= metadata_of(self@, pv));
        let ghost o1 = output@;
        if metadata.len() > 0 {
            output.append(join_with(&metadata, " | ").as_str());
            output.push('\n');
        }
        let ghost o2 = output@;
        output.append(self.content.as_str());
        proof {
            assert(o2 =~= o1 + (if metadata_of(self@, pv).len() > 0 {
                join(metadata_of(self@, pv), " | "@) + seq!['\n']
            } else {
                seq![]
            }));
            assert(output@ =~= display_of(self@, pv));
        }
        output
    }
}

impl From<Vec<String>> for Post {
    /// Reads a post from the lines of its section; see `Post::from_lines`.
    fn from(post_section_lines: Vec<String>) -> Post {
        Post::from_lines(&post_section_lines)
    }
}

impl vstd::std_specs::convert::FromSpecImpl<Vec<String>> for Post {
    open spec fn obeys_from_spec() -> bool {
        false
    }

    open spec fn from_spec(v: Vec<String>) -> Post {
        arbitrary()
    }
}

fn copy_chars(v: &Vec<char>, from: usize, to: usize) -> (r: Vec<char>)
    requires
        from <= to <= v@.len(),
    ensures
        r@ == v@.subrange(from as int, to as int),
{
    let mut out: Vec<char> = Vec::new();
    let mut i = from;
    while i < to
        invariant
            from <= i <= to <= v@.len(),
            out@ == v@.subrange(from as int, i as int),
        decreases to - i,
    {
        out.push(v[i]);
        assert(out@ =~= v@.subrange(from as int, i + 1));
        i += 1;
    }
    out
}

fn copy_token(t: &Token) -> (r: Token)
    ensures
        r@ == t@,
{
    match t {
        Token::PlainText(x) => Token::PlainText(x.clone()),
        Token::Bold(x) => Token::Bold(x.clone()),
        Token::Italic(x) => Token::Italic(x.clone()),
        Token::BoldItalic(x) => Token::BoldItalic(x.clone()),
        Token::Link { url, description } => Token::Link {
            url: url.clone(),
            description: copy_opt(description),
        },
        Token::Mention { url, username } => Token::Mention {
            url: url.clone(),
            username: username.clone(),
        },
        Token::InlineCode(x) => Token::InlineCode(x.clone()),
    }
}

fn copy_tokens(v: &Vec<Token>) -> (r: Vec<Token>)
    ensures
        views(r@) == views(v@),
{
    let mut out: Vec<Token> = Vec::new();
    let mut i: usize = 0;
    while i < v.len()
        invariant
            i <= v@.len(),
            views(out@) == views(v@.subrange(0, i as int)),
        decreases v@.len() - i,
    {
        let ghost before = out@;
        let t = copy_token(&v[i]);
        out.push(t);
        proof {
            lemma_prefix_push(v@, i as int);
            assert(views(out@) =~= views(before).push(t@));
            assert(views(v@.subrange(0, i + 1)) =~= views(v@.subrange(0, i as int)).push(v@[i as int]@));
        }
        i += 1;
    }
    assert(v@.subrange(0, v@.len() as int) =~= v@);
    out
}

fn copy_block(e: &ActivatableElement) -> (r: ActivatableElement)
    ensures
        r@ == e@,
{
    match e {
        ActivatableElement::Block(b) => ActivatableElement::Block(
            OrgBlock {
                block_type: b.block_type.clone(),
                attributes: copy_opt(&b.attributes),
                content: b.content.clone(),
                start_line: b.start_line,
                end_line: b.end_line,
                is_collapsed: b.is_collapsed,
            },
        ),
    }
}

fn copy_blocks(v: &Vec<ActivatableElement>) -> (r: Vec<ActivatableElement>)
    ensures
        element_views(r@) == element_views(v@),
{
    let mut out: Vec<ActivatableElement> = Vec::new();
    let mut i: usize = 0;
    while i < v.len()
        invariant
            i <= v@.len(),
            element_views(out@) == element_views(v@.subrange(0, i as int)),
        decreases v@.len() - i,
    {
        let ghost before = out@;
        let b = copy_block(&v[i]);
        out.push(b);
        proof {
            lemma_prefix_push(v@, i as int);
            assert(element_views(out@) =~= element_views(before).push(b@));
            assert(element_views(v@.subrange(0, i + 1)) =~= element_views(v@.subrange(0, i as int)).push(v@[i as int]@));
        }
        i += 1;
    }
    assert(v@.subrange(0, v@.len() as int) =~= v@);
    out
}

} // verus!
