//! Inline markup tokenizer: splits a post body into plain text, emphasis,
//! links, mentions and inline code in one forward scan.
use vstd::prelude::*;
use crate::text::{
    is_white, char_is_whitespace, chars_of, string_of, opt_int, find_char, prefix_at,
    lemma_find_char, find_char_exec,
};

verus! {

/// A single token of a post body.
#[derive(Debug, Clone, PartialEq)]
pub enum Token {
    /// Text with no markup.
    PlainText(String),
    /// `*text*`
    Bold(String),
    /// `/text/`
    Italic(String),
    /// `*/text/*`
    BoldItalic(String),
    /// `[[url]]`, `[[url][description]]` or a bare `http(s)://` address.
    Link { url: String, description: Option<String> },
    /// `[[org-social:url][username]]`
    Mention { url: String, username: String },
    /// `~text~`
    InlineCode(String),
}

/// The mathematical value of a token.
pub enum Tok {
    Plain(Seq<char>),
    Bold(Seq<char>),
    Italic(Seq<char>),
    BoldItalic(Seq<char>),
    Link(Seq<char>, Option<Seq<char>>),
    Mention(Seq<char>, Seq<char>),
    Code(Seq<char>),
}

pub open spec fn opt_view(o: Option<String>) -> Option<Seq<char>> {
    match o {
        Some(s) => Some(s@),
        None => None,
    }
}

impl View for Token {
    type V = Tok;

    open spec fn view(&self) -> Tok {
        match self {
            Token::PlainText(x) => Tok::Plain(x@),
            Token::Bold(x) => Tok::Bold(x@),
            Token::Italic(x) => Tok::Italic(x@),
            Token::BoldItalic(x) => Tok::BoldItalic(x@),
            Token::Link { url, description } => Tok::Link(url@, opt_view(*description)),
            Token::Mention { url, username } => Tok::Mention(url@, username@),
            Token::InlineCode(x) => Tok::Code(x@),
        }
    }
}

pub open spec fn views(ts: Seq<Token>) -> Seq<Tok> {
    ts.map_values(|t: Token| t@)
}

pub open spec fn opt_tok(t: Option<Token>) -> Option<Tok> {
    match t {
        Some(x) => Some(x@),
        None => None,
    }
}

// ---------------------------------------------------------------------------
// The scan, stated over character sequences.
// ---------------------------------------------------------------------------

pub open spec fn pair_at(s: Seq<char>, i: int, a: char, b: char) -> bool {
    0 <= i && i + 1 < s.len() && s[i] == a && s[i + 1] == b
}

/// The first position at or after `from` where the two characters `a b` stand.
pub open spec fn find_pair(s: Seq<char>, from: int, a: char, b: char) -> Option<int>
    decreases s.len() - from,
{
    if from < 0 || from + 1 >= s.len() {
        None
    } else if pair_at(s, from, a, b) {
        Some(from)
    } else {
        find_pair(s, from + 1, a, b)
    }
}

pub open spec fn https_scheme() -> Seq<char> {
    seq!['h', 't', 't', 'p', 's', ':', '/', '/']
}

pub open spec fn http_scheme() -> Seq<char> {
    seq!['h', 't', 't', 'p', ':', '/', '/']
}

pub open spec fn org_social_scheme() -> Seq<char> {
    seq!['o', 'r', 'g', '-', 's', 'o', 'c', 'i', 'a', 'l', ':']
}

/// Length of the `https://` or `http://` prefix at `p`, or 0.
pub open spec fn scheme_len(s: Seq<char>, p: int) -> int {
    if prefix_at(s, p, https_scheme()) {
        8
    } else if prefix_at(s, p, http_scheme()) {
        7
    } else {
        0
    }
}

pub open spec fn url_at(s: Seq<char>, p: int) -> bool {
    scheme_len(s, p) > 0
}

pub open spec fn url_stop(c: char) -> bool {
    is_white(c) || c == ')' || c == ']' || c == '>' || c == '"' || c == '\'' || c == '*' || c
        == '~'
}

/// Where a bare address whose body starts at `q` ends.
pub open spec fn url_end(s: Seq<char>, q: int) -> int
    decreases s.len() - q,
{
    if q < 0 || q >= s.len() {
        s.len() as int
    } else if url_stop(s[q]) {
        q
    } else {
        url_end(s, q + 1)
    }
}

pub open spec fn has_newline(s: Seq<char>, from: int, to: int) -> bool {
    exists|j: int| from <= j < to && s[j] == '\n'
}

pub open spec fn markup_char(c: char) -> bool {
    c == '*' || c == '/' || c == '~' || c == '['
}

/// Where a run of plain text starting at `q` ends.
pub open spec fn plain_end(s: Seq<char>, q: int) -> int
    decreases s.len() - q,
{
    if q < 0 || q >= s.len() {
        s.len() as int
    } else if markup_char(s[q]) || url_at(s, q) {
        q
    } else {
        plain_end(s, q + 1)
    }
}

/// The closing delimiter of an emphasis opened by `c` at `p`, when the
/// enclosed text is non-empty (and, if `one_line`, holds no newline).
pub open spec fn closing(s: Seq<char>, p: int, c: char, one_line: bool) -> Option<int> {
    match find_char(s, p + 1, c) {
        Some(q) => if q > p + 1 && !(one_line && has_newline(s, p + 1, q)) {
            Some(q)
        } else {
            None
        },
        None => None,
    }
}

/// The token for the text between `[[` and `]]`.
pub open spec fn bracket_tok(inner: Seq<char>) -> Tok {
    match find_pair(inner, 0, ']', '[') {
        Some(k) => if k >= 11 && prefix_at(inner, 0, org_social_scheme()) {
            Tok::Mention(inner.subrange(11, k), inner.subrange(k + 2, inner.len() as int))
        } else {
            Tok::Link(inner.subrange(0, k), Some(inner.subrange(k + 2, inner.len() as int)))
        },
        None => Tok::Link(inner, None),
    }
}

/// One scanning step at position `p`: the token produced, if any, and the
/// position where scanning resumes.
pub open spec fn step(s: Seq<char>, p: int) -> (Option<Tok>, int) {
    let n = s.len() as int;
    if pair_at(s, p, '[', '[') {
        match find_pair(s, p + 2, ']', ']') {
            Some(q) => (Some(bracket_tok(s.subrange(p + 2, q))), q + 2),
            None => (Some(Tok::Plain(s.subrange(p, p + 2))), p + 2),
        }
    } else if url_at(s, p) {
        let e = url_end(s, p + scheme_len(s, p));
        (Some(Tok::Link(s.subrange(p, e), None)), e)
    } else if pair_at(s, p, '*', '/') {
        match find_pair(s, p + 2, '/', '*') {
            Some(q) => (Some(Tok::BoldItalic(s.subrange(p + 2, q))), q + 2),
            None => (Some(Tok::Plain(s.subrange(p, p + 1))), p + 1),
        }
    } else if s[p] == '*' && closing(s, p, '*', true) is Some {
        let q = closing(s, p, '*', true)->0;
        (Some(Tok::Bold(s.subrange(p + 1, q))), q + 1)
    } else if s[p] == '/' && closing(s, p, '/', true) is Some {
        let q = closing(s, p, '/', true)->0;
        (Some(Tok::Italic(s.subrange(p + 1, q))), q + 1)
    } else if s[p] == '~' && closing(s, p, '~', false) is Some {
        let q = closing(s, p, '~', false)->0;
        (Some(Tok::Code(s.subrange(p + 1, q))), q + 1)
    } else {
        let e = plain_end(s, p);
        if e > p {
            (Some(Tok::Plain(s.subrange(p, e))), e)
        } else {
            (Some(Tok::Plain(s.subrange(p, p + 1))), p + 1)
        }
    }
}

/// The tokens produced by scanning `s` from position `p` to its end.
pub open spec fn scan(s: Seq<char>, p: int) -> Seq<Tok>
    decreases s.len() - p,
{
    if p < 0 || p >= s.len() {
        seq![]
    } else {
        let (t, q) = step(s, p);
        if q <= p || q > s.len() {
            seq![]
        } else {
            match t {
                Some(x) => seq![x] + scan(s, q),
                None => scan(s, q),
            }
        }
    }
}

/// The tokens of a whole body.
pub open spec fn tokenize_spec(s: Seq<char>) -> Seq<Tok> {
    scan(s, 0)
}

// ---------------------------------------------------------------------------
// Facts about the scan.
// ---------------------------------------------------------------------------

proof fn lemma_find_pair(s: Seq<char>, from: int, a: char, b: char)
    ensures
        find_pair(s, from, a, b) matches Some(q) ==> from <= q && pair_at(s, q, a, b),
    decreases s.len() - from,
{
    if from >= 0 && from + 1 < s.len() && !pair_at(s, from, a, b) {
        lemma_find_pair(s, from + 1, a, b);
    }
}

proof fn lemma_url_end(s: Seq<char>, q: int)
    requires
        0 <= q <= s.len(),
    ensures
        q <= url_end(s, q) <= s.len(),
    decreases s.len() - q,
{
    if q < s.len() && !url_stop(s[q]) {
        lemma_url_end(s, q + 1);
    }
}

proof fn lemma_plain_end(s: Seq<char>, q: int)
    requires
        0 <= q <= s.len(),
    ensures
        q <= plain_end(s, q) <= s.len(),
    decreases s.len() - q,
{
    if q < s.len() && !(markup_char(s[q]) || url_at(s, q)) {
        lemma_plain_end(s, q + 1);
    }
}

proof fn lemma_closing(s: Seq<char>, p: int, c: char, one_line: bool)
    requires
        0 <= p < s.len(),
    ensures
        closing(s, p, c, one_line) matches Some(q) ==> p + 1 < q < s.len() && s[q] == c,
{
    lemma_find_char(s, p + 1, c);
}

/// Each step moves forward and stays within the input.
pub proof fn lemma_step_advances(s: Seq<char>, p: int)
    requires
        0 <= p < s.len(),
    ensures
        p < step(s, p).1 <= s.len(),
{
    lemma_find_pair(s, p + 2, ']', ']');
    lemma_find_pair(s, p + 2, '/', '*');
    lemma_closing(s, p, '*', true);
    lemma_closing(s, p, '/', true);
    lemma_closing(s, p, '~', false);
    lemma_url_end(s, p + scheme_len(s, p));
    lemma_plain_end(s, p);
}

// ---------------------------------------------------------------------------
// Coverage: the tokens spell out the content.
// ---------------------------------------------------------------------------

/// How a token is written in a body. A link without description is written
/// either bare or between double brackets; `bracketed` tells which.
pub open spec fn surface(t: Tok, bracketed: bool) -> Seq<char> {
    match t {
        Tok::Plain(x) => x,
        Tok::Bold(x) => seq!['*'] + x + seq!['*'],
        Tok::Italic(x) => seq!['/'] + x + seq!['/'],
        Tok::BoldItalic(x) => seq!['*', '/'] + x + seq!['/', '*'],
        Tok::Code(x) => seq!['~'] + x + seq!['~'],
        Tok::Link(u, None) => if bracketed {
            seq!['[', '['] + u + seq![']', ']']
        } else {
            u
        },
        Tok::Link(u, Some(d)) => seq!['[', '['] + u + seq![']', '['] + d + seq![']', ']'],
        Tok::Mention(u, n) => seq!['[', '['] + org_social_scheme() + u + seq![']', '['] + n + seq![
            ']',
            ']',
        ],
    }
}

/// The concatenated surface forms of `ts`, the i-th written as `forms[i]` says.
pub open spec fn rebuild(ts: Seq<Tok>, forms: Seq<bool>) -> Seq<char>
    decreases ts.len(),
{
    if ts.len() == 0 || forms.len() == 0 {
        seq![]
    } else {
        surface(ts[0], forms[0]) + rebuild(ts.drop_first(), forms.drop_first())
    }
}

/// Every step of the scan from `p` on yields a token.
pub open spec fn drops_nothing(s: Seq<char>, p: int) -> bool
    decreases s.len() - p,
{
    if p < 0 || p >= s.len() {
        true
    } else {
        let (t, q) = step(s, p);
        if q <= p || q > s.len() {
            true
        } else {
            t is Some && drops_nothing(s, q)
        }
    }
}

/// For each token of the scan from `p`, whether it was read between double brackets.
pub open spec fn forms_from(s: Seq<char>, p: int) -> Seq<bool>
    decreases s.len() - p,
{
    if p < 0 || p >= s.len() {
        seq![]
    } else {
        let (t, q) = step(s, p);
        if q <= p || q > s.len() {
            seq![]
        } else {
            match t {
                Some(_) => seq![pair_at(s, p, '[', '[')] + forms_from(s, q),
                None => forms_from(s, q),
            }
        }
    }
}

proof fn lemma_step_surface(s: Seq<char>, p: int)
    requires
        0 <= p < s.len(),
        step(s, p).0 is Some,
    ensures
        surface(step(s, p).0->0, pair_at(s, p, '[', '[')) == s.subrange(p, step(s, p).1),
{
    lemma_step_advances(s, p);
    lemma_find_pair(s, p + 2, ']', ']');
    lemma_find_pair(s, p + 2, '/', '*');
    lemma_closing(s, p, '*', true);
    lemma_closing(s, p, '/', true);
    lemma_closing(s, p, '~', false);
    let n = s.len() as int;
    if pair_at(s, p, '[', '[') && find_pair(s, p + 2, ']', ']') is Some {
        let q = find_pair(s, p + 2, ']', ']')->0;
        let inner = s.subrange(p + 2, q);
        assert(s.subrange(p, q + 2) =~= seq!['[', '['] + inner + seq![']', ']']);
        lemma_find_pair(inner, 0, ']', '[');
        match find_pair(inner, 0, ']', '[') {
            Some(k) => {
                let m = inner.len() as int;
                assert(inner =~= inner.subrange(0, k) + seq![']', '['] + inner.subrange(k + 2, m));
                if k >= 11 && prefix_at(inner, 0, org_social_scheme()) {
                    assert(inner.subrange(0, k) =~= org_social_scheme() + inner.subrange(11, k));
                    assert(surface(bracket_tok(inner), true) =~= s.subrange(p, q + 2));
                } else {
                    assert(surface(bracket_tok(inner), true) =~= s.subrange(p, q + 2));
                }
            },
            None => {},
        }
    } else if url_at(s, p) {
    } else if pair_at(s, p, '*', '/') {
        if let Some(q) = find_pair(s, p + 2, '/', '*') {
            assert(s.subrange(p, q + 2) =~= seq!['*', '/'] + s.subrange(p + 2, q) + seq!['/', '*']);
        }
    } else if s[p] == '*' && closing(s, p, '*', true) is Some {
        let q = closing(s, p, '*', true)->0;
        assert(s.subrange(p, q + 1) =~= seq!['*'] + s.subrange(p + 1, q) + seq!['*']);
    } else if s[p] == '/' && closing(s, p, '/', true) is Some {
        let q = closing(s, p, '/', true)->0;
        assert(s.subrange(p, q + 1) =~= seq!['/'] + s.subrange(p + 1, q) + seq!['/']);
    } else if s[p] == '~' && closing(s, p, '~', false) is Some {
        let q = closing(s, p, '~', false)->0;
        assert(s.subrange(p, q + 1) =~= seq!['~'] + s.subrange(p + 1, q) + seq!['~']);
    }
}

proof fn lemma_cover_from(s: Seq<char>, p: int)
    requires
        0 <= p <= s.len(),
        drops_nothing(s, p),
    ensures
        forms_from(s, p).len() == scan(s, p).len(),
        rebuild(scan(s, p), forms_from(s, p)) == s.subrange(p, s.len() as int),
    decreases s.len() - p,
{
    if p == s.len() {
        assert(s.subrange(p, p) =~= Seq::<char>::empty());
    } else {
        lemma_step_advances(s, p);
        let (t, q) = step(s, p);
        lemma_cover_from(s, q);
        lemma_step_surface(s, p);
        let ts = scan(s, p);
        let fs = forms_from(s, p);
        assert(ts.drop_first() =~= scan(s, q));
        assert(fs.drop_first() =~= forms_from(s, q));
        assert(s.subrange(p, s.len() as int) =~= s.subrange(p, q) + s.subrange(q, s.len() as int));
    }
}

/// No step of the scan drops text.
proof fn lemma_scan_drops_nothing(s: Seq<char>, p: int)
    requires
        0 <= p <= s.len(),
    ensures
        drops_nothing(s, p),
    decreases s.len() - p,
{
    if p < s.len() {
        lemma_step_advances(s, p);
        lemma_scan_drops_nothing(s, step(s, p).1);
    }
}

/// Concatenating the surface form of every token of a body gives back the
/// body exactly.
pub proof fn lemma_tokens_rebuild_content(content: Seq<char>)
    ensures
        exists|forms: Seq<bool>|
            forms.len() == tokenize_spec(content).len() && #[trigger] rebuild(
                tokenize_spec(content),
                forms,
            ) == content,
{
    lemma_scan_drops_nothing(content, 0);
    lemma_cover_from(content, 0);
    assert(content.subrange(0, content.len() as int) =~= content);
    assert(rebuild(tokenize_spec(content), forms_from(content, 0)) == content);
}

// ---------------------------------------------------------------------------
// The executable tokenizer.
// ---------------------------------------------------------------------------

/// A scanner over the characters of one body.
pub struct Tokenizer {
    input: Vec<char>,
    position: usize,
}

impl Tokenizer {
    pub closed spec fn input_spec(&self) -> Seq<char> {
        self.input@
    }

    pub closed spec fn position_spec(&self) -> int {
        self.position as int
    }

    pub fn new(input: String) -> (r: Self)
        ensures
            r.input_spec() == input@,
            r.position_spec() == 0,
    {
        Tokenizer { input: chars_of(input.as_str()), position: 0 }
    }

    /// Scans the remaining input into tokens.
    pub fn tokenize(&mut self) -> (r: Vec<Token>)
        ensures
            views(r@) == scan(old(self).input_spec(), old(self).position_spec()),
            final(self).input_spec() == old(self).input_spec(),
    {
        let ghost s = self.input@;
        let ghost first = self.position as int;
        let mut tokens: Vec<Token> = Vec::new();
        while self.position < self.input.len()
            invariant
                self.input@ == s,
                views(tokens@) + scan(s, self.position as int) == scan(s, first),
            decreases s.len() - self.position,
        {
            let ghost p = self.position as int;
            proof {
                lemma_step_advances(s, p);
            }
            let t = self.next_token();
            match t {
                Some(token) => {
                    let ghost before = tokens@;
                    tokens.push(token);
                    assert(views(tokens@) =~= views(before) + seq![token@]);
                    assert(views(tokens@) + scan(s, self.position as int) =~= views(before) + (
                    seq![token@] + scan(s, self.position as int)));
                },
                None => {},
            }
        }
        assert(views(tokens@) =~= scan(s, first));
        tokens
    }

    fn next_token(&mut self) -> (r: Option<Token>)
        requires
            old(self).position < old(self).input@.len(),
        ensures
            final(self).input@ == old(self).input@,
            opt_tok(r) == step(old(self).input@, old(self).position as int).0,
            final(self).position as int == step(old(self).input@, old(self).position as int).1,
    {
        let (r, q) = Self::token_at(&self.input, self.position);
        self.position = q;
        r
    }

    fn token_at(v: &Vec<char>, p: usize) -> (r: (Option<Token>, usize))
        requires
            p < v@.len(),
        ensures
            opt_tok(r.0) == step(v@, p as int).0,
            r.1 as int == step(v@, p as int).1,
    {
        let ghost s = v@;
        let n = v.len();
        proof {
            lemma_find_pair(s, p + 2, ']', ']');
            lemma_find_pair(s, p + 2, '/', '*');
            lemma_closing(s, p as int, '*', true);
            lemma_closing(s, p as int, '/', true);
            lemma_closing(s, p as int, '~', false);
        }
        if p + 1 < n && v[p] == '[' && v[p + 1] == '[' {
            return Self::parse_bracket(v, p);
        }
        let sl = scheme_len_exec(v, p);
        if sl > 0 {
            proof {
                lemma_url_end(s, p + sl);
            }
            let e = url_end_exec(v, p + sl);
            return (Some(Token::Link { url: string_of(v.as_slice(), p, e), description: None }), e);
        }
        if p + 1 < n && v[p] == '*' && v[p + 1] == '/' {
            return match find_pair_exec(v, p + 2, '/', '*') {
                Some(q) => (Some(Token::BoldItalic(string_of(v.as_slice(), p + 2, q))), q + 2),
                None => (Some(Token::PlainText(string_of(v.as_slice(), p, p + 1))), p + 1),
            };
        }
        if v[p] == '*' {
            if let Some(q) = closing_exec(v, p, '*', true) {
                return (Some(Token::Bold(string_of(v.as_slice(), p + 1, q))), q + 1);
            }
        }
        if v[p] == '/' {
            if let Some(q) = closing_exec(v, p, '/', true) {
                return (Some(Token::Italic(string_of(v.as_slice(), p + 1, q))), q + 1);
            }
        }
        if v[p] == '~' {
            if let Some(q) = closing_exec(v, p, '~', false) {
                return (Some(Token::InlineCode(string_of(v.as_slice(), p + 1, q))), q + 1);
            }
        }
        Self::parse_plain_text(v, p)
    }

    /// `[[ ... ]]`: a mention or a link; an unclosed `[[` is plain text.
    fn parse_bracket(v: &Vec<char>, p: usize) -> (r: (Option<Token>, usize))
        requires
            pair_at(v@, p as int, '[', '['),
        ensures
            opt_tok(r.0) == step(v@, p as int).0,
            r.1 as int == step(v@, p as int).1,
    {
        let n = v.len();
        proof {
            lemma_find_pair(v@, p + 2, ']', ']');
        }
        match find_pair_exec(v, p + 2, ']', ']') {
            None => (Some(Token::PlainText(string_of(v.as_slice(), p, p + 2))), p + 2),
            Some(q) => {
                let mut inner: Vec<char> = Vec::new();
                let mut i = p + 2;
                while i < q
                    invariant
                        p + 2 <= i <= q < v@.len(),
                        inner@ == v@.subrange(p + 2, i as int),
                    decreases q - i,
                {
                    inner.push(v[i]);
                    assert(inner@ =~= v@.subrange(p + 2, i + 1));
                    i += 1;
                }
                (Some(bracket_token(&inner)), q + 2)
            },
        }
    }

    /// Plain text up to the next markup character or bare address; a lone
    /// markup character that opened nothing becomes one character of text.
    fn parse_plain_text(v: &Vec<char>, p: usize) -> (r: (Option<Token>, usize))
        requires
            p < v@.len(),
        ensures
            r.0 matches Some(t) && t@ == (if plain_end(v@, p as int) > p {
                Tok::Plain(v@.subrange(p as int, plain_end(v@, p as int)))
            } else {
                Tok::Plain(v@.subrange(p as int, p + 1))
            }),
            r.1 as int == (if plain_end(v@, p as int) > p {
                plain_end(v@, p as int)
            } else {
                p + 1
            }),
    {
        let n = v.len();
        proof {
            lemma_plain_end(v@, p as int);
        }
        let e = plain_end_exec(v, p);
        if e > p {
            (Some(Token::PlainText(string_of(v.as_slice(), p, e))), e)
        } else {
            (Some(Token::PlainText(string_of(v.as_slice(), p, p + 1))), p + 1)
        }
    }
}

fn bracket_token(inner: &Vec<char>) -> (r: Token)
    ensures
        r@ == bracket_tok(inner@),
{
    let n = inner.len();
    proof {
        lemma_find_pair(inner@, 0, ']', '[');
    }
    match find_pair_exec(inner, 0, ']', '[') {
        Some(k) => {
            if k >= 11 && org_social_at_start(inner) {
                Token::Mention {
                    url: string_of(inner.as_slice(), 11, k),
                    username: string_of(inner.as_slice(), k + 2, n),
                }
            } else {
                Token::Link {
                    url: string_of(inner.as_slice(), 0, k),
                    description: Some(string_of(inner.as_slice(), k + 2, n)),
                }
            }
        },
        None => {
            assert(inner@.subrange(0, n as int) =~= inner@);
            Token::Link { url: string_of(inner.as_slice(), 0, n), description: None }
        },
    }
}

fn org_social_at_start(v: &Vec<char>) -> (r: bool)
    ensures
        r == prefix_at(v@, 0, org_social_scheme()),
{
    let r = v.len() >= 11 && v[0] == 'o' && v[1] == 'r' && v[2] == 'g' && v[3] == '-' && v[4]
        == 's' && v[5] == 'o' && v[6] == 'c' && v[7] == 'i' && v[8] == 'a' && v[9] == 'l' && v[10]
        == ':';
    proof {
        if r {
            assert(v@.subrange(0, 11) =~= org_social_scheme());
        }
        if prefix_at(v@, 0, org_social_scheme()) {
            let w = v@.subrange(0, 11);
            assert(w[0] == 'o' && w[1] == 'r' && w[2] == 'g' && w[3] == '-' && w[4] == 's' && w[5]
                == 'o' && w[6] == 'c' && w[7] == 'i' && w[8] == 'a' && w[9] == 'l' && w[10] == ':');
        }
    }
    r
}

fn scheme_len_exec(v: &Vec<char>, p: usize) -> (r: usize)
    requires
        p < v@.len(),
    ensures
        r as int == scheme_len(v@, p as int),
{
    let n = v.len();
    let head = n - p >= 7 && v[p] == 'h' && v[p + 1] == 't' && v[p + 2] == 't' && v[p + 3] == 'p';
    let r: usize = if head && n - p >= 8 && v[p + 4] == 's' && v[p + 5] == ':' && v[p + 6] == '/'
        && v[p + 7] == '/' {
        8
    } else if head && v[p + 4] == ':' && v[p + 5] == '/' && v[p + 6] == '/' {
        7
    } else {
        0
    };
    proof {
        let s = v@;
        if prefix_at(s, p as int, https_scheme()) {
            let w = s.subrange(p as int, p + 8);
            assert(w[0] == 'h' && w[1] == 't' && w[2] == 't' && w[3] == 'p' && w[4] == 's' && w[5]
                == ':' && w[6] == '/' && w[7] == '/');
        } else if r == 8 {
            assert(s.subrange(p as int, p + 8) =~= https_scheme());
        }
        if prefix_at(s, p as int, http_scheme()) {
            let w = s.subrange(p as int, p + 7);
            assert(w[0] == 'h' && w[1] == 't' && w[2] == 't' && w[3] == 'p' && w[4] == ':' && w[5]
                == '/' && w[6] == '/');
        } else if r == 7 {
            assert(s.subrange(p as int, p + 7) =~= http_scheme());
        }
    }
    r
}

fn find_pair_exec(v: &Vec<char>, from: usize, a: char, b: char) -> (r: Option<usize>)
    ensures
        opt_int(r) == find_pair(v@, from as int, a, b),
{
    let mut i = from;
    while i < v.len() && i + 1 < v.len()
        invariant
            from <= i,
            find_pair(v@, from as int, a, b) == find_pair(v@, i as int, a, b),
        decreases v@.len() - i,
    {
        if v[i] == a && v[i + 1] == b {
            return Some(i);
        }
        i += 1;
    }
    None
}

fn closing_exec(v: &Vec<char>, p: usize, c: char, one_line: bool) -> (r: Option<usize>)
    requires
        p < v@.len(),
    ensures
        opt_int(r) == closing(v@, p as int, c, one_line),
{
    let n = v.len();
    proof {
        lemma_find_char(v@, p + 1, c);
    }
    match find_char_exec(v, p + 1, c) {
        Some(q) => {
            if q > p + 1 && !(one_line && contains_newline(v, p + 1, q)) {
                Some(q)
            } else {
                None
            }
        },
        None => None,
    }
}

fn contains_newline(v: &Vec<char>, from: usize, to: usize) -> (r: bool)
    requires
        from <= to <= v@.len(),
    ensures
        r == has_newline(v@, from as int, to as int),
{
    let mut i = from;
    while i < to
        invariant
            from <= i <= to <= v@.len(),
            forall|j: int| from <= j < i ==> v@[j] != '\n',
        decreases to - i,
    {
        if v[i] == '\n' {
            return true;
        }
        i += 1;
    }
    false
}

fn is_url_stop(c: char) -> (r: bool)
    ensures
        r == url_stop(c),
{
    char_is_whitespace(c) || c == ')' || c == ']' || c == '>' || c == '"' || c == '\'' || c == '*'
        || c == '~'
}

fn url_end_exec(v: &Vec<char>, q: usize) -> (r: usize)
    requires
        q <= v@.len(),
    ensures
        r as int == url_end(v@, q as int),
{
    let mut i = q;
    while i < v.len()
        invariant
            q <= i <= v@.len(),
            url_end(v@, q as int) == url_end(v@, i as int),
        decreases v@.len() - i,
    {
        if is_url_stop(v[i]) {
            return i;
        }
        i += 1;
    }
    i
}

fn plain_end_exec(v: &Vec<char>, q: usize) -> (r: usize)
    requires
        q <= v@.len(),
    ensures
        r as int == plain_end(v@, q as int),
{
    let mut i = q;
    while i < v.len()
        invariant
            q <= i <= v@.len(),
            plain_end(v@, q as int) == plain_end(v@, i as int),
        decreases v@.len() - i,
    {
        let c = v[i];
        if c == '*' || c == '/' || c == '~' || c == '[' || scheme_len_exec(v, i) > 0 {
            return i;
        }
        i += 1;
    }
    i
}

} // verus!
