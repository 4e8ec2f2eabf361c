//! Character-level helpers shared by the tokenizer, the block parser and the
//! document parser: conversions between strings and character vectors, and
//! the whitespace classification that trimming relies on.
use vstd::prelude::*;
use vstd::std_specs::iter::IteratorSpec;
use vstd::string::StringExecFns;

verus! {

broadcast use {vstd::string::axiom_spec_iter, vstd::string::next_postcondition};

/// Whether a character has the Unicode `White_Space` property: tab, line
/// feed, vertical tab, form feed, carriage return, space, next line,
/// no-break space, ogham space mark, the spaces U+2000 to U+200A, line and
/// paragraph separators, narrow no-break space, medium mathematical space,
/// and ideographic space.
pub open spec fn is_white(c: char) -> bool {
    let u = c as u32;
    (0x09 <= u && u <= 0x0D) || u == 0x20 || u == 0x85 || u == 0xA0 || u == 0x1680 || (0x2000
        <= u && u <= 0x200A) || u == 0x2028 || u == 0x2029 || u == 0x202F || u == 0x205F || u
        == 0x3000
}

/// Relies on `String::push`: the character is appended at the end.
pub assume_specification[ String::push ](s: &mut String, ch: char)
    ensures
        final(s)@ == old(s)@.push(ch),
;

/// Whether a character is white space, as `char::is_whitespace` decides.
pub fn char_is_whitespace(c: char) -> (r: bool)
    ensures
        r == is_white(c),
{
    let u = c as u32;
    (0x09 <= u && u <= 0x0D) || u == 0x20 || u == 0x85 || u == 0xA0 || u == 0x1680 || (0x2000
        <= u && u <= 0x200A) || u == 0x2028 || u == 0x2029 || u == 0x202F || u == 0x205F || u
        == 0x3000
}

/// The characters of `s`, in order.
pub fn chars_of(s: &str) -> (r: Vec<char>)
    ensures
        r@ == s@,
{
    let mut out: Vec<char> = Vec::new();
    let mut it = s.chars();
    loop
        invariant
            it.obeys_prophetic_iter_laws(),
            out@ + it.remaining() == s@,
        ensures
            out@ == s@,
        decreases s@.len() - out@.len(),
    {
        let ghost before = it.remaining();
        match it.next() {
            Some(c) => {
                out.push(c);
                assert(out@ + it.remaining() =~= s@) by {
                    assert(before =~= seq![c] + it.remaining());
                }
            },
            None => {
                assert(before.len() == 0);
                assert(out@ =~= s@);
                break;
            },
        }
    }
    out
}

/// The string made of `v[from..to]`.
pub fn string_of(v: &[char], from: usize, to: usize) -> (r: String)
    requires
        from <= to <= v@.len(),
    ensures
        r@ == v@.subrange(from as int, to as int),
{
    let mut out = String::new();
    let mut i = from;
    while i < to
        invariant
            from <= i <= to <= v@.len(),
            out@ == v@.subrange(from as int, i as int),
        decreases to - i,
    {
        out.push(v[i]);
        assert(out@ =~= v@.subrange(from as int, i + 1));
        i += 1;
    }
    out
}

pub open spec fn opt_int(r: Option<usize>) -> Option<int> {
    match r {
        Some(x) => Some(x as int),
        None => None,
    }
}

/// The first position at or after `from` that holds `c`.
pub open spec fn find_char(s: Seq<char>, from: int, c: char) -> Option<int>
    decreases s.len() - from,
{
    if from < 0 || from >= s.len() {
        None
    } else if s[from] == c {
        Some(from)
    } else {
        find_char(s, from + 1, c)
    }
}

pub open spec fn prefix_at(s: Seq<char>, p: int, pre: Seq<char>) -> bool {
    0 <= p && p + pre.len() <= s.len() && s.subrange(p, p + pre.len()) == pre
}

pub proof fn lemma_find_char(s: Seq<char>, from: int, c: char)
    ensures
        find_char(s, from, c) matches Some(q) ==> from <= q < s.len() && s[q] == c && !s.subrange(
            from,
            q,
        ).contains(c),
    decreases s.len() - from,
{
    if from >= 0 && from < s.len() && s[from] != c {
        lemma_find_char(s, from + 1, c);
        if let Some(q) = find_char(s, from, c) {
            assert forall|i: int| from <= i < q implies s[i] != c by {
                if i > from {
                    assert(s.subrange(from + 1, q)[i - from - 1] == s[i]);
                }
            }
            if s.subrange(from, q).contains(c) {
                let j = choose|j: int| 0 <= j < q - from && s.subrange(from, q)[j] == c;
                assert(s[from + j] == c);
            }
        }
    }
}

pub fn find_char_exec(v: &Vec<char>, from: usize, c: char) -> (r: Option<usize>)
    ensures
        opt_int(r) == find_char(v@, from as int, c),
{
    let mut i = from;
    while i < v.len()
        invariant
            from <= i,
            find_char(v@, from as int, c) == find_char(v@, i as int, c),
        decreases v@.len() - i,
    {
        if v[i] == c {
            return Some(i);
        }
        i += 1;
    }
    None
}


// ---------------------------------------------------------------------------
// Lines, trimming, joining.
// ---------------------------------------------------------------------------

/// The pieces of `s[start..]` between newline characters.
pub open spec fn split_from(s: Seq<char>, start: int) -> Seq<Seq<char>>
    decreases s.len() - start,
{
    if start < 0 || start > s.len() {
        seq![]
    } else {
        match find_char(s, start, '\n') {
            Some(i) => if i < start || i >= s.len() {
                seq![]
            } else {
                seq![s.subrange(start, i)] + split_from(s, i + 1)
            },
            None => seq![s.subrange(start, s.len() as int)],
        }
    }
}

pub open spec fn strip_cr(l: Seq<char>) -> Seq<char> {
    if l.len() > 0 && l.last() == '\r' {
        l.drop_last()
    } else {
        l
    }
}

/// The lines of `s` as `str::lines` gives them: split at each newline, a
/// final newline ends the last line rather than starting an empty one, and a
/// carriage return right before a newline is dropped (one at the very end,
/// with no newline after it, stays).
pub open spec fn lines_of(s: Seq<char>) -> Seq<Seq<char>> {
    let ps = split_from(s, 0);
    let ended = ps.drop_last().map_values(|l: Seq<char>| strip_cr(l));
    if s.len() == 0 {
        seq![]
    } else if s.last() == '\n' {
        ended
    } else {
        ended.push(ps.last())
    }
}

pub open spec fn char_views(v: Seq<Vec<char>>) -> Seq<Seq<char>> {
    v.map_values(|l: Vec<char>| l@)
}

pub open spec fn string_views(v: Seq<String>) -> Seq<Seq<char>> {
    v.map_values(|l: String| l@)
}

fn strip_cr_exec(l: &mut Vec<char>)
    ensures
        final(l)@ == strip_cr(old(l)@),
{
    let n = l.len();
    if n > 0 && l[n - 1] == '\r' {
        l.pop();
        assert(l@ =~= strip_cr(old(l)@));
    }
}

fn copy_range(v: &Vec<char>, from: usize, to: usize) -> (r: Vec<char>)
    requires
        from <= to <= v@.len(),
    ensures
        r@ == v@.subrange(from as int, to as int),
{
    let mut out: Vec<char> = Vec::new();
    let mut i = from;
    while i < to
        invariant
            from <= i <= to <= v@.len(),
            out@ == v@.subrange(from as int, i as int),
        decreases to - i,
    {
        out.push(v[i]);
        assert(out@ =~= v@.subrange(from as int, i + 1));
        i += 1;
    }
    out
}

/// The lines of `s`, each as its characters.
pub fn lines(s: &str) -> (r: Vec<Vec<char>>)
    ensures
        char_views(r@) == lines_of(s@),
{
    let v = chars_of(s);
    let n = v.len();
    let mut out: Vec<Vec<char>> = Vec::new();
    let ghost mut raw: Seq<Seq<char>> = seq![];
    let mut start: usize = 0;
    let mut i: usize = 0;
    while i < n
        invariant
            n == v@.len(),
            v@ == s@,
            start <= i <= n,
            split_from(v@, 0) == raw + split_from(v@, start as int),
            find_char(v@, start as int, '\n') == find_char(v@, i as int, '\n'),
            char_views(out@) == raw.map_values(|l: Seq<char>| strip_cr(l)),
            start > 0 ==> v@[start - 1] == '\n',
        decreases n - i,
    {
        if v[i] == '\n' {
            let mut piece = copy_range(&v, start, i);
            let ghost old_raw = raw;
            proof {
                let tail = split_from(v@, i + 1);
                assert(split_from(v@, start as int) == seq![v@.subrange(start as int, i as int)]
                    + tail);
                assert(raw + split_from(v@, start as int) =~= raw.push(
                    v@.subrange(start as int, i as int),
                ) + tail);
                raw = raw.push(v@.subrange(start as int, i as int));
            }
            strip_cr_exec(&mut piece);
            let ghost before = out@;
            out.push(piece);
            proof {
                lemma_views_push(before, piece, old_raw, v@.subrange(start as int, i as int));
            }
            start = i + 1;
        }
        i += 1;
    }
    proof {
        assert(find_char(v@, start as int, '\n') is None);
    }
    if start < n {
        let piece = copy_range(&v, start, n);
        let ghost before = out@;
        out.push(piece);
        proof {
            assert(char_views(out@) =~= char_views(before).push(piece@));
            let last = v@.subrange(start as int, n as int);
            assert(split_from(v@, start as int) == seq![last]);
            assert(v@.last() == last.last());
            lemma_find_char(v@, start as int, '\n');
            if v@.last() == '\n' {
                assert(find_char(v@, start as int, '\n') is Some) by {
                    lemma_no_char_then_none(v@, start as int, (n - 1) as int, '\n');
                }
            }
            assert(split_from(v@, 0) =~= raw.push(last));
            assert(split_from(v@, 0).drop_last() =~= raw);
            assert(char_views(out@) =~= lines_of(s@));
        }
    } else {
        proof {
            let last = v@.subrange(start as int, n as int);
            assert(split_from(v@, start as int) == seq![last]);
            assert(split_from(v@, 0) =~= raw.push(last));
            assert(split_from(v@, 0).drop_last() =~= raw);
            assert(char_views(out@) =~= lines_of(s@));
        }
    }
    out
}

proof fn lemma_views_push(out: Seq<Vec<char>>, piece: Vec<char>, raw: Seq<Seq<char>>, x: Seq<char>)
    requires
        char_views(out) == raw.map_values(|l: Seq<char>| strip_cr(l)),
        piece@ == strip_cr(x),
    ensures
        char_views(out.push(piece)) == raw.push(x).map_values(|l: Seq<char>| strip_cr(l)),
{
    let a = char_views(out.push(piece));
    let b = raw.push(x).map_values(|l: Seq<char>| strip_cr(l));
    assert(char_views(out).len() == out.len());
    assert(raw.map_values(|l: Seq<char>| strip_cr(l)).len() == raw.len());
    assert(a.len() == b.len());
    assert forall|j: int| 0 <= j < a.len() implies a[j] == b[j] by {
        if j < out.len() {
            assert(a[j] == char_views(out)[j]);
            assert(b[j] == raw.map_values(|l: Seq<char>| strip_cr(l))[j]);
        }
    }
    assert(a =~= b);
}

pub proof fn lemma_string_views_push(s: Seq<String>, x: String)
    ensures
        string_views(s.push(x)) == string_views(s).push(x@),
{
    assert(string_views(s.push(x)) =~= string_views(s).push(x@));
}

pub proof fn lemma_prefix_push<T>(v: Seq<T>, i: int)
    requires
        0 <= i < v.len(),
    ensures
        v.subrange(0, i + 1) == v.subrange(0, i).push(v[i]),
{
    assert(v.subrange(0, i + 1) =~= v.subrange(0, i).push(v[i]));
}

/// `find_char` finds a character that stands at or after where it looks.
pub proof fn lemma_no_char_then_none(s: Seq<char>, from: int, at: int, c: char)
    requires
        0 <= from <= at < s.len(),
        s[at] == c,
    ensures
        find_char(s, from, c) is Some,
    decreases at - from,
{
    if s[from] != c {
        lemma_no_char_then_none(s, from + 1, at, c);
    }
}

/// First index at or after `i` that is not whitespace, or the length.
pub open spec fn lead(s: Seq<char>, i: int) -> int
    decreases s.len() - i,
{
    if i < 0 || i >= s.len() {
        s.len() as int
    } else if is_white(s[i]) {
        lead(s, i + 1)
    } else {
        i
    }
}

/// One past the last index before `j` that is not whitespace, or 0.
pub open spec fn trail(s: Seq<char>, j: int) -> int
    decreases j,
{
    if j <= 0 || j > s.len() {
        0
    } else if is_white(s[j - 1]) {
        trail(s, j - 1)
    } else {
        j
    }
}

/// `s` without leading and trailing whitespace, as `str::trim` gives it.
pub open spec fn trim(s: Seq<char>) -> Seq<char> {
    let a = lead(s, 0);
    let b = trail(s, s.len() as int);
    if a < b {
        s.subrange(a, b)
    } else {
        seq![]
    }
}

proof fn lemma_lead(s: Seq<char>, i: int)
    requires
        0 <= i <= s.len(),
    ensures
        i <= lead(s, i) <= s.len(),
    decreases s.len() - i,
{
    if i < s.len() && is_white(s[i]) {
        lemma_lead(s, i + 1);
    }
}

proof fn lemma_trail(s: Seq<char>, j: int)
    requires
        0 <= j <= s.len(),
    ensures
        0 <= trail(s, j) <= j,
    decreases j,
{
    if j > 0 && is_white(s[j - 1]) {
        lemma_trail(s, j - 1);
    }
}

/// `v` without leading and trailing whitespace.
pub fn trim_chars(v: &Vec<char>) -> (r: Vec<char>)
    ensures
        r@ == trim(v@),
{
    let n = v.len();
    let mut a: usize = 0;
    while a < n && char_is_whitespace(v[a])
        invariant
            a <= n == v@.len(),
            lead(v@, 0) == lead(v@, a as int),
        decreases n - a,
    {
        a += 1;
    }
    let mut b: usize = n;
    while b > 0 && char_is_whitespace(v[b - 1])
        invariant
            b <= n == v@.len(),
            trail(v@, n as int) == trail(v@, b as int),
        decreases b,
    {
        b -= 1;
    }
    if a < b {
        copy_range(v, a, b)
    } else {
        Vec::new()
    }
}

/// `s` without leading and trailing whitespace.
pub fn trim_str(s: &str) -> (r: String)
    ensures
        r@ == trim(s@),
{
    let v = chars_of(s);
    let t = trim_chars(&v);
    string_of(t.as_slice(), 0, t.len())
}

/// The pieces of `ls` joined with `sep` between each two.
pub open spec fn join(ls: Seq<Seq<char>>, sep: Seq<char>) -> Seq<char>
    decreases ls.len(),
{
    if ls.len() == 0 {
        seq![]
    } else if ls.len() == 1 {
        ls[0]
    } else {
        join(ls.drop_last(), sep) + sep + ls.last()
    }
}

/// The characters of `v` as a string.
pub fn string_of_vec(v: &Vec<char>) -> (r: String)
    ensures
        r@ == v@,
{
    let r = string_of(v.as_slice(), 0, v.len());
    assert(v@.subrange(0, v@.len() as int) =~= v@);
    r
}

/// Lines joined with newlines.
pub fn join_lines(ls: &Vec<String>) -> (r: String)
    ensures
        r@ == join(string_views(ls@), seq!['\n']),
{
    let mut out = String::new();
    let mut i: usize = 0;
    while i < ls.len()
        invariant
            i <= ls@.len(),
            out@ == join(string_views(ls@.subrange(0, i as int)), seq!['\n']),
        decreases ls@.len() - i,
    {
        let ghost prev = string_views(ls@.subrange(0, i as int));
        if i > 0 {
            out.push('\n');
        }
        out.append(ls[i].as_str());
        proof {
            let next = string_views(ls@.subrange(0, i + 1));
            assert(next.drop_last() =~= prev);
            if i == 0 {
                assert(out@ =~= next[0]);
            } else {
                assert(out@ =~= join(next.drop_last(), seq!['\n']) + seq!['\n'] + next.last());
            }
        }
        i += 1;
    }
    assert(ls@.subrange(0, ls@.len() as int) =~= ls@);
    out
}

// ---------------------------------------------------------------------------
// Case mapping.
// ---------------------------------------------------------------------------

/// The Unicode lower-case mapping of a string.
pub uninterp spec fn lower_of(s: Seq<char>) -> Seq<char>;

/// The Unicode upper-case mapping of a string.
pub uninterp spec fn upper_of(s: Seq<char>) -> Seq<char>;

/// Relies on `str::to_lowercase`: the lower-case mapping, which depends on
/// the characters alone.
#[verifier::external_body]
pub(crate) fn to_lower(s: &str) -> (r: String)
    ensures
        r@ == lower_of(s@),
{
    s.to_lowercase()
}

/// Relies on `str::to_uppercase`: the upper-case mapping, which depends on
/// the characters alone.
#[verifier::external_body]
pub(crate) fn to_upper(s: &str) -> (r: String)
    ensures
        r@ == upper_of(s@),
{
    s.to_uppercase()
}

} // verus!
