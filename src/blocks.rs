//! Fenced blocks (`#+begin_TYPE ... #+end_TYPE`) in a post body, and the
//! collapsed rendering of a body whose blocks may be folded.
use vstd::prelude::*;
use std::collections::HashMap;
use vstd::string::StringExecFns;
use crate::text::{
    chars_of, string_of, string_of_vec, lines, lines_of, trim, trim_chars, char_views, join,
    string_views, join_lines, to_lower, to_upper, lower_of, upper_of, find_char, find_char_exec,
    prefix_at, opt_int, lemma_find_char,
};

verus! {

broadcast use vstd::std_specs::hash::group_hash_axioms;

/// A fenced block of a body.
#[derive(Debug, Clone, PartialEq)]
pub struct OrgBlock {
    pub block_type: String,
    pub attributes: Option<String>,
    pub content: String,
    pub start_line: usize,
    pub end_line: usize,
    pub is_collapsed: bool,
}

/// An element of a body that a reader can fold or unfold.
#[derive(Debug, Clone, PartialEq)]
pub enum ActivatableElement {
    Block(OrgBlock),
}

/// The mathematical value of a block.
pub struct BlockSpec {
    pub block_type: Seq<char>,
    pub attributes: Option<Seq<char>>,
    pub content: Seq<char>,
    pub start_line: int,
    pub end_line: int,
    pub is_collapsed: bool,
}

impl View for OrgBlock {
    type V = BlockSpec;

    open spec fn view(&self) -> BlockSpec {
        BlockSpec {
            block_type: self.block_type@,
            attributes: match self.attributes {
                Some(a) => Some(a@),
                None => None,
            },
            content: self.content@,
            start_line: self.start_line as int,
            end_line: self.end_line as int,
            is_collapsed: self.is_collapsed,
        }
    }
}

impl View for ActivatableElement {
    type V = BlockSpec;

    open spec fn view(&self) -> BlockSpec {
        match self {
            ActivatableElement::Block(b) => b@,
        }
    }
}

pub open spec fn element_views(es: Seq<ActivatableElement>) -> Seq<BlockSpec> {
    es.map_values(|e: ActivatableElement| e@)
}

// ---------------------------------------------------------------------------
// The block grammar, over the lines of a body.
// ---------------------------------------------------------------------------

pub open spec fn begin_lower() -> Seq<char> {
    seq!['#', '+', 'b', 'e', 'g', 'i', 'n', '_']
}

pub open spec fn begin_upper() -> Seq<char> {
    seq!['#', '+', 'B', 'E', 'G', 'I', 'N', '_']
}

pub open spec fn end_lower() -> Seq<char> {
    seq!['#', '+', 'e', 'n', 'd', '_']
}

pub open spec fn end_upper() -> Seq<char> {
    seq!['#', '+', 'E', 'N', 'D', '_']
}

/// Whether a line, once trimmed, opens a block.
pub open spec fn opens_block(line: Seq<char>) -> bool {
    prefix_at(trim(line), 0, begin_lower()) || prefix_at(trim(line), 0, begin_upper())
}

/// What follows the begin marker on an opening line.
pub open spec fn after_begin(line: Seq<char>) -> Seq<char> {
    trim(line).subrange(8, trim(line).len() as int)
}

/// The block type named on an opening line, lower-cased.
pub open spec fn type_of(line: Seq<char>) -> Seq<char> {
    let h = after_begin(line);
    match find_char(h, 0, ' ') {
        Some(i) => lower_of(h.subrange(0, i)),
        None => lower_of(h),
    }
}

/// The attribute text after the block type on an opening line.
pub open spec fn attributes_of(line: Seq<char>) -> Option<Seq<char>> {
    let h = after_begin(line);
    match find_char(h, 0, ' ') {
        Some(i) => Some(h.subrange(i + 1, h.len() as int)),
        None => None,
    }
}

/// Whether a line, once trimmed, closes a block of type `ty`.
pub open spec fn closes_block(line: Seq<char>, ty: Seq<char>) -> bool {
    trim(line) == end_lower() + ty || trim(line) == end_upper() + upper_of(ty)
}

/// The first line at or after `from` that closes a block of type `ty`.
pub open spec fn find_end(ls: Seq<Seq<char>>, from: int, ty: Seq<char>) -> Option<int>
    decreases ls.len() - from,
{
    if from < 0 || from >= ls.len() {
        None
    } else if closes_block(ls[from], ty) {
        Some(from)
    } else {
        find_end(ls, from + 1, ty)
    }
}

/// The block opened at line `i`, if a line after it closes it.
pub open spec fn block_at(ls: Seq<Seq<char>>, i: int) -> Option<BlockSpec> {
    let ty = type_of(ls[i]);
    match find_end(ls, i + 1, ty) {
        Some(e) => Some(
            BlockSpec {
                block_type: ty,
                attributes: attributes_of(ls[i]),
                content: join(ls.subrange(i + 1, e), seq!['\n']),
                start_line: i,
                end_line: e,
                is_collapsed: false,
            },
        ),
        None => None,
    }
}

/// The blocks found scanning from line `i`: a block found resumes the scan
/// after its closing line, an opening line left unclosed resumes it on the
/// next line.
pub open spec fn blocks_from(ls: Seq<Seq<char>>, i: int) -> Seq<BlockSpec>
    decreases ls.len() - i,
{
    if i < 0 || i >= ls.len() {
        seq![]
    } else if opens_block(ls[i]) && block_at(ls, i) is Some {
        let b = block_at(ls, i)->0;
        if b.end_line < i || b.end_line >= ls.len() {
            seq![]
        } else {
            seq![b] + blocks_from(ls, b.end_line + 1)
        }
    } else {
        blocks_from(ls, i + 1)
    }
}

/// The blocks of a body.
pub open spec fn blocks_of(content: Seq<char>) -> Seq<BlockSpec> {
    blocks_from(lines_of(content), 0)
}

proof fn lemma_find_end(ls: Seq<Seq<char>>, from: int, ty: Seq<char>)
    ensures
        find_end(ls, from, ty) matches Some(e) ==> from <= e < ls.len() && closes_block(ls[e], ty),
    decreases ls.len() - from,
{
    if from >= 0 && from < ls.len() && !closes_block(ls[from], ty) {
        lemma_find_end(ls, from + 1, ty);
    }
}

// ---------------------------------------------------------------------------
// Executable parser.
// ---------------------------------------------------------------------------

/// Whether two character vectors are equal.
pub fn same_chars(a: &Vec<char>, b: &Vec<char>) -> (r: bool)
    ensures
        r == (a@ == b@),
{
    if a.len() != b.len() {
        return false;
    }
    let mut i: usize = 0;
    while i < a.len()
        invariant
            a@.len() == b@.len(),
            i <= a@.len(),
            forall|j: int| 0 <= j < i ==> a@[j] == b@[j],
        decreases a@.len() - i,
    {
        if a[i] != b[i] {
            return false;
        }
        i += 1;
    }
    assert(a@ =~= b@);
    true
}

/// Whether `v` starts with the characters of `pre`.
pub fn starts_with_chars(v: &Vec<char>, pre: &Vec<char>) -> (r: bool)
    ensures
        r == prefix_at(v@, 0, pre@),
{
    if v.len() < pre.len() {
        return false;
    }
    let mut i: usize = 0;
    while i < pre.len()
        invariant
            pre@.len() <= v@.len(),
            i <= pre@.len(),
            forall|j: int| 0 <= j < i ==> v@[j] == pre@[j],
        decreases pre@.len() - i,
    {
        if v[i] != pre[i] {
            assert(v@.subrange(0, pre@.len() as int)[i as int] != pre@[i as int]);
            return false;
        }
        i += 1;
    }
    assert(v@.subrange(0, pre@.len() as int) =~= pre@);
    true
}

fn begin_markers() -> (r: (Vec<char>, Vec<char>))
    ensures
        r.0@ == begin_lower(),
        r.1@ == begin_upper(),
{
    let lo = vec!['#', '+', 'b', 'e', 'g', 'i', 'n', '_'];
    let up = vec!['#', '+', 'B', 'E', 'G', 'I', 'N', '_'];
    assert(lo@ =~= begin_lower());
    assert(up@ =~= begin_upper());
    (lo, up)
}

fn opens_block_exec(line: &Vec<char>) -> (r: bool)
    ensures
        r == opens_block(line@),
{
    let t = trim_chars(line);
    let (lo, up) = begin_markers();
    starts_with_chars(&t, &lo) || starts_with_chars(&t, &up)
}

fn append_chars(a: &mut Vec<char>, b: &Vec<char>)
    ensures
        final(a)@ == old(a)@ + b@,
{
    let mut i: usize = 0;
    while i < b.len()
        invariant
            i <= b@.len(),
            a@ == old(a)@ + b@.subrange(0, i as int),
        decreases b@.len() - i,
    {
        a.push(b[i]);
        assert(a@ =~= old(a)@ + b@.subrange(0, i + 1));
        i += 1;
    }
    assert(b@.subrange(0, b@.len() as int) =~= b@);
}

/// Lines `from..to` of `ls`, joined with newlines.
fn join_range(ls: &Vec<Vec<char>>, from: usize, to: usize) -> (r: String)
    requires
        from <= to <= ls@.len(),
    ensures
        r@ == join(char_views(ls@).subrange(from as int, to as int), seq!['\n']),
{
    let mut out: Vec<char> = Vec::new();
    let mut i = from;
    while i < to
        invariant
            from <= i <= to <= ls@.len(),
            out@ == join(char_views(ls@).subrange(from as int, i as int), seq!['\n']),
        decreases to - i,
    {
        let ghost prev = char_views(ls@).subrange(from as int, i as int);
        if i > from {
            out.push('\n');
        }
        append_chars(&mut out, &ls[i]);
        proof {
            let next = char_views(ls@).subrange(from as int, i + 1);
            assert(next.drop_last() =~= prev);
            assert(next.last() == ls@[i as int]@);
            if i == from {
                assert(out@ =~= next[0]);
            } else {
                assert(out@ =~= join(next.drop_last(), seq!['\n']) + seq!['\n'] + next.last());
            }
        }
        i += 1;
    }
    string_of_vec(&out)
}

/// Parses the block opened at line `start_line`, if a later line closes it.
fn parse_block_from_line(start_line: usize, ls: &Vec<Vec<char>>) -> (r: Option<
    ActivatableElement,
>)
    requires
        start_line < ls@.len(),
        opens_block(ls@[start_line as int]@),
    ensures
        match r {
            Some(e) => block_at(char_views(ls@), start_line as int) == Some(e@),
            None => block_at(char_views(ls@), start_line as int) is None,
        },
{
    let ghost views = char_views(ls@);
    let n = ls.len();
    assert(views.len() == n);
    let t = trim_chars(&ls[start_line]);
    let tn = t.len();
    let mut h: Vec<char> = Vec::new();
    let mut k: usize = 8;
    while k < tn
        invariant
            8 <= k <= tn,
            tn == t@.len(),
            h@ == t@.subrange(8, k as int),
        decreases tn - k,
    {
        h.push(t[k]);
        assert(h@ =~= t@.subrange(8, k + 1));
        k += 1;
    }
    assert(h@ == after_begin(views[start_line as int]));
    let hn = h.len();
    proof {
        lemma_find_char(h@, 0, ' ');
    }
    let sp = find_char_exec(&h, 0, ' ');
    let (word, attributes) = match sp {
        Some(i) => (string_of(h.as_slice(), 0, i), Some(string_of(h.as_slice(), i + 1, hn))),
        None => (string_of(h.as_slice(), 0, hn), None),
    };
    proof {
        if sp is None {
            assert(h@.subrange(0, hn as int) =~= h@);
        }
    }
    let block_type = to_lower(word.as_str());
    let upper = to_upper(block_type.as_str());
    let ghost ty = type_of(views[start_line as int]);
    assert(block_type@ == ty);
    assert(upper@ == upper_of(ty));
    proof {
        lemma_find_end_as(views, start_line + 1, ty);
    }
    close_block(start_line, ls, block_type, upper, attributes)
}

/// A line, once trimmed, that closes a block of type `ty` whose upper-case
/// form is `up`.
pub open spec fn closes_as(line: Seq<char>, ty: Seq<char>, up: Seq<char>) -> bool {
    trim(line) == end_lower() + ty || trim(line) == end_upper() + up
}

/// The first line at or after `from` that closes a block of type `ty`
/// written `up` in upper case.
pub open spec fn find_end_as(ls: Seq<Seq<char>>, from: int, ty: Seq<char>, up: Seq<char>) -> Option<int>
    decreases ls.len() - from,
{
    if from < 0 || from >= ls.len() {
        None
    } else if closes_as(ls[from], ty, up) {
        Some(from)
    } else {
        find_end_as(ls, from + 1, ty, up)
    }
}

/// The block opened at line `i` with type `ty` (upper case `up`) and the
/// given attributes, if a later line closes it.
pub open spec fn closed_block(
    ls: Seq<Seq<char>>,
    i: int,
    ty: Seq<char>,
    up: Seq<char>,
    attrs: Option<Seq<char>>,
) -> Option<BlockSpec> {
    match find_end_as(ls, i + 1, ty, up) {
        Some(e) => Some(
            BlockSpec {
                block_type: ty,
                attributes: attrs,
                content: join(ls.subrange(i + 1, e), seq!['\n']),
                start_line: i,
                end_line: e,
                is_collapsed: false,
            },
        ),
        None => None,
    }
}

proof fn lemma_find_end_as(ls: Seq<Seq<char>>, from: int, ty: Seq<char>)
    ensures
        find_end(ls, from, ty) == find_end_as(ls, from, ty, upper_of(ty)),
    decreases ls.len() - from,
{
    if from >= 0 && from < ls.len() {
        lemma_find_end_as(ls, from + 1, ty);
    }
}

proof fn lemma_no_end(ls: Seq<Seq<char>>, from: int, ty: Seq<char>, up: Seq<char>)
    requires
        0 <= from,
        forall|j: int| from <= j < ls.len() ==> !closes_as(#[trigger] ls[j], ty, up),
    ensures
        find_end_as(ls, from, ty, up) is None,
    decreases ls.len() - from,
{
    if from < ls.len() {
        lemma_no_end(ls, from + 1, ty, up);
    }
}

/// A block that no later line closes is dropped: no element comes of it.
pub proof fn lemma_unclosed_block_dropped(
    ls: Seq<Seq<char>>,
    i: int,
    ty: Seq<char>,
    up: Seq<char>,
    attrs: Option<Seq<char>>,
)
    requires
        0 <= i,
        forall|j: int| i < j < ls.len() ==> !closes_as(#[trigger] ls[j], ty, up),
    ensures
        closed_block(ls, i, ty, up, attrs) is None,
{
    lemma_no_end(ls, i + 1, ty, up);
}

pub open spec fn opt_str_view(o: Option<String>) -> Option<Seq<char>> {
    match o {
        Some(a) => Some(a@),
        None => None,
    }
}

/// The block opened at `start_line` once its type is known in lower case
/// (`block_type`) and upper case (`upper`): it runs to the first later line
/// that, trimmed, is `#+end_` followed by the lower-case type or `#+END_`
/// followed by the upper-case one.
pub fn close_block(
    start_line: usize,
    ls: &Vec<Vec<char>>,
    block_type: String,
    upper: String,
    attributes: Option<String>,
) -> (r: Option<ActivatableElement>)
    requires
        start_line < ls@.len(),
    ensures
        match r {
            Some(e) => closed_block(char_views(ls@), start_line as int, block_type@, upper@, opt_str_view(attributes)) == Some(e@),
            None => closed_block(char_views(ls@), start_line as int, block_type@, upper@, opt_str_view(attributes)) is None,
        },
{
    let ghost views = char_views(ls@);
    let ghost ty = block_type@;
    let ghost up = upper@;
    let ghost attrs = opt_str_view(attributes);
    let n = ls.len();
    assert(views.len() == ls@.len());
    let mut end_lo = vec!['#', '+', 'e', 'n', 'd', '_'];
    let mut end_up = vec!['#', '+', 'E', 'N', 'D', '_'];
    assert(end_lo@ =~= end_lower());
    assert(end_up@ =~= end_upper());
    append_chars(&mut end_lo, &chars_of(block_type.as_str()));
    append_chars(&mut end_up, &chars_of(upper.as_str()));
    let mut idx = start_line + 1;
    while idx < ls.len()
        invariant
            start_line < idx <= ls@.len(),
            views == char_views(ls@),
            end_lo@ == end_lower() + ty,
            end_up@ == end_upper() + up,
            block_type@ == ty,
            upper@ == up,
            opt_str_view(attributes) == attrs,
            find_end_as(views, start_line + 1, ty, up) == find_end_as(views, idx as int, ty, up),
        decreases ls@.len() - idx,
    {
        let trimmed = trim_chars(&ls[idx]);
        assert(ls@[idx as int]@ == views[idx as int]);
        if same_chars(&trimmed, &end_lo) || same_chars(&trimmed, &end_up) {
            assert(closes_as(views[idx as int], ty, up));
            assert(find_end_as(views, idx as int, ty, up) == Some(idx as int));
            let content = join_range(ls, start_line + 1, idx);
            assert(char_views(ls@).subrange(start_line + 1, idx as int) =~= views.subrange(
                start_line + 1,
                idx as int,
            ));
            let block = OrgBlock {
                block_type,
                attributes,
                content,
                start_line,
                end_line: idx,
                is_collapsed: false,
            };
            assert(closed_block(views, start_line as int, ty, up, attrs) == Some(block@));
            return Some(ActivatableElement::Block(block));
        }
        idx += 1;
    }
    None
}

/// The blocks of a body, in order of their opening lines.
pub fn parse_blocks(content: &str) -> (r: Vec<ActivatableElement>)
    ensures
        element_views(r@) == blocks_of(content@),
{
    let ls = lines(content);
    let ghost views = char_views(ls@);
    let mut elements: Vec<ActivatableElement> = Vec::new();
    let mut i: usize = 0;
    while i < ls.len()
        invariant
            views == char_views(ls@),
            views == lines_of(content@),
            element_views(elements@) + blocks_from(views, i as int) == blocks_from(views, 0),
        decreases ls@.len() - i,
    {
        assert(ls@[i as int]@ == views[i as int]);
        if opens_block_exec(&ls[i]) {
            match parse_block_from_line(i, &ls) {
                Some(element) => {
                    let end = element.end_line();
                    proof {
                        lemma_find_end(views, i + 1, type_of(views[i as int]));
                    }
                    let ghost before = elements@;
                    elements.push(element);
                    assert(element_views(elements@) =~= element_views(before) + seq![element@]);
                    assert(element_views(elements@) + blocks_from(views, end + 1) =~= element_views(
                        before,
                    ) + (seq![element@] + blocks_from(views, end + 1)));
                    i = end + 1;
                },
                None => {
                    i += 1;
                },
            }
        } else {
            i += 1;
        }
    }
    assert(element_views(elements@) =~= blocks_from(views, 0));
    elements
}

impl ActivatableElement {
    pub fn start_line(&self) -> (r: usize)
        ensures
            r == self@.start_line,
    {
        match self {
            ActivatableElement::Block(block) => block.start_line,
        }
    }

    pub fn end_line(&self) -> (r: usize)
        ensures
            r == self@.end_line,
    {
        match self {
            ActivatableElement::Block(block) => block.end_line,
        }
    }

    pub fn is_collapsed(&self) -> (r: bool)
        ensures
            r == self@.is_collapsed,
    {
        match self {
            ActivatableElement::Block(block) => block.is_collapsed,
        }
    }

    pub fn toggle_collapsed(&mut self)
        ensures
            final(self)@ == (BlockSpec { is_collapsed: !old(self)@.is_collapsed, ..old(self)@ }),
    {
        match self {
            ActivatableElement::Block(block) => block.is_collapsed = !block.is_collapsed,
        }
    }

    /// The one-line description of a folded element.
    pub fn get_summary(&self) -> (r: String)
        ensures
            r@ == summary_of(self@),
    {
        match self {
            ActivatableElement::Block(block) => {
                let lower = to_lower(block.block_type.as_str());
                let label = type_label(&lower);
                match &block.attributes {
                    Some(attrs) => {
                        let mut out = label;
                        out.append(" (");
                        out.append(attrs.as_str());
                        out.append(")");
                        out
                    },
                    None => label,
                }
            },
        }
    }

    pub fn get_content(&self) -> (r: &str)
        ensures
            r@ == self@.content,
    {
        match self {
            ActivatableElement::Block(block) => block.content.as_str(),
        }
    }
}

/// The display name of a (lower-cased) block type.
pub open spec fn label_of(lower: Seq<char>) -> Seq<char> {
    if lower == "src"@ {
        "Code block"@
    } else if lower == "quote"@ {
        "Quote block"@
    } else if lower == "example"@ {
        "Example block"@
    } else if lower == "verse"@ {
        "Verse block"@
    } else {
        "Block"@
    }
}

/// `Label (attributes)`, or the label alone when there are no attributes.
pub open spec fn summary_of(b: BlockSpec) -> Seq<char> {
    let label = label_of(lower_of(b.block_type));
    match b.attributes {
        Some(a) => label + " ("@ + a + ")"@,
        None => label,
    }
}

fn type_label(lower: &String) -> (r: String)
    ensures
        r@ == label_of(lower@),
{
    if lower.eq(&String::from_str("src")) {
        String::from_str("Code block")
    } else if lower.eq(&String::from_str("quote")) {
        String::from_str("Quote block")
    } else if lower.eq(&String::from_str("example")) {
        String::from_str("Example block")
    } else if lower.eq(&String::from_str("verse")) {
        String::from_str("Verse block")
    } else {
        String::from_str("Block")
    }
}

/// The index of the first element opening at line `li`.
pub open spec fn first_at(es: Seq<BlockSpec>, li: int, k: int) -> Option<int>
    decreases es.len() - k,
{
    if k < 0 || k >= es.len() {
        None
    } else if es[k].start_line == li {
        Some(k)
    } else {
        first_at(es, li, k + 1)
    }
}

/// `[+] summary [...]`
pub open spec fn folded_line(e: BlockSpec) -> Seq<char> {
    "[+] "@ + summary_of(e) + " [...]"@
}

/// The rendered lines from line `li` on: a folded element becomes its
/// summary line, an unfolded one keeps its lines, other lines pass through.
pub open spec fn rendered_from(ls: Seq<Seq<char>>, es: Seq<BlockSpec>, li: int) -> Seq<Seq<char>>
    decreases ls.len() - li,
{
    if li < 0 || li >= ls.len() {
        seq![]
    } else {
        match first_at(es, li, 0) {
            Some(k) => {
                let e = es[k];
                if e.end_line < li || e.end_line >= ls.len() {
                    seq![]
                } else {
                    (if e.is_collapsed {
                        seq![folded_line(e)]
                    } else {
                        ls.subrange(li, e.end_line + 1)
                    }) + rendered_from(ls, es, e.end_line + 1)
                }
            },
            None => seq![ls[li]] + rendered_from(ls, es, li + 1),
        }
    }
}

/// Blocks lie within the lines and end after they start.
pub open spec fn blocks_within(bs: Seq<BlockSpec>, n: int) -> bool {
    forall|k: int| 0 <= k < bs.len() ==> #[trigger] bs[k].start_line < bs[k].end_line < n
}

proof fn lemma_blocks_within(ls: Seq<Seq<char>>, i: int)
    ensures
        blocks_within(blocks_from(ls, i), ls.len() as int),
    decreases ls.len() - i,
{
    if i >= 0 && i < ls.len() {
        if opens_block(ls[i]) && block_at(ls, i) is Some {
            let b = block_at(ls, i)->0;
            lemma_find_end(ls, i + 1, type_of(ls[i]));
            if !(b.end_line < i || b.end_line >= ls.len()) {
                lemma_blocks_within(ls, b.end_line + 1);
                let bs = blocks_from(ls, i);
                assert forall|k: int| 0 <= k < bs.len() implies #[trigger] bs[k].start_line
                    < bs[k].end_line < ls.len() by {
                    if k > 0 {
                        assert(bs[k] == blocks_from(ls, b.end_line + 1)[k - 1]);
                    }
                }
            }
        } else {
            lemma_blocks_within(ls, i + 1);
        }
    }
}

proof fn lemma_first_at(es: Seq<BlockSpec>, li: int, k: int)
    requires
        0 <= k,
    ensures
        first_at(es, li, k) matches Some(j) ==> k <= j < es.len() && es[j].start_line == li,
    decreases es.len() - k,
{
    if k < es.len() && es[k].start_line != li {
        lemma_first_at(es, li, k + 1);
    }
}

fn find_element(es: &Vec<ActivatableElement>, li: usize) -> (r: Option<usize>)
    ensures
        opt_int(r) == first_at(element_views(es@), li as int, 0),
        r matches Some(k) ==> k < es@.len() && es@[k as int]@.start_line == li,
{
    proof {
        lemma_first_at(element_views(es@), li as int, 0);
    }
    let ghost vs = element_views(es@);
    let mut k: usize = 0;
    while k < es.len()
        invariant
            k <= es@.len() == vs.len(),
            vs == element_views(es@),
            first_at(vs, li as int, 0) == first_at(vs, li as int, k as int),
        decreases es@.len() - k,
    {
        assert(es@[k as int]@ == vs[k as int]);
        if es[k].start_line() == li {
            return Some(k);
        }
        k += 1;
    }
    None
}

/// The overlay's fold flag for a block, or its own when the overlay has none.
pub open spec fn overlaid(b: BlockSpec, overlay: Map<usize, bool>) -> BlockSpec {
    BlockSpec {
        is_collapsed: if overlay.contains_key(b.start_line as usize) {
            overlay[b.start_line as usize]
        } else {
            b.is_collapsed
        },
        ..b
    }
}

/// The body with each folded block replaced by one summary line, together
/// with its blocks, each folded or not as `collapsed_blocks` says for its
/// opening line (unfolded where it says nothing).
pub fn process_content_with_blocks(content: &str, collapsed_blocks: &HashMap<usize, bool>) -> (r: (
    String,
    Vec<ActivatableElement>,
))
    ensures
        element_views(r.1@) == blocks_of(content@).map_values(
            |b: BlockSpec| overlaid(b, collapsed_blocks@),
        ),
        r.0@ == join(rendered_from(lines_of(content@), element_views(r.1@), 0), seq!['\n']),
{
    let mut rest = parse_blocks(content);
    let ghost parsed = blocks_of(content@);
    let ghost total = parsed.len();
    proof {
        lemma_blocks_within(lines_of(content@), 0);
    }
    let mut elements: Vec<ActivatableElement> = Vec::new();
    while rest.len() > 0
        invariant
            elements@.len() + rest@.len() == total,
            parsed.len() == total,
            forall|k: int|
                0 <= k < rest@.len() ==> #[trigger] rest@[k]@ == parsed[k + elements@.len()],
            forall|k: int|
                0 <= k < elements@.len() ==> #[trigger] elements@[k]@ == overlaid(
                    parsed[k],
                    collapsed_blocks@,
                ),
        decreases rest@.len(),
    {
        let ghost old_rest = rest@;
        let e = rest.remove(0);
        let ghost idx = elements@.len() as int;
        assert(e@ == parsed[idx]);
        let updated = match e {
            ActivatableElement::Block(b) => {
                let mut nb = b;
                match collapsed_blocks.get(&nb.start_line) {
                    Some(flag) => {
                        nb.is_collapsed = *flag;
                    },
                    None => {},
                }
                ActivatableElement::Block(nb)
            },
        };
        elements.push(updated);
        assert forall|k: int| 0 <= k < rest@.len() implies #[trigger] rest@[k]@ == parsed[k
            + elements@.len()] by {
            assert(rest@[k] == old_rest[k + 1]);
        }
    }
    let ghost evs = element_views(elements@);
    assert(evs =~= parsed.map_values(|b: BlockSpec| overlaid(b, collapsed_blocks@)));
    let ls = lines(content);
    let n = ls.len();
    let ghost ls_v = lines_of(content@);
    assert(blocks_within(evs, n as int)) by {
        assert forall|k: int| 0 <= k < evs.len() implies #[trigger] evs[k].start_line
            < evs[k].end_line < n by {
            assert(evs[k] == overlaid(parsed[k], collapsed_blocks@));
        }
    }
    let mut out: Vec<String> = Vec::new();
    let mut li: usize = 0;
    while li < n
        invariant
            n == ls@.len(),
            char_views(ls@) == ls_v,
            evs == element_views(elements@),
            blocks_within(evs, n as int),
            li <= n,
            string_views(out@) + rendered_from(ls_v, evs, li as int) == rendered_from(
                ls_v,
                evs,
                0,
            ),
        decreases n - li,
    {
        let ghost before = out@;
        match find_element(&elements, li) {
            Some(k) => {
                let e = &elements[k];
                assert(e@ == evs[k as int]);
                let end = e.end_line();
                if e.is_collapsed() {
                    let mut line = String::from_str("[+] ");
                    line.append(e.get_summary().as_str());
                    line.append(" [...]");
                    out.push(line);
                    assert(string_views(out@) =~= string_views(before).push(folded_line(e@)));
                } else {
                    let mut m = li;
                    while m <= end
                        invariant
                            li <= m <= end + 1,
                            end < n == ls@.len(),
                            string_views(out@) == string_views(before) + ls_v.subrange(
                                li as int,
                                m as int,
                            ),
                            char_views(ls@) == ls_v,
                        decreases end + 1 - m,
                    {
                        let ghost b2 = out@;
                        out.push(string_of_vec(&ls[m]));
                        assert(ls@[m as int]@ == ls_v[m as int]);
                        assert(string_views(out@) =~= string_views(b2).push(ls_v[m as int]));
                        assert(ls_v.subrange(li as int, m + 1) =~= ls_v.subrange(li as int, m as int).push(
                            ls_v[m as int],
                        ));
                        m += 1;
                    }
                }
                assert(string_views(out@) + rendered_from(ls_v, evs, end + 1) =~= string_views(
                    before,
                ) + rendered_from(ls_v, evs, li as int));
                li = end + 1;
            },
            None => {
                out.push(string_of_vec(&ls[li]));
                assert(ls@[li as int]@ == ls_v[li as int]);
                assert(string_views(out@) =~= string_views(before).push(ls_v[li as int]));
                assert(string_views(out@) + rendered_from(ls_v, evs, li + 1) =~= string_views(
                    before,
                ) + rendered_from(ls_v, evs, li as int));
                li += 1;
            },
        }
    }
    assert(string_views(out@) =~= rendered_from(ls_v, evs, 0));
    (join_lines(&out), elements)
}

} // verus!
