//! The state of a reply being typed: three fields, a cursor in each, and the
//! text a finished reply appends to a document.
use vstd::prelude::*;
use vstd::string::StringExecFns;
use vstd::string::StringSliceAdditionalSpecFns;
use vstd::utf8::{encode_utf8, decode_utf8, is_char_boundary};
use crate::text::{chars_of, string_of, trim, trim_str, string_views, join};
use crate::post::{Post, PostSpec, fresh_post, post_lines, split_words, words_from, copy_strings};
use crate::util::get_current_timestamp;

verus! {

/// The field that keystrokes go to.
#[derive(Clone, Copy, PartialEq, Eq, Debug)]
pub enum ReplyField {
    Content,
    Tags,
    Mood,
}

/// A reply being typed. Cursors are byte offsets into the UTF-8 text of
/// their field.
pub struct ReplyState {
    pub content: String,
    pub tags: Vec<String>,
    pub tags_input: String,
    pub mood: String,
    pub current_field: ReplyField,
    pub reply_to_id: String,
    pub content_cursor: usize,
    pub tags_input_cursor: usize,
    pub mood_cursor: usize,
}

/// Where replies are written.
pub struct ReplyManager {
    file_path: String,
}

/// The text of the field keystrokes go to.
pub open spec fn field_text(s: ReplyState) -> Seq<char> {
    match s.current_field {
        ReplyField::Content => s.content@,
        ReplyField::Tags => s.tags_input@,
        ReplyField::Mood => s.mood@,
    }
}

/// The cursor of the field keystrokes go to.
pub open spec fn field_cursor(s: ReplyState) -> usize {
    match s.current_field {
        ReplyField::Content => s.content_cursor,
        ReplyField::Tags => s.tags_input_cursor,
        ReplyField::Mood => s.mood_cursor,
    }
}

/// Byte offset `k` falls between two characters of `s` (or at either end).
pub open spec fn on_boundary(s: Seq<char>, k: int) -> bool {
    is_char_boundary(encode_utf8(s), k)
}

/// The fields an edit of the current field leaves alone: the field choice,
/// the target, the tag list, and the text and cursor of the other fields.
pub open spec fn keeps_other_fields(a: ReplyState, b: ReplyState) -> bool {
    &&& b.current_field == a.current_field
    &&& b.reply_to_id == a.reply_to_id
    &&& b.tags == a.tags
    &&& a.current_field != ReplyField::Content ==> b.content == a.content && b.content_cursor
        == a.content_cursor
    &&& a.current_field != ReplyField::Tags ==> b.tags_input == a.tags_input && b.tags_input_cursor
        == a.tags_input_cursor
    &&& a.current_field != ReplyField::Mood ==> b.mood == a.mood && b.mood_cursor == a.mood_cursor
}

/// Moving between fields keeps every text; the cursor of the field entered
/// goes to its end (its length in bytes), the other cursors stay.
pub open spec fn moved_to(a: ReplyState, b: ReplyState, f: ReplyField) -> bool {
    &&& b.current_field == f
    &&& b.content == a.content && b.tags_input == a.tags_input && b.mood == a.mood
    &&& b.tags == a.tags && b.reply_to_id == a.reply_to_id
    &&& b.content_cursor == (if f == ReplyField::Content { encode_utf8(a.content@).len() as usize } else { a.content_cursor })
    &&& b.tags_input_cursor == (if f == ReplyField::Tags { encode_utf8(a.tags_input@).len() as usize } else { a.tags_input_cursor })
    &&& b.mood_cursor == (if f == ReplyField::Mood { encode_utf8(a.mood@).len() as usize } else { a.mood_cursor })
}

/// `s` with `c` inserted at byte offset `k`.
pub open spec fn inserted(s: Seq<char>, k: int, c: char) -> Seq<char> {
    let b = encode_utf8(s);
    decode_utf8(b.subrange(0, k)) + seq![c] + decode_utf8(b.subrange(k, b.len() as int))
}

/// `s` without the character that starts at byte offset `k`.
pub open spec fn removed(s: Seq<char>, k: int) -> Seq<char> {
    let b = encode_utf8(s);
    decode_utf8(b.subrange(0, k)) + decode_utf8(b.subrange(k, b.len() as int)).drop_first()
}

fn insert_at(s: &String, k: usize, c: char) -> (r: String)
    requires
        on_boundary(s@, k as int),
    ensures
        r@ == inserted(s@, k as int, c),
{
    let st = s.as_str();
    let (head, tail) = st.split_at(k);
    proof {
        vstd::utf8::encode_utf8_decode_utf8(head@);
        vstd::utf8::encode_utf8_decode_utf8(tail@);
        assert(st.spec_bytes() == encode_utf8(s@));
    }
    let mut out = String::from_str(head);
    out.push(c);
    out.append(tail);
    out
}

fn remove_at(s: &String, k: usize) -> (r: String)
    requires
        on_boundary(s@, k as int),
        k < encode_utf8(s@).len(),
    ensures
        r@ == removed(s@, k as int),
{
    let st = s.as_str();
    let (head, tail) = st.split_at(k);
    proof {
        vstd::utf8::encode_utf8_decode_utf8(head@);
        vstd::utf8::encode_utf8_decode_utf8(tail@);
        assert(st.spec_bytes() == encode_utf8(s@));
        if tail@.len() == 0 {
            assert(encode_utf8(tail@) =~= Seq::<u8>::empty());
        }
    }
    let v = chars_of(tail);
    let mut out = String::from_str(head);
    let rest = string_of(v.as_slice(), 1, v.len());
    out.append(rest.as_str());
    assert(v@.subrange(1, v@.len() as int) =~= tail@.drop_first());
    out
}

/// A word of the tag input without its leading `#` signs.
pub open spec fn strip_hashes(w: Seq<char>) -> Seq<char>
    decreases w.len(),
{
    if w.len() > 0 && w[0] == '#' {
        strip_hashes(w.drop_first())
    } else {
        w
    }
}

fn strip_hashes_exec(w: &String) -> (r: String)
    ensures
        r@ == strip_hashes(w@),
{
    let v = chars_of(w.as_str());
    let mut i: usize = 0;
    assert(v@.subrange(0, v@.len() as int) =~= v@);
    while i < v.len() && v[i] == '#'
        invariant
            i <= v@.len(),
            strip_hashes(v@) == strip_hashes(v@.subrange(i as int, v@.len() as int)),
        decreases v@.len() - i,
    {
        assert(v@.subrange(i as int, v@.len() as int).drop_first() =~= v@.subrange(i + 1, v@.len() as int));
        i += 1;
    }
    assert(v@.subrange(0, v@.len() as int) =~= v@);
    string_of(v.as_slice(), i, v.len())
}

/// The reply these fields make, dated `timestamp`.
pub open spec fn reply_post_spec(s: ReplyState, timestamp: Seq<char>) -> PostSpec {
    PostSpec {
        tags: if s.tags@.len() > 0 {
            Some(string_views(s.tags@))
        } else {
            None
        },
        client: Some("org-social-rs"@),
        reply_to: Some(s.reply_to_id@),
        mood: if trim(s.mood@).len() > 0 {
            Some(trim(s.mood@))
        } else {
            None
        },
        ..fresh_post(timestamp, s.content@)
    }
}

impl ReplyState {
    /// An empty reply to `reply_to_id`, starting with the given tags.
    pub fn new(reply_to_id: String, initial_tags: Option<Vec<String>>) -> (r: ReplyState)
        ensures
            r.reply_to_id == reply_to_id,
            r.current_field == ReplyField::Content,
            r.content@.len() == 0 && r.tags_input@.len() == 0 && r.mood@.len() == 0,
            r.content_cursor == 0 && r.tags_input_cursor == 0 && r.mood_cursor == 0,
            match initial_tags {
                Some(t) => r.tags == t,
                None => r.tags@.len() == 0,
            },
    {
        let tags = match initial_tags {
            Some(t) => t,
            None => Vec::new(),
        };
        ReplyState {
            content: String::new(),
            tags,
            tags_input: String::new(),
            mood: String::new(),
            current_field: ReplyField::Content,
            reply_to_id,
            content_cursor: 0,
            tags_input_cursor: 0,
            mood_cursor: 0,
        }
    }

    /// Types `c` at the cursor of the current field; the cursor moves on by
    /// one byte.
    pub fn handle_input(&mut self, c: char)
        requires
            on_boundary(field_text(*old(self)), field_cursor(*old(self)) as int),
            field_cursor(*old(self)) < usize::MAX,
        ensures
            keeps_other_fields(*old(self), *final(self)),
            field_text(*final(self)) == inserted(field_text(*old(self)), field_cursor(*old(self)) as int, c),
            field_cursor(*final(self)) == field_cursor(*old(self)) + 1,
    {
        match self.current_field {
            ReplyField::Content => {
                self.content = insert_at(&self.content, self.content_cursor, c);
                self.content_cursor = self.content_cursor + 1;
            },
            ReplyField::Tags => {
                self.tags_input = insert_at(&self.tags_input, self.tags_input_cursor, c);
                self.tags_input_cursor = self.tags_input_cursor + 1;
            },
            ReplyField::Mood => {
                self.mood = insert_at(&self.mood, self.mood_cursor, c);
                self.mood_cursor = self.mood_cursor + 1;
            },
        }
    }

    /// Steps the cursor of the current field back one byte and deletes the
    /// character that starts there; at the start of the field nothing happens.
    pub fn handle_backspace(&mut self)
        requires
            field_cursor(*old(self)) == 0 || (on_boundary(
                field_text(*old(self)),
                field_cursor(*old(self)) - 1,
            ) && field_cursor(*old(self)) - 1 < encode_utf8(field_text(*old(self))).len()),
        ensures
            keeps_other_fields(*old(self), *final(self)),
            field_cursor(*old(self)) == 0 ==> *final(self) == *old(self),
            field_cursor(*old(self)) > 0 ==> field_text(*final(self)) == removed(
                field_text(*old(self)),
                field_cursor(*old(self)) - 1,
            ) && field_cursor(*final(self)) == field_cursor(*old(self)) - 1,
    {
        match self.current_field {
            ReplyField::Content => {
                if self.content_cursor > 0 {
                    self.content_cursor = self.content_cursor - 1;
                    self.content = remove_at(&self.content, self.content_cursor);
                }
            },
            ReplyField::Tags => {
                if self.tags_input_cursor > 0 {
                    self.tags_input_cursor = self.tags_input_cursor - 1;
                    self.tags_input = remove_at(&self.tags_input, self.tags_input_cursor);
                }
            },
            ReplyField::Mood => {
                if self.mood_cursor > 0 {
                    self.mood_cursor = self.mood_cursor - 1;
                    self.mood = remove_at(&self.mood, self.mood_cursor);
                }
            },
        }
    }

    /// A newline goes into the body only.
    pub fn handle_newline(&mut self)
        requires
            old(self).current_field == ReplyField::Content ==> on_boundary(old(self).content@, old(self).content_cursor as int)
                && old(self).content_cursor < usize::MAX,
        ensures
            keeps_other_fields(*old(self), *final(self)),
            old(self).current_field == ReplyField::Content ==> final(self).content@ == inserted(
                old(self).content@,
                old(self).content_cursor as int,
                '\n',
            ) && final(self).content_cursor == old(self).content_cursor + 1,
            old(self).current_field != ReplyField::Content ==> *final(self) == *old(self),
    {
        match self.current_field {
            ReplyField::Content => {
                self.content = insert_at(&self.content, self.content_cursor, '\n');
                self.content_cursor = self.content_cursor + 1;
            },
            _ => {},
        }
    }

    /// Content, then tags, then mood, then content again; the cursor moves to
    /// the end of the field entered.
    pub fn next_field(&mut self)
        ensures
            moved_to(
                *old(self),
                *final(self),
                match old(self).current_field {
                    ReplyField::Content => ReplyField::Tags,
                    ReplyField::Tags => ReplyField::Mood,
                    ReplyField::Mood => ReplyField::Content,
                },
            ),
    {
        self.current_field = match self.current_field {
            ReplyField::Content => ReplyField::Tags,
            ReplyField::Tags => ReplyField::Mood,
            ReplyField::Mood => ReplyField::Content,
        };
        self.update_cursor_position();
    }

    /// The other way round.
    pub fn prev_field(&mut self)
        ensures
            moved_to(
                *old(self),
                *final(self),
                match old(self).current_field {
                    ReplyField::Content => ReplyField::Mood,
                    ReplyField::Tags => ReplyField::Content,
                    ReplyField::Mood => ReplyField::Tags,
                },
            ),
    {
        self.current_field = match self.current_field {
            ReplyField::Content => ReplyField::Mood,
            ReplyField::Tags => ReplyField::Content,
            ReplyField::Mood => ReplyField::Tags,
        };
        self.update_cursor_position();
    }

    fn update_cursor_position(&mut self)
        ensures
            moved_to(*old(self), *final(self), old(self).current_field),
    {
        match self.current_field {
            ReplyField::Content => {
                self.content_cursor = self.content.as_str().as_bytes().len();
            },
            ReplyField::Tags => {
                self.tags_input_cursor = self.tags_input.as_str().as_bytes().len();
            },
            ReplyField::Mood => {
                self.mood_cursor = self.mood.as_str().as_bytes().len();
            },
        }
    }

    /// Moves the typed tags, split at whitespace and without leading `#`,
    /// into the tag list, and empties the input.
    pub fn finalize_tags_input(&mut self)
        ensures
            trim(old(self).tags_input@).len() > 0 ==> string_views(final(self).tags@) == string_views(
                old(self).tags@,
            ) + words_from(old(self).tags_input@, 0).map_values(|w: Seq<char>| strip_hashes(w))
                && final(self).tags_input@.len() == 0 && final(self).tags_input_cursor == 0,
            trim(old(self).tags_input@).len() == 0 ==> *final(self) == *old(self),
            final(self).current_field == old(self).current_field,
            final(self).content == old(self).content && final(self).mood == old(self).mood,
            final(self).reply_to_id == old(self).reply_to_id,
    {
        if trim_str(self.tags_input.as_str()).unicode_len() > 0 {
            let words = split_words(self.tags_input.as_str());
            let ghost base = string_views(self.tags@);
            let mut k: usize = 0;
            while k < words.len()
                invariant
                    k <= words@.len(),
                    self.current_field == old(self).current_field,
                    self.content == old(self).content,
                    self.mood == old(self).mood,
                    self.reply_to_id == old(self).reply_to_id,
                    string_views(self.tags@) == base + string_views(words@.subrange(0, k as int)).map_values(
                        |w: Seq<char>| strip_hashes(w),
                    ),
                decreases words@.len() - k,
            {
                let ghost t0 = self.tags@;
                let w = strip_hashes_exec(&words[k]);
                self.tags.push(w);
                proof {
                    crate::text::lemma_string_views_push(t0, w);
                    crate::text::lemma_prefix_push(words@, k as int);
                    crate::text::lemma_string_views_push(words@.subrange(0, k as int), words@[k as int]);
                    assert(string_views(words@.subrange(0, k + 1)).map_values(|w: Seq<char>| strip_hashes(w))
                        =~= string_views(words@.subrange(0, k as int)).map_values(|w: Seq<char>| strip_hashes(w)).push(strip_hashes(words@[k as int]@)));
                }
                k += 1;
            }
            assert(words@.subrange(0, words@.len() as int) =~= words@);
            self.tags_input = String::new();
            self.tags_input_cursor = 0;
        }
    }

    pub fn remove_last_tag(&mut self)
        ensures
            final(self).tags@ == if old(self).tags@.len() > 0 {
                old(self).tags@.drop_last()
            } else {
                old(self).tags@
            },
    {
        self.tags.pop();
    }

    pub fn get_cursor_position(&self) -> (r: usize)
        ensures
            r == match self.current_field {
                ReplyField::Content => self.content_cursor,
                ReplyField::Tags => self.tags_input_cursor,
                ReplyField::Mood => self.mood_cursor,
            },
    {
        match self.current_field {
            ReplyField::Content => self.content_cursor,
            ReplyField::Tags => self.tags_input_cursor,
            ReplyField::Mood => self.mood_cursor,
        }
    }

    pub fn get_current_field_text(&self) -> (r: &str)
        ensures
            r@ == match self.current_field {
                ReplyField::Content => self.content@,
                ReplyField::Tags => self.tags_input@,
                ReplyField::Mood => self.mood@,
            },
    {
        match self.current_field {
            ReplyField::Content => self.content.as_str(),
            ReplyField::Tags => self.tags_input.as_str(),
            ReplyField::Mood => self.mood.as_str(),
        }
    }

    /// A reply needs a body with more than whitespace.
    pub fn is_ready_to_submit(&self) -> (r: bool)
        ensures
            r == (trim(self.content@).len() > 0),
    {
        trim_str(self.content.as_str()).unicode_len() > 0
    }

    /// The reply post these fields make, dated `timestamp`.
    pub fn reply_post_at(&self, timestamp: String) -> (r: Post)
        ensures
            r@ == reply_post_spec(*self, timestamp@),
    {
        let mut post = Post::new(timestamp, self.content.clone());
        if self.tags.len() > 0 {
            post.set_tags(Some(copy_strings(&self.tags)));
        }
        post.set_client(Some(String::from_str("org-social-rs")));
        post.set_reply_to(Some(self.reply_to_id.clone()));
        let m = trim_str(self.mood.as_str());
        if m.unicode_len() > 0 {
            post.set_mood(Some(m));
        }
        post
    }

    /// The text a reply dated now appends to a document: a newline, then the
    /// serialized post.
    pub fn create_reply_post(&self) -> (r: String)
        ensures
            exists|t: Seq<char>| r@ == seq!['\n'] + join(post_lines(#[trigger] reply_post_spec(*self, t)), seq!['\n']),
    {
        let timestamp = get_current_timestamp();
        let post = self.reply_post_at(timestamp);
        let mut out = String::from_str("\n");
        out.append(post.to_org_social().as_str());
        proof {
            reveal_strlit("\n");
        }
        out
    }
}

impl ReplyManager {
    pub fn new(file_path: &str) -> (r: ReplyManager)
        ensures
            r.file_path_spec() == file_path@,
    {
        ReplyManager { file_path: file_path.to_string() }
    }

    pub closed spec fn file_path_spec(&self) -> Seq<char> {
        self.file_path@
    }

    pub fn file_path(&self) -> (r: &str)
        ensures
            r@ == self.file_path_spec(),
    {
        self.file_path.as_str()
    }
}

} // verus!
