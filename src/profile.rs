//! The profile header of a document: title, nick, description, avatar,
//! links, followed accounts and contacts.
use vstd::prelude::*;
use vstd::string::StringExecFns;
use crate::text::{
    chars_of, string_of, string_of_vec, trim, trim_chars, find_char, find_char_exec,
    lemma_find_char, string_views, join, join_lines,
};

verus! {

/// A user profile.
#[derive(Clone, Debug)]
pub struct Profile {
    title: String,
    nick: String,
    description: String,
    avatar: Option<String>,
    link: Option<Vec<String>>,
    follow: Option<Vec<(String, String)>>,
    contact: Option<Vec<String>>,
    source: Option<String>,
}

/// The mathematical value of a profile.
pub struct ProfileSpec {
    pub title: Seq<char>,
    pub nick: Seq<char>,
    pub description: Seq<char>,
    pub avatar: Option<Seq<char>>,
    pub link: Option<Seq<Seq<char>>>,
    pub follow: Option<Seq<(Seq<char>, Seq<char>)>>,
    pub contact: Option<Seq<Seq<char>>>,
    pub source: Option<Seq<char>>,
}

pub open spec fn ostr(o: Option<String>) -> Option<Seq<char>> {
    match o {
        Some(s) => Some(s@),
        None => None,
    }
}

pub open spec fn ostrs(o: Option<Vec<String>>) -> Option<Seq<Seq<char>>> {
    match o {
        Some(v) => Some(string_views(v@)),
        None => None,
    }
}

pub open spec fn pair_views(v: Seq<(String, String)>) -> Seq<(Seq<char>, Seq<char>)> {
    v.map_values(|p: (String, String)| (p.0@, p.1@))
}

pub open spec fn opairs(o: Option<Vec<(String, String)>>) -> Option<Seq<(Seq<char>, Seq<char>)>> {
    match o {
        Some(v) => Some(pair_views(v@)),
        None => None,
    }
}

impl View for Profile {
    type V = ProfileSpec;

    closed spec fn view(&self) -> ProfileSpec {
        ProfileSpec {
            title: self.title@,
            nick: self.nick@,
            description: self.description@,
            avatar: ostr(self.avatar),
            link: ostrs(self.link),
            follow: opairs(self.follow),
            contact: ostrs(self.contact),
            source: ostr(self.source),
        }
    }
}

pub open spec fn empty_profile() -> ProfileSpec {
    ProfileSpec {
        title: seq![],
        nick: seq![],
        description: seq![],
        avatar: None,
        link: None,
        follow: None,
        contact: None,
        source: None,
    }
}

/// `v` with `x` appended, starting from an empty sequence when absent.
pub open spec fn append_opt<T>(v: Option<Seq<T>>, x: Seq<T>) -> Option<Seq<T>> {
    match v {
        Some(s) => Some(s + x),
        None => Some(x),
    }
}

/// The `(nick, url)` pair of a FOLLOW value: split at its first space.
pub open spec fn follow_pair(value: Seq<char>) -> Seq<(Seq<char>, Seq<char>)> {
    let v = trim(value);
    match find_char(v, 0, ' ') {
        Some(i) => seq![(v.subrange(0, i), v.subrange(i + 1, v.len() as int))],
        None => seq![],
    }
}

/// The effect of one header line `#+KEY: value` on a profile.
pub open spec fn profile_line(p: ProfileSpec, line: Seq<char>) -> ProfileSpec {
    match find_char(line, 0, ':') {
        None => p,
        Some(i) => {
            let key = trim(line.subrange(0, i));
            let raw = line.subrange(i + 1, line.len() as int);
            let value = trim(raw);
            if key == "#+TITLE"@ {
                ProfileSpec { title: value, ..p }
            } else if key == "#+NICK"@ {
                ProfileSpec { nick: value, ..p }
            } else if key == "#+DESCRIPTION"@ {
                ProfileSpec { description: value, ..p }
            } else if key == "#+AVATAR"@ {
                ProfileSpec { avatar: Some(value), ..p }
            } else if key == "#+LINK"@ {
                ProfileSpec { link: append_opt(p.link, seq![value]), ..p }
            } else if key == "#+FOLLOW"@ {
                ProfileSpec { follow: append_opt(p.follow, follow_pair(raw)), ..p }
            } else if key == "#+CONTACT"@ {
                ProfileSpec { contact: append_opt(p.contact, seq![value]), ..p }
            } else {
                p
            }
        },
    }
}

/// The profile that a sequence of header lines describes.
pub open spec fn profile_of_lines(ls: Seq<Seq<char>>) -> ProfileSpec
    decreases ls.len(),
{
    if ls.len() == 0 {
        empty_profile()
    } else {
        profile_line(profile_of_lines(ls.drop_last()), ls.last())
    }
}

/// The TITLE, NICK and DESCRIPTION lines (each only when non-empty) and the
/// AVATAR line (when present).
pub open spec fn profile_head(p: ProfileSpec) -> Seq<Seq<char>> {
    (if p.title.len() > 0 {
        seq!["#+TITLE: "@ + p.title]
    } else {
        seq![]
    }) + (if p.nick.len() > 0 {
        seq!["#+NICK: "@ + p.nick]
    } else {
        seq![]
    }) + (if p.description.len() > 0 {
        seq!["#+DESCRIPTION: "@ + p.description]
    } else {
        seq![]
    }) + (match p.avatar {
        Some(a) => seq!["#+AVATAR: "@ + a],
        None => seq![],
    })
}

pub open spec fn prefixed_lines(prefix: Seq<char>, o: Option<Seq<Seq<char>>>) -> Seq<Seq<char>> {
    match o {
        Some(ls) => ls.map_values(|l: Seq<char>| prefix + l),
        None => seq![],
    }
}

pub open spec fn follow_line(f: (Seq<char>, Seq<char>)) -> Seq<char> {
    "#+FOLLOW: "@ + f.0 + " "@ + f.1
}

pub open spec fn follow_lines(o: Option<Seq<(Seq<char>, Seq<char>)>>) -> Seq<Seq<char>> {
    match o {
        Some(fs) => fs.map_values(|f: (Seq<char>, Seq<char>)| follow_line(f)),
        None => seq![],
    }
}

/// The header lines of a profile: the head lines, then one LINK line per
/// link, one FOLLOW line (`nick url`) per followed account, one CONTACT line
/// per contact.
pub open spec fn profile_lines(p: ProfileSpec) -> Seq<Seq<char>> {
    profile_head(p) + prefixed_lines("#+LINK: "@, p.link) + follow_lines(p.follow)
        + prefixed_lines("#+CONTACT: "@, p.contact)
}


/// `  1. x`, `  2. y`, ... for the items from index `k` on.
pub open spec fn numbered(items: Seq<Seq<char>>, k: int) -> Seq<Seq<char>>
    decreases items.len() - k,
{
    if k < 0 || k >= items.len() {
        seq![]
    } else {
        seq!["  "@ + crate::poll::decimal((k + 1) as nat) + ". "@ + items[k]] + numbered(items, k + 1)
    }
}

/// One line for a single item, else a heading and a numbered line per item.
pub open spec fn listed(single: Seq<char>, heading: Seq<char>, o: Option<Seq<Seq<char>>>) -> Seq<Seq<char>> {
    match o {
        Some(items) => if items.len() == 0 {
            seq![]
        } else if items.len() == 1 {
            seq![single + items[0]]
        } else {
            seq![heading] + numbered(items, 0)
        },
        None => seq![],
    }
}

pub open spec fn follow_item(f: (Seq<char>, Seq<char>)) -> Seq<char> {
    f.0 + " - "@ + f.1
}

/// The lines a reader sees for a profile.
pub open spec fn display_lines(p: ProfileSpec) -> Seq<Seq<char>> {
    seq!["Title: "@ + p.title, "Nick: "@ + p.nick] + (if p.description.len() > 0 {
        seq!["Description: "@ + p.description]
    } else {
        seq![]
    }) + (match p.avatar {
        Some(a) => seq!["Avatar: "@ + a],
        None => seq![],
    }) + listed("Link: "@, "Links:"@, p.link) + (match p.follow {
        Some(fs) => if fs.len() == 0 {
            seq![]
        } else {
            seq![
                "Following: "@ + crate::poll::decimal(fs.len()) + (if fs.len() == 1 {
                    " user"@
                } else {
                    " users"@
                }),
            ] + numbered(fs.map_values(|f: (Seq<char>, Seq<char>)| follow_item(f)), 0)
        },
        None => seq![],
    }) + listed("Contact: "@, "Contact:"@, p.contact) + (match p.source {
        Some(src) => seq!["Source: "@ + src],
        None => seq![],
    })
}

fn copy_string(s: &String) -> (r: String)
    ensures
        r@ == s@,
{
    s.clone()
}

fn prefixed(prefix: &str, s: &String) -> (r: String)
    ensures
        r@ == prefix@ + s@,
{
    let mut out = String::from_str(prefix);
    out.append(s.as_str());
    out
}

fn push_prefixed_all(out: &mut Vec<String>, prefix: &str, items: &Vec<String>)
    ensures
        string_views(final(out)@) == string_views(old(out)@) + string_views(items@).map_values(
            |l: Seq<char>| prefix@ + l,
        ),
{
    let mut i: usize = 0;
    while i < items.len()
        invariant
            i <= items@.len(),
            string_views(out@) == string_views(old(out)@) + string_views(
                items@.subrange(0, i as int),
            ).map_values(|l: Seq<char>| prefix@ + l),
        decreases items@.len() - i,
    {
        let ghost before = out@;
        out.push(prefixed(prefix, &items[i]));
        assert(string_views(items@.subrange(0, i + 1)).map_values(|l: Seq<char>| prefix@ + l)
            =~= string_views(items@.subrange(0, i as int)).map_values(|l: Seq<char>| prefix@ + l).push(
            prefix@ + items@[i as int]@));
        assert(string_views(out@) =~= string_views(before).push(prefix@ + items@[i as int]@));
        i += 1;
    }
    assert(items@.subrange(0, items@.len() as int) =~= items@);
}

impl Profile {
    /// A profile with every field empty or absent.
    pub fn new_empty() -> (r: Profile)
        ensures
            r@ == empty_profile(),
    {
        Profile {
            title: String::new(),
            nick: String::new(),
            description: String::new(),
            avatar: None,
            link: None,
            follow: None,
            contact: None,
            source: None,
        }
    }

    /// An independent copy of this profile.
    pub fn clone_profile(&self) -> (r: Profile)
        ensures
            r@ == self@,
    {
        let follow = match &self.follow {
            Some(fs) => {
                let mut out: Vec<(String, String)> = Vec::new();
                let mut i: usize = 0;
                while i < fs.len()
                    invariant
                        i <= fs@.len(),
                        pair_views(out@) == pair_views(fs@.subrange(0, i as int)),
                    decreases fs@.len() - i,
                {
                    let ghost before = out@;
                    let e = (fs[i].0.clone(), fs[i].1.clone());
                    out.push(e);
                    assert(pair_views(out@) =~= pair_views(before).push((e.0@, e.1@)));
                    assert(fs@.subrange(0, i + 1) =~= fs@.subrange(0, i as int).push(fs@[i as int]));
                    assert(pair_views(fs@.subrange(0, i + 1)) =~= pair_views(fs@.subrange(0, i as int)).push((fs@[i as int].0@, fs@[i as int].1@)));
                    i += 1;
                }
                assert(fs@.subrange(0, fs@.len() as int) =~= fs@);
                Some(out)
            },
            None => None,
        };
        Profile {
            title: self.title.clone(),
            nick: self.nick.clone(),
            description: self.description.clone(),
            avatar: crate::post::copy_opt(&self.avatar),
            link: crate::post::copy_opt_strings(&self.link),
            follow,
            contact: crate::post::copy_opt_strings(&self.contact),
            source: crate::post::copy_opt(&self.source),
        }
    }

    /// Parses the header lines of a document.
    pub fn from_lines(lines: &Vec<String>) -> (r: Profile)
        ensures
            r@ == profile_of_lines(string_views(lines@)),
    {
        let mut p = Profile::new_empty();
        let mut k: usize = 0;
        while k < lines.len()
            invariant
                k <= lines@.len(),
                p@ == profile_of_lines(string_views(lines@.subrange(0, k as int))),
            decreases lines@.len() - k,
        {
            let ghost prev = string_views(lines@.subrange(0, k as int));
            p.apply_line(&lines[k]);
            let ghost next = string_views(lines@.subrange(0, k + 1));
            assert(next.drop_last() =~= prev);
            k += 1;
        }
        assert(lines@.subrange(0, lines@.len() as int) =~= lines@);
        p
    }

    fn apply_line(&mut self, line: &String)
        ensures
            final(self)@ == profile_line(old(self)@, line@),
    {
        let v = chars_of(line.as_str());
        let n = v.len();
        proof {
            lemma_find_char(v@, 0, ':');
        }
        let colon = find_char_exec(&v, 0, ':');
        let i = match colon {
            None => {
                return ;
            },
            Some(i) => i,
        };
        let key_chars = trim_chars(&copy_range_chars(&v, 0, i));
        let raw = string_of(v.as_slice(), i + 1, n);
        let value = string_of_vec(&trim_chars(&chars_of(raw.as_str())));
        let key = string_of_vec(&key_chars);
        if key.eq(&String::from_str("#+TITLE")) {
            self.title = value;
        } else if key.eq(&String::from_str("#+NICK")) {
            self.nick = value;
        } else if key.eq(&String::from_str("#+DESCRIPTION")) {
            self.description = value;
        } else if key.eq(&String::from_str("#+AVATAR")) {
            self.avatar = Some(value);
        } else if key.eq(&String::from_str("#+LINK")) {
            push_opt(&mut self.link, value);
        } else if key.eq(&String::from_str("#+FOLLOW")) {
            let fv = trim_chars(&chars_of(raw.as_str()));
            let fnn = fv.len();
            proof {
                lemma_find_char(fv@, 0, ' ');
            }
            let mut list = match self.follow.take() {
                Some(l) => l,
                None => Vec::new(),
            };
            let ghost before = list@;
            match find_char_exec(&fv, 0, ' ') {
                Some(sp) => {
                    list.push((string_of(fv.as_slice(), 0, sp), string_of(fv.as_slice(), sp + 1, fnn)));
                    assert(pair_views(list@) =~= pair_views(before) + follow_pair(raw@));
                },
                None => {
                    assert(pair_views(list@) =~= pair_views(before) + follow_pair(raw@));
                },
            }
            self.follow = Some(list);
        } else if key.eq(&String::from_str("#+CONTACT")) {
            push_opt(&mut self.contact, value);
        }
    }

    pub fn follow(&self) -> (r: &Option<Vec<(String, String)>>)
        ensures
            opairs(*r) == self@.follow,
    {
        &self.follow
    }

    pub fn title(&self) -> (r: &str)
        ensures
            r@ == self@.title,
    {
        self.title.as_str()
    }

    pub fn nick(&self) -> (r: &str)
        ensures
            r@ == self@.nick,
    {
        self.nick.as_str()
    }

    pub fn description(&self) -> (r: &str)
        ensures
            r@ == self@.description,
    {
        self.description.as_str()
    }

    pub fn avatar(&self) -> (r: Option<&String>)
        ensures
            match r {
                Some(a) => self@.avatar == Some(a@),
                None => self@.avatar is None,
            },
    {
        self.avatar.as_ref()
    }

    pub fn link(&self) -> (r: Option<&Vec<String>>)
        ensures
            match r {
                Some(l) => self@.link == Some(string_views(l@)),
                None => self@.link is None,
            },
    {
        self.link.as_ref()
    }

    pub fn contact(&self) -> (r: Option<&Vec<String>>)
        ensures
            match r {
                Some(l) => self@.contact == Some(string_views(l@)),
                None => self@.contact is None,
            },
    {
        self.contact.as_ref()
    }

    pub fn source(&self) -> (r: Option<&String>)
        ensures
            match r {
                Some(s) => self@.source == Some(s@),
                None => self@.source is None,
            },
    {
        self.source.as_ref()
    }

    pub fn set_source(&mut self, source: Option<String>)
        ensures
            final(self)@ == (ProfileSpec { source: ostr(source), ..old(self)@ }),
    {
        self.source = source;
    }

    pub fn set_nick(&mut self, nick: String)
        ensures
            final(self)@ == (ProfileSpec { nick: nick@, ..old(self)@ }),
    {
        self.nick = nick;
    }

    fn head_lines(&self) -> (r: Vec<String>)
        ensures
            string_views(r@) == profile_head(self@),
    {
        let mut out: Vec<String> = Vec::new();
        if self.title.unicode_len() > 0 {
            out.push(prefixed("#+TITLE: ", &self.title));
        }
        let ghost a = string_views(out@);
        if self.nick.unicode_len() > 0 {
            out.push(prefixed("#+NICK: ", &self.nick));
        }
        let ghost b = string_views(out@);
        if self.description.unicode_len() > 0 {
            out.push(prefixed("#+DESCRIPTION: ", &self.description));
        }
        let ghost c = string_views(out@);
        if let Some(av) = &self.avatar {
            out.push(prefixed("#+AVATAR: ", av));
        }
        assert(string_views(out@) =~= profile_head(self@));
        out
    }

    /// The profile as a reader sees it, one field per line.
    pub fn display_text(&self) -> (r: String)
        ensures
            r@ == join(display_lines(self@), seq!['\n']),
    {
        let mut out: Vec<String> = Vec::new();
        out.push(prefixed("Title: ", &self.title));
        out.push(prefixed("Nick: ", &self.nick));
        if self.description.unicode_len() > 0 {
            out.push(prefixed("Description: ", &self.description));
        }
        if let Some(a) = &self.avatar {
            out.push(prefixed("Avatar: ", a));
        }
        let ghost head = string_views(out@);
        assert(head =~= seq!["Title: "@ + self@.title, "Nick: "@ + self@.nick] + (if self@.description.len() > 0 {
            seq!["Description: "@ + self@.description]
        } else {
            seq![]
        }) + (match self@.avatar {
            Some(a) => seq!["Avatar: "@ + a],
            None => seq![],
        }));
        push_listed(&mut out, "Link: ", "Links:", &self.link);
        let ghost with_links = string_views(out@);
        if let Some(fs) = &self.follow {
            if fs.len() > 0 {
                let ghost o0 = out@;
                let mut line = String::from_str("Following: ");
                line.append(crate::poll::decimal_text(fs.len()).as_str());
                if fs.len() == 1 {
                    line.append(" user");
                } else {
                    line.append(" users");
                }
                out.push(line);
                proof {
                    crate::text::lemma_string_views_push(o0, line);
                }
                let mut items: Vec<String> = Vec::new();
                let mut k: usize = 0;
                while k < fs.len()
                    invariant
                        k <= fs@.len(),
                        string_views(items@) == pair_views(fs@.subrange(0, k as int)).map_values(
                            |f: (Seq<char>, Seq<char>)| follow_item(f),
                        ),
                    decreases fs@.len() - k,
                {
                    let ghost i0 = items@;
                    let mut item = fs[k].0.clone();
                    item.append(" - ");
                    item.append(fs[k].1.as_str());
                    items.push(item);
                    proof {
                        crate::text::lemma_string_views_push(i0, item);
                        assert(fs@.subrange(0, k + 1) =~= fs@.subrange(0, k as int).push(fs@[k as int]));
                        assert(pair_views(fs@.subrange(0, k + 1)).map_values(
                            |f: (Seq<char>, Seq<char>)| follow_item(f),
                        ) =~= pair_views(fs@.subrange(0, k as int)).map_values(
                            |f: (Seq<char>, Seq<char>)| follow_item(f),
                        ).push(follow_item((fs@[k as int].0@, fs@[k as int].1@))));
                    }
                    k += 1;
                }
                assert(fs@.subrange(0, fs@.len() as int) =~= fs@);
                push_numbered(&mut out, &items);
            }
        }
        let ghost with_follows = string_views(out@);
        push_listed(&mut out, "Contact: ", "Contact:", &self.contact);
        let ghost with_contacts = string_views(out@);
        let ghost o9 = out@;
        if let Some(src) = &self.source {
            let line = prefixed("Source: ", src);
            out.push(line);
            proof {
                crate::text::lemma_string_views_push(o9, line);
            }
        }
        assert(string_views(out@) =~= with_contacts + (match self@.source {
            Some(src) => seq!["Source: "@ + src],
            None => seq![],
        }));
        proof {
            assert(with_follows =~= with_links + (match self@.follow {
                Some(fs) => if fs.len() == 0 {
                    seq![]
                } else {
                    seq![
                        "Following: "@ + crate::poll::decimal(fs.len()) + (if fs.len() == 1 {
                            " user"@
                        } else {
                            " users"@
                        }),
                    ] + numbered(fs.map_values(|f: (Seq<char>, Seq<char>)| follow_item(f)), 0)
                },
                None => seq![],
            }));
            assert(string_views(out@) =~= display_lines(self@));
        }
        join_lines(&out)
    }

    /// The header lines of this profile, joined with newlines.
    pub fn to_org_social(&self) -> (r: String)
        ensures
            r@ == join(profile_lines(self@), seq!['\n']),
    {
        let mut out = self.head_lines();
        let ghost head = string_views(out@);
        if let Some(links) = &self.link {
            push_prefixed_all(&mut out, "#+LINK: ", links);
        }
        let ghost with_links = string_views(out@);
        assert(with_links =~= head + prefixed_lines("#+LINK: "@, self@.link));
        if let Some(follows) = &self.follow {
            push_follow_lines(&mut out, follows);
        }
        let ghost with_follows = string_views(out@);
        assert(with_follows =~= with_links + follow_lines(self@.follow));
        if let Some(contacts) = &self.contact {
            push_prefixed_all(&mut out, "#+CONTACT: ", contacts);
        }
        assert(string_views(out@) =~= with_follows + prefixed_lines("#+CONTACT: "@, self@.contact));
        join_lines(&out)
    }
}


fn push_numbered(out: &mut Vec<String>, items: &Vec<String>)
    ensures
        string_views(final(out)@) == string_views(old(out)@) + numbered(string_views(items@), 0),
{
    let ghost iv = string_views(items@);
    let mut k: usize = 0;
    while k < items.len()
        invariant
            k <= items@.len(),
            iv == string_views(items@),
            string_views(out@) + numbered(iv, k as int) == string_views(old(out)@) + numbered(iv, 0),
        decreases items@.len() - k,
    {
        let ghost o0 = out@;
        let mut line = String::from_str("  ");
        line.append(crate::poll::decimal_text(k + 1).as_str());
        line.append(". ");
        line.append(items[k].as_str());
        out.push(line);
        proof {
            crate::text::lemma_string_views_push(o0, line);
            assert(string_views(out@) + numbered(iv, k + 1) =~= string_views(o0) + numbered(iv, k as int));
        }
        k += 1;
    }
}

fn push_listed(out: &mut Vec<String>, single: &str, heading: &str, o: &Option<Vec<String>>)
    ensures
        string_views(final(out)@) == string_views(old(out)@) + listed(single@, heading@, ostrs(*o)),
{
    let ghost o0 = out@;
    match o {
        Some(items) => {
            if items.len() == 1 {
                let line = prefixed(single, &items[0]);
                out.push(line);
                proof {
                    crate::text::lemma_string_views_push(o0, line);
                }
            } else if items.len() > 1 {
                let h = String::from_str(heading);
                out.push(h);
                proof {
                    crate::text::lemma_string_views_push(o0, h);
                }
                push_numbered(out, items);
            }
        },
        None => {},
    }
    assert(string_views(out@) =~= string_views(o0) + listed(single@, heading@, ostrs(*o)));
}

fn push_follow_lines(out: &mut Vec<String>, follows: &Vec<(String, String)>)
    ensures
        string_views(final(out)@) == string_views(old(out)@) + pair_views(follows@).map_values(
            |f: (Seq<char>, Seq<char>)| follow_line(f),
        ),
{
    let mut i: usize = 0;
    while i < follows.len()
        invariant
            i <= follows@.len(),
            string_views(out@) == string_views(old(out)@) + pair_views(
                follows@.subrange(0, i as int),
            ).map_values(|f: (Seq<char>, Seq<char>)| follow_line(f)),
        decreases follows@.len() - i,
    {
        let ghost before = out@;
        let mut line = prefixed("#+FOLLOW: ", &follows[i].0);
        line.append(" ");
        line.append(follows[i].1.as_str());
        out.push(line);
        let ghost f = (follows@[i as int].0@, follows@[i as int].1@);
        assert(pair_views(follows@.subrange(0, i + 1)).map_values(
            |f: (Seq<char>, Seq<char>)| follow_line(f),
        ) =~= pair_views(follows@.subrange(0, i as int)).map_values(
            |f: (Seq<char>, Seq<char>)| follow_line(f),
        ).push(follow_line(f)));
        assert(string_views(out@) =~= string_views(before).push(follow_line(f)));
        i += 1;
    }
    assert(follows@.subrange(0, follows@.len() as int) =~= follows@);
}

impl Default for Profile {
    fn default() -> (r: Profile)
        ensures
            r@ == empty_profile(),
    {
        Profile::new_empty()
    }
}

fn copy_range_chars(v: &Vec<char>, from: usize, to: usize) -> (r: Vec<char>)
    requires
        from <= to <= v@.len(),
    ensures
        r@ == v@.subrange(from as int, to as int),
{
    let mut out: Vec<char> = Vec::new();
    let mut i = from;
    while i < to
        invariant
            from <= i <= to <= v@.len(),
            out@ == v@.subrange(from as int, i as int),
        decreases to - i,
    {
        out.push(v[i]);
        assert(out@ =~= v@.subrange(from as int, i + 1));
        i += 1;
    }
    out
}

fn push_opt(o: &mut Option<Vec<String>>, x: String)
    ensures
        ostrs(*final(o)) == append_opt(ostrs(*old(o)), seq![x@]),
{
    let mut list = match o.take() {
        Some(l) => l,
        None => Vec::new(),
    };
    let ghost before = list@;
    list.push(x);
    assert(string_views(list@) =~= string_views(before) + seq![x@]);
    *o = Some(list);
}

} // verus!

verus! {

/// No white space at either end.
pub open spec fn clean(v: Seq<char>) -> bool {
    v.len() == 0 || (!crate::text::is_white(v[0]) && !crate::text::is_white(v.last()))
}

/// A key of the header: non-empty, no colon, no white space.
pub open spec fn plain_key(k: Seq<char>) -> bool {
    k.len() > 0 && forall|i: int| 0 <= i < k.len() ==> #[trigger] k[i] != ':' && !crate::text::is_white(k[i])
}

proof fn lemma_find_char_at(s: Seq<char>, from: int, to: int, c: char)
    requires
        0 <= from <= to < s.len(),
        s[to] == c,
        forall|i: int| from <= i < to ==> #[trigger] s[i] != c,
    ensures
        find_char(s, from, c) == Some(to),
    decreases to - from,
{
    if from < to {
        lemma_find_char_at(s, from + 1, to, c);
    }
}

proof fn lemma_trim_key(k: Seq<char>)
    requires
        plain_key(k),
    ensures
        trim(k) == k,
{
    assert(!crate::text::is_white(k[0]));
    assert(!crate::text::is_white(k[k.len() - 1]));
    assert(k.subrange(0, k.len() as int) =~= k);
}

proof fn lemma_trim_spaced(v: Seq<char>)
    requires
        clean(v),
    ensures
        trim(seq![' '] + v) == v,
{
    let s = seq![' '] + v;
    assert(crate::text::is_white(' '));
    if v.len() == 0 {
        assert(s.len() == 1);
        assert(crate::text::lead(s, 1) == 1);
        assert(crate::text::trail(s, 0) == 0);
    } else {
        assert(s[1] == v[0]);
        assert(crate::text::lead(s, 1) == 1);
        assert(s[s.len() - 1] == v.last());
        assert(s.subrange(1, s.len() as int) =~= v);
    }
}

/// A header line `key: value` is read as that key with that value.
proof fn lemma_key_line(k: Seq<char>, v: Seq<char>)
    requires
        plain_key(k),
        clean(v),
    ensures
        ({
            let line = k + seq![':', ' '] + v;
            &&& find_char(line, 0, ':') == Some(k.len() as int)
            &&& trim(line.subrange(0, k.len() as int)) == k
            &&& line.subrange(k.len() as int + 1, line.len() as int) == seq![' '] + v
            &&& trim(seq![' '] + v) == v
        }),
{
    let line = k + seq![':', ' '] + v;
    assert forall|i: int| 0 <= i < k.len() implies #[trigger] line[i] != ':' by {
        assert(line[i] == k[i]);
    }
    lemma_find_char_at(line, 0, k.len() as int, ':');
    assert(line.subrange(0, k.len() as int) =~= k);
    lemma_trim_key(k);
    assert(line.subrange(k.len() as int + 1, line.len() as int) =~= seq![' '] + v);
    lemma_trim_spaced(v);
}

/// The profile that header lines describe, starting from `start`.
pub open spec fn profile_after(start: ProfileSpec, ls: Seq<Seq<char>>) -> ProfileSpec
    decreases ls.len(),
{
    if ls.len() == 0 {
        start
    } else {
        profile_line(profile_after(start, ls.drop_last()), ls.last())
    }
}

proof fn lemma_after_one(start: ProfileSpec, l: Seq<char>)
    ensures
        profile_after(start, seq![l]) == profile_line(start, l),
{
    assert(seq![l].drop_last() =~= Seq::<Seq<char>>::empty());
    assert(profile_after(start, Seq::<Seq<char>>::empty()) == start);
}

proof fn lemma_profile_after_empty(ls: Seq<Seq<char>>)
    ensures
        profile_of_lines(ls) == profile_after(empty_profile(), ls),
    decreases ls.len(),
{
    if ls.len() > 0 {
        lemma_profile_after_empty(ls.drop_last());
    }
}

proof fn lemma_profile_after_append(start: ProfileSpec, a: Seq<Seq<char>>, b: Seq<Seq<char>>)
    ensures
        profile_after(start, a + b) == profile_after(profile_after(start, a), b),
    decreases b.len(),
{
    if b.len() == 0 {
        assert(a + b =~= a);
    } else {
        assert((a + b).drop_last() =~= a + b.drop_last());
        assert((a + b).last() == b.last());
        lemma_profile_after_append(start, a, b.drop_last());
    }
}

proof fn lemma_keys()
    ensures
        plain_key("#+TITLE"@),
        plain_key("#+NICK"@),
        plain_key("#+DESCRIPTION"@),
        plain_key("#+AVATAR"@),
        plain_key("#+LINK"@),
        plain_key("#+FOLLOW"@),
        plain_key("#+CONTACT"@),
        "#+TITLE: "@ == "#+TITLE"@ + seq![':', ' '],
        "#+NICK: "@ == "#+NICK"@ + seq![':', ' '],
        "#+DESCRIPTION: "@ == "#+DESCRIPTION"@ + seq![':', ' '],
        "#+AVATAR: "@ == "#+AVATAR"@ + seq![':', ' '],
        "#+LINK: "@ == "#+LINK"@ + seq![':', ' '],
        "#+FOLLOW: "@ == "#+FOLLOW"@ + seq![':', ' '],
        "#+CONTACT: "@ == "#+CONTACT"@ + seq![':', ' '],
        "#+NICK"@ != "#+TITLE"@,
        "#+DESCRIPTION"@ != "#+TITLE"@ && "#+DESCRIPTION"@ != "#+NICK"@,
        "#+AVATAR"@ != "#+TITLE"@ && "#+AVATAR"@ != "#+NICK"@ && "#+AVATAR"@ != "#+DESCRIPTION"@,
        "#+LINK"@ != "#+TITLE"@ && "#+LINK"@ != "#+NICK"@ && "#+LINK"@ != "#+DESCRIPTION"@ && "#+LINK"@
            != "#+AVATAR"@,
        "#+FOLLOW"@ != "#+TITLE"@ && "#+FOLLOW"@ != "#+NICK"@ && "#+FOLLOW"@ != "#+DESCRIPTION"@
            && "#+FOLLOW"@ != "#+AVATAR"@ && "#+FOLLOW"@ != "#+LINK"@,
        "#+CONTACT"@ != "#+TITLE"@ && "#+CONTACT"@ != "#+NICK"@ && "#+CONTACT"@ != "#+DESCRIPTION"@
            && "#+CONTACT"@ != "#+AVATAR"@ && "#+CONTACT"@ != "#+LINK"@ && "#+CONTACT"@ != "#+FOLLOW"@,
{
    reveal_strlit("#+TITLE");
    reveal_strlit("#+NICK");
    reveal_strlit("#+DESCRIPTION");
    reveal_strlit("#+AVATAR");
    reveal_strlit("#+LINK");
    reveal_strlit("#+FOLLOW");
    reveal_strlit("#+CONTACT");
    reveal_strlit("#+TITLE: ");
    reveal_strlit("#+NICK: ");
    reveal_strlit("#+DESCRIPTION: ");
    reveal_strlit("#+AVATAR: ");
    reveal_strlit("#+LINK: ");
    reveal_strlit("#+FOLLOW: ");
    reveal_strlit("#+CONTACT: ");
    assert("#+TITLE: "@ =~= "#+TITLE"@ + seq![':', ' ']);
    assert("#+NICK: "@ =~= "#+NICK"@ + seq![':', ' ']);
    assert("#+DESCRIPTION: "@ =~= "#+DESCRIPTION"@ + seq![':', ' ']);
    assert("#+AVATAR: "@ =~= "#+AVATAR"@ + seq![':', ' ']);
    assert("#+LINK: "@ =~= "#+LINK"@ + seq![':', ' ']);
    assert("#+FOLLOW: "@ =~= "#+FOLLOW"@ + seq![':', ' ']);
    assert("#+CONTACT: "@ =~= "#+CONTACT"@ + seq![':', ' ']);
    assert("#+NICK"@[2] != "#+LINK"@[2]);
    assert("#+AVATAR"@[2] != "#+FOLLOW"@[2]);
}

/// Reading one `key: value` line whose key is one of the header keys.
proof fn lemma_read_key_line(p: ProfileSpec, key: Seq<char>, v: Seq<char>)
    requires
        plain_key(key),
        clean(v),
    ensures
        profile_line(p, key + seq![':', ' '] + v) == (if key == "#+TITLE"@ {
            ProfileSpec { title: v, ..p }
        } else if key == "#+NICK"@ {
            ProfileSpec { nick: v, ..p }
        } else if key == "#+DESCRIPTION"@ {
            ProfileSpec { description: v, ..p }
        } else if key == "#+AVATAR"@ {
            ProfileSpec { avatar: Some(v), ..p }
        } else if key == "#+LINK"@ {
            ProfileSpec { link: append_opt(p.link, seq![v]), ..p }
        } else if key == "#+FOLLOW"@ {
            ProfileSpec { follow: append_opt(p.follow, follow_pair(seq![' '] + v)), ..p }
        } else if key == "#+CONTACT"@ {
            ProfileSpec { contact: append_opt(p.contact, seq![v]), ..p }
        } else {
            p
        }),
{
    lemma_key_line(key, v);
}

/// A list of LINK (or CONTACT) lines appends its values in order.
proof fn lemma_list_lines(start: ProfileSpec, items: Seq<Seq<char>>, links: bool)
    requires
        forall|i: int| 0 <= i < items.len() ==> clean(#[trigger] items[i]),
    ensures
        links ==> profile_after(start, items.map_values(|l: Seq<char>| "#+LINK: "@ + l)) == (if items.len() == 0 {
            start
        } else {
            ProfileSpec { link: append_opt(start.link, items), ..start }
        }),
        !links ==> profile_after(start, items.map_values(|l: Seq<char>| "#+CONTACT: "@ + l)) == (if items.len() == 0 {
            start
        } else {
            ProfileSpec { contact: append_opt(start.contact, items), ..start }
        }),
    decreases items.len(),
{
    lemma_keys();
    if items.len() > 0 {
        let init = items.drop_last();
        let x = items.last();
        lemma_list_lines(start, init, links);
        if links {
            let ls = items.map_values(|l: Seq<char>| "#+LINK: "@ + l);
            assert(ls.drop_last() =~= init.map_values(|l: Seq<char>| "#+LINK: "@ + l));
            assert(ls.last() == "#+LINK"@ + seq![':', ' '] + x);
            let q = profile_after(start, ls.drop_last());
            lemma_read_key_line(q, "#+LINK"@, x);
            if init.len() == 0 {
                assert(init =~= Seq::<Seq<char>>::empty());
                assert(items =~= seq![x]);
            } else {
                match start.link {
                    Some(s0) => assert(s0 + init + seq![x] =~= s0 + items),
                    None => assert(init + seq![x] =~= items),
                }
            }
        } else {
            let ls = items.map_values(|l: Seq<char>| "#+CONTACT: "@ + l);
            assert(ls.drop_last() =~= init.map_values(|l: Seq<char>| "#+CONTACT: "@ + l));
            assert(ls.last() == "#+CONTACT"@ + seq![':', ' '] + x);
            let q = profile_after(start, ls.drop_last());
            lemma_read_key_line(q, "#+CONTACT"@, x);
            if init.len() == 0 {
                assert(items =~= seq![x]);
            } else {
                match start.contact {
                    Some(s0) => assert(s0 + init + seq![x] =~= s0 + items),
                    None => assert(init + seq![x] =~= items),
                }
            }
        }
    }
}

/// A followed account that a FOLLOW line can carry: a nick without spaces
/// and an address, neither empty nor padded with white space.
pub open spec fn plain_follow(f: (Seq<char>, Seq<char>)) -> bool {
    f.0.len() > 0 && f.1.len() > 0 && clean(f.0) && clean(f.1) && !f.0.contains(' ')
}

proof fn lemma_follow_lines(start: ProfileSpec, fs: Seq<(Seq<char>, Seq<char>)>)
    requires
        forall|i: int| 0 <= i < fs.len() ==> plain_follow(#[trigger] fs[i]),
    ensures
        profile_after(start, fs.map_values(|f: (Seq<char>, Seq<char>)| follow_line(f))) == (if fs.len() == 0 {
            start
        } else {
            ProfileSpec { follow: append_opt(start.follow, fs), ..start }
        }),
    decreases fs.len(),
{
    lemma_keys();
    if fs.len() > 0 {
        let init = fs.drop_last();
        let x = fs.last();
        assert(plain_follow(x));
        lemma_follow_lines(start, init);
        let ls = fs.map_values(|f: (Seq<char>, Seq<char>)| follow_line(f));
        assert(ls.drop_last() =~= init.map_values(|f: (Seq<char>, Seq<char>)| follow_line(f)));
        let v = x.0 + seq![' '] + x.1;
        reveal_strlit(" ");
        assert(ls.last() =~= "#+FOLLOW"@ + seq![':', ' '] + v);
        assert(v[0] == x.0[0]);
        assert(v.last() == x.1.last());
        let q = profile_after(start, ls.drop_last());
        lemma_read_key_line(q, "#+FOLLOW"@, v);
        lemma_trim_spaced(v);
        assert forall|i: int| 0 <= i < x.0.len() implies #[trigger] v[i] != ' ' by {
            assert(v[i] == x.0[i]);
            if x.0[i] == ' ' {
                assert(x.0.contains(' '));
            }
        }
        lemma_find_char_at(v, 0, x.0.len() as int, ' ');
        assert(v.subrange(0, x.0.len() as int) =~= x.0);
        assert(v.subrange(x.0.len() as int + 1, v.len() as int) =~= x.1);
        assert(follow_pair(seq![' '] + v) == seq![x]);
        if init.len() == 0 {
            assert(fs =~= seq![x]);
        } else {
            match start.follow {
                Some(s0) => assert(s0 + init + seq![x] =~= s0 + fs),
                None => assert(init + seq![x] =~= fs),
            }
        }
    }
}

/// A profile whose header lines read back as it: every value free of white
/// space at its ends, lists absent or non-empty, followed accounts plain.
pub open spec fn writable_profile(p: ProfileSpec) -> bool {
    &&& clean(p.title) && clean(p.nick) && clean(p.description)
    &&& (p.avatar matches Some(a) ==> clean(a))
    &&& (p.link matches Some(ls) ==> ls.len() > 0 && forall|i: int| 0 <= i < ls.len() ==> clean(#[trigger] ls[i]))
    &&& (p.contact matches Some(cs) ==> cs.len() > 0 && forall|i: int| 0 <= i < cs.len() ==> clean(#[trigger] cs[i]))
    &&& (p.follow matches Some(fs) ==> fs.len() > 0 && forall|i: int| 0 <= i < fs.len() ==> plain_follow(#[trigger] fs[i]))
}

/// Reading back the header lines of a profile gives the profile again,
/// every field but the source (which documents do not carry).
pub proof fn lemma_profile_lines_round_trip(p: ProfileSpec)
    requires
        writable_profile(p),
    ensures
        profile_of_lines(profile_lines(p)) == (ProfileSpec { source: None, ..p }),
{
    lemma_keys();
    let e = empty_profile();
    let t = if p.title.len() > 0 { seq!["#+TITLE: "@ + p.title] } else { seq![] };
    let n = if p.nick.len() > 0 { seq!["#+NICK: "@ + p.nick] } else { seq![] };
    let d = if p.description.len() > 0 { seq!["#+DESCRIPTION: "@ + p.description] } else { seq![] };
    let a = match p.avatar { Some(x) => seq!["#+AVATAR: "@ + x], None => seq![] };
    assert(profile_head(p) == t + n + d + a);
    let stage1 = ProfileSpec { title: p.title, ..e };
    let stage2 = ProfileSpec { nick: p.nick, ..stage1 };
    let stage3 = ProfileSpec { description: p.description, ..stage2 };
    let stage4 = ProfileSpec { avatar: p.avatar, ..stage3 };
    if p.title.len() > 0 {
        lemma_read_key_line(e, "#+TITLE"@, p.title);
        lemma_after_one(e, "#+TITLE: "@ + p.title);
    } else {
        assert(p.title =~= Seq::<char>::empty());
    }
    assert(profile_after(e, t) == stage1);
    if p.nick.len() > 0 {
        lemma_read_key_line(stage1, "#+NICK"@, p.nick);
        lemma_after_one(stage1, "#+NICK: "@ + p.nick);
    } else {
        assert(p.nick =~= Seq::<char>::empty());
    }
    assert(profile_after(stage1, n) == stage2);
    if p.description.len() > 0 {
        lemma_read_key_line(stage2, "#+DESCRIPTION"@, p.description);
        lemma_after_one(stage2, "#+DESCRIPTION: "@ + p.description);
    } else {
        assert(p.description =~= Seq::<char>::empty());
    }
    assert(profile_after(stage2, d) == stage3);
    if let Some(x) = p.avatar {
        lemma_read_key_line(stage3, "#+AVATAR"@, x);
        lemma_after_one(stage3, "#+AVATAR: "@ + x);
    }
    assert(profile_after(stage3, a) == stage4);
    lemma_profile_after_append(e, t, n);
    lemma_profile_after_append(e, t + n, d);
    lemma_profile_after_append(e, t + n + d, a);
    let links = prefixed_lines("#+LINK: "@, p.link);
    let follows = follow_lines(p.follow);
    let contacts = prefixed_lines("#+CONTACT: "@, p.contact);
    let stage5 = ProfileSpec { link: p.link, ..stage4 };
    let stage6 = ProfileSpec { follow: p.follow, ..stage5 };
    let stage7 = ProfileSpec { contact: p.contact, ..stage6 };
    match p.link {
        Some(ls) => {
            lemma_list_lines(stage4, ls, true);
        },
        None => {},
    }
    assert(profile_after(stage4, links) == stage5);
    match p.follow {
        Some(fs) => {
            lemma_follow_lines(stage5, fs);
        },
        None => {},
    }
    assert(profile_after(stage5, follows) == stage6);
    match p.contact {
        Some(cs) => {
            lemma_list_lines(stage6, cs, false);
        },
        None => {},
    }
    assert(profile_after(stage6, contacts) == stage7);
    let head = t + n + d + a;
    lemma_profile_after_append(e, head, links);
    lemma_profile_after_append(e, head + links, follows);
    lemma_profile_after_append(e, head + links + follows, contacts);
    lemma_profile_after_empty(profile_lines(p));
    assert(stage7 == ProfileSpec { source: None, ..p });
}

} // verus!
