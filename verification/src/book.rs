//! Books and their annotations, as the notes mirror reads them.
use vstd::prelude::*;
use crate::text::{chars_of, push_str};

verus! {

/// A book's identity: a digest of its content such as `sha256:…`.
pub struct BookId(String);

impl View for BookId {
    type V = Seq<char>;

    closed spec fn view(&self) -> Seq<char> {
        self.0@
    }
}

impl BookId {
    pub fn new(id: String) -> (out: BookId)
        ensures
            out@ == id@,
    {
        BookId(id)
    }

    pub fn as_str(&self) -> (out: &str)
        ensures
            out@ == self@,
    {
        self.0.as_str()
    }
}

impl From<String> for BookId {
    fn from(id: String) -> (out: BookId) {
        BookId(id)
    }
}

impl vstd::std_specs::convert::FromSpecImpl<String> for BookId {
    open spec fn obeys_from_spec() -> bool {
        true
    }

    closed spec fn from_spec(id: String) -> BookId {
        BookId(id)
    }
}

/// What the library knows of one book.
pub struct BookRecord {
    /// Where the book file lies.
    pub path: String,
    /// The title, where the book or the user gave one.
    pub title: Option<String>,
    pub authors: Vec<String>,
}

/// The characters after the last `/` of a path.
pub open spec fn after_last_slash(p: Seq<char>) -> Seq<char>
    decreases p.len(),
{
    if p.len() == 0 {
        p
    } else if p.last() == '/' {
        Seq::empty()
    } else {
        after_last_slash(p.drop_last()).push(p.last())
    }
}

/// The characters before the last `.` of a name, if it has one.
pub open spec fn before_last_dot(n: Seq<char>) -> Option<Seq<char>>
    decreases n.len(),
{
    if n.len() == 0 {
        None
    } else if n.last() == '.' {
        Some(n.drop_last())
    } else {
        before_last_dot(n.drop_last())
    }
}

/// A file name without its extension: the part before the last `.`, unless
/// that part is empty.
pub open spec fn file_stem(p: Seq<char>) -> Seq<char> {
    let name = after_last_slash(p);
    match before_last_dot(name) {
        Some(stem) => if stem.len() > 0 {
            stem
        } else {
            name
        },
        None => name,
    }
}

/// The title a book is shown under: its own, or its file name.
pub open spec fn display_title_of(record: BookRecord) -> Seq<char> {
    match record.title {
        Some(title) => title@,
        None => file_stem(record.path@),
    }
}

/// Texts joined with `sep` between each two.
pub open spec fn joined_with(parts: Seq<Seq<char>>, sep: Seq<char>) -> Seq<char>
    decreases parts.len(),
{
    if parts.len() == 0 {
        Seq::empty()
    } else if parts.len() == 1 {
        parts[0]
    } else {
        joined_with(parts.drop_last(), sep) + sep + parts.last()
    }
}

/// The authors of a book, separated by commas.
pub open spec fn display_authors_of(record: BookRecord) -> Seq<char> {
    joined_with(record.authors@.map_values(|a: String| a@), ", "@)
}

impl BookRecord {
    /// A record of the book at `path`, with nothing else known yet.
    pub fn new(path: String) -> (out: BookRecord)
        ensures
            out.path@ == path@,
            out.title is None,
            out.authors@.len() == 0,
    {
        BookRecord { path, title: None, authors: Vec::new() }
    }

    pub fn display_title(&self) -> (out: String)
        ensures
            out@ == display_title_of(*self),
    {
        match &self.title {
            Some(title) => title.clone(),
            None => {
                let chars = chars_of(self.path.as_str());
                let n = chars.len();
                let mut slash: usize = n;
                assert(chars@.take(n as int) == chars@);
                assert(chars@.subrange(n as int, n as int) == Seq::<char>::empty());
                while slash > 0 && chars[slash - 1] != '/'
                    invariant
                        slash <= n,
                        n == chars@.len(),
                        after_last_slash(chars@) == after_last_slash(
                            chars@.take(slash as int),
                        ) + chars@.subrange(slash as int, n as int),
                    decreases slash,
                {
                    assert(chars@.take(slash as int).drop_last() == chars@.take(slash - 1));
                    assert(chars@.subrange(slash - 1, n as int) == seq![chars@[slash - 1]]
                        + chars@.subrange(slash as int, n as int));
                    slash -= 1;
                }
                assert(chars@.take(n as int) == chars@);
                let ghost name = chars@.subrange(slash as int, n as int);
                assert(after_last_slash(chars@) == name) by {
                    if slash > 0 {
                        assert(after_last_slash(chars@.take(slash as int)) == Seq::<char>::empty());
                    }
                }
                let mut dot: usize = n;
                while dot > slash && chars[dot - 1] != '.'
                    invariant
                        slash <= dot <= n,
                        n == chars@.len(),
                        name == chars@.subrange(slash as int, n as int),
                        before_last_dot(name) == before_last_dot(
                            chars@.subrange(slash as int, dot as int),
                        ),
                    decreases dot,
                {
                    assert(chars@.subrange(slash as int, dot as int).drop_last() == chars@.subrange(
                        slash as int,
                        dot - 1,
                    ));
                    dot -= 1;
                }
                let mut out = String::new();
                let end = if dot > slash && dot - 1 > slash {
                    dot - 1
                } else {
                    n
                };
                proof {
                    if dot > slash {
                        assert(chars@.subrange(slash as int, dot as int).drop_last()
                            == chars@.subrange(slash as int, dot - 1));
                    }
                }
                let mut i = slash;
                while i < end
                    invariant
                        slash <= i <= end <= n,
                        n == chars@.len(),
                        out@ == chars@.subrange(slash as int, i as int),
                    decreases end - i,
                {
                    out.push(chars[i]);
                    i += 1;
                    assert(chars@.subrange(slash as int, i as int) == chars@.subrange(
                        slash as int,
                        i - 1,
                    ).push(chars@[i - 1]));
                }
                out
            },
        }
    }

    pub fn display_authors(&self) -> (out: String)
        ensures
            out@ == display_authors_of(*self),
    {
        let ghost parts = self.authors@.map_values(|a: String| a@);
        let mut out = String::new();
        let mut i: usize = 0;
        while i < self.authors.len()
            invariant
                i <= self.authors@.len(),
                parts == self.authors@.map_values(|a: String| a@),
                out@ == joined_with(parts.take(i as int), ", "@),
            decreases self.authors@.len() - i,
        {
            if i > 0 {
                push_str(&mut out, ", ");
            }
            push_str(&mut out, self.authors[i].as_str());
            i += 1;
            assert(parts.take(i as int).drop_last() == parts.take(i - 1));
        }
        assert(parts.take(i as int) == parts);
        out
    }
}

/// The colour of a highlight.
#[derive(Debug, Clone, Copy, PartialEq, Eq)]
pub enum Color {
    Yellow,
    Green,
    Blue,
    Red,
    Purple,
}

/// The name a colour goes by in the notes.
pub open spec fn color_label(color: Color) -> Seq<char> {
    match color {
        Color::Yellow => "yellow"@,
        Color::Green => "green"@,
        Color::Blue => "blue"@,
        Color::Red => "red"@,
        Color::Purple => "purple"@,
    }
}

impl Color {
    pub fn label(&self) -> (out: &'static str)
        ensures
            out@ == color_label(*self),
    {
        match self {
            Color::Yellow => "yellow",
            Color::Green => "green",
            Color::Blue => "blue",
            Color::Red => "red",
            Color::Purple => "purple",
        }
    }
}

/// A stretch of highlighted text within one block of a chapter.
#[derive(Debug, Clone, Copy, PartialEq, Eq)]
pub struct Slice {
    pub block: usize,
    pub start: usize,
    pub end: usize,
}

/// A highlight, with an optional note, in one chapter of a book.
pub struct Annotation {
    pub id: String,
    /// The chapter, as its path inside the book.
    pub href: String,
    /// The stretches of text it covers, in reading order.
    pub slices: Vec<Slice>,
    pub color: Color,
    /// The highlighted text.
    pub quote: String,
    pub note: Option<String>,
}

/// Each highlight colour is labelled with its own name, letter by letter, so
/// the five labels differ.
pub proof fn lemma_color_labels_name_their_colours()
    ensures
        color_label(Color::Yellow) == seq!['y', 'e', 'l', 'l', 'o', 'w'],
        color_label(Color::Green) == seq!['g', 'r', 'e', 'e', 'n'],
        color_label(Color::Blue) == seq!['b', 'l', 'u', 'e'],
        color_label(Color::Red) == seq!['r', 'e', 'd'],
        color_label(Color::Purple) == seq!['p', 'u', 'r', 'p', 'l', 'e'],
        forall|c1: Color, c2: Color| #[trigger] color_label(c1) == #[trigger] color_label(c2) ==> c1 == c2,
{
    reveal_strlit("yellow");
    reveal_strlit("green");
    reveal_strlit("blue");
    reveal_strlit("red");
    reveal_strlit("purple");
    assert(color_label(Color::Yellow) =~= seq!['y', 'e', 'l', 'l', 'o', 'w']);
    assert(color_label(Color::Green) =~= seq!['g', 'r', 'e', 'e', 'n']);
    assert(color_label(Color::Blue) =~= seq!['b', 'l', 'u', 'e']);
    assert(color_label(Color::Red) =~= seq!['r', 'e', 'd']);
    assert(color_label(Color::Purple) =~= seq!['p', 'u', 'r', 'p', 'l', 'e']);
    assert forall|c1: Color, c2: Color| #[trigger] color_label(c1) == #[trigger] color_label(c2) implies c1
        == c2 by {
        if c1 != c2 {
            assert(color_label(c1)[0] != color_label(c2)[0] || color_label(c1).len() != color_label(
                c2,
            ).len());
        }
    }
}

} // verus!
