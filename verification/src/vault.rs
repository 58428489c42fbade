//! Live Markdown mirror of annotations for an Obsidian vault.
//!
//! The journal stays the source of truth. When a notes directory is set,
//! every annotation change also rewrites one Markdown file per book so the
//! vault stays current without a separate export step. This module decides
//! the paths and the contents; writing them is left to the caller.
use vstd::prelude::*;
use crate::book::{
    after_last_slash, color_label, display_authors_of, display_title_of, Annotation, BookId,
    BookRecord,
};
use crate::export::{lemma_slug_charset, slugify, spec_slugify};
use crate::order::{
    count_indices, is_stable_order, lemma_count_indices_agree, lemma_count_over_stable_order,
    stable_order,
};
use crate::text::{
    chars_of, decimal, is_whitespace, lemma_trimmed_is_middle, lowercase, lowercased,
    newlines_to_spaces, push_decimal, push_one_line, push_str, trim, trimmed,
};

verus! {

/// The short form of a book id: up to eight characters after its
/// seven-character `sha256:` prefix.
pub open spec fn short_id(id: Seq<char>) -> Seq<char> {
    if id.len() <= 7 {
        Seq::empty()
    } else if id.len() <= 15 {
        id.subrange(7, id.len() as int)
    } else {
        id.subrange(7, 15)
    }
}

/// The name a book's notes go under: the slug of its title and the short id.
pub open spec fn slug_text(record: BookRecord, id: Seq<char>) -> Seq<char> {
    spec_slugify(display_title_of(record)) + seq!['-'] + short_id(id)
}

/// `name` inside the directory `dir`, as `Path::join` puts it for a relative
/// name.
pub open spec fn join_path(dir: Seq<char>, name: Seq<char>) -> Seq<char> {
    if dir.len() == 0 {
        name
    } else if dir.last() == '/' {
        dir + name
    } else {
        dir + seq!['/'] + name
    }
}

/// The path of the notes file for one book.
pub open spec fn note_path(dir: Seq<char>, record: BookRecord, id: Seq<char>) -> Seq<char> {
    join_path(dir, slug_text(record, id) + ".md"@)
}

/// The file a note is first written to before it replaces `path`: in the
/// same directory, a hidden name ending in `.tmp`.
pub open spec fn temp_path_of(path: Seq<char>) -> Seq<char> {
    let name = after_last_slash(path);
    path.subrange(0, path.len() - name.len()) + seq!['.'] + name + ".tmp"@
}

/// How `yaml_quote` writes one character.
pub open spec fn yaml_escape_char(c: char) -> Seq<char> {
    if c == '\\' {
        seq!['\\', '\\']
    } else if c == '"' {
        seq!['\\', '"']
    } else if c == '\n' {
        seq![' ']
    } else {
        seq![c]
    }
}

/// A text with backslashes and quotes escaped and line breaks turned to spaces.
pub open spec fn yaml_escaped(v: Seq<char>) -> Seq<char>
    decreases v.len(),
{
    if v.len() == 0 {
        Seq::empty()
    } else {
        yaml_escaped(v.drop_last()) + yaml_escape_char(v.last())
    }
}

/// A text as a double-quoted YAML scalar on one line.
pub open spec fn yaml_quoted(v: Seq<char>) -> Seq<char> {
    seq!['"'] + yaml_escaped(v) + seq!['"']
}

/// The lines `key: "value"` of a front matter.
pub open spec fn front_matter_lines(fields: Seq<(Seq<char>, Seq<char>)>) -> Seq<char>
    decreases fields.len(),
{
    if fields.len() == 0 {
        Seq::empty()
    } else {
        front_matter_lines(fields.drop_last()) + fields.last().0 + ": "@ + yaml_quoted(
            fields.last().1,
        ) + seq!['\n']
    }
}

/// A YAML front matter block with the given fields.
pub open spec fn front_matter_text(fields: Seq<(Seq<char>, Seq<char>)>) -> Seq<char> {
    "---\n"@ + front_matter_lines(fields) + "---\n"@
}

/// The texts of key-value pairs.
pub open spec fn field_views(fields: Seq<(&str, &str)>) -> Seq<(Seq<char>, Seq<char>)> {
    fields.map_values(|f: (&str, &str)| (f.0@, f.1@))
}

/// Where a highlight lies, in an HTML comment; a blank line if it covers nothing.
pub open spec fn location_text(a: Annotation) -> Seq<char> {
    if a.slices@.len() > 0 {
        let first = a.slices@[0];
        let last = a.slices@.last();
        "<!-- at chapter="@ + a.href@ + " block="@ + decimal(first.block as nat) + " offset="@
            + decimal(first.start as nat) + " end="@ + decimal(last.end as nat) + " -->\n\n"@
    } else {
        seq!['\n']
    }
}

/// The note under a highlight, trimmed, followed by a blank line.
pub open spec fn note_text(a: Annotation) -> Seq<char> {
    match a.note {
        Some(note) => trimmed(note@) + "\n\n"@,
        None => Seq::empty(),
    }
}

/// The heading of a highlight's section: colour, chapter and id.
pub open spec fn heading_text(a: Annotation) -> Seq<char> {
    "## "@ + color_label(a.color) + " · "@ + a.href@ + seq!['\n'] + "<!-- id: "@ + a.id@
        + " -->\n"@
}

/// The highlighted text as a one-line Markdown quote.
pub open spec fn quote_text(a: Annotation) -> Seq<char> {
    "> "@ + newlines_to_spaces(a.quote@) + "\n\n"@
}

/// The section of the notes file for one highlight.
pub open spec fn annotation_text(a: Annotation) -> Seq<char> {
    heading_text(a) + location_text(a) + quote_text(a) + note_text(a)
}

/// The sections for all highlights, in order.
pub open spec fn annotations_text(annotations: Seq<Annotation>) -> Seq<char>
    decreases annotations.len(),
{
    if annotations.len() == 0 {
        Seq::empty()
    } else {
        annotations_text(annotations.drop_last()) + annotation_text(annotations.last())
    }
}

/// The fields of the front matter of a book's notes.
pub open spec fn note_fields(id: Seq<char>, record: BookRecord) -> Seq<(Seq<char>, Seq<char>)> {
    seq![
        ("book"@, id),
        ("title"@, display_title_of(record)),
        ("author"@, display_authors_of(record)),
        ("kind"@, "annotations"@),
        ("omalibre"@, "1"@),
    ]
}

/// The whole notes file of a book.
pub open spec fn markdown_text(id: Seq<char>, record: BookRecord, annotations: Seq<Annotation>) -> Seq<
    char,
> {
    front_matter_text(note_fields(id, record)) + "\n# Notes on "@ + display_title_of(record)
        + "\n\n"@ + annotations_text(annotations)
}

/// Quotes a value for the front matter.
pub fn yaml_quote(value: &str) -> (out: String)
    ensures
        out@ == yaml_quoted(value@),
{
    let chars = chars_of(value);
    let mut out = String::new();
    out.push('"');
    let mut i: usize = 0;
    while i < chars.len()
        invariant
            i <= chars@.len(),
            chars@ == value@,
            out@ == seq!['"'] + yaml_escaped(chars@.take(i as int)),
        decreases chars@.len() - i,
    {
        let c = chars[i];
        if c == '\\' {
            out.push('\\');
            out.push('\\');
        } else if c == '"' {
            out.push('\\');
            out.push('"');
        } else if c == '\n' {
            out.push(' ');
        } else {
            out.push(c);
        }
        i += 1;
        assert(chars@.take(i as int).drop_last() == chars@.take(i - 1));
        assert(out@ =~= seq!['"'] + yaml_escaped(chars@.take(i as int)));
    }
    assert(chars@.take(i as int) == chars@);
    out.push('"');
    out
}

/// A YAML front matter block with the given fields, in order.
pub fn front_matter(fields: &[(&str, &str)]) -> (out: String)
    ensures
        out@ == front_matter_text(field_views(fields@)),
{
    let ghost views = field_views(fields@);
    let mut out = String::new();
    push_str(&mut out, "---\n");
    let mut i: usize = 0;
    while i < fields.len()
        invariant
            i <= fields@.len(),
            views == field_views(fields@),
            out@ == "---\n"@ + front_matter_lines(views.take(i as int)),
        decreases fields@.len() - i,
    {
        let (key, value) = fields[i];
        push_str(&mut out, key);
        push_str(&mut out, ": ");
        let quoted = yaml_quote(value);
        push_str(&mut out, quoted.as_str());
        out.push('\n');
        i += 1;
        assert(views.take(i as int).drop_last() == views.take(i - 1));
        assert(out@ =~= "---\n"@ + front_matter_lines(views.take(i as int)));
    }
    assert(views.take(i as int) == views);
    push_str(&mut out, "---\n");
    out
}

fn push_heading(out: &mut String, a: &Annotation)
    ensures
        final(out)@ == old(out)@ + heading_text(*a),
{
    let ghost start = out@;
    push_str(out, "## ");
    push_str(out, a.color.label());
    push_str(out, " · ");
    push_str(out, a.href.as_str());
    out.push('\n');
    push_str(out, "<!-- id: ");
    push_str(out, a.id.as_str());
    push_str(out, " -->\n");
    assert(out@ =~= start + heading_text(*a));
}

fn push_location(out: &mut String, a: &Annotation)
    ensures
        final(out)@ == old(out)@ + location_text(*a),
{
    let ghost start = out@;
    let n = a.slices.len();
    if n > 0 {
        let first = a.slices[0];
        let last = a.slices[n - 1];
        push_str(out, "<!-- at chapter=");
        push_str(out, a.href.as_str());
        push_str(out, " block=");
        push_decimal(out, first.block as u64);
        push_str(out, " offset=");
        push_decimal(out, first.start as u64);
        push_str(out, " end=");
        push_decimal(out, last.end as u64);
        push_str(out, " -->\n\n");
    } else {
        out.push('\n');
    }
    assert(out@ =~= start + location_text(*a));
}

fn push_quote(out: &mut String, a: &Annotation)
    ensures
        final(out)@ == old(out)@ + quote_text(*a),
{
    let ghost start = out@;
    push_str(out, "> ");
    push_one_line(out, a.quote.as_str());
    push_str(out, "\n\n");
    assert(out@ =~= start + quote_text(*a));
}

fn push_note(out: &mut String, a: &Annotation)
    ensures
        final(out)@ == old(out)@ + note_text(*a),
{
    let ghost start = out@;
    match &a.note {
        Some(note) => {
            let text = trim(note.as_str());
            push_str(out, text.as_str());
            push_str(out, "\n\n");
        },
        None => {},
    }
    assert(out@ =~= start + note_text(*a));
}

fn push_annotation(out: &mut String, a: &Annotation)
    ensures
        final(out)@ == old(out)@ + annotation_text(*a),
{
    let ghost start = out@;
    push_heading(out, a);
    push_location(out, a);
    push_quote(out, a);
    push_note(out, a);
    assert(out@ =~= start + annotation_text(*a));
}

/// The Markdown notes file of a book: front matter, a heading, and one
/// section per annotation.
pub fn annotations_markdown(id: &BookId, record: &BookRecord, annotations: &[Annotation]) -> (out:
    String)
    ensures
        out@ == markdown_text(id@, *record, annotations@),
{
    let title = record.display_title();
    let authors = record.display_authors();
    let mut fields: Vec<(&str, &str)> = Vec::new();
    fields.push(("book", id.as_str()));
    fields.push(("title", title.as_str()));
    fields.push(("author", authors.as_str()));
    fields.push(("kind", "annotations"));
    fields.push(("omalibre", "1"));
    assert(field_views(fields@) =~= note_fields(id@, *record));
    let mut out = front_matter(fields.as_slice());
    push_str(&mut out, "\n# Notes on ");
    push_str(&mut out, title.as_str());
    push_str(&mut out, "\n\n");
    let ghost head = out@;
    let mut i: usize = 0;
    while i < annotations.len()
        invariant
            i <= annotations@.len(),
            out@ == head + annotations_text(annotations@.take(i as int)),
        decreases annotations@.len() - i,
    {
        push_annotation(&mut out, &annotations[i]);
        i += 1;
        assert(annotations@.take(i as int).drop_last() == annotations@.take(i - 1));
        assert(out@ =~= head + annotations_text(annotations@.take(i as int)));
    }
    assert(annotations@.take(i as int) == annotations@);
    out
}

/// The name a book's notes go under: the slug of its title, a dash, and up
/// to eight characters of its id after the `sha256:` prefix.
pub fn slug_of(record: &BookRecord, id: &BookId) -> (out: String)
    ensures
        out@ == slug_text(*record, id@),
{
    let title = record.display_title();
    let mut out = slugify(title.as_str());
    out.push('-');
    let chars = chars_of(id.as_str());
    let n = chars.len();
    let mut i: usize = 7;
    let ghost base = out@;
    while i < n && i < 15
        invariant
            7 <= i <= 15,
            n == chars@.len(),
            i <= n || i == 7,
            out@ == base + (if i <= n { chars@.subrange(7, i as int) } else { Seq::empty() }),
        decreases 15 - i,
    {
        out.push(chars[i]);
        i += 1;
        assert(chars@.subrange(7, i as int) == chars@.subrange(7, i - 1).push(chars@[i - 1]));
    }
    assert(out@ =~= slug_text(*record, id@));
    out
}

/// `name` inside the directory `dir`.
fn join(dir: &str, name: &str) -> (out: String)
    ensures
        out@ == join_path(dir@, name@),
{
    let chars = chars_of(dir);
    let mut out = String::new();
    push_str(&mut out, dir);
    let n = chars.len();
    if n > 0 && chars[n - 1] != '/' {
        out.push('/');
    }
    push_str(&mut out, name);
    out
}

/// Path of the notes file for one book.
pub fn path_for(notes_dir: &str, record: &BookRecord, id: &BookId) -> (out: String)
    ensures
        out@ == note_path(notes_dir@, *record, id@),
{
    let mut name = slug_of(record, id);
    push_str(&mut name, ".md");
    join(notes_dir, name.as_str())
}

/// The temporary file a note is written to before it replaces `path`.
pub fn temp_path_for(path: &str) -> (out: String)
    ensures
        out@ == temp_path_of(path@),
{
    let chars = chars_of(path);
    let n = chars.len();
    let mut slash: usize = n;
    assert(chars@.take(n as int) == chars@);
    assert(chars@.subrange(n as int, n as int) == Seq::<char>::empty());
    while slash > 0 && chars[slash - 1] != '/'
        invariant
            slash <= n,
            n == chars@.len(),
            after_last_slash(chars@) == after_last_slash(chars@.take(slash as int))
                + chars@.subrange(slash as int, n as int),
        decreases slash,
    {
        assert(chars@.take(slash as int).drop_last() == chars@.take(slash - 1));
        assert(chars@.subrange(slash - 1, n as int) == seq![chars@[slash - 1]] + chars@.subrange(
            slash as int,
            n as int,
        ));
        slash -= 1;
    }
    assert(after_last_slash(chars@) == chars@.subrange(slash as int, n as int)) by {
        if slash > 0 {
            assert(after_last_slash(chars@.take(slash as int)) == Seq::<char>::empty());
        }
    }
    let mut out = String::new();
    let mut i: usize = 0;
    while i < n
        invariant
            i <= n,
            n == chars@.len(),
            slash <= n,
            out@ == (if i <= slash {
                chars@.take(i as int)
            } else {
                chars@.take(slash as int) + seq!['.'] + chars@.subrange(slash as int, i as int)
            }),
        decreases n - i,
    {
        if i == slash {
            out.push('.');
        }
        out.push(chars[i]);
        i += 1;
        assert(chars@.take(i as int) == chars@.take(i - 1).push(chars@[i - 1]));
        assert(chars@.subrange(slash as int, i as int) =~= if i - 1 >= slash {
            chars@.subrange(slash as int, i - 1).push(chars@[i - 1])
        } else {
            chars@.subrange(slash as int, i as int)
        });
        assert(out@ =~= (if i <= slash {
            chars@.take(i as int)
        } else {
            chars@.take(slash as int) + seq!['.'] + chars@.subrange(slash as int, i as int)
        }));
    }
    if slash == n {
        out.push('.');
    }
    push_str(&mut out, ".tmp");
    assert(out@ =~= temp_path_of(path@));
    out
}

/// What to do with a book's notes file.
pub enum NoteAction {
    /// Remove the file, if there is one.
    Remove { path: String },
    /// Write `body` to `temp_path`, then move it over `path`.
    Write { path: String, temp_path: String, body: String },
}

/// Whether `action` is what the notes of a book with `annotations` call for:
/// no annotations remove the file, so the vault keeps no stale notes;
/// otherwise the file is rewritten in full.
pub open spec fn is_plan_for(
    action: NoteAction,
    dir: Seq<char>,
    id: Seq<char>,
    record: BookRecord,
    annotations: Seq<Annotation>,
) -> bool {
    let path = note_path(dir, record, id);
    if annotations.len() == 0 {
        action matches NoteAction::Remove { path: p } && p@ == path
    } else {
        &&& action matches NoteAction::Write { path: p, temp_path: t, body: b }
        &&& action->Write_path@ == path
        &&& action->temp_path@ == temp_path_of(path)
        &&& action->body@ == markdown_text(id, record, annotations)
    }
}

/// What rewriting a book's notes file from its current annotations takes.
pub fn plan_book(notes_dir: &str, id: &BookId, record: &BookRecord, annotations: &[Annotation]) -> (out:
    NoteAction)
    ensures
        is_plan_for(out, notes_dir@, id@, *record, annotations@),
{
    let path = path_for(notes_dir, record, id);
    if annotations.len() == 0 {
        return NoteAction::Remove { path };
    }
    let body = annotations_markdown(id, record, annotations);
    let temp_path = temp_path_for(path.as_str());
    NoteAction::Write { path, temp_path, body }
}

/// A book of the library with its annotations.
pub struct BookNotes {
    pub id: BookId,
    pub record: BookRecord,
    pub annotations: Vec<Annotation>,
}

/// The key books are sorted by: the title, in lower case.
pub open spec fn sort_key(book: BookNotes) -> Seq<char> {
    lowercased(display_title_of(book.record))
}

/// How many of `books` have annotations.
pub open spec fn annotated_count(books: Seq<BookNotes>) -> nat
    decreases books.len(),
{
    if books.len() == 0 {
        0
    } else {
        annotated_count(books.drop_last()) + if books.last().annotations@.len() > 0 {
            1nat
        } else {
            0nat
        }
    }
}

/// What writing the notes of a whole library takes.
pub struct SyncPlan {
    /// The books in the order they are handled, as indices.
    pub order: Vec<usize>,
    /// One action per book, in that order.
    pub actions: Vec<NoteAction>,
    /// The number of notes files written.
    pub written: usize,
}

/// What writing every book that has annotations into `notes_dir` takes:
/// books sorted by title, ignoring case, each file written, or removed where
/// a book has no annotations left.
pub fn plan_sync(notes_dir: &str, books: &[BookNotes]) -> (out: SyncPlan)
    ensures
        is_stable_order(books@.map_values(|b: BookNotes| sort_key(b)), out.order@),
        out.actions@.len() == books@.len(),
        forall|k: int|
            0 <= k < books@.len() ==> {
                let b = books@[#[trigger] out.order@[k] as int];
                is_plan_for(out.actions@[k], notes_dir@, b.id@, b.record, b.annotations@)
            },
        out.written == annotated_count(books@),
{
    let n = books.len();
    let ghost keys_spec = books@.map_values(|b: BookNotes| sort_key(b));
    let mut keys: Vec<Vec<char>> = Vec::new();
    let mut i: usize = 0;
    while i < n
        invariant
            i <= n,
            n == books@.len(),
            keys_spec == books@.map_values(|b: BookNotes| sort_key(b)),
            keys@.len() == i,
            forall|j: int| 0 <= j < i ==> (#[trigger] keys@[j])@ == keys_spec[j],
        decreases n - i,
    {
        let title = books[i].record.display_title();
        let key = lowercase(title.as_str());
        keys.push(chars_of(key.as_str()));
        i += 1;
    }
    assert(keys@.map_values(|k: Vec<char>| k@) =~= keys_spec);
    let order = stable_order(&keys);
    let mut actions: Vec<NoteAction> = Vec::new();
    let mut k: usize = 0;
    while k < n
        invariant
            k <= n,
            n == books@.len(),
            keys_spec == books@.map_values(|b: BookNotes| sort_key(b)),
            is_stable_order(keys_spec, order@),
            actions@.len() == k,
            forall|m: int|
                0 <= m < k ==> {
                    let b = books@[#[trigger] order@[m] as int];
                    is_plan_for(actions@[m], notes_dir@, b.id@, b.record, b.annotations@)
                },
        decreases n - k,
    {
        let book = &books[order[k]];
        let action = plan_book(notes_dir, &book.id, &book.record, book.annotations.as_slice());
        actions.push(action);
        k += 1;
    }
    let mut written: usize = 0;
    let mut j: usize = 0;
    while j < n
        invariant
            j <= n,
            n == books@.len(),
            written == annotated_count(books@.take(j as int)),
            written <= j,
        decreases n - j,
    {
        if books[j].annotations.len() > 0 {
            written += 1;
        }
        j += 1;
        assert(books@.take(j as int).drop_last() == books@.take(j - 1));
    }
    assert(books@.take(n as int) == books@);
    SyncPlan { order, actions, written }
}

/// A quoted front matter value stays on one line: it holds no line break,
/// and every quote inside it is escaped.
pub proof fn lemma_yaml_quoted_one_line(v: Seq<char>)
    ensures
        forall|i: int| 0 <= i < yaml_quoted(v).len() ==> #[trigger] yaml_quoted(v)[i] != '\n',
        forall|i: int|
            1 <= i < yaml_quoted(v).len() - 1 && #[trigger] yaml_quoted(v)[i] == '"' ==> yaml_quoted(
                v,
            )[i - 1] == '\\',
{
    lemma_yaml_escaped_one_line(v);
    let q = yaml_quoted(v);
    let e = yaml_escaped(v);
    assert forall|i: int| 1 <= i < q.len() - 1 && #[trigger] q[i] == '"' implies q[i - 1] == '\\' by {
        assert(q[i] == e[i - 1]);
        if i >= 2 {
            assert(q[i - 1] == e[i - 2]);
        }
    }
}

proof fn lemma_yaml_escaped_one_line(v: Seq<char>)
    ensures
        forall|i: int| 0 <= i < yaml_escaped(v).len() ==> #[trigger] yaml_escaped(v)[i] != '\n',
        forall|i: int|
            0 <= i < yaml_escaped(v).len() && #[trigger] yaml_escaped(v)[i] == '"' ==> i >= 1
                && yaml_escaped(v)[i - 1] == '\\',
    decreases v.len(),
{
    if v.len() > 0 {
        lemma_yaml_escaped_one_line(v.drop_last());
        let front = yaml_escaped(v.drop_last());
        let tail = yaml_escape_char(v.last());
        assert(yaml_escaped(v) == front + tail);
        assert forall|i: int| 0 <= i < yaml_escaped(v).len() && #[trigger] yaml_escaped(v)[i]
            == '"' implies i >= 1 && yaml_escaped(v)[i - 1] == '\\' by {
            if i >= front.len() {
                assert(tail[i - front.len()] == '"');
                assert(v.last() == '"');
                assert(i - front.len() == 1);
            }
        }
    }
}

/// The characters of a text, one of which is `c`.
pub open spec fn has_char(s: Seq<char>, c: char) -> bool {
    exists|i: int| 0 <= i < s.len() && s[i] == c
}

/// When a book's id holds no `/`, its notes file lies directly inside the
/// notes directory: its path is the directory joined with a single name.
pub proof fn lemma_note_lies_in_notes_dir(dir: Seq<char>, record: BookRecord, id: Seq<char>)
    requires
        !has_char(id, '/'),
    ensures
        note_path(dir, record, id) == join_path(dir, slug_text(record, id) + ".md"@),
        !has_char(slug_text(record, id) + ".md"@, '/'),
{
    lemma_slug_charset(display_title_of(record));
    reveal_strlit(".md");
    let slug = spec_slugify(display_title_of(record));
    let short = short_id(id);
    let name = slug_text(record, id) + ".md"@;
    assert(name == slug + seq!['-'] + short + ".md"@);
    if has_char(name, '/') {
        let i = choose|i: int| 0 <= i < name.len() && name[i] == '/';
        if i < slug.len() {
            assert(name[i] == slug[i]);
        } else if i == slug.len() {
        } else if i < slug.len() + 1 + short.len() {
            assert(name[i] == short[i - slug.len() - 1]);
            assert(short[i - slug.len() - 1] == id[i - slug.len() - 1 + 7]);
        } else {
            assert(name[i] == ".md"@[i - slug.len() - 1 - short.len()]);
        }
    }
}

/// How many of the actions write a file.
pub open spec fn writes_in(actions: Seq<NoteAction>) -> nat
    decreases actions.len(),
{
    if actions.len() == 0 {
        0
    } else {
        writes_in(actions.drop_last()) + if actions.last() is Write {
            1nat
        } else {
            0nat
        }
    }
}

proof fn lemma_writes_in_counts(actions: Seq<NoteAction>)
    ensures
        writes_in(actions) == count_indices(actions.len() as int, |k: int| actions[k] is Write),
    decreases actions.len(),
{
    if actions.len() > 0 {
        let front = actions.drop_last();
        lemma_writes_in_counts(front);
        lemma_count_indices_agree(
            front.len() as int,
            |k: int| front[k] is Write,
            |k: int| actions[k] is Write,
        );
    }
}

proof fn lemma_annotated_count_counts(books: Seq<BookNotes>)
    ensures
        annotated_count(books) == count_indices(
            books.len() as int,
            |i: int| books[i].annotations@.len() > 0,
        ),
    decreases books.len(),
{
    if books.len() > 0 {
        let front = books.drop_last();
        lemma_annotated_count_counts(front);
        lemma_count_indices_agree(
            front.len() as int,
            |i: int| front[i].annotations@.len() > 0,
            |i: int| books[i].annotations@.len() > 0,
        );
    }
}

/// The number of notes files a sync reports is the number of files its
/// plan writes: one per book that has annotations.
pub proof fn lemma_sync_counts_its_writes(
    dir: Seq<char>,
    books: Seq<BookNotes>,
    order: Seq<usize>,
    actions: Seq<NoteAction>,
)
    requires
        is_stable_order(books.map_values(|b: BookNotes| sort_key(b)), order),
        actions.len() == books.len(),
        forall|k: int|
            0 <= k < books.len() ==> {
                let b = books[#[trigger] order[k] as int];
                is_plan_for(actions[k], dir, b.id@, b.record, b.annotations@)
            },
    ensures
        writes_in(actions) == annotated_count(books),
{
    let keys = books.map_values(|b: BookNotes| sort_key(b));
    let n = books.len() as int;
    let annotated = |i: int| books[i].annotations@.len() > 0;
    lemma_writes_in_counts(actions);
    lemma_annotated_count_counts(books);
    lemma_count_over_stable_order(keys, order, annotated);
    assert forall|k: int| 0 <= k < n implies (actions[k] is Write) == annotated(order[k] as int) by {
        let b = books[order[k] as int];
        assert(is_plan_for(actions[k], dir, b.id@, b.record, b.annotations@));
    }
    lemma_count_indices_agree(n, |k: int| actions[k] is Write, |k: int| annotated(order[k] as int));
}

/// Characters a double-quoted YAML 1.2 scalar may hold as they are (its
/// `nb-json` characters): tab and everything from the space up.
pub open spec fn yaml_content_char(c: char) -> bool {
    let u = c as u32;
    u == 0x09 || u >= 0x20
}

/// The text a YAML reader takes from the inside of a double-quoted scalar
/// whose only escapes are `\\` and `\"`, or `None` where it is not one.
pub open spec fn yaml_unescaped(s: Seq<char>) -> Option<Seq<char>>
    decreases s.len(),
{
    if s.len() == 0 {
        Some(Seq::empty())
    } else if s[0] == '\\' {
        if s.len() >= 2 && (s[1] == '\\' || s[1] == '"') {
            match yaml_unescaped(s.skip(2)) {
                Some(rest) => Some(seq![s[1]] + rest),
                None => None,
            }
        } else {
            None
        }
    } else if s[0] == '"' || !yaml_content_char(s[0]) {
        None
    } else {
        match yaml_unescaped(s.skip(1)) {
            Some(rest) => Some(seq![s[0]] + rest),
            None => None,
        }
    }
}

/// The value a YAML reader takes from a double-quoted scalar of that kind.
pub open spec fn yaml_double_quoted_value(q: Seq<char>) -> Option<Seq<char>> {
    if q.len() >= 2 && q[0] == '"' && q.last() == '"' {
        yaml_unescaped(q.subrange(1, q.len() - 1))
    } else {
        None
    }
}

proof fn lemma_yaml_escaped_front(v: Seq<char>)
    requires
        v.len() > 0,
    ensures
        yaml_escaped(v) == yaml_escape_char(v[0]) + yaml_escaped(v.drop_first()),
    decreases v.len(),
{
    if v.len() > 1 {
        lemma_yaml_escaped_front(v.drop_last());
        assert(v.drop_last().drop_first() == v.drop_first().drop_last());
        assert(v.drop_first().last() == v.last());
        assert(yaml_escaped(v.drop_first()) == yaml_escaped(v.drop_first().drop_last())
            + yaml_escape_char(v.drop_first().last()));
        assert(yaml_escaped(v) =~= yaml_escape_char(v[0]) + yaml_escaped(v.drop_first()));
    } else {
        assert(v.drop_last() =~= Seq::<char>::empty());
        assert(v.drop_first() =~= Seq::<char>::empty());
        assert(yaml_escaped(v) =~= yaml_escape_char(v[0]) + yaml_escaped(v.drop_first()));
    }
}

proof fn lemma_yaml_unescape_escaped(v: Seq<char>)
    requires
        forall|i: int| 0 <= i < v.len() ==> #[trigger] v[i] == '\n' || yaml_content_char(v[i]),
    ensures
        yaml_unescaped(yaml_escaped(v)) == Some(newlines_to_spaces(v)),
    decreases v.len(),
{
    if v.len() == 0 {
        assert(newlines_to_spaces(v) =~= Seq::<char>::empty());
    } else {
        let c = v[0];
        let rest = v.drop_first();
        assert forall|i: int| 0 <= i < rest.len() implies #[trigger] rest[i] == '\n'
            || yaml_content_char(rest[i]) by {
            assert(rest[i] == v[i + 1]);
        }
        lemma_yaml_unescape_escaped(rest);
        lemma_yaml_escaped_front(v);
        let e = yaml_escape_char(c);
        let s = e + yaml_escaped(rest);
        assert(newlines_to_spaces(v) =~= seq![if c == '\n' { ' ' } else { c }]
            + newlines_to_spaces(rest));
        if c == '\\' || c == '"' {
            assert(s.skip(2) =~= yaml_escaped(rest));
        } else {
            assert(s.skip(1) =~= yaml_escaped(rest));
            assert(yaml_content_char(' '));
        }
    }
}

/// What `yaml_quote` writes reads back, as a double-quoted YAML scalar, as
/// the value with its line breaks turned to spaces, provided the value holds
/// no characters below the space other than line breaks and tabs.
pub proof fn lemma_yaml_quote_reads_back(v: Seq<char>)
    requires
        forall|i: int| 0 <= i < v.len() ==> #[trigger] v[i] == '\n' || yaml_content_char(v[i]),
    ensures
        yaml_double_quoted_value(yaml_quoted(v)) == Some(newlines_to_spaces(v)),
{
    lemma_yaml_unescape_escaped(v);
    let q = yaml_quoted(v);
    assert(q.subrange(1, q.len() - 1) =~= yaml_escaped(v));
}

/// A note goes into its section as written: its characters from the first
/// to the last that is not whitespace, line breaks and all, followed by a
/// blank line; only whitespace at its two ends is left out.
pub proof fn lemma_note_kept_as_written(a: Annotation)
    requires
        a.note is Some,
    ensures
        ({
            let n = a.note->0@;
            exists|i: int, j: int|
                {
                    &&& 0 <= i <= j <= n.len()
                    &&& note_text(a) == n.subrange(i, j) + "\n\n"@
                    &&& forall|k: int| 0 <= k < i ==> is_whitespace(#[trigger] n[k])
                    &&& forall|k: int| j <= k < n.len() ==> is_whitespace(#[trigger] n[k])
                    &&& i < j ==> !is_whitespace(n[i]) && !is_whitespace(n[j - 1])
                }
        }),
{
    lemma_trimmed_is_middle(a.note->0@);
}

} // verus!
