use omalibre::book::{Annotation, BookId, BookRecord, Color, Slice};
use omalibre::export::slugify;
use omalibre::vault::{
    annotations_markdown, front_matter, path_for, plan_book, plan_sync, slug_of, temp_path_for,
    yaml_quote, BookNotes, NoteAction,
};

fn sample_record() -> BookRecord {
    let mut record = BookRecord::new("/books/demo.epub".to_string());
    record.title = Some("They Say / I Say".into());
    record.authors = vec!["Graff".into()];
    record
}

fn sample_annotation(note: Option<&str>) -> Annotation {
    Annotation {
        id: "host-1".into(),
        href: "EPUB/ch1.xhtml".into(),
        slices: vec![Slice {
            block: 2,
            start: 10,
            end: 20,
        }],
        color: Color::Purple,
        quote: "quoted text".into(),
        note: note.map(str::to_string),
    }
}

/// The plan for a book with annotations: its path, its temporary file and
/// the text written. Writing the file is left to the caller and is not run
/// here.
#[test]
fn writes_one_file_per_book() {
    let dir = "/tmp/omalibre-vault-test";
    let id = BookId::from(
        "sha256:7e4ca47200a437e2104ef607eb6c50c3ed4bfe5f7e9cefd1d81fd106cf6ed7d0".to_string(),
    );
    let record = sample_record();
    let annotations = vec![sample_annotation(Some("a thought"))];

    let action = plan_book(dir, &id, &record, &annotations);
    let path = path_for(dir, &record, &id);
    match action {
        NoteAction::Write { path: written, temp_path, body: text } => {
            assert_eq!(written, path);
            assert_eq!(temp_path, "/tmp/omalibre-vault-test/.they-say-i-say-7e4ca472.md.tmp");
            assert!(text.contains("kind: \"annotations\""));
            assert!(text.contains("omalibre: \"1\""));
            assert!(text.contains("<!-- id: host-1 -->"));
            assert!(text.contains("> quoted text"));
            assert!(text.contains("a thought"));
            assert!(text.contains("purple · EPUB/ch1.xhtml"));
        }
        NoteAction::Remove { .. } => panic!("a book with annotations is written"),
    }
}

/// A book without annotations plans the removal of its notes file. Removing
/// it is left to the caller and is not run here.
#[test]
fn empty_annotations_remove_the_file() {
    let dir = "/tmp/omalibre-vault-test";
    let id = BookId::from(
        "sha256:aaaaaaaaaaaaaaaaaaaaaaaaaaaaaaaaaaaaaaaaaaaaaaaaaaaaaaaaaaaaaaaa".to_string(),
    );
    let record = sample_record();
    let path = path_for(dir, &record, &id);
    assert!(matches!(plan_book(dir, &id, &record, &[sample_annotation(None)]), NoteAction::Write { .. }));
    match plan_book(dir, &id, &record, &[]) {
        NoteAction::Remove { path: removed } => assert_eq!(removed, path),
        NoteAction::Write { .. } => panic!("no annotations leave no file"),
    }
}

#[test]
fn the_whole_notes_file() {
    let id = BookId::new("sha256:7e4ca472ff".to_string());
    let record = sample_record();
    let mut second = sample_annotation(None);
    second.id = "host-2".into();
    second.color = Color::Yellow;
    second.slices = vec![];
    second.quote = "two\nlines".into();
    let annotations = vec![sample_annotation(Some("  a thought\n\n")), second];
    let text = annotations_markdown(&id, &record, &annotations);
    assert_eq!(
        text,
        "---\n\
         book: \"sha256:7e4ca472ff\"\n\
         title: \"They Say / I Say\"\n\
         author: \"Graff\"\n\
         kind: \"annotations\"\n\
         omalibre: \"1\"\n\
         ---\n\
         \n\
         # Notes on They Say / I Say\n\
         \n\
         ## purple · EPUB/ch1.xhtml\n\
         <!-- id: host-1 -->\n\
         <!-- at chapter=EPUB/ch1.xhtml block=2 offset=10 end=20 -->\n\
         \n\
         > quoted text\n\
         \n\
         a thought\n\
         \n\
         ## yellow · EPUB/ch1.xhtml\n\
         <!-- id: host-2 -->\n\
         \n\
         > two lines\n\
         \n"
    );
}

#[test]
fn the_location_spans_from_the_first_slice_to_the_last() {
    let id = BookId::new("sha256:00".to_string());
    let mut annotation = sample_annotation(None);
    annotation.slices.push(Slice { block: 5, start: 0, end: 1234567 });
    let text = annotations_markdown(&id, &sample_record(), &[annotation]);
    assert!(text.contains("<!-- at chapter=EPUB/ch1.xhtml block=2 offset=10 end=1234567 -->\n\n"));
}

#[test]
fn quoting_escapes_and_joins_lines() {
    assert_eq!(yaml_quote("plain"), "\"plain\"");
    assert_eq!(yaml_quote("say \"hi\"\\now\nthen"), "\"say \\\"hi\\\"\\\\now then\"");
    assert_eq!(front_matter(&[("a", "1"), ("b", "x\"y")]), "---\na: \"1\"\nb: \"x\\\"y\"\n---\n");
    assert_eq!(front_matter(&[]), "---\n---\n");
}

#[test]
fn slugs_keep_letters_and_digits() {
    assert_eq!(slugify("They Say / I Say"), "they-say-i-say");
    assert_eq!(slugify("  --Rust 2024: Edition!  "), "rust-2024-edition");
    assert_eq!(slugify("Ünïcode"), "n-code");
    assert_eq!(slugify(""), "");
}

#[test]
fn notes_files_are_named_after_title_and_id() {
    let record = sample_record();
    let id = BookId::new("sha256:7e4ca47200a437e2".to_string());
    assert_eq!(slug_of(&record, &id), "they-say-i-say-7e4ca472");
    assert_eq!(path_for("/vault/notes", &record, &id), "/vault/notes/they-say-i-say-7e4ca472.md");
    assert_eq!(path_for("/vault/notes/", &record, &id), "/vault/notes/they-say-i-say-7e4ca472.md");
    assert_eq!(path_for("", &record, &id), "they-say-i-say-7e4ca472.md");
    let short = BookId::new("sha256:ab".to_string());
    assert_eq!(slug_of(&record, &short), "they-say-i-say-ab");
    let tiny = BookId::new("x".to_string());
    assert_eq!(slug_of(&record, &tiny), "they-say-i-say-");
}

#[test]
fn a_book_without_title_goes_by_its_file_name() {
    let record = BookRecord::new("/books/some.book.epub".to_string());
    assert_eq!(record.display_title(), "some.book");
    assert_eq!(BookRecord::new("plain".to_string()).display_title(), "plain");
    assert_eq!(BookRecord::new("/x/.hidden".to_string()).display_title(), ".hidden");
    let mut many = sample_record();
    many.authors = vec!["A".into(), "B".into(), "C".into()];
    assert_eq!(many.display_authors(), "A, B, C");
    assert_eq!(BookRecord::new("p".into()).display_authors(), "");
}

#[test]
fn temporary_files_sit_beside_the_note() {
    assert_eq!(temp_path_for("/a/b/c.md"), "/a/b/.c.md.tmp");
    assert_eq!(temp_path_for("c.md"), ".c.md.tmp");
    assert_eq!(temp_path_for("/c.md"), "/.c.md.tmp");
}

fn book(title: &str, id: &str, annotated: bool) -> BookNotes {
    let mut record = BookRecord::new(format!("/books/{id}.epub"));
    record.title = Some(title.to_string());
    BookNotes {
        id: BookId::new(format!("sha256:{id}")),
        record,
        annotations: if annotated { vec![sample_annotation(None)] } else { vec![] },
    }
}

#[test]
fn syncing_sorts_by_title_ignoring_case() {
    let books = vec![
        book("beta", "1", true),
        book("Alpha", "2", false),
        book("alpha", "3", true),
        book("ÉCOLE", "4", true),
        book("Beta", "5", true),
    ];
    let plan = plan_sync("/notes", &books);
    assert_eq!(plan.order, vec![1, 2, 0, 4, 3]);
    assert_eq!(plan.written, 4);
    let writes = plan.actions.iter().filter(|a| matches!(a, NoteAction::Write { .. })).count();
    assert_eq!(writes, plan.written);
    assert!(matches!(&plan.actions[0], NoteAction::Remove { path } if path == "/notes/alpha-2.md"));
    assert!(matches!(&plan.actions[1], NoteAction::Write { path, .. } if path == "/notes/alpha-3.md"));
    assert!(matches!(&plan.actions[4], NoteAction::Write { path, .. } if path == "/notes/cole-4.md"));
}

/// Reads a double-quoted YAML scalar whose escapes are `\\` and `\"`.
fn read_yaml_double_quoted(q: &str) -> String {
    let inner = &q[1..q.len() - 1];
    let mut out = String::new();
    let mut chars = inner.chars();
    while let Some(c) = chars.next() {
        if c == '\\' {
            out.push(chars.next().unwrap());
        } else {
            out.push(c);
        }
    }
    out
}

#[test]
fn quoted_values_read_back() {
    for value in ["plain", "say \"hi\"\\now\nthen", "\\\\\"", "tab\there", "", "\u{feff}x\u{ffff}\u{85}\u{7f}"] {
        let quoted = yaml_quote(value);
        assert!(quoted.starts_with('"') && quoted.ends_with('"') && !quoted.contains('\n'));
        assert_eq!(read_yaml_double_quoted(&quoted), value.replace('\n', " "));
    }
}
