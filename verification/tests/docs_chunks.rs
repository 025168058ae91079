use ubuntu_desktop_help::docs::{
    chunks_of_documents, chunks_from_markdown, chunks_from_pieces, has_markdown_extension, markdown_to_plain_text,
    name_less, plain_text_from_events, select_markdown_files, DocFile, MarkdownEvent, CHUNK_SIZE,
};

fn file(name: &str) -> DocFile {
    DocFile { name: name.as_bytes().to_vec(), source: format!("docs/{name}") }
}

#[test]
fn markdown_becomes_plain_text() {
    let text = markdown_to_plain_text("# Wi-Fi\n\nOpen *Settings* and pick `Wi-Fi`.\n");
    assert_eq!(text, "Wi-Fi\nOpen Settings and pick Wi-Fi.\n");
}

#[test]
fn line_breaks_become_spaces_and_code_blocks_are_set_apart() {
    let text = markdown_to_plain_text("one\ntwo\n\n```\nsudo apt update\n```\n\n- item\n");
    assert_eq!(text, "one two\n\nsudo apt update\n\nitem\n");
}

#[test]
fn tables_and_strikethrough_keep_their_text() {
    let text = markdown_to_plain_text("| a | b |\n|---|---|\n| 1 | 2 |\n\n~~old~~ new\n");
    assert!(text.contains("a"));
    assert!(text.contains("old new"));
    assert!(!text.contains("|"));
    assert!(!text.contains("~"));
}

#[test]
fn events_contribute_their_text() {
    let events = vec![
        MarkdownEvent::Text("Hello".to_string()),
        MarkdownEvent::SoftBreak,
        MarkdownEvent::Code("ls".to_string()),
        MarkdownEvent::Other,
        MarkdownEvent::HardBreak,
        MarkdownEvent::EndParagraph,
        MarkdownEvent::StartCodeBlock,
        MarkdownEvent::EndCodeBlock,
        MarkdownEvent::EndHeading,
        MarkdownEvent::EndItem,
    ];
    assert_eq!(plain_text_from_events(&events), "Hello ls \n\n\n\n\n");
    assert_eq!(plain_text_from_events(&vec![]), "");
}

#[test]
fn blank_pieces_are_dropped_and_the_rest_trimmed() {
    let pieces = vec!["  first ".to_string(), " \n ".to_string(), "second".to_string(), "".to_string()];
    let chunks = chunks_from_pieces("docs/a.md", &pieces);
    assert_eq!(chunks.len(), 2);
    assert_eq!(chunks[0].text, "first");
    assert_eq!(chunks[1].text, "second");
    assert!(chunks.iter().all(|c| c.source == "docs/a.md"));
}

#[test]
fn a_document_is_split_into_bounded_chunks() {
    let mut markdown = String::new();
    for i in 0..200 {
        markdown.push_str(&format!("Paragraph number {i} explains a setting of the desktop.\n\n"));
    }
    let chunks = chunks_from_markdown("docs/long.md", &markdown);
    assert!(chunks.len() > 1);
    for c in &chunks {
        assert!(!c.text.is_empty());
        assert_eq!(c.text, c.text.trim());
        assert!(c.text.chars().count() <= CHUNK_SIZE);
        assert_eq!(c.source, "docs/long.md");
    }
    assert!(chunks[0].text.starts_with("Paragraph number 0"));
}

#[test]
fn an_empty_document_has_no_chunks() {
    assert!(chunks_from_markdown("docs/empty.md", "").is_empty());
    assert!(chunks_from_markdown("docs/blank.md", "   \n\n  ").is_empty());
}

#[test]
fn markdown_extension_follows_the_last_dot() {
    assert!(has_markdown_extension(&b"wifi.md".to_vec()));
    assert!(has_markdown_extension(&b"a.b.md".to_vec()));
    assert!(!has_markdown_extension(&b".md".to_vec()));
    assert!(!has_markdown_extension(&b"notes.mdx".to_vec()));
    assert!(!has_markdown_extension(&b"readme.MD".to_vec()));
    assert!(!has_markdown_extension(&b"md".to_vec()));
    assert!(has_markdown_extension(&b"x.md".to_vec()));
}

#[test]
fn names_compare_byte_wise() {
    assert!(name_less(&b"a".to_vec(), &b"b".to_vec()));
    assert!(name_less(&b"a".to_vec(), &b"ab".to_vec()));
    assert!(!name_less(&b"ab".to_vec(), &b"a".to_vec()));
    assert!(!name_less(&b"a".to_vec(), &b"a".to_vec()));
    assert!(name_less(&b"Z".to_vec(), &b"a".to_vec()));
}

#[test]
fn markdown_files_are_selected_and_sorted() {
    let listing = vec![file("zoom.md"), file("image.png"), file("apps.md"), file(".md"), file("Boot.md")];
    let selected = select_markdown_files(listing);
    let names: Vec<String> = selected.iter().map(|f| String::from_utf8(f.name.clone()).unwrap()).collect();
    assert_eq!(names, vec!["Boot.md", "apps.md", "zoom.md"]);
    assert_eq!(selected[1].source, "docs/apps.md");
}

#[test]
fn selection_does_not_depend_on_listing_order() {
    let a = select_markdown_files(vec![file("b.md"), file("a.md"), file("c.md")]);
    let b = select_markdown_files(vec![file("c.md"), file("b.md"), file("a.md")]);
    let na: Vec<Vec<u8>> = a.iter().map(|f| f.name.clone()).collect();
    let nb: Vec<Vec<u8>> = b.iter().map(|f| f.name.clone()).collect();
    assert_eq!(na, nb);
    assert!(select_markdown_files(vec![]).is_empty());
}

#[test]
fn documents_are_chunked_in_order() {
    let docs = vec![
        ("docs/a.md".to_string(), "# A\n\nFirst.\n".to_string()),
        ("docs/b.md".to_string(), "".to_string()),
        ("docs/c.md".to_string(), "Third.\n".to_string()),
    ];
    let chunks = chunks_of_documents(&docs);
    let got: Vec<(String, String)> = chunks.into_iter().map(|c| (c.source, c.text)).collect();
    assert_eq!(
        got,
        vec![
            ("docs/a.md".to_string(), "A\nFirst.".to_string()),
            ("docs/c.md".to_string(), "Third.".to_string()),
        ]
    );
}
