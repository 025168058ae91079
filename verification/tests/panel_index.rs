use ubuntu_desktop_help::docs::Chunk;
use ubuntu_desktop_help::gui::{asks_model, question_conversation, question_heading, AnswerPanel, StreamMsg};
use ubuntu_desktop_help::vectordb::{
    chunk_texts, collection_exists, needs_upsert, payload_str, point_records, search_results, PayloadValue,
};

#[test]
fn heading_shows_the_question_or_a_placeholder() {
    assert_eq!(question_heading("how?", "how?"), "<b>how?</b>");
    assert_eq!(question_heading("a<b", "a&lt;b"), "<b>a&lt;b</b>");
    assert_eq!(question_heading("", ""), "Type your question in the GNOME overview after <tt>??</tt>");
}

#[test]
fn only_a_question_is_sent() {
    assert!(asks_model("wifi"));
    assert!(!asks_model(""));
    let ms = question_conversation("wifi".to_string());
    assert_eq!(ms.len(), 2);
    assert_eq!(ms[0].role, "system");
    assert_eq!(ms[1].role, "user");
    assert_eq!(ms[1].content, "wifi");
}

#[test]
fn panel_streams_tokens_and_errors() {
    let mut p = AnswerPanel::new("q");
    let a = p.handle(StreamMsg::Token("Hel".to_string()));
    assert!(a.hide_spinner && a.append == Some("Hel".to_string()) && !a.stop);
    let b = p.handle(StreamMsg::Token("lo".to_string()));
    assert!(!b.hide_spinner && b.append == Some("lo".to_string()));
    let c = p.handle(StreamMsg::Error("timeout".to_string()));
    assert!(c.hide_spinner && c.append == Some("Error: timeout".to_string()));
    let d = p.handle(StreamMsg::Done);
    assert!(d.stop && d.append.is_none() && !d.hide_spinner);
    assert_eq!(p.text(), "HelloError: timeout");
}

#[test]
fn collection_is_found_by_name() {
    assert!(collection_exists(&["x".to_string(), "ubuntu-docs".to_string()]));
    assert!(!collection_exists(&["ubuntu".to_string()]));
    assert!(!collection_exists(&[]));
}

#[test]
fn points_carry_the_chunks() {
    let chunks = vec![
        Chunk { source: "docs/a.md".to_string(), text: "alpha".to_string() },
        Chunk { source: "docs/b.md".to_string(), text: "beta".to_string() },
    ];
    assert_eq!(chunk_texts(&chunks), vec!["alpha".to_string(), "beta".to_string()]);
    let points = point_records(&chunks);
    assert_eq!(points.len(), 2);
    assert_eq!(points[1].id, 1);
    assert_eq!(
        points[1].payload,
        vec![("source".to_string(), "docs/b.md".to_string()), ("text".to_string(), "beta".to_string())]
    );
}

#[test]
fn payload_strings_are_read_back() {
    let payload = vec![
        ("text".to_string(), PayloadValue::Text("body".to_string())),
        ("source".to_string(), PayloadValue::Other),
    ];
    assert_eq!(payload_str(&payload, "text"), "body");
    assert_eq!(payload_str(&payload, "source"), "");
    assert_eq!(payload_str(&payload, "missing"), "");
    let hits = vec![
        vec![
            ("source".to_string(), PayloadValue::Text("docs/a.md".to_string())),
            ("text".to_string(), PayloadValue::Text("alpha".to_string())),
        ],
        payload,
    ];
    let results = search_results(&hits);
    assert_eq!(results[0], ("docs/a.md".to_string(), "alpha".to_string()));
    assert_eq!(results[1], ("".to_string(), "body".to_string()));
}

#[test]
fn written_payload_is_read_back() {
    let chunks = vec![Chunk { source: "docs/wifi.md".to_string(), text: "Open Settings.".to_string() }];
    let stored: Vec<Vec<(String, PayloadValue)>> = point_records(&chunks)
        .into_iter()
        .map(|p| p.payload.into_iter().map(|(k, v)| (k, PayloadValue::Text(v))).collect())
        .collect();
    assert_eq!(
        search_results(&stored),
        vec![("docs/wifi.md".to_string(), "Open Settings.".to_string())]
    );
}

#[test]
fn points_are_written_only_when_there_are_some() {
    assert!(needs_upsert(3));
    assert!(!needs_upsert(0));
}
