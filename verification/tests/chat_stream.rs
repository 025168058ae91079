use ubuntu_desktop_help::chat::{ChatAction, ChatSession, SYSTEM_PROMPT};
use ubuntu_desktop_help::llm::{chat_endpoint, Message, ReplyStream};

fn roles(s: &ChatSession) -> Vec<(String, String)> {
    s.messages().iter().map(|m| (m.role.clone(), m.content.clone())).collect()
}

#[test]
fn endpoint_drops_trailing_slashes() {
    assert_eq!(chat_endpoint("http://localhost:11434"), "http://localhost:11434/api/chat");
    assert_eq!(chat_endpoint("http://localhost:11434/"), "http://localhost:11434/api/chat");
    assert_eq!(chat_endpoint("http://host///"), "http://host/api/chat");
}

#[test]
fn message_keeps_role_and_content() {
    let m = Message::new("user", "hi".to_string());
    assert_eq!(m.role, "user");
    assert_eq!(m.content, "hi");
}

#[test]
fn session_starts_with_the_system_prompt() {
    let s = ChatSession::new();
    assert_eq!(roles(&s), vec![("system".to_string(), SYSTEM_PROMPT.to_string())]);
}

#[test]
fn blank_lines_are_skipped_and_exit_ends() {
    let mut s = ChatSession::new();
    assert!(s.handle_input(Some("   \n")) == ChatAction::Skip);
    assert!(s.handle_input(Some("  ExIt \n")) == ChatAction::Exit);
    assert!(s.handle_input(None) == ChatAction::Exit);
    assert_eq!(s.messages().len(), 1);
}

#[test]
fn an_exchange_adds_question_and_answer() {
    let mut s = ChatSession::new();
    assert!(s.handle_input(Some("  how do I update?\n")) == ChatAction::Send);
    assert_eq!(s.messages().len(), 2);
    assert_eq!(s.messages()[1].content, "how do I update?");
    s.reply_received("Run the Software Updater.".to_string());
    let r = roles(&s);
    assert_eq!(r[1], ("user".to_string(), "how do I update?".to_string()));
    assert_eq!(r[2], ("assistant".to_string(), "Run the Software Updater.".to_string()));
}

#[test]
fn a_failed_exchange_is_undone() {
    let mut s = ChatSession::new();
    assert!(s.handle_input(Some("first")) == ChatAction::Send);
    s.reply_received("one".to_string());
    let before = roles(&s);
    assert!(s.handle_input(Some("second")) == ChatAction::Send);
    s.reply_failed();
    assert_eq!(roles(&s), before);
}

#[test]
fn stream_lines_are_split_on_newlines() {
    let mut st = ReplyStream::new();
    st.feed(b"{\"a\":1}\n\n  \n{\"b\"");
    assert_eq!(st.next_line(), Some("{\"a\":1}".to_string()));
    assert_eq!(st.next_line(), None);
    st.feed(b":2}\n");
    assert_eq!(st.next_line(), Some("{\"b\":2}".to_string()));
    assert_eq!(st.next_line(), None);
}

#[test]
fn malformed_utf8_is_replaced() {
    let mut st = ReplyStream::new();
    st.feed(&[0x61, 0xff, 0x62, b'\n']);
    assert_eq!(st.next_line(), Some("a\u{fffd}b".to_string()));
}

#[test]
fn reply_is_assembled_and_first_token_signalled_once() {
    let mut st = ReplyStream::new();
    let s0 = st.accept("", false);
    assert!(!s0.show && !s0.first_token && !s0.stop);
    let s1 = st.accept("Hel", false);
    assert!(s1.show && s1.first_token && !s1.stop);
    let s2 = st.accept("lo", false);
    assert!(s2.show && !s2.first_token);
    assert!(!st.is_complete());
    let s3 = st.accept("!", true);
    assert!(s3.stop && s3.show && !s3.first_token);
    assert!(st.is_complete());
    let s4 = st.accept("ignored", false);
    assert!(s4.stop && !s4.show && !s4.first_token);
    assert_eq!(st.into_reply(), "Hello!");
}

fn all_lines(st: &mut ReplyStream) -> Vec<String> {
    let mut lines = Vec::new();
    while let Some(l) = st.next_line() {
        lines.push(l);
    }
    lines
}

#[test]
fn lines_do_not_depend_on_how_bytes_arrive() {
    let data = "{\"message\":{\"content\":\"é\"}}\n\n{\"done\":true}\n".as_bytes();
    let mut whole = ReplyStream::new();
    whole.feed(data);
    let expected = all_lines(&mut whole);
    assert_eq!(expected.len(), 2);
    for cut in 0..data.len() {
        let mut st = ReplyStream::new();
        st.feed(&data[..cut]);
        let mut got = all_lines(&mut st);
        st.feed(&data[cut..]);
        got.extend(all_lines(&mut st));
        assert_eq!(got, expected, "cut at {cut}");
    }
}

#[test]
fn a_reply_split_inside_done_is_assembled() {
    let body = b"{\"message\":{\"role\":\"assistant\",\"content\":\"Hi\"},\"done\":true}\n";
    let cut = body.windows(2).position(|w| w == b"do").unwrap() + 2;
    let mut st = ReplyStream::new();
    st.feed(&body[..cut]);
    assert_eq!(st.next_line(), None);
    st.feed(&body[cut..]);
    let line = st.next_line().unwrap();
    assert_eq!(line.as_bytes(), &body[..body.len() - 1]);
    let step = st.accept("Hi", true);
    assert!(step.first_token && step.show && step.stop);
    assert_eq!(st.into_reply(), "Hi");
}

#[test]
fn default_model_is_the_documented_one() {
    assert_eq!(ubuntu_desktop_help::chat::DEFAULT_MODEL, "deepseek-r1:1.5b");
}
