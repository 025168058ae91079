//! The interactive chat session of the command line: which input lines are sent,
//! which end the session, and how the conversation grows with each exchange. Reading
//! the terminal and calling the model are left to the caller.
use vstd::prelude::*;

use crate::llm::{message_views, Message};
use crate::text::{eq_ascii_case_insensitive, eq_ignore_ascii_case, trim, trim_str};

verus! {

broadcast use vstd::string::group_string_axioms;

/// The instructions that open every conversation.
pub const SYSTEM_PROMPT: &'static str = "You are a helpful Ubuntu Desktop assistant. Answer questions clearly and concisely.";

/// The Ollama server used when none is given.
pub const DEFAULT_OLLAMA_URL: &'static str = "http://localhost:11434";

/// The model used when none is given.
pub const DEFAULT_MODEL: &'static str = "deepseek-r1:1.5b";

/// The message that opens every conversation.
pub open spec fn system_entry() -> (Seq<char>, Seq<char>) {
    ("system"@, SYSTEM_PROMPT@)
}

/// The mathematical value of a chat session.
pub struct ChatState {
    /// The conversation so far, as pairs of role and content.
    pub messages: Seq<(Seq<char>, Seq<char>)>,
    /// Whether the last user message still awaits the model's reply.
    pub pending: bool,
}

/// What the caller does after an input line.
#[derive(PartialEq, Eq, Structural)]
pub enum ChatAction {
    /// End the session.
    Exit,
    /// Ignore the line and prompt again.
    Skip,
    /// Send the conversation, which now ends with the user's message, to the model.
    Send,
}

/// The state and action after the input `line` (`None` at the end of the input or
/// when reading failed): the session ends at the end of the input and on `exit` in
/// any ASCII case; a blank line is skipped; any other line, trimmed, is added as the
/// user's message and sent.
pub open spec fn after_input(s: ChatState, line: Option<Seq<char>>) -> (ChatState, ChatAction) {
    match line {
        None => (s, ChatAction::Exit),
        Some(l) => {
            let input = trim(l);
            if input.len() == 0 {
                (s, ChatAction::Skip)
            } else if eq_ascii_case_insensitive(input, "exit"@) {
                (s, ChatAction::Exit)
            } else {
                (ChatState { messages: s.messages.push(("user"@, input)), pending: true }, ChatAction::Send)
            }
        },
    }
}

/// The state after the model replied `reply`: the reply is added as the assistant's
/// message.
pub open spec fn after_reply(s: ChatState, reply: Seq<char>) -> ChatState {
    ChatState { messages: s.messages.push(("assistant"@, reply)), pending: false }
}

/// The state after the model failed to reply: the unanswered user message is removed.
pub open spec fn after_failure(s: ChatState) -> ChatState {
    ChatState { messages: s.messages.drop_last(), pending: false }
}

/// A chat session: the conversation, and whether it awaits a reply.
pub struct ChatSession {
    messages: Vec<Message>,
    pending: bool,
}

impl View for ChatSession {
    type V = ChatState;

    closed spec fn view(&self) -> ChatState {
        ChatState { messages: message_views(self.messages@), pending: self.pending }
    }
}

/// The invariant of a session: the conversation opens with the system message, and a
/// pending session ends with a user message.
pub open spec fn session_inv(s: ChatState) -> bool {
    &&& s.messages.len() >= 1
    &&& s.messages[0] == system_entry()
    &&& s.pending ==> s.messages.len() >= 2 && s.messages.last().0 == "user"@
}

impl ChatSession {
    /// A session whose conversation holds only the system message.
    pub fn new() -> (s: ChatSession)
        ensures
            s@.messages == seq![system_entry()],
            !s@.pending,
            session_inv(s@),
    {
        let messages = vec![Message::new("system", SYSTEM_PROMPT.to_owned())];
        let s = ChatSession { messages, pending: false };
        proof {
            assert(s@.messages =~= seq![system_entry()]);
        }
        s
    }

    /// Handles one input line (`None` at the end of the input or when reading failed).
    pub fn handle_input(&mut self, line: Option<&str>) -> (action: ChatAction)
        requires
            session_inv(old(self)@),
            !old(self)@.pending,
        ensures
            (final(self)@, action) == after_input(
                old(self)@,
                match line {
                    Some(l) => Some(l@),
                    None => None,
                },
            ),
            session_inv(final(self)@),
    {
        let line = match line {
            Some(l) => l,
            None => return ChatAction::Exit,
        };
        let input = trim_str(line);
        if input.unicode_len() == 0 {
            return ChatAction::Skip;
        }
        if eq_ignore_ascii_case(input, "exit") {
            return ChatAction::Exit;
        }
        let ghost before = self@;
        self.messages.push(Message::new("user", input.to_owned()));
        self.pending = true;
        proof {
            assert(self@.messages =~= before.messages.push(("user"@, input@)));
        }
        ChatAction::Send
    }

    /// Records the model's reply to the pending user message.
    pub fn reply_received(&mut self, reply: String)
        requires
            session_inv(old(self)@),
            old(self)@.pending,
        ensures
            final(self)@ == after_reply(old(self)@, reply@),
            session_inv(final(self)@),
    {
        let ghost before = self@;
        self.messages.push(Message::new("assistant", reply));
        self.pending = false;
        proof {
            assert(self@.messages =~= before.messages.push(("assistant"@, reply@)));
        }
    }

    /// Drops the pending user message after the model failed to reply.
    pub fn reply_failed(&mut self)
        requires
            session_inv(old(self)@),
            old(self)@.pending,
        ensures
            final(self)@ == after_failure(old(self)@),
            session_inv(final(self)@),
    {
        let ghost before = self@;
        self.messages.pop();
        self.pending = false;
        proof {
            assert(self@.messages =~= before.messages.drop_last());
        }
    }

    /// The conversation so far.
    pub fn messages(&self) -> (ms: &Vec<Message>)
        ensures
            message_views(ms@) == self@.messages,
    {
        &self.messages
    }
}


/// A line that is not sent leaves the conversation as it was.
pub proof fn lemma_unsent_input_keeps_conversation(s: ChatState, line: Option<Seq<char>>)
    requires
        after_input(s, line).1 != ChatAction::Send,
    ensures
        after_input(s, line).0 == s,
{
}

/// When the model fails to answer a sent line, the conversation is restored to what
/// it was before the line was entered.
pub proof fn lemma_failed_exchange_restores(s: ChatState, line: Seq<char>)
    requires
        !s.pending,
        after_input(s, Some(line)).1 == ChatAction::Send,
    ensures
        after_failure(after_input(s, Some(line)).0) == s,
{
    assert(s.messages.push(("user"@, trim(line))).drop_last() =~= s.messages);
}

/// A completed exchange adds exactly the trimmed user line and the reply, in that
/// order, to the conversation.
pub proof fn lemma_exchange_appends(s: ChatState, line: Seq<char>, reply: Seq<char>)
    requires
        after_input(s, Some(line)).1 == ChatAction::Send,
    ensures
        after_reply(after_input(s, Some(line)).0, reply).messages == s.messages + seq![
            ("user"@, trim(line)),
            ("assistant"@, reply),
        ],
        !after_reply(after_input(s, Some(line)).0, reply).pending,
{
    assert(s.messages.push(("user"@, trim(line))).push(("assistant"@, reply)) =~= s.messages
        + seq![("user"@, trim(line)), ("assistant"@, reply)]);
}


/// One turn of the session: the line `line` is entered and, when it is sent, the model
/// replies `Some(reply)` or fails (`None`). Also says whether the session goes on.
pub open spec fn turn(s: ChatState, line: Seq<char>, reply: Option<Seq<char>>) -> (ChatState, bool) {
    let (s1, action) = after_input(s, Some(line));
    match action {
        ChatAction::Exit => (s1, false),
        ChatAction::Skip => (s1, true),
        ChatAction::Send => (
            match reply {
                Some(r) => after_reply(s1, r),
                None => after_failure(s1),
            },
            true,
        ),
    }
}

/// The state after the turns `turns` (each an entered line and the model's answer to
/// it, if it is sent), stopping at the turn that ends the session.
pub open spec fn run_session(s: ChatState, turns: Seq<(Seq<char>, Option<Seq<char>>)>) -> ChatState
    decreases turns.len(),
{
    if turns.len() == 0 {
        s
    } else {
        let (s1, go_on) = turn(s, turns[0].0, turns[0].1);
        if go_on {
            run_session(s1, turns.drop_first())
        } else {
            s1
        }
    }
}

/// The messages that the turns add to the conversation: for each line up to the one
/// that ends the session, the trimmed line and the reply when the model answered it;
/// blank lines, lines the model failed to answer, and the exit line add nothing.
pub open spec fn session_history(turns: Seq<(Seq<char>, Option<Seq<char>>)>) -> Seq<(Seq<char>, Seq<char>)>
    decreases turns.len(),
{
    if turns.len() == 0 {
        Seq::empty()
    } else {
        let input = trim(turns[0].0);
        if input.len() == 0 {
            session_history(turns.drop_first())
        } else if eq_ascii_case_insensitive(input, "exit"@) {
            Seq::empty()
        } else {
            match turns[0].1 {
                Some(r) => seq![("user"@, input), ("assistant"@, r)] + session_history(turns.drop_first()),
                None => session_history(turns.drop_first()),
            }
        }
    }
}

/// Over a whole session the conversation is what it was at the start followed by, for
/// every answered line in order, the trimmed line and the model's reply; nothing else
/// enters it, and no reply is left pending.
pub proof fn lemma_session_history(s: ChatState, turns: Seq<(Seq<char>, Option<Seq<char>>)>)
    requires
        !s.pending,
    ensures
        run_session(s, turns).messages == s.messages + session_history(turns),
        !run_session(s, turns).pending,
    decreases turns.len(),
{
    if turns.len() == 0 {
        assert(s.messages + session_history(turns) =~= s.messages);
    } else {
        let (line, reply) = turns[0];
        let rest = turns.drop_first();
        let (s1, go_on) = turn(s, line, reply);
        let input = trim(line);
        if input.len() == 0 || eq_ascii_case_insensitive(input, "exit"@) {
            assert(s.messages + Seq::<(Seq<char>, Seq<char>)>::empty() =~= s.messages);
            if go_on {
                lemma_session_history(s1, rest);
            }
        } else {
            match reply {
                Some(r) => {
                    lemma_exchange_appends(s, line, r);
                    lemma_session_history(s1, rest);
                    assert(s.messages + seq![("user"@, input), ("assistant"@, r)] + session_history(rest)
                        =~= s.messages + (seq![("user"@, input), ("assistant"@, r)] + session_history(
                        rest,
                    )));
                },
                None => {
                    lemma_failed_exchange_restores(s, line);
                    lemma_session_history(s1, rest);
                },
            }
        }
    }
}

} // verus!
