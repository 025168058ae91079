//! The answer window's decisions: its heading, whether a question is sent to the
//! model, the conversation sent, and how the window reacts to each message of the
//! streamed answer. The widgets and the worker thread live outside the library.
use vstd::prelude::*;

use crate::chat::{system_entry, SYSTEM_PROMPT};
use crate::llm::{message_views, Message};

verus! {

broadcast use vstd::string::group_string_axioms;

/// The application identifier of the answer window.
pub const APP_ID: &'static str = "com.canonical.UbuntuDesktopHelp";

/// The heading shown when the window opens without a question.
pub open spec fn placeholder_heading() -> Seq<char> {
    "Type your question in the GNOME overview after <tt>??</tt>"@
}

/// The heading of the window: the placeholder without a question, otherwise the
/// question, already escaped for markup, in bold.
pub open spec fn heading_of(question: Seq<char>, escaped: Seq<char>) -> Seq<char> {
    if question.len() == 0 {
        placeholder_heading()
    } else {
        "<b>"@ + escaped + "</b>"@
    }
}

/// The heading shows the whole escaped question, whatever its length: for a question,
/// it is `<b>`, then every character of the escaped question in order, then `</b>`;
/// without one it is the placeholder.
pub proof fn lemma_heading_holds_whole_question(question: Seq<char>, escaped: Seq<char>)
    ensures
        question.len() > 0 ==> {
            let h = heading_of(question, escaped);
            &&& h.len() == escaped.len() + 7
            &&& h.take(3) == seq!['<', 'b', '>']
            &&& h.subrange(3, 3 + escaped.len() as int) == escaped
            &&& h.skip(3 + escaped.len() as int) == seq!['<', '/', 'b', '>']
        },
        question.len() == 0 ==> heading_of(question, escaped) == placeholder_heading(),
{
    reveal_strlit("<b>");
    reveal_strlit("</b>");
    if question.len() > 0 {
        let h = heading_of(question, escaped);
        assert("<b>"@ =~= seq!['<', 'b', '>']);
        assert("</b>"@ =~= seq!['<', '/', 'b', '>']);
        assert(h.take(3) =~= seq!['<', 'b', '>']);
        assert(h.subrange(3, 3 + escaped.len() as int) =~= escaped);
        assert(h.skip(3 + escaped.len() as int) =~= seq!['<', '/', 'b', '>']);
    }
}

/// The markup of the window's heading for `question`, given the question escaped for
/// markup.
pub fn question_heading(question: &str, escaped: &str) -> (heading: String)
    ensures
        heading@ == heading_of(question@, escaped@),
{
    if question.unicode_len() == 0 {
        String::from_str("Type your question in the GNOME overview after <tt>??</tt>")
    } else {
        let mut heading = String::from_str("<b>");
        heading.append(escaped);
        heading.append("</b>");
        heading
    }
}

/// Whether the window asks the model: only when there is a question. Without one
/// the window shows its placeholder and the spinner stays hidden.
pub fn asks_model(question: &str) -> (b: bool)
    ensures
        b == (question@.len() > 0),
{
    question.unicode_len() != 0
}

/// The conversation sent for a question: the system message, then the question as
/// the user's message.
pub fn question_conversation(question: String) -> (ms: Vec<Message>)
    ensures
        message_views(ms@) == seq![system_entry(), ("user"@, question@)],
{
    let ms = vec![Message::new("system", SYSTEM_PROMPT.to_owned()), Message::new("user", question)];
    proof {
        assert(message_views(ms@) =~= seq![system_entry(), ("user"@, question@)]);
    }
    ms
}

/// A message from the worker that talks to the model.
pub enum StreamMsg {
    /// A piece of the answer.
    Token(String),
    /// The request failed with this description.
    Error(String),
    /// No more messages follow.
    Done,
}

/// The mathematical value of a [`StreamMsg`].
pub enum StreamEvent {
    Token(Seq<char>),
    Error(Seq<char>),
    Done,
}

impl View for StreamMsg {
    type V = StreamEvent;

    open spec fn view(&self) -> StreamEvent {
        match self {
            StreamMsg::Token(t) => StreamEvent::Token(t@),
            StreamMsg::Error(e) => StreamEvent::Error(e@),
            StreamMsg::Done => StreamEvent::Done,
        }
    }
}

/// What the window shows of the answer.
pub struct PanelState {
    /// Whether the "thinking" spinner is shown.
    pub spinner_visible: bool,
    /// Whether a piece of the answer has arrived.
    pub got_first_token: bool,
    /// The text of the answer area.
    pub text: Seq<char>,
    /// Whether the stream has ended.
    pub finished: bool,
}

/// What the window does with one message.
pub struct PanelStep {
    /// Hide the spinner now.
    pub hide_spinner: bool,
    /// Text to append to the answer area.
    pub append: Option<String>,
    /// Stop listening: the stream has ended.
    pub stop: bool,
}

/// The window's state after one message: a piece of the answer is appended, and the
/// first one hides the spinner; an error hides the spinner and is appended after
/// `Error: `; the end of the stream stops the window listening.
pub open spec fn after_message(p: PanelState, m: StreamEvent) -> PanelState {
    match m {
        StreamEvent::Token(t) => PanelState {
            spinner_visible: p.spinner_visible && p.got_first_token,
            got_first_token: true,
            text: p.text + t,
            finished: p.finished,
        },
        StreamEvent::Error(e) => PanelState {
            spinner_visible: false,
            got_first_token: p.got_first_token,
            text: p.text + "Error: "@ + e,
            finished: p.finished,
        },
        StreamEvent::Done => PanelState { finished: true, ..p },
    }
}

/// The text a message adds to the answer area.
pub open spec fn shown_text(m: StreamEvent) -> Seq<char> {
    match m {
        StreamEvent::Token(t) => t,
        StreamEvent::Error(e) => "Error: "@ + e,
        StreamEvent::Done => Seq::empty(),
    }
}

/// The window's state after the messages `ms`, in order.
pub open spec fn after_messages(p: PanelState, ms: Seq<StreamEvent>) -> PanelState
    decreases ms.len(),
{
    if ms.len() == 0 {
        p
    } else {
        after_message(after_messages(p, ms.drop_last()), ms.last())
    }
}

/// The texts the messages `ms` add, one after the other.
pub open spec fn shown_texts(ms: Seq<StreamEvent>) -> Seq<char>
    decreases ms.len(),
{
    if ms.len() == 0 {
        Seq::empty()
    } else {
        shown_texts(ms.drop_last()) + shown_text(ms.last())
    }
}

/// Over a whole stream the answer area holds every piece of the answer and every
/// error, in the order they came; and, for a window that has not yet received a
/// piece of the answer, the spinner stays up exactly as long as nothing but the end
/// of the stream has arrived.
pub proof fn lemma_panel_shows_stream(p: PanelState, ms: Seq<StreamEvent>)
    ensures
        after_messages(p, ms).text == p.text + shown_texts(ms),
        !p.got_first_token ==> (after_messages(p, ms).spinner_visible == (p.spinner_visible && forall|i: int|
            0 <= i < ms.len() ==> #[trigger] ms[i] is Done)),
        after_messages(p, ms).got_first_token == (p.got_first_token || exists|i: int|
            0 <= i < ms.len() && #[trigger] ms[i] is Token),
    decreases ms.len(),
{
    if ms.len() == 0 {
        assert(p.text + shown_texts(ms) =~= p.text);
    } else {
        let init = ms.drop_last();
        let last = ms.last();
        lemma_panel_shows_stream(p, init);
        let q = after_messages(p, init);
        assert(q.text + shown_text(last) =~= p.text + shown_texts(ms)) by {
            assert(p.text + shown_texts(init) + shown_text(last) =~= p.text + (shown_texts(init) + shown_text(
                last,
            )));
            match last {
                StreamEvent::Error(e) => {
                    assert(q.text + "Error: "@ + e =~= q.text + ("Error: "@ + e));
                },
                _ => {},
            }
        }
        assert(after_messages(p, ms).text == q.text + shown_text(last)) by {
            match last {
                StreamEvent::Error(e) => {
                    assert(q.text + "Error: "@ + e =~= q.text + ("Error: "@ + e));
                },
                StreamEvent::Done => {
                    assert(q.text + Seq::<char>::empty() =~= q.text);
                },
                _ => {},
            }
        }
        assert forall|i: int| 0 <= i < init.len() implies #[trigger] init[i] == ms[i] by {}
        if exists|i: int| 0 <= i < ms.len() && #[trigger] ms[i] is Token {
            let i = choose|i: int| 0 <= i < ms.len() && #[trigger] ms[i] is Token;
            if i < init.len() {
                assert(init[i] is Token);
            }
        }
        if exists|i: int| 0 <= i < init.len() && #[trigger] init[i] is Token {
            let i = choose|i: int| 0 <= i < init.len() && #[trigger] init[i] is Token;
            assert(ms[i] is Token);
        }
        if !(forall|i: int| 0 <= i < init.len() ==> #[trigger] init[i] is Done) {
            let i = choose|i: int| !(0 <= i < init.len() ==> #[trigger] init[i] is Done);
            assert(!(ms[i] is Done));
        }
        if (forall|i: int| 0 <= i < init.len() ==> #[trigger] init[i] is Done) && last is Done {
            assert forall|i: int| 0 <= i < ms.len() implies #[trigger] ms[i] is Done by {
                if i < init.len() {
                    assert(init[i] is Done);
                }
            }
        }
        if !(last is Done) {
            assert(!(ms[ms.len() - 1] is Done));
        }
        if !p.got_first_token && q.got_first_token {
            let i = choose|i: int| 0 <= i < init.len() && #[trigger] init[i] is Token;
            assert(!(init[i] is Done));
        }
    }
}

/// The answer area of the window.
pub struct AnswerPanel {
    spinner_visible: bool,
    got_first_token: bool,
    text: String,
    finished: bool,
}

impl View for AnswerPanel {
    type V = PanelState;

    closed spec fn view(&self) -> PanelState {
        PanelState {
            spinner_visible: self.spinner_visible,
            got_first_token: self.got_first_token,
            text: self.text@,
            finished: self.finished,
        }
    }
}

impl AnswerPanel {
    /// The answer area as the window opens for `question`: empty, with the spinner
    /// shown only when there is a question.
    pub fn new(question: &str) -> (p: AnswerPanel)
        ensures
            p@.spinner_visible == (question@.len() > 0),
            !p@.got_first_token,
            p@.text == Seq::<char>::empty(),
            !p@.finished,
    {
        AnswerPanel {
            spinner_visible: question.unicode_len() != 0,
            got_first_token: false,
            text: String::new(),
            finished: false,
        }
    }

    /// Reacts to one message of the stream.
    pub fn handle(&mut self, msg: StreamMsg) -> (step: PanelStep)
        ensures
            final(self)@ == after_message(old(self)@, msg@),
            step.hide_spinner == (match msg@ {
                StreamEvent::Token(_) => !old(self)@.got_first_token,
                StreamEvent::Error(_) => true,
                StreamEvent::Done => false,
            }),
            match msg@ {
                StreamEvent::Token(t) => step.append matches Some(a) && a@ == t,
                StreamEvent::Error(e) => step.append matches Some(a) && a@ == "Error: "@ + e,
                StreamEvent::Done => step.append is None,
            },
            step.stop == (msg@ is Done),
    {
        match msg {
            StreamMsg::Token(t) => {
                let hide = !self.got_first_token;
                if hide {
                    self.spinner_visible = false;
                    self.got_first_token = true;
                }
                self.text.append(t.as_str());
                PanelStep { hide_spinner: hide, append: Some(t), stop: false }
            },
            StreamMsg::Error(e) => {
                self.spinner_visible = false;
                let mut shown = String::from_str("Error: ");
                shown.append(e.as_str());
                self.text.append(shown.as_str());
                proof {
                    assert(old(self).text@ + ("Error: "@ + e@) =~= old(self).text@ + "Error: "@ + e@);
                }
                PanelStep { hide_spinner: true, append: Some(shown), stop: false }
            },
            StreamMsg::Done => {
                self.finished = true;
                PanelStep { hide_spinner: false, append: None, stop: true }
            },
        }
    }

    /// The text of the answer area.
    pub fn text(&self) -> (t: &String)
        ensures
            t@ == self@.text,
    {
        &self.text
    }
}

} // verus!
