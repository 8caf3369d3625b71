//! What a running instance and those who watch it tell each other.

use crate::progress;
use crate::run;
use crate::run::{Outcome, Refresh};
use crate::text;
use vstd::prelude::*;

verus! {

/// What one side tells the other.
#[derive(Debug, PartialEq, Eq)]
pub enum Message {
    Output(String),
    Progress { current: u32, total: u32 },
    Exit(i32),
    Restart,
    Ping,
    Pong,
}

/// A message in its JSON form, as it goes over the socket: one line.
pub open spec fn framed(json: Seq<char>) -> Seq<char> {
    json.push('\n')
}

/// A message in its JSON form, as it goes over the socket.
pub fn frame(json: &str) -> (r: String)
    ensures
        r@ == framed(json@),
{
    let mut r: String = json.to_owned();
    r.push('\n');
    r
}

/// What comes from the instance that is watched.
pub enum ServerEvent {
    /// A line, without its end.
    Line(String),
    /// What such a line says.
    Message(Message),
    /// The end of all lines.
    Closed,
}

/// What one who watches does next.
pub enum WatcherAction {
    /// Wait for the next line.
    ReadOn,
    /// Find out what the line says.
    Parse(String),
    /// Print the text, then wait for the next line.
    Print(String),
    /// Print the text, then end with the exit code.
    Leave { text: String, exit_code: i32 },
}

/// What a message makes one who watches print.
pub open spec fn shown(message: Message) -> Seq<char> {
    match message {
        Message::Output(text) => text@,
        Message::Progress { current, total } => progress::progress_text(current, total),
        Message::Exit(_) => progress::clear_text(),
        _ => Seq::empty(),
    }
}

/// `action` is what one who watches does about `event`.
pub open spec fn is_step(event: ServerEvent, action: WatcherAction) -> bool {
    match event {
        ServerEvent::Line(line) => if line@.len() == 0 {
            action is ReadOn
        } else {
            action matches WatcherAction::Parse(l) && l@ == line@
        },
        ServerEvent::Message(message) => match message {
            Message::Output(_) | Message::Progress { .. } => {
                action matches WatcherAction::Print(text) && text@ == shown(message)
            },
            Message::Exit(code) => {
                action matches WatcherAction::Leave { text, exit_code } && text@ == shown(message)
                    && exit_code == code
            },
            _ => action is ReadOn,
        },
        ServerEvent::Closed => {
            action matches WatcherAction::Leave { text, exit_code } && text@.len() == 0
                && exit_code == 0
        },
    }
}

/// The next step of one who watches a running instance.
pub fn attach_step(event: ServerEvent) -> (r: WatcherAction)
    ensures
        is_step(event, r),
        match event {
            ServerEvent::Line(line) => if line@.len() == 0 {
                r is ReadOn
            } else {
                r matches WatcherAction::Parse(l) && l@ == line@
            },
            ServerEvent::Message(message) => match message {
                Message::Output(_) | Message::Progress { .. } => {
                    r matches WatcherAction::Print(text) && text@ == shown(message)
                },
                Message::Exit(code) => {
                    r matches WatcherAction::Leave { text, exit_code } && text@ == shown(message)
                        && exit_code == code
                },
                _ => r is ReadOn,
            },
            ServerEvent::Closed => {
                r matches WatcherAction::Leave { text, exit_code } && text@.len() == 0 && exit_code
                    == 0
            },
        },
{
    match event {
        ServerEvent::Line(line) => if line.as_str().is_empty() {
            WatcherAction::ReadOn
        } else {
            WatcherAction::Parse(line)
        },
        ServerEvent::Message(message) => match message {
            Message::Output(text) => WatcherAction::Print(text),
            Message::Progress { current, total } => WatcherAction::Print(
                progress::render_progress(current, total),
            ),
            Message::Exit(code) => WatcherAction::Leave {
                text: progress::clear_line(),
                exit_code: code,
            },
            _ => WatcherAction::ReadOn,
        },
        ServerEvent::Closed => WatcherAction::Leave { text: String::new(), exit_code: 0 },
    }
}

/// What happens at the socket that a running instance listens on.
pub enum ListenEvent {
    /// Someone connected; what the first line said, if it could be read and understood.
    Connected(Option<Message>),
    /// Nobody is waiting to be let in.
    Idle,
    /// The socket is of no use any more.
    Failed,
}

/// What a running instance does about it.
pub enum ListenAction {
    /// Send the message back.
    Answer(Message),
    /// Run the command once more when it has ended.
    Restart,
    /// Tell the one who connected all that happens.
    Watch,
    /// Wait a little.
    Sleep,
    /// Listen no longer.
    Stop,
}

/// What a running instance does at its socket.
pub open spec fn reaction(event: ListenEvent) -> ListenAction {
    match event {
        ListenEvent::Connected(Some(Message::Ping)) => ListenAction::Answer(Message::Pong),
        ListenEvent::Connected(Some(Message::Restart)) => ListenAction::Restart,
        ListenEvent::Connected(_) => ListenAction::Watch,
        ListenEvent::Idle => ListenAction::Sleep,
        ListenEvent::Failed => ListenAction::Stop,
    }
}

/// The next step of a running instance at its socket.
pub fn listen_step(event: ListenEvent) -> (r: ListenAction)
    ensures
        r == reaction(event),
{
    match event {
        ListenEvent::Connected(Some(Message::Ping)) => ListenAction::Answer(Message::Pong),
        ListenEvent::Connected(Some(Message::Restart)) => ListenAction::Restart,
        ListenEvent::Connected(_) => ListenAction::Watch,
        ListenEvent::Idle => ListenAction::Sleep,
        ListenEvent::Failed => ListenAction::Stop,
    }
}

/// An answer to a ping that shows that an instance is running; no answer shows nothing.
pub open spec fn shows_life(answer: Option<Message>) -> bool {
    answer == Some(Message::Pong)
}

/// Whether the answer to a ping shows that an instance is running.
pub fn is_alive(answer: &Option<Message>) -> (r: bool)
    ensures
        r == shows_life(*answer),
{
    match answer {
        Some(Message::Pong) => true,
        _ => false,
    }
}

impl Refresh {
    /// What to tell those who watch.
    pub fn message(&self) -> (r: Message)
        ensures
            r == (Message::Progress { current: self.current, total: self.total }),
    {
        Message::Progress { current: self.current, total: self.total }
    }
}

/// The messages tell of the output, piece by piece, and then of the exit code.
pub open spec fn tells(messages: Seq<Message>, output: Seq<Seq<char>>, exit_code: i32) -> bool {
    &&& messages.len() == output.len() + 1
    &&& forall|i: int|
        0 <= i < output.len() ==> (#[trigger] messages[i] matches Message::Output(text) && text@
            == output[i])
    &&& messages.last() == Message::Exit(exit_code)
}

/// What messages make one who watches print, one after the other.
pub open spec fn all_shown(messages: Seq<Message>) -> Seq<Seq<char>> {
    messages.map_values(|m: Message| shown(m))
}

impl Outcome {
    /// What to tell those who watch: the output, then the exit code.
    pub fn messages(&self) -> (r: Vec<Message>)
        ensures
            tells(r@, text::texts(self.output@), self.exit_code),
    {
        let mut r: Vec<Message> = Vec::new();
        let mut i: usize = 0;
        while i < self.output.len()
            invariant
                i <= self.output@.len(),
                r@.len() == i,
                forall|j: int|
                    0 <= j < i ==> (#[trigger] r@[j] matches Message::Output(text) && text@
                        == self.output@[j]@),
            decreases self.output@.len() - i,
        {
            r.push(Message::Output(self.output[i].clone()));
            i = i + 1;
        }
        r.push(Message::Exit(self.exit_code));
        r
    }
}

/// Those who watch see the same progress as the one who runs the command.
pub proof fn law_watchers_see_the_same_progress(st: run::State)
    ensures
        shown(Message::Progress { current: st.test_count, total: st.total() })
            == progress::progress_text(st.test_count, st.total()),
{
}

/// Those who watch see the same output as the one who runs the command, and then their line of
/// progress is cleared too.
pub proof fn law_watchers_see_the_same_output(
    messages: Seq<Message>,
    output: Seq<Seq<char>>,
    exit_code: i32,
)
    requires
        tells(messages, output, exit_code),
    ensures
        all_shown(messages) == output.push(progress::clear_text()),
{
    assert(all_shown(messages) =~= output.push(progress::clear_text())) by {
        assert forall|i: int| 0 <= i < output.len() implies shown(#[trigger] messages[i])
            == output[i] by {}
    }
}

/// An instance that listens is found to be running.
pub proof fn law_listening_shows_life(answer: Message)
    requires
        reaction(ListenEvent::Connected(Some(Message::Ping))) == ListenAction::Answer(answer),
    ensures
        shows_life(Some(answer)),
{
}

/// Messages without a newline of their own stay apart on the socket: each comes as one line.
pub proof fn law_messages_stay_apart(messages: Seq<Seq<char>>)
    requires
        forall|i: int| 0 <= i < messages.len() ==> !(#[trigger] messages[i]).contains('\n'),
    ensures
        ({
            let lines = messages.map_values(|json: Seq<char>| framed(json));
            run::is_split(run::joined(lines), lines, Seq::empty())
        }),
{
    let lines = messages.map_values(|json: Seq<char>| framed(json));
    assert forall|i: int| 0 <= i < lines.len() implies run::is_line(#[trigger] lines[i]) by {
        assert(!messages[i].contains('\n'));
        assert(lines[i].drop_last() =~= messages[i]);
    }
    assert(run::joined(lines) + Seq::<char>::empty() =~= run::joined(lines));
}

/// One who watches prints the output as it comes, and the progress as the one who runs the command
/// shows it: a bar where the total is known, else the count, where it is not zero.
pub proof fn law_watcher_prints_what_is_told(
    output: String,
    current: u32,
    total: u32,
    action: WatcherAction,
)
    ensures
        is_step(ServerEvent::Message(Message::Output(output)), action) ==> (action
            matches WatcherAction::Print(text) && text@ == output@),
        is_step(ServerEvent::Message(Message::Progress { current, total }), action) ==> (action
            matches WatcherAction::Print(text) && text@ == progress::progress_text(current, total)),
{
}

/// One who watches leaves with the exit code that is told, and with zero where all ends untold;
/// nothing else makes them leave.
pub proof fn law_watcher_leaves_at_the_end(event: ServerEvent, code: i32, action: WatcherAction)
    requires
        is_step(event, action),
    ensures
        event == ServerEvent::Message(Message::Exit(code)) ==> (action matches WatcherAction::Leave {
            text,
            exit_code,
        } && exit_code == code && text@ == progress::clear_text()),
        event is Closed ==> (action matches WatcherAction::Leave { text, exit_code } && exit_code
            == 0 && text@ == Seq::<char>::empty()),
        action is Leave ==> event is Closed || (event matches ServerEvent::Message(m) && m is Exit),
{
    if event is Closed {
        assert(action->Leave_text@ =~= Seq::<char>::empty());
    }
}

/// Every line that is not empty is looked into, as it came; every other message, and an empty line,
/// is passed over.
pub proof fn law_watcher_looks_into_lines(line: String, action: WatcherAction)
    ensures
        is_step(ServerEvent::Line(line), action) && line@.len() > 0 ==> (action
            matches WatcherAction::Parse(l) && l@ == line@),
        is_step(ServerEvent::Line(line), action) && line@.len() == 0 ==> action is ReadOn,
        is_step(ServerEvent::Message(Message::Restart), action) ==> action is ReadOn,
        is_step(ServerEvent::Message(Message::Ping), action) ==> action is ReadOn,
        is_step(ServerEvent::Message(Message::Pong), action) ==> action is ReadOn,
{
}

/// A running instance answers a ping, takes note of a restart, and lets everyone else watch,
/// whatever they said or left unsaid.
pub proof fn law_who_connects_is_served(message: Message)
    ensures
        reaction(ListenEvent::Connected(Some(Message::Ping))) == ListenAction::Answer(
            Message::Pong,
        ),
        reaction(ListenEvent::Connected(Some(Message::Restart))) == ListenAction::Restart,
        !(message is Ping) && !(message is Restart) ==> reaction(
            ListenEvent::Connected(Some(message)),
        ) == ListenAction::Watch,
        reaction(ListenEvent::Connected(None)) == ListenAction::Watch,
        reaction(ListenEvent::Idle) == ListenAction::Sleep,
        reaction(ListenEvent::Failed) == ListenAction::Stop,
{
}

/// Only the answer to a ping shows that an instance is running.
pub proof fn law_only_an_answer_shows_life(answer: Option<Message>)
    ensures
        shows_life(answer) <==> (answer matches Some(m) && m is Pong),
{
}

/// A message goes over the socket whole, and one newline behind it.
pub proof fn law_message_goes_whole(json: Seq<char>)
    ensures
        framed(json) == json + seq!['\n'],
{
    assert(framed(json) =~= json + seq!['\n']);
}

/// Those who watch are told each piece of the output, in order, and then the exit code.
pub proof fn law_watchers_are_told_all(
    messages: Seq<Message>,
    output: Seq<Seq<char>>,
    exit_code: i32,
    i: int,
)
    requires
        tells(messages, output, exit_code),
    ensures
        messages.len() == output.len() + 1,
        0 <= i < output.len() ==> (messages[i] matches Message::Output(text) && text@ == output[i]),
        messages[output.len() as int] == Message::Exit(exit_code),
{
}

} // verus!
