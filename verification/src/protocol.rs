//! The shared vocabulary: messages, the operations a client sends to the
//! engine (`Op`), the events the engine reports back (`Event`), and the
//! three-level shape of a conversation (`Thread` → `Turn` → `Item`).

use vstd::prelude::*;

verus! {

/// Who speaks a message.
#[derive(Debug, Clone, Copy, PartialEq, Eq, Structural)]
pub enum Role {
    System,
    User,
    Assistant,
}

/// One message of a conversation.
#[derive(Debug, Clone, PartialEq, Eq)]
pub struct Message {
    pub role: Role,
    pub content: String,
}

pub struct MessageView {
    pub role: Role,
    pub content: Seq<char>,
}

impl View for Message {
    type V = MessageView;

    open spec fn view(&self) -> MessageView {
        MessageView { role: self.role, content: self.content@ }
    }
}

pub open spec fn messages_view(v: Seq<Message>) -> Seq<MessageView> {
    v.map_values(|m: Message| m@)
}

impl Message {
    /// A copy of this message.
    pub fn duplicate(&self) -> (m: Message)
        ensures
            m@ == self@,
    {
        Message { role: self.role, content: self.content.clone() }
    }
}

/// From client to engine.
#[derive(Debug)]
pub enum Op {
    /// The user submitted some input.
    UserInput { text: String },
    /// The user wants to interrupt the current turn.
    Interrupt,
    /// Close the session.
    Shutdown,
}

pub enum OpView {
    UserInput { text: Seq<char> },
    Interrupt,
    Shutdown,
}

impl View for Op {
    type V = OpView;

    open spec fn view(&self) -> OpView {
        match self {
            Op::UserInput { text } => OpView::UserInput { text: text@ },
            Op::Interrupt => OpView::Interrupt,
            Op::Shutdown => OpView::Shutdown,
        }
    }
}

/// From engine to client.
#[derive(Debug, Clone, PartialEq)]
pub enum Event {
    /// A turn begins.
    TurnBegin { turn: usize },
    /// A piece of the model's text (streamed, arrives many times).
    AgentMessageDelta(String),
    /// The engine is about to run a tool call.
    ToolCallRecord { turn: usize, call_id: String, name: String },
    /// A turn is over; the full text of its answer.
    TurnComplete { turn: usize, text: String },
    /// Something failed, but the session goes on.
    Error(String),
    /// The engine has stopped.
    Shutdown,
}

pub enum EventView {
    TurnBegin { turn: int },
    AgentMessageDelta(Seq<char>),
    ToolCallRecord { turn: int, call_id: Seq<char>, name: Seq<char> },
    TurnComplete { turn: int, text: Seq<char> },
    Error(Seq<char>),
    Shutdown,
}

impl View for Event {
    type V = EventView;

    open spec fn view(&self) -> EventView {
        match self {
            Event::TurnBegin { turn } => EventView::TurnBegin { turn: *turn as int },
            Event::AgentMessageDelta(s) => EventView::AgentMessageDelta(s@),
            Event::ToolCallRecord { turn, call_id, name } => EventView::ToolCallRecord {
                turn: *turn as int,
                call_id: call_id@,
                name: name@,
            },
            Event::TurnComplete { turn, text } => EventView::TurnComplete {
                turn: *turn as int,
                text: text@,
            },
            Event::Error(s) => EventView::Error(s@),
            Event::Shutdown => EventView::Shutdown,
        }
    }
}

pub open spec fn events_view(v: Seq<Event>) -> Seq<EventView> {
    v.map_values(|e: Event| e@)
}

/// One atomic record of what happened in a turn.
#[derive(Debug, Clone, PartialEq)]
pub enum Item {
    /// The user's input.
    UserInput { text: String },
    /// A message of the conversation.
    ThreadMessage { message: Message },
    /// The model decided to call a function (name and JSON arguments).
    FunctionCall { name: String, arguments: String },
    /// A tool call the engine is about to run.
    ToolCall { call_id: String, name: String, arguments: String },
    /// The result of running a tool.
    ToolResult { call_id: String, output: String, is_error: bool },
    /// A kind of item this version does not know; it is kept, not dropped.
    Unknown,
}

pub enum ItemView {
    UserInput { text: Seq<char> },
    ThreadMessage { message: MessageView },
    FunctionCall { name: Seq<char>, arguments: Seq<char> },
    ToolCall { call_id: Seq<char>, name: Seq<char>, arguments: Seq<char> },
    ToolResult { call_id: Seq<char>, output: Seq<char>, is_error: bool },
    Unknown,
}

impl View for Item {
    type V = ItemView;

    open spec fn view(&self) -> ItemView {
        match self {
            Item::UserInput { text } => ItemView::UserInput { text: text@ },
            Item::ThreadMessage { message } => ItemView::ThreadMessage { message: message@ },
            Item::FunctionCall { name, arguments } => ItemView::FunctionCall {
                name: name@,
                arguments: arguments@,
            },
            Item::ToolCall { call_id, name, arguments } => ItemView::ToolCall {
                call_id: call_id@,
                name: name@,
                arguments: arguments@,
            },
            Item::ToolResult { call_id, output, is_error } => ItemView::ToolResult {
                call_id: call_id@,
                output: output@,
                is_error: *is_error,
            },
            Item::Unknown => ItemView::Unknown,
        }
    }
}

/// One round from the user's input to the model's stop.
#[derive(Debug, Clone, PartialEq)]
pub struct Turn {
    /// Its number in the thread, from 1.
    pub index: usize,
    /// What the user said.
    pub user_input: Option<String>,
    /// What happened in it, in order.
    pub items: Vec<Item>,
}

/// A conversation thread.
#[derive(Debug, Clone, PartialEq)]
pub struct Thread {
    pub id: String,
    /// A title to show the user (may be empty until the model names it).
    pub title: Option<String>,
    pub turns: Vec<Turn>,
}

impl Thread {
    /// A thread with the given id, no title and no turns.
    pub fn new(id: String) -> (t: Self)
        ensures
            t.id@ == id@,
            t.title is None,
            t.turns@.len() == 0,
    {
        Thread { id, title: None, turns: Vec::new() }
    }
}

} // verus!
