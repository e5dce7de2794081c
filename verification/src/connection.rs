//! The life of one client connection as a state machine. The handler that
//! owns the socket performs the action it is given, reports what came of it
//! as the next event, and so on until the connection is closed. It serves one
//! request at a time: the next frame is read only after the response to the
//! last one was written.

use crate::codec::{
    decode_request, decode_spec, encode_reply, encode_status, reply_bytes, Command, Reply,
    Request, STATUS_BAD_REQUEST,
};
use vstd::prelude::*;

verus! {

/// Where a connection stands.
#[derive(Clone, Copy, Debug, PartialEq, Eq, Structural)]
pub enum ConnState {
    /// Waiting for the six bytes of the next request frame. A connection
    /// starts here, with `Action::Read` as its first action.
    ReadFrame,
    /// A command was handed to the command queue; waiting for its reply.
    Dispatch,
    /// A response is being written to the client.
    WriteResponse,
    /// The connection is over. No further reading or writing takes place.
    Closed,
}

/// What happened to the action that the connection asked for.
#[derive(Debug, PartialEq, Eq)]
pub enum Event {
    /// A whole request frame was read.
    Frame([u8; 6]),
    /// The read failed or ended short of six bytes, a clean end of the
    /// stream included.
    ReadFailed,
    /// The command queue did not take the command: the store is gone.
    QueueClosed,
    /// The store answered the command.
    Replied(Reply),
    /// The reply conduit was dropped before a reply came.
    ReplyDropped,
    /// The response was written in full.
    Written,
    /// The write failed.
    WriteFailed,
}

/// What the handler is to do next.
#[derive(Debug, PartialEq, Eq)]
pub enum Action {
    /// Read the next request frame.
    Read,
    /// Send the command to the store and wait for its reply.
    Dispatch(Command),
    /// Write these bytes to the client.
    Write(Vec<u8>),
    /// Release the connection.
    Close,
}

/// An action as a mathematical value.
pub enum ActionView {
    Read,
    Dispatch(Command),
    Write(Seq<u8>),
    Close,
}

impl View for Action {
    type V = ActionView;

    open spec fn view(&self) -> ActionView {
        match self {
            Action::Read => ActionView::Read,
            Action::Dispatch(command) => ActionView::Dispatch(*command),
            Action::Write(bytes) => ActionView::Write(bytes@),
            Action::Close => ActionView::Close,
        }
    }
}

/// The transition of a connection: the next state and the action to perform.
///
/// A frame that decodes to a command is dispatched; a frame with an
/// unrecognized opcode is answered with `STATUS_BAD_REQUEST` at once and
/// the connection stays open. A reply is written as the response that
/// encodes it. After a completed write the next frame is read. A failed
/// read, a closed queue, a dropped reply and a failed write close the
/// connection, and so does an event that the state does not wait for. A
/// closed connection stays closed.
pub open spec fn transition(state: ConnState, event: Event) -> (ConnState, ActionView) {
    match (state, event) {
        (ConnState::ReadFrame, Event::Frame(frame)) => match decode_spec(frame@) {
            Request::Command(command) => (ConnState::Dispatch, ActionView::Dispatch(command)),
            Request::Unrecognized { opcode } => (
                ConnState::WriteResponse,
                ActionView::Write(seq![STATUS_BAD_REQUEST]),
            ),
        },
        (ConnState::Dispatch, Event::Replied(reply)) => (
            ConnState::WriteResponse,
            ActionView::Write(reply_bytes(reply@)),
        ),
        (ConnState::WriteResponse, Event::Written) => (ConnState::ReadFrame, ActionView::Read),
        _ => (ConnState::Closed, ActionView::Close),
    }
}

/// Takes one step of a connection: from the state and the event that
/// arrived to the next state and the action to perform.
pub fn step(state: ConnState, event: Event) -> (next: (ConnState, Action))
    ensures
        next.0 == transition(state, event).0,
        next.1@ == transition(state, event).1,
{
    match state {
        ConnState::ReadFrame => match event {
            Event::Frame(frame) => match decode_request(&frame) {
                Request::Command(command) => (ConnState::Dispatch, Action::Dispatch(command)),
                Request::Unrecognized { opcode: _ } => (
                    ConnState::WriteResponse,
                    Action::Write(encode_status(STATUS_BAD_REQUEST)),
                ),
            },
            _ => (ConnState::Closed, Action::Close),
        },
        ConnState::Dispatch => match event {
            Event::Replied(reply) => (ConnState::WriteResponse, Action::Write(encode_reply(&reply))),
            _ => (ConnState::Closed, Action::Close),
        },
        ConnState::WriteResponse => match event {
            Event::Written => (ConnState::ReadFrame, Action::Read),
            _ => (ConnState::Closed, Action::Close),
        },
        ConnState::Closed => (ConnState::Closed, Action::Close),
    }
}

/// The state after the events of `events` arrived one after the other.
pub open spec fn state_after(state: ConnState, events: Seq<Event>) -> ConnState
    decreases events.len(),
{
    if events.len() == 0 {
        state
    } else {
        transition(state_after(state, events.drop_last()), events.last()).0
    }
}

/// A closed connection stays closed whatever arrives, and is never asked to
/// read or write again.
pub proof fn lemma_closed_is_final(events: Seq<Event>, event: Event)
    ensures
        transition(ConnState::Closed, event) == (ConnState::Closed, ActionView::Close),
        state_after(ConnState::Closed, events) == ConnState::Closed,
    decreases events.len(),
{
    if events.len() > 0 {
        lemma_closed_is_final(events.drop_last(), event);
    }
}

/// The event reports a failure: of the read, of the queue, of the reply
/// conduit or of the write.
pub open spec fn is_failure(event: Event) -> bool {
    event is ReadFailed || event is QueueClosed || event is ReplyDropped || event is WriteFailed
}

/// A failure closes the connection from every state.
pub proof fn lemma_failure_closes(state: ConnState, event: Event)
    requires
        is_failure(event),
    ensures
        transition(state, event) == (ConnState::Closed, ActionView::Close),
{
}

/// A frame with an unrecognized opcode is answered with the single byte
/// `STATUS_BAD_REQUEST` without reaching the store, and once that byte is
/// written the connection reads the next frame.
pub proof fn lemma_bad_request_keeps_open(frame: [u8; 6])
    requires
        decode_spec(frame@) is Unrecognized,
    ensures
        transition(ConnState::ReadFrame, Event::Frame(frame)) == (
            ConnState::WriteResponse,
            ActionView::Write(seq![STATUS_BAD_REQUEST]),
        ),
        state_after(ConnState::ReadFrame, seq![Event::Frame(frame), Event::Written])
            == ConnState::ReadFrame,
{
    let events = seq![Event::Frame(frame), Event::Written];
    assert(events.drop_last() =~= seq![Event::Frame(frame)]);
    assert(events.drop_last().drop_last() =~= Seq::<Event>::empty());
    reveal_with_fuel(state_after, 3);
}

/// One request takes the connection once round: a frame that carries a
/// command is dispatched, the reply to it is written as the response that
/// encodes it, and after the write the connection reads the next frame.
pub proof fn lemma_request_cycle(frame: [u8; 6], reply: Reply)
    requires
        decode_spec(frame@) is Command,
    ensures
        transition(ConnState::ReadFrame, Event::Frame(frame)) == (
            ConnState::Dispatch,
            ActionView::Dispatch(decode_spec(frame@)->Command_0),
        ),
        transition(ConnState::Dispatch, Event::Replied(reply)) == (
            ConnState::WriteResponse,
            ActionView::Write(reply_bytes(reply@)),
        ),
        transition(ConnState::WriteResponse, Event::Written) == (
            ConnState::ReadFrame,
            ActionView::Read,
        ),
{
}

} // verus!
