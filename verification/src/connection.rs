use crate::parse::parser::{request_spec, HeaderMap, Request, Status};
use vstd::prelude::*;

verus! {

/// Where a connection is in its life: reading a request head, answering it, and closing.
#[derive(Debug, PartialEq, Eq, Structural, Clone, Copy)]
pub enum State {
    Idle,
    ReadingHead,
    ParsingHead,
    WritingResponse,
    Flushing,
    Closing,
    Closed,
}

/// What parsing the bytes read so far gave: a complete head of that many bytes, a head that
/// needs more bytes, or bytes that are no request.
#[derive(Debug, PartialEq, Eq, Structural, Clone, Copy)]
pub enum ParseState {
    Complete(usize),
    Partial,
    Error,
}

/// What the I/O that a state calls for came to: finished with a count of bytes, failed
/// (or, when reading, hit the end of the stream with a count of 0), not ready yet, the
/// result of a parse, or nothing (the states that do no I/O).
#[derive(Debug, PartialEq, Eq, Structural, Clone, Copy)]
pub enum Outcome {
    Ready(usize),
    Failed,
    Pending,
    Parsed(ParseState),
    Nothing,
}

/// What the driver of a connection does after a step: go on with the next state, drop that
/// many bytes from the front of the read buffer and go on, wait to be woken, or finish.
#[derive(Debug, PartialEq, Eq, Structural, Clone, Copy)]
pub enum Next {
    Again,
    Consume(usize),
    Wait,
    Finished,
}

/// The outcome fits the state: the I/O it reports is the I/O that the state calls for.
pub open spec fn fits(state: State, outcome: Outcome) -> bool {
    match state {
        State::Idle | State::Closed => outcome is Nothing,
        State::ParsingHead => outcome is Parsed,
        _ => outcome is Ready || outcome is Failed || outcome is Pending,
    }
}

/// The rules of a connection: the state that follows `state` on `outcome`, and what the
/// driver does next.  `write_empty` says whether the response was written out in full.
pub open spec fn transition(state: State, outcome: Outcome, write_empty: bool) -> (State, Next) {
    match state {
        State::Idle => (State::ReadingHead, Next::Again),
        State::ReadingHead => match outcome {
            Outcome::Ready(n) => if n == 0 {
                (State::Closing, Next::Again)
            } else {
                (State::ParsingHead, Next::Again)
            },
            Outcome::Pending => (State::ReadingHead, Next::Wait),
            _ => (State::Closing, Next::Again),
        },
        State::ParsingHead => match outcome {
            Outcome::Parsed(ParseState::Complete(n)) => (State::WritingResponse, Next::Consume(n)),
            Outcome::Parsed(ParseState::Partial) => (State::ReadingHead, Next::Again),
            _ => (State::Closing, Next::Again),
        },
        State::WritingResponse => match outcome {
            Outcome::Ready(_) => if write_empty {
                (State::Flushing, Next::Again)
            } else {
                (State::WritingResponse, Next::Again)
            },
            Outcome::Pending => (State::WritingResponse, Next::Wait),
            _ => (State::Closing, Next::Again),
        },
        State::Flushing => match outcome {
            Outcome::Ready(_) => (State::Idle, Next::Again),
            Outcome::Pending => (State::Flushing, Next::Wait),
            _ => (State::Closing, Next::Again),
        },
        State::Closing => match outcome {
            Outcome::Pending => (State::Closing, Next::Wait),
            _ => (State::Closed, Next::Again),
        },
        State::Closed => (State::Closed, Next::Finished),
    }
}

/// Parses the request head at the front of `buf`.
pub fn try_parse(buf: &[u8]) -> (r: ParseState)
    requires
        !request_spec(buf@, None, None, None, Map::empty()).fault,
    ensures
        r == (match request_spec(buf@, None, None, None, Map::empty()).res {
            Ok(Status::Complete(n)) => ParseState::Complete(n),
            Ok(Status::Partial) => ParseState::Partial,
            Err(_) => ParseState::Error,
        }),
{
    let mut header = HeaderMap::new();
    let mut req = Request::new(&mut header);
    match req.parse_head(buf) {
        Ok(Status::Complete(n)) => ParseState::Complete(n),
        Ok(Status::Partial) => ParseState::Partial,
        Err(_) => ParseState::Error,
    }
}

/// The decisions of a connection: its state, and the count of bytes that the last read or
/// write handled.
#[derive(Debug)]
pub struct Machine {
    pub state: State,
    pub last_parse_pos: usize,
}

impl Machine {
    /// A connection that has not read anything yet.
    pub fn new() -> (r: Self)
        ensures
            r.state == State::Idle,
            r.last_parse_pos == 0,
    {
        Machine { state: State::Idle, last_parse_pos: 0 }
    }

    /// Takes one step on `outcome`, the result of the I/O that the current state called for
    /// (see `transition`); a read of `n > 0` bytes, and a write that empties the response,
    /// record their count.
    pub fn step(&mut self, outcome: Outcome, write_empty: bool) -> (r: Next)
        requires
            fits(old(self).state, outcome),
        ensures
            (final(self).state, r) == transition(old(self).state, outcome, write_empty),
            final(self).last_parse_pos == (match (old(self).state, outcome) {
                (State::ReadingHead, Outcome::Ready(n)) => if n > 0 {
                    n
                } else {
                    old(self).last_parse_pos
                },
                (State::WritingResponse, Outcome::Ready(n)) => if write_empty {
                    n
                } else {
                    old(self).last_parse_pos
                },
                _ => old(self).last_parse_pos,
            }),
    {
        match self.state {
            State::Idle => {
                self.state = State::ReadingHead;
                Next::Again
            },
            State::ReadingHead => match outcome {
                Outcome::Ready(n) => {
                    if n == 0 {
                        self.state = State::Closing;
                    } else {
                        self.last_parse_pos = n;
                        self.state = State::ParsingHead;
                    }
                    Next::Again
                },
                Outcome::Pending => Next::Wait,
                _ => {
                    self.state = State::Closing;
                    Next::Again
                },
            },
            State::ParsingHead => match outcome {
                Outcome::Parsed(ParseState::Complete(n)) => {
                    self.state = State::WritingResponse;
                    Next::Consume(n)
                },
                Outcome::Parsed(ParseState::Partial) => {
                    self.state = State::ReadingHead;
                    Next::Again
                },
                _ => {
                    self.state = State::Closing;
                    Next::Again
                },
            },
            State::WritingResponse => match outcome {
                Outcome::Ready(n) => {
                    if write_empty {
                        self.last_parse_pos = n;
                        self.state = State::Flushing;
                    }
                    Next::Again
                },
                Outcome::Pending => Next::Wait,
                _ => {
                    self.state = State::Closing;
                    Next::Again
                },
            },
            State::Flushing => match outcome {
                Outcome::Ready(_) => {
                    self.state = State::Idle;
                    Next::Again
                },
                Outcome::Pending => Next::Wait,
                _ => {
                    self.state = State::Closing;
                    Next::Again
                },
            },
            State::Closing => match outcome {
                Outcome::Pending => Next::Wait,
                _ => {
                    self.state = State::Closed;
                    Next::Again
                },
            },
            State::Closed => Next::Finished,
        }
    }
}

/// An I/O that is not ready leaves the state as it is, and the driver waits.
pub proof fn law_pending_waits(state: State, write_empty: bool)
    requires
        fits(state, Outcome::Pending),
    ensures
        transition(state, Outcome::Pending, write_empty) == (state, Next::Wait),
{
}

/// A failed read, write or flush, a read of nothing and a head that is no request all lead
/// to closing the connection.
pub proof fn law_failure_closes(state: State, outcome: Outcome, write_empty: bool)
    requires
        fits(state, outcome),
        outcome == Outcome::Failed || (state == State::ReadingHead && outcome == Outcome::Ready(0))
            || outcome == Outcome::Parsed(ParseState::Error),
        state != State::Closing,
    ensures
        transition(state, outcome, write_empty) == (State::Closing, Next::Again),
{
}

/// A closed connection stays closed and is finished.
pub proof fn law_closed_is_final(outcome: Outcome, write_empty: bool)
    ensures
        transition(State::Closed, outcome, write_empty) == (State::Closed, Next::Finished),
{
}

/// A closing connection either waits or is closed, whatever the shutdown gave.
pub proof fn law_closing_closes(outcome: Outcome, write_empty: bool)
    requires
        fits(State::Closing, outcome),
    ensures
        transition(State::Closing, outcome, write_empty).0 == State::Closed || transition(
            State::Closing,
            outcome,
            write_empty,
        ) == (State::Closing, Next::Wait),
{
}

/// A complete head drops exactly its bytes from the buffer and moves on to the response.
pub proof fn law_complete_consumes(n: usize, write_empty: bool)
    ensures
        transition(State::ParsingHead, Outcome::Parsed(ParseState::Complete(n)), write_empty) == (
            State::WritingResponse,
            Next::Consume(n),
        ),
{
}

} // verus!
