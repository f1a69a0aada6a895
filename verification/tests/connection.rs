use tcp2http::connection::{try_parse, Machine, Next, Outcome, ParseState, State};

#[test]
fn try_parse_outcomes() {
    assert_eq!(try_parse(b"GET / HTTP/1.1\r\nHost: localhost\r\n\r\n"), ParseState::Complete(35));
    assert_eq!(try_parse(b"GET / HTTP/1.1\r\n"), ParseState::Partial);
    assert_eq!(try_parse(b""), ParseState::Partial);
    assert_eq!(try_parse(b"GET / HTTP/9.9\r\n\r\n"), ParseState::Error);
}

#[test]
fn machine_reads_parses_and_answers() {
    let mut m = Machine::new();
    assert_eq!(m.state, State::Idle);
    assert_eq!(m.step(Outcome::Nothing, true), Next::Again);
    assert_eq!(m.state, State::ReadingHead);
    assert_eq!(m.step(Outcome::Pending, true), Next::Wait);
    assert_eq!(m.state, State::ReadingHead);
    assert_eq!(m.step(Outcome::Ready(16), true), Next::Again);
    assert_eq!(m.state, State::ParsingHead);
    assert_eq!(m.last_parse_pos, 16);
    assert_eq!(m.step(Outcome::Parsed(ParseState::Partial), true), Next::Again);
    assert_eq!(m.state, State::ReadingHead);
    assert_eq!(m.step(Outcome::Ready(19), true), Next::Again);
    assert_eq!(m.step(Outcome::Parsed(ParseState::Complete(35)), true), Next::Consume(35));
    assert_eq!(m.state, State::WritingResponse);
    assert_eq!(m.step(Outcome::Ready(10), false), Next::Again);
    assert_eq!(m.state, State::WritingResponse);
    assert_eq!(m.step(Outcome::Ready(0), true), Next::Again);
    assert_eq!(m.state, State::Flushing);
    assert_eq!(m.last_parse_pos, 0);
    assert_eq!(m.step(Outcome::Ready(0), true), Next::Again);
    assert_eq!(m.state, State::Idle);
}

#[test]
fn machine_closes_on_end_of_stream() {
    let mut m = Machine::new();
    m.step(Outcome::Nothing, true);
    assert_eq!(m.step(Outcome::Ready(0), true), Next::Again);
    assert_eq!(m.state, State::Closing);
    assert_eq!(m.step(Outcome::Pending, true), Next::Wait);
    assert_eq!(m.state, State::Closing);
    assert_eq!(m.step(Outcome::Failed, true), Next::Again);
    assert_eq!(m.state, State::Closed);
    assert_eq!(m.step(Outcome::Nothing, true), Next::Finished);
    assert_eq!(m.state, State::Closed);
}

#[test]
fn machine_closes_on_failures() {
    let mut m = Machine { state: State::ReadingHead, last_parse_pos: 3 };
    m.step(Outcome::Failed, true);
    assert_eq!(m.state, State::Closing);

    let mut m = Machine { state: State::ParsingHead, last_parse_pos: 3 };
    m.step(Outcome::Parsed(ParseState::Error), true);
    assert_eq!(m.state, State::Closing);

    let mut m = Machine { state: State::WritingResponse, last_parse_pos: 3 };
    m.step(Outcome::Failed, false);
    assert_eq!(m.state, State::Closing);

    let mut m = Machine { state: State::Flushing, last_parse_pos: 3 };
    assert_eq!(m.step(Outcome::Pending, true), Next::Wait);
    m.step(Outcome::Failed, true);
    assert_eq!(m.state, State::Closing);
    assert_eq!(m.last_parse_pos, 3);
}
