use tcp2http::parse::error::ParseError;
use tcp2http::parse::iter::ParseBuffer;
use tcp2http::parse::parser::Status;

fn run_next_test() -> Result<Status<()>, ParseError> {
    let mut buffer = ParseBuffer::new(b"ab");
    let b = match buffer.next_byte() {
        Some(b) => b,
        None => return Ok(Status::Partial),
    };
    assert_eq!(b, b'a');
    assert_eq!(buffer.cursor, 1);

    let b = match buffer.next_byte() {
        Some(b) => b,
        None => return Ok(Status::Partial),
    };
    assert_eq!(b, b'b');
    assert_eq!(buffer.cursor, 2);

    Ok(Status::Complete(()))
}

#[test]
fn test_next_macro() {
    let result = run_next_test();
    assert_eq!(result, Ok(Status::Complete(())));
}

fn run_next_partial_test() -> Result<Status<()>, ParseError> {
    let mut buffer = ParseBuffer::new(b"");
    let _ = match buffer.next_byte() {
        Some(b) => b,
        None => return Ok(Status::Partial),
    };
    Ok(Status::Complete(()))
}

#[test]
fn test_next_partial() {
    let result = run_next_partial_test();
    assert_eq!(result, Ok(Status::Partial));
}
