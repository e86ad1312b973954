use networking::frame::{parse_command, ParseResult};

const PING: &[u8] = b"*2\r\n$4\r\nping\r\n$4\r\npong\r\n";

fn ping_args() -> Vec<Vec<u8>> {
    vec![b"ping".to_vec(), b"pong".to_vec()]
}

#[test]
fn frames_ping_request() {
    assert_eq!(parse_command(PING), ParseResult::Complete(ping_args(), 24));
}

#[test]
fn first_piece_of_split_request_is_incomplete() {
    assert_eq!(parse_command(b"*2\r\n$4\r\nping\r\n"), ParseResult::Incomplete);
}

#[test]
fn every_proper_prefix_is_incomplete() {
    for k in 0..PING.len() {
        assert_eq!(parse_command(&PING[..k]), ParseResult::Incomplete, "prefix of {} bytes", k);
    }
}

#[test]
fn bytes_after_a_request_are_left() {
    let mut buf = PING.to_vec();
    buf.extend_from_slice(b"*1\r\n$4\r\nping\r\n");
    assert_eq!(parse_command(&buf), ParseResult::Complete(ping_args(), 24));
    assert_eq!(parse_command(&buf[24..]), ParseResult::Complete(vec![b"ping".to_vec()], 14));
}

#[test]
fn empty_bulk_string() {
    assert_eq!(parse_command(b"*1\r\n$0\r\n\r\n"), ParseResult::Complete(vec![vec![]], 10));
}

#[test]
fn bulk_may_hold_crlf() {
    assert_eq!(
        parse_command(b"*1\r\n$4\r\na\r\nb\r\n"),
        ParseResult::Complete(vec![b"a\r\nb".to_vec()], 14)
    );
}

#[test]
fn not_an_array_is_invalid() {
    assert_eq!(parse_command(b"+OK\r\n"), ParseResult::Invalid);
    assert_eq!(parse_command(b"ping\r\n"), ParseResult::Invalid);
}

#[test]
fn empty_array_is_invalid() {
    assert_eq!(parse_command(b"*0\r\n"), ParseResult::Invalid);
}

#[test]
fn count_without_digits_is_invalid() {
    assert_eq!(parse_command(b"*\r\n"), ParseResult::Invalid);
    assert_eq!(parse_command(b"*-1\r\n"), ParseResult::Invalid);
    assert_eq!(parse_command(b"*2x"), ParseResult::Invalid);
}

#[test]
fn cr_without_lf_is_invalid() {
    assert_eq!(parse_command(b"*1\rX"), ParseResult::Invalid);
}

#[test]
fn bulk_without_marker_is_invalid() {
    assert_eq!(parse_command(b"*1\r\n+ping\r\n"), ParseResult::Invalid);
}

#[test]
fn bulk_with_wrong_terminator_is_invalid() {
    assert_eq!(parse_command(b"*1\r\n$4\r\npingXY"), ParseResult::Invalid);
}

#[test]
fn bulk_shorter_than_declared_is_incomplete() {
    assert_eq!(parse_command(b"*1\r\n$10\r\nping\r\n"), ParseResult::Incomplete);
}

#[test]
fn largest_declared_length() {
    assert_eq!(parse_command(b"*536870912\r\n"), ParseResult::Incomplete);
    assert_eq!(parse_command(b"*536870913\r\n"), ParseResult::Invalid);
    assert_eq!(parse_command(b"*1\r\n$536870913\r\n"), ParseResult::Invalid);
}

#[test]
fn empty_buffer_is_incomplete() {
    assert_eq!(parse_command(b""), ParseResult::Incomplete);
}

#[test]
fn three_arguments_with_trailing_bytes() {
    let mut buf = b"*3\r\n$3\r\nset\r\n$3\r\nkey\r\n$10\r\n0123456789\r\n".to_vec();
    let len = buf.len();
    buf.extend_from_slice(b"*1\r\n");
    assert_eq!(
        parse_command(&buf),
        ParseResult::Complete(vec![b"set".to_vec(), b"key".to_vec(), b"0123456789".to_vec()], len)
    );
    assert_eq!(len, 39);
}

#[test]
fn twelve_arguments() {
    let mut buf = b"*12\r\n".to_vec();
    let mut args = Vec::new();
    for i in 0..12u8 {
        buf.extend_from_slice(b"$1\r\n");
        buf.push(b'a' + i);
        buf.extend_from_slice(b"\r\n");
        args.push(vec![b'a' + i]);
    }
    assert_eq!(parse_command(&buf), ParseResult::Complete(args, 5 + 12 * 7));
}
