use networking::writer::{Outgoing, WriteState};

#[test]
fn short_writes_are_completed() {
    let mut out = Outgoing::new(b"$4\r\npong\r\n".to_vec());
    assert!(!out.is_done());
    assert_eq!(out.unsent(), b"$4\r\npong\r\n");
    assert_eq!(out.wrote(4), WriteState::More);
    assert_eq!(out.unsent(), b"pong\r\n");
    assert_eq!(out.wrote(6), WriteState::Done);
    assert!(out.is_done());
    assert_eq!(out.unsent(), b"");
}

#[test]
fn zero_byte_write_fails() {
    let mut out = Outgoing::new(b"+OK\r\n".to_vec());
    assert_eq!(out.wrote(0), WriteState::Failed);
    assert_eq!(out.unsent(), b"+OK\r\n");
}

#[test]
fn empty_reply_is_done() {
    let out = Outgoing::new(Vec::new());
    assert!(out.is_done());
}
