use networking::connection::{Connection, Outcome, Phase, Step};

const PING: &[u8] = b"*2\r\n$4\r\nping\r\n$4\r\npong\r\n";

fn ping_args() -> Vec<Vec<u8>> {
    vec![b"ping".to_vec(), b"pong".to_vec()]
}

#[test]
fn ping_in_one_write() {
    let mut c = Connection::new();
    assert_eq!(c.phase_now(), Phase::Reading);
    assert_eq!(c.receive(PING), Step::Execute);
    assert_eq!(c.command(), &ping_args());
    assert_eq!(c.executed(Outcome::Reply), Step::SendReply);
    assert_eq!(c.phase_now(), Phase::Replying);
    assert_eq!(c.reply_sent(true), Step::ReadMore);
    assert_eq!(c.phase_now(), Phase::Reading);
}

#[test]
fn ping_split_across_writes() {
    let mut c = Connection::new();
    assert_eq!(c.receive(b"*2\r\n$4\r\nping\r\n"), Step::ReadMore);
    assert_eq!(c.receive(b"$4\r\npong\r\n"), Step::Execute);
    assert_eq!(c.command(), &ping_args());
}

#[test]
fn request_in_many_pieces() {
    let mut c = Connection::new();
    for k in 0..PING.len() - 1 {
        assert_eq!(c.receive(&PING[k..k + 1]), Step::ReadMore);
    }
    assert_eq!(c.receive(&PING[PING.len() - 1..]), Step::Execute);
    assert_eq!(c.command(), &ping_args());
}

#[test]
fn pipelined_requests_answered_in_order() {
    let mut c = Connection::new();
    let mut bytes = PING.to_vec();
    bytes.extend_from_slice(b"*1\r\n$4\r\necho\r\n");
    assert_eq!(c.receive(&bytes), Step::Execute);
    assert_eq!(c.command(), &ping_args());
    assert_eq!(c.executed(Outcome::Reply), Step::SendReply);
    assert_eq!(c.reply_sent(true), Step::Execute);
    assert_eq!(c.command(), &vec![b"echo".to_vec()]);
    assert_eq!(c.executed(Outcome::Reply), Step::SendReply);
    assert_eq!(c.reply_sent(true), Step::ReadMore);
}

#[test]
fn command_without_reply_goes_back_to_reading() {
    let mut c = Connection::new();
    assert_eq!(c.receive(PING), Step::Execute);
    assert_eq!(c.executed(Outcome::NoReply), Step::ReadMore);
    assert_eq!(c.phase_now(), Phase::Reading);
}

#[test]
fn blocking_command_retried_after_signal() {
    let mut c = Connection::new();
    assert_eq!(c.receive(b"*3\r\n$5\r\nblpop\r\n$1\r\nL\r\n$1\r\n0\r\n"), Step::Execute);
    assert_eq!(c.executed(Outcome::Wait), Step::AwaitSignal);
    assert_eq!(c.phase_now(), Phase::Waiting);
    assert_eq!(c.signalled(true), Step::Execute);
    assert_eq!(c.command(), &vec![b"blpop".to_vec(), b"L".to_vec(), b"0".to_vec()]);
    assert_eq!(c.executed(Outcome::Reply), Step::SendReply);
    assert_eq!(c.reply_sent(true), Step::ReadMore);
}

#[test]
fn blocking_command_timed_out_replies_nil() {
    let mut c = Connection::new();
    assert_eq!(c.receive(PING), Step::Execute);
    assert_eq!(c.executed(Outcome::Wait), Step::AwaitSignal);
    assert_eq!(c.signalled(false), Step::SendNil);
    assert_eq!(c.phase_now(), Phase::Replying);
    assert_eq!(c.reply_sent(true), Step::ReadMore);
}

#[test]
fn end_of_stream_shuts_down() {
    let mut c = Connection::new();
    assert_eq!(c.receive(b"*2\r\n"), Step::ReadMore);
    assert_eq!(c.receive(b""), Step::Shutdown);
    assert_eq!(c.phase_now(), Phase::Closed);
}

#[test]
fn malformed_input_shuts_down() {
    let mut c = Connection::new();
    assert_eq!(c.receive(b"hello\r\n"), Step::Shutdown);
    assert_eq!(c.phase_now(), Phase::Closed);
}

#[test]
fn lost_writer_shuts_down() {
    let mut c = Connection::new();
    assert_eq!(c.receive(PING), Step::Execute);
    assert_eq!(c.executed(Outcome::Reply), Step::SendReply);
    assert_eq!(c.reply_sent(false), Step::Shutdown);
    assert_eq!(c.phase_now(), Phase::Closed);
}

#[test]
fn read_error_shuts_down() {
    let mut c = Connection::new();
    assert_eq!(c.fail(), Step::Shutdown);
    assert_eq!(c.phase_now(), Phase::Closed);
}

#[test]
fn database_index_is_per_connection() {
    let mut a = Connection::new();
    let b = Connection::new();
    assert_eq!(a.db_index(), 0);
    a.select_db(3);
    assert_eq!(a.db_index(), 3);
    assert_eq!(b.db_index(), 0);
}
