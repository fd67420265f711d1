use concurrency::echo::{
    find_newline, Connection, EchoServer, Interest, IoFailure, ReadOutcome, Reaction,
    WriteOutcome, LISTENER_TOKEN,
};

#[test]
fn find_newline_finds_the_first() {
    assert_eq!(find_newline(&b"ab\ncd\n".to_vec()), Some(2));
    assert_eq!(find_newline(&b"\n".to_vec()), Some(0));
    assert_eq!(find_newline(&b"abc".to_vec()), None);
    assert_eq!(find_newline(&Vec::new()), None);
}

#[test]
fn read_moves_only_the_first_line() {
    let mut c = Connection::new();
    assert_eq!(c.read_data(ReadOutcome::Received(b"ab\ncd\nef".to_vec())), Ok(true));
    assert_eq!(c.pending_output(), b"ab\n");
    assert_eq!(c.pending_input(), b"cd\nef");
    assert!(c.is_writable());
    assert_eq!(c.read_data(ReadOutcome::Received(b"g".to_vec())), Ok(true));
    assert_eq!(c.pending_output(), b"ab\ncd\n");
    assert_eq!(c.pending_input(), b"efg");
}

#[test]
fn partial_line_waits_for_its_break() {
    let mut c = Connection::new();
    assert_eq!(c.read_data(ReadOutcome::Received(b"hel".to_vec())), Ok(true));
    assert!(!c.is_writable());
    assert_eq!(c.read_data(ReadOutcome::Received(b"lo\n".to_vec())), Ok(true));
    assert_eq!(c.pending_output(), b"hello\n");
    assert_eq!(c.pending_input(), b"");
}

#[test]
fn read_outcomes_other_than_data() {
    let mut c = Connection::new();
    assert_eq!(c.read_data(ReadOutcome::Received(Vec::new())), Ok(false));
    assert_eq!(c.read_data(ReadOutcome::WouldBlock), Ok(true));
    assert_eq!(c.read_data(ReadOutcome::Failed), Err(IoFailure));
    assert_eq!(c.pending_output(), b"");
    assert_eq!(c.pending_input(), b"");
}

#[test]
fn write_drops_what_went_out() {
    let mut c = Connection::new();
    c.read_data(ReadOutcome::Received(b"abc\n".to_vec())).unwrap();
    assert_eq!(c.write_data(WriteOutcome::Written(2)), Ok(true));
    assert_eq!(c.pending_output(), b"c\n");
    assert_eq!(c.write_data(WriteOutcome::WouldBlock), Ok(true));
    assert_eq!(c.pending_output(), b"c\n");
    assert_eq!(c.write_data(WriteOutcome::Failed), Err(IoFailure));
    assert_eq!(c.write_data(WriteOutcome::Written(2)), Ok(true));
    assert!(!c.is_writable());
}

#[test]
fn move_line_without_break_changes_nothing() {
    let mut c = Connection::new();
    c.read_data(ReadOutcome::Received(b"xyz".to_vec())).unwrap();
    c.move_line_to_write_buffer();
    assert_eq!(c.pending_input(), b"xyz");
    assert_eq!(c.pending_output(), b"");
}

#[test]
fn tokens_count_up_from_the_listener() {
    let mut s = EchoServer::new();
    assert_eq!(s.last_token_id(), LISTENER_TOKEN);
    assert_eq!(s.make_token(), 1);
    assert_eq!(s.make_token(), 2);
    assert_eq!(s.last_token_id(), 2);
}

#[test]
fn echo_server_round_trip() {
    let mut s = EchoServer::new();
    let t = s.make_token();
    s.accept_connection(t);
    assert!(s.has_connection(t));
    assert_eq!(
        s.handle_readable(t, ReadOutcome::Received(b"ping\n".to_vec())),
        Reaction::Reregister(Interest::readable_writable())
    );
    assert_eq!(s.pending_output(t), b"ping\n");
    assert_eq!(s.handle_writable(t, WriteOutcome::Written(3)), Reaction::Keep);
    assert_eq!(s.pending_output(t), b"g\n");
    assert_eq!(
        s.handle_writable(t, WriteOutcome::Written(2)),
        Reaction::Reregister(Interest::readable())
    );
    assert_eq!(s.pending_output(t), b"");
}

#[test]
fn read_without_a_line_keeps_registration() {
    let mut s = EchoServer::new();
    let t = s.make_token();
    s.accept_connection(t);
    assert_eq!(s.handle_readable(t, ReadOutcome::Received(b"pi".to_vec())), Reaction::Keep);
    assert_eq!(s.handle_readable(t, ReadOutcome::WouldBlock), Reaction::Keep);
}

#[test]
fn closed_or_failed_connections_are_removed() {
    let mut s = EchoServer::new();
    let a = s.make_token();
    let b = s.make_token();
    let c = s.make_token();
    s.accept_connection(a);
    s.accept_connection(b);
    s.accept_connection(c);
    assert_eq!(s.handle_readable(a, ReadOutcome::Received(Vec::new())), Reaction::Closed);
    assert!(!s.has_connection(a));
    assert_eq!(s.handle_readable(b, ReadOutcome::Failed), Reaction::Closed);
    assert!(!s.has_connection(b));
    assert_eq!(s.handle_writable(c, WriteOutcome::Failed), Reaction::Closed);
    assert!(!s.has_connection(c));
}

#[test]
fn remove_connection_reports_presence() {
    let mut s = EchoServer::new();
    let t = s.make_token();
    s.accept_connection(t);
    assert!(s.remove_connection(t));
    assert!(!s.remove_connection(t));
    assert!(!s.has_connection(t));
}

#[test]
fn make_token_never_hands_out_a_live_token() {
    let mut s = EchoServer::new();
    let a = s.make_token();
    s.accept_connection(a);
    let b = s.make_token();
    assert_ne!(a, b);
    assert!(!s.has_connection(b));
    s.accept_connection(b);
    assert!(s.has_connection(a) && s.has_connection(b));
}
