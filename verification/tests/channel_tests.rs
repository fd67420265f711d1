use concurrency::channel::channel;

#[test]
fn empty_channel_receives_nothing() {
    let mut c = channel::<u32>(4);
    assert_eq!(c.len(), 0);
    assert_eq!(c.capacity(), 4);
    assert_eq!(c.recv(), None);
}

#[test]
fn messages_come_out_in_order() {
    let mut c = channel::<(isize, isize)>(4);
    assert_eq!(c.send((0, 0)), Ok(()));
    assert_eq!(c.send((0, 1)), Ok(()));
    assert_eq!(c.send((1, 0)), Ok(()));
    assert_eq!(c.len(), 3);
    assert_eq!(c.recv(), Some((0, 0)));
    assert_eq!(c.recv(), Some((0, 1)));
    assert_eq!(c.recv(), Some((1, 0)));
    assert_eq!(c.recv(), None);
}

#[test]
fn full_channel_hands_the_message_back() {
    let mut c = channel::<u8>(2);
    assert_eq!(c.send(1), Ok(()));
    assert_eq!(c.send(2), Ok(()));
    assert_eq!(c.send(3), Err(3));
    assert_eq!(c.len(), 2);
    assert_eq!(c.recv(), Some(1));
    assert_eq!(c.send(3), Ok(()));
    assert_eq!(c.recv(), Some(2));
    assert_eq!(c.recv(), Some(3));
}

#[test]
fn send_then_recv_on_empty_channel_round_trips() {
    let mut c = channel::<String>(1);
    assert_eq!(c.send("hello".to_string()), Ok(()));
    assert_eq!(c.recv(), Some("hello".to_string()));
    assert_eq!(c.len(), 0);
    assert_eq!(c.send("again".to_string()), Ok(()));
}

#[test]
fn capacity_many_round_trip() {
    let mut c = channel::<usize>(1000);
    for i in 0..1000 {
        assert_eq!(c.send(i), Ok(()));
    }
    assert_eq!(c.send(1000), Err(1000));
    for i in 0..1000 {
        assert_eq!(c.recv(), Some(i));
    }
    assert_eq!(c.recv(), None);
}

#[test]
fn interleaved_sends_and_receives_keep_order() {
    let mut c = channel::<u32>(2);
    let mut received = Vec::new();
    assert_eq!(c.send(1), Ok(()));
    assert_eq!(c.send(2), Ok(()));
    assert_eq!(c.send(3), Err(3));
    received.push(c.recv().unwrap());
    assert_eq!(c.send(3), Ok(()));
    received.push(c.recv().unwrap());
    assert_eq!(c.send(4), Ok(()));
    received.push(c.recv().unwrap());
    received.push(c.recv().unwrap());
    assert_eq!(c.recv(), None);
    assert_eq!(received, vec![1, 2, 3, 4]);
}
