use libtransport_tcp::receive::{
    listener_next, Fault, Inbox, ListenerAction, PollAction, PollEvent, Poller, RECEIVE_CAPACITY,
};
use libtransport_tcp::send::{Delivery, SendAction, SendError, SendEvent};
use libtransport_tcp::sender::TCPsender;

type Sender = TCPsender<u64, u8, (), ()>;

fn expect_connect(action: SendAction<String>, address: &str) {
    match action {
        SendAction::Connect(a) => assert_eq!(a, address),
        _ => panic!("expected a connect"),
    }
}

fn expect_write(action: SendAction<String>, bytes: &[u8]) {
    match action {
        SendAction::Write(b) => assert_eq!(b, bytes.to_vec()),
        _ => panic!("expected a write"),
    }
}

fn expect_read(action: PollAction, room: usize) {
    match action {
        PollAction::Read(n) => assert_eq!(n, room),
        _ => panic!("expected a read"),
    }
}

/// Runs one clean round against a delivery that asks to connect to `address`.
fn clean_round(d: &mut Delivery<String>, payload: &[u8]) -> SendAction<String> {
    assert!(matches!(d.on_event(SendEvent::Connected), SendAction::Serialize));
    expect_write(d.on_event(SendEvent::Serialized(payload.to_vec())), payload);
    assert!(matches!(d.on_event(SendEvent::Wrote(payload.len())), SendAction::Shutdown));
    d.on_event(SendEvent::ShutDown)
}

#[test]
fn it_works() {
    assert_eq!(2 + 2, 4);
}

#[test]
fn send_to_one_peer_succeeds_after_a_full_write() {
    let sender = Sender::new();
    let (mut d, first) = sender.send::<String>(String::from("127.0.0.1:9000"));
    expect_connect(first, "127.0.0.1:9000");
    let last = clean_round(&mut d, &[1, 2, 3]);
    assert!(matches!(last, SendAction::Done(Ok(()))));
    assert!(d.is_finished());
}

#[test]
fn broadcast_serves_peers_in_order() {
    let sender = Sender::new();
    let peers = vec![
        String::from("127.0.0.1:9000"),
        String::from("127.0.0.1:9001"),
        String::from("127.0.0.1:9002"),
    ];
    let (mut d, first) = sender.broadcast::<String>(peers);
    expect_connect(first, "127.0.0.1:9000");
    expect_connect(clean_round(&mut d, &[9]), "127.0.0.1:9001");
    expect_connect(clean_round(&mut d, &[9]), "127.0.0.1:9002");
    assert!(matches!(clean_round(&mut d, &[9]), SendAction::Done(Ok(()))));
}

#[test]
fn broadcast_to_nobody_is_done_at_once() {
    let sender = Sender::new();
    let (d, first) = sender.broadcast::<String>(Vec::new());
    assert!(matches!(first, SendAction::Done(Ok(()))));
    assert!(d.is_finished());
    assert!(!d.accepts(&SendEvent::Connected));
}

#[test]
fn short_write_is_incomplete_and_stops_the_broadcast() {
    let sender = Sender::new();
    let peers = vec![String::from("a:1"), String::from("b:2")];
    let (mut d, _) = sender.broadcast::<String>(peers);
    d.on_event(SendEvent::Connected);
    d.on_event(SendEvent::Serialized(vec![1, 2, 3, 4]));
    let done = d.on_event(SendEvent::Wrote(3));
    assert!(matches!(done, SendAction::Done(Err(SendError::Incomplete))));
    assert!(d.is_finished());
    assert!(!d.accepts(&SendEvent::ShutDown));
    assert!(!d.accepts(&SendEvent::Connected));
}

#[test]
fn a_failed_step_is_reported_as_is() {
    let sender = Sender::new();
    let peers = vec![String::from("a:1"), String::from("b:2")];
    let (mut d, _) = sender.broadcast::<String>(peers);
    let next = clean_round(&mut d, &[5]);
    expect_connect(next, "b:2");
    let done = d.on_event(SendEvent::Failed(String::from("connection refused")));
    match done {
        SendAction::Done(Err(SendError::Failed(e))) => assert_eq!(e, "connection refused"),
        _ => panic!("expected the failure"),
    }
    assert!(d.is_finished());
}

#[test]
fn delivery_accepts_only_answers_to_its_step() {
    let (mut d, _) = Delivery::<String>::new(vec![String::from("a:1")]);
    assert!(d.accepts(&SendEvent::Connected));
    assert!(!d.accepts(&SendEvent::Wrote(0)));
    assert!(d.accepts(&SendEvent::Failed(String::new())));
    d.on_event(SendEvent::Connected);
    assert!(d.accepts(&SendEvent::Serialized(Vec::new())));
    assert!(!d.accepts(&SendEvent::ShutDown));
}

#[test]
fn empty_message_is_written_and_succeeds() {
    let (mut d, _) = Delivery::<String>::new(vec![String::from("a:1")]);
    assert!(matches!(clean_round(&mut d, &[]), SendAction::Done(Ok(()))));
}

#[test]
fn poll_delivers_what_was_read() {
    let (mut p, first) = Poller::new();
    assert!(matches!(first, PollAction::Accept));
    assert!(matches!(p.on_event(PollEvent::WouldBlock), PollAction::CheckQuit));
    assert!(matches!(p.on_event(PollEvent::QuitChecked(false)), PollAction::Accept));
    expect_read(p.on_event(PollEvent::Accepted), RECEIVE_CAPACITY);
    expect_read(p.on_event(PollEvent::Chunk(vec![1, 2])), 4094);
    expect_read(p.on_event(PollEvent::Chunk(vec![3])), 4093);
    match p.on_event(PollEvent::Chunk(Vec::new())) {
        PollAction::Deliver(m) => assert_eq!(m, vec![1, 2, 3]),
        _ => panic!("expected a delivery"),
    }
    assert!(!p.accepts(&PollEvent::Chunk(Vec::new())));
}

#[test]
fn poll_parks_once_a_quit_came() {
    let (mut p, _) = Poller::new();
    p.on_event(PollEvent::WouldBlock);
    assert!(matches!(p.on_event(PollEvent::QuitChecked(true)), PollAction::Park));
    assert!(!p.accepts(&PollEvent::Accepted));
}

#[test]
fn poll_aborts_on_accept_failure() {
    let (mut p, _) = Poller::new();
    assert!(matches!(p.on_event(PollEvent::AcceptFailed), PollAction::Abort(Fault::Accept)));
}

#[test]
fn poll_aborts_on_read_failure() {
    let (mut p, _) = Poller::new();
    p.on_event(PollEvent::Accepted);
    p.on_event(PollEvent::Chunk(vec![1]));
    assert!(matches!(p.on_event(PollEvent::ReadFailed), PollAction::Abort(Fault::Read)));
}

#[test]
fn a_full_buffer_ends_the_message_at_its_capacity() {
    let (mut p, _) = Poller::new();
    p.on_event(PollEvent::Accepted);
    expect_read(p.on_event(PollEvent::Chunk(vec![7; 4000])), 96);
    assert!(!p.accepts(&PollEvent::Chunk(vec![7; 97])));
    expect_read(p.on_event(PollEvent::Chunk(vec![8; 96])), 0);
    match p.on_event(PollEvent::Chunk(Vec::new())) {
        PollAction::Deliver(m) => {
            assert_eq!(m.len(), 4096);
            assert_eq!(m[3999], 7);
            assert_eq!(m[4000], 8);
        }
        _ => panic!("expected a delivery"),
    }
}

#[test]
fn poll_answers_only_what_it_asked() {
    let (p, _) = Poller::new();
    assert!(p.accepts(&PollEvent::WouldBlock));
    assert!(!p.accepts(&PollEvent::QuitChecked(true)));
    assert!(!p.accepts(&PollEvent::Chunk(vec![1])));
}

#[test]
fn inbox_gathers_chunks_until_an_empty_read() {
    let inbox = Inbox::new(8);
    assert_eq!(inbox.spare(), 8);
    let inbox = inbox.absorb(&[1, 2, 3]);
    assert_eq!(inbox.spare(), 5);
    assert!(!inbox.is_closed());
    let inbox = inbox.absorb(&[]);
    assert!(inbox.is_closed());
    let inbox = inbox.absorb(&[4]);
    assert!(inbox.is_closed());
    assert_eq!(inbox.into_message(), vec![1, 2, 3]);
}

#[test]
fn listener_stops_exactly_on_quit() {
    assert!(matches!(listener_next(true), ListenerAction::Stop));
    assert!(matches!(listener_next(false), ListenerAction::WakeParked));
}

#[test]
fn poll_parks_when_the_listener_has_nothing_more() {
    let (mut p, _) = Poller::new();
    assert!(matches!(p.on_event(PollEvent::Exhausted), PollAction::Park));
}
