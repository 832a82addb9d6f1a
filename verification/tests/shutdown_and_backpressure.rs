use ipc_server::endpoint::EndpointRegistry;
use ipc_server::message::IpcMessageType;
use ipc_server::queue::EventQueue;
use ipc_server::server::{AcceptOutcome, IpcServer, PublishOutcome};

#[test]
fn stop_is_idempotent_and_quiescent() {
    let mut endpoints = EndpointRegistry::new();
    let mut server = IpcServer::listen(String::from("halt"), &mut endpoints, 8).unwrap();
    assert!(matches!(server.accept(), AcceptOutcome::Accepted(0)));
    assert!(matches!(server.accept(), AcceptOutcome::Accepted(1)));

    let signaled = server.stop(&mut endpoints);
    assert_eq!(signaled, vec![0, 1]);
    assert!(!server.is_running());

    // A second stop signals nothing and changes nothing observable.
    let signaled_again = server.stop(&mut endpoints);
    assert_eq!(signaled_again, Vec::<u32>::new());
    assert!(!server.is_running());
    assert_eq!(server.session_count(), 2);

    // No new connection and no message after stop; the signalled sessions
    // still publish their final Disconnected events, exactly once each.
    assert!(matches!(server.accept(), AcceptOutcome::Refused));
    assert_eq!(server.client_message(0, String::new()), PublishOutcome::Rejected);
    assert_eq!(server.client_disconnected(0), PublishOutcome::Enqueued);
    assert_eq!(server.client_disconnected(1), PublishOutcome::Enqueued);
    assert_eq!(server.session_count(), 0);
    assert_eq!(server.client_disconnected(0), PublishOutcome::Rejected);

    let mut kinds = Vec::new();
    while let Some(event) = server.next_event() {
        kinds.push((event.client_id, event.kind));
    }
    assert_eq!(
        kinds,
        vec![
            (0, IpcMessageType::Connected),
            (1, IpcMessageType::Connected),
            (0, IpcMessageType::Disconnected),
            (1, IpcMessageType::Disconnected),
        ]
    );
}

#[test]
fn send_after_stop_fails() {
    let mut endpoints = EndpointRegistry::new();
    let mut server = IpcServer::listen(String::from("late-send"), &mut endpoints, 8).unwrap();
    assert!(matches!(server.accept(), AcceptOutcome::Accepted(0)));
    server.stop(&mut endpoints);
    assert!(server.send(String::from("too late")).is_err());
}

#[test]
fn broadcast_skips_terminating_sessions() {
    let mut endpoints = EndpointRegistry::new();
    let mut server = IpcServer::listen(String::from("fanout"), &mut endpoints, 16).unwrap();
    assert!(matches!(server.accept(), AcceptOutcome::Accepted(0)));
    assert!(matches!(server.accept(), AcceptOutcome::Accepted(1)));
    assert!(matches!(server.accept(), AcceptOutcome::Accepted(2)));

    // Client 1 goes away mid-run: it produces its Disconnected event and a
    // following broadcast reaches exactly the remaining live clients.
    assert_eq!(server.client_disconnected(1), PublishOutcome::Enqueued);
    let broadcast = match server.send(String::from("hello")) {
        Ok(b) => b,
        Err(_) => panic!("send on a running server must succeed"),
    };
    assert_eq!(broadcast.targets, vec![0, 2]);
}

#[test]
fn full_queue_suspends_producers_without_loss() {
    let mut endpoints = EndpointRegistry::new();
    // Capacity 1: the single slot is taken by the Connected event.
    let mut server = IpcServer::listen(String::from("tight"), &mut endpoints, 1).unwrap();
    assert!(matches!(server.accept(), AcceptOutcome::Accepted(0)));
    assert_eq!(server.pending_events(), 1);

    // The queue is at capacity: producers suspend, nothing is dropped.
    assert_eq!(server.client_message(0, String::from("x")), PublishOutcome::MustWait);
    assert_eq!(server.pending_events(), 1);
    assert!(matches!(server.accept(), AcceptOutcome::MustWait));
    assert_eq!(server.pending_events(), 1);

    // Once the consumer drains a slot, the suspended publish goes through.
    let connected = server.next_event().unwrap();
    assert_eq!(connected.kind, IpcMessageType::Connected);
    assert_eq!(server.client_message(0, String::from("x")), PublishOutcome::Enqueued);
    let message = server.next_event().unwrap();
    assert_eq!(message.kind, IpcMessageType::Message);
    assert_eq!(message.message, "x");
}

#[test]
fn event_queue_is_bounded_fifo() {
    let mut queue = EventQueue::new(2);
    assert_eq!(queue.len(), 0);
    assert!(queue.dequeue().is_none());

    assert!(queue
        .try_enqueue(ipc_server::message::IpcMessage::connected(7))
        .is_none());
    assert!(queue
        .try_enqueue(ipc_server::message::IpcMessage::text(7, String::from("a")))
        .is_none());
    assert!(queue.is_full());

    // At capacity the event comes back untouched and the queue is unchanged.
    let refused = queue.try_enqueue(ipc_server::message::IpcMessage::disconnected(7));
    let refused = refused.expect("a full queue must hand the event back");
    assert_eq!(refused.client_id, 7);
    assert_eq!(refused.kind, IpcMessageType::Disconnected);
    assert_eq!(queue.len(), 2);

    let first = queue.dequeue().unwrap();
    assert_eq!(first.kind, IpcMessageType::Connected);
    let second = queue.dequeue().unwrap();
    assert_eq!(second.kind, IpcMessageType::Message);
    assert_eq!(second.message, "a");
    assert!(queue.dequeue().is_none());
}
