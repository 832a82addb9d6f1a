use ipc_server::endpoint::EndpointRegistry;
use ipc_server::message::{IpcMessage, IpcMessageType};
use ipc_server::server::{AcceptOutcome, IpcServer, PublishOutcome};

fn expect_event(server: &mut IpcServer) -> IpcMessage {
    match server.next_event() {
        Some(event) => event,
        None => panic!("expected a queued event"),
    }
}

fn expect_accept(server: &mut IpcServer) -> u32 {
    match server.accept() {
        AcceptOutcome::Accepted(id) => id,
        other => panic!("expected an accepted connection, got {:?}", other),
    }
}

#[test]
fn single_client_lifecycle() {
    let mut endpoints = EndpointRegistry::new();
    let mut server =
        IpcServer::listen(String::from("test-channel"), &mut endpoints, 8).unwrap();

    let id = expect_accept(&mut server);
    assert_eq!(id, 0);

    let connected = expect_event(&mut server);
    assert_eq!(connected.client_id, 0);
    assert_eq!(connected.kind, IpcMessageType::Connected);
    assert_eq!(connected.message, "");

    assert_eq!(
        server.client_message(0, String::from("ping")),
        PublishOutcome::Enqueued
    );
    let message = expect_event(&mut server);
    assert_eq!(message.client_id, 0);
    assert_eq!(message.kind, IpcMessageType::Message);
    assert_eq!(message.message, "ping");

    assert_eq!(server.client_disconnected(0), PublishOutcome::Enqueued);
    let disconnected = expect_event(&mut server);
    assert_eq!(disconnected.client_id, 0);
    assert_eq!(disconnected.kind, IpcMessageType::Disconnected);

    assert!(server.next_event().is_none());
    assert_eq!(server.session_count(), 0);
}

#[test]
fn two_clients_connect_in_order_and_broadcast() {
    let mut endpoints = EndpointRegistry::new();
    let mut server = IpcServer::listen(String::from("pair"), &mut endpoints, 8).unwrap();

    assert_eq!(expect_accept(&mut server), 0);
    assert_eq!(expect_accept(&mut server), 1);

    let first = expect_event(&mut server);
    assert_eq!(first.kind, IpcMessageType::Connected);
    assert_eq!(first.client_id, 0);
    let second = expect_event(&mut server);
    assert_eq!(second.kind, IpcMessageType::Connected);
    assert_eq!(second.client_id, 1);

    let broadcast = match server.send(String::from("hello")) {
        Ok(b) => b,
        Err(_) => panic!("send on a running server must succeed"),
    };
    assert_eq!(broadcast.payload, "hello");
    assert_eq!(broadcast.targets, vec![0, 1]);
}

#[test]
fn ids_are_unique_and_sequential() {
    let mut endpoints = EndpointRegistry::new();
    let mut server = IpcServer::listen(String::from("many"), &mut endpoints, 16).unwrap();

    let mut ids = Vec::new();
    for _ in 0..5 {
        ids.push(expect_accept(&mut server));
    }
    assert_eq!(ids, vec![0, 1, 2, 3, 4]);

    // An id is never reused, even after its client disconnects.
    assert_eq!(server.client_disconnected(2), PublishOutcome::Enqueued);
    assert_eq!(expect_accept(&mut server), 5);
}

#[test]
fn per_client_order_with_interleaving() {
    let mut endpoints = EndpointRegistry::new();
    let mut server = IpcServer::listen(String::from("weave"), &mut endpoints, 16).unwrap();

    assert_eq!(expect_accept(&mut server), 0);
    assert_eq!(expect_accept(&mut server), 1);
    assert_eq!(
        server.client_message(1, String::from("b1")),
        PublishOutcome::Enqueued
    );
    assert_eq!(
        server.client_message(0, String::from("a1")),
        PublishOutcome::Enqueued
    );
    assert_eq!(server.client_disconnected(1), PublishOutcome::Enqueued);
    assert_eq!(
        server.client_message(0, String::from("a2")),
        PublishOutcome::Enqueued
    );

    let mut seen_for_0 = Vec::new();
    let mut seen_for_1 = Vec::new();
    while let Some(event) = server.next_event() {
        if event.client_id == 0 {
            seen_for_0.push((event.kind, event.message));
        } else {
            seen_for_1.push((event.kind, event.message));
        }
    }
    assert_eq!(
        seen_for_0,
        vec![
            (IpcMessageType::Connected, String::new()),
            (IpcMessageType::Message, String::from("a1")),
            (IpcMessageType::Message, String::from("a2")),
        ]
    );
    assert_eq!(
        seen_for_1,
        vec![
            (IpcMessageType::Connected, String::new()),
            (IpcMessageType::Message, String::from("b1")),
            (IpcMessageType::Disconnected, String::new()),
        ]
    );
}

#[test]
fn departed_client_publishes_nothing_more() {
    let mut endpoints = EndpointRegistry::new();
    let mut server = IpcServer::listen(String::from("gone"), &mut endpoints, 8).unwrap();

    assert_eq!(expect_accept(&mut server), 0);
    assert_eq!(server.client_disconnected(0), PublishOutcome::Enqueued);

    // Disconnected is published exactly once, and no Message after it.
    assert_eq!(server.client_disconnected(0), PublishOutcome::Rejected);
    assert_eq!(
        server.client_message(0, String::from("late")),
        PublishOutcome::Rejected
    );

    // An id never seen is rejected too.
    assert_eq!(server.client_message(9, String::new()), PublishOutcome::Rejected);
    assert_eq!(server.client_disconnected(9), PublishOutcome::Rejected);
}
