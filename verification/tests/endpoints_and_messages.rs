use ipc_server::endpoint::EndpointRegistry;
use ipc_server::errors::{BindError, SendError};
use ipc_server::keys::{KeyMaterial, OsDerivedKey};
use ipc_server::message::{IpcMessage, IpcMessageType};
use ipc_server::server::IpcServer;

#[test]
fn second_listen_on_same_name_fails_until_stop() {
    let mut endpoints = EndpointRegistry::new();
    let mut first =
        IpcServer::listen(String::from("test-channel"), &mut endpoints, 8).unwrap();

    // The name is taken while the first server lives.
    let second = IpcServer::listen(String::from("test-channel"), &mut endpoints, 8);
    assert!(matches!(second, Err(BindError)));

    // Another name is still free.
    assert!(IpcServer::listen(String::from("other-channel"), &mut endpoints, 8).is_ok());

    // After stop the name can be bound again.
    first.stop(&mut endpoints);
    assert!(IpcServer::listen(String::from("test-channel"), &mut endpoints, 8).is_ok());
}

#[test]
fn registry_binds_and_releases_names() {
    let mut endpoints = EndpointRegistry::new();
    let alpha = String::from("alpha");
    let beta = String::from("beta");

    assert!(!endpoints.contains(&alpha));
    assert!(endpoints.bind(&alpha).is_ok());
    assert!(endpoints.bind(&beta).is_ok());
    assert!(endpoints.contains(&alpha));
    assert!(endpoints.contains(&beta));
    assert!(matches!(endpoints.bind(&alpha), Err(BindError)));

    endpoints.release(&alpha);
    assert!(!endpoints.contains(&alpha));
    assert!(endpoints.contains(&beta));

    // Releasing an unbound name is harmless.
    endpoints.release(&alpha);
    assert!(endpoints.bind(&alpha).is_ok());
}

#[test]
fn event_constructors_fill_the_record() {
    let connected = IpcMessage::connected(3);
    assert_eq!(connected.client_id, 3);
    assert_eq!(connected.kind, IpcMessageType::Connected);
    assert_eq!(connected.message, "");

    let text = IpcMessage::text(4, String::from("payload"));
    assert_eq!(text.client_id, 4);
    assert_eq!(text.kind, IpcMessageType::Message);
    assert_eq!(text.message, "payload");

    let disconnected = IpcMessage::disconnected(5);
    assert_eq!(disconnected.client_id, 5);
    assert_eq!(disconnected.kind, IpcMessageType::Disconnected);
    assert_eq!(disconnected.message, "");
}

#[test]
fn send_error_only_after_stop() {
    let mut endpoints = EndpointRegistry::new();
    let mut server = IpcServer::listen(String::from("err"), &mut endpoints, 4).unwrap();
    assert!(server.send(String::from("up")).is_ok());
    server.stop(&mut endpoints);
    match server.send(String::from("down")) {
        Err(SendError) => {}
        Ok(_) => panic!("send on a stopped server must fail"),
    }
}

#[test]
fn collaborator_records_hold_their_fields() {
    let material = KeyMaterial {
        os_key_part_b64: String::from("b3M="),
        client_key_part_b64: Some(String::from("Y2xpZW50")),
    };
    assert_eq!(material.os_key_part_b64, "b3M=");
    assert_eq!(material.client_key_part_b64.as_deref(), Some("Y2xpZW50"));

    let derived = OsDerivedKey {
        key_b64: String::from("a2V5"),
        iv_b64: String::from("aXY="),
    };
    assert_eq!(derived.key_b64, "a2V5");
    assert_eq!(derived.iv_b64, "aXY=");
}
