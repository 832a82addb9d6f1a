use vstd::prelude::*;

verus! {

/// What happened on the channel: a client arrived, a client left, or a
/// client delivered one framed payload.
#[derive(Clone, Copy, Debug, PartialEq, Eq, Structural)]
pub enum IpcMessageType {
    Connected,
    Disconnected,
    Message,
}

/// One event handed to the host callback: which client, what happened, and
/// the payload text. The payload is empty unless `kind` is `Message`.
/// Immutable once constructed.
#[derive(Debug)]
pub struct IpcMessage {
    pub client_id: u32,
    pub kind: IpcMessageType,
    pub message: String,
}

/// The mathematical image of an `IpcMessage`: the payload text as a
/// character sequence, so contracts can speak of event contents directly.
#[verifier::ext_equal]
pub struct EventModel {
    pub client_id: u32,
    pub kind: IpcMessageType,
    pub message: Seq<char>,
}

impl View for IpcMessage {
    type V = EventModel;

    open spec fn view(&self) -> EventModel {
        EventModel { client_id: self.client_id, kind: self.kind, message: self.message@ }
    }
}

impl IpcMessage {
    /// The lifecycle event published when a client connects.
    pub fn connected(client_id: u32) -> (m: IpcMessage)
        ensures
            m@ == connected_event(client_id),
    {
        IpcMessage { client_id, kind: IpcMessageType::Connected, message: String::new() }
    }

    /// The lifecycle event published when a client goes away.
    pub fn disconnected(client_id: u32) -> (m: IpcMessage)
        ensures
            m@ == disconnected_event(client_id),
    {
        IpcMessage { client_id, kind: IpcMessageType::Disconnected, message: String::new() }
    }

    /// The event carrying one framed payload received from a client.
    pub fn text(client_id: u32, message: String) -> (m: IpcMessage)
        ensures
            m@ == message_event(client_id, message@),
    {
        IpcMessage { client_id, kind: IpcMessageType::Message, message }
    }
}

/// The model of a `Connected` event for `client_id`.
pub open spec fn connected_event(client_id: u32) -> EventModel {
    EventModel { client_id, kind: IpcMessageType::Connected, message: Seq::<char>::empty() }
}

/// The model of a `Disconnected` event for `client_id`.
pub open spec fn disconnected_event(client_id: u32) -> EventModel {
    EventModel { client_id, kind: IpcMessageType::Disconnected, message: Seq::<char>::empty() }
}

/// The model of a `Message` event carrying `message` from `client_id`.
pub open spec fn message_event(client_id: u32, message: Seq<char>) -> EventModel {
    EventModel { client_id, kind: IpcMessageType::Message, message }
}

} // verus!
