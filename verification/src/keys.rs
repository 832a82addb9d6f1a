use vstd::prelude::*;

verus! {

/// Key material handed to the biometric collaborator that sits beside the
/// IPC core: the OS-held key part and an optional client-held part, both as
/// base64 text. A plain record; the platform call itself is the host's.
#[derive(Clone, Debug)]
pub struct KeyMaterial {
    pub os_key_part_b64: String,
    pub client_key_part_b64: Option<String>,
}

/// A key derived by the platform's biometric gate: the base64 key and the
/// base64 challenge that was used to derive it.
#[derive(Clone, Debug)]
pub struct OsDerivedKey {
    pub key_b64: String,
    pub iv_b64: String,
}

} // verus!
