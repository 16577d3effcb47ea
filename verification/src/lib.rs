//! Verified core logic of the Selium platform: the DNS wire codec, the wasm
//! module probe, switchboard planning and its client's control plane, the
//! Atlas store and its messages, the host keyring, and the runtime's own
//! rules (boot order, grant delegation, operation ids, stream layout).

pub mod atlas;
pub mod atlas_client;
pub mod atlas_store;
pub mod dns;
pub mod keyring;
pub mod module_probe;
pub mod pki;
pub mod runtime;
pub mod switchboard;
pub mod text;
