//! The runtime's own logic: command-line app definitions, the boot order
//! of system guests, grant delegation and serving tenants, discovery
//! registration URIs, the mailbox ring, metering, stream layout arithmetic,
//! hostcall operation ids and worker-pool sizes.

pub mod app;
pub mod bootstrap;
pub mod discovery;
pub mod grants;
pub mod mailbox;
pub mod metering;
pub mod network;
pub mod operations;
pub mod workers;
