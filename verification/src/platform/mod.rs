//! What the tunnel asks of the system: routes, name servers and the link.

pub mod linux;
pub mod macos;
pub mod output;
pub mod routes;
pub mod windows;
