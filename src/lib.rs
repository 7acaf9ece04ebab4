//! Configuration store and command protocol of a remote-control to MQTT bridge.

pub mod bytes;
pub mod value_id;
pub mod filesystem;
pub mod parser;
pub mod buttons;
pub mod framer;
pub mod credentials;
