//! MQTT 3.1.1 at quality of service 0 and 1: packets on the wire, and the two
//! ends of a connection that speaks them.
pub mod client;
pub mod conduct;
pub mod error;
pub mod exchange;
pub mod laws;
pub mod layout;
pub mod packet;
pub mod reader;
pub mod session;
pub mod show;
pub mod step;
pub mod text;
pub mod transport;
pub mod wire;

pub use client::{Client, Credentials};
pub use error::Error;
pub use packet::{Packet, Publish};
pub use session::{Event, Session};
pub use step::{Arrived, Next, Step};
pub use transport::MqttTransport;
