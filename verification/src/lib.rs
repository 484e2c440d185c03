//! A Socket.IO client library: the packet codec, the Engine.IO framing of
//! both transports, the per-namespace state of a client, and the decisions
//! of its event loop and reconnect loop. The transport itself (HTTP long
//! polling, WebSocket, timers) drives these pieces from outside.

pub mod binary;
pub mod binary_events;
pub mod codec;
pub mod extractor;
pub mod json;
pub mod namespaces;
pub mod outgoing;
pub mod processor;
pub mod session;
pub mod socket_io_client;
pub mod text;

pub use extractor::{Data, State};
pub use json::JsonValue;
pub use socket_io_client::{
    append_polling_packet, format_connect_packet, normalize_ns, IncomingEvent, OutgoingPacket,
    TransportMode,
};
