//! Codec for the network messages carried inside GoldSrc demo frames.
//!
//! - `bits`: little-endian bit streams (reader, writer, packing into bytes).
//! - `bytes`: byte-level fields and the table of fixed-layout engine messages.
//! - `delta`, `table`: field descriptors, the delta codec, the delta decoder table.
//! - `client_data`, `spawn_baseline`, `packet_entities`, `delta_description`,
//!   `user_message`: the messages with a structure of their own.
//! - `netmsg`: messages, the session, and the decoders and encoders of whole payloads.
//! - `laws`, `delta_laws`, `message_laws`, `roundtrip`, `prefix`: what holds of
//!   them together, proved.

pub mod bits;
pub mod bytes;
pub mod client_data;
pub mod delta;
pub mod delta_laws;
pub mod delta_description;
pub mod error;
pub mod laws;
pub mod message_laws;
pub mod netmsg;
pub mod packet_entities;
pub mod prefix;
pub mod roundtrip;
pub mod spawn_baseline;
pub mod table;
pub mod user_message;
