//! Messages routed over MQTT topics: each message shape is a topic pattern
//! of literal and parameter layers plus an optional payload field. Shapes
//! are registered at start-up, checked for colliding patterns and for full
//! field coverage, and then used to encode messages into a topic and payload
//! and to decode a topic and payload back into the message.
pub mod codec;
pub mod error;
pub mod pattern;
pub mod payload;
pub mod registry;
pub mod schema;
pub mod topic;

pub use error::{MqttDeserializeError, MqttSerializeError, SchemaError};
pub use pattern::{Pattern, Segment};
pub use payload::{
    serde_json_deserialize, serde_json_serialize, zero_bytes_option_deser, zero_bytes_option_ser,
};
pub use registry::Registry;
pub use schema::{FieldDecl, FieldType, FieldValue, Message, PayloadHook, Schema};
pub use topic::{Topic, TopicTree};
