//! QoS profile encoding and decoding for liveliness tokens.

pub mod qos;
pub mod text;

pub use qos::{
    QosDecodeError, QosDurability, QosHistory, QosProfile, QosReliability,
    DEFAULT_HISTORY_DEPTH, RMW_ZENOH_DEFAULT_HISTORY_DEPTH,
};
