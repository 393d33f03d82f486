use hiroz_protocol::{
    QosDecodeError, QosDurability, QosHistory, QosProfile, QosReliability,
    RMW_ZENOH_DEFAULT_HISTORY_DEPTH,
};

/// An endpoint with an entirely-default profile encodes as `::,:,:,:,,`
/// (empty history kind and depth); it must decode.
#[test]
fn decode_fully_default_rmw_zenoh_qos() {
    let qos = QosProfile::decode("::,:,:,:,,").expect("default-omitted QoS must decode");
    assert_eq!(qos.reliability, QosReliability::Reliable);
    assert_eq!(qos.durability, QosDurability::Volatile);
    assert_eq!(
        qos.history,
        QosHistory::KeepLast(RMW_ZENOH_DEFAULT_HISTORY_DEPTH)
    );
}

/// Explicit non-default durability, everything else default.
#[test]
fn decode_transient_local_with_default_history() {
    let qos = QosProfile::decode(":1:,:,:,:,,").expect("QoS with omitted history must decode");
    assert_eq!(qos.reliability, QosReliability::Reliable);
    assert_eq!(qos.durability, QosDurability::TransientLocal);
    assert_eq!(
        qos.history,
        QosHistory::KeepLast(RMW_ZENOH_DEFAULT_HISTORY_DEPTH)
    );
}

/// Explicit depth with omitted (default) history kind.
#[test]
fn decode_explicit_depth_default_kind() {
    let qos = QosProfile::decode("::,100:,:,:,,").expect("explicit depth must decode");
    assert_eq!(qos.history, QosHistory::KeepLast(100));
}

/// Keep-all history (`2,`): the depth may be empty.
#[test]
fn decode_keep_all() {
    let qos = QosProfile::decode("::2,:,:,:,,").expect("keep-all must decode");
    assert_eq!(qos.history, QosHistory::KeepAll);
}

/// Round trip through the encoder.
#[test]
fn encode_decode_roundtrip() {
    let qos = QosProfile {
        reliability: QosReliability::BestEffort,
        durability: QosDurability::TransientLocal,
        history: QosHistory::KeepLast(7),
    };
    let decoded = QosProfile::decode(&qos.encode()).expect("roundtrip");
    assert_eq!(decoded, qos);
}

/// Garbage in the history kind is an error.
#[test]
fn decode_invalid_history_kind_rejected() {
    assert_eq!(
        QosProfile::decode("::x,:,:,:,,"),
        Err(QosDecodeError::InvalidHistory)
    );
}
