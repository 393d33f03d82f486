use hiroz_protocol::text::{parse_usize_chars, split_chars};
use hiroz_protocol::{
    QosDecodeError, QosDurability, QosHistory, QosProfile, QosReliability, DEFAULT_HISTORY_DEPTH,
};

fn chars(s: &str) -> Vec<char> {
    s.chars().collect()
}

#[test]
fn default_profile_encodes_with_defaults_omitted() {
    assert_eq!(QosProfile::default().encode(), "::,10:,:,:,,");
}

#[test]
fn defaults_of_each_policy() {
    assert_eq!(QosReliability::default(), QosReliability::Reliable);
    assert_eq!(QosDurability::default(), QosDurability::Volatile);
    assert_eq!(QosHistory::default(), QosHistory::KeepLast(DEFAULT_HISTORY_DEPTH));
    assert_eq!(DEFAULT_HISTORY_DEPTH, 10);
}

#[test]
fn encode_non_default_components() {
    let qos = QosProfile {
        reliability: QosReliability::BestEffort,
        durability: QosDurability::TransientLocal,
        history: QosHistory::KeepLast(7),
    };
    assert_eq!(qos.encode(), "2:1:1,7:,:,:,,");
}

#[test]
fn encode_keep_all_and_large_depth() {
    let keep_all = QosProfile {
        reliability: QosReliability::Reliable,
        durability: QosDurability::Volatile,
        history: QosHistory::KeepAll,
    };
    assert_eq!(keep_all.encode(), "::2,:,:,:,,");
    let deep = QosProfile {
        reliability: QosReliability::Reliable,
        durability: QosDurability::Volatile,
        history: QosHistory::KeepLast(1234567),
    };
    assert_eq!(deep.encode(), "::1,1234567:,:,:,,");
    let zero = QosProfile {
        reliability: QosReliability::Reliable,
        durability: QosDurability::Volatile,
        history: QosHistory::KeepLast(0),
    };
    assert_eq!(zero.encode(), "::1,0:,:,:,,");
}

#[test]
fn roundtrip_over_many_profiles() {
    let reliabilities = [QosReliability::Reliable, QosReliability::BestEffort];
    let durabilities = [QosDurability::Volatile, QosDurability::TransientLocal];
    let histories = [
        QosHistory::KeepAll,
        QosHistory::KeepLast(0),
        QosHistory::KeepLast(1),
        QosHistory::KeepLast(10),
        QosHistory::KeepLast(42),
        QosHistory::KeepLast(usize::MAX),
    ];
    for r in reliabilities {
        for d in durabilities {
            for h in histories {
                let qos = QosProfile { reliability: r, durability: d, history: h };
                assert_eq!(QosProfile::decode(&qos.encode()), Ok(qos));
            }
        }
    }
}

#[test]
fn too_few_components_is_invalid_format() {
    assert_eq!(QosProfile::decode(""), Err(QosDecodeError::InvalidFormat));
    assert_eq!(QosProfile::decode("1:1"), Err(QosDecodeError::InvalidFormat));
}

#[test]
fn bad_reliability_and_durability() {
    assert_eq!(QosProfile::decode("3::,"), Err(QosDecodeError::InvalidReliability));
    assert_eq!(QosProfile::decode(":0:,"), Err(QosDecodeError::InvalidDurability));
    // The first bad component decides the error.
    assert_eq!(QosProfile::decode("x:y:z"), Err(QosDecodeError::InvalidReliability));
}

#[test]
fn explicit_policy_values_decode() {
    let qos = QosProfile::decode("1:2:1,5").unwrap();
    assert_eq!(qos.reliability, QosReliability::Reliable);
    assert_eq!(qos.durability, QosDurability::Volatile);
    assert_eq!(qos.history, QosHistory::KeepLast(5));
    let qos = QosProfile::decode("2::0,3").unwrap();
    assert_eq!(qos.reliability, QosReliability::BestEffort);
    assert_eq!(qos.history, QosHistory::KeepLast(3));
}

#[test]
fn history_needs_a_comma() {
    assert_eq!(QosProfile::decode("::5:,:,:,,"), Err(QosDecodeError::InvalidHistory));
}

#[test]
fn keep_all_ignores_depth_text() {
    assert_eq!(QosProfile::decode("::2,junk").unwrap().history, QosHistory::KeepAll);
}

#[test]
fn depth_parsing_follows_usize_from_str() {
    assert_eq!(QosProfile::decode("::1,+5").unwrap().history, QosHistory::KeepLast(5));
    assert_eq!(QosProfile::decode("::1,007").unwrap().history, QosHistory::KeepLast(7));
    assert_eq!(QosProfile::decode("::1,-5"), Err(QosDecodeError::InvalidHistory));
    assert_eq!(QosProfile::decode("::1,+"), Err(QosDecodeError::InvalidHistory));
    assert_eq!(QosProfile::decode("::1,1a"), Err(QosDecodeError::InvalidHistory));
    let too_big = format!("::1,{}0", usize::MAX);
    assert_eq!(QosProfile::decode(&too_big), Err(QosDecodeError::InvalidHistory));
    let max = format!("::1,{}", usize::MAX);
    assert_eq!(QosProfile::decode(&max).unwrap().history, QosHistory::KeepLast(usize::MAX));
}

#[test]
fn trailing_components_are_ignored() {
    let base = QosProfile::decode("2:1:1,9").unwrap();
    assert_eq!(QosProfile::decode("2:1:1,9:anything:at:all"), Ok(base));
    assert_eq!(QosProfile::decode("2:1:1,9,extra"), Ok(base));
}

#[test]
fn non_ascii_text_is_rejected_where_it_stands() {
    assert_eq!(QosProfile::decode("é::,"), Err(QosDecodeError::InvalidReliability));
    assert_eq!(QosProfile::decode("::1,٣"), Err(QosDecodeError::InvalidHistory));
}

#[test]
fn history_depth_and_from_depth() {
    assert_eq!(QosHistory::from_depth(5), QosHistory::KeepLast(5));
    assert_eq!(QosHistory::from_depth(5).depth(), 5);
    assert_eq!(QosHistory::KeepAll.depth(), 0);
}

#[test]
fn error_messages() {
    assert_eq!(QosDecodeError::InvalidFormat.message(), "Invalid QoS format");
    assert_eq!(QosDecodeError::InvalidReliability.message(), "Invalid reliability value");
    assert_eq!(QosDecodeError::InvalidDurability.message(), "Invalid durability value");
    assert_eq!(QosDecodeError::InvalidHistory.message(), "Invalid history value");
}

#[test]
fn split_matches_str_split() {
    for (text, sep) in [("", ':'), (":", ':'), ("a:b::c", ':'), ("1,2,", ','), ("abc", ',')] {
        let pieces: Vec<String> =
            split_chars(&chars(text), sep).iter().map(|p| p.iter().collect()).collect();
        let expected: Vec<String> = text.split(sep).map(|p| p.to_string()).collect();
        assert_eq!(pieces, expected);
    }
}

#[test]
fn parse_matches_usize_from_str() {
    for text in ["", "0", "+", "+0", "12", "-1", "1 ", "18446744073709551615", "18446744073709551616"] {
        assert_eq!(parse_usize_chars(&chars(text)), text.parse::<usize>().ok());
    }
}
