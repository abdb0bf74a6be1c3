use base64::Engine;
use flowmq_router::{
    apply_compression, apply_transformation, apply_transformation_at, compress_data, copy_message, json_envelope_of, parse_transformation, set_header,
    topic_matches, transform_with, Message, MessageRouter, Protocol, RouteRule, RouterError,
    Transformation,
};
use tokio::sync::mpsc;

fn message(protocol: Protocol, topic: &str, payload: &[u8]) -> Message {
    Message {
        id: "test_msg".into(),
        protocol,
        topic: topic.into(),
        payload: payload.to_vec(),
        headers: Vec::new(),
        timestamp: 0,
        qos: 0,
        retain: false,
    }
}

fn rule(
    id: &str,
    source: Protocol,
    targets: Vec<Protocol>,
    pattern: &str,
    transformation: Option<&str>,
    enabled: bool,
) -> RouteRule {
    RouteRule {
        id: id.into(),
        source_protocol: source,
        target_protocols: targets,
        topic_pattern: pattern.into(),
        transformation: transformation.map(|t| t.to_string()),
        enabled,
    }
}

fn header<'a>(m: &'a Message, key: &str) -> Option<&'a str> {
    m.headers.iter().find(|(k, _)| k == key).map(|(_, v)| v.as_str())
}

#[test]
fn test_message_routing() {
    let mut router = MessageRouter::new();
    let (tx, mut rx) = mpsc::unbounded_channel();
    router.register_protocol_handler(Protocol::MQTT, tx);
    let rule = RouteRule {
        id: "test_rule".into(),
        source_protocol: Protocol::AMQP,
        target_protocols: vec![Protocol::MQTT],
        topic_pattern: "test/*".into(),
        transformation: None,
        enabled: true,
    };
    router.add_route_rule(rule).unwrap();
    let message = Message {
        id: "test_msg".into(),
        protocol: Protocol::AMQP,
        topic: "test/topic".into(),
        payload: b"Hello, World!".to_vec(),
        headers: Vec::new(),
        timestamp: 0,
        qos: 0,
        retain: false,
    };
    router.route_message(message).unwrap();
    let routed_message = rx.try_recv().unwrap();
    assert_eq!(routed_message.topic, "test/topic");
    assert_eq!(routed_message.payload, b"Hello, World!");
}

#[test]
fn scenario_amqp_to_mqtt_counts_routed() {
    let mut router = MessageRouter::new();
    let (tx, mut rx) = mpsc::unbounded_channel();
    router.register_protocol_handler(Protocol::MQTT, tx);
    router
        .add_route_rule(rule("test_rule", Protocol::AMQP, vec![Protocol::MQTT], "test/*", None, true))
        .unwrap();
    router.route_message(message(Protocol::AMQP, "test/topic", b"Hello, World!")).unwrap();
    let got = rx.try_recv().unwrap();
    assert_eq!(got.topic, "test/topic");
    assert_eq!(got.payload, b"Hello, World!".to_vec());
    let metrics = router.get_metrics().unwrap();
    assert_eq!(metrics.messages_routed, 1);
    assert_eq!(metrics.messages_dropped, 0);
    let out = metrics.stats_for(Protocol::MQTT).unwrap();
    assert_eq!(out.messages_out, 1);
    assert_eq!(out.bytes_out, 13);
    assert!(metrics.stats_for(Protocol::AMQP).is_none());
}

#[test]
fn literal_patterns_match_only_equal_topics() {
    assert!(topic_matches("a/b", "a/b"));
    assert!(!topic_matches("a/b", "a/c"));
    assert!(!topic_matches("a/b/c", "a/b"));
    assert!(!topic_matches("", "a"));
    assert!(topic_matches("", ""));
}

#[test]
fn star_matches_everything() {
    assert!(topic_matches("", "*"));
    assert!(topic_matches("anything/at/all", "*"));
    assert!(topic_matches("*", "*"));
}

#[test]
fn single_wildcard_prefix_and_suffix() {
    assert!(topic_matches("test/topic", "test/*"));
    assert!(topic_matches("sensors/temp/value", "sensors/*/value"));
    assert!(!topic_matches("other/topic", "test/*"));
    assert!(!topic_matches("sensors/temp/other", "sensors/*/value"));
    assert!(topic_matches("abc", "*abc"));
}

#[test]
fn single_wildcard_overlap_allows_short_topics() {
    // "ab" starts with "ab" and ends with "b", though it is shorter than both together.
    assert!(topic_matches("ab", "ab*b"));
    assert!(topic_matches("aba", "ab*ba"));
    assert!(!topic_matches("a", "ab*b"));
}

#[test]
fn several_wildcards_fall_back_to_equality() {
    assert!(topic_matches("a*b*c", "a*b*c"));
    assert!(!topic_matches("axbyc", "a*b*c"));
    assert!(!topic_matches("anything", "**"));
}

#[test]
fn duplicate_rule_is_rejected_and_first_kept() {
    let mut router = MessageRouter::new();
    router.add_route_rule(rule("r1", Protocol::AMQP, vec![Protocol::MQTT], "a", None, true)).unwrap();
    let second = router.add_route_rule(rule("r1", Protocol::Kafka, vec![Protocol::NATS], "b", None, true));
    match second {
        Err(RouterError::DuplicateRule(id)) => assert_eq!(id, "r1"),
        other => panic!("unexpected: {:?}", other),
    }
    assert_eq!(router.rule_ids(), vec!["r1".to_string()]);
}

#[test]
fn removing_missing_rule_fails_and_keeps_store() {
    let mut router = MessageRouter::new();
    router.add_route_rule(rule("r1", Protocol::AMQP, vec![Protocol::MQTT], "a", None, true)).unwrap();
    router.add_route_rule(rule("r2", Protocol::AMQP, vec![Protocol::MQTT], "b", None, true)).unwrap();
    match router.remove_route_rule("nope") {
        Err(RouterError::RuleNotFound(id)) => assert_eq!(id, "nope"),
        other => panic!("unexpected: {:?}", other),
    }
    assert_eq!(router.rule_ids(), vec!["r1".to_string(), "r2".to_string()]);
}

#[test]
fn removing_rule_keeps_order_of_the_rest() {
    let mut router = MessageRouter::new();
    for id in ["r1", "r2", "r3"] {
        router.add_route_rule(rule(id, Protocol::AMQP, vec![Protocol::MQTT], "a", None, true)).unwrap();
    }
    router.remove_route_rule("r2").unwrap();
    assert_eq!(router.rule_ids(), vec!["r1".to_string(), "r3".to_string()]);
    router.remove_route_rule("r1").unwrap();
    router.remove_route_rule("r3").unwrap();
    assert!(router.rule_ids().is_empty());
}

#[test]
fn unmatched_message_is_dropped() {
    let mut router = MessageRouter::new();
    let (tx, mut rx) = mpsc::unbounded_channel();
    router.register_protocol_handler(Protocol::MQTT, tx);
    let (tx_in, _rx_in) = mpsc::unbounded_channel();
    router.register_protocol_handler(Protocol::AMQP, tx_in);
    router.add_route_rule(rule("r", Protocol::AMQP, vec![Protocol::MQTT], "test/*", None, true)).unwrap();
    router.route_message(message(Protocol::AMQP, "other/topic", b"xyz")).unwrap();
    router.route_message(message(Protocol::Kafka, "test/topic", b"xyz")).unwrap();
    assert!(rx.try_recv().is_err());
    let metrics = router.get_metrics().unwrap();
    assert_eq!(metrics.messages_dropped, 2);
    assert_eq!(metrics.messages_routed, 0);
    let amqp = metrics.stats_for(Protocol::AMQP).unwrap();
    assert_eq!(amqp.messages_in, 1);
    assert_eq!(amqp.bytes_in, 3);
}

#[test]
fn two_targets_each_get_a_copy() {
    let mut router = MessageRouter::new();
    let (tx_m, mut rx_m) = mpsc::unbounded_channel();
    let (tx_k, mut rx_k) = mpsc::unbounded_channel();
    router.register_protocol_handler(Protocol::MQTT, tx_m);
    router.register_protocol_handler(Protocol::Kafka, tx_k);
    router
        .add_route_rule(rule("fan", Protocol::HTTP, vec![Protocol::MQTT, Protocol::Kafka], "*", None, true))
        .unwrap();
    router.route_message(message(Protocol::HTTP, "x", b"12345")).unwrap();
    assert_eq!(rx_m.try_recv().unwrap().payload, b"12345".to_vec());
    assert_eq!(rx_k.try_recv().unwrap().payload, b"12345".to_vec());
    assert!(rx_m.try_recv().is_err());
    let metrics = router.get_metrics().unwrap();
    assert_eq!(metrics.messages_routed, 1);
    assert_eq!(metrics.messages_dropped, 0);
    for p in [Protocol::MQTT, Protocol::Kafka] {
        let st = metrics.stats_for(p).unwrap();
        assert_eq!(st.messages_out, 1);
        assert_eq!(st.bytes_out, 5);
        assert_eq!(st.errors, 0);
    }
}

#[test]
fn duplicate_targets_deliver_twice() {
    let mut router = MessageRouter::new();
    let (tx, mut rx) = mpsc::unbounded_channel();
    router.register_protocol_handler(Protocol::NATS, tx);
    router
        .add_route_rule(rule("dup", Protocol::AMQP, vec![Protocol::NATS, Protocol::NATS], "t", None, true))
        .unwrap();
    router.route_message(message(Protocol::AMQP, "t", b"ab")).unwrap();
    assert!(rx.try_recv().is_ok());
    assert!(rx.try_recv().is_ok());
    let st = router.get_metrics().unwrap().stats_for(Protocol::NATS).unwrap();
    assert_eq!(st.messages_out, 2);
    assert_eq!(st.bytes_out, 4);
}

#[test]
fn unregistered_target_is_skipped() {
    let mut router = MessageRouter::new();
    router.add_route_rule(rule("r", Protocol::AMQP, vec![Protocol::MQTT], "*", None, true)).unwrap();
    router.route_message(message(Protocol::AMQP, "t", b"ab")).unwrap();
    let metrics = router.get_metrics().unwrap();
    assert_eq!(metrics.messages_dropped, 1);
    assert_eq!(metrics.messages_routed, 0);
}

#[test]
fn disabled_rule_never_routes() {
    let mut router = MessageRouter::new();
    let (tx, mut rx) = mpsc::unbounded_channel();
    router.register_protocol_handler(Protocol::MQTT, tx);
    router.add_route_rule(rule("off", Protocol::AMQP, vec![Protocol::MQTT], "*", None, false)).unwrap();
    router.route_message(message(Protocol::AMQP, "t", b"ab")).unwrap();
    assert!(rx.try_recv().is_err());
    let metrics = router.get_metrics().unwrap();
    assert_eq!(metrics.messages_dropped, 1);
    assert_eq!(metrics.messages_routed, 0);
}

#[test]
fn closed_channel_counts_an_error() {
    let mut router = MessageRouter::new();
    let (tx, rx) = mpsc::unbounded_channel::<Message>();
    drop(rx);
    router.register_protocol_handler(Protocol::MQTT, tx);
    router.add_route_rule(rule("r", Protocol::AMQP, vec![Protocol::MQTT], "*", None, true)).unwrap();
    router.route_message(message(Protocol::AMQP, "t", b"ab")).unwrap();
    let metrics = router.get_metrics().unwrap();
    assert_eq!(metrics.messages_dropped, 1);
    assert_eq!(metrics.messages_routed, 0);
    let st = metrics.stats_for(Protocol::MQTT).unwrap();
    assert_eq!(st.errors, 1);
    assert_eq!(st.messages_out, 0);
}

#[test]
fn invalid_transformation_stops_routing() {
    let mut router = MessageRouter::new();
    let (tx, mut rx) = mpsc::unbounded_channel();
    router.register_protocol_handler(Protocol::MQTT, tx);
    router
        .add_route_rule(rule("bad", Protocol::AMQP, vec![Protocol::MQTT], "*", Some("bogus"), true))
        .unwrap();
    match router.route_message(message(Protocol::AMQP, "t", b"ab")) {
        Err(RouterError::InvalidTransformation(id)) => assert_eq!(id, "bogus"),
        other => panic!("unexpected: {:?}", other),
    }
    assert!(rx.try_recv().is_err());
    let metrics = router.get_metrics().unwrap();
    assert_eq!(metrics.messages_dropped, 0);
    assert_eq!(metrics.messages_routed, 0);
}

#[test]
fn rule_transformation_reaches_the_target() {
    let mut router = MessageRouter::new();
    let (tx, mut rx) = mpsc::unbounded_channel();
    router.register_protocol_handler(Protocol::Kafka, tx);
    router
        .add_route_rule(rule("json", Protocol::MQTT, vec![Protocol::Kafka], "*", Some("to_json"), true))
        .unwrap();
    router.route_message(message(Protocol::MQTT, "t", b"hi")).unwrap();
    let got = rx.try_recv().unwrap();
    assert_eq!(got.payload, b"{\"data\": \"aGk=\"}".to_vec());
    assert_eq!(header(&got, "content-type"), Some("application/json"));
    let st = router.get_metrics().unwrap().stats_for(Protocol::Kafka).unwrap();
    assert_eq!(st.bytes_out, 2);
}

#[test]
fn to_json_wraps_base64_payload() {
    let m = apply_transformation(message(Protocol::AMQP, "t", b"hi"), &"to_json".to_string()).unwrap();
    assert_eq!(header(&m, "content-type"), Some("application/json"));
    let body = String::from_utf8(m.payload.clone()).unwrap();
    let inner = body.strip_prefix("{\"data\": \"").unwrap().strip_suffix("\"}").unwrap();
    let decoded = base64::engine::general_purpose::STANDARD.decode(inner).unwrap();
    assert_eq!(decoded, b"hi".to_vec());
    assert_eq!(m.topic, "t");
}

#[test]
fn to_json_of_empty_payload() {
    let m = transform_with(message(Protocol::AMQP, "t", b""), Transformation::ToJson, "").unwrap();
    assert_eq!(m.payload, b"{\"data\": \"\"}".to_vec());
}

#[test]
fn add_timestamp_records_epoch_seconds() {
    let m = apply_transformation(message(Protocol::AMQP, "t", b"p"), &"add_timestamp".to_string()).unwrap();
    let stamp = header(&m, "processed_at").unwrap();
    assert!(!stamp.is_empty());
    assert!(stamp.chars().all(|c| c.is_ascii_digit() || c == '-'));
    assert_eq!(m.payload, b"p".to_vec());
}

#[test]
fn add_timestamp_with_given_stamp() {
    let m = transform_with(message(Protocol::AMQP, "t", b"p"), Transformation::AddTimestamp, "1700000000").unwrap();
    assert_eq!(header(&m, "processed_at"), Some("1700000000"));
    assert_eq!(m.headers.len(), 1);
}

#[test]
fn compress_without_codec_announces_nothing() {
    let m = apply_transformation(message(Protocol::AMQP, "t", b"abc"), &"compress".to_string()).unwrap();
    assert_eq!(m.payload, b"abc".to_vec());
    assert_eq!(header(&m, "content-encoding"), None);
    assert!(m.headers.is_empty());
    assert_eq!(compress_data(b"xyz").unwrap(), None);
}

#[test]
fn applied_compression_sets_gzip_header() {
    let encoded = vec![0x1f, 0x8b, 0x08, 0x00];
    let m = apply_compression(message(Protocol::AMQP, "t", b"abc"), Some(encoded.clone()));
    assert_eq!(m.payload, encoded);
    assert_eq!(header(&m, "content-encoding"), Some("gzip"));
    let n = apply_compression(message(Protocol::AMQP, "t", b"abc"), None);
    assert_eq!(n.payload, b"abc".to_vec());
    assert!(n.headers.is_empty());
}

#[test]
fn copy_message_keeps_everything() {
    let mut m = message(Protocol::NATS, "a/b", b"xyz");
    m.headers.push(("k".to_string(), "v".to_string()));
    m.qos = 2;
    m.retain = true;
    m.timestamp = 42;
    let c = copy_message(&m);
    assert_eq!(c.id, m.id);
    assert_eq!(c.protocol, m.protocol);
    assert_eq!(c.topic, m.topic);
    assert_eq!(c.payload, m.payload);
    assert_eq!(c.headers, m.headers);
    assert_eq!((c.timestamp, c.qos, c.retain), (42, 2, true));
}

#[test]
fn unknown_transformation_is_rejected() {
    match apply_transformation(message(Protocol::AMQP, "t", b"abc"), &"rot13".to_string()) {
        Err(RouterError::InvalidTransformation(id)) => assert_eq!(id, "rot13"),
        other => panic!("unexpected: {:?}", other),
    }
    assert_eq!(parse_transformation(&"to_json".to_string()), Some(Transformation::ToJson));
    assert_eq!(parse_transformation(&"TO_JSON".to_string()), None);
}

#[test]
fn set_header_replaces_existing_value() {
    let mut h = vec![("a".to_string(), "1".to_string()), ("b".to_string(), "2".to_string())];
    set_header(&mut h, "a", "3");
    assert_eq!(h, vec![("a".to_string(), "3".to_string()), ("b".to_string(), "2".to_string())]);
    set_header(&mut h, "c", "4");
    assert_eq!(h.len(), 3);
    assert_eq!(h[2], ("c".to_string(), "4".to_string()));
}

#[test]
fn json_envelope_bytes() {
    assert_eq!(json_envelope_of(&b"QQ==".to_vec()), b"{\"data\": \"QQ==\"}".to_vec());
}

#[test]
fn registering_again_resets_counters() {
    let mut router = MessageRouter::new();
    let (tx, _rx) = mpsc::unbounded_channel();
    router.register_protocol_handler(Protocol::AMQP, tx);
    router.route_message(message(Protocol::AMQP, "t", b"abcd")).unwrap();
    assert_eq!(router.get_metrics().unwrap().stats_for(Protocol::AMQP).unwrap().messages_in, 1);
    let (tx2, _rx2) = mpsc::unbounded_channel();
    router.register_protocol_handler(Protocol::AMQP, tx2);
    let metrics = router.get_metrics().unwrap();
    assert_eq!(metrics.stats_for(Protocol::AMQP).unwrap().messages_in, 0);
    assert_eq!(metrics.protocol_stats.len(), 1);
    assert!(router.has_handler(Protocol::AMQP));
    assert!(!router.has_handler(Protocol::HTTP));
}

#[test]
fn error_descriptions() {
    assert_eq!(RouterError::LockError("x".into()).to_string(), "Lock error: x");
    assert_eq!(RouterError::DuplicateRule("r".into()).to_string(), "Duplicate rule ID: r");
    assert_eq!(RouterError::RuleNotFound("r".into()).to_string(), "Rule not found: r");
    assert_eq!(
        RouterError::InvalidTransformation("t".into()).to_string(),
        "Invalid transformation: t"
    );
    assert_eq!(RouterError::CompressionError("c".into()).to_string(), "Compression error: c");
}

#[test]
fn apply_transformation_at_uses_given_stamp() {
    let m = apply_transformation_at(
        message(Protocol::AMQP, "t", b"p"),
        &"add_timestamp".to_string(),
        "-5",
    )
    .unwrap();
    assert_eq!(header(&m, "processed_at"), Some("-5"));
    match apply_transformation_at(message(Protocol::AMQP, "t", b"p"), &"zip".to_string(), "1") {
        Err(RouterError::InvalidTransformation(id)) => assert_eq!(id, "zip"),
        other => panic!("unexpected: {:?}", other),
    }
}

#[test]
fn targets_of_one_rule_get_identical_stamped_copies() {
    let mut router = MessageRouter::new();
    let (tx_m, mut rx_m) = mpsc::unbounded_channel();
    let (tx_k, mut rx_k) = mpsc::unbounded_channel();
    router.register_protocol_handler(Protocol::MQTT, tx_m);
    router.register_protocol_handler(Protocol::Kafka, tx_k);
    router
        .add_route_rule(rule(
            "stamp",
            Protocol::HTTP,
            vec![Protocol::MQTT, Protocol::Kafka],
            "*",
            Some("add_timestamp"),
            true,
        ))
        .unwrap();
    router.route_message(message(Protocol::HTTP, "x", b"abc")).unwrap();
    let a = rx_m.try_recv().unwrap();
    let b = rx_k.try_recv().unwrap();
    assert_eq!(a.headers, b.headers);
    assert_eq!(a.payload, b.payload);
    let stamp = header(&a, "processed_at").unwrap();
    assert!(stamp.parse::<i64>().is_ok());
}

#[test]
fn base64_length_of_three_byte_groups() {
    let m = transform_with(message(Protocol::AMQP, "t", b"abcd"), Transformation::ToJson, "").unwrap();
    assert_eq!(m.payload, b"{\"data\": \"YWJjZA==\"}".to_vec());
}
