use mqtt_item::{
    FieldDecl, FieldType, FieldValue, Message, MqttDeserializeError, MqttSerializeError,
    Pattern, PayloadHook, Registry, Schema, SchemaError, Topic,
};

fn field(name: &str, ty: FieldType) -> FieldDecl {
    FieldDecl { name: name.to_string(), ty }
}

fn text(s: &str) -> FieldValue {
    FieldValue::Text(s.to_string())
}

fn message(tag: &str, values: Vec<FieldValue>) -> Message {
    Message { tag: tag.to_string(), values }
}

fn schema(
    tag: &str,
    fields: Vec<FieldDecl>,
    topic: &str,
    payload: Option<&str>,
    hook: PayloadHook,
) -> Schema {
    Schema::new(tag.to_string(), fields, topic, payload, hook).unwrap()
}

fn mqtt_update() -> Registry {
    let mut reg = Registry::new();
    let named = || {
        vec![
            field("name", FieldType::Text),
            field("id", FieldType::U32),
            field("payload", FieldType::Text),
        ]
    };
    reg.register(schema("Variant1", named(), "<id>/<name>", Some("<payload>"), PayloadHook::Json))
        .unwrap();
    reg.register(schema("Variant2", named(), "<id>/<name>/<payload>", None, PayloadHook::Json))
        .unwrap();
    reg.register(schema(
        "Variant3",
        vec![field("name", FieldType::Text), field("id", FieldType::U32)],
        "<id>",
        Some("<name>"),
        PayloadHook::Json,
    ))
    .unwrap();
    reg.register(schema(
        "Variant4",
        vec![field("0", FieldType::U32)],
        "v4/hello/world/<0>",
        None,
        PayloadHook::Json,
    ))
    .unwrap();
    reg.register(schema(
        "Variant5",
        vec![field("name", FieldType::Text), field("id", FieldType::OptionalU32)],
        "v5/hello/world/<name>",
        Some("<id>"),
        PayloadHook::EmptyAsAbsent,
    ))
    .unwrap();
    reg
}

#[test]
fn clearable() {
    let reg = mqtt_update();
    let topic = Topic::from_str("v5/hello/world/steve");
    let payload = b"";
    let val = reg.decode(&topic, payload).unwrap();

    let correct = message("Variant5", vec![text("steve"), FieldValue::OptionalU32(None)]);

    assert_eq!(correct, val);
}

#[test]
fn ordering() {
    let reg = mqtt_update();
    let (v1, v2, v3, v4) = (
        message("Variant1", vec![text("name1"), FieldValue::U32(1), text("payload1")]),
        message("Variant2", vec![text("name2"), FieldValue::U32(2), text("payload2")]),
        message("Variant3", vec![text("name3"), FieldValue::U32(3)]),
        message("Variant4", vec![FieldValue::U32(4)]),
    );

    let cases = vec![
        (v1, "1/name1", r#""payload1""#),
        (v2, "2/name2/payload2", ""),
        (v3, "3", r#""name3""#),
        (v4, "v4/hello/world/4", ""),
    ];
    for (input, expected_topic, expected_payload) in cases {
        let (topic, payload) = reg.encode(&input).unwrap();
        assert_eq!(topic.str(), expected_topic);
        assert_eq!(std::str::from_utf8(&payload).unwrap(), expected_payload);

        let out = reg.decode(&topic, &payload);
        assert_eq!(Ok(input), out);
    }
}

#[test]
fn topic_can_match_detection() {
    let p = |s: &str| Pattern::from_string(s).unwrap();

    assert!(p("<hello>/world").equivalent_to(&p("hello/<world>")));
    assert!(p("hello/world").equivalent_to(&p("hello/<world>")));
    assert!(!p("hello/world2").equivalent_to(&p("hello/world")));
    assert!(!p("hello/world2").equivalent_to(&p("<hello>/world")));
    assert!(!p("hello/world/again").equivalent_to(&p("hello/<world>")));
    assert!(p("hello/world/again").equivalent_to(&p("hello/<world>/again")));
}

#[test]
fn equivalent_patterns_are_ambiguous() {
    let two = || vec![field("id", FieldType::U32), field("name", FieldType::Text)];
    let other = || vec![field("x", FieldType::U32), field("y", FieldType::Text)];
    let mut reg = Registry::new();
    reg.register(schema("A", two(), "<id>/<name>", None, PayloadHook::Json)).unwrap();
    let err = reg.register(schema("B", other(), "<x>/<y>", None, PayloadHook::Json)).unwrap_err();
    assert!(matches!(err, SchemaError::AmbiguousTopic(ref a, ref b) if a == "B" && b == "A"));

    let mut reg = Registry::new();
    reg.register(schema("A", vec![field("x", FieldType::Text)], "a/<x>", None, PayloadHook::Json))
        .unwrap();
    let err = reg
        .register(schema("B", vec![field("p", FieldType::Text)], "a/b", Some("<p>"), PayloadHook::Json))
        .unwrap_err();
    assert!(matches!(err, SchemaError::AmbiguousTopic(ref a, ref b) if a == "B" && b == "A"));
    assert_eq!(reg.schemas().len(), 1);
}

#[test]
fn unbound_field_is_reported() {
    let fields = vec![
        field("name", FieldType::Text),
        field("id", FieldType::U32),
        field("payload", FieldType::Text),
    ];
    let err = Schema::new("V".to_string(), fields, "<id>/<name>", None, PayloadHook::Json)
        .unwrap_err();
    assert!(matches!(err, SchemaError::UnusedFields(ref v) if v == &vec!["payload".to_string()]));
}

#[test]
fn field_bound_twice_is_reported() {
    let fields = vec![field("id", FieldType::U32)];
    let err = Schema::new("V".to_string(), fields, "<id>/<id>", None, PayloadHook::Json)
        .unwrap_err();
    assert!(matches!(err, SchemaError::DuplicateFieldUse(ref n) if n == "id"));

    let fields = vec![field("id", FieldType::U32)];
    let err = Schema::new("V".to_string(), fields, "<id>", Some("<id>"), PayloadHook::Json)
        .unwrap_err();
    assert!(matches!(err, SchemaError::DuplicateFieldUse(ref n) if n == "id"));
}

#[test]
fn other_registration_errors() {
    let err = Schema::new("V".to_string(), vec![field("a", FieldType::U32)], "x//<a>", None, PayloadHook::Json)
        .unwrap_err();
    assert!(matches!(err, SchemaError::MalformedPattern));
    let err = Schema::new("V".to_string(), vec![field("a", FieldType::U32)], "<a>", Some("a"), PayloadHook::Json)
        .unwrap_err();
    assert!(matches!(err, SchemaError::MalformedPattern));
    let err = Schema::new("V".to_string(), vec![field("a", FieldType::U32)], "<b>", None, PayloadHook::Json)
        .unwrap_err();
    assert!(matches!(err, SchemaError::UnknownField(ref n) if n == "b"));
    let err = Schema::new(
        "V".to_string(),
        vec![field("a", FieldType::OptionalU32)],
        "x/<a>",
        None,
        PayloadHook::Json,
    )
    .unwrap_err();
    assert!(matches!(err, SchemaError::UnsupportedParameterType(ref n) if n == "a"));
}

#[test]
fn longer_pattern_is_tried_first() {
    let mut reg = Registry::new();
    reg.register(schema("Short", vec![field("id", FieldType::U32)], "<id>", None, PayloadHook::Json))
        .unwrap();
    reg.register(schema(
        "Long",
        vec![field("id", FieldType::U32), field("name", FieldType::Text)],
        "<id>/<name>",
        None,
        PayloadHook::Json,
    ))
    .unwrap();
    let out = reg.decode(&Topic::from_str("3/alice"), b"").unwrap();
    assert_eq!(out, message("Long", vec![FieldValue::U32(3), text("alice")]));
    let out = reg.decode(&Topic::from_str("3"), b"").unwrap();
    assert_eq!(out, message("Short", vec![FieldValue::U32(3)]));
}

#[test]
fn literal_prefix_wins_over_parameter() {
    let mut reg = Registry::new();
    reg.register(schema("Id", vec![field("id", FieldType::U32)], "<id>", None, PayloadHook::Json))
        .unwrap();
    reg.register(schema(
        "Hello",
        vec![field("x", FieldType::U32)],
        "v4/hello/world/<x>",
        None,
        PayloadHook::Json,
    ))
    .unwrap();
    let out = reg.decode(&Topic::from_str("v4/hello/world/7"), b"").unwrap();
    assert_eq!(out, message("Hello", vec![FieldValue::U32(7)]));
}

#[test]
fn named_shape_with_string_payload() {
    let reg = mqtt_update();
    let v = message("Variant1", vec![text("name1"), FieldValue::U32(1), text("payload1")]);
    let (topic, payload) = reg.encode(&v).unwrap();
    assert_eq!(topic.str(), "1/name1");
    assert_eq!(payload, b"\"payload1\"".to_vec());
    assert_eq!(reg.decode(&Topic::from_str("1/name1"), &payload), Ok(v));
}

#[test]
fn positional_shape_without_payload() {
    let reg = mqtt_update();
    let v = message("Variant4", vec![FieldValue::U32(7)]);
    let (topic, payload) = reg.encode(&v).unwrap();
    assert_eq!(topic.str(), "v4/hello/world/7");
    assert!(payload.is_empty());
    assert_eq!(reg.decode(&topic, &payload), Ok(v));
}

#[test]
fn optional_payload_round_trip() {
    let reg = mqtt_update();
    let absent = message("Variant5", vec![text("steve"), FieldValue::OptionalU32(None)]);
    let (topic, payload) = reg.encode(&absent).unwrap();
    assert_eq!(topic.str(), "v5/hello/world/steve");
    assert!(payload.is_empty());
    let present = message("Variant5", vec![text("steve"), FieldValue::OptionalU32(Some(12))]);
    let (topic, payload) = reg.encode(&present).unwrap();
    assert_eq!(payload, b"12".to_vec());
    assert_eq!(reg.decode(&topic, &payload), Ok(present));
}

#[test]
fn json_optional_payload() {
    let mut reg = Registry::new();
    reg.register(schema(
        "Opt",
        vec![field("n", FieldType::Text), field("v", FieldType::OptionalU32)],
        "opt/<n>",
        Some("<v>"),
        PayloadHook::Json,
    ))
    .unwrap();
    let none = message("Opt", vec![text("a"), FieldValue::OptionalU32(None)]);
    let (topic, payload) = reg.encode(&none).unwrap();
    assert_eq!(payload, b"null".to_vec());
    assert_eq!(reg.decode(&topic, &payload), Ok(none));
    let some = message("Opt", vec![text("a"), FieldValue::OptionalU32(Some(5))]);
    let (topic, payload) = reg.encode(&some).unwrap();
    assert_eq!(payload, b"5".to_vec());
    assert_eq!(reg.decode(&topic, &payload), Ok(some));
    assert_eq!(reg.decode(&topic, b""), Err(MqttDeserializeError::Invalid));
}

#[test]
fn unmatched_messages_are_invalid() {
    let reg = mqtt_update();
    let invalid = Err(MqttDeserializeError::Invalid);
    assert_eq!(reg.decode(&Topic::from_str("a/b/c/d/e"), b""), invalid);
    assert_eq!(reg.decode(&Topic::from_str("v6/hello/world/1"), b""), invalid);
    assert_eq!(reg.decode(&Topic::from_str("x"), b"\"n\""), invalid);
    assert_eq!(reg.decode(&Topic::from_str("3"), b"not json"), invalid);
    assert_eq!(reg.decode(&Topic::from_str("3"), &[0xff, 0xfe]), invalid);
    assert_eq!(reg.decode(&Topic::from_str("4294967296"), b"\"n\""), invalid);
}

#[test]
fn topic_number_accepts_plus_sign() {
    let reg = mqtt_update();
    let out = reg.decode(&Topic::from_str("v4/hello/world/+8"), b"").unwrap();
    assert_eq!(out, message("Variant4", vec![FieldValue::U32(8)]));
}

#[test]
fn encode_refuses_unknown_shapes() {
    let reg = mqtt_update();
    assert_eq!(
        reg.encode(&message("Nope", vec![FieldValue::U32(1)])).unwrap_err(),
        MqttSerializeError::UnknownShape
    );
    assert_eq!(
        reg.encode(&message("Variant4", vec![text("x")])).unwrap_err(),
        MqttSerializeError::UnknownShape
    );
}

#[test]
fn filter_strings_without_repeats() {
    let reg = mqtt_update();
    assert_eq!(
        reg.all_filter_strings(),
        vec!["+/+", "+/+/+", "+", "v4/hello/world/+", "v5/hello/world/+"]
    );
    let p = Pattern::from_string("a/<b>/c").unwrap();
    assert_eq!(p.filter_string(), "a/+/c");
    assert!(p.contains(&"b".to_string()));
    assert!(!p.contains(&"a".to_string()));
    assert_eq!(Pattern::from_string("").unwrap().len(), 0);
}

#[test]
fn json_payload_codec() {
    let mut out = b"x".to_vec();
    mqtt_item::serde_json_serialize(&mut out, &text("a\"b")).unwrap();
    assert_eq!(out, b"x\"a\\\"b\"".to_vec());
    let mut out = Vec::new();
    mqtt_item::serde_json_serialize(&mut out, &FieldValue::U32(42)).unwrap();
    assert_eq!(out, b"42".to_vec());
    assert_eq!(
        mqtt_item::serde_json_deserialize(FieldType::Text, b"\"hi\""),
        Ok(text("hi"))
    );
    assert_eq!(
        mqtt_item::serde_json_deserialize(FieldType::U32, b"17"),
        Ok(FieldValue::U32(17))
    );
    assert_eq!(
        mqtt_item::serde_json_deserialize(FieldType::U32, &[0xc3, 0x28]),
        Err(MqttDeserializeError::NotUtf8)
    );
    assert_eq!(
        mqtt_item::serde_json_deserialize(FieldType::U32, b"\"17\""),
        Err(MqttDeserializeError::Serde)
    );
}

#[test]
fn empty_as_absent_payload_codec() {
    let mut out = Vec::new();
    mqtt_item::zero_bytes_option_ser(&mut out, None).unwrap();
    assert!(out.is_empty());
    mqtt_item::zero_bytes_option_ser(&mut out, Some(9)).unwrap();
    assert_eq!(out, b"9".to_vec());
    assert_eq!(mqtt_item::zero_bytes_option_deser(b""), Ok(None));
    assert_eq!(mqtt_item::zero_bytes_option_deser(b"31"), Ok(Some(31)));
    assert_eq!(
        mqtt_item::zero_bytes_option_deser(&[0xff]),
        Err(MqttDeserializeError::NotUtf8)
    );
    assert_eq!(
        mqtt_item::zero_bytes_option_deser(b"null"),
        Err(MqttDeserializeError::Serde)
    );
}

#[test]
fn dispatch_order_longest_first() {
    let reg = mqtt_update();
    assert_eq!(reg.dispatch_order(), vec![3, 4, 1, 0, 2]);
    assert_eq!(Registry::new().dispatch_order(), Vec::<usize>::new());
}

#[test]
fn positional_reference_is_read_as_a_number() {
    let s = schema("P", vec![field("0", FieldType::U32)], "v4/<00>", None, PayloadHook::Json);
    let mut reg = Registry::new();
    reg.register(s).unwrap();
    let v = message("P", vec![FieldValue::U32(9)]);
    let (topic, payload) = reg.encode(&v).unwrap();
    assert_eq!(topic.str(), "v4/9");
    assert_eq!(reg.decode(&topic, &payload), Ok(v));

    let fields = vec![field("0", FieldType::Text), field("1", FieldType::U32)];
    let s = Schema::new("Q".to_string(), fields, "<+1>", Some("<0>"), PayloadHook::Json);
    assert!(s.is_ok());

    let err = Schema::new("R".to_string(), vec![field("0", FieldType::U32)], "<1>", None, PayloadHook::Json)
        .unwrap_err();
    assert!(matches!(err, SchemaError::UnknownField(ref n) if n == "1"));
    let err = Schema::new("R".to_string(), vec![field("0", FieldType::U32)], "<x>", None, PayloadHook::Json)
        .unwrap_err();
    assert!(matches!(err, SchemaError::UnknownField(ref n) if n == "x"));
}

#[test]
fn named_reference_is_matched_by_text() {
    let err = Schema::new("N".to_string(), vec![field("id", FieldType::U32)], "<0>", None, PayloadHook::Json)
        .unwrap_err();
    assert!(matches!(err, SchemaError::UnknownField(ref n) if n == "0"));
}

#[test]
fn repeated_tag_is_refused() {
    let mut reg = Registry::new();
    reg.register(schema("T", vec![field("a", FieldType::U32)], "a/<a>", None, PayloadHook::Json))
        .unwrap();
    let err = reg
        .register(schema("T", vec![field("b", FieldType::U32)], "b/<b>", None, PayloadHook::Json))
        .unwrap_err();
    assert!(matches!(err, SchemaError::DuplicateTag(ref t) if t == "T"));
    assert_eq!(reg.schemas().len(), 1);
}

#[test]
fn decimal_text_of_numbers() {
    assert_eq!(mqtt_item::codec::decimal_text(0), "0");
    assert_eq!(mqtt_item::codec::decimal_text(4294967295), "4294967295");
    assert_eq!(mqtt_item::codec::decimal_text(1200), "1200");
}
