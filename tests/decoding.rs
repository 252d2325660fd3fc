use evm_log_decoder::abi_type::{parse_param_type, ParseError, TypeDescriptor};
use evm_log_decoder::event::{decode_log, DecodeError, raw_log_from_hex, EventParameter, EventSchema, RawLog};
use evm_log_decoder::hexcodec::{parse_hex_bytes, parse_topic, to_prefixed_hex, HexError};
use evm_log_decoder::project::{token_to_json, tokens_to_json};
use evm_log_decoder::registry::{find_event, signature_hash, signature_string, LogError, Registry, SchemaError};
use evm_log_decoder::schema::{build_schemas, parse_event_from_value, Json};
use evm_log_decoder::value::Value;
use ethabi::ParamType;

const TRANSFER_TOPIC: &str = "ddf252ad1be2c89b69c2b068fc378daa952ba7f163c4a11628f55a4df523b3ef";

fn s(x: &str) -> String {
    x.to_string()
}

fn obj(members: Vec<(&str, Json)>) -> Json {
    Json::Object(members.into_iter().map(|(k, v)| (s(k), v)).collect())
}

fn input(name: Option<&str>, ty: &str, indexed: Option<bool>) -> Json {
    let mut m = vec![("type", Json::Str(s(ty)))];
    if let Some(n) = name {
        m.push(("name", Json::Str(s(n))));
    }
    if let Some(i) = indexed {
        m.push(("indexed", Json::Bool(i)));
    }
    obj(m)
}

fn event_entry(name: &str, inputs: Vec<Json>) -> Json {
    obj(vec![
        ("type", Json::Str(s("event"))),
        ("name", Json::Str(s(name))),
        ("inputs", Json::Array(inputs)),
    ])
}

fn param(name: &str, kind: TypeDescriptor, indexed: bool) -> EventParameter {
    EventParameter { name: s(name), kind, indexed }
}

fn transfer_schema() -> EventSchema {
    EventSchema {
        name: s("Transfer"),
        inputs: vec![
            param("from", TypeDescriptor::Address, true),
            param("to", TypeDescriptor::Address, true),
            param("value", TypeDescriptor::Uint(256), false),
        ],
        anonymous: false,
    }
}

fn word_of_u64(v: u64) -> Vec<u8> {
    let mut w = vec![0u8; 32];
    w[24..].copy_from_slice(&v.to_be_bytes());
    w
}

fn address_word(fill: u8) -> Vec<u8> {
    let mut w = vec![0u8; 32];
    for b in w[12..].iter_mut() {
        *b = fill;
    }
    w
}

fn members(j: &Json) -> Vec<(String, Json)> {
    match j {
        Json::Object(ms) => ms.iter().map(|(k, v)| (k.clone(), clone_json(v))).collect(),
        _ => panic!("not an object"),
    }
}

fn clone_json(j: &Json) -> Json {
    match j {
        Json::Null => Json::Null,
        Json::Bool(b) => Json::Bool(*b),
        Json::Number(n) => Json::Number(n.clone()),
        Json::Str(x) => Json::Str(x.clone()),
        Json::Array(a) => Json::Array(a.iter().map(clone_json).collect()),
        Json::Object(ms) => Json::Object(ms.iter().map(|(k, v)| (k.clone(), clone_json(v))).collect()),
    }
}

fn string_param_data(text: &str) -> Vec<u8> {
    let mut d = word_of_u64(0x20);
    d.extend(word_of_u64(text.len() as u64));
    let mut tail = text.as_bytes().to_vec();
    while tail.len() % 32 != 0 {
        tail.push(0);
    }
    d.extend(tail);
    d
}

#[test]
fn parse_type_round_trips_canonical_spellings() {
    for text in ["address", "bool", "string", "bytes", "bytes1", "bytes32", "uint8", "uint256", "int16",
        "address[]", "uint256[][3]", "bool[2][]", "bytes32[4]"] {
        let t = parse_param_type(text).unwrap();
        let schema = EventSchema { name: s("E"), inputs: vec![param("", t, false)], anonymous: false };
        assert_eq!(signature_string(&schema), format!("E({})", text));
    }
}

#[test]
fn parse_type_nested_arrays_peel_rightmost_first() {
    assert_eq!(
        parse_param_type("uint256[][3]").unwrap(),
        TypeDescriptor::FixedArray(Box::new(TypeDescriptor::Array(Box::new(TypeDescriptor::Uint(256)))), 3)
    );
}

#[test]
fn parse_type_bare_integers_default_to_256_bits() {
    assert_eq!(parse_param_type("uint").unwrap(), TypeDescriptor::Uint(256));
    assert_eq!(parse_param_type("int").unwrap(), TypeDescriptor::Int(256));
    assert_eq!(parse_param_type("uint[]").unwrap(), TypeDescriptor::Array(Box::new(TypeDescriptor::Uint(256))));
}

#[test]
fn parse_type_rejects_bad_widths_and_names() {
    for text in ["uint7", "uint264", "int0", "bytes0", "bytes33", "foo", "", "uint256[", "uint256]", "uint256[x]", "tuple"] {
        assert_eq!(parse_param_type(text), Err(ParseError::UnknownType(s(text))), "{}", text);
    }
}

#[test]
fn signature_hash_of_transfer_is_the_known_topic() {
    let schema = transfer_schema();
    assert_eq!(signature_string(&schema), "Transfer(address,address,uint256)");
    assert_eq!(hex::encode(signature_hash(&schema)), TRANSFER_TOPIC);
}

#[test]
fn signature_hash_agrees_with_ethabi() {
    let schema = EventSchema {
        name: s("Mixed"),
        inputs: vec![
            param("a", TypeDescriptor::Array(Box::new(TypeDescriptor::Uint(8))), false),
            param("b", TypeDescriptor::FixedBytes(4), false),
            param("c", TypeDescriptor::Tuple(vec![TypeDescriptor::Bool, TypeDescriptor::String]), false),
        ],
        anonymous: false,
    };
    let expected = ethabi::long_signature(
        "Mixed",
        &[
            ParamType::Array(Box::new(ParamType::Uint(8))),
            ParamType::FixedBytes(4),
            ParamType::Tuple(vec![ParamType::Bool, ParamType::String]),
        ],
    );
    assert_eq!(signature_hash(&schema), expected.as_bytes().to_vec());
}

#[test]
fn signature_hash_is_stable_when_the_abi_is_built_twice() {
    let doc = Json::Array(vec![event_entry("Transfer", vec![
        input(Some("from"), "address", Some(true)),
        input(Some("to"), "address", Some(true)),
        input(Some("value"), "uint256", None),
    ])]);
    let first = build_schemas(&doc).unwrap();
    let second = build_schemas(&doc).unwrap();
    assert_eq!(first, second);
    assert_eq!(signature_hash(&first[0]), signature_hash(&second[0]));
    assert_eq!(hex::encode(signature_hash(&first[0])), TRANSFER_TOPIC);
}

#[test]
fn transfer_static_event_decodes_to_json() {
    let schema = transfer_schema();
    let log = RawLog {
        topics: vec![signature_hash(&schema), address_word(0x11), address_word(0xab)],
        data: word_of_u64(1_000_000_007),
    };
    let values = decode_log(&schema, &log).unwrap();
    let ms = members(&tokens_to_json(&schema, &values));
    assert_eq!(ms.len(), 3);
    assert_eq!(ms[0], (s("from"), Json::Str(format!("0x{}", "11".repeat(20)))));
    assert_eq!(ms[1], (s("to"), Json::Str(format!("0x{}", "ab".repeat(20)))));
    assert_eq!(ms[2], (s("value"), Json::Str(s("1000000007"))));
}

#[test]
fn transfer_decoding_matches_ethabi() {
    let schema = transfer_schema();
    let topics = vec![signature_hash(&schema), address_word(0x22), address_word(0x33)];
    let data = word_of_u64(42);
    let ours = decode_log(&schema, &RawLog { topics: topics.clone(), data: data.clone() }).unwrap();
    let event = ethabi::Event {
        name: s("Transfer"),
        inputs: vec![
            ethabi::EventParam { name: s("from"), kind: ethabi::ParamType::Address, indexed: true },
            ethabi::EventParam { name: s("to"), kind: ethabi::ParamType::Address, indexed: true },
            ethabi::EventParam { name: s("value"), kind: ethabi::ParamType::Uint(256), indexed: false },
        ],
        anonymous: false,
    };
    let raw = ethabi::RawLog {
        topics: topics.iter().map(|t| ethereum_types::H256::from_slice(t)).collect(),
        data,
    };
    let theirs = event.parse_log(raw).unwrap();
    match (&ours[0], &theirs.params[0].value) {
        (Value::Address(a), ethabi::Token::Address(b)) => assert_eq!(a.as_slice(), b.as_bytes()),
        _ => panic!("address expected"),
    }
    match (&ours[2], &theirs.params[2].value) {
        (Value::Uint(w), ethabi::Token::Uint(u)) => assert_eq!(ethereum_types::U256::from_big_endian(w), *u),
        _ => panic!("uint expected"),
    }
}

#[test]
fn string_parameter_decodes_from_tail() {
    let schema = EventSchema { name: s("Said"), inputs: vec![param("message", TypeDescriptor::String, false)], anonymous: false };
    let log = RawLog { topics: vec![signature_hash(&schema)], data: string_param_data("hello") };
    let values = decode_log(&schema, &log).unwrap();
    assert_eq!(values, vec![Value::Str(s("hello"))]);
    let ms = members(&tokens_to_json(&schema, &values));
    assert_eq!(ms, vec![(s("message"), Json::Str(s("hello")))]);
}

#[test]
fn unknown_topic0_is_refused_and_registry_keeps_working() {
    let registry = Registry::new(vec![transfer_schema()]);
    let stray = RawLog { topics: vec![vec![7u8; 32], address_word(1), address_word(2)], data: word_of_u64(5) };
    assert_eq!(registry.decode(&stray), Err(LogError::Schema(SchemaError::UnknownTopic0)));
    assert_eq!(registry.lookup(&vec![7u8; 32]), Err(SchemaError::UnknownTopic0));
    let good = RawLog {
        topics: vec![signature_hash(&transfer_schema()), address_word(1), address_word(2)],
        data: word_of_u64(5),
    };
    let (index, values) = registry.decode(&good).unwrap();
    assert_eq!(index, 0);
    assert_eq!(values[2], Value::Uint(word_of_u64(5)));
    assert_eq!(registry.schemas().len(), 1);
}

#[test]
fn colliding_signatures_resolve_to_the_later_schema() {
    let mut second = transfer_schema();
    second.inputs[0].name = s("sender");
    let registry = Registry::new(vec![transfer_schema(), second]);
    assert_eq!(registry.lookup(&signature_hash(&transfer_schema())), Ok(1));
}

#[test]
fn indexed_string_decodes_to_its_hash_bytes() {
    let schema = EventSchema {
        name: s("Named"),
        inputs: vec![param("label", TypeDescriptor::String, true)],
        anonymous: false,
    };
    let hashed = vec![0x5au8; 32];
    let log = RawLog { topics: vec![signature_hash(&schema), hashed.clone()], data: vec![] };
    let values = decode_log(&schema, &log).unwrap();
    assert_eq!(values, vec![Value::FixedBytes(hashed)]);
    let ms = members(&tokens_to_json(&schema, &values));
    assert_eq!(ms[0].1, Json::Str(format!("0x{}", "5a".repeat(32))));
}

#[test]
fn short_data_is_refused_the_same_way_twice() {
    let schema = transfer_schema();
    let log = RawLog {
        topics: vec![signature_hash(&schema), address_word(1), address_word(2)],
        data: vec![0u8; 31],
    };
    assert_eq!(decode_log(&schema, &log), Err(DecodeError::DataTooShort { param: 2, offset: 0 }));
    assert_eq!(decode_log(&schema, &log), Err(DecodeError::DataTooShort { param: 2, offset: 0 }));
}

#[test]
fn string_length_past_the_end_is_data_too_short() {
    let schema = EventSchema { name: s("Said"), inputs: vec![param("m", TypeDescriptor::String, false)], anonymous: false };
    let mut data = word_of_u64(0x20);
    data.extend(word_of_u64(100));
    data.extend(vec![0u8; 32]);
    let log = RawLog { topics: vec![signature_hash(&schema)], data };
    assert_eq!(decode_log(&schema, &log), Err(DecodeError::DataTooShort { param: 0, offset: 0 }));
}

#[test]
fn offset_into_the_head_is_malformed() {
    let schema = EventSchema { name: s("Said"), inputs: vec![param("m", TypeDescriptor::String, false)], anonymous: false };
    let mut data = word_of_u64(0);
    data.extend(word_of_u64(0));
    let log = RawLog { topics: vec![signature_hash(&schema)], data };
    assert_eq!(decode_log(&schema, &log), Err(DecodeError::Malformed { param: 0, offset: 0 }));
}

#[test]
fn missing_topics_are_a_count_mismatch() {
    let schema = transfer_schema();
    let empty = RawLog { topics: vec![], data: word_of_u64(1) };
    assert_eq!(decode_log(&schema, &empty), Err(DecodeError::TopicCountMismatch));
    let fewer = RawLog { topics: vec![signature_hash(&schema), address_word(1)], data: word_of_u64(1) };
    assert_eq!(decode_log(&schema, &fewer), Err(DecodeError::TopicCountMismatch));
    let registry = Registry::new(vec![transfer_schema()]);
    assert_eq!(registry.decode(&empty), Err(LogError::Decode(DecodeError::TopicCountMismatch)));
}

#[test]
fn anonymous_event_has_no_signature_topic() {
    let schema = EventSchema {
        name: s("Anon"),
        inputs: vec![param("who", TypeDescriptor::Address, true), param("ok", TypeDescriptor::Bool, false)],
        anonymous: true,
    };
    let log = RawLog { topics: vec![address_word(0x01)], data: word_of_u64(1) };
    assert_eq!(decode_log(&schema, &log), Ok(vec![Value::Address(vec![1u8; 20]), Value::Bool(true)]));
    let registry = Registry::new(vec![schema]);
    let with_topic = RawLog { topics: vec![signature_hash(&registry.schemas()[0])], data: vec![] };
    assert_eq!(registry.lookup(&with_topic.topics[0]), Err(SchemaError::UnknownTopic0));
}

#[test]
fn dynamic_array_and_bytes_decode() {
    let schema = EventSchema {
        name: s("Batch"),
        inputs: vec![
            param("ids", TypeDescriptor::Array(Box::new(TypeDescriptor::Uint(64))), false),
            param("blob", TypeDescriptor::Bytes, false),
            param("tag", TypeDescriptor::FixedBytes(2), false),
        ],
        anonymous: false,
    };
    let mut data = word_of_u64(0x60);
    data.extend(word_of_u64(0xe0));
    let mut tag = vec![0u8; 32];
    tag[0] = 0xbe;
    tag[1] = 0xef;
    data.extend(tag);
    data.extend(word_of_u64(3));
    data.extend(word_of_u64(7));
    data.extend(word_of_u64(8));
    data.extend(word_of_u64(9));
    data.extend(word_of_u64(2));
    let mut blob = vec![0xca, 0xfe];
    blob.resize(32, 0);
    data.extend(blob);
    let log = RawLog { topics: vec![signature_hash(&schema)], data };
    let values = decode_log(&schema, &log).unwrap();
    assert_eq!(values[0], Value::List(vec![Value::Uint(word_of_u64(7)), Value::Uint(word_of_u64(8)), Value::Uint(word_of_u64(9))]));
    assert_eq!(values[1], Value::Bytes(vec![0xca, 0xfe]));
    assert_eq!(values[2], Value::FixedBytes(vec![0xbe, 0xef]));
    let ms = members(&tokens_to_json(&schema, &values));
    assert_eq!(ms[0].1, Json::Array(vec![Json::Str(s("7")), Json::Str(s("8")), Json::Str(s("9"))]));
    assert_eq!(ms[1].1, Json::Str(s("0xcafe")));
    assert_eq!(ms[2].1, Json::Str(s("0xbeef")));
}

#[test]
fn static_tuple_and_fixed_array_are_inline() {
    let schema = EventSchema {
        name: s("Pair"),
        inputs: vec![
            param("p", TypeDescriptor::Tuple(vec![TypeDescriptor::Uint(8), TypeDescriptor::Bool]), false),
            param("q", TypeDescriptor::FixedArray(Box::new(TypeDescriptor::Uint(16)), 2), false),
        ],
        anonymous: false,
    };
    let mut data = word_of_u64(3);
    data.extend(word_of_u64(0));
    data.extend(word_of_u64(10));
    data.extend(word_of_u64(20));
    let log = RawLog { topics: vec![signature_hash(&schema)], data };
    let values = decode_log(&schema, &log).unwrap();
    assert_eq!(values[0], Value::Tuple(vec![Value::Uint(word_of_u64(3)), Value::Bool(false)]));
    assert_eq!(values[1], Value::List(vec![Value::Uint(word_of_u64(10)), Value::Uint(word_of_u64(20))]));
}

#[test]
fn negative_int_projects_with_sign() {
    assert_eq!(token_to_json(&Value::Int(vec![0xff; 32])), Json::Str(s("-1")));
    let mut w = vec![0xff; 32];
    w[31] = 0xfe;
    assert_eq!(token_to_json(&Value::Int(w)), Json::Str(s("-2")));
    assert_eq!(token_to_json(&Value::Int(word_of_u64(12))), Json::Str(s("12")));
    assert_eq!(token_to_json(&Value::Uint(vec![0xff; 32])),
        Json::Str(s("115792089237316195423570985008687907853269984665640564039457584007913129639935")));
    assert_eq!(token_to_json(&Value::Uint(word_of_u64(0))), Json::Str(s("0")));
}

#[test]
fn unnamed_parameters_get_positional_keys() {
    let schema = EventSchema {
        name: s("E"),
        inputs: vec![param("", TypeDescriptor::Bool, false), param("x", TypeDescriptor::Bool, false)],
        anonymous: false,
    };
    let ms = members(&tokens_to_json(&schema, &vec![Value::Bool(true), Value::Bool(false), Value::Bool(true)]));
    assert_eq!(ms[0].0, "arg0");
    assert_eq!(ms[1].0, "x");
    assert_eq!(ms[2].0, "arg2");
}

#[test]
fn hex_fields_parse_with_or_without_prefix() {
    assert_eq!(parse_hex_bytes("0x0aFF"), Ok(vec![0x0a, 0xff]));
    assert_eq!(parse_hex_bytes("0aff"), Ok(vec![0x0a, 0xff]));
    assert_eq!(parse_hex_bytes(""), Ok(vec![]));
    assert_eq!(parse_hex_bytes("0x1"), Err(HexError::InvalidHex));
    assert_eq!(parse_hex_bytes("0xzz"), Err(HexError::InvalidHex));
    assert_eq!(parse_topic("0x1234"), Err(HexError::NotAWord));
    assert_eq!(parse_topic(&format!("0x{}", TRANSFER_TOPIC)).unwrap(), hex::decode(TRANSFER_TOPIC).unwrap());
    assert_eq!(to_prefixed_hex(&[0x00, 0xab]), "0x00ab");
}

#[test]
fn raw_log_from_hex_reads_topics_and_data() {
    let log = raw_log_from_hex(&vec![s(TRANSFER_TOPIC)], "0x01").unwrap();
    assert_eq!(log.topics, vec![hex::decode(TRANSFER_TOPIC).unwrap()]);
    assert_eq!(log.data, vec![1]);
    assert_eq!(raw_log_from_hex(&vec![s("0x00")], "").map(|_| ()), Err(HexError::NotAWord));
    assert_eq!(raw_log_from_hex(&vec![], "0xg0").map(|_| ()), Err(HexError::InvalidHex));
}

#[test]
fn schemas_build_from_each_document_shape() {
    let entries = vec![
        obj(vec![("type", Json::Str(s("function"))), ("name", Json::Str(s("f"))), ("inputs", Json::Array(vec![]))]),
        event_entry("Transfer", vec![
            input(Some("from"), "address", Some(true)),
            input(None, "uint256", None),
        ]),
        event_entry("Weird", vec![input(Some("x"), "uint7", None)]),
        event_entry("Empty", vec![]),
    ];
    let as_array = build_schemas(&Json::Array(entries.iter().map(clone_json).collect())).unwrap();
    assert_eq!(as_array.len(), 2);
    assert_eq!(as_array[0].name, "Transfer");
    assert_eq!(as_array[0].inputs[1], param("", TypeDescriptor::Uint(256), false));
    assert!(as_array[0].inputs[0].indexed);
    assert!(!as_array[0].anonymous);
    assert_eq!(as_array[1].name, "Empty");
    let under_abi = build_schemas(&obj(vec![("abi", Json::Array(entries.iter().map(clone_json).collect()))])).unwrap();
    assert_eq!(under_abi, as_array);
    let under_events = build_schemas(&obj(vec![("events", Json::Array(entries.iter().map(clone_json).collect()))])).unwrap();
    assert_eq!(under_events, as_array);
    assert_eq!(build_schemas(&obj(vec![("other", Json::Null)])), Err(SchemaError::UnsupportedStructure));
    assert_eq!(build_schemas(&Json::Number(s("1"))), Err(SchemaError::UnsupportedStructure));
}

#[test]
fn event_entry_reads_the_anonymous_flag() {
    let entry = obj(vec![
        ("type", Json::Str(s("event"))),
        ("name", Json::Str(s("A"))),
        ("inputs", Json::Array(vec![])),
        ("anonymous", Json::Bool(true)),
    ]);
    assert!(parse_event_from_value(&entry).unwrap().anonymous);
    let no_name = obj(vec![("type", Json::Str(s("event"))), ("inputs", Json::Array(vec![]))]);
    assert_eq!(parse_event_from_value(&no_name), None);
}

#[test]
fn named_mode_picks_the_first_match() {
    let mut other = transfer_schema();
    other.name = s("Approval");
    let schemas = vec![transfer_schema(), other, transfer_schema()];
    assert_eq!(find_event(&schemas, "Approval"), Ok(1));
    assert_eq!(find_event(&schemas, "Transfer"), Ok(0));
    assert_eq!(find_event(&schemas, ""), Ok(0));
    assert_eq!(find_event(&schemas, "Missing"), Err(SchemaError::EventNotFound(s("Missing"))));
    assert_eq!(find_event(&vec![], ""), Err(SchemaError::EmptyAbi));
}

#[test]
fn tuple_inputs_resolve_through_components() {
    let inner = obj(vec![
        ("type", Json::Str(s("tuple"))),
        ("components", Json::Array(vec![input(Some("flag"), "bool", None)])),
    ]);
    let outer = obj(vec![
        ("name", Json::Str(s("items"))),
        ("type", Json::Str(s("tuple[]"))),
        ("components", Json::Array(vec![input(Some("amount"), "uint256", None), inner])),
    ]);
    let schema = parse_event_from_value(&event_entry("Batch", vec![outer])).unwrap();
    assert_eq!(
        schema.inputs[0].kind,
        TypeDescriptor::Array(Box::new(TypeDescriptor::Tuple(vec![
            TypeDescriptor::Uint(256),
            TypeDescriptor::Tuple(vec![TypeDescriptor::Bool]),
        ])))
    );
    assert_eq!(signature_string(&schema), "Batch((uint256,(bool))[])");
}

#[test]
fn tuple_input_without_components_drops_the_entry() {
    let bare = obj(vec![("type", Json::Str(s("tuple[2]")))]);
    assert_eq!(parse_event_from_value(&event_entry("E", vec![bare])), None);
    let fixed = obj(vec![
        ("type", Json::Str(s("tuple[2]"))),
        ("components", Json::Array(vec![input(None, "address", None)])),
    ]);
    let schema = parse_event_from_value(&event_entry("E", vec![fixed])).unwrap();
    assert_eq!(
        schema.inputs[0].kind,
        TypeDescriptor::FixedArray(Box::new(TypeDescriptor::Tuple(vec![TypeDescriptor::Address])), 2)
    );
}

#[test]
fn bool_words_other_than_zero_or_one_are_malformed() {
    let schema = EventSchema {
        name: s("Flags"),
        inputs: vec![param("on", TypeDescriptor::Bool, true), param("ok", TypeDescriptor::Bool, false)],
        anonymous: false,
    };
    let sig = signature_hash(&schema);
    let good = RawLog { topics: vec![sig.clone(), word_of_u64(1)], data: word_of_u64(0) };
    assert_eq!(decode_log(&schema, &good), Ok(vec![Value::Bool(true), Value::Bool(false)]));
    let bad_topic = RawLog { topics: vec![sig.clone(), word_of_u64(2)], data: word_of_u64(0) };
    assert_eq!(decode_log(&schema, &bad_topic), Err(DecodeError::Malformed { param: 0, offset: 1 }));
    let mut high = word_of_u64(1);
    high[0] = 1;
    let bad_data = RawLog { topics: vec![sig, word_of_u64(0)], data: high };
    assert_eq!(decode_log(&schema, &bad_data), Err(DecodeError::Malformed { param: 1, offset: 0 }));
}

#[test]
fn named_mode_refuses_a_foreign_topic0() {
    let schema = transfer_schema();
    let log = RawLog { topics: vec![vec![9u8; 32], address_word(1), address_word(2)], data: word_of_u64(5) };
    assert_eq!(decode_log(&schema, &log), Err(DecodeError::SignatureMismatch));
}

#[test]
fn data_errors_name_the_parameter_and_its_head_slot() {
    let schema = EventSchema {
        name: s("Two"),
        inputs: vec![
            param("a", TypeDescriptor::Uint(256), false),
            param("who", TypeDescriptor::Address, true),
            param("b", TypeDescriptor::Bytes, false),
        ],
        anonymous: false,
    };
    let mut data = word_of_u64(1);
    data.extend(word_of_u64(0x1000));
    let log = RawLog { topics: vec![signature_hash(&schema), address_word(3)], data };
    assert_eq!(decode_log(&schema, &log), Err(DecodeError::DataTooShort { param: 2, offset: 32 }));
}
