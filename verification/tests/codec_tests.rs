use tokio_fluent::dec::{decode_value, parse_ack, AckParse, DecodeStatus, WireValue};
use tokio_fluent::record::{Value, ValueMap};
use tokio_fluent::wire::{encode_int_into, encode_str_into, encode_uint_into, encode_value_into};
use tokio_fluent::worker::{encode, Record};

fn enc(v: &Value) -> Vec<u8> {
    let mut out = Vec::new();
    encode_value_into(v, &mut out).expect("value must encode");
    out
}

fn map1(k: &str, v: Value) -> ValueMap {
    let mut m = ValueMap::new();
    m.insert(k.to_string(), v);
    m
}

#[test]
fn test_encode_scalars() {
    assert_eq!(enc(&Value::Bool(true)), vec![0xc3]);
    assert_eq!(enc(&Value::Bool(false)), vec![0xc2]);
    assert_eq!(enc(&Value::Int(10)), vec![0x0a]);
    assert_eq!(enc(&Value::Int(127)), vec![0x7f]);
    assert_eq!(enc(&Value::Int(-1)), vec![0xff]);
    assert_eq!(enc(&Value::Int(-32)), vec![0xe0]);
    assert_eq!(enc(&Value::Int(-33)), vec![0xd0, 0xdf]);
    assert_eq!(enc(&Value::Int(200)), vec![0xd1, 0x00, 0xc8]);
    assert_eq!(enc(&Value::Int(-200)), vec![0xd1, 0xff, 0x38]);
    assert_eq!(enc(&Value::Int(1234567)), vec![0xd2, 0x00, 0x12, 0xd6, 0x87]);
    assert_eq!(
        enc(&Value::Int(i64::MIN)),
        vec![0xd3, 0x80, 0, 0, 0, 0, 0, 0, 0]
    );
    assert_eq!(enc(&Value::Uint(10)), vec![0x0a]);
    assert_eq!(enc(&Value::Uint(200)), vec![0xcc, 0xc8]);
    assert_eq!(enc(&Value::Uint(70000)), vec![0xce, 0x00, 0x01, 0x11, 0x70]);
    assert_eq!(
        enc(&Value::Uint(u64::MAX)),
        vec![0xcf, 0xff, 0xff, 0xff, 0xff, 0xff, 0xff, 0xff, 0xff]
    );
    let bits = 1.5f64.to_bits();
    assert_eq!(
        enc(&Value::Float(bits)),
        vec![0xcb, 0x3f, 0xf8, 0, 0, 0, 0, 0, 0]
    );
}

#[test]
fn test_encode_strings_and_containers() {
    assert_eq!(
        enc(&Value::Str("abc".to_string())),
        vec![0xa3, 0x61, 0x62, 0x63]
    );
    // Two UTF-8 bytes for one character; the prefix counts bytes.
    assert_eq!(
        enc(&Value::Str("\u{e9}".to_string())),
        vec![0xa2, 0xc3, 0xa9]
    );
    let long = "x".repeat(40);
    let mut want = vec![0xd9, 40];
    want.extend(std::iter::repeat(0x78u8).take(40));
    assert_eq!(enc(&Value::Str(long)), want);

    let arr = Value::Array(vec![Value::Int(1), Value::Str("a".to_string())]);
    assert_eq!(enc(&arr), vec![0x92, 0x01, 0xa1, 0x61]);

    let obj = Value::Object(map1("a", Value::Uint(1)));
    assert_eq!(enc(&obj), vec![0x81, 0xa1, 0x61, 0x01]);

    let many: Vec<Value> = (0..17).map(Value::from).collect::<Vec<_>>();
    let bytes = enc(&Value::Array(many));
    assert_eq!(&bytes[0..3], &[0xdc, 0x00, 0x11]);
    assert_eq!(bytes.len(), 3 + 17);
}

#[test]
fn test_int_helpers_match_value_encoding() {
    let mut a = Vec::new();
    encode_int_into(-200, &mut a);
    assert_eq!(a, enc(&Value::Int(-200)));
    let mut b = Vec::new();
    encode_uint_into(300, &mut b);
    assert_eq!(b, enc(&Value::Uint(300)));
    let mut c = Vec::new();
    encode_str_into("hi", &mut c).unwrap();
    assert_eq!(c, enc(&Value::Str("hi".to_string())));
}

#[test]
fn test_record_wire_format() {
    // A record goes out as a four-element array: tag, timestamp,
    // payload, options with the chunk.
    let chunk = "MDEyMzQ1Njc4OWFiY2RlZg==";
    let rec = Record::new("t", map1("age", Value::Int(10)), 1234567, chunk.to_string());
    let sr = encode(&rec).expect("record must encode");
    let mut want: Vec<u8> = vec![0x94, 0xa1, b't', 0xd2, 0x00, 0x12, 0xd6, 0x87];
    want.extend([0x81, 0xa3, b'a', b'g', b'e', 0x0a]);
    want.extend([0x81, 0xa5, b'c', b'h', b'u', b'n', b'k', 0xb8]);
    want.extend(chunk.as_bytes());
    assert_eq!(sr.record, want);
    assert_eq!(sr.chunk, chunk);
}

#[test]
fn test_decode_record_as_aggregator() {
    let chunk = "MDEyMzQ1Njc4OWFiY2RlZg==";
    let rec = Record::new("t", map1("age", Value::Int(10)), 1234567, chunk.to_string());
    let sr = encode(&rec).unwrap();
    let (w, used) = decode_value(&sr.record, 0).expect("record bytes must decode");
    assert_eq!(used, sr.record.len());
    match w {
        WireValue::Arr(elems) => {
            assert_eq!(elems.len(), 4);
            assert_eq!(elems[0], WireValue::Str(b"t".to_vec()));
            assert_eq!(elems[1], WireValue::Int(1234567));
            match &elems[2] {
                WireValue::Dict(entries) => {
                    assert_eq!(entries.len(), 1);
                    assert_eq!(entries[0].0, WireValue::Str(b"age".to_vec()));
                    // A small non-negative integer travels in the
                    // shared one-byte form and is read back unsigned.
                    assert_eq!(entries[0].1, WireValue::Uint(10));
                }
                other => panic!("payload is not a map: {:?}", other),
            }
            match &elems[3] {
                WireValue::Dict(entries) => {
                    assert_eq!(entries.len(), 1);
                    assert_eq!(entries[0].0, WireValue::Str(b"chunk".to_vec()));
                    assert_eq!(entries[0].1, WireValue::Str(chunk.as_bytes().to_vec()));
                }
                other => panic!("options is not a map: {:?}", other),
            }
        }
        other => panic!("record is not an array: {:?}", other),
    }
}

/// Map a decoded item back to a value, for round-trip checks.
fn wire_to_value(w: &WireValue) -> Value {
    match w {
        WireValue::Bool(b) => Value::Bool(*b),
        WireValue::Int(i) => Value::Int(*i),
        WireValue::Uint(u) => Value::Uint(*u),
        WireValue::F64(bits) => Value::Float(*bits),
        WireValue::Str(b) => Value::Str(String::from_utf8(b.clone()).expect("utf-8")),
        WireValue::Arr(l) => Value::Array(l.iter().map(wire_to_value).collect()),
        WireValue::Dict(e) => {
            let mut m = ValueMap::new();
            for (k, v) in e {
                match k {
                    WireValue::Str(kb) => m.insert(
                        String::from_utf8(kb.clone()).expect("utf-8"),
                        wire_to_value(v),
                    ),
                    other => panic!("non-string key: {:?}", other),
                }
            }
            Value::Object(m)
        }
        other => panic!("not a value the model holds: {:?}", other),
    }
}

#[test]
fn test_round_trip_reencodes_identically() {
    // encoder(decoder(encoder(v))) == encoder(v), and unsigned values
    // come back unsigned.
    let samples = vec![
        Value::Bool(true),
        Value::Int(5),
        Value::Int(-5),
        Value::Int(300),
        Value::Int(-70000),
        Value::Uint(5),
        Value::Uint(1 << 40),
        Value::Float(3.25f64.to_bits()),
        Value::Str("hello \u{e9}\u{4e16}".to_string()),
        Value::Array(vec![
            Value::Int(1),
            Value::Array(vec![Value::Uint(2), Value::Str("x".to_string())]),
            Value::Object(map1("k", Value::Int(-1))),
        ]),
        Value::Object(map1("nested", Value::Object(map1("deep", Value::Uint(9))))),
    ];
    for v in &samples {
        let bytes = enc(v);
        let (w, used) = decode_value(&bytes, 0).expect("must decode");
        assert_eq!(used, bytes.len());
        let v2 = wire_to_value(&w);
        assert_eq!(enc(&v2), bytes, "re-encoding changed the bytes for {:?}", v);
    }
    let (w, _) = decode_value(&enc(&Value::Uint(5)), 0).unwrap();
    assert!(matches!(w, WireValue::Uint(5)));
}

#[test]
fn test_decode_foreign_forms() {
    // Forms our encoder never writes but an aggregator may send.
    assert_eq!(decode_value(&[0xc0], 0).unwrap().0, WireValue::Nil);
    assert_eq!(
        decode_value(&[0xcd, 0x01, 0x00], 0).unwrap().0,
        WireValue::Uint(256)
    );
    assert_eq!(
        decode_value(&[0xc4, 0x02, 0x01, 0x02], 0).unwrap().0,
        WireValue::Bin(vec![1, 2])
    );
    assert_eq!(
        decode_value(&[0xca, 0x3f, 0xc0, 0x00, 0x00], 0).unwrap().0,
        WireValue::F32(0x3fc0_0000)
    );
    assert_eq!(
        decode_value(&[0xd0, 0x80], 0).unwrap().0,
        WireValue::Int(-128)
    );
}

#[test]
fn test_decode_incomplete_and_malformed() {
    assert_eq!(decode_value(&[], 0), Err(DecodeStatus::Incomplete));
    assert_eq!(decode_value(&[0xa5, b'a'], 0), Err(DecodeStatus::Incomplete));
    assert_eq!(
        decode_value(&[0x92, 0x01], 0),
        Err(DecodeStatus::Incomplete)
    );
    assert_eq!(decode_value(&[0xc1], 0), Err(DecodeStatus::Malformed));
    // An array whose element is malformed is malformed.
    assert_eq!(
        decode_value(&[0x91, 0xc1], 0),
        Err(DecodeStatus::Malformed)
    );
}

#[test]
fn test_parse_ack() {
    // {"ack": "abc"}
    let good = [0x81, 0xa3, b'a', b'c', b'k', 0xa3, b'a', b'b', b'c'];
    assert_eq!(parse_ack(&good), AckParse::Ack(b"abc".to_vec()));
    // Extra fields before the ack are ignored.
    let extra = [
        0x82, 0xa3, b'z', b'z', b'z', 0xc0, 0xa3, b'a', b'c', b'k', 0xa3, b'a', b'b', b'c',
    ];
    assert_eq!(parse_ack(&extra), AckParse::Ack(b"abc".to_vec()));
    // A prefix of the map asks for more bytes.
    assert_eq!(parse_ack(&good[0..4]), AckParse::NeedMore);
    // Not a map, no ack entry, or a non-string ack: protocol
    // violations.
    assert_eq!(parse_ack(&[0x01]), AckParse::Malformed);
    let noack = [0x81, 0xa3, b'f', b'o', b'o', 0xa1, b'x'];
    assert_eq!(parse_ack(&noack), AckParse::Malformed);
    let intack = [0x81, 0xa3, b'a', b'c', b'k', 0x07];
    assert_eq!(parse_ack(&intack), AckParse::Malformed);
}
