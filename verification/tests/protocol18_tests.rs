use albion_translator::protocol18::{deserialize, read_count, read_param_table, read_varint32, read_varint64, zigzag_i32, zigzag_i64, Value};

fn one(bytes: &[u8]) -> Value {
    let (v, end) = deserialize(bytes, 0, None).expect("value");
    assert_eq!(end, bytes.len());
    v
}

fn as_int(v: &Value) -> i64 {
    match v {
        Value::Int(i) => *i,
        _ => panic!("not an integer"),
    }
}

fn text(v: &Value) -> String {
    match v {
        Value::Str(s) => s.clone(),
        _ => panic!("not text"),
    }
}

#[test]
fn scalar_values() {
    assert!(matches!(one(&[0]), Value::Null));
    assert!(matches!(one(&[8]), Value::Null));
    assert!(matches!(one(&[2, 0]), Value::Bool(false)));
    assert!(matches!(one(&[2, 7]), Value::Bool(true)));
    assert_eq!(as_int(&one(&[3, 200])), 200);
    assert_eq!(as_int(&one(&[12, 5])), -5);
    assert_eq!(as_int(&one(&[4, 0xfe, 0xff])), -2);
    assert_eq!(as_int(&one(&[13, 0x34, 0x12])), 0x1234);
    assert_eq!(as_int(&one(&[14, 0x34, 0x12])), -0x1234);
    assert_eq!(as_int(&one(&[9, 0x03])), -2);
    assert_eq!(as_int(&one(&[10, 0x54])), 42);
    assert!(matches!(one(&[27]), Value::Bool(false)));
    assert!(matches!(one(&[28]), Value::Bool(true)));
    assert_eq!(as_int(&one(&[30])), 0);
    assert!(matches!(one(&[32]), Value::Float64(0)));
    assert!(matches!(one(&[5, 0, 0, 0x80, 0x3f]), Value::Float32(0x3f80_0000)));
    assert!(matches!(one(&[5, 0, 0, 0x80, 0x7f]), Value::Null)); // infinity
    assert_eq!(text(&one(&[7, 3, b'a', b'b', b'c'])), "abc");
    assert_eq!(text(&one(&[7, 2, 0xc3, 0xa9])), "é");
    assert_eq!(text(&one(&[7, 1, 0xff])), "\u{fffd}");
    assert_eq!(text(&one(&[67, 3, 0x00, 0xab, 0x10])), "00ab10");
    assert!(deserialize(&[7, 5, b'a'], 0, None).is_none());
    assert!(deserialize(&[1], 0, None).is_none());
    assert!(deserialize(&[], 0, None).is_none());
}

#[test]
fn custom_values() {
    match one(&[0x85, 2, 9, 8]) {
        Value::Custom(code, data) => {
            assert_eq!(code, 5);
            assert_eq!(data, vec![9, 8]);
        }
        _ => panic!("custom expected"),
    }
    match one(&[19, 7, 1, 4]) {
        Value::Custom(code, data) => {
            assert_eq!(code, 7);
            assert_eq!(data, vec![4]);
        }
        _ => panic!("custom expected"),
    }
}

#[test]
fn arrays() {
    match one(&[23, 2, 3, 1, 7, 1, b'x']) {
        Value::Array(items) => {
            assert_eq!(items.len(), 2);
            assert_eq!(as_int(&items[0]), 1);
            assert_eq!(text(&items[1]), "x");
        }
        _ => panic!("array expected"),
    }
    match one(&[66, 10, 0b0000_0101, 0b0000_0010]) {
        Value::Array(items) => {
            let bits: Vec<bool> = items
                .iter()
                .map(|v| matches!(v, Value::Bool(true)))
                .collect();
            assert_eq!(bits, vec![true, false, true, false, false, false, false, false, false, true]);
        }
        _ => panic!("bool array expected"),
    }
    match one(&[68, 2, 1, 0, 0xff, 0xff]) {
        Value::Array(items) => {
            assert_eq!(as_int(&items[0]), 1);
            assert_eq!(as_int(&items[1]), -1);
        }
        _ => panic!("short array expected"),
    }
    match one(&[71, 2, 1, b'a', 0]) {
        Value::Array(items) => {
            assert_eq!(text(&items[0]), "a");
            assert_eq!(text(&items[1]), "");
        }
        _ => panic!("string array expected"),
    }
    match one(&[83, 2, 3, 1, 9, 0]) {
        Value::Array(items) => {
            assert_eq!(items.len(), 2);
            assert!(matches!(&items[0], Value::Custom(3, d) if d == &vec![9]));
            assert!(matches!(&items[1], Value::Custom(3, d) if d.is_empty()));
        }
        _ => panic!("custom array expected"),
    }
}

#[test]
fn dictionaries_and_hashtables() {
    // Dictionary<byte, string>: key type 3, value type 7.
    match one(&[20, 3, 7, 2, 1, 1, b'a', 2, 1, b'b']) {
        Value::Dict(pairs) => {
            assert_eq!(pairs.len(), 2);
            assert_eq!(as_int(&pairs[0].0), 1);
            assert_eq!(text(&pairs[0].1), "a");
            assert_eq!(as_int(&pairs[1].0), 2);
        }
        _ => panic!("dictionary expected"),
    }
    // Hashtable: every key and value carries its own type; null keys drop.
    match one(&[21, 2, 3, 5, 7, 1, b'v', 0, 3, 1]) {
        Value::Dict(pairs) => {
            assert_eq!(pairs.len(), 1);
            assert_eq!(as_int(&pairs[0].0), 5);
            assert_eq!(text(&pairs[0].1), "v");
        }
        _ => panic!("hashtable expected"),
    }
}

#[test]
fn nested_operations() {
    // Event data (26): code 9, table {1: byte 4}.
    match one(&[26, 9, 1, 1, 3, 4]) {
        Value::Array(items) => {
            assert_eq!(as_int(&items[0]), 9);
            match &items[1] {
                Value::Table(t) => {
                    assert_eq!(t.len(), 1);
                    assert_eq!(t[0].0, 1);
                    assert_eq!(as_int(&t[0].1), 4);
                }
                _ => panic!("table expected"),
            }
        }
        _ => panic!("event expected"),
    }
    // Operation response (25): code 2, return code -1, message "no", no params.
    match one(&[25, 2, 0xff, 0xff, 7, 2, b'n', b'o', 0]) {
        Value::Array(items) => {
            assert_eq!(items.len(), 4);
            assert_eq!(as_int(&items[1]), -1);
            assert_eq!(text(&items[2]), "no");
        }
        _ => panic!("response expected"),
    }
}

#[test]
fn parameter_tables_keep_wire_order() {
    let (t, end) = read_param_table(&[2, 1, 3, 7, 1, 3, 9], 0).unwrap();
    assert_eq!(end, 7);
    assert_eq!(t.len(), 2);
    assert_eq!(t[0].0, 1);
    assert_eq!(as_int(&t[1].1), 9);
    assert!(read_param_table(&[1, 1], 0).is_none());
}

#[test]
fn varints_and_zigzag() {
    assert_eq!(read_varint32(&[0x96, 0x01], 0), Some((150, 2)));
    assert_eq!(read_varint32(&[0xff, 0xff, 0xff, 0xff, 0x0f], 0), Some((u32::MAX, 5)));
    assert_eq!(read_varint32(&[0x80, 0x80, 0x80, 0x80, 0x80], 0), None);
    assert_eq!(read_varint64(&[0x01], 0), Some((1, 1)));
    assert_eq!(zigzag_i32(3), -2);
    assert_eq!(zigzag_i32(4), 2);
    assert_eq!(zigzag_i64(u64::MAX), i64::MIN);
    assert_eq!(read_count(&[0x05], 0), Some((5, 1)));
}
