use terror::decoder::{decode_bencoded_value, try_decode_bencoded_value, DecodedValue};

fn text(v: &DecodedValue) -> &str {
    match v {
        DecodedValue::String(s) => s.as_str(),
        _ => panic!("not a text value"),
    }
}

#[test]
fn decodes_a_byte_string_and_keeps_the_rest() {
    let (value, rest) = decode_bencoded_value(b"5:helloxyz".to_vec());
    assert_eq!(text(&value), "hello");
    assert_eq!(rest, b"xyz".to_vec());
}

#[test]
fn decodes_an_integer_as_its_digits() {
    let (value, rest) = decode_bencoded_value(b"i-52e".to_vec());
    assert_eq!(text(&value), "-52");
    assert!(rest.is_empty());
}

#[test]
fn byte_string_bytes_become_characters_of_the_same_code() {
    let (value, _) = decode_bencoded_value(vec![b'2', b':', 0xff, 0x41]);
    assert_eq!(text(&value), "\u{ff}A");
}

#[test]
fn decodes_a_list() {
    let (value, rest) = decode_bencoded_value(b"l5:helloi52ee".to_vec());
    match value {
        DecodedValue::Array(items) => {
            assert_eq!(items.len(), 2);
            assert_eq!(text(&items[0]), "hello");
            assert_eq!(text(&items[1]), "52");
        }
        _ => panic!("expected a list"),
    }
    assert!(rest.is_empty());
}

#[test]
fn decodes_a_dictionary() {
    let (value, rest) = decode_bencoded_value(b"d3:foo3:bar5:helloi52eeZ".to_vec());
    match value {
        DecodedValue::Object(entries) => {
            assert_eq!(entries.len(), 2);
            assert_eq!(entries[0].0, "foo");
            assert_eq!(text(&entries[0].1), "bar");
            assert_eq!(entries[1].0, "hello");
            assert_eq!(text(&entries[1].1), "52");
        }
        _ => panic!("expected a dictionary"),
    }
    assert_eq!(rest, b"Z".to_vec());
}

#[test]
fn a_repeated_key_keeps_the_last_value() {
    let (value, _) = decode_bencoded_value(b"d1:ai1e1:ai2ee".to_vec());
    match value {
        DecodedValue::Object(entries) => {
            assert_eq!(entries.len(), 1);
            assert_eq!(entries[0].0, "a");
            assert_eq!(text(&entries[0].1), "2");
        }
        _ => panic!("expected a dictionary"),
    }
}

#[test]
fn nested_lists_decode() {
    let (value, rest) = decode_bencoded_value(b"lli1eeee".to_vec());
    match value {
        DecodedValue::Array(outer) => {
            assert_eq!(outer.len(), 1);
            match &outer[0] {
                DecodedValue::Array(inner) => {
                    assert_eq!(inner.len(), 1);
                    assert_eq!(text(&inner[0]), "1");
                }
                _ => panic!("expected a list"),
            }
        }
        _ => panic!("expected a list"),
    }
    assert_eq!(rest, b"e".to_vec());
}

#[test]
fn malformed_input_gives_nothing() {
    assert!(try_decode_bencoded_value(b"").is_none());
    assert!(try_decode_bencoded_value(b"x").is_none());
    assert!(try_decode_bencoded_value(b"5:abc").is_none());
    assert!(try_decode_bencoded_value(b"i12").is_none());
    assert!(try_decode_bencoded_value(b"dli1ee1:ae").is_none());
    assert!(try_decode_bencoded_value(b"l").is_none());
}

#[test]
fn try_decode_agrees_on_good_input() {
    let (value, rest) = try_decode_bencoded_value(b"4:spam").unwrap();
    assert_eq!(text(&value), "spam");
    assert!(rest.is_empty());
}

#[test]
fn integer_keys_are_text_keys() {
    let (value, _) = try_decode_bencoded_value(b"di1ei2ee").unwrap();
    match value {
        DecodedValue::Object(entries) => {
            assert_eq!(entries.len(), 1);
            assert_eq!(entries[0].0, "1");
            assert_eq!(text(&entries[0].1), "2");
        }
        _ => panic!("expected a dictionary"),
    }
}

#[test]
fn dictionary_keys_come_out_in_order() {
    let (value, _) = decode_bencoded_value(b"d1:bi1e2:aai3e1:ai2ee".to_vec());
    match value {
        DecodedValue::Object(entries) => {
            let keys: Vec<&str> = entries.iter().map(|(k, _)| k.as_str()).collect();
            assert_eq!(keys, vec!["a", "aa", "b"]);
            assert_eq!(text(&entries[0].1), "2");
            assert_eq!(text(&entries[1].1), "3");
            assert_eq!(text(&entries[2].1), "1");
        }
        _ => panic!("expected a dictionary"),
    }
}

#[test]
fn an_encoded_value_decodes_and_leaves_what_follows() {
    let (value, rest) = decode_bencoded_value(b"d4:spaml1:a1:be3:cow3:mooeTAIL".to_vec());
    match value {
        DecodedValue::Object(entries) => {
            assert_eq!(entries.len(), 2);
            assert_eq!(entries[0].0, "cow");
            assert_eq!(text(&entries[0].1), "moo");
            assert_eq!(entries[1].0, "spam");
            match &entries[1].1 {
                DecodedValue::Array(items) => {
                    assert_eq!(items.len(), 2);
                    assert_eq!(text(&items[0]), "a");
                    assert_eq!(text(&items[1]), "b");
                }
                _ => panic!("expected a list"),
            }
        }
        _ => panic!("expected a dictionary"),
    }
    assert_eq!(rest, b"TAIL".to_vec());
}
