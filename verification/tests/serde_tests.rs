use humanbyte::serde::{deserialize, map_keys, serialize, ByteInput, ByteInputError, ByteRepr};
use humanbyte::{parse, KIB};
use std::collections::BTreeMap;

#[test]
fn counts_are_written_as_text_or_number() {
    assert!(matches!(serialize(1536, true), ByteRepr::Text(s) if s == "1.5 KiB"));
    assert!(matches!(serialize(5, true), ByteRepr::Text(s) if s == "5 B"));
    assert!(matches!(serialize(1536, false), ByteRepr::Number(1536)));
}

#[test]
fn counts_are_read_from_integers_and_text() {
    assert!(matches!(deserialize(ByteInput::Unsigned(7)), Ok(7)));
    assert!(matches!(deserialize(ByteInput::Signed(7)), Ok(7)));
    assert!(matches!(deserialize(ByteInput::Signed(-1)), Err(ByteInputError::Negative(-1))));
    assert!(matches!(deserialize(ByteInput::Text("1 KiB".to_string())), Ok(1024)));
    assert!(matches!(
        deserialize(ByteInput::Text("x".to_string())),
        Err(ByteInputError::Unparsable(s)) if s == "x"
    ));
}

#[test]
fn written_text_reads_back() {
    for value in [0, 1, 1023, 1024, 1536, 10 * KIB + 1, u64::MAX] {
        match serialize(value, true) {
            ByteRepr::Text(s) => assert!(parse(&s).is_ok(), "couldn't read back {s:?}"),
            ByteRepr::Number(_) => panic!("a human-readable form is text"),
        }
        assert!(matches!(serialize(value, false), ByteRepr::Number(v) if v == value));
    }
}

#[test]
fn map_keys_are_written_in_increasing_order() {
    let mut map = BTreeMap::new();
    map.insert(1024u64, "a");
    map.insert(1u64, "b");
    let written = map_keys::serialize(&map, true);
    assert_eq!(written.len(), 2);
    assert!(matches!(&written[0], (ByteRepr::Text(s), v) if s == "1 B" && **v == "b"));
    assert!(matches!(&written[1], (ByteRepr::Text(s), v) if s == "1.0 KiB" && **v == "a"));
    let raw = map_keys::serialize(&map, false);
    assert!(matches!(&raw[0], (ByteRepr::Number(1), _)));
    assert!(matches!(&raw[1], (ByteRepr::Number(1024), _)));
}

#[test]
fn map_keys_are_read_in_order_and_the_last_one_wins() {
    let entries = vec![
        (ByteInput::Text("1 KiB".to_string()), 1),
        (ByteInput::Unsigned(5), 2),
        (ByteInput::Unsigned(1024), 3),
    ];
    let map = map_keys::deserialize(entries).unwrap();
    assert_eq!(map.len(), 2);
    assert_eq!(map[&1024], 3);
    assert_eq!(map[&5], 2);
}

#[test]
fn map_keys_stop_at_the_first_bad_key() {
    let entries = vec![
        (ByteInput::Unsigned(1), 1),
        (ByteInput::Signed(-3), 2),
        (ByteInput::Text("nope".to_string()), 3),
    ];
    assert!(matches!(map_keys::deserialize(entries), Err(ByteInputError::Negative(-3))));
}
