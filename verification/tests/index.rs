use partition::index::{hex_string, KeyIndex};

#[test]
fn bytes_are_written_with_two_digits_each() {
    assert_eq!(hex_string(b""), "");
    assert_eq!(hex_string(&[0x00, 0xff, 0x41, 0x0a, 0xa0]), "00ff410aa0");
    assert_eq!(hex_string(b"NYC"), "4e5943");
}

#[test]
fn the_index_finds_what_was_put_in() {
    let mut index = KeyIndex::new();
    assert_eq!(index.get(b"a"), None);
    index.insert(b"a", 0);
    index.insert(b"", 1);
    index.insert(&[0xff, 0x00], 2);
    assert_eq!(index.get(b"a"), Some(0));
    assert_eq!(index.get(b""), Some(1));
    assert_eq!(index.get(&[0xff, 0x00]), Some(2));
    assert_eq!(index.get(&[0xff]), None);
    assert_eq!(index.get(b"A"), None);
}

#[test]
fn the_index_keeps_the_last_number_of_a_key() {
    let mut index = KeyIndex::new();
    index.insert(b"k", 3);
    index.insert(b"k", 5);
    assert_eq!(index.get(b"k"), Some(5));
}

#[test]
fn keys_that_look_alike_in_text_are_told_apart() {
    let mut index = KeyIndex::new();
    // The text "4e" is one byte; the bytes `4` and `e` are two.
    index.insert(&[0x4e], 0);
    index.insert(b"4e", 1);
    assert_eq!(index.get(&[0x4e]), Some(0));
    assert_eq!(index.get(b"4e"), Some(1));
}
