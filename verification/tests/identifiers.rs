use partition::error::PartitionError;
use partition::generator::{decimal_string, WriterGenerator};
use partition::template::FilenameTemplate;

fn generator() -> WriterGenerator {
    WriterGenerator::new(FilenameTemplate::default_csv()).unwrap()
}

#[test]
fn keys_with_one_base_get_the_base_and_a_counter() {
    let mut gen = generator();
    assert_eq!(gen.unique_value(b"a!b").unwrap(), "ab");
    assert_eq!(gen.unique_value(b"a?b").unwrap(), "ab_1");
}

#[test]
fn a_repeated_key_gets_a_new_identifier_each_time() {
    let mut gen = generator();
    assert_eq!(gen.unique_value(b"x").unwrap(), "x");
    assert_eq!(gen.unique_value(b"x").unwrap(), "x_1");
    assert_eq!(gen.unique_value(b"x").unwrap(), "x_2");
}

#[test]
fn the_counter_is_shared_by_all_bases() {
    let mut gen = generator();
    assert_eq!(gen.unique_value(b"a").unwrap(), "a");
    assert_eq!(gen.unique_value(b"a").unwrap(), "a_1");
    assert_eq!(gen.unique_value(b"b").unwrap(), "b");
    assert_eq!(gen.unique_value(b"b").unwrap(), "b_2");
    assert_eq!(gen.unique_value(b"a").unwrap(), "a_3");
}

#[test]
fn a_candidate_in_use_is_passed_over() {
    let mut gen = generator();
    assert_eq!(gen.unique_value(b"a_1").unwrap(), "a_1");
    assert_eq!(gen.unique_value(b"a").unwrap(), "a");
    assert_eq!(gen.unique_value(b"a").unwrap(), "a_2");
}

#[test]
fn a_key_without_word_characters_gets_the_fallback() {
    let mut gen = generator();
    assert_eq!(gen.unique_value(b"").unwrap(), "empty");
    assert_eq!(gen.unique_value(b"!?/ ").unwrap(), "empty_1");
}

#[test]
fn bytes_that_are_no_utf8_are_replaced_and_stripped() {
    let mut gen = generator();
    assert_eq!(gen.unique_value(&[0xff, 0xfe]).unwrap(), "empty");
    assert_eq!(gen.unique_value(&[b'a', 0xff, b'b']).unwrap(), "ab");
}

#[test]
fn unicode_word_characters_stay() {
    let mut gen = generator();
    assert_eq!(gen.unique_value("Zürich/ö_1".as_bytes()).unwrap(), "Zürichö_1");
}

#[test]
fn path_separators_and_dots_are_stripped() {
    let mut gen = generator();
    assert_eq!(gen.unique_value(b"../etc/passwd").unwrap(), "etcpasswd");
}

#[test]
fn allocate_issues_a_free_base_as_it_is() {
    let mut gen = generator();
    assert_eq!(gen.allocate(String::from("NYC")).unwrap(), "NYC");
    assert_eq!(gen.allocate(String::from("NYC")).unwrap(), "NYC_1");
}

#[test]
fn many_keys_get_identifiers_that_all_differ() {
    let mut gen = generator();
    let keys: [&[u8]; 8] = [b"a", b"a!", b"a", b"a_1", b"", b"?", b"a_2", b"a"];
    let mut issued: Vec<String> = Vec::new();
    for key in keys {
        let id = gen.unique_value(key).unwrap();
        assert!(!issued.contains(&id));
        issued.push(id);
    }
    assert_eq!(issued, vec!["a", "a_1", "a_2", "a_1_3", "empty", "empty_4", "a_2_5", "a_6"]);
}

#[test]
fn numbers_are_written_in_decimal() {
    assert_eq!(decimal_string(0), "0");
    assert_eq!(decimal_string(7), "7");
    assert_eq!(decimal_string(10), "10");
    assert_eq!(decimal_string(409), "409");
    assert_eq!(decimal_string(usize::MAX), usize::MAX.to_string());
}

#[test]
fn the_default_template_puts_the_identifier_before_the_extension() {
    let template = FilenameTemplate::default_csv();
    assert_eq!(template.filename("NYC"), "NYC.csv");
}

#[test]
fn a_template_is_split_at_its_placeholder() {
    let template = FilenameTemplate::parse("part-{}.tsv").unwrap();
    assert_eq!(template.prefix, "part-");
    assert_eq!(template.suffix, ".tsv");
    assert_eq!(template.filename("ab_1"), "part-ab_1.tsv");
}

#[test]
fn a_template_keeps_other_braces() {
    let template = FilenameTemplate::parse("{{}}").unwrap();
    assert_eq!(template.filename("x"), "{x}");
    let template = FilenameTemplate::parse("é{}ü").unwrap();
    assert_eq!(template.filename("x"), "éxü");
}

#[test]
fn a_template_needs_exactly_one_placeholder() {
    assert!(matches!(FilenameTemplate::parse("out.csv"), Err(PartitionError::Template)));
    assert!(matches!(FilenameTemplate::parse("{}-{}.csv"), Err(PartitionError::Template)));
    assert!(matches!(FilenameTemplate::parse(""), Err(PartitionError::Template)));
    assert!(matches!(FilenameTemplate::parse("{"), Err(PartitionError::Template)));
    assert!(FilenameTemplate::parse("{}").is_ok());
}

#[test]
fn errors_have_their_messages() {
    assert_eq!(PartitionError::KeyColumnCount.message(), "can only partition on one column");
    assert_eq!(PartitionError::IdentifiersExhausted.message(), "Cannot generate unique value");
}

#[test]
fn the_last_counter_is_never_used() {
    let compiled = regex::Regex::new(r"\W");
    let mut gen =
        WriterGenerator::with_pattern(FilenameTemplate::default_csv(), usize::MAX - 1, compiled)
            .unwrap();
    assert_eq!(gen.unique_value(b"a").unwrap(), "a");
    assert_eq!(gen.unique_value(b"a").unwrap(), format!("a_{}", usize::MAX - 1));
    assert!(matches!(gen.unique_value(b"a"), Err(PartitionError::IdentifiersExhausted)));
    // Nothing was spent on the failure: a free base is still issued.
    assert_eq!(gen.unique_value(b"b").unwrap(), "b");
    assert!(matches!(gen.unique_value(b"b"), Err(PartitionError::IdentifiersExhausted)));
}

#[test]
fn a_pattern_that_does_not_compile_is_reported() {
    let compiled = regex::Regex::new("(");
    assert!(matches!(
        WriterGenerator::with_pattern(FilenameTemplate::default_csv(), 1, compiled),
        Err(PartitionError::Pattern)
    ));
}

#[test]
fn file_names_come_from_the_template() {
    let mut gen = WriterGenerator::new(FilenameTemplate::parse("{}.tsv").unwrap()).unwrap();
    assert_eq!(gen.writer(b"N Y").unwrap(), ("NY".to_string(), "NY.tsv".to_string()));
    assert_eq!(gen.writer(b"NY").unwrap(), ("NY_1".to_string(), "NY_1.tsv".to_string()));
    // Opening again issues nothing.
    assert_eq!(gen.re_open("NY"), "NY.tsv");
    assert_eq!(gen.writer(b"NY").unwrap().0, "NY_2");
}

#[test]
fn an_empty_stripped_key_gives_the_fallback() {
    assert_eq!(partition::sanitize::base_from(String::new()), "empty");
    assert_eq!(partition::sanitize::base_from(String::from("x")), "x");
    assert_eq!(partition::sanitize::base_from(String::from("empty")), "empty");
}
