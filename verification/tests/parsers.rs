use vawk::byte_trie::ByteTrie;
use vawk::parsers::IndexFilter;

#[test]
fn parse_field_separators() {
    let mut expected = ByteTrie::new();
    expected.insert(&[b'\r', b'\n']);
    match vawk::parsers::parse_field_separators(&vec!["\\r\\n".into()]) {
        Ok(actual) => assert_eq!(actual, expected),
        Err(_) => assert!(false),
    }
}

#[test]
fn parse_index_filters() {
    let expected = vec![IndexFilter::Exact(1usize), IndexFilter::LowerBounded(5usize)];
    match vawk::parsers::parse_index_filters("1, 5..") {
        Ok(actual) => assert_eq!(actual, expected),
        Err(_) => assert!(false),
    }
}
