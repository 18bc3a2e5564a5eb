use vawk::byte_trie::{ByteTrie, Membership};
use vawk::parsers::{parse_field_separators, parse_regex_filter};

fn parsed(list: &[&str]) -> ByteTrie {
    let strings: Vec<String> = list.iter().map(|s| s.to_string()).collect();
    match parse_field_separators(&strings) {
        Ok(trie) => trie,
        Err(error) => panic!("rejected with {:?}", error.0),
    }
}

fn trie_of(separators: &[&[u8]]) -> ByteTrie {
    let mut trie = ByteTrie::new();
    for separator in separators {
        trie.insert(separator);
    }
    trie
}

#[test]
fn each_escape_stands_for_its_byte() {
    assert_eq!(parsed(&["\\n"]), trie_of(&[b"\n"]));
    assert_eq!(parsed(&["\\t"]), trie_of(&[b"\t"]));
    assert_eq!(parsed(&["\\r"]), trie_of(&[b"\r"]));
    assert_eq!(parsed(&["\\s"]), trie_of(&[b" "]));
}

#[test]
fn other_characters_stand_for_their_bytes() {
    assert_eq!(parsed(&["ab"]), trie_of(&[b"ab"]));
    assert_eq!(parsed(&["\\x"]), trie_of(&[b"\\x"]));
    assert_eq!(parsed(&["\\"]), trie_of(&[b"\\"]));
    assert_eq!(parsed(&["\\\\n"]), trie_of(&[b"\\\n"]));
    assert_eq!(parsed(&["é"]), trie_of(&["é".as_bytes()]));
    assert_eq!(parsed(&["a\\tb"]), trie_of(&[b"a\tb"]));
}

#[test]
fn empty_input_gives_an_empty_trie() {
    assert!(parsed(&[]).is_empty());
    assert!(parsed(&[""]).is_empty());
}

#[test]
fn all_strings_go_into_one_trie() {
    let trie = parsed(&["\\r\\n", ",", "\\r"]);
    assert_eq!(trie, trie_of(&[b"\r\n", b",", b"\r"]));
    assert_eq!(trie.membership(b"\r"), Membership::Included);
    assert_eq!(trie.membership(b","), Membership::IncludedAndTerminal);
}

#[test]
fn regex_filter_compiles_or_reports() {
    match parse_regex_filter("3[0-9]{3}") {
        Ok(re) => {
            assert_eq!(re.as_str(), "3[0-9]{3}");
            assert!(re.is_match(b"port 3001"));
            assert!(!re.is_match(b"port 5678"));
        }
        Err(error) => panic!("rejected with {:?}", error.0),
    }
    match parse_regex_filter("foo(bar") {
        Ok(_) => panic!("accepted"),
        Err(error) => {
            assert!(!error.0.is_empty());
            assert!(error.describe().starts_with("This is not a valid regular expression:\n"));
            assert!(error.describe().ends_with(&error.0));
        }
    }
}
