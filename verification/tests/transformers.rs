use regex::bytes::Regex;
use vawk::byte_trie::ByteTrie;
use vawk::parsers::IndexFilter;
use vawk::transformers::{keep_index_matches, keep_regex_matches, split};

fn bytes_vec(data: Vec<&str>) -> Vec<Vec<u8>> {
    data.into_iter().map(|s| s.bytes().collect()).collect()
}

#[test]
fn transformers_split() {
    // Special characters are parsed correctly.
    let mut separators = ByteTrie::new();
    separators.insert(&[b'\n']);
    let expected: Vec<Vec<u8>> = bytes_vec(vec!["hi\tthere\tthis", "could\tbe\tcsv"]);
    let actual = split(&separators, &"hi\tthere\tthis\ncould\tbe\tcsv".bytes().collect());
    assert_eq!(actual, expected);
}

#[test]
fn transformers_keep_index_matches() {
    // The rule "1, 5.." keeps indexes 1, 5, 6, 7, 8.
    let data: Vec<Vec<u8>> = bytes_vec(vec![
        "The", "quick", "brown", "fox", "jumped", "over", "the", "lazy", "dog",
    ]);
    let expected: Vec<Vec<u8>> = bytes_vec(vec!["quick", "over", "the", "lazy", "dog"]);
    let actual = keep_index_matches(
        &vec![IndexFilter::Exact(1usize), IndexFilter::LowerBounded(5usize)],
        data,
    );
    assert_eq!(actual, expected);
}

#[test]
fn transformers_keep_regex_matches() {
    // Special characters are parsed correctly.
    let regex = Regex::new("3[0-9]{3}").unwrap();
    let expected = bytes_vec(vec![
        "SystemUIS\t343\tjimberlage\t5u\tIPv4\t0t0\tUDP\t*:3100",
        "rapportd\t379\tjimberlage\t4u\tIPv4\t0t0\tTCP\t*:3001 (LISTEN)",
        "rapportd\t379\tjimberlage\t5u\tIPv6\t0t0\tTCP\t*:3005 (LISTEN)",
    ]);
    let actual = keep_regex_matches(
        &regex,
        bytes_vec(vec![
            "COMMAND\tPID\tUSER\tFD\tTYPE\tSIZE/OFF\tNODE\tNAME",
            "loginwind\t168\tjimberlage\t7u\tIPv4\t0t0\tUDP\t*:5678",
            "SystemUIS\t343\tjimberlage\t5u\tIPv4\t0t0\tUDP\t*:3100",
            "SystemUIS\t343\tjimberlage\t8u\tIPv4\t0t0\tUDP\t*:9004",
            "rapportd\t379\tjimberlage\t4u\tIPv4\t0t0\tTCP\t*:3001 (LISTEN)",
            "rapportd\t379\tjimberlage\t5u\tIPv6\t0t0\tTCP\t*:3005 (LISTEN)",
        ]),
    );
    assert_eq!(actual, expected);
}
