use regex::bytes::Regex;
use vawk::byte_trie::ByteTrie;
use vawk::csv_output::write_table;
use vawk::parsers::{parse_field_separators, parse_index_filters, IndexFilter};
use vawk::transformers::{
    keep_matches, pad_rows, split, split_all, split_into_records, split_into_table,
    transform_output, Combination, Options,
};

fn bytes_vec(data: Vec<&str>) -> Vec<Vec<u8>> {
    data.into_iter().map(|s| s.bytes().collect()).collect()
}

fn separated_by(list: &[&str]) -> Options {
    let strings: Vec<String> = list.iter().map(|s| s.to_string()).collect();
    let mut options = Options::default();
    options.separators = Some(parse_field_separators(&strings).unwrap());
    options
}

fn csv(column_options: &Options, row_options: &Options, data: &[u8]) -> Vec<u8> {
    transform_output(column_options, row_options, &data.to_vec()).unwrap()
}

#[test]
fn single_dimension_line_split() {
    let rows = separated_by(&["\\n"]);
    let columns = Options::default();
    assert_eq!(csv(&columns, &rows, b"a\nb\nc"), b"a\r\nb\r\nc\r\n".to_vec());
}

#[test]
fn two_dimensions_tab_and_newline() {
    let rows = separated_by(&["\\n"]);
    let columns = separated_by(&["\\t"]);
    assert_eq!(
        csv(&columns, &rows, b"COMMAND\tPID\nls\t12\nps\t34"),
        b"COMMAND,PID\r\nls,12\r\nps,34\r\n".to_vec()
    );
}

#[test]
fn index_filter_one_and_five_upwards() {
    let mut options = Options::default();
    options.index_filters = Some(parse_index_filters("1, 5..").unwrap());
    let data = bytes_vec(vec![
        "The", "quick", "brown", "fox", "jumped", "over", "the", "lazy", "dog",
    ]);
    assert_eq!(
        keep_matches(&options, &data),
        bytes_vec(vec!["quick", "over", "the", "lazy", "dog"])
    );
}

#[test]
fn regex_filter_keeps_matching_rows_in_order() {
    let mut options = Options::default();
    options.regex_filter = Some(Regex::new("3[0-9]{3}").unwrap());
    let data = bytes_vec(vec![
        "COMMAND\tPID\tUSER\tFD\tTYPE\tSIZE/OFF\tNODE\tNAME",
        "loginwind\t168\tjimberlage\t7u\tIPv4\t0t0\tUDP\t*:5678",
        "SystemUIS\t343\tjimberlage\t5u\tIPv4\t0t0\tUDP\t*:3100",
        "SystemUIS\t343\tjimberlage\t8u\tIPv4\t0t0\tUDP\t*:9004",
        "rapportd\t379\tjimberlage\t4u\tIPv4\t0t0\tTCP\t*:3001 (LISTEN)",
        "rapportd\t379\tjimberlage\t5u\tIPv6\t0t0\tTCP\t*:3005 (LISTEN)",
    ]);
    assert_eq!(
        keep_matches(&options, &data),
        bytes_vec(vec![
            "SystemUIS\t343\tjimberlage\t5u\tIPv4\t0t0\tUDP\t*:3100",
            "rapportd\t379\tjimberlage\t4u\tIPv4\t0t0\tTCP\t*:3001 (LISTEN)",
            "rapportd\t379\tjimberlage\t5u\tIPv6\t0t0\tTCP\t*:3005 (LISTEN)",
        ])
    );
}

#[test]
fn greedy_multi_byte_separator() {
    let mut separators = ByteTrie::new();
    separators.insert(b"\r\n");
    assert_eq!(
        split(&separators, &b"a\r\nb\rc\r\nd".to_vec()),
        bytes_vec(vec!["a", "b\rc", "d"])
    );
}

#[test]
fn and_against_or() {
    let data = bytes_vec(vec!["ab", "cd", "ef", "gh"]);
    let mut options = Options::default();
    options.index_filters = Some(vec![IndexFilter::Exact(0), IndexFilter::Exact(2)]);
    options.regex_filter = Some(Regex::new("d").unwrap());
    options.filters_combination = Some(Combination::And);
    assert_eq!(keep_matches(&options, &data), bytes_vec(vec![]));
    options.filters_combination = None;
    assert_eq!(keep_matches(&options, &data), bytes_vec(vec![]));
    options.filters_combination = Some(Combination::Or);
    assert_eq!(keep_matches(&options, &data), bytes_vec(vec!["ab", "cd", "ef"]));
}

#[test]
fn failed_candidate_is_spilled_whole() {
    let mut separators = ByteTrie::new();
    separators.insert(b"abc");
    assert_eq!(split(&separators, &b"xabyabcz".to_vec()), bytes_vec(vec!["xaby", "z"]));
    assert_eq!(split(&separators, &b"abx".to_vec()), bytes_vec(vec!["abx"]));
}

#[test]
fn consecutive_separators_collapse_and_no_segment_is_empty() {
    let mut separators = ByteTrie::new();
    separators.insert(b",");
    separators.insert(b";");
    assert_eq!(split(&separators, &b",,a,;b;;".to_vec()), bytes_vec(vec!["a", "b"]));
    assert_eq!(split(&separators, &b",;,".to_vec()), bytes_vec(vec![]));
    assert_eq!(split(&separators, &b"".to_vec()), bytes_vec(vec![]));
}

#[test]
fn candidate_held_back_at_the_end_is_in_no_segment() {
    let mut separators = ByteTrie::new();
    separators.insert(b"\r\n");
    assert_eq!(split(&separators, &b"a\r".to_vec()), bytes_vec(vec!["a"]));
}

#[test]
fn no_separators_give_the_buffer_as_one_segment() {
    let options = Options::default();
    assert_eq!(split_all(&options, &b"a\nb".to_vec()), bytes_vec(vec!["a\nb"]));
    assert_eq!(split_into_records(&options, &b"a\nb".to_vec()), bytes_vec(vec!["a\nb"]));
    assert_eq!(split_into_records(&options, &b"".to_vec()), bytes_vec(vec![""]));
}

#[test]
fn regex_separator_cuts_each_literal_segment() {
    let mut options = separated_by(&["\\n"]);
    options.regex_separator = Some(Regex::new(" +").unwrap());
    assert_eq!(
        split_all(&options, &b"a  b\nc d".to_vec()),
        bytes_vec(vec!["a", "b", "c", "d"])
    );
    let mut only_regex = Options::default();
    only_regex.regex_separator = Some(Regex::new("0").unwrap());
    assert_eq!(split_all(&only_regex, &b"010".to_vec()), bytes_vec(vec!["", "1", ""]));
}

#[test]
fn short_rows_are_padded_to_the_widest() {
    let rows = separated_by(&["\\n"]);
    let columns = separated_by(&[","]);
    let mut table = split_into_table(&rows, &columns, &b"a\nb,c,d\ne,f".to_vec());
    assert_eq!(
        table,
        vec![bytes_vec(vec!["a"]), bytes_vec(vec!["b", "c", "d"]), bytes_vec(vec!["e", "f"])]
    );
    pad_rows(&mut table);
    assert_eq!(
        table,
        vec![
            bytes_vec(vec!["a", "", ""]),
            bytes_vec(vec!["b", "c", "d"]),
            bytes_vec(vec!["e", "f", ""]),
        ]
    );
    assert_eq!(
        csv(&columns, &rows, b"a\nb,c,d\ne,f"),
        b"a,,\r\nb,c,d\r\ne,f,\r\n".to_vec()
    );
}

#[test]
fn cells_with_special_bytes_are_quoted() {
    let rows = separated_by(&["|"]);
    let columns = separated_by(&[";"]);
    assert_eq!(
        csv(&columns, &rows, b"a,b;c\"d|e\rf;g\nh|plain;\xff"),
        b"\"a,b\",\"c\"\"d\"\r\n\"e\rf\",\"g\nh\"\r\nplain,\xff\r\n".to_vec()
    );
}

#[test]
fn row_of_one_empty_cell_is_a_pair_of_quotes() {
    let rows = Options::default();
    let columns = Options::default();
    assert_eq!(csv(&columns, &rows, b""), b"\"\"\r\n".to_vec());
    let mut nothing_kept = Options::default();
    nothing_kept.index_filters = Some(vec![]);
    assert_eq!(csv(&nothing_kept, &rows, b"x"), b"\"\"\r\n".to_vec());
    assert_eq!(csv(&columns, &nothing_kept, b"x"), b"".to_vec());
}

#[test]
fn even_table_is_written_row_by_row() {
    let table = vec![bytes_vec(vec!["a", "b"]), bytes_vec(vec!["", "c,d"])];
    assert_eq!(write_table(&table).unwrap(), b"a,b\r\n,\"c,d\"\r\n".to_vec());
    assert_eq!(write_table(&vec![]).unwrap(), b"".to_vec());
    assert_eq!(write_table(&vec![vec![], vec![]]).unwrap(), b"\"\"\r\n\"\"\r\n".to_vec());
}

#[test]
fn rows_of_different_width_are_refused() {
    let wider = vec![bytes_vec(vec!["a"]), bytes_vec(vec!["b", "c"])];
    let error = write_table(&wider).unwrap_err();
    assert!(error.0.contains("found record with 2 fields"));
    let narrower = vec![bytes_vec(vec!["a", "b"]), bytes_vec(vec!["c", "d"]), bytes_vec(vec!["e"])];
    assert!(write_table(&narrower).is_err());
    let after_empty = vec![vec![], bytes_vec(vec![""])];
    assert!(write_table(&after_empty).is_err());
}
