use vawk::transformers::{Combination, Options};
use vawk::websocket_connection::{
    FromClient, FromServer, Initialize, Received, WebsocketConnection,
};
use vawk::wire::{answer, decode_from_client, encode_from_server};

fn field(number: u8, payload: &[u8]) -> Vec<u8> {
    assert!(number < 16 && payload.len() < 128);
    let mut bytes = vec![number * 8 + 2, payload.len() as u8];
    bytes.extend_from_slice(payload);
    bytes
}

fn joined(parts: &[Vec<u8>]) -> Vec<u8> {
    parts.concat()
}

fn unreadable() -> Received {
    Received::Unreadable("The bytes are not a message that this server knows.".to_string())
}

fn strings(list: &[&str]) -> Vec<String> {
    list.iter().map(|s| s.to_string()).collect()
}

#[test]
fn no_bytes_are_an_empty_message() {
    assert_eq!(decode_from_client(b""), Received::Empty);
}

#[test]
fn text_requests_are_decoded() {
    let cases: Vec<(u8, fn(String) -> FromClient)> = vec![
        (2, FromClient::SetColumnIndexFilters),
        (3, FromClient::SetColumnRegexFilter),
        (6, FromClient::SetColumnRegexSeparator),
        (7, FromClient::SetRowIndexFilters),
        (8, FromClient::SetRowRegexFilter),
        (11, FromClient::SetRowRegexSeparator),
    ];
    for (number, request) in cases {
        let bytes = field(number, &field(1, "1, 5..é".as_bytes()));
        assert_eq!(
            decode_from_client(&bytes),
            Received::Message(request("1, 5..é".to_string()))
        );
        assert_eq!(
            decode_from_client(&field(number, b"")),
            Received::Message(request(String::new()))
        );
    }
}

#[test]
fn exact_bytes_of_a_separator_request() {
    assert_eq!(
        decode_from_client(&[0x52, 0x04, 0x0a, 0x02, 0x5c, 0x6e]),
        Received::Message(FromClient::SetRowSeparators(strings(&["\\n"])))
    );
}

#[test]
fn list_requests_collect_every_entry() {
    let list = joined(&[field(1, b"\\n"), field(1, b""), field(1, b",")]);
    assert_eq!(
        decode_from_client(&field(5, &list)),
        Received::Message(FromClient::SetColumnSeparators(strings(&["\\n", "", ","])))
    );
    assert_eq!(
        decode_from_client(&field(10, &list)),
        Received::Message(FromClient::SetRowSeparators(strings(&["\\n", "", ","])))
    );
    assert_eq!(
        decode_from_client(&field(10, b"")),
        Received::Message(FromClient::SetRowSeparators(vec![]))
    );
}

#[test]
fn combination_requests_are_decoded() {
    let and = field(1, &field(1, b""));
    let or = field(1, &field(2, b""));
    assert_eq!(
        decode_from_client(&field(4, &and)),
        Received::Message(FromClient::SetColumnFilterCombination(Some(Combination::And)))
    );
    assert_eq!(
        decode_from_client(&field(9, &or)),
        Received::Message(FromClient::SetRowFilterCombination(Some(Combination::Or)))
    );
    assert_eq!(
        decode_from_client(&field(9, b"")),
        Received::Message(FromClient::SetRowFilterCombination(None))
    );
    assert_eq!(
        decode_from_client(&field(9, &field(1, b""))),
        Received::Message(FromClient::SetRowFilterCombination(None))
    );
    assert_eq!(decode_from_client(&field(9, &field(1, &field(3, b"")))), unreadable());
    assert_eq!(decode_from_client(&field(9, &field(1, &field(1, b"x")))), unreadable());
}

#[test]
fn initialize_is_decoded_field_by_field() {
    let payload = joined(&[
        field(1, b"\\n"),
        field(1, b"\\r\\n"),
        field(2, b" +"),
        field(3, b"1.."),
        field(4, b"a"),
        field(5, &field(2, b"")),
        field(6, b"\\t"),
        field(7, b","),
        field(8, b"..3"),
        field(9, b"b"),
        field(10, &field(1, b"")),
    ]);
    assert_eq!(
        decode_from_client(&field(1, &payload)),
        Received::Message(FromClient::Initialize(Initialize {
            row_separators: strings(&["\\n", "\\r\\n"]),
            row_regex_separator: " +".to_string(),
            row_index_filters: "1..".to_string(),
            row_regex_filter: "a".to_string(),
            row_filter_combination: Some(Combination::Or),
            column_separators: strings(&["\\t"]),
            column_regex_separator: ",".to_string(),
            column_index_filters: "..3".to_string(),
            column_regex_filter: "b".to_string(),
            column_filter_combination: Some(Combination::And),
        }))
    );
    assert_eq!(
        decode_from_client(&field(1, b"")),
        Received::Message(FromClient::Initialize(Initialize {
            row_separators: vec![],
            row_regex_separator: String::new(),
            row_index_filters: String::new(),
            row_regex_filter: String::new(),
            row_filter_combination: None,
            column_separators: vec![],
            column_regex_separator: String::new(),
            column_index_filters: String::new(),
            column_regex_filter: String::new(),
            column_filter_combination: None,
        }))
    );
    assert_eq!(decode_from_client(&field(1, &field(11, b"x"))), unreadable());
}

#[test]
fn later_value_of_a_field_counts() {
    let twice = joined(&[field(1, b"first"), field(1, b"second")]);
    assert_eq!(
        decode_from_client(&field(7, &twice)),
        Received::Message(FromClient::SetRowIndexFilters("second".to_string()))
    );
    let two_requests = joined(&[field(7, &field(1, b"1")), field(8, &field(1, b"x"))]);
    assert_eq!(
        decode_from_client(&two_requests),
        Received::Message(FromClient::SetRowRegexFilter("x".to_string()))
    );
}

#[test]
fn malformed_bytes_are_unreadable() {
    assert_eq!(decode_from_client(&[0x3a]), unreadable());
    assert_eq!(decode_from_client(&[0x3a, 0x05, 0x0a]), unreadable());
    assert_eq!(decode_from_client(&[0x38, 0x01]), unreadable());
    assert_eq!(decode_from_client(&[0x02, 0x00]), unreadable());
    assert_eq!(decode_from_client(&field(12, b"")), unreadable());
    assert_eq!(decode_from_client(&field(7, &field(2, b"x"))), unreadable());
    assert_eq!(decode_from_client(&field(7, &field(1, b"\xff"))), unreadable());
    assert_eq!(decode_from_client(&[0xba, 0x80]), unreadable());
    assert_eq!(
        decode_from_client(&[0x3a, 0xff, 0xff, 0xff, 0xff, 0xff, 0xff, 0xff, 0xff, 0xff, 0x7f]),
        unreadable()
    );
    let sound_then_broken = joined(&[field(7, &field(1, b"1")), vec![0x3a]]);
    assert_eq!(decode_from_client(&sound_then_broken), unreadable());
    let unknown_then_sound = joined(&[field(12, b""), field(7, &field(1, b"1"))]);
    assert_eq!(decode_from_client(&unknown_then_sound), unreadable());
}

#[test]
fn numbers_of_more_than_one_digit_are_read() {
    let text = "x".repeat(200);
    let mut inner = vec![0x0a, 0xc8, 0x01];
    inner.extend_from_slice(text.as_bytes());
    let mut bytes = vec![0x3a, 0xcb, 0x01];
    bytes.extend_from_slice(&inner);
    assert_eq!(
        decode_from_client(&bytes),
        Received::Message(FromClient::SetRowIndexFilters(text))
    );
    assert_eq!(
        decode_from_client(&[0xba, 0x00, 0x00]),
        Received::Message(FromClient::SetRowIndexFilters(String::new()))
    );
}

#[test]
fn replies_are_encoded() {
    assert_eq!(
        encode_from_server(&FromServer::Output(b"a\r\n".to_vec())),
        vec![0x0a, 0x03, b'a', b'\r', b'\n']
    );
    assert_eq!(encode_from_server(&FromServer::Output(vec![])), vec![0x0a, 0x00]);
    assert_eq!(
        encode_from_server(&FromServer::UnexpectedError("é!".to_string())),
        vec![0x12, 0x05, 0x0a, 0x03, 0xc3, 0xa9, b'!']
    );
    let long = encode_from_server(&FromServer::Output(vec![7; 300]));
    assert_eq!(&long[..3], &[0x0a, 0xac, 0x02]);
    assert_eq!(long.len(), 303);
    let long = encode_from_server(&FromServer::Output(vec![7; 128]));
    assert_eq!(&long[..3], &[0x0a, 0x80, 0x01]);
    let long = encode_from_server(&FromServer::Output(vec![7; 127]));
    assert_eq!(&long[..2], &[0x0a, 0x7f]);
}

#[test]
fn payload_in_and_reply_out() {
    let mut session = WebsocketConnection::new(
        b"a\nb".to_vec(),
        Options::default(),
        Options::default(),
        0,
    );
    assert_eq!(
        answer(&mut session, &[0x52, 0x04, 0x0a, 0x02, 0x5c, 0x6e]),
        vec![0x0a, 0x06, b'a', b'\r', b'\n', b'b', b'\r', b'\n']
    );
    let empty = answer(&mut session, b"");
    assert_eq!(
        empty,
        encode_from_server(&FromServer::UnexpectedError(
            "A message was expected but was not present.".to_string()
        ))
    );
    let malformed = answer(&mut session, &[0xff]);
    assert_eq!(
        malformed,
        encode_from_server(&FromServer::UnexpectedError(
            "An error occurred while parsing a message from the client:\nThe bytes are not a message that this server knows.".to_string()
        ))
    );
    assert_eq!(
        answer(&mut session, &field(7, &field(1, b"1"))),
        vec![0x0a, 0x03, b'b', b'\r', b'\n']
    );
}
