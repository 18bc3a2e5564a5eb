use vawk::transformers::{Combination, Options};
use vawk::websocket_connection::{
    FromClient, FromServer, Heartbeat, Incoming, Initialize, Reaction, Received,
    WebsocketConnection, CLIENT_TIMEOUT, HEARTBEAT_INTERVAL,
};

fn connection(stdin: &[u8]) -> WebsocketConnection {
    WebsocketConnection::new(stdin.to_vec(), Options::default(), Options::default(), 1000)
}

fn strings(list: &[&str]) -> Vec<String> {
    list.iter().map(|s| s.to_string()).collect()
}

fn output(text: &[u8]) -> FromServer {
    FromServer::Output(text.to_vec())
}

fn error_text(reply: FromServer) -> String {
    match reply {
        FromServer::UnexpectedError(description) => description,
        FromServer::Output(bytes) => panic!("answered with output {:?}", bytes),
    }
}

fn initial_values() -> Initialize {
    Initialize {
        row_separators: strings(&["\\n"]),
        row_regex_separator: String::new(),
        row_index_filters: String::new(),
        row_regex_filter: String::new(),
        row_filter_combination: None,
        column_separators: strings(&["\\t"]),
        column_regex_separator: String::new(),
        column_index_filters: String::new(),
        column_regex_filter: String::new(),
        column_filter_combination: None,
    }
}

#[test]
fn timing_constants() {
    assert_eq!(HEARTBEAT_INTERVAL, 100);
    assert_eq!(CLIENT_TIMEOUT, 500);
}

#[test]
fn new_connection_shows_the_buffer_as_one_cell() {
    let session = connection(b"a\nb");
    assert_eq!(session.send_csvs(), output(b"\"a\nb\"\r\n"));
}

#[test]
fn initialize_sets_both_dimensions_and_answers_with_the_view() {
    let mut session = connection(b"COMMAND\tPID\nls\t12\nps\t34");
    let reply = session.handle_message(Received::Message(FromClient::Initialize(initial_values())));
    assert_eq!(reply, output(b"COMMAND,PID\r\nls,12\r\nps,34\r\n"));
}

#[test]
fn each_request_answers_with_the_recomputed_view() {
    let mut session = connection(b"a b\nc d\ne f");
    let reply =
        session.handle_message(Received::Message(FromClient::SetRowSeparators(strings(&["\\n"]))));
    assert_eq!(reply, output(b"a b\r\nc d\r\ne f\r\n"));
    let reply = session
        .handle_message(Received::Message(FromClient::SetColumnRegexSeparator(" ".to_string())));
    assert_eq!(reply, output(b"a,b\r\nc,d\r\ne,f\r\n"));
    let reply =
        session.handle_message(Received::Message(FromClient::SetRowIndexFilters("1..".to_string())));
    assert_eq!(reply, output(b"c,d\r\ne,f\r\n"));
    let reply =
        session.handle_message(Received::Message(FromClient::SetRowRegexFilter("a|e".to_string())));
    assert_eq!(reply, output(b"e,f\r\n"));
    let reply = session.handle_message(Received::Message(FromClient::SetRowFilterCombination(
        Some(Combination::Or),
    )));
    assert_eq!(reply, output(b"a,b\r\nc,d\r\ne,f\r\n"));
    let reply = session.handle_message(Received::Message(FromClient::SetRowFilterCombination(
        Some(Combination::And),
    )));
    assert_eq!(reply, output(b"e,f\r\n"));
    let reply =
        session.handle_message(Received::Message(FromClient::SetRowRegexFilter(String::new())));
    assert_eq!(reply, output(b"c,d\r\ne,f\r\n"));
    let reply =
        session.handle_message(Received::Message(FromClient::SetColumnIndexFilters("0".to_string())));
    assert_eq!(reply, output(b"c\r\ne\r\n"));
    let reply = session
        .handle_message(Received::Message(FromClient::SetColumnRegexFilter("x".to_string())));
    assert_eq!(reply, output(b"\"\"\r\n\"\"\r\n"));
    let reply = session.handle_message(Received::Message(
        FromClient::SetColumnFilterCombination(Some(Combination::Or)),
    ));
    assert_eq!(reply, output(b"c\r\ne\r\n"));
    let reply = session
        .handle_message(Received::Message(FromClient::SetColumnSeparators(strings(&["c", "e"]))));
    assert_eq!(reply, output(b"\"\"\r\n\"\"\r\n"));
    let reply = session
        .handle_message(Received::Message(FromClient::SetColumnSeparators(strings(&[]))));
    assert_eq!(reply, output(b"c\r\ne\r\n"));
    let reply = session
        .handle_message(Received::Message(FromClient::SetRowRegexSeparator("d".to_string())));
    assert_eq!(reply, output(b"c\r\n\"\"\r\ne\r\n"));
}

#[test]
fn rejected_index_filters_clear_the_option_and_answer_with_the_rest() {
    let mut session = connection(b"a\nb\nc");
    session.handle_message(Received::Message(FromClient::SetRowSeparators(strings(&["\\n"]))));
    let reply =
        session.handle_message(Received::Message(FromClient::SetRowIndexFilters("0".to_string())));
    assert_eq!(reply, output(b"a\r\n"));
    let reply = session
        .handle_message(Received::Message(FromClient::SetRowIndexFilters("0, x".to_string())));
    assert_eq!(error_text(reply), "This is not a valid list of index filters: , x");
    assert_eq!(session.send_csvs(), output(b"a\r\nb\r\nc\r\n"));
}

#[test]
fn rejected_regex_clears_the_option_and_answers_with_the_message() {
    let mut session = connection(b"a\nb\nc");
    session.handle_message(Received::Message(FromClient::SetRowSeparators(strings(&["\\n"]))));
    let reply =
        session.handle_message(Received::Message(FromClient::SetRowRegexFilter("b".to_string())));
    assert_eq!(reply, output(b"b\r\n"));
    let reply =
        session.handle_message(Received::Message(FromClient::SetRowRegexFilter("(".to_string())));
    let text = error_text(reply);
    assert!(text.starts_with("This is not a valid regular expression:\n"));
    assert!(text.len() > "This is not a valid regular expression:\n".len());
    assert_eq!(session.send_csvs(), output(b"a\r\nb\r\nc\r\n"));
    let reply = session
        .handle_message(Received::Message(FromClient::SetColumnRegexSeparator("[".to_string())));
    assert!(error_text(reply).starts_with("This is not a valid regular expression:\n"));
}

#[test]
fn blank_index_filters_clear_the_option() {
    let mut session = connection(b"a\nb");
    session.handle_message(Received::Message(FromClient::SetRowSeparators(strings(&["\\n"]))));
    session.handle_message(Received::Message(FromClient::SetRowIndexFilters("1".to_string())));
    let reply =
        session.handle_message(Received::Message(FromClient::SetRowIndexFilters("  ".to_string())));
    assert_eq!(reply, output(b"a\r\nb\r\n"));
}

#[test]
fn empty_text_clears_an_option() {
    let mut session = connection(b"a\nb");
    session.handle_message(Received::Message(FromClient::SetRowSeparators(strings(&["\\n"]))));
    session.handle_message(Received::Message(FromClient::SetRowIndexFilters("1".to_string())));
    let reply =
        session.handle_message(Received::Message(FromClient::SetRowIndexFilters(String::new())));
    assert_eq!(reply, output(b"a\r\nb\r\n"));
}

#[test]
fn initialize_stops_at_the_first_fault_and_keeps_what_was_set() {
    let mut session = connection(b"a,b\nc,d");
    session
        .handle_message(Received::Message(FromClient::SetColumnSeparators(strings(&[","]))));
    session.handle_message(Received::Message(FromClient::SetRowRegexFilter("a".to_string())));
    let mut values = initial_values();
    values.row_index_filters = "0..5".to_string();
    values.row_regex_filter = "(".to_string();
    values.column_separators = strings(&[";"]);
    let reply = session.handle_message(Received::Message(FromClient::Initialize(values)));
    let text = error_text(reply);
    assert!(text.starts_with(
        "The row regex filter is invalid:\nThis is not a valid regular expression:\n"
    ));
    assert_eq!(session.send_csvs(), output(b"a,b\r\nc,d\r\n"));
}

#[test]
fn initialize_names_the_column_field_that_failed() {
    let mut session = connection(b"a");
    let mut values = initial_values();
    values.column_index_filters = "nope".to_string();
    let reply = session.handle_message(Received::Message(FromClient::Initialize(values)));
    assert_eq!(
        error_text(reply),
        "The column index filters are invalid:\nThis is not a valid list of index filters: nope"
    );
    let mut values = initial_values();
    values.row_regex_separator = "(".to_string();
    let reply = session.handle_message(Received::Message(FromClient::Initialize(values)));
    assert!(error_text(reply).starts_with("The row regex separator is invalid:\n"));
    let mut values = initial_values();
    values.column_regex_separator = "(".to_string();
    let reply = session.handle_message(Received::Message(FromClient::Initialize(values)));
    assert!(error_text(reply).starts_with("The column regex separator is invalid:\n"));
    let mut values = initial_values();
    values.column_regex_filter = "(".to_string();
    let reply = session.handle_message(Received::Message(FromClient::Initialize(values)));
    assert!(error_text(reply).starts_with("The column regex filter is invalid:\n"));
    let mut values = initial_values();
    values.row_index_filters = "x".to_string();
    let reply = session.handle_message(Received::Message(FromClient::Initialize(values)));
    assert!(error_text(reply).starts_with("The row index filters are invalid:\n"));
}

#[test]
fn empty_and_unreadable_messages_are_reported_and_change_nothing() {
    let mut session = connection(b"a\nb");
    session.handle_message(Received::Message(FromClient::SetRowSeparators(strings(&["\\n"]))));
    assert_eq!(
        error_text(session.handle_message(Received::Empty)),
        "A message was expected but was not present."
    );
    assert_eq!(
        error_text(session.handle_message(Received::Unreadable("bad tag".to_string()))),
        "An error occurred while parsing a message from the client:\nbad tag"
    );
    assert_eq!(session.send_csvs(), output(b"a\r\nb\r\n"));
}

#[test]
fn same_state_gives_the_same_output() {
    let mut one = connection(b"a b\nc d");
    let mut other = connection(b"a b\nc d");
    let first = one.handle_message(Received::Message(FromClient::Initialize(initial_values())));
    other.handle_message(Received::Message(FromClient::SetColumnSeparators(strings(&["\\t"]))));
    let second =
        other.handle_message(Received::Message(FromClient::SetRowSeparators(strings(&["\\n"]))));
    assert_eq!(first, second);
    assert_eq!(one.send_csvs(), one.send_csvs());
}

#[test]
fn parts_are_put_together_and_dispatched_at_the_last() {
    let mut session = connection(b"");
    assert_eq!(session.handle(Incoming::FirstBinary(b"ab".to_vec()), 1000), Reaction::Nothing);
    assert_eq!(session.handle(Incoming::Continue(b"cd".to_vec()), 1000), Reaction::Nothing);
    assert_eq!(session.handle(Incoming::Continue(b"".to_vec()), 1000), Reaction::Nothing);
    assert_eq!(
        session.handle(Incoming::Last(b"ef".to_vec()), 1000),
        Reaction::Dispatch(b"abcdef".to_vec())
    );
    assert_eq!(session.send_full_continuation_frame(), None);
    assert_eq!(session.handle(Incoming::FirstText(b"x".to_vec()), 1000), Reaction::Nothing);
    assert_eq!(
        session.handle(Incoming::Last(b"y".to_vec()), 1000),
        Reaction::Dispatch(b"xy".to_vec())
    );
}

#[test]
fn part_without_a_first_part_is_taken_for_the_first() {
    let mut session = connection(b"");
    assert_eq!(
        session.handle(Incoming::Last(b"solo".to_vec()), 1000),
        Reaction::Dispatch(b"solo".to_vec())
    );
    assert_eq!(session.handle(Incoming::Continue(b"ab".to_vec()), 1000), Reaction::Nothing);
    assert_eq!(
        session.handle(Incoming::Last(b"cd".to_vec()), 1000),
        Reaction::Dispatch(b"abcd".to_vec())
    );
}

#[test]
fn new_first_part_drops_the_parts_that_were_waiting() {
    let mut session = connection(b"");
    session.set_first_frame_part(b"old".to_vec());
    session.set_frame_part(b"er".to_vec());
    session.set_first_frame_part(b"new".to_vec());
    session.set_last_frame_part(b"est".to_vec());
    assert_eq!(session.send_full_continuation_frame(), Some(b"newest".to_vec()));
    assert_eq!(session.send_full_continuation_frame(), None);
}

#[test]
fn whole_messages_are_dispatched_as_they_are() {
    let mut session = connection(b"");
    assert_eq!(
        session.handle(Incoming::Binary(b"\x01\x02".to_vec()), 1000),
        Reaction::Dispatch(b"\x01\x02".to_vec())
    );
    assert_eq!(
        session.handle(Incoming::Text(b"text".to_vec()), 1000),
        Reaction::Dispatch(b"text".to_vec())
    );
    assert_eq!(session.handle(Incoming::Nop, 1000), Reaction::Nothing);
}

#[test]
fn close_and_protocol_error_end_the_session() {
    let mut session = connection(b"");
    assert_eq!(session.handle(Incoming::Close, 1000), Reaction::Close);
    assert_eq!(session.handle(Incoming::ProtocolError, 1000), Reaction::CloseOnProtocolError);
}

#[test]
fn silence_longer_than_the_timeout_is_noticed() {
    let session = connection(b"");
    assert_eq!(session.heartbeat(1000), Heartbeat::Ping);
    assert_eq!(session.heartbeat(1100), Heartbeat::Ping);
    assert_eq!(session.heartbeat(1500), Heartbeat::Ping);
    assert_eq!(session.heartbeat(1501), Heartbeat::TimedOut);
    assert_eq!(session.heartbeat(1600), Heartbeat::TimedOut);
    assert_eq!(session.heartbeat(900), Heartbeat::Ping);
    assert_eq!(session.heartbeat(u64::MAX), Heartbeat::TimedOut);
}

#[test]
fn ping_and_pong_count_as_a_sign_of_life() {
    let mut session = connection(b"");
    assert_eq!(session.handle(Incoming::Ping(b"hi".to_vec()), 1400), Reaction::Pong(b"hi".to_vec()));
    assert_eq!(session.heartbeat(1900), Heartbeat::Ping);
    assert_eq!(session.heartbeat(1901), Heartbeat::TimedOut);
    assert_eq!(session.handle(Incoming::Pong, 1850), Reaction::Nothing);
    assert_eq!(session.heartbeat(2350), Heartbeat::Ping);
    assert_eq!(session.heartbeat(2351), Heartbeat::TimedOut);
    assert_eq!(session.handle(Incoming::Binary(vec![]), 2300), Reaction::Dispatch(vec![]));
    assert_eq!(session.heartbeat(2351), Heartbeat::TimedOut);
}

#[test]
fn starved_timer_fires_within_one_interval() {
    let mut session = connection(b"");
    session.handle(Incoming::Pong, 1234);
    let mut now = 1000;
    let mut fired = None;
    while fired.is_none() {
        now += HEARTBEAT_INTERVAL;
        if session.heartbeat(now) == Heartbeat::TimedOut {
            fired = Some(now);
        }
    }
    let fired = fired.unwrap();
    assert_eq!(fired, 1800);
    assert!(fired > 1234 + CLIENT_TIMEOUT);
    assert!(fired <= 1234 + CLIENT_TIMEOUT + HEARTBEAT_INTERVAL);
}
