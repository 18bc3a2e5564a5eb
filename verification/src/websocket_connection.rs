//! One client connection: the options it has set, the requests it sends, the
//! replies it is owed, the parts of a message that is still arriving, and the
//! heartbeat that keeps it open.
//!
//! Nothing here touches a socket or a clock.  The caller hands in what
//! arrived and the time in milliseconds, and carries out what comes back.

use crate::byte_trie::closure;
use crate::csv_output::CsvAssemblyError;
use crate::parsers::{
    index_filters_of, invalid_field_separator_text, invalid_index_filters_text,
    invalid_regex_text, parse_field_separators, parse_index_filters, parse_regex_filter,
    separators_of, IndexFilter, InvalidFieldSeparatorError, InvalidIndexFiltersError,
    InvalidRegexFilterError,
};
use crate::pattern::{regex_rejection, regex_source};
use crate::transformers::{rendered, transform_output, Combination, Options, OptionsView};
use regex::bytes::Regex;
use vstd::prelude::*;
use vstd::string::StringExecFns;

verus! {

/// How often, in milliseconds, a ping is sent.
pub const HEARTBEAT_INTERVAL: u64 = 100;

/// How long, in milliseconds, the client may stay silent before the
/// connection is closed.
pub const CLIENT_TIMEOUT: u64 = 500;

/// The options of both dimensions, as the client sends them at once.
#[derive(Debug, PartialEq)]
pub struct Initialize {
    pub row_separators: Vec<String>,
    pub row_regex_separator: String,
    pub row_index_filters: String,
    pub row_regex_filter: String,
    pub row_filter_combination: Option<Combination>,
    pub column_separators: Vec<String>,
    pub column_regex_separator: String,
    pub column_index_filters: String,
    pub column_regex_filter: String,
    pub column_filter_combination: Option<Combination>,
}

/// A request of the client.
#[derive(Debug, PartialEq)]
pub enum FromClient {
    Initialize(Initialize),
    SetColumnIndexFilters(String),
    SetColumnRegexFilter(String),
    SetColumnFilterCombination(Option<Combination>),
    SetColumnSeparators(Vec<String>),
    SetColumnRegexSeparator(String),
    SetRowIndexFilters(String),
    SetRowRegexFilter(String),
    SetRowFilterCombination(Option<Combination>),
    SetRowSeparators(Vec<String>),
    SetRowRegexSeparator(String),
}

/// What decoding a payload gave.
#[derive(Debug, PartialEq)]
pub enum Received {
    /// A request.
    Message(FromClient),
    /// A message that holds no request.
    Empty,
    /// Bytes that are no message; the field says why.
    Unreadable(String),
}

/// A reply to the client.
#[derive(Debug, PartialEq, Eq)]
pub enum FromServer {
    /// The current view as CSV text.
    Output(Vec<u8>),
    /// What went wrong, in words.
    UnexpectedError(String),
}

/// Why an `Initialize` request stopped.
#[derive(Debug)]
pub enum InitializeError {
    InvalidRowFieldSeparatorError(InvalidFieldSeparatorError),
    InvalidRowIndexFiltersError(InvalidIndexFiltersError),
    InvalidRowRegexFilterError(InvalidRegexFilterError),
    InvalidRowRegexSeparatorError(InvalidRegexFilterError),
    InvalidColumnFieldSeparatorError(InvalidFieldSeparatorError),
    InvalidColumnIndexFiltersError(InvalidIndexFiltersError),
    InvalidColumnRegexFilterError(InvalidRegexFilterError),
    InvalidColumnRegexSeparatorError(InvalidRegexFilterError),
}

/// One of the two dimensions.
pub enum Dimension {
    Row,
    Column,
}

/// One of the options of a dimension that are read from text.
pub enum Field {
    Separators,
    RegexSeparator,
    IndexFilters,
    RegexFilter,
}

/// The first option that an `Initialize` request could not set, with what its
/// parser said.
pub struct Fault {
    pub dimension: Dimension,
    pub field: Field,
    pub complaint: Seq<char>,
}

/// What a reply says of a payload that could not be decoded.
pub open spec fn unreadable_message_text(reason: Seq<char>) -> Seq<char> {
    "An error occurred while parsing a message from the client:\n"@ + reason
}

/// What a reply says of a message without a request.
pub open spec fn empty_message_text() -> Seq<char> {
    "A message was expected but was not present."@
}

/// What a reply says where the CSV text could not be written.
pub open spec fn transform_failure_text(message: Seq<char>) -> Seq<char> {
    "An error occurred while transforming command output:\n"@ + message
}

/// What a reply says of a fault in an `Initialize` request.
pub open spec fn fault_text(fault: Fault) -> Seq<char> {
    match (fault.dimension, fault.field) {
        (Dimension::Row, Field::Separators) => "A row separator is invalid:\n"@
            + invalid_field_separator_text(fault.complaint),
        (Dimension::Row, Field::IndexFilters) => "The row index filters are invalid:\n"@
            + invalid_index_filters_text(fault.complaint),
        (Dimension::Row, Field::RegexFilter) => "The row regex filter is invalid:\n"@
            + invalid_regex_text(fault.complaint),
        (Dimension::Row, Field::RegexSeparator) => "The row regex separator is invalid:\n"@
            + invalid_regex_text(fault.complaint),
        (Dimension::Column, Field::Separators) => "A column separator is invalid:\n"@
            + invalid_field_separator_text(fault.complaint),
        (Dimension::Column, Field::IndexFilters) => "The column index filters are invalid:\n"@
            + invalid_index_filters_text(fault.complaint),
        (Dimension::Column, Field::RegexFilter) => "The column regex filter is invalid:\n"@
            + invalid_regex_text(fault.complaint),
        (Dimension::Column, Field::RegexSeparator) => "The column regex separator is invalid:\n"@
            + invalid_regex_text(fault.complaint),
    }
}

impl InitializeError {
    /// The option that could not be set, with what its parser said.
    pub open spec fn fault(&self) -> Fault {
        match self {
            InitializeError::InvalidRowFieldSeparatorError(error) => Fault {
                dimension: Dimension::Row,
                field: Field::Separators,
                complaint: error.0@,
            },
            InitializeError::InvalidRowIndexFiltersError(error) => Fault {
                dimension: Dimension::Row,
                field: Field::IndexFilters,
                complaint: error.0@,
            },
            InitializeError::InvalidRowRegexFilterError(error) => Fault {
                dimension: Dimension::Row,
                field: Field::RegexFilter,
                complaint: error.0@,
            },
            InitializeError::InvalidRowRegexSeparatorError(error) => Fault {
                dimension: Dimension::Row,
                field: Field::RegexSeparator,
                complaint: error.0@,
            },
            InitializeError::InvalidColumnFieldSeparatorError(error) => Fault {
                dimension: Dimension::Column,
                field: Field::Separators,
                complaint: error.0@,
            },
            InitializeError::InvalidColumnIndexFiltersError(error) => Fault {
                dimension: Dimension::Column,
                field: Field::IndexFilters,
                complaint: error.0@,
            },
            InitializeError::InvalidColumnRegexFilterError(error) => Fault {
                dimension: Dimension::Column,
                field: Field::RegexFilter,
                complaint: error.0@,
            },
            InitializeError::InvalidColumnRegexSeparatorError(error) => Fault {
                dimension: Dimension::Column,
                field: Field::RegexSeparator,
                complaint: error.0@,
            },
        }
    }

    /// The error in words, for the user.
    pub fn describe(&self) -> (text: String)
        ensures
            text@ == fault_text(self.fault()),
    {
        match self {
            InitializeError::InvalidRowFieldSeparatorError(error) => {
                String::from_str("A row separator is invalid:\n").concat(error.describe().as_str())
            },
            InitializeError::InvalidRowIndexFiltersError(error) => {
                String::from_str("The row index filters are invalid:\n").concat(
                    error.describe().as_str(),
                )
            },
            InitializeError::InvalidRowRegexFilterError(error) => {
                String::from_str("The row regex filter is invalid:\n").concat(
                    error.describe().as_str(),
                )
            },
            InitializeError::InvalidRowRegexSeparatorError(error) => {
                String::from_str("The row regex separator is invalid:\n").concat(
                    error.describe().as_str(),
                )
            },
            InitializeError::InvalidColumnFieldSeparatorError(error) => {
                String::from_str("A column separator is invalid:\n").concat(
                    error.describe().as_str(),
                )
            },
            InitializeError::InvalidColumnIndexFiltersError(error) => {
                String::from_str("The column index filters are invalid:\n").concat(
                    error.describe().as_str(),
                )
            },
            InitializeError::InvalidColumnRegexFilterError(error) => {
                String::from_str("The column regex filter is invalid:\n").concat(
                    error.describe().as_str(),
                )
            },
            InitializeError::InvalidColumnRegexSeparatorError(error) => {
                String::from_str("The column regex separator is invalid:\n").concat(
                    error.describe().as_str(),
                )
            },
        }
    }
}

// What a request stores.
//
// Text that is empty clears the option.  Text that its parser rejects clears
// it too, and the request ends with the parser's complaint.
/// The index filters that `text` stores, and the complaint it ends with.
/// Filters that are stored are never an empty list: text that holds no rule
/// clears the option.
pub open spec fn index_filters_read(text: Seq<char>) -> (
    Option<Seq<IndexFilter>>,
    Option<Seq<char>>,
) {
    match index_filters_of(text) {
        Ok(filters) => if filters.len() == 0 {
            (None, None)
        } else {
            (Some(filters), None)
        },
        Err(rest) => (None, Some(rest)),
    }
}

/// The complaint that reading `text` as a regular expression ends with.
pub open spec fn regex_complaint(text: Seq<char>) -> Option<Seq<char>> {
    if text.len() == 0 {
        None
    } else {
        regex_rejection(text)
    }
}

/// Whether `stored` is what `text` stores as a regular expression: nothing
/// where the text is empty or rejected, and else an expression compiled from it.
pub open spec fn regex_read(text: Seq<char>, stored: Option<Regex>) -> bool {
    if text.len() == 0 || regex_rejection(text) is Some {
        stored is None
    } else {
        stored is Some && regex_source(stored->0) == text
    }
}

/// The trie that a list of separator strings stores.
pub open spec fn separators_read(list: Seq<String>) -> Option<Set<Seq<u8>>> {
    Some(closure(separators_of(list)))
}

/// The options that an `Initialize` request names for one dimension.
pub struct DimensionValues {
    pub separators: Seq<String>,
    pub regex_separator: Seq<char>,
    pub index_filters: Seq<char>,
    pub regex_filter: Seq<char>,
    pub combination: Option<Combination>,
}

/// Whether `after` is what setting the options of one dimension from
/// `values` makes of `before`, and `complaint` what it ends with.
///
/// The options are set in the order separators, regex separator, index
/// filters, regex filter, combination.  The first that is rejected is
/// cleared, and the ones after it stay as they were.
pub open spec fn dimension_set(
    before: OptionsView,
    values: DimensionValues,
    after: OptionsView,
    complaint: Option<(Field, Seq<char>)>,
) -> bool {
    &&& after.separators == separators_read(values.separators)
    &&& regex_read(values.regex_separator, after.regex_separator)
    &&& if regex_complaint(values.regex_separator) is Some {
        &&& complaint == Some((Field::RegexSeparator, regex_complaint(values.regex_separator)->0))
        &&& after.index_filters == before.index_filters
        &&& after.regex_filter == before.regex_filter
        &&& after.filters_combination == before.filters_combination
    } else {
        &&& after.index_filters == index_filters_read(values.index_filters).0
        &&& if index_filters_read(values.index_filters).1 is Some {
            &&& complaint == Some(
                (Field::IndexFilters, index_filters_read(values.index_filters).1->0),
            )
            &&& after.regex_filter == before.regex_filter
            &&& after.filters_combination == before.filters_combination
        } else {
            &&& regex_read(values.regex_filter, after.regex_filter)
            &&& if regex_complaint(values.regex_filter) is Some {
                &&& complaint == Some(
                    (Field::RegexFilter, regex_complaint(values.regex_filter)->0),
                )
                &&& after.filters_combination == before.filters_combination
            } else {
                &&& complaint is None
                &&& after.filters_combination == values.combination
            }
        }
    }
}

impl Initialize {
    /// What the request names for the rows.
    pub open spec fn row_values(&self) -> DimensionValues {
        DimensionValues {
            separators: self.row_separators@,
            regex_separator: self.row_regex_separator@,
            index_filters: self.row_index_filters@,
            regex_filter: self.row_regex_filter@,
            combination: self.row_filter_combination,
        }
    }

    /// What the request names for the columns.
    pub open spec fn column_values(&self) -> DimensionValues {
        DimensionValues {
            separators: self.column_separators@,
            regex_separator: self.column_regex_separator@,
            index_filters: self.column_index_filters@,
            regex_filter: self.column_regex_filter@,
            combination: self.column_filter_combination,
        }
    }
}

/// Whether the options `after` are what an `Initialize` request makes of
/// the options `before`, and `fault` what it stops at.  The rows are set
/// first; where they stop the request, the columns stay as they were.
pub open spec fn initialized(
    before: ConnectionView,
    initial_values: Initialize,
    after: ConnectionView,
    fault: Option<Fault>,
) -> bool {
    exists|row_complaint: Option<(Field, Seq<char>)>|
        {
            &&& #[trigger] dimension_set(
                before.row_options,
                initial_values.row_values(),
                after.row_options,
                row_complaint,
            )
            &&& match row_complaint {
                Some((field, complaint)) => {
                    &&& after.column_options == before.column_options
                    &&& fault == Some(Fault { dimension: Dimension::Row, field, complaint })
                },
                None => exists|column_complaint: Option<(Field, Seq<char>)>|
                    {
                        &&& #[trigger] dimension_set(
                            before.column_options,
                            initial_values.column_values(),
                            after.column_options,
                            column_complaint,
                        )
                        &&& fault == match column_complaint {
                            Some((field, complaint)) => Some(
                                Fault { dimension: Dimension::Column, field, complaint },
                            ),
                            None => None,
                        }
                    },
            }
        }
}

fn parse_or_clear_index_filters(text: &str) -> (outcome: Result<
    Option<Vec<IndexFilter>>,
    InvalidIndexFiltersError,
>)
    ensures
        match outcome {
            Ok(None) => index_filters_read(text@) == (None::<Seq<IndexFilter>>, None::<Seq<char>>),
            Ok(Some(filters)) => index_filters_read(text@) == (Some(filters@), None::<Seq<char>>),
            Err(error) => index_filters_read(text@) == (
                None::<Seq<IndexFilter>>,
                Some(error.0@),
            ),
        },
{
    match parse_index_filters(text) {
        Ok(filters) => if filters.len() == 0 {
            Ok(None)
        } else {
            Ok(Some(filters))
        },
        Err(error) => Err(error),
    }
}

fn parse_or_clear_regex(text: &str) -> (outcome: Result<Option<Regex>, InvalidRegexFilterError>)
    ensures
        match outcome {
            Ok(stored) => regex_read(text@, stored) && regex_complaint(text@) is None,
            Err(error) => regex_complaint(text@) == Some(error.0@),
        },
{
    if text.is_empty() {
        return Ok(None);
    }
    match parse_regex_filter(text) {
        Ok(re) => Ok(Some(re)),
        Err(error) => Err(error),
    }
}

fn set_index_filters(options: &mut Options, text: &str) -> (outcome: Result<
    (),
    InvalidIndexFiltersError,
>)
    ensures
        final(options)@ == (OptionsView {
            index_filters: index_filters_read(text@).0,
            ..old(options)@
        }),
        match outcome {
            Ok(()) => index_filters_read(text@).1 is None,
            Err(error) => index_filters_read(text@).1 == Some(error.0@),
        },
{
    match parse_or_clear_index_filters(text) {
        Ok(parsed_filters) => {
            options.index_filters = parsed_filters;
            Ok(())
        },
        Err(error) => {
            options.index_filters = None;
            Err(error)
        },
    }
}

fn set_regex_filter(options: &mut Options, text: &str) -> (outcome: Result<
    (),
    InvalidRegexFilterError,
>)
    ensures
        final(options)@ == (OptionsView {
            regex_filter: final(options)@.regex_filter,
            ..old(options)@
        }),
        regex_read(text@, final(options)@.regex_filter),
        match outcome {
            Ok(()) => regex_complaint(text@) is None,
            Err(error) => regex_complaint(text@) == Some(error.0@),
        },
{
    match parse_or_clear_regex(text) {
        Ok(parsed_filter) => {
            options.regex_filter = parsed_filter;
            Ok(())
        },
        Err(error) => {
            options.regex_filter = None;
            Err(error)
        },
    }
}

fn set_regex_separator(options: &mut Options, text: &str) -> (outcome: Result<
    (),
    InvalidRegexFilterError,
>)
    ensures
        final(options)@ == (OptionsView {
            regex_separator: final(options)@.regex_separator,
            ..old(options)@
        }),
        regex_read(text@, final(options)@.regex_separator),
        match outcome {
            Ok(()) => regex_complaint(text@) is None,
            Err(error) => regex_complaint(text@) == Some(error.0@),
        },
{
    match parse_or_clear_regex(text) {
        Ok(parsed_separator) => {
            options.regex_separator = parsed_separator;
            Ok(())
        },
        Err(error) => {
            options.regex_separator = None;
            Err(error)
        },
    }
}

fn set_separators(options: &mut Options, list: &Vec<String>) -> (outcome: Result<
    (),
    InvalidFieldSeparatorError,
>)
    ensures
        final(options)@ == (OptionsView { separators: separators_read(list@), ..old(options)@ }),
        outcome is Ok,
{
    match parse_field_separators(list) {
        Ok(parsed_separators) => {
            options.separators = Some(parsed_separators);
            Ok(())
        },
        Err(error) => {
            options.separators = None;
            Err(error)
        },
    }
}

/// Which option of a dimension a failed step of `Initialize` was setting.
enum DimensionError {
    FieldSeparator(InvalidFieldSeparatorError),
    RegexSeparator(InvalidRegexFilterError),
    IndexFilters(InvalidIndexFiltersError),
    RegexFilter(InvalidRegexFilterError),
}

/// The complaint that a step of `Initialize` ended with, if it ended with one.
spec fn complaint_of(outcome: Result<(), DimensionError>) -> Option<(Field, Seq<char>)> {
    match outcome {
        Ok(()) => None,
        Err(error) => Some(error.complaint()),
    }
}

impl DimensionError {
    spec fn complaint(&self) -> (Field, Seq<char>) {
        match self {
            DimensionError::FieldSeparator(error) => (Field::Separators, error.0@),
            DimensionError::RegexSeparator(error) => (Field::RegexSeparator, error.0@),
            DimensionError::IndexFilters(error) => (Field::IndexFilters, error.0@),
            DimensionError::RegexFilter(error) => (Field::RegexFilter, error.0@),
        }
    }
}

fn initialize_dimension(
    options: &mut Options,
    separators: &Vec<String>,
    regex_separator: &str,
    index_filters: &str,
    regex_filter: &str,
    combination: Option<Combination>,
) -> (outcome: Result<(), DimensionError>)
    ensures
        dimension_set(
            old(options)@,
            DimensionValues {
                separators: separators@,
                regex_separator: regex_separator@,
                index_filters: index_filters@,
                regex_filter: regex_filter@,
                combination,
            },
            final(options)@,
            complaint_of(outcome),
        ),
{
    if let Err(error) = set_separators(options, separators) {
        return Err(DimensionError::FieldSeparator(error));
    }
    if let Err(error) = set_regex_separator(options, regex_separator) {
        return Err(DimensionError::RegexSeparator(error));
    }
    if let Err(error) = set_index_filters(options, index_filters) {
        return Err(DimensionError::IndexFilters(error));
    }
    if let Err(error) = set_regex_filter(options, regex_filter) {
        return Err(DimensionError::RegexFilter(error));
    }
    options.filters_combination = combination;
    Ok(())
}

/// The state of a connection.
pub struct WebsocketConnection {
    stdin: Vec<u8>,
    column_options: Options,
    row_options: Options,
    last_seen_heartbeat: u64,
    continuation_frame: Option<Vec<u8>>,
}

/// The state of a connection as mathematical values.
pub struct ConnectionView {
    /// The buffer that the connection shows.
    pub stdin: Seq<u8>,
    pub column_options: OptionsView,
    pub row_options: OptionsView,
    /// When the client was last heard, in milliseconds.
    pub last_seen_heartbeat: u64,
    /// The parts of a message that have arrived while its last part has not.
    pub continuation_frame: Option<Seq<u8>>,
}

impl View for WebsocketConnection {
    type V = ConnectionView;

    closed spec fn view(&self) -> ConnectionView {
        ConnectionView {
            stdin: self.stdin@,
            column_options: self.column_options@,
            row_options: self.row_options@,
            last_seen_heartbeat: self.last_seen_heartbeat,
            continuation_frame: match self.continuation_frame {
                Some(data) => Some(data@),
                None => None,
            },
        }
    }
}

/// Whether `reply` answers a request that has left the connection in the
/// state `state`: it is the CSV text of the view that the state gives.
pub open spec fn answers(state: ConnectionView, reply: FromServer) -> bool {
    reply matches FromServer::Output(bytes) && bytes@ == rendered(
        state.row_options,
        state.column_options,
        state.stdin,
    )
}

/// Whether `reply` is the one that is owed after a request: the description
/// of the complaint where the request ended with one, and else an answer.
pub open spec fn replies(state: ConnectionView, complaint: Option<Seq<char>>, reply: FromServer) -> bool {
    match complaint {
        Some(description) => reply matches FromServer::UnexpectedError(text) && text@
            == description,
        None => answers(state, reply),
    }
}

/// The description of a complaint about index filters, if there is one.
pub open spec fn index_filters_complaint(text: Seq<char>) -> Option<Seq<char>> {
    match index_filters_read(text).1 {
        Some(rest) => Some(invalid_index_filters_text(rest)),
        None => None,
    }
}

/// The description of a complaint about a regular expression, if there is one.
pub open spec fn regex_complaint_text(text: Seq<char>) -> Option<Seq<char>> {
    match regex_complaint(text) {
        Some(message) => Some(invalid_regex_text(message)),
        None => None,
    }
}

/// Whether the state `after` and the reply `reply` are what handling
/// `received` in the state `before` gives.
pub open spec fn handled(
    before: ConnectionView,
    received: Received,
    after: ConnectionView,
    reply: FromServer,
) -> bool {
    &&& after.stdin == before.stdin
    &&& after.last_seen_heartbeat == before.last_seen_heartbeat
    &&& after.continuation_frame == before.continuation_frame
    &&& match received {
        Received::Unreadable(reason) => {
            &&& after == before
            &&& reply matches FromServer::UnexpectedError(text) && text@
                == unreadable_message_text(reason@)
        },
        Received::Empty => {
            &&& after == before
            &&& reply matches FromServer::UnexpectedError(text) && text@ == empty_message_text()
        },
        Received::Message(FromClient::Initialize(initial_values)) => exists|fault: Option<Fault>|
            {
                &&& #[trigger] initialized(before, initial_values, after, fault)
                &&& replies(
                    after,
                    match fault {
                        Some(fault) => Some(fault_text(fault)),
                        None => None,
                    },
                    reply,
                )
            },
        Received::Message(FromClient::SetColumnIndexFilters(text)) => {
            &&& after.row_options == before.row_options
            &&& after.column_options == (OptionsView {
                index_filters: index_filters_read(text@).0,
                ..before.column_options
            })
            &&& replies(after, index_filters_complaint(text@), reply)
        },
        Received::Message(FromClient::SetColumnRegexFilter(text)) => {
            &&& after.row_options == before.row_options
            &&& after.column_options == (OptionsView {
                regex_filter: after.column_options.regex_filter,
                ..before.column_options
            })
            &&& regex_read(text@, after.column_options.regex_filter)
            &&& replies(after, regex_complaint_text(text@), reply)
        },
        Received::Message(FromClient::SetColumnFilterCombination(combination)) => {
            &&& after.row_options == before.row_options
            &&& after.column_options == (OptionsView {
                filters_combination: combination,
                ..before.column_options
            })
            &&& answers(after, reply)
        },
        Received::Message(FromClient::SetColumnSeparators(list)) => {
            &&& after.row_options == before.row_options
            &&& after.column_options == (OptionsView {
                separators: separators_read(list@),
                ..before.column_options
            })
            &&& answers(after, reply)
        },
        Received::Message(FromClient::SetColumnRegexSeparator(text)) => {
            &&& after.row_options == before.row_options
            &&& after.column_options == (OptionsView {
                regex_separator: after.column_options.regex_separator,
                ..before.column_options
            })
            &&& regex_read(text@, after.column_options.regex_separator)
            &&& replies(after, regex_complaint_text(text@), reply)
        },
        Received::Message(FromClient::SetRowIndexFilters(text)) => {
            &&& after.column_options == before.column_options
            &&& after.row_options == (OptionsView {
                index_filters: index_filters_read(text@).0,
                ..before.row_options
            })
            &&& replies(after, index_filters_complaint(text@), reply)
        },
        Received::Message(FromClient::SetRowRegexFilter(text)) => {
            &&& after.column_options == before.column_options
            &&& after.row_options == (OptionsView {
                regex_filter: after.row_options.regex_filter,
                ..before.row_options
            })
            &&& regex_read(text@, after.row_options.regex_filter)
            &&& replies(after, regex_complaint_text(text@), reply)
        },
        Received::Message(FromClient::SetRowFilterCombination(combination)) => {
            &&& after.column_options == before.column_options
            &&& after.row_options == (OptionsView {
                filters_combination: combination,
                ..before.row_options
            })
            &&& answers(after, reply)
        },
        Received::Message(FromClient::SetRowSeparators(list)) => {
            &&& after.column_options == before.column_options
            &&& after.row_options == (OptionsView {
                separators: separators_read(list@),
                ..before.row_options
            })
            &&& answers(after, reply)
        },
        Received::Message(FromClient::SetRowRegexSeparator(text)) => {
            &&& after.column_options == before.column_options
            &&& after.row_options == (OptionsView {
                regex_separator: after.row_options.regex_separator,
                ..before.row_options
            })
            &&& regex_read(text@, after.row_options.regex_separator)
            &&& replies(after, regex_complaint_text(text@), reply)
        },
    }
}

/// What the channel delivers.
#[derive(Debug)]
pub enum Incoming {
    /// Nothing to act on.
    Nop,
    /// The first part of a text message that comes in parts.
    FirstText(Vec<u8>),
    /// The first part of a binary message that comes in parts.
    FirstBinary(Vec<u8>),
    /// A further part.
    Continue(Vec<u8>),
    /// The last part.
    Last(Vec<u8>),
    /// A ping of the client, with its payload.
    Ping(Vec<u8>),
    /// The client's answer to a ping.
    Pong,
    /// A whole text message, as its bytes.
    Text(Vec<u8>),
    /// A whole binary message.
    Binary(Vec<u8>),
    /// The client closes the connection.
    Close,
    /// The client broke the rules of the channel.
    ProtocolError,
}

/// What the caller does after something has arrived.
#[derive(Debug, PartialEq, Eq)]
pub enum Reaction {
    /// Nothing.
    Nothing,
    /// Answer the ping with this payload.
    Pong(Vec<u8>),
    /// Decode this payload, hand it to `handle_message`, and send the reply.
    Dispatch(Vec<u8>),
    /// Answer the close, stop the session, and tell the process to exit.
    Close,
    /// Close with the code for a protocol error and stop the session.
    CloseOnProtocolError,
}

/// What the caller does at a tick of the heartbeat timer.
#[derive(Debug, Clone, Copy, PartialEq, Eq, Structural)]
pub enum Heartbeat {
    /// Send a ping.
    Ping,
    /// Stop the session and tell the process to exit.
    TimedOut,
}

/// Whether a client that was last heard at `last_seen` is overdue at `now`.
pub open spec fn timed_out(last_seen: int, now: int) -> bool {
    now - last_seen > CLIENT_TIMEOUT
}

/// The parts that are waiting once `data` has arrived as a further part.  A
/// part that follows no first part is taken for the first.
pub open spec fn with_part(waiting: Option<Seq<u8>>, data: Seq<u8>) -> Seq<u8> {
    match waiting {
        Some(parts) => parts + data,
        None => data,
    }
}

/// Whether the state `after` and the reaction `reaction` are what `incoming`,
/// arriving at time `now` in the state `before`, gives.
pub open spec fn reacted(
    before: ConnectionView,
    incoming: Incoming,
    now: u64,
    after: ConnectionView,
    reaction: Reaction,
) -> bool {
    match incoming {
        Incoming::Nop => after == before && reaction == Reaction::Nothing,
        Incoming::FirstText(data) | Incoming::FirstBinary(data) => {
            &&& after == (ConnectionView { continuation_frame: Some(data@), ..before })
            &&& reaction == Reaction::Nothing
        },
        Incoming::Continue(data) => {
            &&& after == (ConnectionView {
                continuation_frame: Some(with_part(before.continuation_frame, data@)),
                ..before
            })
            &&& reaction == Reaction::Nothing
        },
        Incoming::Last(data) => {
            &&& after == (ConnectionView { continuation_frame: None, ..before })
            &&& reaction matches Reaction::Dispatch(payload) && payload@ == with_part(
                before.continuation_frame,
                data@,
            )
        },
        Incoming::Ping(data) => {
            &&& after == (ConnectionView { last_seen_heartbeat: now, ..before })
            &&& reaction matches Reaction::Pong(payload) && payload@ == data@
        },
        Incoming::Pong => {
            &&& after == (ConnectionView { last_seen_heartbeat: now, ..before })
            &&& reaction == Reaction::Nothing
        },
        Incoming::Text(data) | Incoming::Binary(data) => {
            &&& after == before
            &&& reaction matches Reaction::Dispatch(payload) && payload@ == data@
        },
        Incoming::Close => after == before && reaction == Reaction::Close,
        Incoming::ProtocolError => after == before && reaction == Reaction::CloseOnProtocolError,
    }
}

impl WebsocketConnection {
    /// A connection that shows `stdin` and was opened at time `now`.
    pub fn new(stdin: Vec<u8>, column_options: Options, row_options: Options, now: u64) -> (connection:
        WebsocketConnection)
        ensures
            connection@ == (ConnectionView {
                stdin: stdin@,
                column_options: column_options@,
                row_options: row_options@,
                last_seen_heartbeat: now,
                continuation_frame: None,
            }),
    {
        WebsocketConnection {
            stdin,
            column_options,
            row_options,
            last_seen_heartbeat: now,
            continuation_frame: None,
        }
    }

    /// The reply that carries `description`.
    pub fn send_error(description: String) -> (reply: FromServer)
        ensures
            reply matches FromServer::UnexpectedError(text) && text@ == description@,
    {
        FromServer::UnexpectedError(description)
    }

    /// The reply for what rendering the view gave: the text, or a
    /// description of why it could not be written.
    pub fn reply_to_transform(transformed: Result<Vec<u8>, CsvAssemblyError>) -> (reply: FromServer)
        ensures
            match transformed {
                Ok(bytes) => reply matches FromServer::Output(sent) && sent@ == bytes@,
                Err(error) => reply matches FromServer::UnexpectedError(description)
                    && description@ == transform_failure_text(error.0@),
            },
    {
        match transformed {
            Ok(bytes) => FromServer::Output(bytes),
            Err(error) => FromServer::UnexpectedError(
                String::from_str("An error occurred while transforming command output:\n").concat(
                    error.0.as_str(),
                ),
            ),
        }
    }

    /// The reply that carries the current view.
    pub fn send_csvs(&self) -> (reply: FromServer)
        ensures
            answers(self@, reply),
    {
        let transformed = transform_output(&self.column_options, &self.row_options, &self.stdin);
        Self::reply_to_transform(transformed)
    }

    /// Sets the options of both dimensions, the rows first.  Stops at the
    /// first option that cannot be set.
    pub fn initialize(&mut self, initial_values: &Initialize) -> (outcome: Result<
        (),
        InitializeError,
    >)
        ensures
            final(self)@.stdin == old(self)@.stdin,
            final(self)@.last_seen_heartbeat == old(self)@.last_seen_heartbeat,
            final(self)@.continuation_frame == old(self)@.continuation_frame,
            initialized(
                old(self)@,
                *initial_values,
                final(self)@,
                match outcome {
                    Ok(()) => None,
                    Err(error) => Some(error.fault()),
                },
            ),
    {
        let ghost before = self@;
        let rows = initialize_dimension(
            &mut self.row_options,
            &initial_values.row_separators,
            initial_values.row_regex_separator.as_str(),
            initial_values.row_index_filters.as_str(),
            initial_values.row_regex_filter.as_str(),
            initial_values.row_filter_combination,
        );
        let ghost row_complaint = complaint_of(rows);
        assert(dimension_set(
            before.row_options,
            initial_values.row_values(),
            self@.row_options,
            row_complaint,
        ));
        match rows {
            Err(DimensionError::FieldSeparator(error)) => {
                return Err(InitializeError::InvalidRowFieldSeparatorError(error));
            },
            Err(DimensionError::RegexSeparator(error)) => {
                return Err(InitializeError::InvalidRowRegexSeparatorError(error));
            },
            Err(DimensionError::IndexFilters(error)) => {
                return Err(InitializeError::InvalidRowIndexFiltersError(error));
            },
            Err(DimensionError::RegexFilter(error)) => {
                return Err(InitializeError::InvalidRowRegexFilterError(error));
            },
            Ok(()) => {},
        }
        let columns = initialize_dimension(
            &mut self.column_options,
            &initial_values.column_separators,
            initial_values.column_regex_separator.as_str(),
            initial_values.column_index_filters.as_str(),
            initial_values.column_regex_filter.as_str(),
            initial_values.column_filter_combination,
        );
        let ghost column_complaint = complaint_of(columns);
        assert(dimension_set(
            before.column_options,
            initial_values.column_values(),
            self@.column_options,
            column_complaint,
        ));
        match columns {
            Err(DimensionError::FieldSeparator(error)) => Err(
                InitializeError::InvalidColumnFieldSeparatorError(error),
            ),
            Err(DimensionError::RegexSeparator(error)) => Err(
                InitializeError::InvalidColumnRegexSeparatorError(error),
            ),
            Err(DimensionError::IndexFilters(error)) => Err(
                InitializeError::InvalidColumnIndexFiltersError(error),
            ),
            Err(DimensionError::RegexFilter(error)) => Err(
                InitializeError::InvalidColumnRegexFilterError(error),
            ),
            Ok(()) => Ok(()),
        }
    }

    /// Reads the index filters of the columns; empty text clears them.
    pub fn set_column_index_filters(&mut self, filters: &str) -> (outcome: Result<
        (),
        InvalidIndexFiltersError,
    >)
        ensures
            final(self)@ == (ConnectionView {
                column_options: OptionsView {
                    index_filters: index_filters_read(filters@).0,
                    ..old(self)@.column_options
                },
                ..old(self)@
            }),
            match outcome {
                Ok(()) => index_filters_read(filters@).1 is None,
                Err(error) => index_filters_read(filters@).1 == Some(error.0@),
            },
    {
        set_index_filters(&mut self.column_options, filters)
    }

    /// Compiles the regex filter of the columns; empty text clears it.
    pub fn set_column_regex_filter(&mut self, filter: &str) -> (outcome: Result<
        (),
        InvalidRegexFilterError,
    >)
        ensures
            final(self)@ == (ConnectionView {
                column_options: OptionsView {
                    regex_filter: final(self)@.column_options.regex_filter,
                    ..old(self)@.column_options
                },
                ..old(self)@
            }),
            regex_read(filter@, final(self)@.column_options.regex_filter),
            match outcome {
                Ok(()) => regex_complaint(filter@) is None,
                Err(error) => regex_complaint(filter@) == Some(error.0@),
            },
    {
        set_regex_filter(&mut self.column_options, filter)
    }

    /// Sets how the filters of the columns combine.
    pub fn set_column_filter_combination(&mut self, combination: Option<Combination>)
        ensures
            final(self)@ == (ConnectionView {
                column_options: OptionsView {
                    filters_combination: combination,
                    ..old(self)@.column_options
                },
                ..old(self)@
            }),
    {
        self.column_options.filters_combination = combination;
    }

    /// Reads the literal separators of the columns.
    pub fn set_column_separators(&mut self, separators: &Vec<String>) -> (outcome: Result<
        (),
        InvalidFieldSeparatorError,
    >)
        ensures
            final(self)@ == (ConnectionView {
                column_options: OptionsView {
                    separators: separators_read(separators@),
                    ..old(self)@.column_options
                },
                ..old(self)@
            }),
            outcome is Ok,
    {
        set_separators(&mut self.column_options, separators)
    }

    /// Compiles the regex separator of the columns; empty text clears it.
    pub fn set_column_regex_separator(&mut self, separator: &str) -> (outcome: Result<
        (),
        InvalidRegexFilterError,
    >)
        ensures
            final(self)@ == (ConnectionView {
                column_options: OptionsView {
                    regex_separator: final(self)@.column_options.regex_separator,
                    ..old(self)@.column_options
                },
                ..old(self)@
            }),
            regex_read(separator@, final(self)@.column_options.regex_separator),
            match outcome {
                Ok(()) => regex_complaint(separator@) is None,
                Err(error) => regex_complaint(separator@) == Some(error.0@),
            },
    {
        set_regex_separator(&mut self.column_options, separator)
    }

    /// Reads the index filters of the rows; empty text clears them.
    pub fn set_row_index_filters(&mut self, filters: &str) -> (outcome: Result<
        (),
        InvalidIndexFiltersError,
    >)
        ensures
            final(self)@ == (ConnectionView {
                row_options: OptionsView {
                    index_filters: index_filters_read(filters@).0,
                    ..old(self)@.row_options
                },
                ..old(self)@
            }),
            match outcome {
                Ok(()) => index_filters_read(filters@).1 is None,
                Err(error) => index_filters_read(filters@).1 == Some(error.0@),
            },
    {
        set_index_filters(&mut self.row_options, filters)
    }

    /// Compiles the regex filter of the rows; empty text clears it.
    pub fn set_row_regex_filter(&mut self, filter: &str) -> (outcome: Result<
        (),
        InvalidRegexFilterError,
    >)
        ensures
            final(self)@ == (ConnectionView {
                row_options: OptionsView {
                    regex_filter: final(self)@.row_options.regex_filter,
                    ..old(self)@.row_options
                },
                ..old(self)@
            }),
            regex_read(filter@, final(self)@.row_options.regex_filter),
            match outcome {
                Ok(()) => regex_complaint(filter@) is None,
                Err(error) => regex_complaint(filter@) == Some(error.0@),
            },
    {
        set_regex_filter(&mut self.row_options, filter)
    }

    /// Sets how the filters of the rows combine.
    pub fn set_row_filter_combination(&mut self, combination: Option<Combination>)
        ensures
            final(self)@ == (ConnectionView {
                row_options: OptionsView {
                    filters_combination: combination,
                    ..old(self)@.row_options
                },
                ..old(self)@
            }),
    {
        self.row_options.filters_combination = combination;
    }

    /// Reads the literal separators of the rows.
    pub fn set_row_separators(&mut self, separators: &Vec<String>) -> (outcome: Result<
        (),
        InvalidFieldSeparatorError,
    >)
        ensures
            final(self)@ == (ConnectionView {
                row_options: OptionsView {
                    separators: separators_read(separators@),
                    ..old(self)@.row_options
                },
                ..old(self)@
            }),
            outcome is Ok,
    {
        set_separators(&mut self.row_options, separators)
    }

    /// Compiles the regex separator of the rows; empty text clears it.
    pub fn set_row_regex_separator(&mut self, separator: &str) -> (outcome: Result<
        (),
        InvalidRegexFilterError,
    >)
        ensures
            final(self)@ == (ConnectionView {
                row_options: OptionsView {
                    regex_separator: final(self)@.row_options.regex_separator,
                    ..old(self)@.row_options
                },
                ..old(self)@
            }),
            regex_read(separator@, final(self)@.row_options.regex_separator),
            match outcome {
                Ok(()) => regex_complaint(separator@) is None,
                Err(error) => regex_complaint(separator@) == Some(error.0@),
            },
    {
        set_regex_separator(&mut self.row_options, separator)
    }

    /// Carries out a request and gives the one reply that is owed for it:
    /// the new view where the request could be carried out, and else what
    /// went wrong.
    pub fn handle_message(&mut self, received: Received) -> (reply: FromServer)
        ensures
            handled(old(self)@, received, final(self)@, reply),
    {
        match received {
            Received::Unreadable(reason) => {
                let description = String::from_str(
                    "An error occurred while parsing a message from the client:\n",
                ).concat(reason.as_str());
                Self::send_error(description)
            },
            Received::Empty => {
                Self::send_error(String::from_str("A message was expected but was not present."))
            },
            Received::Message(FromClient::Initialize(initial_values)) => {
                match self.initialize(&initial_values) {
                    Err(error) => Self::send_error(error.describe()),
                    Ok(()) => self.send_csvs(),
                }
            },
            Received::Message(FromClient::SetColumnIndexFilters(filters)) => {
                match self.set_column_index_filters(filters.as_str()) {
                    Err(error) => Self::send_error(error.describe()),
                    Ok(()) => self.send_csvs(),
                }
            },
            Received::Message(FromClient::SetColumnRegexFilter(filter)) => {
                match self.set_column_regex_filter(filter.as_str()) {
                    Err(error) => Self::send_error(error.describe()),
                    Ok(()) => self.send_csvs(),
                }
            },
            Received::Message(FromClient::SetColumnFilterCombination(combination)) => {
                self.set_column_filter_combination(combination);
                self.send_csvs()
            },
            Received::Message(FromClient::SetColumnSeparators(separators)) => {
                match self.set_column_separators(&separators) {
                    Err(error) => Self::send_error(error.describe()),
                    Ok(()) => self.send_csvs(),
                }
            },
            Received::Message(FromClient::SetColumnRegexSeparator(separator)) => {
                match self.set_column_regex_separator(separator.as_str()) {
                    Err(error) => Self::send_error(error.describe()),
                    Ok(()) => self.send_csvs(),
                }
            },
            Received::Message(FromClient::SetRowIndexFilters(filters)) => {
                match self.set_row_index_filters(filters.as_str()) {
                    Err(error) => Self::send_error(error.describe()),
                    Ok(()) => self.send_csvs(),
                }
            },
            Received::Message(FromClient::SetRowRegexFilter(filter)) => {
                match self.set_row_regex_filter(filter.as_str()) {
                    Err(error) => Self::send_error(error.describe()),
                    Ok(()) => self.send_csvs(),
                }
            },
            Received::Message(FromClient::SetRowFilterCombination(combination)) => {
                self.set_row_filter_combination(combination);
                self.send_csvs()
            },
            Received::Message(FromClient::SetRowSeparators(separators)) => {
                match self.set_row_separators(&separators) {
                    Err(error) => Self::send_error(error.describe()),
                    Ok(()) => self.send_csvs(),
                }
            },
            Received::Message(FromClient::SetRowRegexSeparator(separator)) => {
                match self.set_row_regex_separator(separator.as_str()) {
                    Err(error) => Self::send_error(error.describe()),
                    Ok(()) => self.send_csvs(),
                }
            },
        }
    }

    /// Begins a message that comes in parts.  Parts that were waiting are dropped.
    pub fn set_first_frame_part(&mut self, data: Vec<u8>)
        ensures
            final(self)@ == (ConnectionView { continuation_frame: Some(data@), ..old(self)@ }),
    {
        let room = if data.len() <= usize::MAX / 2 {
            2 * data.len()
        } else {
            data.len()
        };
        let mut frame_data: Vec<u8> = Vec::with_capacity(room);
        let mut data = data;
        frame_data.append(&mut data);
        self.continuation_frame = Some(frame_data);
    }

    /// Adds a part to the message that is arriving.
    pub fn set_frame_part(&mut self, additional_data: Vec<u8>)
        ensures
            final(self)@ == (ConnectionView {
                continuation_frame: Some(
                    with_part(old(self)@.continuation_frame, additional_data@),
                ),
                ..old(self)@
            }),
    {
        let mut additional_data = additional_data;
        match &mut self.continuation_frame {
            None => self.set_first_frame_part(additional_data),
            Some(data) => {
                data.append(&mut additional_data);
            },
        }
    }

    /// Adds the last part to the message that is arriving.
    pub fn set_last_frame_part(&mut self, additional_data: Vec<u8>)
        ensures
            final(self)@ == (ConnectionView {
                continuation_frame: Some(
                    with_part(old(self)@.continuation_frame, additional_data@),
                ),
                ..old(self)@
            }),
    {
        self.set_frame_part(additional_data)
    }

    /// Takes the message that has arrived in parts, if there is one, and
    /// leaves no part waiting.
    pub fn send_full_continuation_frame(&mut self) -> (payload: Option<Vec<u8>>)
        ensures
            final(self)@ == (ConnectionView { continuation_frame: None, ..old(self)@ }),
            match payload {
                Some(data) => old(self)@.continuation_frame == Some(data@),
                None => old(self)@.continuation_frame is None,
            },
    {
        self.continuation_frame.take()
    }

    /// Decides at a tick of the heartbeat timer whether the client is overdue.
    pub fn heartbeat(&self, now: u64) -> (decision: Heartbeat)
        ensures
            decision == if timed_out(self@.last_seen_heartbeat as int, now as int) {
                Heartbeat::TimedOut
            } else {
                Heartbeat::Ping
            },
    {
        if now > self.last_seen_heartbeat && now - self.last_seen_heartbeat > CLIENT_TIMEOUT {
            Heartbeat::TimedOut
        } else {
            Heartbeat::Ping
        }
    }

    /// Takes in what the channel delivered at time `now` and says what to do.
    pub fn handle(&mut self, msg: Incoming, now: u64) -> (reaction: Reaction)
        ensures
            reacted(old(self)@, msg, now, final(self)@, reaction),
    {
        match msg {
            Incoming::Nop => Reaction::Nothing,
            Incoming::FirstText(data) => {
                self.set_first_frame_part(data);
                Reaction::Nothing
            },
            Incoming::FirstBinary(data) => {
                self.set_first_frame_part(data);
                Reaction::Nothing
            },
            Incoming::Continue(additional_data) => {
                self.set_frame_part(additional_data);
                Reaction::Nothing
            },
            Incoming::Last(additional_data) => {
                self.set_last_frame_part(additional_data);
                match self.send_full_continuation_frame() {
                    Some(payload) => Reaction::Dispatch(payload),
                    None => Reaction::Nothing,
                }
            },
            Incoming::Ping(data) => {
                self.last_seen_heartbeat = now;
                Reaction::Pong(data)
            },
            Incoming::Pong => {
                self.last_seen_heartbeat = now;
                Reaction::Nothing
            },
            Incoming::Text(data) => Reaction::Dispatch(data),
            Incoming::Binary(data) => Reaction::Dispatch(data),
            Incoming::Close => Reaction::Close,
            Incoming::ProtocolError => Reaction::CloseOnProtocolError,
        }
    }
}

/// A timer that started no later than the client was last heard, and that
/// ticks every `HEARTBEAT_INTERVAL`, ticks within one interval after the
/// client has been silent for `CLIENT_TIMEOUT`; at that tick, the client is
/// found overdue.
pub proof fn lemma_silence_is_noticed_within_one_interval(started: nat, last_seen: nat)
    requires
        started <= last_seen,
    ensures
        exists|ticks: nat|
            {
                let now = #[trigger] (ticks * HEARTBEAT_INTERVAL) + started;
                &&& last_seen + CLIENT_TIMEOUT < now <= last_seen + CLIENT_TIMEOUT
                    + HEARTBEAT_INTERVAL
                &&& timed_out(last_seen as int, now as int)
            },
{
    let silent = (last_seen + CLIENT_TIMEOUT - started) as nat;
    let ticks = silent / 100 + 1;
    let now = (ticks * HEARTBEAT_INTERVAL) + started;
    assert(last_seen + CLIENT_TIMEOUT < now <= last_seen + CLIENT_TIMEOUT + HEARTBEAT_INTERVAL);
}

} // verus!
