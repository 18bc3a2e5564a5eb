//! The wire format of requests and replies.
//!
//! A message is a sequence of fields.  A field is a key, a length and a
//! payload of that many bytes; key and length are base-128 numbers, low
//! digits first, and the key is eight times the field's number plus two.  A
//! payload is text in UTF-8, raw bytes or a message of its own.  Where a
//! field that holds one value occurs again, the later one counts; a field
//! that holds a list adds to it.  A field that the message does not know makes
//! the message unreadable.
//!
//! | message | field | holds |
//! |---|---|---|
//! | request | 1 | initialize |
//! | request | 2, 7 | set column, row index filters: text at 1 |
//! | request | 3, 8 | set column, row regex filter: text at 1 |
//! | request | 4, 9 | set column, row filter combination: combination at 1 |
//! | request | 5, 10 | set column, row separators: list of text at 1 |
//! | request | 6, 11 | set column, row regex separator: text at 1 |
//! | initialize | 1 to 5 | row separators (list), regex separator, index filters, regex filter, combination |
//! | initialize | 6 to 10 | the same for the columns |
//! | combination | 1, 2 | and, or: an empty message |
//! | reply | 1 | output: bytes |
//! | reply | 2 | unexpected error: text at 1 |

use crate::transformers::Combination;
use crate::websocket_connection::{
    handled, FromClient, FromServer, Initialize, Received, WebsocketConnection,
};
use vstd::prelude::*;
use vstd::slice::{slice_subrange, slice_to_vec};
use vstd::string::StringExecFns;
use vstd::utf8::{decode_utf8, encode_utf8, valid_utf8};

verus! {

/// The texts that a list of strings holds.
pub open spec fn texts(list: Seq<String>) -> Seq<Seq<char>> {
    list.map_values(|text: String| text@)
}

/// An `Initialize` request as mathematical values.
pub struct InitializeView {
    pub row_separators: Seq<Seq<char>>,
    pub row_regex_separator: Seq<char>,
    pub row_index_filters: Seq<char>,
    pub row_regex_filter: Seq<char>,
    pub row_filter_combination: Option<Combination>,
    pub column_separators: Seq<Seq<char>>,
    pub column_regex_separator: Seq<char>,
    pub column_index_filters: Seq<char>,
    pub column_regex_filter: Seq<char>,
    pub column_filter_combination: Option<Combination>,
}

/// A request as mathematical values.
pub enum FromClientView {
    Initialize(InitializeView),
    SetColumnIndexFilters(Seq<char>),
    SetColumnRegexFilter(Seq<char>),
    SetColumnFilterCombination(Option<Combination>),
    SetColumnSeparators(Seq<Seq<char>>),
    SetColumnRegexSeparator(Seq<char>),
    SetRowIndexFilters(Seq<char>),
    SetRowRegexFilter(Seq<char>),
    SetRowFilterCombination(Option<Combination>),
    SetRowSeparators(Seq<Seq<char>>),
    SetRowRegexSeparator(Seq<char>),
}

/// What decoding a payload gave, as mathematical values.
pub enum ReceivedView {
    Message(FromClientView),
    Empty,
    Unreadable,
}

impl View for Initialize {
    type V = InitializeView;

    open spec fn view(&self) -> InitializeView {
        InitializeView {
            row_separators: texts(self.row_separators@),
            row_regex_separator: self.row_regex_separator@,
            row_index_filters: self.row_index_filters@,
            row_regex_filter: self.row_regex_filter@,
            row_filter_combination: self.row_filter_combination,
            column_separators: texts(self.column_separators@),
            column_regex_separator: self.column_regex_separator@,
            column_index_filters: self.column_index_filters@,
            column_regex_filter: self.column_regex_filter@,
            column_filter_combination: self.column_filter_combination,
        }
    }
}

impl View for FromClient {
    type V = FromClientView;

    open spec fn view(&self) -> FromClientView {
        match self {
            FromClient::Initialize(values) => FromClientView::Initialize(values@),
            FromClient::SetColumnIndexFilters(text) => FromClientView::SetColumnIndexFilters(text@),
            FromClient::SetColumnRegexFilter(text) => FromClientView::SetColumnRegexFilter(text@),
            FromClient::SetColumnFilterCombination(combination) => {
                FromClientView::SetColumnFilterCombination(*combination)
            },
            FromClient::SetColumnSeparators(list) => FromClientView::SetColumnSeparators(
                texts(list@),
            ),
            FromClient::SetColumnRegexSeparator(text) => FromClientView::SetColumnRegexSeparator(
                text@,
            ),
            FromClient::SetRowIndexFilters(text) => FromClientView::SetRowIndexFilters(text@),
            FromClient::SetRowRegexFilter(text) => FromClientView::SetRowRegexFilter(text@),
            FromClient::SetRowFilterCombination(combination) => {
                FromClientView::SetRowFilterCombination(*combination)
            },
            FromClient::SetRowSeparators(list) => FromClientView::SetRowSeparators(texts(list@)),
            FromClient::SetRowRegexSeparator(text) => FromClientView::SetRowRegexSeparator(text@),
        }
    }
}

/// What a reply says of bytes that are no message.
pub open spec fn malformed_message_text() -> Seq<char> {
    "The bytes are not a message that this server knows."@
}

impl View for Received {
    type V = ReceivedView;

    open spec fn view(&self) -> ReceivedView {
        match self {
            Received::Message(request) => ReceivedView::Message(request@),
            Received::Empty => ReceivedView::Empty,
            Received::Unreadable(_) => ReceivedView::Unreadable,
        }
    }
}

// Numbers.
/// The number that starts at `i`, with the position after it, read digit by
/// digit: `value` is what the digits before `i` came to and `scale` what the
/// digit at `i` counts for.  A digit is the byte without its top bit; the top
/// bit says that another digit follows.  There is no number where the bytes
/// end early or where the number does not fit 64 bits.
pub open spec fn varint_from(bytes: Seq<u8>, i: int, scale: nat, value: nat) -> Option<(u64, int)>
    decreases bytes.len() - i,
{
    if i < 0 || i >= bytes.len() {
        None
    } else {
        let total = value + ((bytes[i] % 128) as nat) * scale;
        if total > u64::MAX {
            None
        } else if bytes[i] < 128 {
            Some((total as u64, i + 1))
        } else if scale * 128 > u64::MAX {
            None
        } else {
            varint_from(bytes, i + 1, scale * 128, total)
        }
    }
}

/// The number that starts at `i`, with the position after it.
pub open spec fn varint_at(bytes: Seq<u8>, i: int) -> Option<(u64, int)> {
    varint_from(bytes, i, 1, 0)
}

/// The digits of `n`, low digits first, each but the last with its top bit set.
pub open spec fn varint_bytes(n: nat) -> Seq<u8>
    decreases n,
{
    if n < 128 {
        seq![n as u8]
    } else {
        seq![(n % 128 + 128) as u8] + varint_bytes(n / 128)
    }
}

// Fields.
/// A field of a message.
pub struct FieldView {
    pub number: u64,
    pub payload: Seq<u8>,
}

/// The fields of the message that `bytes` holds from `i` on; nothing where
/// the bytes are no such sequence of fields.
pub open spec fn fields_from(bytes: Seq<u8>, i: int) -> Option<Seq<FieldView>>
    decreases bytes.len() - i,
{
    if i >= bytes.len() {
        Some(Seq::empty())
    } else {
        match varint_at(bytes, i) {
            None => None,
            Some((key, after_key)) => if key % 8 != 2 || key / 8 == 0 {
                None
            } else {
                match varint_at(bytes, after_key) {
                    None => None,
                    Some((length, start)) => if start + length > bytes.len() || start + length
                        <= i {
                        None
                    } else {
                        match fields_from(bytes, start + length) {
                            None => None,
                            Some(rest) => Some(
                                seq![
                                    FieldView {
                                        number: key / 8,
                                        payload: bytes.subrange(start, start + length),
                                    },
                                ] + rest,
                            ),
                        }
                    },
                }
            },
        }
    }
}

/// The fields of the message that `bytes` holds.
pub open spec fn fields_of(bytes: Seq<u8>) -> Option<Seq<FieldView>> {
    fields_from(bytes, 0)
}

/// The text that a payload holds; nothing where it is not UTF-8.
pub open spec fn text_of(payload: Seq<u8>) -> Option<Seq<char>> {
    if valid_utf8(payload) {
        Some(decode_utf8(payload))
    } else {
        None
    }
}

// Messages.
/// The combination that a combination message holds after `fields`.
pub open spec fn combination_after(fields: Seq<FieldView>) -> Option<Option<Combination>>
    decreases fields.len(),
{
    if fields.len() == 0 {
        Some(None)
    } else if combination_after(fields.drop_last()) is None {
        None
    } else if fields_of(fields.last().payload) != Some(Seq::<FieldView>::empty()) {
        None
    } else if fields.last().number == 1 {
        Some(Some(Combination::And))
    } else if fields.last().number == 2 {
        Some(Some(Combination::Or))
    } else {
        None
    }
}

/// The combination that a payload holds.
pub open spec fn combination_of(payload: Seq<u8>) -> Option<Option<Combination>> {
    match fields_of(payload) {
        Some(fields) => combination_after(fields),
        None => None,
    }
}

/// The text that a message with one text field holds after `fields`.
pub open spec fn text_message_after(fields: Seq<FieldView>) -> Option<Seq<char>>
    decreases fields.len(),
{
    if fields.len() == 0 {
        Some(Seq::empty())
    } else if text_message_after(fields.drop_last()) is None || fields.last().number != 1 {
        None
    } else {
        text_of(fields.last().payload)
    }
}

/// The text that a message with one text field holds.
pub open spec fn text_message(payload: Seq<u8>) -> Option<Seq<char>> {
    match fields_of(payload) {
        Some(fields) => text_message_after(fields),
        None => None,
    }
}

/// The list that a message with one list of texts holds after `fields`.
pub open spec fn list_message_after(fields: Seq<FieldView>) -> Option<Seq<Seq<char>>>
    decreases fields.len(),
{
    if fields.len() == 0 {
        Some(Seq::empty())
    } else {
        match (list_message_after(fields.drop_last()), text_of(fields.last().payload)) {
            (Some(list), Some(text)) if fields.last().number == 1 => Some(list.push(text)),
            _ => None,
        }
    }
}

/// The list that a message with one list of texts holds.
pub open spec fn list_message(payload: Seq<u8>) -> Option<Seq<Seq<char>>> {
    match fields_of(payload) {
        Some(fields) => list_message_after(fields),
        None => None,
    }
}

/// The combination that a message with one combination field holds after `fields`.
pub open spec fn combination_message_after(fields: Seq<FieldView>) -> Option<Option<Combination>>
    decreases fields.len(),
{
    if fields.len() == 0 {
        Some(None)
    } else if combination_message_after(fields.drop_last()) is None || fields.last().number
        != 1 {
        None
    } else {
        combination_of(fields.last().payload)
    }
}

/// The combination that a message with one combination field holds.
pub open spec fn combination_message(payload: Seq<u8>) -> Option<Option<Combination>> {
    match fields_of(payload) {
        Some(fields) => combination_message_after(fields),
        None => None,
    }
}

/// An `Initialize` message without a field.
pub open spec fn initialize_without_fields() -> InitializeView {
    InitializeView {
        row_separators: Seq::empty(),
        row_regex_separator: Seq::empty(),
        row_index_filters: Seq::empty(),
        row_regex_filter: Seq::empty(),
        row_filter_combination: None,
        column_separators: Seq::empty(),
        column_regex_separator: Seq::empty(),
        column_index_filters: Seq::empty(),
        column_regex_filter: Seq::empty(),
        column_filter_combination: None,
    }
}

/// What `field` makes of the `Initialize` message `values`.
pub open spec fn initialize_with(values: InitializeView, field: FieldView) -> Option<
    InitializeView,
> {
    if field.number == 5 || field.number == 10 {
        match combination_of(field.payload) {
            None => None,
            Some(combination) => if field.number == 5 {
                Some(InitializeView { row_filter_combination: combination, ..values })
            } else {
                Some(InitializeView { column_filter_combination: combination, ..values })
            },
        }
    } else {
        match text_of(field.payload) {
            None => None,
            Some(text) => if field.number == 1 {
                Some(InitializeView { row_separators: values.row_separators.push(text), ..values })
            } else if field.number == 2 {
                Some(InitializeView { row_regex_separator: text, ..values })
            } else if field.number == 3 {
                Some(InitializeView { row_index_filters: text, ..values })
            } else if field.number == 4 {
                Some(InitializeView { row_regex_filter: text, ..values })
            } else if field.number == 6 {
                Some(
                    InitializeView {
                        column_separators: values.column_separators.push(text),
                        ..values
                    },
                )
            } else if field.number == 7 {
                Some(InitializeView { column_regex_separator: text, ..values })
            } else if field.number == 8 {
                Some(InitializeView { column_index_filters: text, ..values })
            } else if field.number == 9 {
                Some(InitializeView { column_regex_filter: text, ..values })
            } else {
                None
            },
        }
    }
}

/// The `Initialize` message after `fields`.
pub open spec fn initialize_after(fields: Seq<FieldView>) -> Option<InitializeView>
    decreases fields.len(),
{
    if fields.len() == 0 {
        Some(initialize_without_fields())
    } else {
        match initialize_after(fields.drop_last()) {
            None => None,
            Some(values) => initialize_with(values, fields.last()),
        }
    }
}

/// The `Initialize` message that a payload holds.
pub open spec fn initialize_of(payload: Seq<u8>) -> Option<InitializeView> {
    match fields_of(payload) {
        Some(fields) => initialize_after(fields),
        None => None,
    }
}

/// The request that `field` stands for.
pub open spec fn request_in(field: FieldView) -> Option<FromClientView> {
    let payload = field.payload;
    if field.number == 1 {
        match initialize_of(payload) {
            Some(values) => Some(FromClientView::Initialize(values)),
            None => None,
        }
    } else if field.number == 2 || field.number == 3 || field.number == 6 || field.number == 7
        || field.number == 8 || field.number == 11 {
        match text_message(payload) {
            None => None,
            Some(text) => Some(
                if field.number == 2 {
                    FromClientView::SetColumnIndexFilters(text)
                } else if field.number == 3 {
                    FromClientView::SetColumnRegexFilter(text)
                } else if field.number == 6 {
                    FromClientView::SetColumnRegexSeparator(text)
                } else if field.number == 7 {
                    FromClientView::SetRowIndexFilters(text)
                } else if field.number == 8 {
                    FromClientView::SetRowRegexFilter(text)
                } else {
                    FromClientView::SetRowRegexSeparator(text)
                },
            ),
        }
    } else if field.number == 4 || field.number == 9 {
        match combination_message(payload) {
            None => None,
            Some(combination) => Some(
                if field.number == 4 {
                    FromClientView::SetColumnFilterCombination(combination)
                } else {
                    FromClientView::SetRowFilterCombination(combination)
                },
            ),
        }
    } else if field.number == 5 || field.number == 10 {
        match list_message(payload) {
            None => None,
            Some(list) => Some(
                if field.number == 5 {
                    FromClientView::SetColumnSeparators(list)
                } else {
                    FromClientView::SetRowSeparators(list)
                },
            ),
        }
    } else {
        None
    }
}

/// The request that a message holds after `fields`: the one that the last
/// field stands for, as long as every field before it stands for one too.
pub open spec fn request_after(fields: Seq<FieldView>) -> Option<Option<FromClientView>>
    decreases fields.len(),
{
    if fields.len() == 0 {
        Some(None)
    } else if request_after(fields.drop_last()) is None {
        None
    } else {
        match request_in(fields.last()) {
            Some(request) => Some(Some(request)),
            None => None,
        }
    }
}

/// What the bytes of a message from the client decode to.
pub open spec fn received_of(bytes: Seq<u8>) -> ReceivedView {
    match fields_of(bytes) {
        None => ReceivedView::Unreadable,
        Some(fields) => match request_after(fields) {
            None => ReceivedView::Unreadable,
            Some(None) => ReceivedView::Empty,
            Some(Some(request)) => ReceivedView::Message(request),
        },
    }
}

/// A field with its key and its length before it.
pub open spec fn field_bytes(number: u64, payload: Seq<u8>) -> Seq<u8> {
    varint_bytes((number * 8 + 2) as nat) + varint_bytes(payload.len()) + payload
}

/// The bytes of a reply.
pub open spec fn reply_bytes(reply: FromServer) -> Seq<u8> {
    match reply {
        FromServer::Output(bytes) => field_bytes(1, bytes@),
        FromServer::UnexpectedError(description) => field_bytes(
            2,
            field_bytes(1, encode_utf8(description@)),
        ),
    }
}

proof fn lemma_varint_reads_back_from(
    bytes: Seq<u8>,
    i: int,
    scale: nat,
    value: nat,
    m: nat,
    rest: Seq<u8>,
)
    requires
        0 <= i <= bytes.len(),
        bytes.skip(i) == varint_bytes(m) + rest,
        scale >= 1,
        value + m * scale <= u64::MAX,
    ensures
        varint_from(bytes, i, scale, value) == Some(
            ((value + m * scale) as u64, i + varint_bytes(m).len()),
        ),
    decreases m,
{
    let digits = varint_bytes(m);
    assert(digits.len() >= 1);
    assert(bytes.skip(i).len() == bytes.len() - i);
    assert(i < bytes.len());
    assert(bytes.skip(i)[0] == bytes[i]);
    assert(bytes.skip(i)[0] == digits[0]);
    if m < 128 {
        assert((bytes[i] % 128) as nat == m);
    } else {
        let total = value + (m % 128) * scale;
        assert(digits[0] == (m % 128 + 128) as u8);
        assert((bytes[i] % 128) as nat == m % 128);
        assert((m % 128) * scale + (m / 128) * (scale * 128) == m * scale) by (nonlinear_arith);
        assert(scale * 128 <= m * scale) by (nonlinear_arith)
            requires
                m >= 128,
        ;
        let later = varint_bytes(m / 128);
        assert(digits =~= seq![digits[0]] + later);
        assert(bytes.skip(i + 1) =~= bytes.skip(i).skip(1));
        assert((seq![digits[0]] + later + rest).skip(1) =~= later + rest);
        assert(bytes.skip(i + 1) =~= later + rest);
        lemma_varint_reads_back_from(bytes, i + 1, scale * 128, total, m / 128, rest);
        assert(digits.len() == 1 + later.len());
    }
}

/// A number that was written digit by digit reads back as itself, whatever
/// follows it.
pub proof fn lemma_varint_reads_back(n: u64, rest: Seq<u8>)
    ensures
        varint_at(varint_bytes(n as nat) + rest, 0) == Some(
            (n, varint_bytes(n as nat).len() as int),
        ),
{
    let bytes = varint_bytes(n as nat) + rest;
    assert(bytes.skip(0) =~= bytes);
    assert(0 + (n as nat) * 1 == n) by (nonlinear_arith);
    lemma_varint_reads_back_from(bytes, 0, 1, 0, n as nat, rest);
}

/// A field that was written with its key and its length before it reads
/// back as that one field.
pub proof fn lemma_field_reads_back(number: u64, payload: Seq<u8>)
    requires
        1 <= number,
        number * 8 + 2 <= u64::MAX,
        payload.len() <= u64::MAX,
    ensures
        fields_of(field_bytes(number, payload)) == Some(seq![FieldView { number, payload }]),
{
    let key = (number * 8 + 2) as u64;
    let length = payload.len() as u64;
    let bytes = field_bytes(number, payload);
    let after_key = varint_bytes(key as nat).len() as int;
    let start = after_key + varint_bytes(length as nat).len();
    assert(bytes =~= varint_bytes(key as nat) + (varint_bytes(length as nat) + payload));
    lemma_varint_reads_back(key, varint_bytes(length as nat) + payload);
    assert(bytes.skip(after_key) =~= varint_bytes(length as nat) + payload);
    assert(0 + (length as nat) * 1 == length) by (nonlinear_arith);
    lemma_varint_reads_back_from(bytes, after_key, 1, 0, length as nat, payload);
    assert(varint_at(bytes, 0) == Some((key, after_key)));
    assert(varint_at(bytes, after_key) == Some((length, start)));
    assert(key % 8 == 2 && key / 8 == number);
    assert(start + length == bytes.len());
    assert(bytes.subrange(start, start + length) =~= payload);
    assert(fields_from(bytes, start + length) == Some(Seq::<FieldView>::empty()));
    assert(seq![FieldView { number, payload }] + Seq::<FieldView>::empty() =~= seq![
        FieldView { number, payload },
    ]);
}

/// A field as it was read.
struct RawField {
    number: u64,
    payload: Vec<u8>,
}

impl View for RawField {
    type V = FieldView;

    closed spec fn view(&self) -> FieldView {
        FieldView { number: self.number, payload: self.payload@ }
    }
}

spec fn field_views(fields: Seq<RawField>) -> Seq<FieldView> {
    fields.map_values(|field: RawField| field@)
}

/// Calls `String::from_utf8`.  Trusted: the call succeeds on UTF-8 and on
/// nothing else, and gives the text that the bytes encode.
#[verifier::external_body]
fn text_from_utf8(bytes: Vec<u8>) -> (text: Option<String>)
    ensures
        match text {
            Some(text) => valid_utf8(bytes@) && text@ == decode_utf8(bytes@),
            None => !valid_utf8(bytes@),
        },
{
    String::from_utf8(bytes).ok()
}

fn read_varint(bytes: &[u8], start: usize) -> (found: Option<(u64, usize)>)
    requires
        start <= bytes@.len(),
    ensures
        match found {
            Some((value, end)) => varint_at(bytes@, start as int) == Some((value, end as int))
                && start < end <= bytes@.len(),
            None => varint_at(bytes@, start as int) is None,
        },
{
    let mut value: u64 = 0;
    let mut scale: u64 = 1;
    let mut i: usize = start;
    loop
        invariant
            start <= i <= bytes@.len(),
            scale >= 1,
            varint_from(bytes@, i as int, scale as nat, value as nat) == varint_at(
                bytes@,
                start as int,
            ),
        decreases bytes@.len() - i,
    {
        if i >= bytes.len() {
            return None;
        }
        let byte = bytes[i];
        let digit = (byte % 128) as u64;
        if digit > (u64::MAX - value) / scale {
            assert(value + digit * scale > u64::MAX) by (nonlinear_arith)
                requires
                    digit > (u64::MAX - value) / (scale as int),
                    scale >= 1,
                    value <= u64::MAX,
            ;
            return None;
        }
        assert(value + digit * scale <= u64::MAX) by (nonlinear_arith)
            requires
                digit <= (u64::MAX - value) / (scale as int),
                scale >= 1,
                value <= u64::MAX,
        ;
        value = value + digit * scale;
        if byte < 128 {
            return Some((value, i + 1));
        }
        if scale > u64::MAX / 128 {
            return None;
        }
        scale = scale * 128;
        i += 1;
    }
}

fn read_fields(bytes: &[u8]) -> (found: Option<Vec<RawField>>)
    ensures
        match found {
            Some(fields) => fields_of(bytes@) == Some(field_views(fields@)),
            None => fields_of(bytes@) is None,
        },
{
    let mut fields: Vec<RawField> = Vec::new();
    let mut i: usize = 0;
    assert(field_views(fields@) =~= Seq::<FieldView>::empty());
    while i < bytes.len()
        invariant
            i <= bytes@.len(),
            fields_of(bytes@) == match fields_from(bytes@, i as int) {
                Some(rest) => Some(field_views(fields@) + rest),
                None => None,
            },
        decreases bytes@.len() - i,
    {
        let ghost done = field_views(fields@);
        let (key, after_key) = match read_varint(bytes, i) {
            Some(found) => found,
            None => {
                return None;
            },
        };
        if key % 8 != 2 || key / 8 == 0 {
            return None;
        }
        let (length, start) = match read_varint(bytes, after_key) {
            Some(found) => found,
            None => {
                return None;
            },
        };
        if length > (bytes.len() - start) as u64 {
            return None;
        }
        let end = start + length as usize;
        let payload = slice_to_vec(slice_subrange(bytes, start, end));
        let field = RawField { number: key / 8, payload };
        fields.push(field);
        proof {
            assert(field_views(fields@) =~= done.push(field@));
            match fields_from(bytes@, end as int) {
                Some(rest) => {
                    assert(done + (seq![field@] + rest) =~= done.push(field@) + rest);
                },
                None => {},
            }
        }
        i = end;
    }
    proof {
        assert(field_views(fields@) + Seq::<FieldView>::empty() =~= field_views(fields@));
    }
    Some(fields)
}

proof fn lemma_combination_stays_unreadable(fields: Seq<FieldView>, k: int)
    requires
        0 <= k <= fields.len(),
        combination_after(fields.take(k)) is None,
    ensures
        combination_after(fields) is None,
    decreases fields.len() - k,
{
    if k < fields.len() {
        assert(fields.take(k + 1).drop_last() =~= fields.take(k));
        lemma_combination_stays_unreadable(fields, k + 1);
    } else {
        assert(fields.take(k) =~= fields);
    }
}

proof fn lemma_text_message_stays_unreadable(fields: Seq<FieldView>, k: int)
    requires
        0 <= k <= fields.len(),
        text_message_after(fields.take(k)) is None,
    ensures
        text_message_after(fields) is None,
    decreases fields.len() - k,
{
    if k < fields.len() {
        assert(fields.take(k + 1).drop_last() =~= fields.take(k));
        lemma_text_message_stays_unreadable(fields, k + 1);
    } else {
        assert(fields.take(k) =~= fields);
    }
}

proof fn lemma_list_message_stays_unreadable(fields: Seq<FieldView>, k: int)
    requires
        0 <= k <= fields.len(),
        list_message_after(fields.take(k)) is None,
    ensures
        list_message_after(fields) is None,
    decreases fields.len() - k,
{
    if k < fields.len() {
        assert(fields.take(k + 1).drop_last() =~= fields.take(k));
        lemma_list_message_stays_unreadable(fields, k + 1);
    } else {
        assert(fields.take(k) =~= fields);
    }
}

proof fn lemma_combination_message_stays_unreadable(fields: Seq<FieldView>, k: int)
    requires
        0 <= k <= fields.len(),
        combination_message_after(fields.take(k)) is None,
    ensures
        combination_message_after(fields) is None,
    decreases fields.len() - k,
{
    if k < fields.len() {
        assert(fields.take(k + 1).drop_last() =~= fields.take(k));
        lemma_combination_message_stays_unreadable(fields, k + 1);
    } else {
        assert(fields.take(k) =~= fields);
    }
}

proof fn lemma_initialize_stays_unreadable(fields: Seq<FieldView>, k: int)
    requires
        0 <= k <= fields.len(),
        initialize_after(fields.take(k)) is None,
    ensures
        initialize_after(fields) is None,
    decreases fields.len() - k,
{
    if k < fields.len() {
        assert(fields.take(k + 1).drop_last() =~= fields.take(k));
        lemma_initialize_stays_unreadable(fields, k + 1);
    } else {
        assert(fields.take(k) =~= fields);
    }
}

proof fn lemma_request_stays_unreadable(fields: Seq<FieldView>, k: int)
    requires
        0 <= k <= fields.len(),
        request_after(fields.take(k)) is None,
    ensures
        request_after(fields) is None,
    decreases fields.len() - k,
{
    if k < fields.len() {
        assert(fields.take(k + 1).drop_last() =~= fields.take(k));
        lemma_request_stays_unreadable(fields, k + 1);
    } else {
        assert(fields.take(k) =~= fields);
    }
}

fn read_combination(payload: &[u8]) -> (found: Option<Option<Combination>>)
    ensures
        found == combination_of(payload@),
{
    let fields = match read_fields(payload) {
        Some(fields) => fields,
        None => {
            return None;
        },
    };
    let ghost views = field_views(fields@);
    let mut combination: Option<Combination> = None;
    let mut i: usize = 0;
    assert(views.take(0) =~= Seq::<FieldView>::empty());
    while i < fields.len()
        invariant
            i <= fields.len(),
            fields_of(payload@) == Some(views),
            views == field_views(fields@),
            combination_after(views.take(i as int)) == Some(combination),
        decreases fields.len() - i,
    {
        proof {
            let read = views.take(i + 1);
            assert(read.drop_last() =~= views.take(i as int));
            assert(read.last() == fields@[i as int]@);
        }
        match read_fields(fields[i].payload.as_slice()) {
            Some(inner) => {
                if inner.len() != 0 {
                    proof {
                        lemma_combination_stays_unreadable(views, i + 1);
                    }
                    return None;
                }
                assert(field_views(inner@) =~= Seq::<FieldView>::empty());
            },
            None => {
                proof {
                    lemma_combination_stays_unreadable(views, i + 1);
                }
                return None;
            },
        }
        if fields[i].number == 1 {
            combination = Some(Combination::And);
        } else if fields[i].number == 2 {
            combination = Some(Combination::Or);
        } else {
            proof {
                lemma_combination_stays_unreadable(views, i + 1);
            }
            return None;
        }
        i += 1;
    }
    assert(views.take(i as int) =~= views);
    Some(combination)
}

fn read_text_message(payload: &[u8]) -> (found: Option<String>)
    ensures
        match found {
            Some(text) => text_message(payload@) == Some(text@),
            None => text_message(payload@) is None,
        },
{
    let fields = match read_fields(payload) {
        Some(fields) => fields,
        None => {
            return None;
        },
    };
    let ghost views = field_views(fields@);
    let mut text = String::new();
    let mut i: usize = 0;
    assert(views.take(0) =~= Seq::<FieldView>::empty());
    while i < fields.len()
        invariant
            i <= fields.len(),
            fields_of(payload@) == Some(views),
            views == field_views(fields@),
            text_message_after(views.take(i as int)) == Some(text@),
        decreases fields.len() - i,
    {
        proof {
            let read = views.take(i + 1);
            assert(read.drop_last() =~= views.take(i as int));
            assert(read.last() == fields@[i as int]@);
        }
        if fields[i].number != 1 {
            proof {
                lemma_text_message_stays_unreadable(views, i + 1);
            }
            return None;
        }
        match text_from_utf8(fields[i].payload.clone()) {
            Some(read) => {
                text = read;
            },
            None => {
                proof {
                    lemma_text_message_stays_unreadable(views, i + 1);
                }
                return None;
            },
        }
        i += 1;
    }
    assert(views.take(i as int) =~= views);
    Some(text)
}

fn read_list_message(payload: &[u8]) -> (found: Option<Vec<String>>)
    ensures
        match found {
            Some(list) => list_message(payload@) == Some(texts(list@)),
            None => list_message(payload@) is None,
        },
{
    let fields = match read_fields(payload) {
        Some(fields) => fields,
        None => {
            return None;
        },
    };
    let ghost views = field_views(fields@);
    let mut list: Vec<String> = Vec::new();
    let mut i: usize = 0;
    assert(views.take(0) =~= Seq::<FieldView>::empty());
    assert(texts(list@) =~= Seq::<Seq<char>>::empty());
    while i < fields.len()
        invariant
            i <= fields.len(),
            fields_of(payload@) == Some(views),
            views == field_views(fields@),
            list_message_after(views.take(i as int)) == Some(texts(list@)),
        decreases fields.len() - i,
    {
        proof {
            let read = views.take(i + 1);
            assert(read.drop_last() =~= views.take(i as int));
            assert(read.last() == fields@[i as int]@);
        }
        if fields[i].number != 1 {
            proof {
                lemma_list_message_stays_unreadable(views, i + 1);
            }
            return None;
        }
        let ghost before = texts(list@);
        match text_from_utf8(fields[i].payload.clone()) {
            Some(read) => {
                list.push(read);
                assert(texts(list@) =~= before.push(read@));
            },
            None => {
                proof {
                    lemma_list_message_stays_unreadable(views, i + 1);
                }
                return None;
            },
        }
        i += 1;
    }
    assert(views.take(i as int) =~= views);
    Some(list)
}

fn read_combination_message(payload: &[u8]) -> (found: Option<Option<Combination>>)
    ensures
        found == combination_message(payload@),
{
    let fields = match read_fields(payload) {
        Some(fields) => fields,
        None => {
            return None;
        },
    };
    let ghost views = field_views(fields@);
    let mut combination: Option<Combination> = None;
    let mut i: usize = 0;
    assert(views.take(0) =~= Seq::<FieldView>::empty());
    while i < fields.len()
        invariant
            i <= fields.len(),
            fields_of(payload@) == Some(views),
            views == field_views(fields@),
            combination_message_after(views.take(i as int)) == Some(combination),
        decreases fields.len() - i,
    {
        proof {
            let read = views.take(i + 1);
            assert(read.drop_last() =~= views.take(i as int));
            assert(read.last() == fields@[i as int]@);
        }
        if fields[i].number != 1 {
            proof {
                lemma_combination_message_stays_unreadable(views, i + 1);
            }
            return None;
        }
        match read_combination(fields[i].payload.as_slice()) {
            Some(read) => {
                combination = read;
            },
            None => {
                proof {
                    lemma_combination_message_stays_unreadable(views, i + 1);
                }
                return None;
            },
        }
        i += 1;
    }
    assert(views.take(i as int) =~= views);
    Some(combination)
}

fn read_initialize_field(values: &mut Initialize, field: &RawField) -> (understood: bool)
    ensures
        match initialize_with(old(values)@, field@) {
            Some(after) => understood && final(values)@ == after,
            None => !understood,
        },
{
    if field.number == 5 || field.number == 10 {
        match read_combination(field.payload.as_slice()) {
            None => false,
            Some(combination) => {
                if field.number == 5 {
                    values.row_filter_combination = combination;
                } else {
                    values.column_filter_combination = combination;
                }
                true
            },
        }
    } else {
        match text_from_utf8(field.payload.clone()) {
            None => false,
            Some(text) => {
                if field.number == 1 {
                    let ghost before = texts(values.row_separators@);
                    values.row_separators.push(text);
                    assert(texts(values.row_separators@) =~= before.push(text@));
                    true
                } else if field.number == 2 {
                    values.row_regex_separator = text;
                    true
                } else if field.number == 3 {
                    values.row_index_filters = text;
                    true
                } else if field.number == 4 {
                    values.row_regex_filter = text;
                    true
                } else if field.number == 6 {
                    let ghost before = texts(values.column_separators@);
                    values.column_separators.push(text);
                    assert(texts(values.column_separators@) =~= before.push(text@));
                    true
                } else if field.number == 7 {
                    values.column_regex_separator = text;
                    true
                } else if field.number == 8 {
                    values.column_index_filters = text;
                    true
                } else if field.number == 9 {
                    values.column_regex_filter = text;
                    true
                } else {
                    false
                }
            },
        }
    }
}

fn read_initialize(payload: &[u8]) -> (found: Option<Initialize>)
    ensures
        match found {
            Some(values) => initialize_of(payload@) == Some(values@),
            None => initialize_of(payload@) is None,
        },
{
    let fields = match read_fields(payload) {
        Some(fields) => fields,
        None => {
            return None;
        },
    };
    let ghost views = field_views(fields@);
    let mut values = Initialize {
        row_separators: Vec::new(),
        row_regex_separator: String::new(),
        row_index_filters: String::new(),
        row_regex_filter: String::new(),
        row_filter_combination: None,
        column_separators: Vec::new(),
        column_regex_separator: String::new(),
        column_index_filters: String::new(),
        column_regex_filter: String::new(),
        column_filter_combination: None,
    };
    let mut i: usize = 0;
    assert(views.take(0) =~= Seq::<FieldView>::empty());
    assert(texts(values.row_separators@) =~= Seq::<Seq<char>>::empty());
    assert(texts(values.column_separators@) =~= Seq::<Seq<char>>::empty());
    while i < fields.len()
        invariant
            i <= fields.len(),
            fields_of(payload@) == Some(views),
            views == field_views(fields@),
            initialize_after(views.take(i as int)) == Some(values@),
        decreases fields.len() - i,
    {
        proof {
            let read = views.take(i + 1);
            assert(read.drop_last() =~= views.take(i as int));
            assert(read.last() == fields@[i as int]@);
        }
        if !read_initialize_field(&mut values, &fields[i]) {
            proof {
                lemma_initialize_stays_unreadable(views, i + 1);
            }
            return None;
        }
        i += 1;
    }
    assert(views.take(i as int) =~= views);
    Some(values)
}

fn read_request(field: &RawField) -> (found: Option<FromClient>)
    ensures
        match found {
            Some(request) => request_in(field@) == Some(request@),
            None => request_in(field@) is None,
        },
{
    let payload = field.payload.as_slice();
    let number = field.number;
    if number == 1 {
        match read_initialize(payload) {
            Some(values) => Some(FromClient::Initialize(values)),
            None => None,
        }
    } else if number == 2 || number == 3 || number == 6 || number == 7 || number == 8 || number
        == 11 {
        match read_text_message(payload) {
            None => None,
            Some(text) => Some(
                if number == 2 {
                    FromClient::SetColumnIndexFilters(text)
                } else if number == 3 {
                    FromClient::SetColumnRegexFilter(text)
                } else if number == 6 {
                    FromClient::SetColumnRegexSeparator(text)
                } else if number == 7 {
                    FromClient::SetRowIndexFilters(text)
                } else if number == 8 {
                    FromClient::SetRowRegexFilter(text)
                } else {
                    FromClient::SetRowRegexSeparator(text)
                },
            ),
        }
    } else if number == 4 || number == 9 {
        match read_combination_message(payload) {
            None => None,
            Some(combination) => Some(
                if number == 4 {
                    FromClient::SetColumnFilterCombination(combination)
                } else {
                    FromClient::SetRowFilterCombination(combination)
                },
            ),
        }
    } else if number == 5 || number == 10 {
        match read_list_message(payload) {
            None => None,
            Some(list) => Some(
                if number == 5 {
                    FromClient::SetColumnSeparators(list)
                } else {
                    FromClient::SetRowSeparators(list)
                },
            ),
        }
    } else {
        None
    }
}

/// Decodes a message from the client.  Bytes that are no message that this
/// server knows give `Unreadable`; a message without a request gives `Empty`.
pub fn decode_from_client(bytes: &[u8]) -> (received: Received)
    ensures
        received@ == received_of(bytes@),
        received matches Received::Unreadable(reason) ==> reason@ == malformed_message_text(),
{
    let fields = match read_fields(bytes) {
        Some(fields) => fields,
        None => {
            return Received::Unreadable(
                String::from_str("The bytes are not a message that this server knows."),
            );
        },
    };
    let ghost views = field_views(fields@);
    let mut request: Option<FromClient> = None;
    let mut i: usize = 0;
    assert(views.take(0) =~= Seq::<FieldView>::empty());
    while i < fields.len()
        invariant
            i <= fields.len(),
            fields_of(bytes@) == Some(views),
            views == field_views(fields@),
            request_after(views.take(i as int)) == Some(
                match request {
                    Some(request) => Some(request@),
                    None => None,
                },
            ),
        decreases fields.len() - i,
    {
        proof {
            let read = views.take(i + 1);
            assert(read.drop_last() =~= views.take(i as int));
            assert(read.last() == fields@[i as int]@);
        }
        match read_request(&fields[i]) {
            Some(read) => {
                request = Some(read);
            },
            None => {
                proof {
                    lemma_request_stays_unreadable(views, i + 1);
                }
                return Received::Unreadable(
                    String::from_str("The bytes are not a message that this server knows."),
                );
            },
        }
        i += 1;
    }
    assert(views.take(i as int) =~= views);
    match request {
        Some(request) => Received::Message(request),
        None => Received::Empty,
    }
}

fn write_varint(out: &mut Vec<u8>, n: u64)
    ensures
        final(out)@ == old(out)@ + varint_bytes(n as nat),
{
    let mut rest = n;
    while rest >= 128
        invariant
            out@ + varint_bytes(rest as nat) == old(out)@ + varint_bytes(n as nat),
        decreases rest,
    {
        let ghost before = out@;
        let digit = (rest % 128 + 128) as u8;
        out.push(digit);
        assert(before.push(digit) + varint_bytes((rest / 128) as nat) =~= before + varint_bytes(
            rest as nat,
        ));
        rest = rest / 128;
    }
    let ghost before = out@;
    out.push(rest as u8);
    assert(before.push(rest as u8) =~= before + varint_bytes(rest as nat));
}

fn write_field(out: &mut Vec<u8>, number: u64, payload: &[u8])
    requires
        number <= 1000,
    ensures
        final(out)@ == old(out)@ + field_bytes(number, payload@),
{
    let ghost before = out@;
    write_varint(out, number * 8 + 2);
    write_varint(out, payload.len() as u64);
    let ghost headed = out@;
    let mut i: usize = 0;
    while i < payload.len()
        invariant
            i <= payload@.len(),
            out@ == headed + payload@.take(i as int),
        decreases payload@.len() - i,
    {
        out.push(payload[i]);
        assert(payload@.take(i + 1) =~= payload@.take(i as int).push(payload@[i as int]));
        i += 1;
    }
    assert(payload@.take(i as int) =~= payload@);
    assert(out@ =~= before + field_bytes(number, payload@));
}

/// Encodes a reply to the client.
pub fn encode_from_server(reply: &FromServer) -> (bytes: Vec<u8>)
    ensures
        bytes@ == reply_bytes(*reply),
{
    let mut out: Vec<u8> = Vec::new();
    match reply {
        FromServer::Output(bytes) => {
            write_field(&mut out, 1, bytes.as_slice());
        },
        FromServer::UnexpectedError(description) => {
            let mut inner: Vec<u8> = Vec::new();
            write_field(&mut inner, 1, description.as_str().as_bytes());
            write_field(&mut out, 2, inner.as_slice());
        },
    }
    out
}

/// Whether the state `after` and the bytes `sent` are what answering the
/// payload `payload` in the state `before` gives: the payload is decoded, the
/// request in it is handled, and the reply is encoded.
pub open spec fn answered(
    before: crate::websocket_connection::ConnectionView,
    payload: Seq<u8>,
    after: crate::websocket_connection::ConnectionView,
    sent: Seq<u8>,
) -> bool {
    exists|received: Received, reply: FromServer|
        {
            &&& #[trigger] handled(before, received, after, reply)
            &&& received@ == received_of(payload)
            &&& received matches Received::Unreadable(reason) ==> reason@
                == malformed_message_text()
            &&& sent == reply_bytes(reply)
        }
}

/// Answers one payload of the client: decodes it, carries out the request
/// in it, and encodes the one reply that is owed.
pub fn answer(connection: &mut WebsocketConnection, payload: &[u8]) -> (sent: Vec<u8>)
    ensures
        answered(old(connection)@, payload@, final(connection)@, sent@),
{
    let received = decode_from_client(payload);
    let ghost seen = received;
    let reply = connection.handle_message(received);
    let sent = encode_from_server(&reply);
    assert(handled(old(connection)@, seen, connection@, reply));
    sent
}

} // verus!
