//! The table as CSV text: comma-delimited cells, records ended by CR LF,
//! quotes where a cell needs them.  The `csv` crate does the writing.

use crate::views::{byte_strings, byte_tables};
use vstd::prelude::*;

verus! {

/// The table could not be written as CSV; the field holds the writer's message.
#[derive(Debug)]
pub struct CsvAssemblyError(pub String);

/// A byte that cannot stand in a cell without quotes: the comma, the quote,
/// the carriage return and the line feed.
pub open spec fn is_special(byte: u8) -> bool {
    byte == 0x2c || byte == 0x22 || byte == 0x0d || byte == 0x0a
}

/// Whether `cell` holds a byte that calls for quotes.
pub open spec fn needs_quotes(cell: Seq<u8>) -> bool {
    exists|i: int| 0 <= i < cell.len() && is_special(#[trigger] cell[i])
}

/// `cell` with each quote written twice.
pub open spec fn doubled(cell: Seq<u8>) -> Seq<u8>
    decreases cell.len(),
{
    if cell.len() == 0 {
        Seq::empty()
    } else if cell.last() == 0x22 {
        doubled(cell.drop_last()) + seq![0x22u8, 0x22u8]
    } else {
        doubled(cell.drop_last()).push(cell.last())
    }
}

/// A cell as it stands in a record: as it is, or in quotes where it needs them.
pub open spec fn csv_field(cell: Seq<u8>) -> Seq<u8> {
    if needs_quotes(cell) {
        seq![0x22u8] + doubled(cell) + seq![0x22u8]
    } else {
        cell
    }
}

/// The cells of `row` as fields with a comma between each two.
pub open spec fn csv_fields(row: Seq<Seq<u8>>) -> Seq<u8>
    decreases row.len(),
{
    if row.len() == 0 {
        Seq::empty()
    } else if row.len() == 1 {
        csv_field(row[0])
    } else {
        csv_fields(row.drop_last()) + seq![0x2cu8] + csv_field(row.last())
    }
}

/// A row as a record.  A record whose fields come to no bytes at all, which
/// is one of no cells or of a single empty cell, is written as a pair of
/// quotes, so that no record is an empty line.
pub open spec fn csv_record(row: Seq<Seq<u8>>) -> Seq<u8> {
    let fields = csv_fields(row);
    (if fields.len() == 0 {
        seq![0x22u8, 0x22u8]
    } else {
        fields
    }) + seq![0x0du8, 0x0au8]
}

/// A table as CSV text: its rows as records, one after the other.
pub open spec fn csv_text(table: Seq<Seq<Seq<u8>>>) -> Seq<u8>
    decreases table.len(),
{
    if table.len() == 0 {
        Seq::empty()
    } else {
        csv_text(table.drop_last()) + csv_record(table.last())
    }
}

// Reading the text back.
//
// A field is either in quotes, and then ends at the first quote that is not
// doubled, or it is bare and ends before the next comma, quote, carriage
// return or line feed.  A record is fields with commas between them, ended
// by CR LF.
/// The bare field at the start of `text`, and what follows it.
pub open spec fn bare_field(text: Seq<u8>) -> (Seq<u8>, Seq<u8>)
    decreases text.len(),
{
    if text.len() == 0 || is_special(text[0]) {
        (Seq::empty(), text)
    } else {
        let (cell, rest) = bare_field(text.skip(1));
        (seq![text[0]] + cell, rest)
    }
}

/// The cell of the quoted field whose opening quote stood before `text`,
/// and what follows its closing quote; nothing where no quote closes it.
pub open spec fn quoted_field(text: Seq<u8>) -> Option<(Seq<u8>, Seq<u8>)>
    decreases text.len(),
{
    if text.len() == 0 {
        None
    } else if text[0] != 0x22 {
        match quoted_field(text.skip(1)) {
            Some((cell, rest)) => Some((seq![text[0]] + cell, rest)),
            None => None,
        }
    } else if text.len() >= 2 && text[1] == 0x22 {
        match quoted_field(text.skip(2)) {
            Some((cell, rest)) => Some((seq![0x22u8] + cell, rest)),
            None => None,
        }
    } else {
        Some((Seq::empty(), text.skip(1)))
    }
}

/// The cell of the field at the start of `text`, and what follows the field.
pub open spec fn field_at_start(text: Seq<u8>) -> Option<(Seq<u8>, Seq<u8>)> {
    if text.len() > 0 && text[0] == 0x22 {
        quoted_field(text.skip(1))
    } else {
        Some(bare_field(text))
    }
}

/// The cells of the record at the start of `text`, and what follows the record.
pub open spec fn record_at_start(text: Seq<u8>) -> Option<(Seq<Seq<u8>>, Seq<u8>)>
    decreases text.len(),
{
    match field_at_start(text) {
        None => None,
        Some((cell, rest)) => if rest.len() >= 1 && rest[0] == 0x2c && rest.len()
            <= text.len() {
            match record_at_start(rest.skip(1)) {
                Some((cells, after)) => Some((seq![cell] + cells, after)),
                None => None,
            }
        } else if rest.len() >= 2 && rest[0] == 0x0d && rest[1] == 0x0a {
            Some((seq![cell], rest.skip(2)))
        } else {
            None
        },
    }
}

/// The table that CSV text holds; nothing where the text is not well formed.
pub open spec fn parsed_csv(text: Seq<u8>) -> Option<Seq<Seq<Seq<u8>>>>
    decreases text.len(),
{
    if text.len() == 0 {
        Some(Seq::empty())
    } else {
        match record_at_start(text) {
            Some((row, rest)) if rest.len() < text.len() => match parsed_csv(rest) {
                Some(rows) => Some(seq![row] + rows),
                None => None,
            },
            _ => None,
        }
    }
}

proof fn lemma_doubled_from_front(cell: Seq<u8>)
    requires
        cell.len() > 0,
    ensures
        doubled(cell) == (if cell[0] == 0x22 {
            seq![0x22u8, 0x22u8]
        } else {
            seq![cell[0]]
        }) + doubled(cell.skip(1)),
    decreases cell.len(),
{
    let head = if cell[0] == 0x22 {
        seq![0x22u8, 0x22u8]
    } else {
        seq![cell[0]]
    };
    if cell.len() == 1 {
        assert(cell.drop_last() =~= Seq::<u8>::empty());
        assert(cell.skip(1) =~= Seq::<u8>::empty());
        assert(doubled(cell) =~= head + doubled(cell.skip(1)));
    } else {
        let shorter = cell.drop_last();
        lemma_doubled_from_front(shorter);
        assert(shorter.skip(1) =~= cell.skip(1).drop_last());
        assert(cell.skip(1).last() == cell.last());
        assert(shorter[0] == cell[0]);
        assert(doubled(cell) =~= head + doubled(cell.skip(1)));
    }
}

proof fn lemma_fields_from_front(row: Seq<Seq<u8>>)
    requires
        row.len() > 1,
    ensures
        csv_fields(row) == csv_field(row[0]) + seq![0x2cu8] + csv_fields(row.skip(1)),
    decreases row.len(),
{
    let rest = row.skip(1);
    if row.len() == 2 {
        assert(row.drop_last() =~= seq![row[0]]);
        assert(rest =~= seq![row[1]]);
        assert(csv_fields(row.drop_last()) == csv_field(row[0]));
        assert(csv_fields(rest) == csv_field(row[1]));
    } else {
        let shorter = row.drop_last();
        lemma_fields_from_front(shorter);
        assert(shorter.skip(1) =~= rest.drop_last());
        assert(rest.last() == row.last());
        assert(shorter[0] == row[0]);
        assert(csv_fields(row) =~= csv_field(row[0]) + seq![0x2cu8] + csv_fields(rest));
    }
}

proof fn lemma_text_from_front(table: Seq<Seq<Seq<u8>>>)
    requires
        table.len() > 0,
    ensures
        csv_text(table) == csv_record(table[0]) + csv_text(table.skip(1)),
    decreases table.len(),
{
    let rest = table.skip(1);
    if table.len() == 1 {
        assert(table.drop_last() =~= Seq::<Seq<Seq<u8>>>::empty());
        assert(rest =~= Seq::<Seq<Seq<u8>>>::empty());
        assert(csv_text(table) =~= csv_record(table[0]) + csv_text(rest));
    } else {
        let shorter = table.drop_last();
        lemma_text_from_front(shorter);
        assert(shorter.skip(1) =~= rest.drop_last());
        assert(rest.last() == table.last());
        assert(shorter[0] == table[0]);
        assert(csv_text(table) =~= csv_record(table[0]) + csv_text(rest));
    }
}

proof fn lemma_bare_field_read_back(cell: Seq<u8>, rest: Seq<u8>)
    requires
        !needs_quotes(cell),
        rest.len() == 0 || is_special(rest[0]),
    ensures
        bare_field(cell + rest) == (cell, rest),
    decreases cell.len(),
{
    let text = cell + rest;
    if cell.len() == 0 {
        assert(text =~= rest);
    } else {
        assert(!is_special(cell[0]));
        let shorter = cell.skip(1);
        assert forall|i: int| 0 <= i < shorter.len() implies !is_special(
            #[trigger] shorter[i],
        ) by {
            assert(shorter[i] == cell[i + 1]);
        }
        lemma_bare_field_read_back(shorter, rest);
        assert(text.skip(1) =~= shorter + rest);
        assert(seq![text[0]] + shorter =~= cell);
    }
}

proof fn lemma_quoted_field_read_back(cell: Seq<u8>, rest: Seq<u8>)
    requires
        rest.len() == 0 || rest[0] != 0x22,
    ensures
        quoted_field(doubled(cell) + seq![0x22u8] + rest) == Some((cell, rest)),
    decreases cell.len(),
{
    let text = doubled(cell) + seq![0x22u8] + rest;
    if cell.len() == 0 {
        assert(text =~= seq![0x22u8] + rest);
        assert(text.skip(1) =~= rest);
    } else {
        let shorter = cell.skip(1);
        lemma_doubled_from_front(cell);
        lemma_quoted_field_read_back(shorter, rest);
        let after = doubled(shorter) + seq![0x22u8] + rest;
        if cell[0] == 0x22 {
            assert(text =~= seq![0x22u8, 0x22u8] + after);
            assert(text.skip(2) =~= after);
            assert(seq![0x22u8] + shorter =~= cell);
        } else {
            assert(text =~= seq![cell[0]] + after);
            assert(text.skip(1) =~= after);
            assert(seq![text[0]] + shorter =~= cell);
        }
    }
}

proof fn lemma_field_read_back(cell: Seq<u8>, rest: Seq<u8>)
    requires
        rest.len() == 0 || rest[0] == 0x2c || rest[0] == 0x0d,
    ensures
        field_at_start(csv_field(cell) + rest) == Some((cell, rest)),
{
    let text = csv_field(cell) + rest;
    if needs_quotes(cell) {
        lemma_quoted_field_read_back(cell, rest);
        assert(text.skip(1) =~= doubled(cell) + seq![0x22u8] + rest);
    } else {
        lemma_bare_field_read_back(cell, rest);
        if cell.len() > 0 {
            assert(!is_special(cell[0]));
        }
    }
}

proof fn lemma_fields_read_back(row: Seq<Seq<u8>>, rest: Seq<u8>)
    requires
        row.len() > 0,
    ensures
        record_at_start(csv_fields(row) + seq![0x0du8, 0x0au8] + rest) == Some((row, rest)),
    decreases row.len(),
{
    let end = seq![0x0du8, 0x0au8] + rest;
    let text = csv_fields(row) + seq![0x0du8, 0x0au8] + rest;
    if row.len() == 1 {
        lemma_field_read_back(row[0], end);
        assert(text =~= csv_field(row[0]) + end);
        assert(end.skip(2) =~= rest);
        assert(seq![row[0]] =~= row);
    } else {
        let later = row.skip(1);
        lemma_fields_from_front(row);
        let follows = seq![0x2cu8] + csv_fields(later) + end;
        lemma_field_read_back(row[0], follows);
        assert(text =~= csv_field(row[0]) + follows);
        lemma_fields_read_back(later, rest);
        assert(follows.skip(1) =~= csv_fields(later) + seq![0x0du8, 0x0au8] + rest);
        assert(seq![row[0]] + later =~= row);
    }
}

proof fn lemma_record_read_back(row: Seq<Seq<u8>>, rest: Seq<u8>)
    requires
        row.len() > 0,
    ensures
        record_at_start(csv_record(row) + rest) == Some((row, rest)),
{
    if csv_fields(row).len() == 0 {
        if row.len() > 1 {
            lemma_fields_from_front(row);
        }
        assert(row[0] =~= Seq::<u8>::empty());
        assert(row =~= seq![Seq::<u8>::empty()]);
        let text = csv_record(row) + rest;
        let end = seq![0x0du8, 0x0au8] + rest;
        assert(text =~= seq![0x22u8, 0x22u8] + end);
        assert(text.skip(1) =~= seq![0x22u8] + end);
        assert(text.skip(1).skip(1) =~= end);
        assert(end.skip(2) =~= rest);
    } else {
        lemma_fields_read_back(row, rest);
    }
}

/// Reading back the text of a table gives the table, as long as every row
/// has at least one cell.  (A row of no cells is written like a row of one
/// empty cell, and so reads back as that.)
pub proof fn lemma_csv_reads_back(table: Seq<Seq<Seq<u8>>>)
    requires
        forall|i: int| 0 <= i < table.len() ==> (#[trigger] table[i]).len() > 0,
    ensures
        parsed_csv(csv_text(table)) == Some(table),
    decreases table.len(),
{
    if table.len() == 0 {
        assert(table =~= Seq::<Seq<Seq<u8>>>::empty());
    } else {
        let later = table.skip(1);
        lemma_text_from_front(table);
        lemma_record_read_back(table[0], csv_text(later));
        assert forall|i: int| 0 <= i < later.len() implies (#[trigger] later[i]).len() > 0 by {
            assert(later[i] == table[i + 1]);
        }
        lemma_csv_reads_back(later);
        assert(seq![table[0]] + later =~= table);
    }
}

/// A writer of the `csv` crate that collects its output in memory.  The
/// verifier does not look inside: it cannot take the bound on the sink that
/// the crate's writer type carries.
#[verifier::external_body]
pub struct CsvWriter {
    inner: csv::Writer<Vec<u8>>,
}

/// Why the `csv` crate could not write.
#[verifier::external_type_specification]
#[verifier::external_body]
pub struct ExCsvError(csv::Error);

/// The bytes that have been written through `writer` so far.
pub uninterp spec fn csv_written(writer: CsvWriter) -> Seq<u8>;

/// The number of fields of the first record that was written through
/// `writer`, if one was written.  The writer holds every later record to it.
pub uninterp spec fn csv_width(writer: CsvWriter) -> Option<nat>;

/// The number of fields that were written through `writer` for a record
/// that has not been ended.  It is more than none only after the writer has
/// refused a record: the fields of that record stay counted.
pub uninterp spec fn csv_pending(writer: CsvWriter) -> nat;

/// Whether every row of `table` has as many cells as the first.
pub open spec fn evenly_wide(table: Seq<Seq<Seq<u8>>>) -> bool {
    forall|i: int| 0 <= i < table.len() ==> (#[trigger] table[i]).len() == table[0].len()
}

/// Builds a writer with `csv::WriterBuilder`: no header row, records ended
/// by CR LF, everything else as the crate sets it by default.  Trusted: nothing
/// has been written through a new writer, it holds records to no width yet,
/// and no record is unfinished.
#[verifier::external_body]
fn start_writing() -> (writer: CsvWriter)
    ensures
        csv_written(writer) == Seq::<u8>::empty(),
        csv_width(writer) is None,
        csv_pending(writer) == 0,
{
    let mut builder = csv::WriterBuilder::new();
    builder.has_headers(false).terminator(csv::Terminator::CRLF);
    CsvWriter { inner: builder.from_writer(Vec::new()) }
}

/// Calls `csv::Writer::write_record` on a writer that has no unfinished
/// record.  Trusted: the call succeeds if and only if the record has as many
/// fields as the first one written, or is the first.  The writer is built
/// without `flexible`, so it refuses a record of another width; its only
/// other failure is one of the sink, and the sink is a `Vec<u8>`, to which a
/// write appends.  Where the call succeeds, the record has been added to
/// what was written: the fields with commas between them, a field in quotes,
/// its own quotes doubled, where it holds a comma, a quote, a carriage return
/// or a line feed, a pair of quotes where that comes to nothing, and CR LF
/// at the end; and no record is left unfinished.
#[verifier::external_body]
fn write_record(writer: &mut CsvWriter, row: &Vec<Vec<u8>>) -> (outcome: Result<(), csv::Error>)
    requires
        csv_pending(*old(writer)) == 0,
    ensures
        outcome is Ok <==> csv_width(*old(writer)) is None || csv_width(*old(writer)) == Some(
            row@.len(),
        ),
        outcome is Ok ==> csv_written(*final(writer)) == csv_written(*old(writer)) + csv_record(
            byte_strings(row@),
        ),
        outcome is Ok ==> csv_width(*final(writer)) == Some(row@.len()),
        outcome is Ok ==> csv_pending(*final(writer)) == 0,
{
    writer.inner.write_record(row)
}

/// Calls `csv::Writer::into_inner`, which flushes into the sink.  Trusted:
/// the call succeeds, since it can fail only where the sink does and the
/// sink is a `Vec<u8>`, and it hands out what was written.
#[verifier::external_body]
fn finish_writing(writer: CsvWriter) -> (outcome: Result<Vec<u8>, csv::Error>)
    ensures
        outcome is Ok,
        outcome matches Ok(bytes) ==> bytes@ == csv_written(writer),
{
    writer.inner.into_inner().map_err(|error| csv::Error::from(error.into_error()))
}

/// Calls `to_string` on a `csv::Error`.
#[verifier::external_body]
fn describe(error: &csv::Error) -> (text: String) {
    error.to_string()
}

/// Writes `table` as CSV text.
///
/// A table whose rows are all as wide as the first is written, and the
/// result is its text.  Any other table is refused: the writer takes no
/// record that has another number of fields than the first.
pub fn write_table(table: &Vec<Vec<Vec<u8>>>) -> (output: Result<Vec<u8>, CsvAssemblyError>)
    ensures
        match output {
            Ok(bytes) => evenly_wide(byte_tables(table@)) && bytes@ == csv_text(
                byte_tables(table@),
            ),
            Err(_) => !evenly_wide(byte_tables(table@)),
        },
{
    let mut writer = start_writing();
    let ghost rows = byte_tables(table@);
    let mut i: usize = 0;
    assert(rows.take(0) =~= Seq::<Seq<Seq<u8>>>::empty());
    while i < table.len()
        invariant
            i <= table.len(),
            rows == byte_tables(table@),
            csv_written(writer) == csv_text(rows.take(i as int)),
            csv_pending(writer) == 0,
            i == 0 ==> csv_width(writer) is None,
            i > 0 ==> csv_width(writer) == Some(rows[0].len()),
            forall|k: int| 0 <= k < i ==> (#[trigger] rows[k]).len() == rows[0].len(),
        decreases table.len() - i,
    {
        proof {
            let longer = rows.take(i + 1);
            assert(longer.drop_last() =~= rows.take(i as int));
            assert(longer.last() == byte_strings(table@[i as int]@));
            assert(rows[i as int].len() == table@[i as int]@.len());
        }
        match write_record(&mut writer, &table[i]) {
            Ok(()) => {},
            Err(error) => {
                assert(rows[i as int].len() != rows[0].len());
                return Err(CsvAssemblyError(describe(&error)));
            },
        }
        i += 1;
    }
    assert(rows.take(i as int) =~= rows);
    match finish_writing(writer) {
        Ok(bytes) => Ok(bytes),
        Err(error) => Err(CsvAssemblyError(describe(&error))),
    }
}

} // verus!
