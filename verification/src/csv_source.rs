use vstd::prelude::*;

use csv::{Reader, ReaderBuilder, StringRecord, Trim};

verus! {

#[verifier::external_type_specification]
#[verifier::external_body]
#[verifier::reject_recursive_types(R)]
pub struct ExCsvReader<R>(Reader<R>);

#[verifier::external_type_specification]
#[verifier::external_body]
pub struct ExCsvRecord(StringRecord);

#[verifier::external_type_specification]
#[verifier::external_body]
pub struct ExCsvError(csv::Error);

/// The fields that a CSV record holds, in order.
pub uninterp spec fn csv_record_fields(record: StringRecord) -> Seq<Seq<char>>;

/// One outcome of reading a record: its fields and the line on which it
/// starts, or a failure with the line that the error reports, if any.
pub type CsvRow = Result<(Seq<Seq<char>>, u64), Option<u64>>;

/// What reading `data` record by record gives, from the first record up to
/// the end of the input, with no header line, fields kept as they are and
/// records of any length: the outcome of each call of
/// `csv::Reader::read_record` before the first one that finds the end.
pub uninterp spec fn csv_rows(data: Seq<u8>) -> Seq<CsvRow>;

/// What a reader still has to give: the outcomes of its next calls of
/// `csv::Reader::read_record`, up to the end of its input.
pub uninterp spec fn csv_reader_rest(reader: Reader<&[u8]>) -> Seq<CsvRow>;

/// The line on which a record starts, as its position tells
/// (`csv::StringRecord::position`, `csv::Position::line`); `None` for a
/// record with no position.
pub uninterp spec fn csv_record_start(record: StringRecord) -> Option<u64>;

/// The line that a CSV error reports (`csv::Error::position`,
/// `csv::Position::line`); `None` for an error with no position.
pub uninterp spec fn csv_error_start(err: csv::Error) -> Option<u64>;

/// Opens a CSV reader over `data` that takes every line as a record (no
/// header line), keeps fields as they are (no trimming) and accepts records
/// of any length (`csv::ReaderBuilder::from_reader`). What it will give is
/// what reading `data` gives.
#[verifier::external_body]
pub fn csv_reader_for(data: &[u8]) -> (reader: Reader<&[u8]>)
    ensures
        csv_reader_rest(reader) == csv_rows(data@),
{
    ReaderBuilder::new().has_headers(false).trim(Trim::None).flexible(true).from_reader(data)
}

/// An empty record (`csv::StringRecord::new`): it holds no field and has
/// no position.
#[verifier::external_body]
pub fn csv_record_new() -> (record: StringRecord)
    ensures
        csv_record_fields(record) == Seq::<Seq<char>>::empty(),
        csv_record_start(record) == None::<u64>,
{
    StringRecord::new()
}

/// Field `i` of a record (`csv::StringRecord::get`): present exactly when
/// `i` is below the number of fields, and then it is that field.
#[verifier::external_body]
pub fn csv_record_get(record: &StringRecord, i: usize) -> (field: Option<&str>)
    ensures
        field is Some <==> i < csv_record_fields(*record).len(),
        field matches Some(f) ==> f@ == csv_record_fields(*record)[i as int],
{
    record.get(i)
}

/// Line on which a record started (`csv::StringRecord::position` and
/// `csv::Position::line`), `None` when the record carries no position.
#[verifier::external_body]
pub fn csv_record_line(record: &StringRecord) -> (line: Option<u64>)
    ensures
        line == csv_record_start(*record),
{
    record.position().map(csv::Position::line)
}

/// Reads the next record into `record` (`csv::Reader::read_record`): at
/// the end of the input `Ok(false)`; else the next outcome of the reader,
/// which it then has behind it. A record read holds its fields and the
/// position at which it starts; a failure is the error, with its line.
/// What the reader holds after a failure, or after the end, is not stated.
#[verifier::external_body]
pub fn csv_read_record(reader: &mut Reader<&[u8]>, record: &mut StringRecord) -> (res: Result<bool, csv::Error>)
    ensures
        csv_reader_rest(*old(reader)).len() == 0 ==> res matches Ok(false),
        csv_reader_rest(*old(reader)).len() > 0 ==> match csv_reader_rest(*old(reader))[0] {
            Ok((f, l)) => {
                &&& res matches Ok(true)
                &&& csv_record_fields(*final(record)) == f
                &&& csv_record_start(*final(record)) == Some(l)
                &&& csv_reader_rest(*final(reader)) == csv_reader_rest(*old(reader)).drop_first()
            },
            Err(l) => res matches Err(e) && csv_error_start(e) == l,
        },
{
    reader.read_record(record)
}

/// Line at which a CSV error arose (`csv::Error::position` and
/// `csv::Position::line`), `None` when the error carries no position.
#[verifier::external_body]
pub fn csv_error_line(err: &csv::Error) -> (line: Option<u64>)
    ensures
        line == csv_error_start(*err),
{
    err.position().map(csv::Position::line)
}

} // verus!
