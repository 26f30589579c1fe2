use vstd::prelude::*;

verus! {

#[verifier::external_type_specification]
#[verifier::external_body]
pub struct ExCsvError(csv::Error);

#[verifier::external_type_specification]
#[verifier::external_body]
pub struct ExIoError(std::io::Error);

/// The bytes that `csv` writes for one record with these fields, separated by
/// `delimiter` and followed by the record terminator.
pub uninterp spec fn csv_record(fields: Seq<Seq<char>>, delimiter: u8) -> Seq<u8>;

/// The text of each field of a record.
pub open spec fn fields_view(fields: Seq<String>) -> Seq<Seq<char>> {
    fields.map_values(|f: String| f@)
}

/// Relies on csv's `WriterBuilder::delimiter`, `Writer::write_record` and
/// `Writer::into_inner`, on a fresh writer over a `Vec<u8>`: what it hands back
/// is the encoding of the one record, which depends on the fields and the
/// delimiter alone. It succeeds: the first record of a writer sets the field
/// count rather than being checked against one, and writing into a `Vec<u8>`
/// cannot fail.
#[verifier::external_body]
pub(crate) fn encode_record(fields: &Vec<String>, delimiter: u8) -> (r: Result<Vec<u8>, csv::Error>)
    ensures
        r is Ok,
        r matches Ok(b) ==> b@ == csv_record(fields_view(fields@), delimiter),
{
    let mut writer = csv::WriterBuilder::new().delimiter(delimiter).from_writer(Vec::new());
    writer.write_record(fields)?;
    writer.into_inner().map_err(|e| csv::Error::from(e.into_error()))
}

} // verus!
