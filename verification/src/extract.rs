//! The three extraction strategies over one line of text: by byte, by
//! character, and by delimiter-separated field. All three share one rule for
//! positions past the end of the data: they are silently skipped, never an
//! error. Field splitting and re-serialisation follow the quoting rules of
//! the `csv` crate, called through trusted wrappers.

use crate::ranges::{ranges_indices, ranges_iter, RangeSpec};
use crate::text;
use vstd::prelude::*;
use vstd::utf8::{decode_utf8, encode_utf8, valid_utf8};

verus! {

/// The elements of `s` at the positions of `idx`, in the order of `idx`,
/// with out-of-bounds positions silently skipped.
pub open spec fn select_seq<A>(s: Seq<A>, idx: Seq<usize>) -> Seq<A>
    decreases idx.len(),
{
    if idx.len() == 0 {
        Seq::<A>::empty()
    } else {
        let rest = select_seq(s, idx.drop_first());
        if (idx[0] as int) < s.len() {
            seq![s[idx[0] as int]].add(rest)
        } else {
            rest
        }
    }
}

/// Selecting, then viewing the selected strings, is viewing first and then
/// selecting.
proof fn lemma_select_seq_map(s: Seq<String>, idx: Seq<usize>)
    ensures
        select_seq(s, idx).map_values(|f: String| f@) == select_seq(
            s.map_values(|f: String| f@),
            idx,
        ),
    decreases idx.len(),
{
    let f = |f: String| f@;
    if idx.len() == 0 {
        assert(select_seq(s, idx).map_values(f) =~~= select_seq(s.map_values(f), idx));
    } else {
        lemma_select_seq_map(s, idx.drop_first());
        assert(select_seq(s, idx).map_values(f) =~~= select_seq(s.map_values(f), idx));
    }
}

/// Extracts the characters of `line` at the positions the range list yields,
/// in traversal order; positions past the last character are skipped.
pub fn extract_chars(line: &str, ranges: &Vec<RangeSpec>) -> (r: String)
    ensures
        r@ == select_seq(line@, ranges_indices(ranges@)),
{
    let chars = text::chars_of(line);
    let ghost all = ranges_indices(ranges@);
    let mut it = ranges_iter(ranges);
    let mut out: Vec<char> = Vec::new();
    loop
        invariant
            it.wf(),
            chars@ == line@,
            select_seq(line@, all) == out@.add(select_seq(line@, it.remaining())),
        ensures
            it.remaining().len() == 0,
            select_seq(line@, all) == out@.add(select_seq(line@, it.remaining())),
        decreases it.remaining().len(),
    {
        let ghost rem = it.remaining();
        match it.next() {
            None => { break; },
            Some(i) => {
                proof {
                    assert(select_seq(line@, rem) == if (rem[0] as int) < line@.len() {
                        seq![line@[rem[0] as int]].add(select_seq(line@, rem.drop_first()))
                    } else {
                        select_seq(line@, rem.drop_first())
                    });
                }
                if i < chars.len() {
                    out.push(chars[i]);
                    proof {
                        assert(select_seq(line@, all) =~= out@.add(
                            select_seq(line@, it.remaining()),
                        ));
                    }
                }
            },
        }
    }
    proof {
        assert(select_seq(line@, it.remaining()) =~= Seq::<char>::empty());
        assert(out@ =~= select_seq(line@, all));
    }
    text::chars_to_string(&out)
}

/// What `String::from_utf8_lossy` decodes a byte sequence to: a function of
/// the bytes alone; invalid sequences become replacement characters.
pub uninterp spec fn lossy_decode(bytes: Seq<u8>) -> Seq<char>;

/// Relies on `String::from_utf8_lossy`: the decoding depends on the bytes
/// alone, and valid UTF-8 decodes to exactly its own characters.
#[verifier::external_body]
fn utf8_lossy(bytes: &Vec<u8>) -> (r: String)
    ensures
        r@ == lossy_decode(bytes@),
        valid_utf8(bytes@) ==> r@ == decode_utf8(bytes@),
{
    String::from_utf8_lossy(bytes).into_owned()
}

/// Extracts the bytes of `line` at the positions the range list yields, in
/// traversal order, then decodes the collected bytes lossily: slicing may
/// split a multi-byte character, and such fragments render as the
/// replacement character rather than failing.
pub fn extract_bytes(line: &str, ranges: &Vec<RangeSpec>) -> (r: String)
    ensures
        r@ == lossy_decode(select_seq(encode_utf8(line@), ranges_indices(ranges@))),
{
    let bytes = line.as_bytes_vec();
    let ghost all = ranges_indices(ranges@);
    let mut it = ranges_iter(ranges);
    let mut out: Vec<u8> = Vec::new();
    loop
        invariant
            it.wf(),
            bytes@ == encode_utf8(line@),
            select_seq(bytes@, all) == out@.add(select_seq(bytes@, it.remaining())),
        ensures
            it.remaining().len() == 0,
            select_seq(bytes@, all) == out@.add(select_seq(bytes@, it.remaining())),
            bytes@ == encode_utf8(line@),
        decreases it.remaining().len(),
    {
        let ghost rem = it.remaining();
        match it.next() {
            None => { break; },
            Some(i) => {
                proof {
                    assert(select_seq(bytes@, rem) == if (rem[0] as int) < bytes@.len() {
                        seq![bytes@[rem[0] as int]].add(select_seq(bytes@, rem.drop_first()))
                    } else {
                        select_seq(bytes@, rem.drop_first())
                    });
                }
                if i < bytes.len() {
                    out.push(bytes[i]);
                    proof {
                        assert(select_seq(bytes@, all) =~= out@.add(
                            select_seq(bytes@, it.remaining()),
                        ));
                    }
                }
            },
        }
    }
    proof {
        assert(select_seq(bytes@, it.remaining()) =~= Seq::<u8>::empty());
        assert(out@ =~= select_seq(bytes@, all));
    }
    utf8_lossy(&out)
}

/// The fields of one delimiter-separated record, under the `csv` crate's
/// quoting rules: a function of the line and the delimiter alone.
pub uninterp spec fn csv_fields(line: Seq<char>, delim: u8) -> Seq<Seq<char>>;

/// One record re-serialised under the `csv` crate's quoting rules, without
/// the trailing record terminator: a function of the fields and delimiter.
pub uninterp spec fn csv_record(fields: Seq<Seq<char>>, delim: u8) -> Seq<char>;

/// Relies on `csv::ReaderBuilder` and `Reader::records`: reads the first
/// record of `line` with headers off. The fields depend on the line and the
/// delimiter alone. Empty input holds no record; input that holds no line
/// terminator always yields one when the delimiter is ASCII (the reader is
/// lenient about quoting, reads from memory, and an ASCII delimiter splits
/// valid UTF-8 only at character boundaries, so the fields stay valid).
#[verifier::external_body]
fn csv_split_record(line: &str, delim: u8) -> (r: Option<Vec<String>>)
    ensures
        r is Some ==> r->0@.map_values(|f: String| f@) == csv_fields(line@, delim),
        line@.len() == 0 ==> r is None,
        (delim < 128 && line@.len() > 0 && forall|i: int|
            0 <= i < line@.len() ==> line@[i] != '\n' && line@[i] != '\r') ==> r is Some,
{
    let mut reader = csv::ReaderBuilder::new()
        .has_headers(false)
        .delimiter(delim)
        .from_reader(line.as_bytes());
    match reader.records().next() {
        None => None,
        Some(Err(_)) => None,
        Some(Ok(record)) => {
            let mut fields: Vec<String> = Vec::with_capacity(record.len());
            for field in record.iter() {
                fields.push(field.to_string());
            }
            Some(fields)
        },
    }
}

/// Relies on `csv::WriterBuilder` and `Writer::write_record`: writes one
/// record to an in-memory buffer, which cannot fail, and drops the single
/// terminating newline the writer appends. The encoding depends on the
/// fields and the delimiter alone, and an ASCII delimiter keeps it valid
/// UTF-8; a non-ASCII delimiter byte may not.
#[verifier::external_body]
fn csv_join_record(fields: &Vec<String>, delim: u8) -> (r: Option<String>)
    ensures
        delim < 128 ==> r is Some,
        r is Some ==> r->0@ == csv_record(fields@.map_values(|f: String| f@), delim),
{
    let mut writer = csv::WriterBuilder::new()
        .has_headers(false)
        .delimiter(delim)
        .from_writer(Vec::new());
    writer.write_record(fields.iter()).ok()?;
    let bytes = writer.into_inner().ok()?;
    let mut text = String::from_utf8(bytes).ok()?;
    if text.ends_with('\n') {
        text.pop();
    }
    Some(text)
}

/// Why a field extraction failed.
#[derive(Clone, Copy, Debug, PartialEq, Eq, Structural)]
pub enum FieldError {
    /// The line held no record to split into fields.
    NoRecord,
    /// The selected fields could not be re-serialised.
    Serialize,
}

impl FieldError {
    /// Renders the error for reporting.
    pub fn message(&self) -> (r: String)
        ensures
            *self is NoRecord ==> r@ == "no record found in line"@,
            *self is Serialize ==> r@ == "could not serialize selected fields"@,
    {
        match self {
            FieldError::NoRecord => "no record found in line".to_owned(),
            FieldError::Serialize => "could not serialize selected fields".to_owned(),
        }
    }
}

/// The fields of `record` at the positions the range list yields, in
/// traversal order; positions past the last field are skipped.
pub fn extract_fields_internal(record: &Vec<String>, ranges: &Vec<RangeSpec>) -> (r: Vec<String>)
    ensures
        r@ == select_seq(record@, ranges_indices(ranges@)),
{
    let ghost all = ranges_indices(ranges@);
    let mut it = ranges_iter(ranges);
    let mut out: Vec<String> = Vec::new();
    loop
        invariant
            it.wf(),
            select_seq(record@, all) == out@.add(select_seq(record@, it.remaining())),
        ensures
            it.remaining().len() == 0,
            select_seq(record@, all) == out@.add(select_seq(record@, it.remaining())),
        decreases it.remaining().len(),
    {
        let ghost rem = it.remaining();
        match it.next() {
            None => { break; },
            Some(i) => {
                proof {
                    assert(select_seq(record@, rem) == if (rem[0] as int) < record@.len() {
                        seq![record@[rem[0] as int]].add(select_seq(record@, rem.drop_first()))
                    } else {
                        select_seq(record@, rem.drop_first())
                    });
                }
                if i < record.len() {
                    out.push(record[i].clone());
                    proof {
                        assert(select_seq(record@, all) =~= out@.add(
                            select_seq(record@, it.remaining()),
                        ));
                    }
                }
            },
        }
    }
    proof {
        assert(select_seq(record@, it.remaining()) =~= Seq::<String>::empty());
        assert(out@ =~= select_seq(record@, all));
    }
    out
}

/// Splits `line` into fields on `delimeter` under the quoting rules, selects
/// the fields the range list yields — positions past the last field skipped —
/// and re-serialises them as one delimiter-joined record. A line without a
/// line terminator always succeeds under an ASCII delimiter; a line the
/// splitter finds no record in is an error.
pub fn extract_fields(line: &str, delimeter: char, ranges: &Vec<RangeSpec>) -> (r: Result<
    String,
    FieldError,
>)
    ensures
        r is Ok ==> r->Ok_0@ == csv_record(
            select_seq(csv_fields(line@, delimeter as u8), ranges_indices(ranges@)),
            delimeter as u8,
        ),
        ((delimeter as u32) < 128 && line@.len() > 0 && forall|i: int|
            0 <= i < line@.len() ==> line@[i] != '\n' && line@[i] != '\r') ==> r is Ok,
{
    let delim: u8 = delimeter as u8;
    match csv_split_record(line, delim) {
        None => Err(FieldError::NoRecord),
        Some(record) => {
            let selected = extract_fields_internal(&record, ranges);
            proof {
                lemma_select_seq_map(record@, ranges_indices(ranges@));
            }
            match csv_join_record(&selected, delim) {
                None => Err(FieldError::Serialize),
                Some(text) => Ok(text),
            }
        },
    }
}

/// Which unit of a line the engine addresses, with the ranges to extract.
/// Exactly one strategy is active per run, enforced by the sum type itself.
#[derive(Debug)]
pub enum ExtractedRanges {
    Bytes(Vec<RangeSpec>),
    Chars(Vec<RangeSpec>),
    Fields(Vec<RangeSpec>),
}

/// What one extraction yields for a line, per mode. Byte and character
/// extraction always succeed; this is the value a successful field
/// extraction yields as well.
pub open spec fn extract_spec(
    extracted: ExtractedRanges,
    delimeter: char,
    line: Seq<char>,
) -> Seq<char> {
    match extracted {
        ExtractedRanges::Bytes(rs) => lossy_decode(
            select_seq(encode_utf8(line), ranges_indices(rs@)),
        ),
        ExtractedRanges::Chars(rs) => select_seq(line, ranges_indices(rs@)),
        ExtractedRanges::Fields(rs) => csv_record(
            select_seq(csv_fields(line, delimeter as u8), ranges_indices(rs@)),
            delimeter as u8,
        ),
    }
}

/// Extracts from one line under the chosen mode. Byte and character modes
/// never fail; field mode fails only when the splitter or serialiser does.
pub fn extract(extracted: &ExtractedRanges, delimeter: char, line: &str) -> (r: Result<
    String,
    FieldError,
>)
    ensures
        r is Ok ==> r->Ok_0@ == extract_spec(*extracted, delimeter, line@),
        !(extracted is Fields) ==> r is Ok,
        ((delimeter as u32) < 128 && line@.len() > 0 && forall|i: int|
            0 <= i < line@.len() ==> line@[i] != '\n' && line@[i] != '\r') ==> r is Ok,
{
    match extracted {
        ExtractedRanges::Bytes(ranges) => Ok(extract_bytes(line, ranges)),
        ExtractedRanges::Chars(ranges) => Ok(extract_chars(line, ranges)),
        ExtractedRanges::Fields(ranges) => extract_fields(line, delimeter, ranges),
    }
}

/// The engine is stateless: every successful output is pinned by the
/// contracts to [`extract_spec`], a function of the mode, the delimiter and
/// the line alone. Re-running the same extraction on the same line therefore
/// yields identical output; a field extraction may fail, and any two
/// successful runs agree.
pub proof fn lemma_extract_deterministic(
    extracted: ExtractedRanges,
    delimeter: char,
    line: Seq<char>,
    out1: Seq<char>,
    out2: Seq<char>,
)
    requires
        out1 == extract_spec(extracted, delimeter, line),
        out2 == extract_spec(extracted, delimeter, line),
    ensures
        out1 == out2,
{
}

} // verus!
