//! From file bytes to the rows that carry trajectory states: decoding, the
//! choice of schema, and which lines are data.

use vstd::prelude::*;
use vstd::utf8::{decode_utf8, valid_utf8};
use crate::schema::{
    delim_split, header_row, is_comment, is_comment_chars, row_is_header_chars,
    split_line, usable, applied, ColumnMapping, Delimiter, DetectedSchema, comment_test_defined,
};
use crate::text::{
    chars_of, eq_chars, find_seq, lines, lines_chars, lower_chars, lower_seq, contains_seq,
    strings_of, trim_end, trim_end_chars, views,
};

verus! {

/// `String::from_utf8_lossy` of `bytes`, as text.
pub uninterp spec fn lossy_utf8(bytes: Seq<u8>) -> Seq<char>;

/// Calls `String::from_utf8_lossy`: valid UTF-8 decodes unchanged; other
/// input is named by `lossy_utf8` (invalid sequences become U+FFFD).
#[verifier::external_body]
fn utf8_lossy(bytes: &[u8]) -> (r: String)
    ensures
        r@ == lossy_utf8(bytes@),
        valid_utf8(bytes@) ==> r@ == decode_utf8(bytes@),
{
    String::from_utf8_lossy(bytes).into_owned()
}

/// The UTF-8 byte-order mark.
pub open spec fn has_bom(bytes: Seq<u8>) -> bool {
    bytes.len() >= 3 && bytes[0] == 0xEFu8 && bytes[1] == 0xBBu8 && bytes[2] == 0xBFu8
}

/// The bytes that are decoded: without a leading byte-order mark.
pub open spec fn text_bytes(bytes: Seq<u8>) -> Seq<u8> {
    if has_bom(bytes) {
        bytes.subrange(3, bytes.len() as int)
    } else {
        bytes
    }
}

/// Text of a file: a leading byte-order mark is dropped, the rest decoded
/// as UTF-8 with invalid sequences replaced.
pub fn decode_text(bytes: &[u8]) -> (r: String)
    ensures
        r@ == lossy_utf8(text_bytes(bytes@)),
        valid_utf8(text_bytes(bytes@)) ==> r@ == decode_utf8(text_bytes(bytes@)),
{
    if bytes.len() >= 3 && bytes[0] == 0xEF && bytes[1] == 0xBB && bytes[2] == 0xBF {
        let rest = vstd::slice::slice_subrange(bytes, 3, bytes.len());
        assert(rest@ =~= text_bytes(bytes@));
        utf8_lossy(rest)
    } else {
        utf8_lossy(bytes)
    }
}

/// Delimiter a schema's label names; anything unknown reads as a comma.
pub open spec fn delimiter_named(label: Seq<char>) -> Delimiter {
    if label == "tab"@ {
        Delimiter::Tab
    } else if label == "semicolon"@ {
        Delimiter::Semicolon
    } else if label == "pipe"@ {
        Delimiter::Pipe
    } else if label == "whitespace"@ {
        Delimiter::Whitespace
    } else {
        Delimiter::Comma
    }
}

fn is_label(label: &[char], name: &str) -> (r: bool)
    ensures
        r == (label@ == name@),
{
    let n = chars_of(name);
    eq_chars(label, &n)
}

/// The delimiter a schema's label names.
pub fn delimiter_from_label(label: &str) -> (d: Delimiter)
    ensures
        d == delimiter_named(label@),
{
    let l = chars_of(label);
    if is_label(&l, "tab") {
        Delimiter::Tab
    } else if is_label(&l, "semicolon") {
        Delimiter::Semicolon
    } else if is_label(&l, "pipe") {
        Delimiter::Pipe
    } else if is_label(&l, "whitespace") {
        Delimiter::Whitespace
    } else {
        Delimiter::Comma
    }
}

/// The fields of a data line: not a comment, at least two fields once the
/// line is right-trimmed and split, and not a header row when the file has
/// a header.
pub open spec fn data_row(line: Seq<char>, d: Delimiter, has_header: bool) -> Option<Seq<Seq<char>>> {
    if is_comment(line) {
        None
    } else {
        let f = delim_split(d, trim_end(line));
        if f.len() < 2 {
            None
        } else if has_header && header_row(f) {
            None
        } else {
            Some(f)
        }
    }
}

/// The data rows of `ls`, in order.
pub open spec fn data_rows(ls: Seq<Seq<char>>, d: Delimiter, has_header: bool) -> Seq<Seq<Seq<char>>>
    decreases ls.len(),
{
    if ls.len() == 0 {
        Seq::empty()
    } else {
        let w = data_rows(ls.drop_last(), d, has_header);
        match data_row(ls.last(), d, has_header) {
            Some(f) => w.push(f),
            None => w,
        }
    }
}

/// Every line can be tested for being a comment (see `comment_test_defined`).
pub open spec fn lines_testable(text: Seq<char>) -> bool {
    forall|i: int| 0 <= i < lines(text).len() ==> comment_test_defined(#[trigger] lines(text)[i])
}

/// Whether every line of `text` can be tested for being a comment.
pub fn rows_testable(text: &str) -> (r: bool)
    ensures
        r == lines_testable(text@),
{
    let ls = lines_chars(&chars_of(text));
    let ghost lv = views(ls@);
    let mut i: usize = 0;
    while i < ls.len()
        invariant
            i <= ls@.len(),
            lv == views(ls@),
            lv == lines(text@),
            forall|k: int| 0 <= k < i ==> comment_test_defined(#[trigger] lv[k]),
        decreases ls@.len() - i,
    {
        assert(lv[i as int] == ls@[i as int]@);
        if !crate::schema::comment_test_ok(&ls[i]) {
            return false;
        }
        i += 1;
    }
    true
}

/// The rows of `text` that carry states under `schema`, split into fields.
pub fn schema_rows(text: &str, schema: &DetectedSchema) -> (r: Vec<Vec<String>>)
    requires
        lines_testable(text@),
    ensures
        crate::schema::str_views2(r@) == data_rows(
            lines(text@),
            delimiter_named(schema.delimiter@),
            schema.has_header,
        ),
{
    let d = delimiter_from_label(schema.delimiter.as_str());
    let cs = chars_of(text);
    let ls = lines_chars(&cs);
    let ghost lv = views(ls@);
    let mut out: Vec<Vec<String>> = Vec::new();
    let mut i: usize = 0;
    while i < ls.len()
        invariant
            i <= ls@.len(),
            lv == views(ls@),
            lv == lines(text@),
            d == delimiter_named(schema.delimiter@),
            crate::schema::str_views2(out@) == data_rows(lv.take(i as int), d, schema.has_header),
        decreases ls@.len() - i,
    {
        assert(lv.take(i + 1).drop_last() =~= lv.take(i as int));
        assert(lv.take(i + 1).last() == lv[i as int]);
        assert(lv[i as int] == ls@[i as int]@);
        if !is_comment_chars(&ls[i]) {
            let t = trim_end_chars(&ls[i]);
            let fields = split_line(d, &t);
            if fields.len() >= 2 {
                if !(schema.has_header && row_is_header_chars(&fields)) {
                    let ghost before = crate::schema::str_views2(out@);
                    let row = strings_of(&fields);
                    out.push(row);
                    assert(crate::schema::str_views2(out@) =~= before.push(views(fields@)));
                }
            }
        }
        i += 1;
    }
    assert(lv.take(ls@.len() as int) =~= lv);
    out
}

/// Whether the column at `col` (by position) is named in kilometres: its
/// name, ASCII-lower-cased, contains `km`.
pub open spec fn col_in_km(s: DetectedSchema, col: Option<usize>) -> bool {
    match col {
        Some(i) => i < s.columns@.len() && find_seq(lower_seq(s.columns@[i as int].name@), "km"@, 0) is Some,
        None => false,
    }
}

fn column_in_km(schema: &DetectedSchema, col: Option<usize>) -> (r: bool)
    ensures
        r == col_in_km(*schema, col),
{
    match col {
        Some(i) => {
            if i < schema.columns.len() {
                let name = lower_chars(&chars_of(schema.columns[i].name.as_str()));
                let km = chars_of("km");
                contains_seq(&name, &km)
            } else {
                false
            }
        },
        None => false,
    }
}

/// Whether altitudes are in kilometres.
pub fn schema_alt_is_km(schema: &DetectedSchema) -> (r: bool)
    ensures
        r == col_in_km(*schema, schema.alt_col),
{
    column_in_km(schema, schema.alt_col)
}

/// Whether ECEF coordinates are in kilometres (judged by the X column).
pub fn schema_xyz_is_km(schema: &DetectedSchema) -> (r: bool)
    ensures
        r == col_in_km(*schema, schema.x_col),
{
    column_in_km(schema, schema.x_col)
}

pub open spec fn no_position_columns() -> Seq<char> {
    "could not find lat/lon or ECEF X/Y/Z columns"@
}

/// Whether a mapping names usable position columns for the frame it implies.
pub open spec fn mapping_usable(m: ColumnMapping) -> bool {
    match crate::schema::frame_for(m) {
        crate::schema::Frame::Lla => m.lat_col is Some && m.lon_col is Some,
        crate::schema::Frame::Ecef => m.x_col is Some && m.y_col is Some && m.z_col is Some,
    }
}

/// A detected schema with the user's mapping applied, if there is one; an
/// error when the result names no usable position columns.
pub fn settle_schema(schema: DetectedSchema, mapping: Option<&ColumnMapping>) -> (r: Result<DetectedSchema, String>)
    ensures
        match r {
            Ok(s) => usable(s) && match mapping {
                Some(m) => applied(schema, *m, s),
                None => s == schema,
            },
            Err(e) => e@ == no_position_columns() && match mapping {
                Some(m) => !mapping_usable(*m),
                None => !usable(schema),
            },
        },
{
    let mut s = schema;
    if let Some(m) = mapping {
        s.apply_mapping(m);
    }
    if !s.is_usable() {
        return Err(String::from_str("could not find lat/lon or ECEF X/Y/Z columns"));
    }
    Ok(s)
}

/// Every data row has at least two fields.
pub proof fn law_data_rows_have_fields(ls: Seq<Seq<char>>, d: Delimiter, has_header: bool)
    ensures
        forall|i: int|
            0 <= i < data_rows(ls, d, has_header).len() ==> (#[trigger] data_rows(
                ls,
                d,
                has_header,
            )[i]).len() >= 2,
    decreases ls.len(),
{
    if ls.len() > 0 {
        law_data_rows_have_fields(ls.drop_last(), d, has_header);
        let w = data_rows(ls.drop_last(), d, has_header);
        let all = data_rows(ls, d, has_header);
        assert forall|i: int| 0 <= i < all.len() implies (#[trigger] all[i]).len() >= 2 by {
            if i < w.len() {
                assert(all[i] == w[i]);
            }
        }
    }
}

/// A line that is not a comment, splits (right-trimmed) into at least two
/// fields, and is not a header row when the file has a header, is a data
/// row: appending it to the lines appends its fields to the data rows.
/// Any other line adds no row.
pub proof fn law_data_rows_keep_field_lines(ls: Seq<Seq<char>>, line: Seq<char>, d: Delimiter, has_header: bool)
    ensures
        ({
            let f = delim_split(d, trim_end(line));
            &&& (!is_comment(line) && f.len() >= 2 && !(has_header && header_row(f))) ==> data_rows(
                ls.push(line),
                d,
                has_header,
            ) == data_rows(ls, d, has_header).push(f)
            &&& !(!is_comment(line) && f.len() >= 2 && !(has_header && header_row(f))) ==> data_rows(
                ls.push(line),
                d,
                has_header,
            ) == data_rows(ls, d, has_header)
        }),
{
    assert(ls.push(line).drop_last() =~= ls);
    assert(ls.push(line).last() == line);
}

} // verus!
