//! Column roles, column mappings, delimiters and the delimited-text preview
//! that schema detection starts from.

use vstd::prelude::*;
use vstd::utf8::{encode_utf8, is_char_boundary};
use crate::number::{is_f64_literal, parses_as_f64};
use crate::text::{
    chars_of, contains_char, eq_chars, is_alnum, is_ascii_alnum, lower, slice_of, split_chars, split_char, split_ws_chars, starts_with, starts_with_chars, str_views,
    string_of, strings_of, to_lower, trim, trim_chars, trim_chars_pat, trim_pat,
    trim_start, trim_start_chars, views, ws_tokens, Pat,
};

verus! {

// ---------------------------------------------------------------------
// Frames, roles, mappings
// ---------------------------------------------------------------------

/// Coordinate frame of a track's position columns.
#[derive(Debug, Clone, Copy, PartialEq, Eq, Structural)]
pub enum Frame {
    Lla,
    Ecef,
}

/// What a column holds.
#[derive(Debug, Clone, Copy, PartialEq, Eq, Structural)]
pub enum ColumnRole {
    Time,
    Lat,
    Lon,
    Alt,
    X,
    Y,
    Z,
    Other,
}

/// One column of a detected schema.
#[derive(Debug, Clone)]
pub struct ColumnInfo {
    pub index: usize,
    pub name: String,
    pub role: ColumnRole,
}

/// A user's choice of which column holds which quantity.
#[derive(Debug, Clone, Copy, PartialEq, Eq, Structural)]
pub struct ColumnMapping {
    pub time_col: Option<usize>,
    pub lat_col: Option<usize>,
    pub lon_col: Option<usize>,
    pub alt_col: Option<usize>,
    pub x_col: Option<usize>,
    pub y_col: Option<usize>,
    pub z_col: Option<usize>,
}

impl Default for ColumnMapping {
    fn default() -> (m: Self)
        ensures
            m == empty_mapping(),
    {
        ColumnMapping {
            time_col: None,
            lat_col: None,
            lon_col: None,
            alt_col: None,
            x_col: None,
            y_col: None,
            z_col: None,
        }
    }
}

pub open spec fn empty_mapping() -> ColumnMapping {
    ColumnMapping {
        time_col: None,
        lat_col: None,
        lon_col: None,
        alt_col: None,
        x_col: None,
        y_col: None,
        z_col: None,
    }
}

/// Detected layout of a delimited trajectory file (its column roles and the
/// columns that carry time and position).
#[derive(Debug, Clone)]
pub struct DetectedSchema {
    pub delimiter: String,
    pub has_header: bool,
    pub frame: Frame,
    /// How sure the detection is, in hundredths.
    pub confidence: u32,
    pub columns: Vec<ColumnInfo>,
    pub time_col: Option<usize>,
    pub lat_col: Option<usize>,
    pub lon_col: Option<usize>,
    pub alt_col: Option<usize>,
    pub x_col: Option<usize>,
    pub y_col: Option<usize>,
    pub z_col: Option<usize>,
}

/// Role that a mapping gives column `index`; earlier fields win.
pub open spec fn role_for(index: usize, m: ColumnMapping) -> ColumnRole {
    if m.time_col == Some(index) {
        ColumnRole::Time
    } else if m.lat_col == Some(index) {
        ColumnRole::Lat
    } else if m.lon_col == Some(index) {
        ColumnRole::Lon
    } else if m.alt_col == Some(index) {
        ColumnRole::Alt
    } else if m.x_col == Some(index) {
        ColumnRole::X
    } else if m.y_col == Some(index) {
        ColumnRole::Y
    } else if m.z_col == Some(index) {
        ColumnRole::Z
    } else {
        ColumnRole::Other
    }
}

/// Frame that a mapping implies: ECEF when X, Y and Z are all mapped.
pub open spec fn frame_for(m: ColumnMapping) -> Frame {
    if m.x_col is Some && m.y_col is Some && m.z_col is Some {
        Frame::Ecef
    } else {
        Frame::Lla
    }
}

pub open spec fn mapping_of(s: DetectedSchema) -> ColumnMapping {
    ColumnMapping {
        time_col: s.time_col,
        lat_col: s.lat_col,
        lon_col: s.lon_col,
        alt_col: s.alt_col,
        x_col: s.x_col,
        y_col: s.y_col,
        z_col: s.z_col,
    }
}

pub open spec fn usable(s: DetectedSchema) -> bool {
    match s.frame {
        Frame::Lla => s.lat_col is Some && s.lon_col is Some,
        Frame::Ecef => s.x_col is Some && s.y_col is Some && s.z_col is Some,
    }
}

/// The schema that results from applying mapping `m` to `before`.
pub open spec fn applied(before: DetectedSchema, m: ColumnMapping, after: DetectedSchema) -> bool {
    &&& mapping_of(after) == m
    &&& after.frame == frame_for(m)
    &&& after.delimiter@ == before.delimiter@
    &&& after.has_header == before.has_header
    &&& after.confidence == before.confidence
    &&& after.columns@.len() == before.columns@.len()
    &&& forall|i: int|
        0 <= i < after.columns@.len() ==> {
            &&& (#[trigger] after.columns@[i]).index == before.columns@[i].index
            &&& after.columns@[i].name@ == before.columns@[i].name@
            &&& after.columns@[i].role == role_for(before.columns@[i].index, m)
        }
}

fn role_from_mapping(index: usize, mapping: &ColumnMapping) -> (r: ColumnRole)
    ensures
        r == role_for(index, *mapping),
{
    if mapping.time_col == Some(index) {
        ColumnRole::Time
    } else if mapping.lat_col == Some(index) {
        ColumnRole::Lat
    } else if mapping.lon_col == Some(index) {
        ColumnRole::Lon
    } else if mapping.alt_col == Some(index) {
        ColumnRole::Alt
    } else if mapping.x_col == Some(index) {
        ColumnRole::X
    } else if mapping.y_col == Some(index) {
        ColumnRole::Y
    } else if mapping.z_col == Some(index) {
        ColumnRole::Z
    } else {
        ColumnRole::Other
    }
}

impl DetectedSchema {
    /// Replaces the column choice with `mapping` and re-derives the frame and
    /// every column's role from it.
    pub fn apply_mapping(&mut self, mapping: &ColumnMapping)
        ensures
            applied(*old(self), *mapping, *final(self)),
    {
        self.time_col = mapping.time_col;
        self.lat_col = mapping.lat_col;
        self.lon_col = mapping.lon_col;
        self.alt_col = mapping.alt_col;
        self.x_col = mapping.x_col;
        self.y_col = mapping.y_col;
        self.z_col = mapping.z_col;
        if self.x_col.is_some() && self.y_col.is_some() && self.z_col.is_some() {
            self.frame = Frame::Ecef;
        } else {
            self.frame = Frame::Lla;
        }
        let ghost before = old(self).columns@;
        let mut i: usize = 0;
        while i < self.columns.len()
            invariant
                i <= self.columns@.len(),
                self.columns@.len() == before.len(),
                mapping_of(*self) == *mapping,
                self.frame == frame_for(*mapping),
                self.delimiter@ == old(self).delimiter@,
                self.has_header == old(self).has_header,
                self.confidence == old(self).confidence,
                forall|k: int|
                    0 <= k < self.columns@.len() ==> {
                        &&& (#[trigger] self.columns@[k]).index == before[k].index
                        &&& self.columns@[k].name@ == before[k].name@
                        &&& k < i ==> self.columns@[k].role == role_for(before[k].index, *mapping)
                    },
            decreases self.columns@.len() - i,
        {
            let index = self.columns[i].index;
            let name = self.columns[i].name.clone();
            let role = role_from_mapping(index, mapping);
            self.columns.set(i, ColumnInfo { index, name, role });
            i += 1;
        }
    }

    /// The current column choice.
    pub fn mapping(&self) -> (m: ColumnMapping)
        ensures
            m == mapping_of(*self),
    {
        ColumnMapping {
            time_col: self.time_col,
            lat_col: self.lat_col,
            lon_col: self.lon_col,
            alt_col: self.alt_col,
            x_col: self.x_col,
            y_col: self.y_col,
            z_col: self.z_col,
        }
    }

    /// Whether the chosen columns give positions: lat and lon for LLA, all of
    /// X, Y, Z for ECEF.
    pub fn is_usable(&self) -> (b: bool)
        ensures
            b == usable(*self),
    {
        match self.frame {
            Frame::Lla => self.lat_col.is_some() && self.lon_col.is_some(),
            Frame::Ecef => self.x_col.is_some() && self.y_col.is_some() && self.z_col.is_some(),
        }
    }

    /// The schema of tracks this program writes itself: `time,lat,lon,alt`.
    pub fn generated() -> (s: Self)
        ensures
            s.delimiter@ == "csv"@,
            s.has_header,
            s.frame == Frame::Lla,
            s.confidence == 100,
            s.columns@.len() == 4,
            s.columns@[0].index == 0 && s.columns@[0].name@ == "time"@ && s.columns@[0].role
                == ColumnRole::Time,
            s.columns@[1].index == 1 && s.columns@[1].name@ == "lat"@ && s.columns@[1].role
                == ColumnRole::Lat,
            s.columns@[2].index == 2 && s.columns@[2].name@ == "lon"@ && s.columns@[2].role
                == ColumnRole::Lon,
            s.columns@[3].index == 3 && s.columns@[3].name@ == "alt"@ && s.columns@[3].role
                == ColumnRole::Alt,
            mapping_of(s) == (ColumnMapping {
                time_col: Some(0),
                lat_col: Some(1),
                lon_col: Some(2),
                alt_col: Some(3),
                x_col: None,
                y_col: None,
                z_col: None,
            }),
    {
        let mut columns: Vec<ColumnInfo> = Vec::new();
        columns.push(ColumnInfo { index: 0, name: String::from_str("time"), role: ColumnRole::Time });
        columns.push(ColumnInfo { index: 1, name: String::from_str("lat"), role: ColumnRole::Lat });
        columns.push(ColumnInfo { index: 2, name: String::from_str("lon"), role: ColumnRole::Lon });
        columns.push(ColumnInfo { index: 3, name: String::from_str("alt"), role: ColumnRole::Alt });
        DetectedSchema {
            delimiter: String::from_str("csv"),
            has_header: true,
            frame: Frame::Lla,
            confidence: 100,
            columns,
            time_col: Some(0),
            lat_col: Some(1),
            lon_col: Some(2),
            alt_col: Some(3),
            x_col: None,
            y_col: None,
            z_col: None,
        }
    }
}

/// Applying a mapping and reading the mapping back gives the same mapping.
pub proof fn law_mapping_roundtrip(before: DetectedSchema, m: ColumnMapping, after: DetectedSchema)
    requires
        applied(before, m, after),
    ensures
        mapping_of(after) == m,
{
}

/// After a mapping is applied, the schema is usable exactly when the mapping
/// names X, Y and Z, or names latitude and longitude.
pub proof fn law_applied_usable(before: DetectedSchema, m: ColumnMapping, after: DetectedSchema)
    requires
        applied(before, m, after),
    ensures
        usable(after) <==> ((m.x_col is Some && m.y_col is Some && m.z_col is Some) || (
        m.lat_col is Some && m.lon_col is Some)),
{
}

/// After a mapping is applied, a column has the time role exactly when the
/// mapping names it as the time column; likewise a column that the mapping
/// names nowhere has the role `Other`.
pub proof fn law_applied_roles(
    before: DetectedSchema,
    m: ColumnMapping,
    after: DetectedSchema,
    i: int,
)
    requires
        applied(before, m, after),
        0 <= i < after.columns@.len(),
    ensures
        (after.columns@[i].role == ColumnRole::Time) <==> m.time_col == Some(
            after.columns@[i].index,
        ),
        ({
            let k = after.columns@[i].index;
            m.time_col != Some(k) && m.lat_col != Some(k) && m.lon_col != Some(k) && m.alt_col
                != Some(k) && m.x_col != Some(k) && m.y_col != Some(k) && m.z_col != Some(k)
        }) ==> after.columns@[i].role == ColumnRole::Other,
{
    assert(after.columns@[i].index == before.columns@[i].index);
}

// ---------------------------------------------------------------------
// Delimiters
// ---------------------------------------------------------------------

/// Field separator of a delimited file.
#[derive(Debug, Clone, Copy, PartialEq, Eq, Structural)]
pub enum Delimiter {
    Comma,
    Tab,
    Semicolon,
    Pipe,
    Whitespace,
}

pub open spec fn label(d: Delimiter) -> Seq<char> {
    match d {
        Delimiter::Comma => "comma"@,
        Delimiter::Tab => "tab"@,
        Delimiter::Semicolon => "semicolon"@,
        Delimiter::Pipe => "pipe"@,
        Delimiter::Whitespace => "whitespace"@,
    }
}

pub open spec fn sep_char(d: Delimiter) -> char {
    match d {
        Delimiter::Comma => ',',
        Delimiter::Tab => '\t',
        Delimiter::Semicolon => ';',
        Delimiter::Pipe => '|',
        Delimiter::Whitespace => ' ',
    }
}

/// Fields of `line`: white-space runs separate for `Whitespace`; otherwise the
/// separator character splits and each field is trimmed.
pub open spec fn delim_split(d: Delimiter, line: Seq<char>) -> Seq<Seq<char>> {
    match d {
        Delimiter::Whitespace => ws_tokens(line),
        _ => {
            let parts = split_char(line, sep_char(d));
            Seq::new(parts.len(), |i: int| trim(parts[i]))
        },
    }
}

pub fn split_line(d: Delimiter, line: &[char]) -> (r: Vec<Vec<char>>)
    ensures
        views(r@) == delim_split(d, line@),
{
    match d {
        Delimiter::Whitespace => split_ws_chars(line),
        _ => {
            let c = match d {
                Delimiter::Comma => ',',
                Delimiter::Tab => '\t',
                Delimiter::Semicolon => ';',
                Delimiter::Pipe => '|',
                Delimiter::Whitespace => ' ',
            };
            let parts = split_chars(line, c);
            let mut r: Vec<Vec<char>> = Vec::new();
            let mut i: usize = 0;
            while i < parts.len()
                invariant
                    i <= parts@.len(),
                    views(parts@) == split_char(line@, sep_char(d)),
                    r@.len() == i,
                    forall|k: int| 0 <= k < i ==> (#[trigger] r@[k])@ == trim(parts@[k]@),
                decreases parts@.len() - i,
            {
                r.push(trim_chars(&parts[i]));
                i += 1;
            }
            proof {
                let parts_spec = split_char(line@, sep_char(d));
                assert(views(r@) =~= Seq::new(parts_spec.len(), |k: int| trim(parts_spec[k])));
            }
            r
        },
    }
}

impl Delimiter {
    /// Name shown for this delimiter.
    pub fn as_label(self) -> (r: &'static str)
        ensures
            r@ == label(self),
    {
        match self {
            Delimiter::Comma => "comma",
            Delimiter::Tab => "tab",
            Delimiter::Semicolon => "semicolon",
            Delimiter::Pipe => "pipe",
            Delimiter::Whitespace => "whitespace",
        }
    }

    /// Fields of a line given as characters.
    pub fn split_chars_public(self, line: &[char]) -> (r: Vec<String>)
        ensures
            str_views(r@) == delim_split(self, line@),
    {
        let parts = split_line(self, line);
        strings_of(&parts)
    }

    /// Fields of one line.
    pub fn split(self, line: &str) -> (r: Vec<String>)
        ensures
            str_views(r@) == delim_split(self, line@),
    {
        let cs = chars_of(line);
        let parts = split_line(self, &cs);
        strings_of(&parts)
    }
}

// ---------------------------------------------------------------------
// Comment lines
// ---------------------------------------------------------------------

/// Case-insensitive ASCII prefix test (`prefix` is lower case).
pub open spec fn starts_ci(t: Seq<char>, prefix: Seq<char>) -> bool {
    t.len() >= prefix.len() && forall|i: int| 0 <= i < prefix.len() ==> lower(#[trigger] t[i]) == prefix[i]
}

pub open spec fn stk_prefix() -> Seq<char> {
    seq!['s', 't', 'k', '.']
}

pub open spec fn scenario_prefix() -> Seq<char> {
    seq!['s', 'c', 'e', 'n', 'a', 'r', 'i', 'o']
}

pub open spec fn ephemeris_prefix() -> Seq<char> {
    seq!['e', 'p', 'h', 'e', 'm', 'e', 'r', 'i', 's']
}

/// The tests of a comment line that look at single characters and case-
/// sensitive prefixes (`t` is the line without leading white space).
pub open spec fn plain_comment(t: Seq<char>) -> bool {
    ||| t.len() == 0
    ||| t[0] == '#'
    ||| t[0] == '%'
    ||| t[0] == '!'
    ||| starts_with(t, seq!['/', '/'])
    ||| (t[0] == ';' && !t.contains(','))
    ||| starts_with(t, seq!['B', 'E', 'G', 'I', 'N'])
    ||| starts_with(t, seq!['E', 'N', 'D'])
}

/// Whether a line is a comment, a blank line or an STK-style banner.
pub open spec fn is_comment(line: Seq<char>) -> bool {
    let t = trim_start(line);
    plain_comment(t) || starts_ci(t, stk_prefix()) || starts_ci(t, scenario_prefix())
        || starts_ci(t, ephemeris_prefix())
}

/// Taking the first `k` bytes of the UTF-8 text `t` does not cut a character.
pub open spec fn cut_ok(t: Seq<char>, k: int) -> bool {
    encode_utf8(t).len() >= k ==> is_char_boundary(encode_utf8(t), k)
}

/// The inputs on which the comment test returns: the case-insensitive prefix
/// tests compare the first 4, 8 and 9 bytes, which must not end inside a
/// character.
pub open spec fn comment_test_defined(line: Seq<char>) -> bool {
    let t = trim_start(line);
    plain_comment(t) || (cut_ok(t, 4) && (starts_ci(t, stk_prefix()) || (cut_ok(t, 8) && (
    starts_ci(t, scenario_prefix()) || cut_ok(t, 9)))))
}

fn starts_ignore_ascii(value: &[char], prefix: &[char]) -> (r: bool)
    ensures
        r == starts_ci(value@, prefix@),
{
    if value.len() < prefix.len() {
        return false;
    }
    let mut i: usize = 0;
    while i < prefix.len()
        invariant
            i <= prefix.len() <= value.len(),
            forall|k: int| 0 <= k < i ==> lower(#[trigger] value@[k]) == prefix@[k],
        decreases prefix.len() - i,
    {
        if to_lower(value[i]) != prefix[i] {
            return false;
        }
        i += 1;
    }
    true
}

pub(crate) fn is_comment_chars(line: &[char]) -> (r: bool)
    ensures
        r == is_comment(line@),
{
    let t = trim_start_chars(line);
    if t.len() == 0 {
        return true;
    }
    let c = t[0];
    if c == '#' || c == '%' || c == '!' {
        return true;
    }
    let slashes = ['/', '/'];
    let begin = ['B', 'E', 'G', 'I', 'N'];
    let end = ['E', 'N', 'D'];
    assert(slashes@ == seq!['/', '/']);
    assert(begin@ == seq!['B', 'E', 'G', 'I', 'N']);
    assert(end@ == seq!['E', 'N', 'D']);
    if starts_with_chars(&t, &slashes) {
        return true;
    }
    if c == ';' && !contains_char(&t, ',') {
        return true;
    }
    if starts_with_chars(&t, &begin) || starts_with_chars(&t, &end) {
        return true;
    }
    let stk = ['s', 't', 'k', '.'];
    let scenario = ['s', 'c', 'e', 'n', 'a', 'r', 'i', 'o'];
    let ephemeris = ['e', 'p', 'h', 'e', 'm', 'e', 'r', 'i', 's'];
    assert(stk@ == stk_prefix());
    assert(scenario@ == scenario_prefix());
    assert(ephemeris@ == ephemeris_prefix());
    starts_ignore_ascii(&t, &stk) || starts_ignore_ascii(&t, &scenario) || starts_ignore_ascii(
        &t,
        &ephemeris,
    )
}

fn plain_comment_chars(t: &[char]) -> (r: bool)
    ensures
        r == plain_comment(t@),
{
    if t.len() == 0 {
        return true;
    }
    let c = t[0];
    let slashes = ['/', '/'];
    let begin = ['B', 'E', 'G', 'I', 'N'];
    let end = ['E', 'N', 'D'];
    assert(slashes@ == seq!['/', '/']);
    assert(begin@ == seq!['B', 'E', 'G', 'I', 'N']);
    assert(end@ == seq!['E', 'N', 'D']);
    c == '#' || c == '%' || c == '!' || starts_with_chars(t, &slashes) || (c == ';'
        && !contains_char(t, ',')) || starts_with_chars(t, &begin) || starts_with_chars(t, &end)
}

fn cut_ok_chars(t: &[char], k: usize) -> (r: bool)
    ensures
        r == cut_ok(t@, k as int),
{
    let s = string_of(t);
    !crate::text::byte_len_at_least(t, k) || s.as_str().is_char_boundary(k)
}

/// Whether the comment test can be run on `line` (see `comment_test_defined`).
pub fn comment_test_ok(line: &[char]) -> (r: bool)
    ensures
        r == comment_test_defined(line@),
{
    let t = trim_start_chars(line);
    let stk = ['s', 't', 'k', '.'];
    let scenario = ['s', 'c', 'e', 'n', 'a', 'r', 'i', 'o'];
    assert(stk@ == stk_prefix());
    assert(scenario@ == scenario_prefix());
    plain_comment_chars(&t) || (cut_ok_chars(&t, 4) && (starts_ignore_ascii(&t, &stk) || (
    cut_ok_chars(&t, 8) && (starts_ignore_ascii(&t, &scenario) || cut_ok_chars(&t, 9)))))
}

/// Whether a line is a comment, a blank line or an STK-style banner
/// (`#`, `%`, `!`, `//`, `;` without a comma, `BEGIN`, `END`, and
/// case-insensitive `stk.`, `scenario`, `ephemeris`).
pub fn is_comment_line(line: &str) -> (r: bool)
    requires
        comment_test_defined(line@),
    ensures
        r == is_comment(line@),
{
    let cs = chars_of(line);
    is_comment_chars(&cs)
}

// ---------------------------------------------------------------------
// Numeric fields, header rows, column names
// ---------------------------------------------------------------------

/// A field the number parser accepts: trimmed, then stripped of quotes.
pub open spec fn is_numeric(v: Seq<char>) -> bool {
    let t = trim_pat(trim(v), Pat::Quotes);
    t.len() > 0 && is_f64_literal(t)
}

pub fn is_numeric_field(v: &[char]) -> (r: bool)
    ensures
        r == is_numeric(v@),
{
    let t = trim_chars(v);
    let u = trim_chars_pat(&t, Pat::Quotes);
    u.len() > 0 && parses_as_f64(&u)
}

/// Number of non-empty, non-numeric cells.
pub open spec fn count_text_cells(row: Seq<Seq<char>>) -> nat
    decreases row.len(),
{
    if row.len() == 0 {
        0
    } else {
        count_text_cells(row.drop_last()) + if !is_numeric(row.last()) && row.last().len() > 0 {
            1nat
        } else {
            0nat
        }
    }
}

/// A header row: non-empty, and at least half its cells are non-empty text.
pub open spec fn header_row(row: Seq<Seq<char>>) -> bool {
    row.len() > 0 && count_text_cells(row) * 2 >= row.len()
}

pub proof fn lemma_count_text_cells_le(row: Seq<Seq<char>>)
    ensures
        count_text_cells(row) <= row.len(),
    decreases row.len(),
{
    if row.len() > 0 {
        lemma_count_text_cells_le(row.drop_last());
    }
}

pub fn row_is_header_chars(row: &Vec<Vec<char>>) -> (r: bool)
    ensures
        r == header_row(views(row@)),
{
    if row.len() == 0 {
        return false;
    }
    let mut n: usize = 0;
    let mut i: usize = 0;
    while i < row.len()
        invariant
            i <= row@.len(),
            n == count_text_cells(views(row@).take(i as int)),
            n <= i,
        decreases row@.len() - i,
    {
        assert(views(row@).take(i + 1).drop_last() =~= views(row@).take(i as int));
        if !is_numeric_field(&row[i]) && row[i].len() > 0 {
            n += 1;
        }
        i += 1;
    }
    assert(views(row@).take(row@.len() as int) =~= views(row@));
    n >= row.len() - n
}

/// Whether a row reads as a header: at least half of its cells are non-empty
/// and not numbers.
pub fn row_is_header(row: &[String]) -> (r: bool)
    ensures
        r == header_row(str_views(row@)),
{
    let cs = crate::text::chars_of_all(row);
    row_is_header_chars(&cs)
}

/// Column-name normalisation: trimmed, quotes stripped, ASCII letters and
/// digits lower-cased, every other character `_`, outer `_` stripped.
pub open spec fn norm_char(c: char) -> char {
    if is_alnum(c) {
        lower(c)
    } else {
        '_'
    }
}

pub open spec fn map_norm(s: Seq<char>) -> Seq<char> {
    Seq::new(s.len(), |i: int| norm_char(s[i]))
}

pub open spec fn normalized_name(name: Seq<char>) -> Seq<char> {
    trim_pat(map_norm(trim_pat(trim(name), Pat::Quotes)), Pat::Underscore)
}

pub fn map_norm_chars(s: &[char]) -> (r: Vec<char>)
    ensures
        r@ == map_norm(s@),
{
    let mut r: Vec<char> = Vec::new();
    let mut i: usize = 0;
    while i < s.len()
        invariant
            i <= s.len(),
            r@.len() == i,
            forall|k: int| 0 <= k < i ==> r@[k] == norm_char(s@[k]),
        decreases s.len() - i,
    {
        let c = s[i];
        r.push(if is_ascii_alnum(c) { to_lower(c) } else { '_' });
        i += 1;
    }
    assert(r@ =~= map_norm(s@));
    r
}

fn normalize_name(name: &[char]) -> (r: Vec<char>)
    ensures
        r@ == normalized_name(name@),
{
    let t = trim_chars(name);
    let u = trim_chars_pat(&t, Pat::Quotes);
    let m = map_norm_chars(&u);
    trim_chars_pat(&m, Pat::Underscore)
}

pub open spec fn time_names() -> Seq<Seq<char>> {
    seq![
        "t"@, "time"@, "epoch"@, "utc"@, "gps"@, "gpst"@, "met"@, "sow"@, "datetime"@,
        "timestamp"@, "utc_time"@, "gps_time"@, "time_utc"@, "time_s"@, "seconds"@, "sec"@,
        "elapsed"@,
    ]
}

pub open spec fn lat_names() -> Seq<Seq<char>> {
    seq!["lat"@, "latitude"@, "geodetic_lat"@, "geodetic_latitude"@, "lat_deg"@, "latd"@]
}

pub open spec fn lon_names() -> Seq<Seq<char>> {
    seq![
        "lon"@, "long"@, "lng"@, "longitude"@, "geodetic_lon"@, "geodetic_longitude"@,
        "lon_deg"@, "lond"@,
    ]
}

pub open spec fn alt_names() -> Seq<Seq<char>> {
    seq![
        "alt"@, "altitude"@, "height"@, "hae"@, "msl"@, "elev"@, "elevation"@, "ht"@, "alt_m"@,
        "height_m"@, "alt_km"@,
    ]
}

pub open spec fn x_names() -> Seq<Seq<char>> {
    seq!["x"@, "x_ecef"@, "ecef_x"@, "eci_x"@, "pos_x"@, "x_m"@, "x_km"@]
}

pub open spec fn y_names() -> Seq<Seq<char>> {
    seq!["y"@, "y_ecef"@, "ecef_y"@, "eci_y"@, "pos_y"@, "y_m"@, "y_km"@]
}

pub open spec fn z_names() -> Seq<Seq<char>> {
    seq!["z"@, "z_ecef"@, "ecef_z"@, "eci_z"@, "pos_z"@, "z_m"@, "z_km"@]
}

/// Role a header name announces, by its normalised form.
pub open spec fn role_of_name(name: Seq<char>) -> Option<ColumnRole> {
    let n = normalized_name(name);
    if time_names().contains(n) {
        Some(ColumnRole::Time)
    } else if lat_names().contains(n) {
        Some(ColumnRole::Lat)
    } else if lon_names().contains(n) {
        Some(ColumnRole::Lon)
    } else if alt_names().contains(n) {
        Some(ColumnRole::Alt)
    } else if x_names().contains(n) {
        Some(ColumnRole::X)
    } else if y_names().contains(n) {
        Some(ColumnRole::Y)
    } else if z_names().contains(n) {
        Some(ColumnRole::Z)
    } else {
        None
    }
}

fn in_names(n: &[char], names: &[&str]) -> (r: bool)
    ensures
        r == Seq::new(names@.len(), |i: int| names@[i]@).contains(n@),
{
    let ghost spec_names = Seq::new(names@.len(), |i: int| names@[i]@);
    let mut i: usize = 0;
    while i < names.len()
        invariant
            i <= names@.len(),
            spec_names == Seq::new(names@.len(), |i: int| names@[i]@),
            forall|k: int| 0 <= k < i ==> spec_names[k] != n@,
        decreases names@.len() - i,
    {
        let candidate = chars_of(names[i]);
        if eq_chars(&candidate, n) {
            assert(spec_names[i as int] == n@);
            return true;
        }
        i += 1;
    }
    false
}

fn role_from_name(name: &[char]) -> (r: Option<ColumnRole>)
    ensures
        r == role_of_name(name@),
{
    let n = normalize_name(name);
    let time: [&str; 17] = [
        "t", "time", "epoch", "utc", "gps", "gpst", "met", "sow", "datetime", "timestamp",
        "utc_time", "gps_time", "time_utc", "time_s", "seconds", "sec", "elapsed",
    ];
    let lat: [&str; 6] = ["lat", "latitude", "geodetic_lat", "geodetic_latitude", "lat_deg", "latd"];
    let lon: [&str; 8] = [
        "lon", "long", "lng", "longitude", "geodetic_lon", "geodetic_longitude", "lon_deg", "lond",
    ];
    let alt: [&str; 11] = [
        "alt", "altitude", "height", "hae", "msl", "elev", "elevation", "ht", "alt_m", "height_m",
        "alt_km",
    ];
    let x: [&str; 7] = ["x", "x_ecef", "ecef_x", "eci_x", "pos_x", "x_m", "x_km"];
    let y: [&str; 7] = ["y", "y_ecef", "ecef_y", "eci_y", "pos_y", "y_m", "y_km"];
    let z: [&str; 7] = ["z", "z_ecef", "ecef_z", "eci_z", "pos_z", "z_m", "z_km"];
    assert(Seq::new(time@.len(), |i: int| time@[i]@) =~= time_names());
    assert(Seq::new(lat@.len(), |i: int| lat@[i]@) =~= lat_names());
    assert(Seq::new(lon@.len(), |i: int| lon@[i]@) =~= lon_names());
    assert(Seq::new(alt@.len(), |i: int| alt@[i]@) =~= alt_names());
    assert(Seq::new(x@.len(), |i: int| x@[i]@) =~= x_names());
    assert(Seq::new(y@.len(), |i: int| y@[i]@) =~= y_names());
    assert(Seq::new(z@.len(), |i: int| z@[i]@) =~= z_names());
    if in_names(&n, &time) {
        Some(ColumnRole::Time)
    } else if in_names(&n, &lat) {
        Some(ColumnRole::Lat)
    } else if in_names(&n, &lon) {
        Some(ColumnRole::Lon)
    } else if in_names(&n, &alt) {
        Some(ColumnRole::Alt)
    } else if in_names(&n, &x) {
        Some(ColumnRole::X)
    } else if in_names(&n, &y) {
        Some(ColumnRole::Y)
    } else if in_names(&n, &z) {
        Some(ColumnRole::Z)
    } else {
        None
    }
}

/// Role a header name announces (`lat`, `Longitude`, `"ECEF-X"`, ...), if any.
pub fn role_from_header(name: &str) -> (r: Option<ColumnRole>)
    ensures
        r == role_of_name(name@),
{
    let cs = chars_of(name);
    role_from_name(&cs)
}

// ---------------------------------------------------------------------
// Most common width
// ---------------------------------------------------------------------

/// How many entries of `ws` equal `w`.
pub open spec fn count_w(ws: Seq<usize>, w: usize) -> nat
    decreases ws.len(),
{
    if ws.len() == 0 {
        0
    } else {
        count_w(ws.drop_last(), w) + if ws.last() == w {
            1nat
        } else {
            0nat
        }
    }
}

/// Among the widths `0..n`, the last one with the highest count.
pub open spec fn mcw_upto(ws: Seq<usize>, n: nat) -> usize
    decreases n,
{
    if n <= 1 {
        0
    } else {
        let b = mcw_upto(ws, (n - 1) as nat);
        if count_w(ws, (n - 1) as usize) >= count_w(ws, b) {
            (n - 1) as usize
        } else {
            b
        }
    }
}

/// Most common width below 64 (ties go to the larger width).
pub open spec fn mcw(ws: Seq<usize>) -> usize {
    mcw_upto(ws, 64)
}

pub proof fn lemma_count_w_le(ws: Seq<usize>, w: usize)
    ensures
        count_w(ws, w) <= ws.len(),
    decreases ws.len(),
{
    if ws.len() > 0 {
        lemma_count_w_le(ws.drop_last(), w);
    }
}

proof fn lemma_mcw_upto(ws: Seq<usize>, n: nat)
    requires
        1 <= n <= 64,
    ensures
        mcw_upto(ws, n) < n,
        forall|w: usize| w < n ==> #[trigger] count_w(ws, w) <= count_w(ws, mcw_upto(ws, n)),
        forall|w: usize|
            mcw_upto(ws, n) < w < n ==> #[trigger] count_w(ws, w) < count_w(ws, mcw_upto(ws, n)),
    decreases n,
{
    if n > 1 {
        lemma_mcw_upto(ws, (n - 1) as nat);
        let b = mcw_upto(ws, (n - 1) as nat);
        let top = (n - 1) as usize;
        assert forall|w: usize| mcw_upto(ws, n) < w < n implies #[trigger] count_w(ws, w)
            < count_w(ws, mcw_upto(ws, n)) by {
            if w == top {
                assert(mcw_upto(ws, n) == b);
            }
        }
    }
}

/// The most common width below 64 is the largest of those with the highest
/// count.
pub proof fn law_most_common_width(ws: Seq<usize>)
    ensures
        mcw(ws) < 64,
        forall|w: usize| w < 64 ==> #[trigger] count_w(ws, w) <= count_w(ws, mcw(ws)),
        forall|w: usize| mcw(ws) < w < 64 ==> #[trigger] count_w(ws, w) < count_w(ws, mcw(ws)),
{
    lemma_mcw_upto(ws, 64);
}

fn count_equal(ws: &[usize], w: usize) -> (r: usize)
    ensures
        r == count_w(ws@, w),
{
    let mut n: usize = 0;
    let mut i: usize = 0;
    while i < ws.len()
        invariant
            i <= ws.len(),
            n == count_w(ws@.take(i as int), w),
            n <= i,
        decreases ws.len() - i,
    {
        assert(ws@.take(i + 1).drop_last() =~= ws@.take(i as int));
        if ws[i] == w {
            n += 1;
        }
        i += 1;
    }
    assert(ws@.take(ws.len() as int) =~= ws@);
    n
}

fn most_common_width_usize(widths: &[usize]) -> (r: usize)
    ensures
        r == mcw(widths@),
{
    let mut counts: Vec<usize> = Vec::new();
    let mut w: usize = 0;
    while w < 64
        invariant
            w <= 64,
            counts@.len() == w,
            forall|k: int| 0 <= k < w ==> counts@[k] == count_w(widths@, k as usize),
        decreases 64 - w,
    {
        counts.push(count_equal(widths, w));
        w += 1;
    }
    let mut best: usize = 0;
    let mut v: usize = 1;
    while v < 64
        invariant
            1 <= v <= 64,
            counts@.len() == 64,
            forall|k: int| 0 <= k < 64 ==> counts@[k] == count_w(widths@, k as usize),
            best == mcw_upto(widths@, v as nat),
            best < v,
        decreases 64 - v,
    {
        if counts[v] >= counts[best] {
            best = v;
        }
        v += 1;
    }
    best
}

pub open spec fn row_widths(rows: Seq<Seq<Seq<char>>>) -> Seq<usize> {
    Seq::new(rows.len(), |i: int| rows[i].len() as usize)
}

// ---------------------------------------------------------------------
// Delimiter detection
// ---------------------------------------------------------------------

pub open spec fn widths_of(d: Delimiter, lines: Seq<Seq<char>>) -> Seq<usize> {
    Seq::new(lines.len(), |i: int| delim_split(d, lines[i]).len() as usize)
}

pub open spec fn bonus(d: Delimiter) -> int {
    match d {
        Delimiter::Tab => 3,
        Delimiter::Comma => 2,
        Delimiter::Semicolon => 1,
        Delimiter::Pipe => 1,
        Delimiter::Whitespace => 0,
    }
}

/// Score of a delimiter on sample lines: ten per line of the most common
/// width, plus that width, plus a small preference; none below two columns.
pub open spec fn delim_score(d: Delimiter, lines: Seq<Seq<char>>) -> Option<int> {
    let ws = widths_of(d, lines);
    let w = mcw(ws);
    if w < 2 {
        None
    } else {
        Some(count_w(ws, w) * 10 + w + bonus(d))
    }
}

pub open spec fn pick(
    best: Option<(Delimiter, int)>,
    d: Delimiter,
    lines: Seq<Seq<char>>,
) -> Option<(Delimiter, int)> {
    match delim_score(d, lines) {
        None => best,
        Some(s) => match best {
            None => Some((d, s)),
            Some(b) => if s > b.1 {
                Some((d, s))
            } else {
                best
            },
        },
    }
}

/// Tab, comma, semicolon, pipe, white space in turn; a later one wins only
/// with a strictly higher score.
pub open spec fn best_delimiter(lines: Seq<Seq<char>>) -> Option<Delimiter> {
    let b = pick(
        pick(
            pick(pick(pick(None, Delimiter::Tab, lines), Delimiter::Comma, lines), Delimiter::Semicolon, lines),
            Delimiter::Pipe,
            lines,
        ),
        Delimiter::Whitespace,
        lines,
    );
    match b {
        Some(p) => Some(p.0),
        None => None,
    }
}

proof fn lemma_count_all(ws: Seq<usize>, k: usize)
    requires
        forall|i: int| 0 <= i < ws.len() ==> ws[i] == k,
    ensures
        count_w(ws, k) == ws.len(),
    decreases ws.len(),
{
    if ws.len() > 0 {
        lemma_count_all(ws.drop_last(), k);
    }
}

proof fn lemma_count_occurs(ws: Seq<usize>, w: usize)
    requires
        count_w(ws, w) > 0,
    ensures
        exists|i: int| 0 <= i < ws.len() && ws[i] == w,
    decreases ws.len(),
{
    if ws.last() != w {
        lemma_count_occurs(ws.drop_last(), w);
        let i = choose|i: int| 0 <= i < ws.drop_last().len() && ws.drop_last()[i] == w;
        assert(ws[i] == w);
    } else {
        assert(ws[ws.len() - 1] == w);
    }
}

proof fn lemma_count_self(ws: Seq<usize>, i: int)
    requires
        0 <= i < ws.len(),
    ensures
        count_w(ws, ws[i]) >= 1,
    decreases ws.len(),
{
    if i < ws.len() - 1 {
        lemma_count_self(ws.drop_last(), i);
    }
}

/// With at least one line and every width at most `k < 64`, the most
/// common width occurs, so it is at most `k`.
proof fn lemma_mcw_at_most(ws: Seq<usize>, k: usize)
    requires
        ws.len() > 0,
        k < 64,
        forall|i: int| 0 <= i < ws.len() ==> ws[i] <= k,
    ensures
        mcw(ws) <= k,
        count_w(ws, mcw(ws)) <= ws.len(),
        (forall|i: int| 0 <= i < ws.len() ==> ws[i] == k) ==> mcw(ws) == k && count_w(ws, k) == ws.len(),
{
    law_most_common_width(ws);
    lemma_count_self(ws, 0);
    assert(count_w(ws, ws[0]) <= count_w(ws, mcw(ws)));
    lemma_count_occurs(ws, mcw(ws));
    lemma_count_w_le(ws, mcw(ws));
    if forall|i: int| 0 <= i < ws.len() ==> ws[i] == k {
        lemma_count_all(ws, k);
    }
}

proof fn lemma_score_at_most(d: Delimiter, lines: Seq<Seq<char>>, k: usize)
    requires
        lines.len() > 0,
        k < 64,
        forall|i: int| 0 <= i < lines.len() ==> delim_split(d, #[trigger] lines[i]).len() <= k,
    ensures
        delim_score(d, lines) matches Some(s) ==> s <= 10 * lines.len() + k + bonus(d),
        (forall|i: int| 0 <= i < lines.len() ==> delim_split(d, #[trigger] lines[i]).len() == k) ==> mcw(
            widths_of(d, lines),
        ) == k && count_w(widths_of(d, lines), k) == lines.len(),
{
    let ws = widths_of(d, lines);
    assert forall|i: int| 0 <= i < ws.len() implies ws[i] <= k by {
        assert(delim_split(d, lines[i]).len() <= k);
    }
    lemma_mcw_at_most(ws, k);
    if forall|i: int| 0 <= i < lines.len() ==> delim_split(d, #[trigger] lines[i]).len() == k {
        assert forall|i: int| 0 <= i < ws.len() implies ws[i] == k by {
            assert(delim_split(d, lines[i]).len() == k);
        }
    }
}

/// Comma-separated lines read as such: when every line splits at commas
/// into the same number `k` (2 to 63) of fields, holds no tab, and splits
/// at semicolons, pipes or white space into no more fields, the comma is
/// the delimiter (it is preferred to semicolon, pipe and white space on
/// equal counts).
pub proof fn law_comma_lines_read_as_comma(lines: Seq<Seq<char>>, k: usize)
    requires
        lines.len() > 0,
        2 <= k < 64,
        forall|i: int| 0 <= i < lines.len() ==> delim_split(Delimiter::Comma, #[trigger] lines[i]).len() == k,
        forall|i: int| 0 <= i < lines.len() ==> delim_split(Delimiter::Tab, #[trigger] lines[i]).len() == 1,
        forall|i: int| 0 <= i < lines.len() ==> delim_split(Delimiter::Semicolon, #[trigger] lines[i]).len() <= k,
        forall|i: int| 0 <= i < lines.len() ==> delim_split(Delimiter::Pipe, #[trigger] lines[i]).len() <= k,
        forall|i: int| 0 <= i < lines.len() ==> delim_split(Delimiter::Whitespace, #[trigger] lines[i]).len() <= k,
    ensures
        best_delimiter(lines) == Some(Delimiter::Comma),
{
    lemma_score_at_most(Delimiter::Tab, lines, 1);
    lemma_score_at_most(Delimiter::Comma, lines, k);
    lemma_score_at_most(Delimiter::Semicolon, lines, k);
    lemma_score_at_most(Delimiter::Pipe, lines, k);
    lemma_score_at_most(Delimiter::Whitespace, lines, k);
    assert(delim_score(Delimiter::Tab, lines) is None);
    assert(delim_score(Delimiter::Comma, lines) == Some(10 * lines.len() + k + 2));
}

fn score_of(d: Delimiter, lines: &Vec<Vec<char>>) -> (r: Option<usize>)
    requires
        lines@.len() <= 80,
    ensures
        match r {
            Some(s) => delim_score(d, views(lines@)) == Some(s as int),
            None => delim_score(d, views(lines@)) is None,
        },
{
    let mut widths: Vec<usize> = Vec::new();
    let mut i: usize = 0;
    while i < lines.len()
        invariant
            i <= lines@.len(),
            widths@.len() == i,
            forall|k: int| 0 <= k < i ==> widths@[k] == delim_split(d, lines@[k]@).len() as usize,
        decreases lines@.len() - i,
    {
        let parts = split_line(d, &lines[i]);
        widths.push(parts.len());
        i += 1;
    }
    assert(widths@ =~= widths_of(d, views(lines@)));
    let width = most_common_width_usize(&widths);
    if width < 2 {
        return None;
    }
    let matches = count_equal(&widths, width);
    proof {
        lemma_count_w_le(widths@, width);
        lemma_mcw_upto(widths@, 64);
    }
    let b: usize = match d {
        Delimiter::Tab => 3,
        Delimiter::Comma => 2,
        Delimiter::Semicolon => 1,
        Delimiter::Pipe => 1,
        Delimiter::Whitespace => 0,
    };
    Some(matches * 10 + width + b)
}

fn pick_exec(best: Option<(Delimiter, usize)>, d: Delimiter, lines: &Vec<Vec<char>>) -> (r: Option<(Delimiter, usize)>)
    requires
        lines@.len() <= 80,
    ensures
        match (r, pick(
            match best {
                Some(b) => Some((b.0, b.1 as int)),
                None => None,
            },
            d,
            views(lines@),
        )) {
            (None, None) => true,
            (Some(x), Some(y)) => x.0 == y.0 && x.1 as int == y.1,
            _ => false,
        },
{
    match score_of(d, lines) {
        None => best,
        Some(s) => match best {
            None => Some((d, s)),
            Some(b) => if s > b.1 {
                Some((d, s))
            } else {
                best
            },
        },
    }
}

fn detect_delimiter(lines: &Vec<Vec<char>>) -> (r: Option<Delimiter>)
    requires
        lines@.len() <= 80,
    ensures
        r == best_delimiter(views(lines@)),
{
    let b1 = pick_exec(None, Delimiter::Tab, lines);
    let b2 = pick_exec(b1, Delimiter::Comma, lines);
    let b3 = pick_exec(b2, Delimiter::Semicolon, lines);
    let b4 = pick_exec(b3, Delimiter::Pipe, lines);
    let b5 = pick_exec(b4, Delimiter::Whitespace, lines);
    match b5 {
        Some(p) => Some(p.0),
        None => None,
    }
}

// ---------------------------------------------------------------------
// Preview of a delimited text
// ---------------------------------------------------------------------

/// First lines of a file, split into fields, that schema detection reads.
#[derive(Debug, Clone)]
pub struct DelimitedPreview {
    pub delimiter: Delimiter,
    pub has_header: bool,
    pub names: Vec<String>,
    pub rows: Vec<Vec<String>>,
}

pub open spec fn views2(v: Seq<Vec<Vec<char>>>) -> Seq<Seq<Seq<char>>> {
    Seq::new(v.len(), |i: int| views(v[i]@))
}

pub open spec fn str_views2(v: Seq<Vec<String>>) -> Seq<Seq<Seq<char>>> {
    Seq::new(v.len(), |i: int| str_views(v[i]@))
}

/// Up to 80 lines, right-trimmed, that are not comments (lines after the
/// 80th kept one are not looked at).
pub open spec fn kept_lines(ls: Seq<Seq<char>>) -> Seq<Seq<char>>
    decreases ls.len(),
{
    if ls.len() == 0 {
        Seq::empty()
    } else {
        let prev = kept_lines(ls.drop_last());
        if prev.len() >= 80 {
            prev
        } else {
            let l = crate::text::trim_end(ls.last());
            if is_comment(l) {
                prev
            } else {
                prev.push(l)
            }
        }
    }
}

/// The comment test is defined on every line that the preview examines.
pub open spec fn lines_defined(ls: Seq<Seq<char>>) -> bool
    decreases ls.len(),
{
    if ls.len() == 0 {
        true
    } else {
        lines_defined(ls.drop_last()) && (kept_lines(ls.drop_last()).len() >= 80
            || comment_test_defined(crate::text::trim_end(ls.last())))
    }
}

pub open spec fn has_digit(l: Seq<char>) -> bool {
    exists|i: int| 0 <= i < l.len() && crate::text::is_digit(#[trigger] l[i])
}

pub open spec fn digit_lines(raw: Seq<Seq<char>>) -> Seq<Seq<char>>
    decreases raw.len(),
{
    if raw.len() == 0 {
        Seq::empty()
    } else {
        let p = digit_lines(raw.drop_last());
        if has_digit(raw.last()) {
            p.push(raw.last())
        } else {
            p
        }
    }
}

/// Rows of exactly `w` fields, in order.
pub open spec fn keep_width(rows: Seq<Seq<Seq<char>>>, w: usize) -> Seq<Seq<Seq<char>>>
    decreases rows.len(),
{
    if rows.len() == 0 {
        Seq::empty()
    } else {
        let p = keep_width(rows.drop_last(), w);
        if rows.last().len() == w {
            p.push(rows.last())
        } else {
            p
        }
    }
}

pub open spec fn col_name(i: int) -> Seq<char> {
    seq!['c', 'o', 'l', '_'] + crate::text::dec(i as nat)
}

pub open spec fn header_names(row0: Seq<Seq<char>>) -> Seq<Seq<char>> {
    Seq::new(
        row0.len(),
        |i: int|
            if row0[i].len() == 0 {
                col_name(i)
            } else {
                row0[i]
            },
    )
}

pub open spec fn default_names(w: nat) -> Seq<Seq<char>> {
    Seq::new(w, |i: int| col_name(i))
}

/// Preview of `text`: delimiter, whether the first kept row is a header,
/// column names, data rows. `None` when fewer than two lines hold digits, no
/// delimiter gives two columns, or fewer than two rows share the most common
/// width.
pub open spec fn preview_of(text: Seq<char>) -> Option<
    (Delimiter, bool, Seq<Seq<char>>, Seq<Seq<Seq<char>>>),
> {
    let raw = kept_lines(crate::text::lines(text));
    let data = digit_lines(raw);
    if data.len() < 2 {
        None
    } else {
        match best_delimiter(data) {
            None => None,
            Some(d) => {
                let first = if raw.len() > 0 && !has_digit(raw[0]) {
                    seq![raw[0]]
                } else {
                    Seq::empty()
                };
                let ls = first + data;
                let parsed = Seq::new(ls.len(), |i: int| delim_split(d, ls[i]));
                let w = mcw(row_widths(parsed));
                let kept = keep_width(parsed, w);
                if kept.len() < 2 || w < 2 {
                    None
                } else {
                    let hh = header_row(kept[0]);
                    let names = if hh {
                        header_names(kept[0])
                    } else {
                        default_names(w as nat)
                    };
                    let rows = if hh {
                        kept.drop_first()
                    } else {
                        kept
                    };
                    Some((d, hh, names, rows))
                }
            },
        }
    }
}

pub proof fn lemma_kept_lines_len(ls: Seq<Seq<char>>)
    ensures
        kept_lines(ls).len() <= 80,
    decreases ls.len(),
{
    if ls.len() > 0 {
        lemma_kept_lines_len(ls.drop_last());
    }
}

pub proof fn lemma_digit_lines_len(raw: Seq<Seq<char>>)
    ensures
        digit_lines(raw).len() <= raw.len(),
    decreases raw.len(),
{
    if raw.len() > 0 {
        lemma_digit_lines_len(raw.drop_last());
    }
}

pub proof fn lemma_keep_width(rows: Seq<Seq<Seq<char>>>, w: usize)
    ensures
        forall|i: int| 0 <= i < keep_width(rows, w).len() ==> (#[trigger] keep_width(rows, w)[i]).len() == w,
    decreases rows.len(),
{
    if rows.len() > 0 {
        lemma_keep_width(rows.drop_last(), w);
        let p = keep_width(rows.drop_last(), w);
        assert forall|i: int| 0 <= i < keep_width(rows, w).len() implies (#[trigger] keep_width(rows, w)[i]).len() == w by {
            if i < p.len() {
                assert(keep_width(rows, w)[i] == p[i]);
            }
        }
    }
}

fn has_digit_chars(l: &[char]) -> (r: bool)
    ensures
        r == has_digit(l@),
{
    let mut i: usize = 0;
    while i < l.len()
        invariant
            i <= l.len(),
            forall|k: int| 0 <= k < i ==> !crate::text::is_digit(#[trigger] l@[k]),
        decreases l.len() - i,
    {
        if crate::text::is_ascii_digit(l[i]) {
            return true;
        }
        i += 1;
    }
    false
}

fn col_name_chars(i: usize) -> (r: Vec<char>)
    ensures
        r@ == col_name(i as int),
{
    let mut v: Vec<char> = Vec::new();
    v.push('c');
    v.push('o');
    v.push('l');
    v.push('_');
    let d = crate::text::dec_chars(i as u64);
    crate::text::append_chars(&mut v, &d);
    assert(v@ =~= col_name(i as int));
    v
}

fn strings_of2(v: &Vec<Vec<Vec<char>>>) -> (r: Vec<Vec<String>>)
    ensures
        str_views2(r@) == views2(v@),
{
    let mut r: Vec<Vec<String>> = Vec::new();
    let mut i: usize = 0;
    while i < v.len()
        invariant
            i <= v@.len(),
            r@.len() == i,
            forall|k: int| 0 <= k < i ==> str_views((#[trigger] r@[k])@) == views(v@[k]@),
        decreases v@.len() - i,
    {
        r.push(strings_of(&v[i]));
        i += 1;
    }
    assert(str_views2(r@) =~= views2(v@));
    r
}

fn kept_lines_exec(all: &Vec<Vec<char>>) -> (raw: Vec<Vec<char>>)
    ensures
        views(raw@) == kept_lines(views(all@)),
{
    let mut raw: Vec<Vec<char>> = Vec::new();
    let mut i: usize = 0;
    while i < all.len()
        invariant
            i <= all@.len(),
            views(raw@) == kept_lines(views(all@).take(i as int)),
        decreases all@.len() - i,
    {
        assert(views(all@).take(i + 1).drop_last() =~= views(all@).take(i as int));
        assert(views(all@).take(i + 1).last() == all@[i as int]@);
        if raw.len() < 80 {
            let l = crate::text::trim_end_chars(&all[i]);
            if !is_comment_chars(&l) {
                let ghost before = views(raw@);
                raw.push(l);
                assert(views(raw@) =~= before.push(l@));
            }
        }
        i += 1;
    }
    assert(views(all@).take(all@.len() as int) =~= views(all@));
    raw
}

fn digit_lines_exec(raw: &Vec<Vec<char>>) -> (data: Vec<Vec<char>>)
    ensures
        views(data@) == digit_lines(views(raw@)),
{
    let mut data: Vec<Vec<char>> = Vec::new();
    let mut i: usize = 0;
    while i < raw.len()
        invariant
            i <= raw@.len(),
            views(data@) == digit_lines(views(raw@).take(i as int)),
        decreases raw@.len() - i,
    {
        assert(views(raw@).take(i + 1).drop_last() =~= views(raw@).take(i as int));
        assert(views(raw@).take(i + 1).last() == raw@[i as int]@);
        if has_digit_chars(&raw[i]) {
            let ghost before = views(data@);
            data.push(crate::text::slice_of(&raw[i], 0, raw[i].len()));
            assert(raw@[i as int]@.subrange(0, raw@[i as int]@.len() as int) =~= raw@[i as int]@);
            assert(views(data@) =~= before.push(raw@[i as int]@));
        }
        i += 1;
    }
    assert(views(raw@).take(raw@.len() as int) =~= views(raw@));
    data
}

fn copy_row(r: &Vec<Vec<char>>) -> (c: Vec<Vec<char>>)
    ensures
        views(c@) == views(r@),
{
    let mut c: Vec<Vec<char>> = Vec::new();
    let mut i: usize = 0;
    while i < r.len()
        invariant
            i <= r@.len(),
            c@.len() == i,
            forall|k: int| 0 <= k < i ==> (#[trigger] c@[k])@ == r@[k]@,
        decreases r@.len() - i,
    {
        c.push(crate::text::slice_of(&r[i], 0, r[i].len()));
        assert(r@[i as int]@.subrange(0, r@[i as int]@.len() as int) =~= r@[i as int]@);
        i += 1;
    }
    assert(views(c@) =~= views(r@));
    c
}

fn keep_width_exec(parsed: &Vec<Vec<Vec<char>>>, w: usize) -> (kept: Vec<Vec<Vec<char>>>)
    ensures
        views2(kept@) == keep_width(views2(parsed@), w),
{
    let ghost all = views2(parsed@);
    let mut kept: Vec<Vec<Vec<char>>> = Vec::new();
    let mut i: usize = 0;
    while i < parsed.len()
        invariant
            i <= parsed@.len(),
            all == views2(parsed@),
            views2(kept@) == keep_width(all.take(i as int), w),
        decreases parsed@.len() - i,
    {
        assert(all.take(i + 1).drop_last() =~= all.take(i as int));
        assert(all.take(i + 1).last() == all[i as int]);
        if parsed[i].len() == w {
            let ghost before = views2(kept@);
            kept.push(copy_row(&parsed[i]));
            assert(views2(kept@) =~= before.push(all[i as int]));
        }
        i += 1;
    }
    assert(all.take(parsed@.len() as int) =~= all);
    kept
}

/// Reads the first lines of `text` into a preview: picks the delimiter, keeps
/// the rows of the most common width, and decides whether the first is a
/// header (unnamed columns become `col_<i>`).
pub fn detect_preview(text: &str) -> (r: Option<DelimitedPreview>)
    requires
        lines_defined(crate::text::lines(text@)),
    ensures
        match r {
            None => preview_of(text@) is None,
            Some(p) => preview_of(text@) == Some(
                (p.delimiter, p.has_header, str_views(p.names@), str_views2(p.rows@)),
            ),
        },
{
    let cs = chars_of(text);
    let all = crate::text::lines_chars(&cs);
    let raw = kept_lines_exec(&all);
    let data = digit_lines_exec(&raw);
    proof {
        lemma_kept_lines_len(views(all@));
        lemma_digit_lines_len(views(raw@));
    }
    if data.len() < 2 {
        return None;
    }
    let d = match detect_delimiter(&data) {
        Some(d) => d,
        None => return None,
    };
    let ghost rawv = views(raw@);
    let ghost datav = views(data@);
    let mut ls: Vec<Vec<char>> = Vec::new();
    if raw.len() > 0 && !has_digit_chars(&raw[0]) {
        ls.push(crate::text::slice_of(&raw[0], 0, raw[0].len()));
        assert(raw@[0]@.subrange(0, raw@[0]@.len() as int) =~= raw@[0]@);
    }
    let ghost first = views(ls@);
    let mut j: usize = 0;
    while j < data.len()
        invariant
            j <= data@.len(),
            views(ls@) == first + datav.take(j as int),
            datav == views(data@),
        decreases data@.len() - j,
    {
        let ghost before = views(ls@);
        ls.push(crate::text::slice_of(&data[j], 0, data[j].len()));
        assert(data@[j as int]@.subrange(0, data@[j as int]@.len() as int) =~= data@[j as int]@);
        assert(views(ls@) =~= before.push(datav[j as int]));
        assert(datav.take(j + 1) =~= datav.take(j as int).push(datav[j as int]));
        proof { i_push_assoc(first, datav.take(j as int), datav[j as int]); }
        j += 1;
    }
    assert(datav.take(data@.len() as int) =~= datav);
    let ghost lsv = views(ls@);
    assert(first == (if rawv.len() > 0 && !has_digit(rawv[0]) {
        seq![rawv[0]]
    } else {
        Seq::<Seq<char>>::empty()
    }));
    let mut parsed: Vec<Vec<Vec<char>>> = Vec::new();
    let mut widths: Vec<usize> = Vec::new();
    let mut k: usize = 0;
    while k < ls.len()
        invariant
            k <= ls@.len(),
            lsv == views(ls@),
            parsed@.len() == k,
            widths@.len() == k,
            forall|m: int| 0 <= m < k ==> views((#[trigger] parsed@[m])@) == delim_split(d, lsv[m]),
            forall|m: int| 0 <= m < k ==> #[trigger] widths@[m] == parsed@[m]@.len(),
        decreases ls@.len() - k,
    {
        let row = split_line(d, &ls[k]);
        widths.push(row.len());
        parsed.push(row);
        k += 1;
    }
    let ghost parsed_spec = Seq::new(lsv.len(), |i: int| delim_split(d, lsv[i]));
    assert(views2(parsed@) =~= parsed_spec);
    assert(widths@ =~= row_widths(parsed_spec));
    let width = most_common_width_usize(&widths);
    let kept = keep_width_exec(&parsed, width);
    if kept.len() < 2 || width < 2 {
        return None;
    }
    proof {
        lemma_keep_width(parsed_spec, width);
    }
    let ghost keptv = views2(kept@);
    let has_header = row_is_header_chars(&kept[0]);
    let mut names: Vec<Vec<char>> = Vec::new();
    if has_header {
        let row0 = &kept[0];
        let mut c: usize = 0;
        while c < row0.len()
            invariant
                c <= row0@.len(),
                names@.len() == c,
                forall|m: int| 0 <= m < c ==> (#[trigger] names@[m])@ == header_names(views(row0@))[m],
            decreases row0@.len() - c,
        {
            if row0[c].len() == 0 {
                names.push(col_name_chars(c));
            } else {
                names.push(crate::text::slice_of(&row0[c], 0, row0[c].len()));
                assert(row0@[c as int]@.subrange(0, row0@[c as int]@.len() as int) =~= row0@[c as int]@);
            }
            c += 1;
        }
        assert(views(names@) =~= header_names(keptv[0]));
    } else {
        let mut c: usize = 0;
        while c < width
            invariant
                c <= width,
                names@.len() == c,
                forall|m: int| 0 <= m < c ==> (#[trigger] names@[m])@ == col_name(m),
            decreases width - c,
        {
            names.push(col_name_chars(c));
            c += 1;
        }
        assert(views(names@) =~= default_names(width as nat));
    }
    let rows = if has_header {
        let mut rows: Vec<Vec<Vec<char>>> = Vec::new();
        let mut m: usize = 1;
        while m < kept.len()
            invariant
                1 <= m <= kept@.len(),
                keptv == views2(kept@),
                views2(rows@) == keptv.subrange(1, m as int),
            decreases kept@.len() - m,
        {
            let ghost before = views2(rows@);
            rows.push(copy_row(&kept[m]));
            assert(views2(rows@) =~= before.push(keptv[m as int]));
            assert(keptv.subrange(1, m + 1) =~= keptv.subrange(1, m as int).push(keptv[m as int]));
            m += 1;
        }
        assert(keptv.subrange(1, keptv.len() as int) =~= keptv.drop_first());
        rows
    } else {
        kept
    };
    let names_s = strings_of(&names);
    let rows_s = strings_of2(&rows);
    Some(DelimitedPreview { delimiter: d, has_header, names: names_s, rows: rows_s })
}

proof fn i_push_assoc(a: Seq<Seq<char>>, b: Seq<Seq<char>>, x: Seq<char>)
    ensures
        (a + b).push(x) == a + b.push(x),
{
    assert((a + b).push(x) =~= a + b.push(x));
}

/// Whether every line that `detect_preview` examines can be tested for
/// being a comment (see `lines_defined`).
pub fn preview_testable(text: &str) -> (r: bool)
    ensures
        r == lines_defined(crate::text::lines(text@)),
{
    let cs = chars_of(text);
    let all = crate::text::lines_chars(&cs);
    let ghost ls = views(all@);
    let mut kept: usize = 0;
    let mut i: usize = 0;
    while i < all.len()
        invariant
            i <= all@.len(),
            ls == views(all@),
            ls == crate::text::lines(text@),
            kept as int == kept_lines(ls.take(i as int)).len(),
            lines_defined(ls.take(i as int)),
        decreases all@.len() - i,
    {
        assert(ls.take(i + 1).drop_last() =~= ls.take(i as int));
        assert(ls.take(i + 1).last() == all@[i as int]@);
        proof {
            lemma_kept_lines_len(ls.take(i as int));
        }
        if kept < 80 {
            let l = crate::text::trim_end_chars(&all[i]);
            if !comment_test_ok(&l) {
                assert(!lines_defined(ls.take(i + 1)));
                proof {
                    lemma_lines_defined_prefix(ls, i + 1);
                }
                assert(ls.take(ls.len() as int) =~= ls);
                return false;
            }
            if !is_comment_chars(&l) {
                kept = kept + 1;
            }
        }
        i += 1;
    }
    assert(ls.take(all@.len() as int) =~= ls);
    true
}

proof fn lemma_lines_defined_prefix(ls: Seq<Seq<char>>, n: int)
    requires
        0 <= n <= ls.len(),
        !lines_defined(ls.take(n)),
    ensures
        !lines_defined(ls),
    decreases ls.len() - n,
{
    if n < ls.len() {
        assert(ls.take(n + 1).drop_last() =~= ls.take(n));
        lemma_lines_defined_prefix(ls, n + 1);
    } else {
        assert(ls.take(n) =~= ls);
    }
}

// ---------------------------------------------------------------------
// Date-time fields
// ---------------------------------------------------------------------

/// A field that reads as a calendar date-time: at least 8 bytes with `-` and
/// `T` or `:`, or with both `/` and `:` (after trimming).
pub open spec fn datetime_like(v: Seq<char>) -> bool {
    let t = trim(v);
    (encode_utf8(t).len() >= 8 && t.contains('-') && (t.contains('T') || t.contains(':'))) || (
    t.contains('/') && t.contains(':'))
}

/// Whether a field reads as a calendar date-time.
pub fn looks_like_datetime(value: &str) -> (r: bool)
    ensures
        r == datetime_like(value@),
{
    let cs = chars_of(value);
    let t = trim_chars(&cs);
    (crate::text::byte_len_at_least(&t, 8) && contains_char(&t, '-') && (contains_char(&t, 'T')
        || contains_char(&t, ':'))) || (contains_char(&t, '/') && contains_char(&t, ':'))
}

/// How many of the fields read as calendar date-times.
pub open spec fn datetime_count(values: Seq<Seq<char>>) -> nat
    decreases values.len(),
{
    if values.len() == 0 {
        0
    } else {
        datetime_count(values.drop_last()) + if datetime_like(values.last()) {
            1nat
        } else {
            0nat
        }
    }
}

/// Whether a column's sampled fields make it a time column by their text
/// alone: there is at least one field, and at least half of them read as
/// calendar date-times.
pub fn mostly_datetimes(values: &[String]) -> (r: bool)
    ensures
        r == (values@.len() > 0 && 2 * datetime_count(crate::text::str_views(values@)) >= values@.len()),
{
    let ghost vs = crate::text::str_views(values@);
    let mut count: usize = 0;
    let mut i: usize = 0;
    while i < values.len()
        invariant
            i <= values@.len(),
            vs == crate::text::str_views(values@),
            count == datetime_count(vs.take(i as int)),
            count <= i,
        decreases values@.len() - i,
    {
        let d = looks_like_datetime(values[i].as_str());
        assert(vs.take(i + 1).drop_last() =~= vs.take(i as int));
        if d {
            count += 1;
        }
        i += 1;
    }
    assert(vs.take(values@.len() as int) =~= vs);
    values.len() > 0 && count >= values.len() - count
}


// ---------------------------------------------------------------------
// Schema detection
// ---------------------------------------------------------------------

/// Roles that the header names announce, `Other` where a name says nothing.
pub open spec fn name_roles(names: Seq<Seq<char>>) -> Seq<ColumnRole> {
    Seq::new(
        names.len(),
        |i: int|
            match role_of_name(names[i]) {
                Some(r) => r,
                None => ColumnRole::Other,
            },
    )
}

/// Whether some header name announces a role.
pub open spec fn any_named(names: Seq<Seq<char>>) -> bool {
    exists|i: int| 0 <= i < names.len() && (#[trigger] role_of_name(names[i])) is Some
}

/// First column at or after `i` whose role is `r`.
pub open spec fn first_index(rs: Seq<ColumnRole>, r: ColumnRole, i: int) -> Option<usize>
    decreases rs.len() - i,
{
    if i < 0 || i >= rs.len() {
        None
    } else if rs[i] == r {
        Some(i as usize)
    } else {
        first_index(rs, r, i + 1)
    }
}

/// The guesses that value-based inference hands in name columns of the file.
pub open spec fn guesses_fit(
    w: nat,
    time_guess: Option<usize>,
    ecef_guess: Option<(usize, usize, usize)>,
    lla_guess: Option<(usize, usize, Option<usize>)>,
) -> bool {
    &&& (time_guess matches Some(t) ==> t < w)
    &&& (ecef_guess matches Some(e) ==> e.0 < w && e.1 < w && e.2 < w)
    &&& (lla_guess matches Some(l) ==> l.0 < w && l.1 < w && (l.2 matches Some(a) ==> a < w))
}

/// Roles after the names and, where no name says so, the time guess.
pub open spec fn roles_with_time(names: Seq<Seq<char>>, time_guess: Option<usize>) -> Seq<ColumnRole> {
    let roles0 = name_roles(names);
    if first_index(roles0, ColumnRole::Time, 0) is None && time_guess is Some {
        roles0.update(time_guess.unwrap() as int, ColumnRole::Time)
    } else {
        roles0
    }
}

/// Whether the names alone give latitude and longitude.
pub open spec fn named_lla(names: Seq<Seq<char>>) -> bool {
    let roles0 = name_roles(names);
    first_index(roles0, ColumnRole::Lat, 0) is Some && first_index(roles0, ColumnRole::Lon, 0) is Some
}

/// Whether the names alone give all three ECEF axes.
pub open spec fn named_ecef(names: Seq<Seq<char>>) -> bool {
    let roles0 = name_roles(names);
    &&& first_index(roles0, ColumnRole::X, 0) is Some
    &&& first_index(roles0, ColumnRole::Y, 0) is Some
    &&& first_index(roles0, ColumnRole::Z, 0) is Some
}

/// The ECEF guess is taken: no position frame is named and there is one.
pub open spec fn takes_ecef(names: Seq<Seq<char>>, ecef_guess: Option<(usize, usize, usize)>) -> bool {
    !named_lla(names) && !named_ecef(names) && ecef_guess is Some
}

/// The LLA guess is taken: no position frame is named, no ECEF guess, and
/// there is one.
pub open spec fn takes_lla(
    names: Seq<Seq<char>>,
    ecef_guess: Option<(usize, usize, usize)>,
    lla_guess: Option<(usize, usize, Option<usize>)>,
) -> bool {
    !named_lla(names) && !named_ecef(names) && ecef_guess is None && lla_guess is Some
}

/// Final column roles.
pub open spec fn detected_roles(
    names: Seq<Seq<char>>,
    time_guess: Option<usize>,
    ecef_guess: Option<(usize, usize, usize)>,
    lla_guess: Option<(usize, usize, Option<usize>)>,
) -> Seq<ColumnRole> {
    let roles1 = roles_with_time(names, time_guess);
    if takes_ecef(names, ecef_guess) {
        let e = ecef_guess.unwrap();
        roles1.update(e.0 as int, ColumnRole::X).update(e.1 as int, ColumnRole::Y).update(
            e.2 as int,
            ColumnRole::Z,
        )
    } else if takes_lla(names, ecef_guess, lla_guess) {
        let l = lla_guess.unwrap();
        let r = roles1.update(l.0 as int, ColumnRole::Lat).update(l.1 as int, ColumnRole::Lon);
        match l.2 {
            Some(a) => r.update(a as int, ColumnRole::Alt),
            None => r,
        }
    } else {
        roles1
    }
}

/// Final column choice.
pub open spec fn detected_mapping(
    names: Seq<Seq<char>>,
    time_guess: Option<usize>,
    ecef_guess: Option<(usize, usize, usize)>,
    lla_guess: Option<(usize, usize, Option<usize>)>,
) -> ColumnMapping {
    let roles0 = name_roles(names);
    let named_time = first_index(roles0, ColumnRole::Time, 0);
    let m0 = ColumnMapping {
        time_col: if named_time is Some {
            named_time
        } else {
            time_guess
        },
        lat_col: first_index(roles0, ColumnRole::Lat, 0),
        lon_col: first_index(roles0, ColumnRole::Lon, 0),
        alt_col: first_index(roles0, ColumnRole::Alt, 0),
        x_col: first_index(roles0, ColumnRole::X, 0),
        y_col: first_index(roles0, ColumnRole::Y, 0),
        z_col: first_index(roles0, ColumnRole::Z, 0),
    };
    if takes_ecef(names, ecef_guess) {
        let e = ecef_guess.unwrap();
        ColumnMapping { x_col: Some(e.0), y_col: Some(e.1), z_col: Some(e.2), ..m0 }
    } else if takes_lla(names, ecef_guess, lla_guess) {
        let l = lla_guess.unwrap();
        ColumnMapping { lat_col: Some(l.0), lon_col: Some(l.1), alt_col: l.2, ..m0 }
    } else {
        m0
    }
}

/// Confidence in hundredths: 35 with no hint, 86 once a name announces a
/// role, 90 when a position frame is named, at least 78 or 74 when the ECEF
/// or LLA guess is taken.
pub open spec fn detected_confidence(
    names: Seq<Seq<char>>,
    ecef_guess: Option<(usize, usize, usize)>,
    lla_guess: Option<(usize, usize, Option<usize>)>,
) -> u32 {
    let base: u32 = if any_named(names) {
        86
    } else {
        35
    };
    if named_lla(names) || named_ecef(names) {
        90
    } else if takes_ecef(names, ecef_guess) {
        if base > 78 {
            base
        } else {
            78
        }
    } else if takes_lla(names, ecef_guess, lla_guess) {
        if base > 74 {
            base
        } else {
            74
        }
    } else {
        base
    }
}

/// ECEF when all three axes are known and the names do not give latitude
/// and longitude; LLA otherwise.
pub open spec fn detected_frame(m: ColumnMapping, names: Seq<Seq<char>>) -> Frame {
    if m.x_col is Some && m.y_col is Some && m.z_col is Some && !named_lla(names) {
        Frame::Ecef
    } else {
        Frame::Lla
    }
}

/// `s` is the schema detected for `p` with the given value-based guesses.
pub open spec fn schema_detected(
    p: DelimitedPreview,
    time_guess: Option<usize>,
    ecef_guess: Option<(usize, usize, usize)>,
    lla_guess: Option<(usize, usize, Option<usize>)>,
    s: DetectedSchema,
) -> bool {
    let names = str_views(p.names@);
    let roles = detected_roles(names, time_guess, ecef_guess, lla_guess);
    let m = detected_mapping(names, time_guess, ecef_guess, lla_guess);
    &&& s.delimiter@ == label(p.delimiter)
    &&& s.has_header == p.has_header
    &&& mapping_of(s) == m
    &&& s.frame == detected_frame(m, names)
    &&& s.confidence == detected_confidence(names, ecef_guess, lla_guess)
    &&& s.columns@.len() == names.len()
    &&& forall|i: int|
        0 <= i < names.len() ==> {
            &&& (#[trigger] s.columns@[i]).index == i
            &&& s.columns@[i].name@ == names[i]
            &&& s.columns@[i].role == roles[i]
        }
}

fn position_of(roles: &Vec<ColumnRole>, r: ColumnRole) -> (p: Option<usize>)
    ensures
        p == first_index(roles@, r, 0),
{
    let mut i: usize = 0;
    while i < roles.len()
        invariant
            i <= roles@.len(),
            first_index(roles@, r, i as int) == first_index(roles@, r, 0),
        decreases roles@.len() - i,
    {
        if roles[i] == r {
            return Some(i);
        }
        i += 1;
    }
    None
}

/// The first column whose header names the time, if any.
pub fn named_time_column(names: &[String]) -> (r: Option<usize>)
    ensures
        r == first_index(name_roles(str_views(names@)), ColumnRole::Time, 0),
{
    let ghost roles = name_roles(str_views(names@));
    let mut i: usize = 0;
    while i < names.len()
        invariant
            i <= names@.len(),
            roles == name_roles(str_views(names@)),
            first_index(roles, ColumnRole::Time, i as int) == first_index(roles, ColumnRole::Time, 0),
        decreases names@.len() - i,
    {
        let role = role_from_header(names[i].as_str());
        assert(roles[i as int] == match role_of_name(names@[i as int]@) {
            Some(r) => r,
            None => ColumnRole::Other,
        });
        if role == Some(ColumnRole::Time) {
            return Some(i);
        }
        i += 1;
    }
    None
}

/// Schema of a preview: roles from the header names first; where no name
/// gives the time column, `time_guess`; where the names give neither
/// latitude/longitude nor all ECEF axes, `ecef_guess`, else `lla_guess`.
/// The guesses come from the column values (see the crate's callers).
pub fn detect_schema(
    preview: &DelimitedPreview,
    time_guess: Option<usize>,
    ecef_guess: Option<(usize, usize, usize)>,
    lla_guess: Option<(usize, usize, Option<usize>)>,
) -> (s: DetectedSchema)
    requires
        guesses_fit(preview.names@.len(), time_guess, ecef_guess, lla_guess),
    ensures
        schema_detected(*preview, time_guess, ecef_guess, lla_guess, s),
{
    let ghost names = str_views(preview.names@);
    let width = preview.names.len();
    let mut roles: Vec<ColumnRole> = Vec::new();
    let mut named = false;
    let mut i: usize = 0;
    while i < width
        invariant
            i <= width,
            width == preview.names@.len(),
            names == str_views(preview.names@),
            roles@ == name_roles(names).take(i as int),
            named == exists|k: int| 0 <= k < i && (#[trigger] role_of_name(names[k])) is Some,
        decreases width - i,
    {
        let role = role_from_header(preview.names[i].as_str());
        assert(names[i as int] == preview.names@[i as int]@);
        match role {
            Some(r) => {
                roles.push(r);
                named = true;
            },
            None => {
                roles.push(ColumnRole::Other);
            },
        }
        assert(roles@ =~= name_roles(names).take(i + 1));
        i += 1;
    }
    assert(roles@ =~= name_roles(names));
    let ghost roles0 = roles@;
    let named_time = position_of(&roles, ColumnRole::Time);
    let mut lat_col = position_of(&roles, ColumnRole::Lat);
    let mut lon_col = position_of(&roles, ColumnRole::Lon);
    let mut alt_col = position_of(&roles, ColumnRole::Alt);
    let mut x_col = position_of(&roles, ColumnRole::X);
    let mut y_col = position_of(&roles, ColumnRole::Y);
    let mut z_col = position_of(&roles, ColumnRole::Z);
    let mut confidence: u32 = if named {
        86
    } else {
        35
    };
    let mut time_col = named_time;
    if named_time.is_none() {
        if let Some(t) = time_guess {
            time_col = Some(t);
            roles.set(t, ColumnRole::Time);
        }
    }
    assert(roles@ == roles_with_time(names, time_guess));
    let named_ecef = x_col.is_some() && y_col.is_some() && z_col.is_some();
    let named_lla = lat_col.is_some() && lon_col.is_some();
    if !named_lla && !named_ecef {
        if let Some((x, y, z)) = ecef_guess {
            x_col = Some(x);
            y_col = Some(y);
            z_col = Some(z);
            roles.set(x, ColumnRole::X);
            roles.set(y, ColumnRole::Y);
            roles.set(z, ColumnRole::Z);
            if confidence < 78 {
                confidence = 78;
            }
        } else if let Some((lat, lon, alt)) = lla_guess {
            lat_col = Some(lat);
            lon_col = Some(lon);
            alt_col = alt;
            roles.set(lat, ColumnRole::Lat);
            roles.set(lon, ColumnRole::Lon);
            if let Some(a) = alt {
                roles.set(a, ColumnRole::Alt);
            }
            if confidence < 74 {
                confidence = 74;
            }
        }
    } else {
        confidence = 90;
    }
    let frame = if x_col.is_some() && y_col.is_some() && z_col.is_some() && !named_lla {
        Frame::Ecef
    } else {
        Frame::Lla
    };
    let ghost final_roles = roles@;
    assert(final_roles == detected_roles(names, time_guess, ecef_guess, lla_guess));
    let mut columns: Vec<ColumnInfo> = Vec::new();
    let mut j: usize = 0;
    while j < width
        invariant
            j <= width,
            width == preview.names@.len(),
            names == str_views(preview.names@),
            roles@ == final_roles,
            roles@.len() == width,
            columns@.len() == j,
            forall|k: int|
                0 <= k < j ==> {
                    &&& (#[trigger] columns@[k]).index == k
                    &&& columns@[k].name@ == names[k]
                    &&& columns@[k].role == final_roles[k]
                },
        decreases width - j,
    {
        columns.push(ColumnInfo { index: j, name: preview.names[j].clone(), role: roles[j] });
        j += 1;
    }
    let label = preview.delimiter.as_label();
    DetectedSchema {
        delimiter: String::from_str(label),
        has_header: preview.has_header,
        frame,
        confidence,
        columns,
        time_col,
        lat_col,
        lon_col,
        alt_col,
        x_col,
        y_col,
        z_col,
    }
}

/// A detected ECEF schema knows all three axes, so it is usable.
pub proof fn law_detected_ecef_is_usable(
    p: DelimitedPreview,
    time_guess: Option<usize>,
    ecef_guess: Option<(usize, usize, usize)>,
    lla_guess: Option<(usize, usize, Option<usize>)>,
    s: DetectedSchema,
)
    requires
        schema_detected(p, time_guess, ecef_guess, lla_guess, s),
        s.frame == Frame::Ecef,
    ensures
        usable(s),
{
}

/// When the names give latitude and longitude, the value guesses change
/// no position column and the frame is LLA.
pub proof fn law_named_lla_wins(
    p: DelimitedPreview,
    time_guess: Option<usize>,
    ecef_guess: Option<(usize, usize, usize)>,
    lla_guess: Option<(usize, usize, Option<usize>)>,
    s: DetectedSchema,
)
    requires
        schema_detected(p, time_guess, ecef_guess, lla_guess, s),
        named_lla(str_views(p.names@)),
    ensures
        s.frame == Frame::Lla,
        s.lat_col == first_index(name_roles(str_views(p.names@)), ColumnRole::Lat, 0),
        s.lon_col == first_index(name_roles(str_views(p.names@)), ColumnRole::Lon, 0),
        s.x_col == first_index(name_roles(str_views(p.names@)), ColumnRole::X, 0),
        usable(s),
{
}

/// The time guess that detection takes: only where no name gives the time.
pub open spec fn taken_time_guess(names: Seq<Seq<char>>, time_guess: Option<usize>) -> Option<usize> {
    if first_index(name_roles(names), ColumnRole::Time, 0) is None {
        time_guess
    } else {
        None
    }
}

/// Column `c` is one whose header announces no role, and not the taken
/// time guess.
pub open spec fn free_column(names: Seq<Seq<char>>, time_guess: Option<usize>, c: usize) -> bool {
    &&& name_roles(names)[c as int] == ColumnRole::Other
    &&& !(taken_time_guess(names, time_guess) == Some(c))
}

/// The value-based guesses that detection takes land on columns whose
/// headers announce no role, and no two of them on the same column.
pub open spec fn guesses_apart(
    names: Seq<Seq<char>>,
    time_guess: Option<usize>,
    ecef_guess: Option<(usize, usize, usize)>,
    lla_guess: Option<(usize, usize, Option<usize>)>,
) -> bool {
    &&& (taken_time_guess(names, time_guess) matches Some(t) ==> name_roles(names)[t as int] == ColumnRole::Other)
    &&& (takes_ecef(names, ecef_guess) ==> {
        let e = ecef_guess.unwrap();
        &&& free_column(names, time_guess, e.0)
        &&& free_column(names, time_guess, e.1)
        &&& free_column(names, time_guess, e.2)
        &&& e.0 != e.1 && e.0 != e.2 && e.1 != e.2
    })
    &&& (takes_lla(names, ecef_guess, lla_guess) ==> {
        let l = lla_guess.unwrap();
        &&& free_column(names, time_guess, l.0)
        &&& free_column(names, time_guess, l.1)
        &&& l.0 != l.1
        &&& (l.2 matches Some(a) ==> free_column(names, time_guess, a) && a != l.0 && a != l.1)
    })
}

/// Column `c`, if there is one, exists and holds role `r`.
pub open spec fn column_holds(s: DetectedSchema, c: Option<usize>, r: ColumnRole) -> bool {
    c matches Some(k) ==> k < s.columns@.len() && s.columns@[k as int].role == r
}

proof fn lemma_first_index(rs: Seq<ColumnRole>, r: ColumnRole, i: int)
    requires
        0 <= i,
        rs.len() <= usize::MAX,
    ensures
        first_index(rs, r, i) matches Some(k) ==> i <= k < rs.len() && rs[k as int] == r,
    decreases rs.len() - i,
{
    if i < rs.len() && rs[i] != r {
        lemma_first_index(rs, r, i + 1);
    }
}

/// Each column the detected schema picks for a role is a column of that
/// role, as long as the value-based guesses it takes keep off the columns
/// the header names give a role and off one another.
pub proof fn law_detected_roles_agree(
    p: DelimitedPreview,
    time_guess: Option<usize>,
    ecef_guess: Option<(usize, usize, usize)>,
    lla_guess: Option<(usize, usize, Option<usize>)>,
    s: DetectedSchema,
)
    requires
        p.names@.len() <= usize::MAX,
        guesses_fit(p.names@.len(), time_guess, ecef_guess, lla_guess),
        guesses_apart(str_views(p.names@), time_guess, ecef_guess, lla_guess),
        schema_detected(p, time_guess, ecef_guess, lla_guess, s),
    ensures
        column_holds(s, s.time_col, ColumnRole::Time),
        column_holds(s, s.lat_col, ColumnRole::Lat),
        column_holds(s, s.lon_col, ColumnRole::Lon),
        column_holds(s, s.alt_col, ColumnRole::Alt),
        column_holds(s, s.x_col, ColumnRole::X),
        column_holds(s, s.y_col, ColumnRole::Y),
        column_holds(s, s.z_col, ColumnRole::Z),
{
    let names = str_views(p.names@);
    let roles0 = name_roles(names);
    lemma_first_index(roles0, ColumnRole::Time, 0);
    lemma_first_index(roles0, ColumnRole::Lat, 0);
    lemma_first_index(roles0, ColumnRole::Lon, 0);
    lemma_first_index(roles0, ColumnRole::Alt, 0);
    lemma_first_index(roles0, ColumnRole::X, 0);
    lemma_first_index(roles0, ColumnRole::Y, 0);
    lemma_first_index(roles0, ColumnRole::Z, 0);
}

} // verus!
