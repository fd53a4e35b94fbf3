//! Rows: what one line of a database file says, and about which codepoints.

use crate::error::Error;
use crate::line::{is_skippable, parse_fields, parsed, skippable, split_bytes, split_trimmed, Arity};
use crate::range_set::{CodepointRange, MAX_CODEPOINT};
use crate::text::{ends_with, find, find_byte, has_suffix, views};
use vstd::prelude::*;
use vstd::string::StringSliceAdditionalSpecFns;

verus! {

/// `.`, two of which separate the bounds of a range written in a field.
pub const DOT: u8 = 0x2e;

/// The line feed, which ends a line.
pub const LINE_FEED: u8 = 0x0a;

/// The value of a hexadecimal digit, in either case.
pub open spec fn hex_digit(b: u8) -> Option<int> {
    if 0x30 <= b && b <= 0x39 {
        Some(b - 0x30)
    } else if 0x41 <= b && b <= 0x46 {
        Some(b - 0x41 + 10)
    } else if 0x61 <= b && b <= 0x66 {
        Some(b - 0x61 + 10)
    } else {
        None
    }
}

/// A token made of hexadecimal digits, at least one.
pub open spec fn is_hex(s: Seq<u8>) -> bool {
    s.len() > 0 && forall|i: int| 0 <= i < s.len() ==> hex_digit(#[trigger] s[i]) is Some
}

/// The number that a token of hexadecimal digits writes, however long.
pub open spec fn hex_value(s: Seq<u8>) -> int
    decreases s.len(),
{
    if s.len() == 0 {
        0
    } else {
        16 * hex_value(s.drop_last()) + match hex_digit(s.last()) {
            Some(d) => d,
            None => 0,
        }
    }
}

/// The codepoint that a token writes. A token that is no hexadecimal number
/// is malformed; a number above the last codepoint is out of the domain.
pub open spec fn codepoint_of(s: Seq<u8>) -> Result<u32, Error> {
    if !is_hex(s) {
        Err(Error::MalformedLine)
    } else if hex_value(s) > MAX_CODEPOINT {
        Err(Error::InvalidRange)
    } else {
        Ok(hex_value(s) as u32)
    }
}

/// The codepoints that a field names: one, as `XXXX`, or a range, as
/// `XXXX..YYYY`. Both bounds must be hexadecimal numbers, else the token is
/// malformed; both must be codepoints and in order, else the range is
/// invalid.
pub open spec fn target_of(s: Seq<u8>) -> Result<CodepointRange, Error> {
    let i = find(s, DOT) as int;
    if i >= s.len() {
        match codepoint_of(s) {
            Ok(cp) => Ok(CodepointRange { lo: cp, hi: cp }),
            Err(e) => Err(e),
        }
    } else if i + 1 >= s.len() || s[i + 1] != DOT {
        Err(Error::MalformedLine)
    } else {
        let lo = s.take(i);
        let hi = s.skip(i + 2);
        if !is_hex(lo) || !is_hex(hi) {
            Err(Error::MalformedLine)
        } else if hex_value(lo) > MAX_CODEPOINT || hex_value(hi) > MAX_CODEPOINT || hex_value(lo)
            > hex_value(hi) {
            Err(Error::InvalidRange)
        } else {
            Ok(CodepointRange { lo: hex_value(lo) as u32, hi: hex_value(hi) as u32 })
        }
    }
}

/// The value of the hexadecimal digit `b`, if it is one.
pub fn digit(b: u8) -> (r: Option<u8>)
    ensures
        match r {
            Some(d) => hex_digit(b) == Some(d as int) && d < 16,
            None => hex_digit(b) is None,
        },
{
    if 0x30 <= b && b <= 0x39 {
        Some(b - 0x30)
    } else if 0x41 <= b && b <= 0x46 {
        Some(b - 0x41 + 10)
    } else if 0x61 <= b && b <= 0x66 {
        Some(b - 0x61 + 10)
    } else {
        None
    }
}

/// Reads `s[from..to]` as a codepoint.
pub fn parse_codepoint(s: &[u8], from: usize, to: usize) -> (r: Result<u32, Error>)
    requires
        from <= to <= s.len(),
    ensures
        r == codepoint_of(s@.subrange(from as int, to as int)),
        r matches Ok(cp) ==> cp == hex_value(s@.subrange(from as int, to as int)) && cp
            <= MAX_CODEPOINT,
{
    let ghost t = s@.subrange(from as int, to as int);
    if from == to {
        return Err(Error::MalformedLine);
    }
    let mut value: u32 = 0;
    let mut over = false;
    let mut i: usize = from;
    assert(t.take(0) =~= Seq::<u8>::empty());
    while i < to
        invariant
            from <= i <= to,
            to <= s.len(),
            t == s@.subrange(from as int, to as int),
            forall|j: int| 0 <= j < i - from ==> hex_digit(#[trigger] t[j]) is Some,
            !over ==> value == hex_value(t.take(i - from)) && value <= MAX_CODEPOINT,
            over ==> hex_value(t.take(i - from)) > MAX_CODEPOINT,
        decreases to - i,
    {
        assert(t[i - from] == s@[i as int]);
        assert(t.take(i - from + 1).drop_last() =~= t.take(i - from));
        assert(t.take(i - from + 1).last() == t[i - from]);
        match digit(s[i]) {
            None => {
                return Err(Error::MalformedLine);
            },
            Some(d) => {
                if !over {
                    let next: u32 = value * 16 + d as u32;
                    if next > MAX_CODEPOINT {
                        over = true;
                    } else {
                        value = next;
                    }
                }
            },
        }
        i += 1;
    }
    assert(t.take(to - from) =~= t);
    if over {
        Err(Error::InvalidRange)
    } else {
        Ok(value)
    }
}

/// Reads a field as one codepoint or as a range of them.
pub fn parse_target(token: &[u8]) -> (r: Result<CodepointRange, Error>)
    ensures
        r == target_of(token@),
        r matches Ok(range) ==> range.wf(),
{
    let n = token.len();
    let i = find_byte(token, 0, n, DOT);
    assert(token@.subrange(0, n as int) =~= token@);
    if i >= n {
        match parse_codepoint(token, 0, n) {
            Ok(cp) => Ok(CodepointRange { lo: cp, hi: cp }),
            Err(e) => Err(e),
        }
    } else if i + 1 >= n || token[i + 1] != DOT {
        Err(Error::MalformedLine)
    } else {
        assert(token@.subrange(0, i as int) =~= token@.take(i as int));
        assert(token@.subrange(i + 2, n as int) =~= token@.skip(i + 2));
        let lo = parse_codepoint(token, 0, i);
        let hi = parse_codepoint(token, i + 2, n);
        match (lo, hi) {
            (Err(Error::MalformedLine), _) => Err(Error::MalformedLine),
            (_, Err(Error::MalformedLine)) => Err(Error::MalformedLine),
            (Ok(a), Ok(b)) => {
                if a <= b {
                    Ok(CodepointRange { lo: a, hi: b })
                } else {
                    Err(Error::InvalidRange)
                }
            },
            _ => Err(Error::InvalidRange),
        }
    }
}

/// What a row's name field says of the row's place in a range.
#[derive(Clone, Copy, Debug, PartialEq, Eq, Structural)]
pub enum Marker {
    /// The row stands for itself.
    Plain,
    /// The row opens a range: its name ends in `, First>`.
    First,
    /// The row closes a range: its name ends in `, Last>`.
    Last,
}

/// The marker that a name carries.
pub open spec fn marker_of(name: Seq<u8>) -> Marker {
    if ends_with(name, ", First>".spec_bytes()) {
        Marker::First
    } else if ends_with(name, ", Last>".spec_bytes()) {
        Marker::Last
    } else {
        Marker::Plain
    }
}

/// Reads the marker off a name.
pub fn parse_marker(name: &[u8]) -> (m: Marker)
    ensures
        m == marker_of(name@),
{
    if has_suffix(name, ", First>".as_bytes()) {
        Marker::First
    } else if has_suffix(name, ", Last>".as_bytes()) {
        Marker::Last
    } else {
        Marker::Plain
    }
}

/// The families of files whose lines start with the codepoints they are
/// about.
#[derive(Clone, Copy, Debug, PartialEq, Eq, Structural)]
pub enum Family {
    /// `UnicodeData.txt`: fifteen fields, one codepoint each line, ranges
    /// given by a `First>` row followed by a `Last>` row.
    UnicodeData,
    /// `Scripts.txt` and the files shaped like it: a codepoint or a range,
    /// then one value.
    Scripts,
    /// `CaseFolding.txt`: a codepoint, a status, a mapping, and an empty
    /// last field before the comment.
    CaseFolding,
}

impl Family {
    /// How many fields a line of the family has.
    pub open spec fn arity(self) -> Arity {
        match self {
            Family::UnicodeData => Arity::Exactly(15),
            Family::Scripts => Arity::Exactly(2),
            Family::CaseFolding => Arity::Exactly(4),
        }
    }

    /// How many fields a line of the family has.
    pub fn field_count(&self) -> (a: Arity)
        ensures
            a == self.arity(),
    {
        match self {
            Family::UnicodeData => Arity::Exactly(15),
            Family::Scripts => Arity::Exactly(2),
            Family::CaseFolding => Arity::Exactly(4),
        }
    }
}

/// One decoded line.
#[derive(Clone, Debug, PartialEq, Eq)]
pub struct Row {
    /// The codepoints that the first field names.
    pub range: CodepointRange,
    /// Whether the row opens or closes a range.
    pub marker: Marker,
    /// All fields of the line, the first included.
    pub fields: Vec<Vec<u8>>,
}

/// A row as a value.
pub struct RowView {
    pub range: CodepointRange,
    pub marker: Marker,
    pub fields: Seq<Seq<u8>>,
}

impl View for Row {
    type V = RowView;

    open spec fn view(&self) -> RowView {
        RowView { range: self.range, marker: self.marker, fields: views(self.fields@) }
    }
}

/// The rows of `rows` as values.
pub open spec fn row_views(rows: Seq<Row>) -> Seq<RowView> {
    Seq::new(rows.len(), |i: int| rows[i]@)
}

/// The row that a line of `family` decodes to.
pub open spec fn row_of(family: Family, line: Seq<u8>) -> Result<RowView, Error> {
    match parsed(line, family.arity()) {
        Err(e) => Err(e),
        Ok(fields) => match family {
            Family::UnicodeData => match codepoint_of(fields[0]) {
                Err(e) => Err(e),
                Ok(cp) => Ok(
                    RowView {
                        range: CodepointRange { lo: cp, hi: cp },
                        marker: marker_of(fields[1]),
                        fields,
                    },
                ),
            },
            _ => match target_of(fields[0]) {
                Err(e) => Err(e),
                Ok(range) => Ok(RowView { range, marker: Marker::Plain, fields }),
            },
        },
    }
}

/// The rows that the lines of a file of `family` decode to: blank lines and
/// comment lines are passed over, and the first line that fails to decode
/// fails the whole.
pub open spec fn rows_of(family: Family, lines: Seq<Seq<u8>>) -> Result<Seq<RowView>, Error>
    decreases lines.len(),
{
    if lines.len() == 0 {
        Ok(Seq::empty())
    } else {
        match rows_of(family, lines.drop_last()) {
            Err(e) => Err(e),
            Ok(rows) => if is_skippable(lines.last()) {
                Ok(rows)
            } else {
                match row_of(family, lines.last()) {
                    Err(e) => Err(e),
                    Ok(row) => Ok(rows.push(row)),
                }
            },
        }
    }
}

/// Decodes one line of a file of `family`.
pub fn decode_line(family: Family, line: &[u8]) -> (r: Result<Row, Error>)
    ensures
        match r {
            Ok(row) => row_of(family, line@) == Ok::<RowView, Error>(row@) && row.range.wf(),
            Err(e) => row_of(family, line@) == Err::<RowView, Error>(e),
        },
{
    let fields = match parse_fields(line, family.field_count()) {
        Ok(fields) => fields,
        Err(e) => {
            return Err(e);
        },
    };
    assert(views(fields@).len() == fields@.len());
    assert(views(fields@)[0] == fields@[0]@);
    match family {
        Family::UnicodeData => {
            assert(views(fields@)[1] == fields@[1]@);
            let n = fields[0].len();
            assert(fields@[0]@.subrange(0, n as int) =~= fields@[0]@);
            match parse_codepoint(fields[0].as_slice(), 0, n) {
                Err(e) => Err(e),
                Ok(cp) => {
                    let marker = parse_marker(fields[1].as_slice());
                    Ok(Row { range: CodepointRange { lo: cp, hi: cp }, marker, fields })
                },
            }
        },
        _ => match parse_target(fields[0].as_slice()) {
            Err(e) => Err(e),
            Ok(range) => Ok(Row { range, marker: Marker::Plain, fields }),
        },
    }
}

/// Decodes the lines of a file of `family`.
pub fn decode(family: Family, lines: &Vec<Vec<u8>>) -> (r: Result<Vec<Row>, Error>)
    ensures
        match r {
            Ok(rows) => rows_of(family, views(lines@)) == Ok::<Seq<RowView>, Error>(
                row_views(rows@),
            ) && forall|i: int| 0 <= i < rows@.len() ==> (#[trigger] rows@[i]).range.wf(),
            Err(e) => rows_of(family, views(lines@)) == Err::<Seq<RowView>, Error>(e),
        },
{
    let ghost all = views(lines@);
    let mut out: Vec<Row> = Vec::new();
    let mut i: usize = 0;
    assert(all.take(0) =~= Seq::<Seq<u8>>::empty());
    assert(row_views(out@) =~= Seq::<RowView>::empty());
    while i < lines.len()
        invariant
            i <= lines.len(),
            all == views(lines@),
            rows_of(family, all.take(i as int)) == Ok::<Seq<RowView>, Error>(row_views(out@)),
            forall|k: int| 0 <= k < out@.len() ==> (#[trigger] out@[k]).range.wf(),
        decreases lines.len() - i,
    {
        let ghost before = row_views(out@);
        assert(all.take(i + 1).drop_last() =~= all.take(i as int));
        assert(all.take(i + 1).last() == lines@[i as int]@);
        if !skippable(lines[i].as_slice()) {
            match decode_line(family, lines[i].as_slice()) {
                Err(e) => {
                    proof {
                        lemma_rows_of_fails(family, all, i + 1);
                    }
                    return Err(e);
                },
                Ok(row) => {
                    out.push(row);
                    assert(row_views(out@) =~= before.push(row@));
                },
            }
        }
        i += 1;
    }
    assert(all.take(i as int) =~= all);
    Ok(out)
}

/// Once a leading part of the lines fails to decode, so does the whole.
pub proof fn lemma_rows_of_fails(family: Family, lines: Seq<Seq<u8>>, n: int)
    requires
        0 <= n <= lines.len(),
        rows_of(family, lines.take(n)) is Err,
    ensures
        rows_of(family, lines) == rows_of(family, lines.take(n)),
    decreases lines.len() - n,
{
    if n < lines.len() {
        assert(lines.take(n + 1).drop_last() =~= lines.take(n));
        lemma_rows_of_fails(family, lines, n + 1);
    } else {
        assert(lines.take(n) =~= lines);
    }
}

/// The lines of a text: the pieces between line feeds, each trimmed.
pub open spec fn lines_of(text: Seq<u8>) -> Seq<Seq<u8>> {
    split_trimmed(text, LINE_FEED)
}

/// Decodes the text of a file of `family`.
pub fn decode_text(family: Family, text: &[u8]) -> (r: Result<Vec<Row>, Error>)
    ensures
        match r {
            Ok(rows) => rows_of(family, lines_of(text@)) == Ok::<Seq<RowView>, Error>(
                row_views(rows@),
            ) && forall|i: int| 0 <= i < rows@.len() ==> (#[trigger] rows@[i]).range.wf(),
            Err(e) => rows_of(family, lines_of(text@)) == Err::<Seq<RowView>, Error>(e),
        },
{
    let lines = split_bytes(text, text.len(), LINE_FEED);
    assert(text@.take(text.len() as int) =~= text@);
    decode(family, &lines)
}

/// Whether a line is a record that fails to decode.
pub open spec fn fails(family: Family, line: Seq<u8>) -> bool {
    !is_skippable(line) && row_of(family, line) is Err
}

/// The place of the first line that fails to decode, counted from zero,
/// and its failure; nothing where every line decodes.
pub fn locate_failure(family: Family, lines: &Vec<Vec<u8>>) -> (r: Option<(usize, Error)>)
    ensures
        match r {
            Some((i, e)) => i < lines@.len() && fails(family, lines@[i as int]@) && row_of(
                family,
                lines@[i as int]@,
            ) == Err::<RowView, Error>(e) && forall|j: int|
                0 <= j < i ==> !fails(family, (#[trigger] lines@[j])@),
            None => forall|j: int| 0 <= j < lines@.len() ==> !fails(family, (#[trigger] lines@[j])@),
        },
{
    let mut i: usize = 0;
    while i < lines.len()
        invariant
            i <= lines.len(),
            forall|j: int| 0 <= j < i ==> !fails(family, (#[trigger] lines@[j])@),
        decreases lines.len() - i,
    {
        if !skippable(lines[i].as_slice()) {
            match decode_line(family, lines[i].as_slice()) {
                Err(e) => {
                    return Some((i, e));
                },
                Ok(_) => {},
            }
        }
        i += 1;
    }
    None
}

} // verus!
