//! The range expander: from decoded rows to records that each carry one
//! closed range of codepoints.

use crate::error::Error;
use crate::range_set::{interval, CodepointRange, RangeSet, MAX_CODEPOINT};
use crate::record::{Marker, Row, RowView, row_views};
use crate::text::{copy_all, views};
use vstd::prelude::*;

verus! {

/// Where a row of `UnicodeData.txt` holds its general category.
pub const CATEGORY_FIELD: usize = 2;

/// A record: the codepoints it is about, and the fields said of them.
#[derive(Clone, Debug, PartialEq, Eq)]
pub struct Record {
    pub range: CodepointRange,
    pub fields: Vec<Vec<u8>>,
}

/// A record as a value.
pub struct RecordView {
    pub range: CodepointRange,
    pub fields: Seq<Seq<u8>>,
}

impl View for Record {
    type V = RecordView;

    open spec fn view(&self) -> RecordView {
        RecordView { range: self.range, fields: views(self.fields@) }
    }
}

/// The records of `records` as values.
pub open spec fn record_views(records: Seq<Record>) -> Seq<RecordView> {
    Seq::new(records.len(), |i: int| records[i]@)
}

/// Every record's range is well formed.
pub open spec fn valid(records: Seq<RecordView>) -> bool {
    forall|i: int| 0 <= i < records.len() ==> (#[trigger] records[i]).range.wf()
}

/// Each record lies wholly after the one before it: the ranges ascend and
/// no two overlap.
pub open spec fn ordered(records: Seq<RecordView>) -> bool {
    forall|i: int, j: int|
        #![trigger records[i], records[j]]
        0 <= i < j < records.len() ==> records[i].range.hi < records[j].range.lo
}

/// The codepoints that the records are about, taken together.
pub open spec fn codepoints_of(records: Seq<RecordView>) -> Set<int> {
    Set::new(
        |cp: int| exists|i: int| 0 <= i < records.len() && (#[trigger] records[i]).range.contains(cp),
    )
}

/// The first letter of a row's general category.
pub open spec fn major_category(row: RowView) -> Option<u8> {
    if row.fields.len() > CATEGORY_FIELD && row.fields[CATEGORY_FIELD as int].len() > 0 {
        Some(row.fields[CATEGORY_FIELD as int][0])
    } else {
        None
    }
}

/// Whether `last` closes the range that `first` opens: it carries the
/// closing marker and has the same major category.
pub open spec fn closes(first: RowView, last: RowView) -> bool {
    last.marker == Marker::Last && major_category(first) == major_category(last)
}

/// `head` before what `rest` holds, or the failure of `rest`.
pub open spec fn prepend(head: Seq<RecordView>, rest: Result<Seq<RecordView>, Error>) -> Result<
    Seq<RecordView>,
    Error,
> {
    match rest {
        Ok(tail) => Ok(head + tail),
        Err(e) => Err(e),
    }
}

/// The records that the rows stand for. A plain row is a record by itself.
/// An opening row and the closing row right after it are one record, with
/// the opening row's fields, from the first codepoint of the one to the
/// last of the other. A marker without its partner, in either place, fails
/// the stream; so does a range with its bounds reversed or out of the
/// domain. The first failure from the start is the one reported.
pub open spec fn paired(rows: Seq<RowView>) -> Result<Seq<RecordView>, Error>
    decreases rows.len(),
{
    if rows.len() == 0 {
        Ok(Seq::empty())
    } else {
        match rows[0].marker {
            Marker::Plain => if !rows[0].range.wf() {
                Err(Error::InvalidRange)
            } else {
                prepend(
                    seq![RecordView { range: rows[0].range, fields: rows[0].fields }],
                    paired(rows.skip(1)),
                )
            },
            Marker::Last => Err(Error::UnpairedRangeMarker),
            Marker::First => if rows.len() < 2 || !closes(rows[0], rows[1]) {
                Err(Error::UnpairedRangeMarker)
            } else if rows[0].range.lo > rows[1].range.hi || rows[1].range.hi > MAX_CODEPOINT {
                Err(Error::InvalidRange)
            } else {
                prepend(
                    seq![
                        RecordView {
                            range: CodepointRange { lo: rows[0].range.lo, hi: rows[1].range.hi },
                            fields: rows[0].fields,
                        },
                    ],
                    paired(rows.skip(2)),
                )
            },
        }
    }
}

/// The records of a stream of rows: the rows paired up, and the stream
/// refused where its ranges do not ascend or overlap.
pub open spec fn expanded(rows: Seq<RowView>) -> Result<Seq<RecordView>, Error> {
    match paired(rows) {
        Err(e) => Err(e),
        Ok(records) => if ordered(records) {
            Ok(records)
        } else {
            Err(Error::InvalidRange)
        },
    }
}

/// The first letter of a row's general category.
pub fn major(row: &Row) -> (r: Option<u8>)
    ensures
        r == major_category(row@),
{
    assert(views(row.fields@).len() == row.fields@.len());
    if row.fields.len() > CATEGORY_FIELD {
        assert(views(row.fields@)[CATEGORY_FIELD as int] == row.fields@[CATEGORY_FIELD as int]@);
        if row.fields[CATEGORY_FIELD].len() > 0 {
            return Some(row.fields[CATEGORY_FIELD][0]);
        }
    }
    None
}

/// Pairs up opening and closing rows.
pub fn pair_up(rows: &Vec<Row>) -> (r: Result<Vec<Record>, Error>)
    ensures
        match r {
            Ok(records) => paired(row_views(rows@)) == Ok::<Seq<RecordView>, Error>(
                record_views(records@),
            ) && valid(record_views(records@)),
            Err(e) => paired(row_views(rows@)) == Err::<Seq<RecordView>, Error>(e),
        },
{
    let ghost all = row_views(rows@);
    let mut out: Vec<Record> = Vec::new();
    let mut i: usize = 0;
    assert(all.skip(0) =~= all);
    assert(record_views(out@) + paired(all).unwrap() =~= paired(all).unwrap());
    while i < rows.len()
        invariant
            i <= rows.len(),
            all == row_views(rows@),
            paired(all) == prepend(record_views(out@), paired(all.skip(i as int))),
            valid(record_views(out@)),
        decreases rows.len() - i,
    {
        let ghost rest = all.skip(i as int);
        let ghost before = record_views(out@);
        let row = &rows[i];
        assert(rest[0] == rows@[i as int]@);
        match row.marker {
            Marker::Last => {
                return Err(Error::UnpairedRangeMarker);
            },
            Marker::Plain => {
                if !(row.range.lo <= row.range.hi && row.range.hi <= MAX_CODEPOINT) {
                    return Err(Error::InvalidRange);
                }
                let record = Record { range: row.range, fields: copy_all(&row.fields) };
                out.push(record);
                proof {
                    assert(rest.skip(1) =~= all.skip(i + 1));
                    let one = seq![RecordView { range: rest[0].range, fields: rest[0].fields }];
                    assert(record_views(out@) =~= before + one);
                    if paired(all.skip(i + 1)) is Ok {
                        let tail = paired(all.skip(i + 1)).unwrap();
                        assert(before + (one + tail) =~= (before + one) + tail);
                    }
                }
                i += 1;
            },
            Marker::First => {
                if i + 1 >= rows.len() {
                    return Err(Error::UnpairedRangeMarker);
                }
                let next = &rows[i + 1];
                assert(rest[1] == rows@[i + 1]@);
                let closing = match next.marker {
                    Marker::Last => true,
                    _ => false,
                };
                if !closing || major(row) != major(next) {
                    return Err(Error::UnpairedRangeMarker);
                }
                if row.range.lo > next.range.hi || next.range.hi > MAX_CODEPOINT {
                    return Err(Error::InvalidRange);
                }
                let record = Record {
                    range: CodepointRange { lo: row.range.lo, hi: next.range.hi },
                    fields: copy_all(&row.fields),
                };
                out.push(record);
                proof {
                    assert(rest.skip(2) =~= all.skip(i + 2));
                    let one = seq![
                        RecordView {
                            range: CodepointRange { lo: rest[0].range.lo, hi: rest[1].range.hi },
                            fields: rest[0].fields,
                        },
                    ];
                    assert(record_views(out@) =~= before + one);
                    if paired(all.skip(i + 2)) is Ok {
                        let tail = paired(all.skip(i + 2)).unwrap();
                        assert(before + (one + tail) =~= (before + one) + tail);
                    }
                }
                i += 2;
            },
        }
    }
    proof {
        assert(all.skip(i as int).len() == 0);
        assert(record_views(out@) + Seq::<RecordView>::empty() =~= record_views(out@));
    }
    Ok(out)
}

/// Whether each record lies wholly after the one before it.
pub fn in_order(records: &Vec<Record>) -> (b: bool)
    requires
        valid(record_views(records@)),
    ensures
        b == ordered(record_views(records@)),
{
    let ghost all = record_views(records@);
    let mut i: usize = 1;
    while i < records.len()
        invariant
            1 <= i,
            all == record_views(records@),
            valid(all),
            forall|a: int, b: int|
                #![trigger all[a], all[b]]
                0 <= a < b < i && b < all.len() ==> all[a].range.hi < all[b].range.lo,
        decreases records.len() - i,
    {
        assert(all[i - 1] == records@[i - 1]@ && all[i as int] == records@[i as int]@);
        if records[i - 1].range.hi >= records[i].range.lo {
            return false;
        }
        proof {
            assert forall|a: int, b: int|
                #![trigger all[a], all[b]]
                0 <= a < b < i + 1 && b < all.len() implies all[a].range.hi
                < all[b].range.lo by {
                if b == i && a < i - 1 {
                    assert(all[a].range.hi < all[i - 1].range.lo);
                    assert(all[i - 1].range.wf());
                }
            }
        }
        i += 1;
    }
    true
}

/// Expands a stream of rows into records, each with one well-formed range,
/// the ranges ascending without overlap. Ranges of different records are
/// not merged, even where they touch.
pub fn expand(rows: &Vec<Row>) -> (r: Result<Vec<Record>, Error>)
    ensures
        match r {
            Ok(records) => expanded(row_views(rows@)) == Ok::<Seq<RecordView>, Error>(
                record_views(records@),
            ) && valid(record_views(records@)) && ordered(record_views(records@)),
            Err(e) => expanded(row_views(rows@)) == Err::<Seq<RecordView>, Error>(e),
        },
{
    match pair_up(rows) {
        Err(e) => Err(e),
        Ok(records) => {
            if in_order(&records) {
                Ok(records)
            } else {
                Err(Error::InvalidRange)
            }
        },
    }
}

/// The set of codepoints that the records are about.
pub fn flatten(records: &Vec<Record>) -> (s: RangeSet)
    requires
        valid(record_views(records@)),
    ensures
        s.wf(),
        s@ == codepoints_of(record_views(records@)),
{
    let ghost all = record_views(records@);
    let mut s = RangeSet::new();
    let mut i: usize = 0;
    assert(s@ =~= codepoints_of(all.take(0)));
    while i < records.len()
        invariant
            i <= records.len(),
            all == record_views(records@),
            valid(all),
            s.wf(),
            s@ == codepoints_of(all.take(i as int)),
        decreases records.len() - i,
    {
        let range = records[i].range;
        assert(all[i as int] == records@[i as int]@);
        assert(all[i as int].range.wf());
        s.insert_range(range.lo, range.hi);
        proof {
            lemma_codepoints_of_push(all.take(i as int), all[i as int]);
            assert(all.take(i as int).push(all[i as int]) =~= all.take(i + 1));
        }
        i += 1;
    }
    assert(all.take(i as int) =~= all);
    s
}

/// One more record adds its range to the codepoints, and nothing else.
pub proof fn lemma_codepoints_of_push(records: Seq<RecordView>, record: RecordView)
    ensures
        codepoints_of(records.push(record)) == codepoints_of(records).union(
            interval(record.range.lo as int, record.range.hi as int),
        ),
{
    let more = records.push(record);
    assert forall|cp: int|
        codepoints_of(more).contains(cp) <==> (codepoints_of(records).contains(cp)
            || record.range.contains(cp)) by {
        if codepoints_of(more).contains(cp) {
            let i = choose|i: int| 0 <= i < more.len() && (#[trigger] more[i]).range.contains(cp);
            if i < records.len() {
                assert(records[i].range.contains(cp));
            }
        }
        if codepoints_of(records).contains(cp) {
            let i = choose|i: int|
                0 <= i < records.len() && (#[trigger] records[i]).range.contains(cp);
            assert(more[i].range.contains(cp));
        }
        if record.range.contains(cp) {
            assert(more[records.len() as int].range.contains(cp));
        }
    }
    assert(codepoints_of(more) =~= codepoints_of(records).union(
        interval(record.range.lo as int, record.range.hi as int),
    ));
}

/// An opening row and its closing row expand to one record, and that
/// record is about exactly the codepoints from the opening row's to the
/// closing row's, both included.
pub proof fn lemma_pair_round_trip(first: RowView, last: RowView)
    requires
        first.marker == Marker::First,
        closes(first, last),
        first.range.lo <= last.range.hi <= MAX_CODEPOINT,
    ensures
        expanded(seq![first, last]) == Ok::<Seq<RecordView>, Error>(
            seq![
                RecordView {
                    range: CodepointRange { lo: first.range.lo, hi: last.range.hi },
                    fields: first.fields,
                },
            ],
        ),
        codepoints_of(expanded(seq![first, last]).unwrap()) == interval(
            first.range.lo as int,
            last.range.hi as int,
        ),
{
    let rows = seq![first, last];
    let record = RecordView {
        range: CodepointRange { lo: first.range.lo, hi: last.range.hi },
        fields: first.fields,
    };
    assert(rows.skip(2) =~= Seq::<RowView>::empty());
    assert(paired(rows.skip(2)) == Ok::<Seq<RecordView>, Error>(Seq::empty()));
    assert(seq![record] + Seq::<RecordView>::empty() =~= seq![record]);
    assert(paired(rows) == Ok::<Seq<RecordView>, Error>(seq![record]));
    assert(ordered(seq![record]));
    lemma_codepoints_of_push(Seq::empty(), record);
    assert(Seq::<RecordView>::empty().push(record) =~= seq![record]);
    assert(codepoints_of(Seq::<RecordView>::empty()) =~= Set::<int>::empty());
    assert(codepoints_of(seq![record]) =~= interval(
        first.range.lo as int,
        last.range.hi as int,
    ));
}

} // verus!
