//! The set aggregator: from a stream of records to one set of codepoints
//! for each canonical value.

use crate::aliases::{PropertyValues, Tables};
use crate::buckets::Buckets;
use crate::error::Error;
use crate::expand::{codepoints_of, flatten, ordered, record_views, valid, Record, RecordView};
use crate::range_set::{all_codepoints, interval, RangeSet};
use crate::text::views;
use vstd::prelude::*;

verus! {

/// What to group records by: the values of one property, read from one
/// field, named canonically by the alias tables.
pub struct Grouping {
    pub tables: Tables,
    pub property: Seq<u8>,
    pub field: int,
}

impl Grouping {
    /// The canonical value of a record. A record without the field is
    /// malformed; a value that the tables do not know is unknown.
    pub open spec fn value_of(self, record: RecordView) -> Result<Seq<u8>, Error> {
        if self.field < 0 || self.field >= record.fields.len() {
            Err(Error::MalformedLine)
        } else {
            match self.tables.resolve(self.property, record.fields[self.field]) {
                Some(name) => Ok(name),
                None => Err(Error::UnknownPropertyValue),
            }
        }
    }

    /// The failure of the first record that has no canonical value.
    pub open spec fn first_failure(self, records: Seq<RecordView>) -> Option<Error>
        decreases records.len(),
    {
        if records.len() == 0 {
            None
        } else {
            match self.first_failure(records.drop_last()) {
                Some(e) => Some(e),
                None => match self.value_of(records.last()) {
                    Err(e) => Some(e),
                    Ok(_) => None,
                },
            }
        }
    }

    /// Whether some record has the value `name`.
    pub open spec fn named(self, records: Seq<RecordView>, name: Seq<u8>) -> bool {
        exists|i: int|
            0 <= i < records.len() && self.value_of(#[trigger] records[i]) == Ok::<Seq<u8>, Error>(
                name,
            )
    }

    /// The codepoints of the records that have the value `name`.
    pub open spec fn members(self, records: Seq<RecordView>, name: Seq<u8>) -> Set<int> {
        Set::new(
            |cp: int|
                exists|i: int|
                    0 <= i < records.len() && self.value_of(#[trigger] records[i]) == Ok::<
                        Seq<u8>,
                        Error,
                    >(name) && records[i].range.contains(cp),
        )
    }

    /// For each value that occurs, the codepoints that have it.
    pub open spec fn grouped(self, records: Seq<RecordView>) -> Map<Seq<u8>, Set<int>> {
        Map::new(|n: Seq<u8>| self.named(records, n), |n: Seq<u8>| self.members(records, n))
    }

    /// The groups, or the first failure: no record is dropped for having no
    /// canonical value.
    pub open spec fn aggregated(self, records: Seq<RecordView>) -> Result<
        Map<Seq<u8>, Set<int>>,
        Error,
    > {
        match self.first_failure(records) {
            Some(e) => Err(e),
            None => Ok(self.grouped(records)),
        }
    }
}

/// Once a leading part of the records fails, the whole fails alike.
pub proof fn lemma_first_failure_stays(g: Grouping, records: Seq<RecordView>, n: int)
    requires
        0 <= n <= records.len(),
        g.first_failure(records.take(n)) is Some,
    ensures
        g.first_failure(records) == g.first_failure(records.take(n)),
    decreases records.len() - n,
{
    if n < records.len() {
        assert(records.take(n + 1).drop_last() =~= records.take(n));
        lemma_first_failure_stays(g, records, n + 1);
    } else {
        assert(records.take(n) =~= records);
    }
}

/// One more record adds its range to the group of its value, and changes
/// no other group.
pub proof fn lemma_grouped_push(
    g: Grouping,
    records: Seq<RecordView>,
    record: RecordView,
    name: Seq<u8>,
)
    requires
        g.value_of(record) == Ok::<Seq<u8>, Error>(name),
    ensures
        g.grouped(records.push(record)) == g.grouped(records).insert(
            name,
            (if g.grouped(records).contains_key(name) {
                g.grouped(records)[name]
            } else {
                Set::<int>::empty()
            }).union(interval(record.range.lo as int, record.range.hi as int)),
        ),
{
    let more = records.push(record);
    let added = interval(record.range.lo as int, record.range.hi as int);
    let left = g.grouped(more);
    let right = g.grouped(records).insert(
        name,
        (if g.grouped(records).contains_key(name) {
            g.grouped(records)[name]
        } else {
            Set::<int>::empty()
        }).union(added),
    );
    assert(more[records.len() as int] == record);
    assert forall|n: Seq<u8>| left.contains_key(n) <==> right.contains_key(n) by {
        if g.named(more, n) {
            let i = choose|i: int|
                0 <= i < more.len() && g.value_of(#[trigger] more[i]) == Ok::<Seq<u8>, Error>(n);
            if i < records.len() {
                assert(records[i] == more[i]);
            }
        }
        if g.named(records, n) {
            let i = choose|i: int|
                0 <= i < records.len() && g.value_of(#[trigger] records[i]) == Ok::<
                    Seq<u8>,
                    Error,
                >(n);
            assert(more[i] == records[i]);
        }
    }
    assert forall|n: Seq<u8>| left.contains_key(n) implies left[n] == right[n] by {
        let old_members = g.members(records, n);
        assert forall|cp: int|
            g.members(more, n).contains(cp) <==> (old_members.contains(cp) || (n == name
                && added.contains(cp))) by {
            if g.members(more, n).contains(cp) {
                let i = choose|i: int|
                    0 <= i < more.len() && g.value_of(#[trigger] more[i]) == Ok::<Seq<u8>, Error>(
                        n,
                    ) && more[i].range.contains(cp);
                if i < records.len() {
                    assert(records[i] == more[i]);
                }
            }
            if old_members.contains(cp) {
                let i = choose|i: int|
                    0 <= i < records.len() && g.value_of(#[trigger] records[i]) == Ok::<
                        Seq<u8>,
                        Error,
                    >(n) && records[i].range.contains(cp);
                assert(more[i] == records[i]);
            }
            if n == name && added.contains(cp) {
                assert(more[records.len() as int].range.contains(cp));
            }
        }
        if n == name {
            if !g.named(records, name) {
                assert(old_members =~= Set::<int>::empty());
            }
            assert(g.members(more, n) =~= right[n]);
        } else {
            assert(g.members(more, n) =~= old_members);
        }
    }
    assert(left =~= right);
}

/// The partition property: where the records' ranges ascend without
/// overlap, no codepoint has two values.
pub proof fn lemma_groups_disjoint(
    g: Grouping,
    records: Seq<RecordView>,
    a: Seq<u8>,
    b: Seq<u8>,
)
    requires
        ordered(records),
        a != b,
    ensures
        g.members(records, a).disjoint(g.members(records, b)),
{
    assert forall|cp: int| g.members(records, a).contains(cp) implies !g.members(
        records,
        b,
    ).contains(cp) by {
        if g.members(records, b).contains(cp) {
            let i = choose|i: int|
                0 <= i < records.len() && g.value_of(#[trigger] records[i]) == Ok::<
                    Seq<u8>,
                    Error,
                >(a) && records[i].range.contains(cp);
            let j = choose|j: int|
                0 <= j < records.len() && g.value_of(#[trigger] records[j]) == Ok::<
                    Seq<u8>,
                    Error,
                >(b) && records[j].range.contains(cp);
            if i < j {
                assert(records[i].range.hi < records[j].range.lo);
            } else if j < i {
                assert(records[j].range.hi < records[i].range.lo);
            }
        }
    }
}

/// Every codepoint of a group is a codepoint of the records.
pub proof fn lemma_members_assigned(g: Grouping, records: Seq<RecordView>, name: Seq<u8>)
    ensures
        g.members(records, name).subset_of(codepoints_of(records)),
{
    assert forall|cp: int| g.members(records, name).contains(cp) implies codepoints_of(
        records,
    ).contains(cp) by {
        let i = choose|i: int|
            0 <= i < records.len() && g.value_of(#[trigger] records[i]) == Ok::<Seq<u8>, Error>(
                name,
            ) && records[i].range.contains(cp);
        assert(records[i].range.contains(cp));
    }
}

/// The assigned codepoints and the unassigned ones make up the whole
/// codepoint domain and share nothing, whatever order the records come in.
pub proof fn lemma_assigned_unassigned(records: Seq<RecordView>)
    requires
        valid(records),
    ensures
        codepoints_of(records).union(all_codepoints().difference(codepoints_of(records)))
            == all_codepoints(),
        codepoints_of(records).intersect(all_codepoints().difference(codepoints_of(records)))
            == Set::<int>::empty(),
        codepoints_of(records).disjoint(all_codepoints().difference(codepoints_of(records))),
{
    let assigned = codepoints_of(records);
    let unassigned = all_codepoints().difference(assigned);
    assert forall|cp: int| assigned.contains(cp) implies all_codepoints().contains(cp) by {
        let i = choose|i: int| 0 <= i < records.len() && (#[trigger] records[i]).range.contains(cp);
        assert(records[i].range.wf());
    }
    assert(assigned.union(unassigned) =~= all_codepoints());
    assert(assigned.intersect(unassigned) =~= Set::<int>::empty());
}

/// Groups the codepoints of `records` by the canonical name of the value
/// that each record has in its field `field`, a value of `property`.
pub fn aggregate(tables: &PropertyValues, property: &[u8], field: usize, records: &Vec<Record>) -> (r:
    Result<Buckets, Error>)
    requires
        valid(record_views(records@)),
    ensures
        match r {
            Ok(buckets) => buckets.wf() && (Grouping {
                tables: tables@,
                property: property@,
                field: field as int,
            }).aggregated(record_views(records@)) == Ok::<Map<Seq<u8>, Set<int>>, Error>(buckets@),
            Err(e) => (Grouping {
                tables: tables@,
                property: property@,
                field: field as int,
            }).aggregated(record_views(records@)) == Err::<Map<Seq<u8>, Set<int>>, Error>(e),
        },
{
    let ghost g = Grouping { tables: tables@, property: property@, field: field as int };
    let ghost all = record_views(records@);
    let mut buckets = Buckets::new();
    let mut i: usize = 0;
    assert(all.take(0) =~= Seq::<RecordView>::empty());
    assert(g.grouped(all.take(0)) =~= Map::<Seq<u8>, Set<int>>::empty());
    while i < records.len()
        invariant
            i <= records.len(),
            all == record_views(records@),
            valid(all),
            g == (Grouping { tables: tables@, property: property@, field: field as int }),
            buckets.wf(),
            g.first_failure(all.take(i as int)) is None,
            buckets@ == g.grouped(all.take(i as int)),
        decreases records.len() - i,
    {
        let record = &records[i];
        assert(all[i as int] == records@[i as int]@);
        assert(all.take(i + 1).drop_last() =~= all.take(i as int));
        assert(all.take(i + 1).last() == all[i as int]);
        assert(views(record.fields@).len() == record.fields@.len());
        if field >= record.fields.len() {
            proof {
                lemma_first_failure_stays(g, all, i + 1);
            }
            return Err(Error::MalformedLine);
        }
        assert(views(record.fields@)[field as int] == record.fields@[field as int]@);
        match tables.canonical(property, record.fields[field].as_slice()) {
            Err(e) => {
                proof {
                    lemma_first_failure_stays(g, all, i + 1);
                }
                return Err(e);
            },
            Ok(name) => {
                assert(all[i as int].range.wf());
                buckets.add_range(name.as_slice(), record.range.lo, record.range.hi);
                proof {
                    lemma_grouped_push(g, all.take(i as int), all[i as int], name@);
                    assert(all.take(i as int).push(all[i as int]) =~= all.take(i + 1));
                }
            },
        }
        i += 1;
    }
    assert(all.take(i as int) =~= all);
    Ok(buckets)
}

/// The codepoints that no record is about.
pub fn unassigned(records: &Vec<Record>) -> (s: RangeSet)
    requires
        valid(record_views(records@)),
    ensures
        s.wf(),
        s@ == all_codepoints().difference(codepoints_of(record_views(records@))),
{
    flatten(records).complement()
}

} // verus!
