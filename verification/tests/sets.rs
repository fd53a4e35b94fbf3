use ucd_generate::buckets::Buckets;
use ucd_generate::error::Error;
use ucd_generate::expand::{expand, flatten, in_order, major, pair_up, Record};
use ucd_generate::range_set::{CodepointRange, RangeSet, MAX_CODEPOINT};
use ucd_generate::record::{decode_text, Family, Marker, Row};

fn pairs(set: &RangeSet) -> Vec<(u32, u32)> {
    set.ranges().iter().map(|r| (r.lo, r.hi)).collect()
}

fn set_of(ranges: &[(u32, u32)]) -> RangeSet {
    let mut set = RangeSet::new();
    for &(lo, hi) in ranges {
        set.insert_range(lo, hi);
    }
    set
}

fn row(cp: u32, name: &str, category: &str) -> Row {
    let marker = if name.ends_with(", First>") {
        Marker::First
    } else if name.ends_with(", Last>") {
        Marker::Last
    } else {
        Marker::Plain
    };
    let mut fields = vec![format!("{:04X}", cp).into_bytes(), name.as_bytes().to_vec()];
    fields.push(category.as_bytes().to_vec());
    for _ in 3..15 {
        fields.push(Vec::new());
    }
    Row { range: CodepointRange { lo: cp, hi: cp }, marker, fields }
}

fn ranges_of(records: &[Record]) -> Vec<(u32, u32)> {
    records.iter().map(|r| (r.range.lo, r.range.hi)).collect()
}

#[test]
fn codepoint_range_new_checks_its_bounds() {
    assert_eq!(CodepointRange::new(0x41, 0x5A), Ok(CodepointRange { lo: 0x41, hi: 0x5A }));
    assert_eq!(CodepointRange::new(0, MAX_CODEPOINT), Ok(CodepointRange { lo: 0, hi: 0x10FFFF }));
    assert_eq!(CodepointRange::new(7, 7), Ok(CodepointRange { lo: 7, hi: 7 }));
    assert_eq!(CodepointRange::new(8, 7), Err(Error::InvalidRange));
    assert_eq!(CodepointRange::new(0, 0x110000), Err(Error::InvalidRange));
    assert_eq!(CodepointRange::new(0x110000, 0x110001), Err(Error::InvalidRange));
}

#[test]
fn codepoint_range_count_includes_both_bounds() {
    assert_eq!(CodepointRange { lo: 0x3400, hi: 0x4DBF }.count(), 6592);
    assert_eq!(CodepointRange { lo: 5, hi: 5 }.count(), 1);
    assert_eq!(CodepointRange { lo: 0, hi: MAX_CODEPOINT }.count(), 0x110000);
}

#[test]
fn max_codepoint_is_the_last_of_plane_sixteen() {
    assert_eq!(MAX_CODEPOINT, 0x10FFFF);
}

#[test]
fn new_range_set_is_empty() {
    let set = RangeSet::new();
    assert!(set.is_empty());
    assert_eq!(pairs(&set), vec![]);
    assert!(!set.contains(0));
}

#[test]
fn insert_range_keeps_ranges_apart() {
    let set = set_of(&[(10, 20), (40, 50), (25, 30)]);
    assert_eq!(pairs(&set), vec![(10, 20), (25, 30), (40, 50)]);
    assert!(!set.is_empty());
}

#[test]
fn insert_range_merges_ranges_that_touch() {
    let set = set_of(&[(10, 20), (21, 30)]);
    assert_eq!(pairs(&set), vec![(10, 30)]);
    let set = set_of(&[(21, 30), (10, 20)]);
    assert_eq!(pairs(&set), vec![(10, 30)]);
    let set = set_of(&[(10, 20), (22, 30)]);
    assert_eq!(pairs(&set), vec![(10, 20), (22, 30)]);
    let set = set_of(&[(0x41, 0x41), (0x42, 0x42), (0x43, 0x43)]);
    assert_eq!(pairs(&set), vec![(0x41, 0x43)]);
}

#[test]
fn insert_range_merges_ranges_that_overlap() {
    let set = set_of(&[(10, 20), (30, 40), (50, 60), (15, 55)]);
    assert_eq!(pairs(&set), vec![(10, 60)]);
    let set = set_of(&[(10, 20), (30, 40), (50, 60), (21, 29)]);
    assert_eq!(pairs(&set), vec![(10, 40), (50, 60)]);
    let set = set_of(&[(10, 20), (30, 40), (0, 100)]);
    assert_eq!(pairs(&set), vec![(0, 100)]);
    let set = set_of(&[(10, 20), (12, 18)]);
    assert_eq!(pairs(&set), vec![(10, 20)]);
}

#[test]
fn insert_range_reaches_both_ends_of_the_domain() {
    let set = set_of(&[(0, 0), (MAX_CODEPOINT, MAX_CODEPOINT)]);
    assert_eq!(pairs(&set), vec![(0, 0), (0x10FFFF, 0x10FFFF)]);
    let set = set_of(&[(0, 0), (MAX_CODEPOINT, MAX_CODEPOINT), (1, 0x10FFFE)]);
    assert_eq!(pairs(&set), vec![(0, 0x10FFFF)]);
}

#[test]
fn contains_tells_members_from_gaps() {
    let set = set_of(&[(10, 20), (30, 40)]);
    for cp in [10, 15, 20, 30, 40] {
        assert!(set.contains(cp));
    }
    for cp in [0, 9, 21, 29, 41, MAX_CODEPOINT] {
        assert!(!set.contains(cp));
    }
}

#[test]
fn duplicate_gives_an_equal_set() {
    let set = set_of(&[(10, 20), (30, 40)]);
    assert_eq!(pairs(&set.duplicate()), pairs(&set));
}

#[test]
fn union_with_adds_every_range() {
    let mut a = set_of(&[(10, 20), (50, 60)]);
    let b = set_of(&[(21, 30), (55, 70), (100, 100)]);
    a.union_with(&b);
    assert_eq!(pairs(&a), vec![(10, 30), (50, 70), (100, 100)]);
    let mut c = RangeSet::new();
    c.union_with(&RangeSet::new());
    assert!(c.is_empty());
}

#[test]
fn complement_is_every_other_codepoint() {
    assert_eq!(pairs(&RangeSet::new().complement()), vec![(0, 0x10FFFF)]);
    assert_eq!(pairs(&set_of(&[(0, 0x10FFFF)]).complement()), vec![]);
    assert_eq!(
        pairs(&set_of(&[(0x41, 0x41), (0x61, 0x61), (0xE000, 0xF8FF)]).complement()),
        vec![(0, 0x40), (0x42, 0x60), (0x62, 0xDFFF), (0xF900, 0x10FFFF)]
    );
    assert_eq!(pairs(&set_of(&[(0, 5)]).complement()), vec![(6, 0x10FFFF)]);
    assert_eq!(pairs(&set_of(&[(6, 0x10FFFF)]).complement()), vec![(0, 5)]);
}

#[test]
fn a_set_and_its_complement_split_the_domain() {
    let assigned = set_of(&[(0x41, 0x5A), (0x3400, 0x4DBF), (0x10FFFF, 0x10FFFF), (0, 0)]);
    let unassigned = assigned.complement();
    let mut whole = assigned.duplicate();
    whole.union_with(&unassigned);
    assert_eq!(pairs(&whole), vec![(0, 0x10FFFF)]);
    for r in unassigned.ranges() {
        assert!(!assigned.contains(r.lo));
        assert!(!assigned.contains(r.hi));
    }
    for r in assigned.ranges() {
        assert!(!unassigned.contains(r.lo));
        assert!(!unassigned.contains(r.hi));
    }
    assert_eq!(pairs(&unassigned.complement()), pairs(&assigned));
}

#[test]
fn major_is_the_first_letter_of_the_category() {
    assert_eq!(major(&row(0x41, "A", "Lu")), Some(b'L'));
    assert_eq!(major(&row(0x41, "A", "")), None);
    let short = Row {
        range: CodepointRange { lo: 1, hi: 1 },
        marker: Marker::Plain,
        fields: vec![b"0001".to_vec(), b"x".to_vec()],
    };
    assert_eq!(major(&short), None);
}

#[test]
fn a_first_last_pair_expands_to_the_inclusive_interval() {
    let rows = vec![
        row(0x3400, "<CJK Ideograph Extension A, First>", "Lo"),
        row(0x4DBF, "<CJK Ideograph Extension A, Last>", "Lo"),
    ];
    let records = expand(&rows).unwrap();
    assert_eq!(ranges_of(&records), vec![(0x3400, 0x4DBF)]);
    assert_eq!(records[0].fields, rows[0].fields);
    let flat = flatten(&records);
    assert_eq!(pairs(&flat), vec![(0x3400, 0x4DBF)]);
    assert!(flat.contains(0x3400));
    assert!(flat.contains(0x4DBF));
    assert!(!flat.contains(0x33FF));
    assert!(!flat.contains(0x4DC0));
}

#[test]
fn plain_rows_expand_to_single_codepoints() {
    let rows = vec![row(0x41, "LATIN CAPITAL LETTER A", "Lu"), row(0x42, "B", "Lu")];
    let records = expand(&rows).unwrap();
    assert_eq!(ranges_of(&records), vec![(0x41, 0x41), (0x42, 0x42)]);
    assert_eq!(pairs(&flatten(&records)), vec![(0x41, 0x42)]);
    assert_eq!(expand(&Vec::new()).unwrap().len(), 0);
}

#[test]
fn a_pair_may_close_on_the_same_codepoint() {
    let rows = vec![row(0x50, "<X, First>", "Lo"), row(0x50, "<X, Last>", "Lo")];
    assert_eq!(ranges_of(&expand(&rows).unwrap()), vec![(0x50, 0x50)]);
}

#[test]
fn a_first_without_its_last_is_unpaired() {
    let rows = vec![row(0x3400, "<CJK, First>", "Lo")];
    assert_eq!(expand(&rows), Err(Error::UnpairedRangeMarker));
    let rows = vec![row(0x3400, "<CJK, First>", "Lo"), row(0x4DBF, "CJK END", "Lo")];
    assert_eq!(expand(&rows), Err(Error::UnpairedRangeMarker));
    let rows = vec![
        row(0x3400, "<CJK, First>", "Lo"),
        row(0x3500, "<CJK, First>", "Lo"),
        row(0x4DBF, "<CJK, Last>", "Lo"),
    ];
    assert_eq!(expand(&rows), Err(Error::UnpairedRangeMarker));
}

#[test]
fn a_last_without_its_first_is_unpaired() {
    let rows = vec![row(0x41, "A", "Lu"), row(0x4DBF, "<CJK, Last>", "Lo")];
    assert_eq!(expand(&rows), Err(Error::UnpairedRangeMarker));
}

#[test]
fn a_pair_must_share_its_major_category() {
    let rows = vec![row(0xE000, "<Private Use, First>", "Co"), row(0xF8FF, "<Private Use, Last>", "Lo")];
    assert_eq!(expand(&rows), Err(Error::UnpairedRangeMarker));
    let rows = vec![row(0xE000, "<Private Use, First>", "Co"), row(0xF8FF, "<Private Use, Last>", "Cs")];
    assert_eq!(ranges_of(&expand(&rows).unwrap()), vec![(0xE000, 0xF8FF)]);
}

#[test]
fn a_reversed_pair_is_an_invalid_range() {
    let rows = vec![row(0x4DBF, "<CJK, First>", "Lo"), row(0x3400, "<CJK, Last>", "Lo")];
    assert_eq!(expand(&rows), Err(Error::InvalidRange));
}

#[test]
fn rows_out_of_the_domain_are_invalid() {
    let mut bad = row(0x41, "A", "Lu");
    bad.range = CodepointRange { lo: 0x41, hi: 0x110000 };
    assert_eq!(expand(&vec![bad]), Err(Error::InvalidRange));
    let mut bad = row(0x41, "A", "Lu");
    bad.range = CodepointRange { lo: 0x42, hi: 0x41 };
    assert_eq!(pair_up(&vec![bad]), Err(Error::InvalidRange));
    let mut last = row(0x41, "<X, Last>", "Lu");
    last.range = CodepointRange { lo: 0x110000, hi: 0x110000 };
    assert_eq!(expand(&vec![row(0x40, "<X, First>", "Lu"), last]), Err(Error::InvalidRange));
}

#[test]
fn a_stream_out_of_order_is_an_invalid_range() {
    let rows = vec![row(0x42, "B", "Lu"), row(0x41, "A", "Lu")];
    assert_eq!(expand(&rows), Err(Error::InvalidRange));
    let rows = vec![row(0x41, "A", "Lu"), row(0x41, "A AGAIN", "Ll")];
    assert_eq!(expand(&rows), Err(Error::InvalidRange));
    let rows = vec![
        row(0x3400, "<CJK, First>", "Lo"),
        row(0x4DBF, "<CJK, Last>", "Lo"),
        row(0x4000, "INSIDE", "Lo"),
    ];
    assert_eq!(expand(&rows), Err(Error::InvalidRange));
    assert_eq!(ranges_of(&pair_up(&rows).unwrap()), vec![(0x3400, 0x4DBF), (0x4000, 0x4000)]);
    assert!(!in_order(&pair_up(&rows).unwrap()));
}

#[test]
fn pairing_fails_before_ordering_does() {
    let rows = vec![row(0x42, "B", "Lu"), row(0x41, "A", "Lu"), row(0x50, "<X, Last>", "Lo")];
    assert_eq!(expand(&rows), Err(Error::UnpairedRangeMarker));
}

#[test]
fn records_that_touch_are_not_merged_by_the_expander() {
    let rows = decode_text(Family::Scripts, b"0041..005A ; Latin\n005B..0060 ; Common\n").unwrap();
    let records = expand(&rows).unwrap();
    assert_eq!(ranges_of(&records), vec![(0x41, 0x5A), (0x5B, 0x60)]);
    assert!(in_order(&records));
    assert_eq!(pairs(&flatten(&records)), vec![(0x41, 0x60)]);
}

#[test]
fn buckets_walk_in_name_order() {
    let mut buckets = Buckets::new();
    assert_eq!(buckets.len(), 0);
    buckets.add_range(b"Uppercase_Letter", 0x41, 0x41);
    buckets.add_range(b"Lowercase_Letter", 0x61, 0x61);
    buckets.add_range(b"Uppercase_Letter", 0x42, 0x42);
    buckets.add_range(b"Decimal_Number", 0x30, 0x39);
    assert_eq!(buckets.len(), 3);
    assert_eq!(buckets.name(0), &b"Decimal_Number".to_vec());
    assert_eq!(buckets.name(1), &b"Lowercase_Letter".to_vec());
    assert_eq!(buckets.name(2), &b"Uppercase_Letter".to_vec());
    assert_eq!(pairs(buckets.set(0)), vec![(0x30, 0x39)]);
    assert_eq!(pairs(buckets.set(1)), vec![(0x61, 0x61)]);
    assert_eq!(pairs(buckets.set(2)), vec![(0x41, 0x42)]);
}

#[test]
fn buckets_get_and_insert() {
    let mut buckets = Buckets::new();
    assert!(buckets.get(b"Letter").is_none());
    buckets.insert(b"Letter", set_of(&[(1, 2)]));
    buckets.insert(b"Mark", set_of(&[(5, 6)]));
    assert_eq!(pairs(buckets.get(b"Letter").unwrap()), vec![(1, 2)]);
    buckets.insert(b"Letter", set_of(&[(9, 9)]));
    assert_eq!(buckets.len(), 2);
    assert_eq!(pairs(buckets.get(b"Letter").unwrap()), vec![(9, 9)]);
    assert_eq!(pairs(buckets.get(b"Mark").unwrap()), vec![(5, 6)]);
    assert!(buckets.get(b"letter").is_none());
    buckets.insert(b"Empty", RangeSet::new());
    assert_eq!(buckets.len(), 3);
    assert!(buckets.get(b"Empty").unwrap().is_empty());
}

#[test]
fn buckets_merge_prefers_the_other_side() {
    let mut base = Buckets::new();
    base.insert(b"Letter", set_of(&[(1, 2)]));
    base.insert(b"Mark", set_of(&[(5, 6)]));
    let mut other = Buckets::new();
    other.insert(b"Letter", set_of(&[(7, 8)]));
    other.insert(b"Number", set_of(&[(3, 3)]));
    base.merge(&other);
    assert_eq!(base.len(), 3);
    assert_eq!(pairs(base.get(b"Letter").unwrap()), vec![(7, 8)]);
    assert_eq!(pairs(base.get(b"Mark").unwrap()), vec![(5, 6)]);
    assert_eq!(pairs(base.get(b"Number").unwrap()), vec![(3, 3)]);
}

#[test]
fn broken_pipe_is_the_only_quiet_failure() {
    assert!(Error::BrokenPipe.is_broken_pipe());
    for e in [
        Error::MalformedLine,
        Error::UnpairedRangeMarker,
        Error::InvalidRange,
        Error::UnknownPropertyValue,
        Error::IoFailure,
    ] {
        assert!(!e.is_broken_pipe());
    }
}

#[test]
fn the_order_of_insertion_does_not_matter() {
    let ranges = [(0x61, 0x7A), (0x41, 0x5A), (0x5B, 0x60), (0x3400, 0x4DBF), (0x30, 0x39)];
    let forward = set_of(&ranges);
    let mut reversed = ranges;
    reversed.reverse();
    let backward = set_of(&reversed);
    assert_eq!(pairs(&forward), vec![(0x30, 0x39), (0x41, 0x7A), (0x3400, 0x4DBF)]);
    assert_eq!(pairs(&backward), pairs(&forward));
    assert_eq!(pairs(&backward.complement()), pairs(&forward.complement()));
    let mut one_by_one = RangeSet::new();
    for cp in (0x41..=0x7A).rev() {
        one_by_one.insert_range(cp, cp);
    }
    one_by_one.insert_range(0x30, 0x39);
    one_by_one.insert_range(0x3400, 0x4DBF);
    assert_eq!(pairs(&one_by_one), pairs(&forward));
}
