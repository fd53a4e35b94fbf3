use ucd_generate::error::Error;
use ucd_generate::line::{parse_fields, skippable, split_bytes, split_fields, Arity};
use ucd_generate::range_set::CodepointRange;
use ucd_generate::record::{
    decode, decode_line, decode_text, digit, locate_failure, parse_codepoint, parse_marker,
    parse_target, Family, Marker,
};
use ucd_generate::text::{
    comes_before, copy_all, copy_range, find_byte, fold_byte, has_suffix, holds, insert_sorted,
    same, same_ignoring_case, space, trim_range,
};

fn strings(items: &[&str]) -> Vec<Vec<u8>> {
    items.iter().map(|s| s.as_bytes().to_vec()).collect()
}

#[test]
fn white_space_is_the_ascii_set() {
    for b in [b' ', b'\t', b'\n', 0x0b, 0x0c, b'\r'] {
        assert!(space(b));
    }
    for b in [b'a', b'0', b';', b'#', 0x00, 0x08, 0x0e, 0xa0] {
        assert!(!space(b));
    }
}

#[test]
fn fold_byte_lowers_only_ascii_capitals() {
    assert_eq!(fold_byte(b'A'), b'a');
    assert_eq!(fold_byte(b'Z'), b'z');
    assert_eq!(fold_byte(b'a'), b'a');
    assert_eq!(fold_byte(b'@'), b'@');
    assert_eq!(fold_byte(b'['), b'[');
    assert_eq!(fold_byte(b'_'), b'_');
    assert_eq!(fold_byte(0xc9), 0xc9);
}

#[test]
fn same_compares_bytes() {
    assert!(same(b"Lu", b"Lu"));
    assert!(!same(b"Lu", b"lu"));
    assert!(!same(b"Lu", b"Lul"));
    assert!(same(b"", b""));
}

#[test]
fn same_ignoring_case_folds_ascii() {
    assert!(same_ignoring_case(b"Lu", b"lU"));
    assert!(same_ignoring_case(b"Uppercase_Letter", b"UPPERCASE_letter"));
    assert!(!same_ignoring_case(b"Lu", b"Ll"));
    assert!(!same_ignoring_case(b"Lu", b"Lu "));
    assert!(!same_ignoring_case(b"a_b", b"a-b"));
}

#[test]
fn comes_before_is_lexicographic() {
    assert!(comes_before(b"", b"a"));
    assert!(!comes_before(b"", b""));
    assert!(comes_before(b"Letter", b"Lowercase_Letter"));
    assert!(comes_before(b"L", b"Lu"));
    assert!(!comes_before(b"Lu", b"L"));
    assert!(comes_before(b"Z", b"a"));
    assert!(!comes_before(b"Mark", b"Mark"));
}

#[test]
fn copy_range_takes_the_bounds_given() {
    assert_eq!(copy_range(b"0041;Lu", 0, 4), b"0041".to_vec());
    assert_eq!(copy_range(b"0041;Lu", 5, 7), b"Lu".to_vec());
    assert_eq!(copy_range(b"0041;Lu", 3, 3), Vec::<u8>::new());
}

#[test]
fn copy_all_keeps_every_string() {
    let v = strings(&["a", "", "bc"]);
    assert_eq!(copy_all(&v), v);
}

#[test]
fn find_byte_gives_the_first_place_or_the_end() {
    assert_eq!(find_byte(b"a;b;c", 0, 5, b';'), 1);
    assert_eq!(find_byte(b"a;b;c", 2, 5, b';'), 3);
    assert_eq!(find_byte(b"a;b;c", 4, 5, b';'), 5);
    assert_eq!(find_byte(b"a;b;c", 0, 1, b';'), 1);
    assert_eq!(find_byte(b"", 0, 0, b';'), 0);
}

#[test]
fn trim_range_drops_both_ends() {
    assert_eq!(trim_range(b"  Lu \t", 0, 6), (2, 4));
    assert_eq!(trim_range(b"Lu", 0, 2), (0, 2));
    assert_eq!(trim_range(b"   ", 0, 3), (3, 3));
    assert_eq!(trim_range(b"a b", 0, 3), (0, 3));
    assert_eq!(trim_range(b"; x ;", 1, 4), (2, 3));
}

#[test]
fn has_suffix_compares_the_end() {
    assert!(has_suffix(b"<CJK Ideograph, First>", b", First>"));
    assert!(!has_suffix(b"<CJK Ideograph, Last>", b", First>"));
    assert!(!has_suffix(b"First>", b", First>"));
    assert!(has_suffix(b"abc", b""));
}

#[test]
fn holds_finds_a_member() {
    let v = strings(&["Letter", "Mark"]);
    assert!(holds(&v, b"Mark"));
    assert!(!holds(&v, b"mark"));
    assert!(!holds(&Vec::new(), b"Mark"));
}

#[test]
fn insert_sorted_keeps_order_and_drops_repeats() {
    let mut v: Vec<Vec<u8>> = Vec::new();
    for name in ["lu", "Uppercase_Letter", "Lu", "lu", "a", "Lu"] {
        insert_sorted(&mut v, name.as_bytes());
    }
    assert_eq!(v, strings(&["Lu", "Uppercase_Letter", "a", "lu"]));
}

#[test]
fn split_bytes_trims_each_piece() {
    assert_eq!(split_bytes(b" lu , Ll,lt ", 12, b','), strings(&["lu", "Ll", "lt"]));
    assert_eq!(split_bytes(b"", 0, b','), strings(&[""]));
    assert_eq!(split_bytes(b",", 1, b','), strings(&["", ""]));
    assert_eq!(split_bytes(b"a,b,c", 3, b','), strings(&["a", "b"]));
}

#[test]
fn split_fields_reads_a_unicode_data_line() {
    let fields = split_fields(b"0041;LATIN CAPITAL LETTER A;Lu;0;L;;;;;N;;;;0061;");
    assert_eq!(fields.len(), 15);
    assert_eq!(fields[0], b"0041".to_vec());
    assert_eq!(fields[1], b"LATIN CAPITAL LETTER A".to_vec());
    assert_eq!(fields[2], b"Lu".to_vec());
    assert_eq!(fields[13], b"0061".to_vec());
    assert_eq!(fields[14], b"".to_vec());
}

#[test]
fn split_fields_strips_the_comment_first() {
    assert_eq!(
        split_fields(b"0000..001F    ; Common # Cc  [32] <control-0000>..<control-001F>"),
        strings(&["0000..001F", "Common"])
    );
    assert_eq!(
        split_fields(b"gc ; C ; Other # Cc | Cf ; Cn"),
        strings(&["gc", "C", "Other"])
    );
}

#[test]
fn parse_fields_checks_the_arity() {
    assert_eq!(
        parse_fields(b"0041 ; Latin # L", Arity::Exactly(2)),
        Ok(strings(&["0041", "Latin"]))
    );
    assert_eq!(
        parse_fields(b"gc ; M ; Mark ; Combining_Mark", Arity::AtLeast(3)),
        Ok(strings(&["gc", "M", "Mark", "Combining_Mark"]))
    );
    assert_eq!(parse_fields(b"gc ; M", Arity::AtLeast(3)), Err(Error::MalformedLine));
    assert_eq!(parse_fields(b"a;b;c", Arity::Exactly(2)), Err(Error::MalformedLine));
}

#[test]
fn a_row_one_field_short_is_malformed() {
    let line = b"0041;LATIN CAPITAL LETTER A;Lu;0;L;;;;;N;;;;0061";
    assert_eq!(parse_fields(line, Arity::Exactly(15)), Err(Error::MalformedLine));
    assert_eq!(decode_line(Family::UnicodeData, line), Err(Error::MalformedLine));
    assert_eq!(
        decode_line(Family::Scripts, b"0041"),
        Err(Error::MalformedLine)
    );
}

#[test]
fn arity_accepts_what_it_names() {
    assert!(Arity::Exactly(2).accepts(2));
    assert!(!Arity::Exactly(2).accepts(3));
    assert!(Arity::AtLeast(2).accepts(2));
    assert!(Arity::AtLeast(2).accepts(7));
    assert!(!Arity::AtLeast(2).accepts(1));
}

#[test]
fn skippable_lines_are_blank_or_comments() {
    assert!(skippable(b""));
    assert!(skippable(b"   \t"));
    assert!(skippable(b"# Scripts-10.0.0.txt"));
    assert!(skippable(b"   # indented"));
    assert!(skippable(b"\r"));
    assert!(!skippable(b"0041 ; Latin"));
    assert!(!skippable(b";"));
}

#[test]
fn digit_reads_both_cases() {
    assert_eq!(digit(b'0'), Some(0));
    assert_eq!(digit(b'9'), Some(9));
    assert_eq!(digit(b'A'), Some(10));
    assert_eq!(digit(b'F'), Some(15));
    assert_eq!(digit(b'a'), Some(10));
    assert_eq!(digit(b'f'), Some(15));
    assert_eq!(digit(b'G'), None);
    assert_eq!(digit(b'g'), None);
    assert_eq!(digit(b'/'), None);
    assert_eq!(digit(b':'), None);
    assert_eq!(digit(b'@'), None);
    assert_eq!(digit(b'`'), None);
}

#[test]
fn parse_codepoint_reads_hexadecimal() {
    assert_eq!(parse_codepoint(b"0041", 0, 4), Ok(0x41));
    assert_eq!(parse_codepoint(b"10FFFF", 0, 6), Ok(0x10FFFF));
    assert_eq!(parse_codepoint(b"0", 0, 1), Ok(0));
    assert_eq!(parse_codepoint(b"00000000000041", 0, 14), Ok(0x41));
    assert_eq!(parse_codepoint(b"e000", 0, 4), Ok(0xE000));
    assert_eq!(parse_codepoint(b"3400..4DBF", 6, 10), Ok(0x4DBF));
}

#[test]
fn parse_codepoint_tells_malformed_from_out_of_domain() {
    assert_eq!(parse_codepoint(b"", 0, 0), Err(Error::MalformedLine));
    assert_eq!(parse_codepoint(b"00G1", 0, 4), Err(Error::MalformedLine));
    assert_eq!(parse_codepoint(b"U+0041", 0, 6), Err(Error::MalformedLine));
    assert_eq!(parse_codepoint(b"110000", 0, 6), Err(Error::InvalidRange));
    assert_eq!(parse_codepoint(b"FFFFFFFFFFFFFFFFFFFF", 0, 20), Err(Error::InvalidRange));
    assert_eq!(parse_codepoint(b"FFFFFFFFFFFFFFFFFFFG", 0, 20), Err(Error::MalformedLine));
}

#[test]
fn parse_target_reads_one_codepoint_or_a_range() {
    assert_eq!(parse_target(b"0041"), Ok(CodepointRange { lo: 0x41, hi: 0x41 }));
    assert_eq!(parse_target(b"0041..005A"), Ok(CodepointRange { lo: 0x41, hi: 0x5A }));
    assert_eq!(parse_target(b"0000..10FFFF"), Ok(CodepointRange { lo: 0, hi: 0x10FFFF }));
    assert_eq!(parse_target(b"0041..0041"), Ok(CodepointRange { lo: 0x41, hi: 0x41 }));
}

#[test]
fn parse_target_refuses_bad_ranges() {
    assert_eq!(parse_target(b"005A..0041"), Err(Error::InvalidRange));
    assert_eq!(parse_target(b"0041..110000"), Err(Error::InvalidRange));
    assert_eq!(parse_target(b"110000..110001"), Err(Error::InvalidRange));
    assert_eq!(parse_target(b"110000"), Err(Error::InvalidRange));
    assert_eq!(parse_target(b"0041.005A"), Err(Error::MalformedLine));
    assert_eq!(parse_target(b"0041.."), Err(Error::MalformedLine));
    assert_eq!(parse_target(b"..005A"), Err(Error::MalformedLine));
    assert_eq!(parse_target(b"0041...005A"), Err(Error::MalformedLine));
    assert_eq!(parse_target(b"0041."), Err(Error::MalformedLine));
    assert_eq!(parse_target(b"110000..XYZ"), Err(Error::MalformedLine));
    assert_eq!(parse_target(b""), Err(Error::MalformedLine));
}

#[test]
fn parse_marker_reads_the_end_of_the_name() {
    assert_eq!(parse_marker(b"<CJK Ideograph Extension A, First>"), Marker::First);
    assert_eq!(parse_marker(b"<CJK Ideograph Extension A, Last>"), Marker::Last);
    assert_eq!(parse_marker(b"LATIN CAPITAL LETTER A"), Marker::Plain);
    assert_eq!(parse_marker(b"<control>"), Marker::Plain);
    assert_eq!(parse_marker(b""), Marker::Plain);
}

#[test]
fn families_know_their_arity() {
    assert_eq!(Family::UnicodeData.field_count(), Arity::Exactly(15));
    assert_eq!(Family::Scripts.field_count(), Arity::Exactly(2));
    assert_eq!(Family::CaseFolding.field_count(), Arity::Exactly(4));
}

#[test]
fn decode_line_reads_unicode_data() {
    let row = decode_line(
        Family::UnicodeData,
        b"3400;<CJK Ideograph Extension A, First>;Lo;0;L;;;;;N;;;;;",
    )
    .unwrap();
    assert_eq!(row.range, CodepointRange { lo: 0x3400, hi: 0x3400 });
    assert_eq!(row.marker, Marker::First);
    assert_eq!(row.fields.len(), 15);
    assert_eq!(row.fields[2], b"Lo".to_vec());
}

#[test]
fn decode_line_takes_no_range_token_in_unicode_data() {
    assert_eq!(
        decode_line(Family::UnicodeData, b"3400..4DBF;<CJK>;Lo;0;L;;;;;N;;;;;"),
        Err(Error::MalformedLine)
    );
    assert_eq!(
        decode_line(Family::UnicodeData, b"110000;<none>;Cn;0;L;;;;;N;;;;;"),
        Err(Error::InvalidRange)
    );
}

#[test]
fn decode_line_reads_scripts_and_case_folding() {
    let row = decode_line(Family::Scripts, b"0041..005A    ; Latin # L&  [26] A..Z").unwrap();
    assert_eq!(row.range, CodepointRange { lo: 0x41, hi: 0x5A });
    assert_eq!(row.marker, Marker::Plain);
    assert_eq!(row.fields, strings(&["0041..005A", "Latin"]));

    let row = decode_line(Family::CaseFolding, b"0041; C; 0061; # LATIN CAPITAL LETTER A").unwrap();
    assert_eq!(row.range, CodepointRange { lo: 0x41, hi: 0x41 });
    assert_eq!(row.fields, strings(&["0041", "C", "0061", ""]));

    assert_eq!(
        decode_line(Family::Scripts, b"005A..0041 ; Latin"),
        Err(Error::InvalidRange)
    );
}

#[test]
fn decode_passes_over_blank_and_comment_lines() {
    let lines = strings(&[
        "# Scripts",
        "",
        "0041..005A    ; Latin # L&",
        "   ",
        "0061..007A    ; Latin # L&",
    ]);
    let rows = decode(Family::Scripts, &lines).unwrap();
    assert_eq!(rows.len(), 2);
    assert_eq!(rows[0].range, CodepointRange { lo: 0x41, hi: 0x5A });
    assert_eq!(rows[1].range, CodepointRange { lo: 0x61, hi: 0x7A });
}

#[test]
fn decode_stops_at_the_first_bad_line() {
    let lines = strings(&["0041 ; Latin", "0042", "ZZZZ ; Latin"]);
    assert_eq!(decode(Family::Scripts, &lines), Err(Error::MalformedLine));
    let lines = strings(&["0041 ; Latin", "110000 ; Latin", "0042"]);
    assert_eq!(decode(Family::Scripts, &lines), Err(Error::InvalidRange));
}

#[test]
fn decode_text_splits_lines() {
    let text = b"# head\r\n0041;A;Lu;0;L;;;;;N;;;;0061;\r\n\r\n0061;a;Ll;0;L;;;;;N;;;0041;;0041\n";
    let rows = decode_text(Family::UnicodeData, text).unwrap();
    assert_eq!(rows.len(), 2);
    assert_eq!(rows[0].range, CodepointRange { lo: 0x41, hi: 0x41 });
    assert_eq!(rows[0].fields[14], b"".to_vec());
    assert_eq!(rows[1].range, CodepointRange { lo: 0x61, hi: 0x61 });
    assert_eq!(rows[1].fields[14], b"0041".to_vec());
    assert_eq!(decode_text(Family::UnicodeData, b"").unwrap().len(), 0);
}

#[test]
fn locate_failure_names_the_first_bad_line() {
    let lines = strings(&["# head", "0041 ; Latin", "", "0042", "110000 ; Latin"]);
    assert_eq!(locate_failure(Family::Scripts, &lines), Some((3, Error::MalformedLine)));
    let lines = strings(&["0041 ; Latin", "110000 ; Latin", "0042"]);
    assert_eq!(locate_failure(Family::Scripts, &lines), Some((1, Error::InvalidRange)));
    let lines = strings(&["# head", "0041 ; Latin", ""]);
    assert_eq!(locate_failure(Family::Scripts, &lines), None);
    assert_eq!(locate_failure(Family::UnicodeData, &lines), Some((1, Error::MalformedLine)));
    assert_eq!(locate_failure(Family::Scripts, &Vec::new()), None);
}
