use kai::bed::{parse_bed_line, parse_u64, split_tabs, BedLine};
use kai::bytes::{trim_ascii, u64_to_dec};
use kai::filter::load_cell_barcodes;
use kai::model::{region_key, Region};

fn parse(line: &str) -> BedLine {
    parse_bed_line(&line.as_bytes().to_vec())
}

#[test]
fn bed_line_with_three_fields_parses() {
    match parse("chr1\t100\t200") {
        BedLine::Entry(r) => {
            assert_eq!(r.chromosome, b"chr1".to_vec());
            assert_eq!(r.start, 100);
            assert_eq!(r.end, 200);
        },
        _ => panic!("expected a region"),
    }
}

#[test]
fn bed_line_extra_fields_ignored() {
    match parse("chrX\t0\t7\tname\t0\t+") {
        BedLine::Entry(r) => {
            assert_eq!(r.chromosome, b"chrX".to_vec());
            assert_eq!(r.start, 0);
            assert_eq!(r.end, 7);
        },
        _ => panic!("expected a region"),
    }
}

#[test]
fn bed_comment_and_blank_lines_skipped() {
    assert!(matches!(parse("# a header"), BedLine::Skip));
    assert!(matches!(parse(""), BedLine::Skip));
    assert!(matches!(parse("   "), BedLine::Skip));
    assert!(matches!(parse("\t\t"), BedLine::Skip));
}

#[test]
fn bed_short_line_skipped() {
    assert!(matches!(parse("chr1\t100"), BedLine::Skip));
    assert!(matches!(parse("chr1"), BedLine::Skip));
}

#[test]
fn bed_non_integer_coordinate_is_malformed() {
    assert!(matches!(parse("chr1\tabc\t200"), BedLine::Malformed));
    assert!(matches!(parse("chr1\t100\t2.5"), BedLine::Malformed));
    assert!(matches!(parse("chr1\t-5\t200"), BedLine::Malformed));
    assert!(matches!(parse("chr1\t\t200"), BedLine::Malformed));
    // too large for 64 bits
    assert!(matches!(parse("chr1\t99999999999999999999\t5"), BedLine::Malformed));
}

#[test]
fn bed_plus_sign_accepted() {
    match parse("chr1\t+100\t+200") {
        BedLine::Entry(r) => {
            assert_eq!(r.start, 100);
            assert_eq!(r.end, 200);
        },
        _ => panic!("expected a region"),
    }
}

#[test]
fn parse_u64_exact_values() {
    assert_eq!(parse_u64(&b"0".to_vec()), Some(0));
    assert_eq!(parse_u64(&b"18446744073709551615".to_vec()), Some(u64::MAX));
    assert_eq!(parse_u64(&b"18446744073709551616".to_vec()), None);
    assert_eq!(parse_u64(&b"".to_vec()), None);
    assert_eq!(parse_u64(&b"+".to_vec()), None);
    assert_eq!(parse_u64(&b"1 2".to_vec()), None);
}

#[test]
fn split_tabs_keeps_empty_fields() {
    let fields = split_tabs(&b"a\t\tb\t".to_vec());
    assert_eq!(fields, vec![b"a".to_vec(), b"".to_vec(), b"b".to_vec(), b"".to_vec()]);
    assert_eq!(split_tabs(&b"".to_vec()), vec![b"".to_vec()]);
}

#[test]
fn trim_removes_surrounding_whitespace() {
    assert_eq!(trim_ascii(&b"  AAAA \r\n".to_vec()), b"AAAA".to_vec());
    assert_eq!(trim_ascii(&b"AA AA".to_vec()), b"AA AA".to_vec());
    assert_eq!(trim_ascii(&b" \t ".to_vec()), b"".to_vec());
}

#[test]
fn load_cell_barcodes_trims_each_line() {
    let lines = vec![b" AAAA\r".to_vec(), b"CCCC".to_vec()];
    assert_eq!(load_cell_barcodes(&lines), vec![b"AAAA".to_vec(), b"CCCC".to_vec()]);
}

#[test]
fn region_key_is_canonical() {
    let r = Region { chromosome: b"chr1".to_vec(), start: 100, end: 200 };
    assert_eq!(region_key(&r), b"chr1:100-200".to_vec());
    let z = Region { chromosome: b"c".to_vec(), start: 0, end: 0 };
    assert_eq!(region_key(&z), b"c:0-0".to_vec());
}

#[test]
fn decimal_rendering_exact() {
    assert_eq!(u64_to_dec(0), b"0".to_vec());
    assert_eq!(u64_to_dec(10), b"10".to_vec());
    assert_eq!(u64_to_dec(18446744073709551615), b"18446744073709551615".to_vec());
}
