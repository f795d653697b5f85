use kai::encode::{encode_bulk, encode_single};
use kai::engine::Engine;
use kai::model::{AlignmentRecord, CigarOp, FilterConfig, Mode, Region};
use kai::overlap::overlaps;

fn region(chrom: &str, start: u64, end: u64) -> Region {
    Region { chromosome: chrom.as_bytes().to_vec(), start, end }
}

fn record(ref_start: u64, cigar: Vec<CigarOp>, locus: Option<u64>, barcode: Option<&str>) -> AlignmentRecord {
    AlignmentRecord {
        ref_start,
        cigar,
        locus_count: locus,
        cell_barcode: barcode.map(|b| b.as_bytes().to_vec()),
    }
}

fn bulk_engine(max_loci: u64) -> Engine {
    Engine::new(Mode::Bulk, FilterConfig { max_loci, allowlist: vec![] })
}

fn single_engine(max_loci: u64, allowlist: Vec<&str>) -> Engine {
    Engine::new(
        Mode::Single,
        FilterConfig { max_loci, allowlist: allowlist.iter().map(|b| b.as_bytes().to_vec()).collect() },
    )
}

#[test]
fn single_match_overlap_boundaries() {
    let r = region("chr1", 100, 200);
    // P < E and P + L > S: overlap
    assert!(overlaps(&record(150, vec![CigarOp::MatchLike(100)], None, None), &r));
    // P + L == S: no overlap
    assert!(!overlaps(&record(90, vec![CigarOp::MatchLike(10)], None, None), &r));
    // P == E: no overlap
    assert!(!overlaps(&record(200, vec![CigarOp::MatchLike(10)], None, None), &r));
    // P + L == S + 1: overlap by one base
    assert!(overlaps(&record(91, vec![CigarOp::MatchLike(10)], None, None), &r));
}

#[test]
fn soft_clip_keeps_cursor() {
    // Soft clip does not advance the walk: the match block spans [95, 145).
    let r = region("chr1", 100, 200);
    assert!(overlaps(&record(95, vec![CigarOp::SoftClip(10), CigarOp::MatchLike(50)], None, None), &r));
}

#[test]
fn reference_gap_advances_cursor() {
    // The gap advances the walk: the match block spans [105, 115), clear of
    // the region [100, 105).
    let r = region("chr1", 100, 105);
    assert!(!overlaps(&record(95, vec![CigarOp::RefGap(10), CigarOp::MatchLike(10)], None, None), &r));
    // Without the gap the same block would overlap.
    assert!(overlaps(&record(95, vec![CigarOp::MatchLike(10)], None, None), &r));
}

#[test]
fn multiple_blocks_count_once() {
    let r = region("chr1", 100, 300);
    let mut e = bulk_engine(1);
    let rec = record(100, vec![CigarOp::MatchLike(50), CigarOp::RefGap(10), CigarOp::MatchLike(50)], None, None);
    e.process_record(&r, &rec).unwrap();
    let (_, content) = encode_bulk(&e.bulk);
    let expected = b"Chr\tStart\tEnd\tRegion\tCount\nchr1\t100\t300\tchr1:100-300\t1\n".to_vec();
    assert_eq!(content, expected);
}

#[test]
fn distinct_regions_counted_independently() {
    let r1 = region("chr1", 100, 200);
    let r2 = region("chr1", 150, 250);
    let rec = record(150, vec![CigarOp::MatchLike(100)], None, None);
    let mut e = bulk_engine(1);
    e.process_record(&r1, &rec).unwrap();
    e.process_record(&r2, &rec).unwrap();
    let (_, content) = encode_bulk(&e.bulk);
    let expected = b"Chr\tStart\tEnd\tRegion\tCount\n\
chr1\t100\t200\tchr1:100-200\t1\n\
chr1\t150\t250\tchr1:150-250\t1\n"
        .to_vec();
    assert_eq!(content, expected);
}

#[test]
fn locus_count_over_ceiling_excluded() {
    let r = region("chr1", 100, 200);
    let mut e = bulk_engine(1);
    e.process_record(&r, &record(150, vec![CigarOp::MatchLike(100)], Some(2), None)).unwrap();
    let (keys, content) = encode_bulk(&e.bulk);
    assert!(keys.is_empty());
    assert_eq!(content, b"Chr\tStart\tEnd\tRegion\tCount\n".to_vec());

    let mut es = single_engine(1, vec![]);
    es.process_record(&r, &record(150, vec![CigarOp::MatchLike(100)], Some(2), Some("AAAA"))).unwrap();
    let a = encode_single(&es.cells, &es.barcodes);
    assert!(a.feature_keys.is_empty());
    // the rejected record registered no barcode either
    assert!(a.barcode_keys.is_empty());
}

#[test]
fn locus_count_at_ceiling_counted() {
    let r = region("chr1", 100, 200);
    let mut e = bulk_engine(1);
    e.process_record(&r, &record(150, vec![CigarOp::MatchLike(100)], Some(1), None)).unwrap();
    let (keys, _) = encode_bulk(&e.bulk);
    assert_eq!(keys, vec![b"chr1:100-200".to_vec()]);
}

#[test]
fn missing_barcode_excluded_in_single_mode() {
    let r = region("chr1", 100, 200);
    let mut e = single_engine(1, vec![]);
    e.process_record(&r, &record(150, vec![CigarOp::MatchLike(100)], None, None)).unwrap();
    let a = encode_single(&e.cells, &e.barcodes);
    assert_eq!(a.barcodes, b"".to_vec());
    assert_eq!(a.features, b"".to_vec());
    assert_eq!(a.matrix, b"%%MatrixMarket matrix coordinate integer general\n%\n0 0 0\n".to_vec());
}

#[test]
fn allowlisted_barcode_counted() {
    let r = region("chr1", 100, 200);
    let mut e = single_engine(1, vec!["AAAA", "CCCC"]);
    e.process_record(&r, &record(150, vec![CigarOp::MatchLike(100)], None, Some("AAAA"))).unwrap();
    let a = encode_single(&e.cells, &e.barcodes);
    assert_eq!(a.barcodes, b"AAAA\n".to_vec());
    assert_eq!(a.features, b"chr1:100-200\n".to_vec());
}

#[test]
fn barcode_outside_allowlist_excluded() {
    let r = region("chr1", 100, 200);
    let mut e = single_engine(1, vec!["CCCC"]);
    e.process_record(&r, &record(150, vec![CigarOp::MatchLike(100)], None, Some("AAAA"))).unwrap();
    let a = encode_single(&e.cells, &e.barcodes);
    // no count, and the rejected barcode is not registered as observed
    assert_eq!(a.features, b"".to_vec());
    assert_eq!(a.barcodes, b"".to_vec());
}

#[test]
fn empty_allowlist_admits_every_barcode() {
    let r = region("chr1", 100, 200);
    let mut e = single_engine(1, vec![]);
    e.process_record(&r, &record(150, vec![CigarOp::MatchLike(100)], None, Some("TTTT"))).unwrap();
    let a = encode_single(&e.cells, &e.barcodes);
    assert_eq!(a.barcodes, b"TTTT\n".to_vec());
}

#[test]
fn accepted_barcode_registered_without_overlap() {
    // The barcode is observed even though the record misses the region.
    let r = region("chr1", 100, 200);
    let mut e = single_engine(1, vec![]);
    e.process_record(&r, &record(500, vec![CigarOp::MatchLike(10)], None, Some("GGGG"))).unwrap();
    let a = encode_single(&e.cells, &e.barcodes);
    assert_eq!(a.barcodes, b"GGGG\n".to_vec());
    assert_eq!(a.features, b"".to_vec());
}

#[test]
fn bulk_scenario_one_record() {
    let r = region("chr1", 100, 200);
    let mut e = bulk_engine(1);
    e.process_record(&r, &record(150, vec![CigarOp::MatchLike(100)], Some(1), None)).unwrap();
    let (_, content) = encode_bulk(&e.bulk);
    assert_eq!(content, b"Chr\tStart\tEnd\tRegion\tCount\nchr1\t100\t200\tchr1:100-200\t1\n".to_vec());
}

#[test]
fn single_scenario_two_records_one_cell() {
    let r = region("chr1", 100, 200);
    let mut e = single_engine(1, vec![]);
    let rec = record(150, vec![CigarOp::MatchLike(100)], None, Some("AAAA"));
    e.process_record(&r, &rec).unwrap();
    e.process_record(&r, &rec).unwrap();
    let a = encode_single(&e.cells, &e.barcodes);
    assert_eq!(a.barcodes, b"AAAA\n".to_vec());
    assert_eq!(a.features, b"chr1:100-200\n".to_vec());
    assert_eq!(a.matrix, b"%%MatrixMarket matrix coordinate integer general\n%\n1 1 1\n1 1 2\n".to_vec());
    assert_eq!(a.table, b"Feature\tBarcode\tCount\nchr1:100-200\tAAAA\t2\n".to_vec());
}

#[test]
fn matrix_dimensions_count_nonzero_entries() {
    // Two features, three barcodes, four nonzero cells: the third field of
    // the dimensions line equals the number of entry lines.
    let r1 = region("chr1", 100, 200);
    let r2 = region("chr2", 0, 50);
    let mut e = single_engine(1, vec![]);
    e.process_record(&r1, &record(150, vec![CigarOp::MatchLike(10)], None, Some("AAAA"))).unwrap();
    e.process_record(&r1, &record(150, vec![CigarOp::MatchLike(10)], None, Some("CCCC"))).unwrap();
    e.process_record(&r2, &record(10, vec![CigarOp::MatchLike(10)], None, Some("CCCC"))).unwrap();
    e.process_record(&r2, &record(10, vec![CigarOp::MatchLike(10)], None, Some("GGGG"))).unwrap();
    let a = encode_single(&e.cells, &e.barcodes);
    let text = String::from_utf8(a.matrix.clone()).unwrap();
    let lines: Vec<&str> = text.lines().collect();
    assert_eq!(lines[0], "%%MatrixMarket matrix coordinate integer general");
    assert_eq!(lines[1], "%");
    let dims: Vec<usize> = lines[2].split(' ').map(|f| f.parse().unwrap()).collect();
    assert_eq!(dims, vec![2, 3, 4]);
    let entries = &lines[3..];
    assert_eq!(entries.len(), dims[2]);
    assert_eq!(entries, &["1 1 1", "1 2 1", "2 2 1", "2 3 1"]);
}

#[test]
fn barcode_columns_are_one_based_positions() {
    // A barcode observed without any count still occupies a column: "AAAA"
    // is column 1, so the counted "CCCC" is column 2.
    let r = region("chr1", 100, 200);
    let mut e = single_engine(1, vec![]);
    e.process_record(&r, &record(500, vec![CigarOp::MatchLike(10)], None, Some("AAAA"))).unwrap();
    e.process_record(&r, &record(150, vec![CigarOp::MatchLike(10)], None, Some("CCCC"))).unwrap();
    let a = encode_single(&e.cells, &e.barcodes);
    assert_eq!(a.barcodes, b"AAAA\nCCCC\n".to_vec());
    assert_eq!(a.matrix, b"%%MatrixMarket matrix coordinate integer general\n%\n1 2 1\n1 2 1\n".to_vec());
}

#[test]
fn bulk_rows_sorted_by_key_string() {
    // Lexicographic key order: "chr10:..." sorts before "chr2:...".
    let r2 = region("chr2", 5, 10);
    let r10 = region("chr10", 5, 10);
    let rec = record(5, vec![CigarOp::MatchLike(5)], None, None);
    let mut e = bulk_engine(1);
    e.process_record(&r2, &rec).unwrap();
    e.process_record(&r10, &rec).unwrap();
    let (keys, _) = encode_bulk(&e.bulk);
    assert_eq!(keys, vec![b"chr10:5-10".to_vec(), b"chr2:5-10".to_vec()]);
}

#[test]
fn identical_runs_give_identical_bytes() {
    let regions = [region("chr2", 0, 500), region("chr1", 100, 200), region("chr10", 3, 9)];
    let records = [
        record(150, vec![CigarOp::MatchLike(100)], Some(1), Some("TTTT")),
        record(4, vec![CigarOp::SoftClip(3), CigarOp::MatchLike(7)], None, Some("AAAA")),
        record(480, vec![CigarOp::MatchLike(40)], None, Some("AAAA")),
    ];
    let run = || {
        let mut e = single_engine(1, vec![]);
        for r in &regions {
            for rec in &records {
                e.process_record(r, rec).unwrap();
            }
        }
        let a = encode_single(&e.cells, &e.barcodes);
        (a.barcodes, a.features, a.matrix, a.table)
    };
    assert_eq!(run(), run());
    let bulk_run = || {
        let mut e = bulk_engine(1);
        for r in &regions {
            for rec in &records {
                e.process_record(r, rec).unwrap();
            }
        }
        encode_bulk(&e.bulk).1
    };
    assert_eq!(bulk_run(), bulk_run());
}

#[test]
fn same_region_twice_accumulates_one_row() {
    // The same interval listed twice keys the same table row.
    let r = region("chr1", 100, 200);
    let rec = record(150, vec![CigarOp::MatchLike(100)], None, None);
    let mut e = bulk_engine(1);
    e.process_record(&r, &rec).unwrap();
    e.process_record(&r, &rec).unwrap();
    let (_, content) = encode_bulk(&e.bulk);
    assert_eq!(content, b"Chr\tStart\tEnd\tRegion\tCount\nchr1\t100\t200\tchr1:100-200\t2\n".to_vec());
}
