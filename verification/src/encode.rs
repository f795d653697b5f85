//! The artifact encoders: deterministic serialization of the aggregated
//! state. Every artifact is a newline-terminated byte stream; keys appear in
//! strict lexicographic order, which `lemma_sorted_unique` pins down as the
//! unique presentation, so equal states give byte-identical artifacts.

use vstd::prelude::*;
use crate::bytes::{NL, TAB, bytes_clone, dec_of, push_bytes, u64_to_dec};
use crate::sort::{distinct_seqs, lemma_seq_set_mem, seq_set, sort_keys, sorted_strict};
use crate::table::{BarcodeSet, BulkTable, BulkVal, CellTable, cell_pairs, feature_pairs,
    find_bulk, find_cell, find_feature, has_key, inner_of, lemma_assoc_contains, lemma_assoc_get,
    assoc_map};

verus! {

/// The bulk header line, `Chr`, `Start`, `End`, `Region`, `Count`,
/// tab-separated.
pub open spec fn bulk_header() -> Seq<u8> {
    seq![67u8, 104, 114, 9, 83, 116, 97, 114, 116, 9, 69, 110, 100, 9, 82, 101, 103, 105, 111, 110, 9, 67, 111, 117, 110, 116]
}

/// The long-form header line, `Feature`, `Barcode`, `Count`, tab-separated.
pub open spec fn tsv_header() -> Seq<u8> {
    seq![70u8, 101, 97, 116, 117, 114, 101, 9, 66, 97, 114, 99, 111, 100, 101, 9, 67, 111, 117, 110, 116]
}

/// The MatrixMarket format-identifier line for a general integer coordinate
/// matrix.
pub open spec fn matrix_header() -> Seq<u8> {
    seq![37u8, 37, 77, 97, 116, 114, 105, 120, 77, 97, 114, 107, 101, 116, 32, 109, 97, 116, 114, 105, 120, 32, 99, 111, 111, 114, 100, 105, 110, 97, 116, 101, 32, 105, 110, 116, 101, 103, 101, 114, 32, 103, 101, 110, 101, 114, 97, 108]
}

/// Appends the bulk header line's bytes.
fn push_bulk_header(out: &mut Vec<u8>)
    ensures
        final(out)@ == old(out)@ + bulk_header(),
{
    out.push(67);
    out.push(104);
    out.push(114);
    out.push(9);
    out.push(83);
    out.push(116);
    out.push(97);
    out.push(114);
    out.push(116);
    out.push(9);
    out.push(69);
    out.push(110);
    out.push(100);
    out.push(9);
    out.push(82);
    out.push(101);
    out.push(103);
    out.push(105);
    out.push(111);
    out.push(110);
    out.push(9);
    out.push(67);
    out.push(111);
    out.push(117);
    out.push(110);
    out.push(116);
    proof {
        assert(out@ =~= old(out)@ + bulk_header());
    }
}

/// Appends the long-form header line's bytes.
fn push_tsv_header(out: &mut Vec<u8>)
    ensures
        final(out)@ == old(out)@ + tsv_header(),
{
    out.push(70);
    out.push(101);
    out.push(97);
    out.push(116);
    out.push(117);
    out.push(114);
    out.push(101);
    out.push(9);
    out.push(66);
    out.push(97);
    out.push(114);
    out.push(99);
    out.push(111);
    out.push(100);
    out.push(101);
    out.push(9);
    out.push(67);
    out.push(111);
    out.push(117);
    out.push(110);
    out.push(116);
    proof {
        assert(out@ =~= old(out)@ + tsv_header());
    }
}

/// Appends the MatrixMarket header line's bytes.
fn push_matrix_header(out: &mut Vec<u8>)
    ensures
        final(out)@ == old(out)@ + matrix_header(),
{
    out.push(37);
    out.push(37);
    out.push(77);
    out.push(97);
    out.push(116);
    out.push(114);
    out.push(105);
    out.push(120);
    out.push(77);
    out.push(97);
    out.push(114);
    out.push(107);
    out.push(101);
    out.push(116);
    out.push(32);
    out.push(109);
    out.push(97);
    out.push(116);
    out.push(114);
    out.push(105);
    out.push(120);
    out.push(32);
    out.push(99);
    out.push(111);
    out.push(111);
    out.push(114);
    out.push(100);
    out.push(105);
    out.push(110);
    out.push(97);
    out.push(116);
    out.push(101);
    out.push(32);
    out.push(105);
    out.push(110);
    out.push(116);
    out.push(101);
    out.push(103);
    out.push(101);
    out.push(114);
    out.push(32);
    out.push(103);
    out.push(101);
    out.push(110);
    out.push(101);
    out.push(114);
    out.push(97);
    out.push(108);
    proof {
        assert(out@ =~= old(out)@ + matrix_header());
    }
}


/// Each key as one line.
pub open spec fn lines_of(ks: Seq<Seq<u8>>) -> Seq<u8>
    decreases ks.len(),
{
    if ks.len() == 0 {
        Seq::empty()
    } else {
        lines_of(ks.drop_last()) + ks.last() + seq![NL]
    }
}

/// One bulk row: chromosome, start, end, key and count, tab-separated.
pub open spec fn bulk_line(k: Seq<u8>, v: BulkVal) -> Seq<u8> {
    v.chromosome + seq![TAB] + dec_of(v.start as nat) + seq![TAB] + dec_of(v.end as nat) + seq![
        TAB,
    ] + k + seq![TAB] + dec_of(v.count as nat) + seq![NL]
}

/// The bulk rows over the keys `ks`, in order.
pub open spec fn bulk_rows(ks: Seq<Seq<u8>>, m: Map<Seq<u8>, BulkVal>) -> Seq<u8>
    decreases ks.len(),
{
    if ks.len() == 0 {
        Seq::empty()
    } else {
        bulk_rows(ks.drop_last(), m) + bulk_line(ks.last(), m[ks.last()])
    }
}

/// The whole bulk artifact over the keys `ks`.
pub open spec fn bulk_content(ks: Seq<Seq<u8>>, m: Map<Seq<u8>, BulkVal>) -> Seq<u8> {
    bulk_header() + seq![NL] + bulk_rows(ks, m)
}

/// One sparse-matrix entry line: row, column and count, space-separated,
/// indices 1-based.
pub open spec fn entry_line(row: nat, col: nat, count: u64) -> Seq<u8> {
    dec_of(row) + seq![32u8] + dec_of(col) + seq![32u8] + dec_of(count as nat) + seq![NL]
}

/// One long-form line: feature key, barcode and count, tab-separated.
pub open spec fn tsv_line(fk: Seq<u8>, b: Seq<u8>, count: u64) -> Seq<u8> {
    fk + seq![TAB] + b + seq![TAB] + dec_of(count as nat) + seq![NL]
}

/// The matrix entries of one feature, from position `j` of the sorted
/// barcode list on: one line per barcode the feature counted, columns
/// 1-based positions in that list.
pub open spec fn feature_matrix_lines(
    row: nat,
    bks: Seq<Seq<u8>>,
    j: int,
    inner: Map<Seq<u8>, u64>,
) -> Seq<u8>
    decreases bks.len() - j,
    when 0 <= j <= bks.len()
{
    if j >= bks.len() {
        Seq::empty()
    } else {
        (if inner.contains_key(bks[j]) {
            entry_line(row, (j + 1) as nat, inner[bks[j]])
        } else {
            Seq::empty()
        }) + feature_matrix_lines(row, bks, j + 1, inner)
    }
}

/// The long-form lines of one feature, in the same order.
pub open spec fn feature_tsv_lines(
    fk: Seq<u8>,
    bks: Seq<Seq<u8>>,
    j: int,
    inner: Map<Seq<u8>, u64>,
) -> Seq<u8>
    decreases bks.len() - j,
    when 0 <= j <= bks.len()
{
    if j >= bks.len() {
        Seq::empty()
    } else {
        (if inner.contains_key(bks[j]) {
            tsv_line(fk, bks[j], inner[bks[j]])
        } else {
            Seq::empty()
        }) + feature_tsv_lines(fk, bks, j + 1, inner)
    }
}

/// The matrix entries of the features from position `i` on, feature-major,
/// rows 1-based positions in `fks`.
pub open spec fn matrix_entries(
    fks: Seq<Seq<u8>>,
    i: int,
    bks: Seq<Seq<u8>>,
    m: Map<Seq<u8>, Map<Seq<u8>, u64>>,
) -> Seq<u8>
    decreases fks.len() - i,
    when 0 <= i <= fks.len()
{
    if i >= fks.len() {
        Seq::empty()
    } else {
        feature_matrix_lines((i + 1) as nat, bks, 0, inner_of(m, fks[i])) + matrix_entries(
            fks,
            i + 1,
            bks,
            m,
        )
    }
}

/// The long-form lines of the features from position `i` on.
pub open spec fn tsv_entries(
    fks: Seq<Seq<u8>>,
    i: int,
    bks: Seq<Seq<u8>>,
    m: Map<Seq<u8>, Map<Seq<u8>, u64>>,
) -> Seq<u8>
    decreases fks.len() - i,
    when 0 <= i <= fks.len()
{
    if i >= fks.len() {
        Seq::empty()
    } else {
        feature_tsv_lines(fks[i], bks, 0, inner_of(m, fks[i])) + tsv_entries(fks, i + 1, bks, m)
    }
}

/// The whole sparse-matrix artifact: format line, comment line, dimensions
/// line (features, barcodes, nonzero entries), then the entries.
pub open spec fn matrix_content(
    fks: Seq<Seq<u8>>,
    bks: Seq<Seq<u8>>,
    m: Map<Seq<u8>, Map<Seq<u8>, u64>>,
    nnz: u64,
) -> Seq<u8> {
    matrix_header() + seq![NL] + seq![37u8, NL] + dec_of(fks.len()) + seq![32u8] + dec_of(
        bks.len(),
    ) + seq![32u8] + dec_of(nnz as nat) + seq![NL] + matrix_entries(fks, 0, bks, m)
}

/// The whole long-form artifact: header line, then the entries.
pub open spec fn tsv_content(
    fks: Seq<Seq<u8>>,
    bks: Seq<Seq<u8>>,
    m: Map<Seq<u8>, Map<Seq<u8>, u64>>,
) -> Seq<u8> {
    tsv_header() + seq![NL] + tsv_entries(fks, 0, bks, m)
}

/// Serializes a list of keys, one per line.
#[verifier::loop_isolation(false)]
fn key_lines(list: &Vec<Vec<u8>>) -> (out: Vec<u8>)
    ensures
        out@ == lines_of(list.deep_view()),
{
    let mut out: Vec<u8> = Vec::new();
    let mut i: usize = 0;
    proof {
        assert(list.deep_view().take(0) =~= Seq::<Seq<u8>>::empty());
    }
    while i < list.len()
        invariant
            0 <= i <= list@.len(),
            out@ == lines_of(list.deep_view().take(i as int)),
        decreases list@.len() - i,
    {
        push_bytes(&mut out, &list[i]);
        out.push(NL);
        proof {
            let dv = list.deep_view();
            assert(dv.take(i + 1).drop_last() =~= dv.take(i as int));
            assert(dv.take(i + 1).last() == dv[i as int]);
            assert(dv[i as int] == list@[i as int]@);
            assert(out@ =~= lines_of(dv.take(i as int)) + dv[i as int] + seq![NL]);
        }
        i = i + 1;
    }
    proof {
        assert(list.deep_view().take(list@.len() as int) =~= list.deep_view());
    }
    out
}

/// Encodes the bulk table: the header line, then one row per counted region,
/// in strict lexicographic key order. Returns the sorted keys beside the
/// bytes.
#[verifier::rlimit(60)]
#[verifier::loop_isolation(false)]
pub fn encode_bulk(t: &BulkTable) -> (r: (Vec<Vec<u8>>, Vec<u8>))
    requires
        t.wf(),
    ensures
        sorted_strict(r.0.deep_view()),
        seq_set(r.0.deep_view()) == t.counts().dom(),
        r.1@ == bulk_content(r.0.deep_view(), t.counts()),
{
    let ghost pairs = t.pairs();
    let mut keys: Vec<Vec<u8>> = Vec::new();
    let mut i: usize = 0;
    while i < t.rows.len()
        invariant
            0 <= i <= t.rows@.len(),
            keys@.len() == i,
            forall|j: int| 0 <= j < i ==> (#[trigger] keys@[j])@ == pairs[j].0,
        decreases t.rows@.len() - i,
    {
        keys.push(bytes_clone(&t.rows[i].key));
        proof {
            assert(pairs[i as int].0 == t.rows@[i as int].key@);
        }
        i = i + 1;
    }
    proof {
        assert(forall|j: int| 0 <= j < keys@.len() ==> #[trigger] keys.deep_view()[j] == keys@[
            j
        ]@);
        assert(forall|j: int| 0 <= j < keys@.len() ==> #[trigger] keys.deep_view()[j] == pairs[
            j
        ].0);
        assert(distinct_seqs(keys.deep_view()));
        lemma_seq_set_mem(keys.deep_view());
        lemma_assoc_contains(pairs);
        assert(seq_set(keys.deep_view()) =~= t.counts().dom()) by {
            assert forall|x: Seq<u8>| #[trigger] seq_set(keys.deep_view()).contains(x)
                implies t.counts().dom().contains(x) by {
                let j = choose|j: int|
                    0 <= j < keys.deep_view().len() && #[trigger] keys.deep_view()[j] == x;
                assert(pairs[j].0 == x);
                assert(has_key(pairs, x));
            }
            assert forall|x: Seq<u8>| #[trigger] t.counts().dom().contains(x)
                implies seq_set(keys.deep_view()).contains(x) by {
                assert(has_key(pairs, x));
                let j = choose|j: int| 0 <= j < pairs.len() && (#[trigger] pairs[j]).0 == x;
                assert(keys.deep_view()[j] == x);
            }
        }
    }
    let sorted = sort_keys(&keys);
    let ghost ks = sorted.deep_view();
    let mut out: Vec<u8> = Vec::new();
    push_bulk_header(&mut out);
    out.push(NL);
    proof {
        assert(ks.take(0) =~= Seq::<Seq<u8>>::empty());
        assert(out@ =~= bulk_header() + seq![NL] + bulk_rows(ks.take(0), t.counts()));
        lemma_seq_set_mem(ks);
    }
    let mut i: usize = 0;
    while i < sorted.len()
        invariant
            0 <= i <= sorted@.len(),
            out@ == bulk_header() + seq![NL] + bulk_rows(ks.take(i as int), t.counts()),
        decreases sorted@.len() - i,
    {
        let key = &sorted[i];
        proof {
            assert(ks[i as int] == key@);
            assert(seq_set(ks).contains(ks[i as int]));
            assert(t.counts().dom().contains(key@));
            assert(has_key(pairs, key@));
        }
        let fi = match find_bulk(&t.rows, key) {
            Option::Some(fi) => fi,
            Option::None => {
                proof {
                    assert(false);
                }
                0
            },
        };
        proof {
            lemma_assoc_get(pairs, fi as int);
        }
        let ghost prev = out@;
        push_bytes(&mut out, &t.rows[fi].chromosome);
        out.push(TAB);
        let sdec = u64_to_dec(t.rows[fi].start);
        push_bytes(&mut out, &sdec);
        out.push(TAB);
        let edec = u64_to_dec(t.rows[fi].end);
        push_bytes(&mut out, &edec);
        out.push(TAB);
        push_bytes(&mut out, key);
        out.push(TAB);
        let cdec = u64_to_dec(t.rows[fi].count);
        push_bytes(&mut out, &cdec);
        out.push(NL);
        proof {
            let v = t.counts()[key@];
            assert(v == t.rows@[fi as int].val());
            assert(out@ =~= prev + bulk_line(key@, v));
            assert(ks.take(i + 1).drop_last() =~= ks.take(i as int));
            assert(ks.take(i + 1).last() == ks[i as int]);
            assert(out@ =~= bulk_header() + seq![NL] + bulk_rows(ks.take(i + 1), t.counts()));
        }
        i = i + 1;
    }
    proof {
        assert(ks.take(ks.len() as int) =~= ks);
    }
    (sorted, out)
}

/// The four single-cell artifacts, with the sorted key lists they are
/// indexed by: line numbers (1-based) in the key lists are the matrix's row
/// and column indices.
pub struct SingleArtifacts {
    pub feature_keys: Vec<Vec<u8>>,
    pub barcode_keys: Vec<Vec<u8>>,
    pub barcodes: Vec<u8>,
    pub features: Vec<u8>,
    pub matrix: Vec<u8>,
    pub table: Vec<u8>,
}

/// Encodes the single-cell state: the barcode index, the feature index, the
/// sparse coordinate matrix and the long-form table, all in strict
/// lexicographic key order, entries feature-major with barcodes ascending.
#[verifier::rlimit(80)]
#[verifier::loop_isolation(false)]
pub fn encode_single(cells: &CellTable, bset: &BarcodeSet) -> (a: SingleArtifacts)
    requires
        cells.wf(),
        bset.wf(),
    ensures
        sorted_strict(a.feature_keys.deep_view()),
        seq_set(a.feature_keys.deep_view()) == cells.counts().dom(),
        sorted_strict(a.barcode_keys.deep_view()),
        seq_set(a.barcode_keys.deep_view()) == bset.observed(),
        a.barcodes@ == lines_of(a.barcode_keys.deep_view()),
        a.features@ == lines_of(a.feature_keys.deep_view()),
        a.matrix@ == matrix_content(
            a.feature_keys.deep_view(),
            a.barcode_keys.deep_view(),
            cells.counts(),
            cells.nnz,
        ),
        a.table@ == tsv_content(
            a.feature_keys.deep_view(),
            a.barcode_keys.deep_view(),
            cells.counts(),
        ),
{
    let ghost fpairs = feature_pairs(cells.features@);
    let sorted_b = sort_keys(&bset.items);
    let ghost bks = sorted_b.deep_view();
    let mut fkeys: Vec<Vec<u8>> = Vec::new();
    let mut i: usize = 0;
    while i < cells.features.len()
        invariant
            0 <= i <= cells.features@.len(),
            fkeys@.len() == i,
            forall|j: int| 0 <= j < i ==> (#[trigger] fkeys@[j])@ == fpairs[j].0,
        decreases cells.features@.len() - i,
    {
        fkeys.push(bytes_clone(&cells.features[i].key));
        proof {
            assert(fpairs[i as int].0 == cells.features@[i as int].key@);
        }
        i = i + 1;
    }
    proof {
        assert(forall|j: int| 0 <= j < fkeys@.len() ==> #[trigger] fkeys.deep_view()[j] == fkeys@[
            j
        ]@);
        assert(forall|j: int| 0 <= j < fkeys@.len() ==> #[trigger] fkeys.deep_view()[j] == fpairs[
            j
        ].0);
        assert(distinct_seqs(fkeys.deep_view()));
        lemma_seq_set_mem(fkeys.deep_view());
        lemma_assoc_contains(fpairs);
        assert(seq_set(fkeys.deep_view()) =~= cells.counts().dom()) by {
            assert forall|x: Seq<u8>| #[trigger] seq_set(fkeys.deep_view()).contains(x)
                implies cells.counts().dom().contains(x) by {
                let j = choose|j: int|
                    0 <= j < fkeys.deep_view().len() && #[trigger] fkeys.deep_view()[j] == x;
                assert(fpairs[j].0 == x);
                assert(has_key(fpairs, x));
            }
            assert forall|x: Seq<u8>| #[trigger] cells.counts().dom().contains(x)
                implies seq_set(fkeys.deep_view()).contains(x) by {
                assert(has_key(fpairs, x));
                let j = choose|j: int| 0 <= j < fpairs.len() && (#[trigger] fpairs[j]).0 == x;
                assert(fkeys.deep_view()[j] == x);
            }
        }
    }
    let sorted_f = sort_keys(&fkeys);
    let ghost fks = sorted_f.deep_view();
    let barcodes_out = key_lines(&sorted_b);
    let features_out = key_lines(&sorted_f);
    let ghost m = cells.counts();
    let mut matrix: Vec<u8> = Vec::new();
    push_matrix_header(&mut matrix);
    matrix.push(NL);
    matrix.push(37);
    matrix.push(NL);
    let fdec = u64_to_dec(sorted_f.len() as u64);
    push_bytes(&mut matrix, &fdec);
    matrix.push(32);
    let bdec = u64_to_dec(sorted_b.len() as u64);
    push_bytes(&mut matrix, &bdec);
    matrix.push(32);
    let ndec = u64_to_dec(cells.nnz);
    push_bytes(&mut matrix, &ndec);
    matrix.push(NL);
    let ghost full_m = matrix_content(fks, bks, m, cells.nnz);
    let mut table_out: Vec<u8> = Vec::new();
    push_tsv_header(&mut table_out);
    table_out.push(NL);
    let ghost full_t = tsv_content(fks, bks, m);
    proof {
        lemma_seq_set_mem(fks);
        lemma_seq_set_mem(bks);
        assert(full_m =~= matrix@ + matrix_entries(fks, 0, bks, m));
        assert(full_t =~= table_out@ + tsv_entries(fks, 0, bks, m));
    }
    let mut i: usize = 0;
    while i < sorted_f.len()
        invariant
            0 <= i <= sorted_f@.len(),
            full_m == matrix@ + matrix_entries(fks, i as int, bks, m),
            full_t == table_out@ + tsv_entries(fks, i as int, bks, m),
        decreases sorted_f@.len() - i,
    {
        let fkey = &sorted_f[i];
        proof {
            assert(fks[i as int] == fkey@);
            assert(seq_set(fks).contains(fks[i as int]));
            assert(m.dom().contains(fkey@));
            assert(has_key(fpairs, fkey@));
        }
        let fi = match find_feature(&cells.features, fkey) {
            Option::Some(fi) => fi,
            Option::None => {
                proof {
                    assert(false);
                }
                0
            },
        };
        proof {
            lemma_assoc_get(fpairs, fi as int);
        }
        let ghost inner = inner_of(m, fks[i as int]);
        proof {
            assert(inner == cells.features@[fi as int].inner());
        }
        let row_num = (i + 1) as u64;
        let mut j: usize = 0;
        proof {
            assert(matrix_entries(fks, i as int, bks, m) == feature_matrix_lines(
                (i + 1) as nat,
                bks,
                0,
                inner,
            ) + matrix_entries(fks, i + 1, bks, m));
            assert(tsv_entries(fks, i as int, bks, m) == feature_tsv_lines(
                fks[i as int],
                bks,
                0,
                inner,
            ) + tsv_entries(fks, i + 1, bks, m));
        }
        while j < sorted_b.len()
            invariant
                0 <= j <= sorted_b@.len(),
                0 <= i < sorted_f@.len(),
                fi < cells.features@.len(),
                inner == cells.features@[fi as int].inner(),
                inner == inner_of(m, fks[i as int]),
                row_num == i + 1,
                full_m == matrix@ + feature_matrix_lines((i + 1) as nat, bks, j as int, inner)
                    + matrix_entries(fks, i + 1, bks, m),
                full_t == table_out@ + feature_tsv_lines(fks[i as int], bks, j as int, inner)
                    + tsv_entries(fks, i + 1, bks, m),
            decreases sorted_b@.len() - j,
        {
            let bkey = &sorted_b[j];
            proof {
                assert(bks[j as int] == bkey@);
            }
            let ghost cpairs = cell_pairs(cells.features@[fi as int].cells@);
            match find_cell(&cells.features[fi].cells, bkey) {
                Option::Some(ci) => {
                    proof {
                        lemma_assoc_get(cpairs, ci as int);
                        assert(inner.contains_key(bkey@));
                        assert(inner[bkey@] == cpairs[ci as int].1);
                    }
                    let c = cells.features[fi].cells[ci].count;
                    let col_num = (j + 1) as u64;
                    let ghost prev_m = matrix@;
                    let ghost prev_t = table_out@;
                    let rdec = u64_to_dec(row_num);
                    push_bytes(&mut matrix, &rdec);
                    matrix.push(32);
                    let cdec = u64_to_dec(col_num);
                    push_bytes(&mut matrix, &cdec);
                    matrix.push(32);
                    let vdec = u64_to_dec(c);
                    push_bytes(&mut matrix, &vdec);
                    matrix.push(NL);
                    push_bytes(&mut table_out, fkey);
                    table_out.push(TAB);
                    push_bytes(&mut table_out, bkey);
                    table_out.push(TAB);
                    push_bytes(&mut table_out, &vdec);
                    table_out.push(NL);
                    proof {
                        assert(matrix@ =~= prev_m + entry_line(
                            (i + 1) as nat,
                            (j + 1) as nat,
                            c,
                        ));
                        assert(table_out@ =~= prev_t + tsv_line(fks[i as int], bks[j as int], c));
                        assert(feature_matrix_lines((i + 1) as nat, bks, j as int, inner)
                            == entry_line((i + 1) as nat, (j + 1) as nat, c)
                            + feature_matrix_lines((i + 1) as nat, bks, j + 1, inner));
                        assert(feature_tsv_lines(fks[i as int], bks, j as int, inner) == tsv_line(
                            fks[i as int],
                            bks[j as int],
                            c,
                        ) + feature_tsv_lines(fks[i as int], bks, j + 1, inner));
                        assert(full_m == matrix@ + feature_matrix_lines(
                            (i + 1) as nat,
                            bks,
                            j + 1,
                            inner,
                        ) + matrix_entries(fks, i + 1, bks, m));
                        assert(full_t == table_out@ + feature_tsv_lines(
                            fks[i as int],
                            bks,
                            j + 1,
                            inner,
                        ) + tsv_entries(fks, i + 1, bks, m));
                    }
                },
                Option::None => {
                    proof {
                        lemma_assoc_contains(cpairs);
                        assert(!inner.contains_key(bkey@));
                        assert(feature_matrix_lines((i + 1) as nat, bks, j as int, inner)
                            == feature_matrix_lines((i + 1) as nat, bks, j + 1, inner));
                        assert(feature_tsv_lines(fks[i as int], bks, j as int, inner)
                            == feature_tsv_lines(fks[i as int], bks, j + 1, inner));
                    }
                },
            }
            j = j + 1;
        }
        proof {
            assert(feature_matrix_lines((i + 1) as nat, bks, sorted_b@.len() as int, inner)
                =~= Seq::<u8>::empty());
            assert(feature_tsv_lines(fks[i as int], bks, sorted_b@.len() as int, inner)
                =~= Seq::<u8>::empty());
            assert(full_m == matrix@ + matrix_entries(fks, i + 1, bks, m));
            assert(full_t == table_out@ + tsv_entries(fks, i + 1, bks, m));
        }
        i = i + 1;
    }
    proof {
        assert(matrix_entries(fks, sorted_f@.len() as int, bks, m) =~= Seq::<u8>::empty());
        assert(tsv_entries(fks, sorted_f@.len() as int, bks, m) =~= Seq::<u8>::empty());
        assert(matrix@ =~= full_m);
        assert(table_out@ =~= full_t);
    }
    SingleArtifacts {
        feature_keys: sorted_f,
        barcode_keys: sorted_b,
        barcodes: barcodes_out,
        features: features_out,
        matrix,
        table: table_out,
    }
}

} // verus!
