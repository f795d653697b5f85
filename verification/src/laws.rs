//! Laws of the engine, each proved from the contracts the library states:
//! independence of regions, the two filter exclusions, allowlist rejection,
//! and determinism of the serialization.

use vstd::prelude::*;
use crate::bytes::{NL, dec_of};
use crate::encode::{bulk_content, entry_line, feature_matrix_lines, lines_of, matrix_content,
    matrix_entries, tsv_content};
use crate::engine::{bulk_bumped, cell_bumped};
use crate::filter::{accepted, in_allowlist};
use crate::model::{AlignmentRecord, FilterConfig, Mode};
use crate::sort::{distinct_seqs, lemma_seq_set_mem, lemma_sorted_unique, seq_set, sorted_strict};
use crate::table::{BarcodeSet, BulkVal, CellTable, FeatureRow, cell_pairs, feature_pairs,
    inner_of, lemma_assoc_card, lemma_assoc_contains, lemma_assoc_get, total_pairs};

verus! {

/// A record that overlaps two distinct regions counts toward both,
/// independently: after one bulk count under `k1` and one under `k2`, each
/// key's count is one higher than before.
pub proof fn lemma_regions_independent_bulk(
    m: Map<Seq<u8>, BulkVal>,
    k1: Seq<u8>,
    k2: Seq<u8>,
    c1: Seq<u8>,
    s1: u64,
    e1: u64,
    c2: Seq<u8>,
    s2: u64,
    e2: u64,
)
    requires
        k1 != k2,
        m.contains_key(k1) ==> m[k1].count < u64::MAX,
        m.contains_key(k2) ==> m[k2].count < u64::MAX,
    ensures
        ({
            let m2 = bulk_bumped(bulk_bumped(m, k1, c1, s1, e1), k2, c2, s2, e2);
            &&& m2.contains_key(k1) && m2.contains_key(k2)
            &&& m2[k1].count == (if m.contains_key(k1) {
                m[k1].count + 1
            } else {
                1
            })
            &&& m2[k2].count == (if m.contains_key(k2) {
                m[k2].count + 1
            } else {
                1
            })
        }),
{
}

/// The same independence in single-cell mode: one count for barcode `b`
/// under each of two distinct region keys leaves both cells one higher.
pub proof fn lemma_regions_independent_single(
    m: Map<Seq<u8>, Map<Seq<u8>, u64>>,
    k1: Seq<u8>,
    k2: Seq<u8>,
    b: Seq<u8>,
)
    requires
        k1 != k2,
        inner_of(m, k1).contains_key(b) ==> inner_of(m, k1)[b] < u64::MAX,
        inner_of(m, k2).contains_key(b) ==> inner_of(m, k2)[b] < u64::MAX,
    ensures
        ({
            let m2 = cell_bumped(cell_bumped(m, k1, b), k2, b);
            &&& m2.contains_key(k1) && m2.contains_key(k2)
            &&& m2[k1][b] == (if inner_of(m, k1).contains_key(b) {
                inner_of(m, k1)[b] + 1
            } else {
                1
            })
            &&& m2[k2][b] == (if inner_of(m, k2).contains_key(b) {
                inner_of(m, k2)[b] + 1
            } else {
                1
            })
        }),
{
}

/// A record whose locus-count tag exceeds the ceiling is accepted in neither
/// mode, so it contributes to no region's count.
pub proof fn lemma_locus_filtered(
    record: &AlignmentRecord,
    mode: Mode,
    config: &FilterConfig,
    n: u64,
)
    requires
        record.locus_count == Some(n),
        n > config.max_loci,
    ensures
        !accepted(record, mode, config),
{
}

/// In single-cell mode a record without a barcode tag is not accepted: it
/// contributes to no region, and the engine registers no barcode for it.
pub proof fn lemma_missing_barcode(record: &AlignmentRecord, config: &FilterConfig)
    requires
        record.cell_barcode is None,
    ensures
        !accepted(record, Mode::Single, config),
{
}

/// With a non-empty allowlist, a record whose barcode is not a member is not
/// accepted in single-cell mode: it contributes to no region's count, and
/// its barcode is not registered as observed.
pub proof fn lemma_allowlist_rejected(record: &AlignmentRecord, config: &FilterConfig)
    requires
        config.allowlist@.len() > 0,
        record.cell_barcode is Some,
        !in_allowlist(config.allowlist.deep_view(), record.cell_barcode.unwrap()@),
    ensures
        !accepted(record, Mode::Single, config),
{
    assert(config.allowlist.deep_view().len() == config.allowlist@.len());
}

/// The bulk artifact is a function of the count table alone: any two strictly
/// sorted presentations of its keys are the same presentation, so two runs
/// over equal tables serialize byte-identically.
pub proof fn lemma_bulk_encoding_deterministic(
    ks1: Seq<Seq<u8>>,
    ks2: Seq<Seq<u8>>,
    m: Map<Seq<u8>, BulkVal>,
)
    requires
        sorted_strict(ks1),
        sorted_strict(ks2),
        seq_set(ks1) == seq_set(ks2),
    ensures
        bulk_content(ks1, m) == bulk_content(ks2, m),
{
    lemma_sorted_unique(ks1, ks2);
}

/// The four single-cell artifacts are functions of the count table, the
/// barcode set and the nonzero-cell counter alone, for the same reason.
pub proof fn lemma_single_encoding_deterministic(
    fks1: Seq<Seq<u8>>,
    fks2: Seq<Seq<u8>>,
    bks1: Seq<Seq<u8>>,
    bks2: Seq<Seq<u8>>,
    m: Map<Seq<u8>, Map<Seq<u8>, u64>>,
    nnz: u64,
)
    requires
        sorted_strict(fks1),
        sorted_strict(fks2),
        seq_set(fks1) == seq_set(fks2),
        sorted_strict(bks1),
        sorted_strict(bks2),
        seq_set(bks1) == seq_set(bks2),
    ensures
        lines_of(fks1) == lines_of(fks2),
        lines_of(bks1) == lines_of(bks2),
        matrix_content(fks1, bks1, m, nnz) == matrix_content(fks2, bks2, m, nnz),
        tsv_content(fks1, bks1, m) == tsv_content(fks2, bks2, m),
{
    lemma_sorted_unique(fks1, fks2);
    lemma_sorted_unique(bks1, bks2);
}


/// The number of entries the matrix lists for one feature, scanning the
/// barcode list from position `j` on.
pub open spec fn feature_entry_count(bks: Seq<Seq<u8>>, j: int, inner: Map<Seq<u8>, u64>) -> nat
    decreases bks.len() - j,
    when 0 <= j <= bks.len()
{
    if j >= bks.len() {
        0
    } else {
        (if inner.contains_key(bks[j]) {
            1nat
        } else {
            0nat
        }) + feature_entry_count(bks, j + 1, inner)
    }
}

/// The number of entries the matrix lists in all, features from `i` on.
pub open spec fn matrix_entry_count(
    fks: Seq<Seq<u8>>,
    i: int,
    bks: Seq<Seq<u8>>,
    m: Map<Seq<u8>, Map<Seq<u8>, u64>>,
) -> nat
    decreases fks.len() - i,
    when 0 <= i <= fks.len()
{
    if i >= fks.len() {
        0
    } else {
        feature_entry_count(bks, 0, inner_of(m, fks[i])) + matrix_entry_count(fks, i + 1, bks, m)
    }
}

/// Scanning from `j` lists one entry per counted barcode among the remaining
/// list positions.
proof fn lemma_feature_count_from(bks: Seq<Seq<u8>>, j: int, inner: Map<Seq<u8>, u64>)
    requires
        0 <= j <= bks.len(),
        distinct_seqs(bks),
        inner.dom().finite(),
    ensures
        feature_entry_count(bks, j, inner) == inner.dom().intersect(seq_set(bks.skip(j))).len(),
    decreases bks.len() - j,
{
    if j == bks.len() {
        assert(bks.skip(j) =~= Seq::<Seq<u8>>::empty());
        assert(inner.dom().intersect(seq_set(bks.skip(j))) =~= Set::<Seq<u8>>::empty());
    } else {
        lemma_feature_count_from(bks, j + 1, inner);
        lemma_seq_set_mem(bks.skip(j));
        lemma_seq_set_mem(bks.skip(j + 1));
        let cur = seq_set(bks.skip(j));
        let nxt = seq_set(bks.skip(j + 1));
        assert(cur =~= nxt.insert(bks[j])) by {
            assert forall|x: Seq<u8>| #[trigger] cur.contains(x) implies nxt.insert(
                bks[j],
            ).contains(x) by {
                let t = choose|t: int| 0 <= t < bks.skip(j).len() && #[trigger] bks.skip(j)[t]
                    == x;
                if t == 0 {
                    assert(x == bks[j]);
                } else {
                    assert(bks.skip(j + 1)[t - 1] == x);
                }
            }
            assert forall|x: Seq<u8>| #[trigger] nxt.insert(bks[j]).contains(x)
                implies cur.contains(x) by {
                if x == bks[j] {
                    assert(bks.skip(j)[0] == x);
                } else {
                    let t = choose|t: int|
                        0 <= t < bks.skip(j + 1).len() && #[trigger] bks.skip(j + 1)[t] == x;
                    assert(bks.skip(j)[t + 1] == x);
                }
            }
        }
        assert(!nxt.contains(bks[j])) by {
            if nxt.contains(bks[j]) {
                let t = choose|t: int| 0 <= t < bks.skip(j + 1).len() && #[trigger] bks.skip(
                    j + 1,
                )[t] == bks[j];
                assert(bks[j + 1 + t] == bks[j]);
            }
        }
        assert(inner.dom().intersect(nxt).finite());
        if inner.contains_key(bks[j]) {
            assert(inner.dom().intersect(cur) =~= inner.dom().intersect(nxt).insert(bks[j]));
            assert(!inner.dom().intersect(nxt).contains(bks[j]));
        } else {
            assert(inner.dom().intersect(cur) =~= inner.dom().intersect(nxt));
        }
    }
}

/// When every counted barcode stands in the distinct barcode list, the matrix
/// lists exactly one entry per counted barcode of the feature.
pub proof fn lemma_feature_entry_count(bks: Seq<Seq<u8>>, inner: Map<Seq<u8>, u64>)
    requires
        distinct_seqs(bks),
        inner.dom().finite(),
        forall|b: Seq<u8>| #[trigger] inner.contains_key(b) ==> seq_set(bks).contains(b),
    ensures
        feature_entry_count(bks, 0, inner) == inner.dom().len(),
{
    lemma_feature_count_from(bks, 0, inner);
    assert(bks.skip(0) =~= bks);
    assert(inner.dom().intersect(seq_set(bks)) =~= inner.dom());
}

/// The per-feature counted-barcode totals of the keys from `i` on.
pub open spec fn key_sum_from(
    ks: Seq<Seq<u8>>,
    i: int,
    m: Map<Seq<u8>, Map<Seq<u8>, u64>>,
) -> nat
    decreases ks.len() - i,
    when 0 <= i <= ks.len()
{
    if i >= ks.len() {
        0
    } else {
        inner_of(m, ks[i]).dom().len() + key_sum_from(ks, i + 1, m)
    }
}

/// Equal key suffixes have equal totals.
proof fn lemma_key_sum_congruent(
    a: Seq<Seq<u8>>,
    i: int,
    b: Seq<Seq<u8>>,
    j: int,
    m: Map<Seq<u8>, Map<Seq<u8>, u64>>,
)
    requires
        0 <= i <= a.len(),
        0 <= j <= b.len(),
        a.len() - i == b.len() - j,
        forall|t: int| 0 <= t < a.len() - i ==> #[trigger] a[i + t] == b[j + t],
    ensures
        key_sum_from(a, i, m) == key_sum_from(b, j, m),
    decreases a.len() - i,
{
    if i < a.len() {
        assert(a[i] == b[j]) by {
            assert(a[i + 0] == b[j + 0]);
        }
        assert forall|t: int| 0 <= t < a.len() - (i + 1) implies #[trigger] a[i + 1 + t] == b[
            j + 1 + t
        ] by {
            assert(a[i + (t + 1)] == b[j + (t + 1)]);
        }
        lemma_key_sum_congruent(a, i + 1, b, j + 1, m);
    }
}

/// Taking one key out takes exactly its feature's total out.
proof fn lemma_key_sum_remove(
    ks: Seq<Seq<u8>>,
    i: int,
    idx: int,
    m: Map<Seq<u8>, Map<Seq<u8>, u64>>,
)
    requires
        0 <= i <= idx < ks.len(),
    ensures
        key_sum_from(ks, i, m) == key_sum_from(ks.remove(idx), i, m) + inner_of(
            m,
            ks[idx],
        ).dom().len(),
    decreases idx - i,
{
    if i == idx {
        assert(forall|t: int| 0 <= t < ks.remove(idx).len() - i ==> #[trigger] ks.remove(idx)[i + t] == ks[
            i + 1 + t
        ]);
        lemma_key_sum_congruent(ks.remove(idx), i, ks, i + 1, m);
    } else {
        lemma_key_sum_remove(ks, i + 1, idx, m);
        assert(ks.remove(idx)[i] == ks[i]);
    }
}

/// The total is the same over any two distinct key sequences with the same
/// element set.
proof fn lemma_key_sum_perm(a: Seq<Seq<u8>>, b: Seq<Seq<u8>>, m: Map<Seq<u8>, Map<Seq<u8>, u64>>)
    requires
        distinct_seqs(a),
        distinct_seqs(b),
        seq_set(a) == seq_set(b),
    ensures
        key_sum_from(a, 0, m) == key_sum_from(b, 0, m),
    decreases a.len(),
{
    lemma_seq_set_mem(a);
    lemma_seq_set_mem(b);
    if a.len() == 0 {
        if b.len() > 0 {
            assert(b[0] == b[0]);
            assert(seq_set(b).contains(b[0]));
            assert(seq_set(a).contains(b[0]));
            assert(false);
        }
    } else {
        let x = a.last();
        assert(a[a.len() - 1] == x);
        assert(seq_set(a).contains(x));
        assert(seq_set(b).contains(x));
        let idx = choose|idx: int| 0 <= idx < b.len() && b[idx] == x;
        lemma_key_sum_remove(a, 0, a.len() - 1, m);
        lemma_key_sum_remove(b, 0, idx, m);
        let a2 = a.remove(a.len() - 1);
        let b2 = b.remove(idx);
        assert(distinct_seqs(a2)) by {
            assert(forall|p: int, q: int| 0 <= p < q < a2.len() ==> a2[p] == a[p] && a2[q]
                == a[q]);
        }
        assert(distinct_seqs(b2)) by {
            assert forall|p: int, q: int| 0 <= p < q < b2.len() implies b2[p] != b2[q] by {
                let p0: int = if p < idx {
                    p
                } else {
                    p + 1
                };
                let q0: int = if q < idx {
                    q
                } else {
                    q + 1
                };
                assert(b2[p] == b[p0]);
                assert(b2[q] == b[q0]);
            }
        }
        lemma_seq_set_mem(a2);
        lemma_seq_set_mem(b2);
        assert(seq_set(a2) =~= seq_set(b2)) by {
            assert forall|y: Seq<u8>| #[trigger] seq_set(a2).contains(y) implies seq_set(
                b2,
            ).contains(y) by {
                let t = choose|t: int| 0 <= t < a2.len() && #[trigger] a2[t] == y;
                assert(a[t] == y);
                assert(y != x);
                assert(seq_set(b).contains(y));
                let u = choose|u: int| 0 <= u < b.len() && #[trigger] b[u] == y;
                assert(u != idx);
                if u < idx {
                    assert(b2[u] == y);
                } else {
                    assert(b2[u - 1] == y);
                }
            }
            assert forall|y: Seq<u8>| #[trigger] seq_set(b2).contains(y) implies seq_set(
                a2,
            ).contains(y) by {
                let t = choose|t: int| 0 <= t < b2.len() && #[trigger] b2[t] == y;
                let t0: int = if t < idx {
                    t
                } else {
                    t + 1
                };
                assert(b[t0] == y);
                assert(y != x) by {
                    if y == x {
                        assert(b[t0] == b[idx]);
                    }
                }
                assert(seq_set(a).contains(y));
                let u = choose|u: int| 0 <= u < a.len() && #[trigger] a[u] == y;
                assert(u != a.len() - 1);
                assert(a2[u] == y);
            }
        }
        lemma_key_sum_perm(a2, b2, m);
    }
}

/// The keys of the feature rows, in row order.
pub open spec fn keys_of_rows(rows: Seq<FeatureRow>) -> Seq<Seq<u8>> {
    rows.map_values(|f: FeatureRow| f.key@)
}

/// Over the rows' own keys, the per-key totals add up to the table's entry
/// total, whenever `m` agrees with the rows.
proof fn lemma_key_sum_rows(rows: Seq<FeatureRow>, m: Map<Seq<u8>, Map<Seq<u8>, u64>>)
    requires
        forall|i: int| 0 <= i < rows.len() ==> distinct_keys_of_cells(#[trigger] rows[i]),
        forall|i: int| 0 <= i < rows.len() ==> inner_of(m, (#[trigger] rows[i]).key@) == rows[
            i
        ].inner(),
    ensures
        key_sum_from(keys_of_rows(rows), 0, m) == total_pairs(rows),
    decreases rows.len(),
{
    if rows.len() > 0 {
        let ks = keys_of_rows(rows);
        lemma_key_sum_remove(ks, 0, ks.len() - 1, m);
        assert(ks.remove(ks.len() - 1) =~= keys_of_rows(rows.drop_last()));
        assert(ks[ks.len() - 1] == rows.last().key@);
        lemma_assoc_card(cell_pairs(rows.last().cells@));
        assert(inner_of(m, rows.last().key@) == rows.last().inner());
        assert(cell_pairs(rows.last().cells@).len() == rows.last().cells@.len());
        assert(forall|i: int| 0 <= i < rows.drop_last().len() ==> rows.drop_last()[i] == rows[i]);
        lemma_key_sum_rows(rows.drop_last(), m);
    }
}

/// The cell rows of `row` have distinct barcodes.
pub open spec fn distinct_keys_of_cells(row: FeatureRow) -> bool {
    crate::table::distinct_keys(cell_pairs(row.cells@))
}

/// The matrix's per-feature entries add up to the per-key totals.
proof fn lemma_count_is_key_sum(
    fks: Seq<Seq<u8>>,
    i: int,
    bks: Seq<Seq<u8>>,
    m: Map<Seq<u8>, Map<Seq<u8>, u64>>,
)
    requires
        0 <= i <= fks.len(),
        distinct_seqs(bks),
        forall|k: Seq<u8>| #[trigger] m.contains_key(k) ==> m[k].dom().finite(),
        forall|k: Seq<u8>, b: Seq<u8>|
            m.contains_key(k) && #[trigger] m[k].contains_key(b) ==> seq_set(bks).contains(b),
    ensures
        matrix_entry_count(fks, i, bks, m) == key_sum_from(fks, i, m),
    decreases fks.len() - i,
{
    if i < fks.len() {
        let inner = inner_of(m, fks[i]);
        if m.contains_key(fks[i]) {
            assert(inner.dom().finite());
            assert(forall|b: Seq<u8>| #[trigger] inner.contains_key(b) ==> seq_set(bks).contains(
                b,
            ));
        } else {
            assert(inner =~= Map::<Seq<u8>, u64>::empty());
            assert(inner.dom() =~= Set::<Seq<u8>>::empty());
        }
        lemma_feature_entry_count(bks, inner);
        lemma_count_is_key_sum(fks, i + 1, bks, m);
    }
}


/// How many times `b` occurs in `s`.
pub open spec fn count_byte(s: Seq<u8>, b: u8) -> nat
    decreases s.len(),
{
    if s.len() == 0 {
        0
    } else {
        count_byte(s.drop_last(), b) + (if s.last() == b {
            1nat
        } else {
            0nat
        })
    }
}

/// Occurrences add up over concatenation.
proof fn lemma_count_byte_concat(x: Seq<u8>, y: Seq<u8>, b: u8)
    ensures
        count_byte(x + y, b) == count_byte(x, b) + count_byte(y, b),
    decreases y.len(),
{
    if y.len() == 0 {
        assert(x + y =~= x);
    } else {
        assert((x + y).drop_last() =~= x + y.drop_last());
        assert((x + y).last() == y.last());
        lemma_count_byte_concat(x, y.drop_last(), b);
    }
}

/// A one-byte sequence holds one occurrence or none.
proof fn lemma_count_byte_single(x: u8, b: u8)
    ensures
        count_byte(seq![x], b) == (if x == b {
            1nat
        } else {
            0nat
        }),
{
    assert(seq![x].drop_last() =~= Seq::<u8>::empty());
    assert(seq![x].last() == x);
    assert(count_byte(Seq::<u8>::empty(), b) == 0);
    assert(seq![x].len() == 1);
    assert(count_byte(seq![x], b) == count_byte(seq![x].drop_last(), b) + (if x == b {
        1nat
    } else {
        0nat
    }));
}

/// A decimal rendering is digits alone.
proof fn lemma_dec_of_digits(n: nat)
    ensures
        forall|i: int| 0 <= i < dec_of(n).len() ==> 48 <= #[trigger] dec_of(n)[i] <= 57,
    decreases n,
{
    if n < 10 {
        assert(dec_of(n) == seq![(48 + n) as u8]);
        assert(dec_of(n)[0] == (48 + n) as u8);
    } else {
        lemma_dec_of_digits(n / 10);
        assert(dec_of(n) == dec_of(n / 10).push((48 + n % 10) as u8));
        assert forall|i: int| 0 <= i < dec_of(n).len() implies 48 <= #[trigger] dec_of(n)[i]
            <= 57 by {
            if i < dec_of(n / 10).len() {
                assert(dec_of(n)[i] == dec_of(n / 10)[i]);
            } else {
                assert(dec_of(n)[i] == (48 + n % 10) as u8);
            }
        }
    }
}

/// No newline hides among digits.
proof fn lemma_digits_no_nl(s: Seq<u8>)
    requires
        forall|i: int| 0 <= i < s.len() ==> 48 <= #[trigger] s[i] <= 57,
    ensures
        count_byte(s, NL) == 0,
    decreases s.len(),
{
    if s.len() > 0 {
        assert(forall|i: int| 0 <= i < s.drop_last().len() ==> s.drop_last()[i] == #[trigger] s[
            i
        ]);
        lemma_digits_no_nl(s.drop_last());
    }
}

/// Each matrix entry line holds exactly one newline, its terminator.
proof fn lemma_entry_line_one_nl(row: nat, col: nat, count: u64)
    ensures
        count_byte(entry_line(row, col, count), NL) == 1,
{
    let d1 = dec_of(row);
    let d2 = dec_of(col);
    let d3 = dec_of(count as nat);
    lemma_dec_of_digits(row);
    lemma_dec_of_digits(col);
    lemma_dec_of_digits(count as nat);
    lemma_digits_no_nl(d1);
    lemma_digits_no_nl(d2);
    lemma_digits_no_nl(d3);
    lemma_count_byte_single(32u8, NL);
    lemma_count_byte_single(NL, NL);
    lemma_count_byte_concat(d1, seq![32u8], NL);
    lemma_count_byte_concat(d1 + seq![32u8], d2, NL);
    lemma_count_byte_concat(d1 + seq![32u8] + d2, seq![32u8], NL);
    lemma_count_byte_concat(d1 + seq![32u8] + d2 + seq![32u8], d3, NL);
    lemma_count_byte_concat(d1 + seq![32u8] + d2 + seq![32u8] + d3, seq![NL], NL);
}

/// One feature's entry bytes hold one newline per listed entry.
proof fn lemma_feature_lines_nl(row: nat, bks: Seq<Seq<u8>>, j: int, inner: Map<Seq<u8>, u64>)
    requires
        0 <= j <= bks.len(),
    ensures
        count_byte(feature_matrix_lines(row, bks, j, inner), NL) == feature_entry_count(
            bks,
            j,
            inner,
        ),
    decreases bks.len() - j,
{
    if j >= bks.len() {
    } else {
        lemma_feature_lines_nl(row, bks, j + 1, inner);
        if inner.contains_key(bks[j]) {
            lemma_entry_line_one_nl(row, (j + 1) as nat, inner[bks[j]]);
            lemma_count_byte_concat(
                entry_line(row, (j + 1) as nat, inner[bks[j]]),
                feature_matrix_lines(row, bks, j + 1, inner),
                NL,
            );
        } else {
            lemma_count_byte_concat(
                Seq::<u8>::empty(),
                feature_matrix_lines(row, bks, j + 1, inner),
                NL,
            );
        }
    }
}

/// The whole entries section holds one newline per listed entry.
proof fn lemma_matrix_entries_nl(
    fks: Seq<Seq<u8>>,
    i: int,
    bks: Seq<Seq<u8>>,
    m: Map<Seq<u8>, Map<Seq<u8>, u64>>,
)
    requires
        0 <= i <= fks.len(),
    ensures
        count_byte(matrix_entries(fks, i, bks, m), NL) == matrix_entry_count(fks, i, bks, m),
    decreases fks.len() - i,
{
    if i < fks.len() {
        lemma_matrix_entries_nl(fks, i + 1, bks, m);
        lemma_feature_lines_nl((i + 1) as nat, bks, 0, inner_of(m, fks[i]));
        lemma_count_byte_concat(
            feature_matrix_lines((i + 1) as nat, bks, 0, inner_of(m, fks[i])),
            matrix_entries(fks, i + 1, bks, m),
            NL,
        );
    }
}

/// The dimensions line's third field counts the entry lines exactly: over any
/// distinct presentations of the feature keys and the observed barcodes, the
/// matrix lists as many entries as the nonzero-cell counter says.
pub proof fn lemma_matrix_entries_match_nnz(
    cells: &CellTable,
    bset: &BarcodeSet,
    fks: Seq<Seq<u8>>,
    bks: Seq<Seq<u8>>,
)
    requires
        cells.wf(),
        bset.wf(),
        forall|k: Seq<u8>, b: Seq<u8>|
            cells.counts().contains_key(k) && #[trigger] cells.counts()[k].contains_key(b)
                ==> bset.observed().contains(b),
        distinct_seqs(fks),
        seq_set(fks) == cells.counts().dom(),
        distinct_seqs(bks),
        seq_set(bks) == bset.observed(),
    ensures
        matrix_entry_count(fks, 0, bks, cells.counts()) == cells.nnz,
        count_byte(matrix_entries(fks, 0, bks, cells.counts()), NL) == cells.nnz,
{
    lemma_matrix_entries_nl(fks, 0, bks, cells.counts());
    let m = cells.counts();
    let fp = feature_pairs(cells.features@);
    lemma_assoc_contains(fp);
    assert forall|k: Seq<u8>| #[trigger] m.contains_key(k) implies m[k].dom().finite() by {
        let i = choose|i: int| 0 <= i < fp.len() && (#[trigger] fp[i]).0 == k;
        lemma_assoc_get(fp, i);
        lemma_assoc_card(cell_pairs(cells.features@[i].cells@));
    }
    lemma_count_is_key_sum(fks, 0, bks, m);
    let rks = keys_of_rows(cells.features@);
    assert(distinct_seqs(rks)) by {
        assert forall|p: int, q: int| 0 <= p < q < rks.len() implies rks[p] != rks[q] by {
            assert(rks[p] == (fp[p]).0);
            assert(rks[q] == (fp[q]).0);
            assert((fp[p]).0 != (fp[q]).0);
        }
    }
    lemma_seq_set_mem(rks);
    assert(seq_set(rks) =~= m.dom()) by {
        assert forall|x: Seq<u8>| #[trigger] seq_set(rks).contains(x) implies m.dom().contains(
            x,
        ) by {
            let t = choose|t: int| 0 <= t < rks.len() && #[trigger] rks[t] == x;
            assert(fp[t].0 == x);
        }
        assert forall|x: Seq<u8>| #[trigger] m.dom().contains(x) implies seq_set(rks).contains(
            x,
        ) by {
            let t = choose|t: int| 0 <= t < fp.len() && (#[trigger] fp[t]).0 == x;
            assert(rks[t] == x);
        }
    }
    lemma_key_sum_perm(fks, rks, m);
    assert forall|i: int| 0 <= i < cells.features@.len() implies inner_of(
        m,
        (#[trigger] cells.features@[i]).key@,
    ) == cells.features@[i].inner() by {
        lemma_assoc_get(fp, i);
    }
    lemma_key_sum_rows(cells.features@, m);
}

} // verus!
