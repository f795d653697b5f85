//! The count tables: association lists keyed by byte strings, viewed as
//! finite maps. The bulk table maps a region key to its presentation fields
//! and a count; the single-cell table maps a region key to a barcode-count
//! map; the barcode set records every observed barcode.

use vstd::prelude::*;
use crate::bytes::{bytes_clone, bytes_eq};
use crate::model::{EngineError, Region, key_of, region_key};
use crate::sort::{distinct_seqs, seq_set};

verus! {

/// The finite map an association list denotes; later entries would win, but
/// every list below keeps its keys distinct.
pub open spec fn assoc_map<V>(s: Seq<(Seq<u8>, V)>) -> Map<Seq<u8>, V>
    decreases s.len(),
{
    if s.len() == 0 {
        Map::empty()
    } else {
        assoc_map(s.drop_last()).insert(s.last().0, s.last().1)
    }
}

/// Whether some entry carries the key `k`.
pub open spec fn has_key<V>(s: Seq<(Seq<u8>, V)>, k: Seq<u8>) -> bool {
    exists|i: int| 0 <= i < s.len() && (#[trigger] s[i]).0 == k
}

/// No two entries share a key.
pub open spec fn distinct_keys<V>(s: Seq<(Seq<u8>, V)>) -> bool {
    forall|i: int, j: int| 0 <= i < j < s.len() ==> (#[trigger] s[i]).0 != (#[trigger] s[j]).0
}

/// The domain of the denoted map is the set of listed keys.
pub proof fn lemma_assoc_contains<V>(s: Seq<(Seq<u8>, V)>)
    ensures
        forall|k: Seq<u8>| #[trigger] assoc_map(s).contains_key(k) <==> has_key(s, k),
    decreases s.len(),
{
    if s.len() > 0 {
        lemma_assoc_contains(s.drop_last());
        assert(assoc_map(s) == assoc_map(s.drop_last()).insert(s.last().0, s.last().1));
        assert forall|k: Seq<u8>| #[trigger] assoc_map(s).contains_key(k) implies has_key(
            s,
            k,
        ) by {
            if k == s.last().0 {
                assert((s[s.len() - 1]).0 == k);
            } else {
                assert(assoc_map(s.drop_last()).contains_key(k));
                let i = choose|i: int|
                    0 <= i < s.drop_last().len() && (#[trigger] s.drop_last()[i]).0 == k;
                assert((s[i]).0 == k);
            }
        }
        assert forall|k: Seq<u8>| has_key(s, k) implies #[trigger] assoc_map(s).contains_key(
            k,
        ) by {
            let i = choose|i: int| 0 <= i < s.len() && (#[trigger] s[i]).0 == k;
            if i < s.len() - 1 {
                assert((s.drop_last()[i]).0 == k);
                assert(has_key(s.drop_last(), k));
            }
        }
    }
}

/// With distinct keys, entry `i` is what the map holds at its key.
pub proof fn lemma_assoc_get<V>(s: Seq<(Seq<u8>, V)>, i: int)
    requires
        distinct_keys(s),
        0 <= i < s.len(),
    ensures
        assoc_map(s).contains_key(s[i].0),
        assoc_map(s)[s[i].0] == s[i].1,
    decreases s.len(),
{
    if i == s.len() - 1 {
    } else {
        assert(distinct_keys(s.drop_last())) by {
            assert(forall|a: int, b: int| 0 <= a < b < s.drop_last().len()
                ==> (#[trigger] s.drop_last()[a]).0 == s[a].0 && (#[trigger] s.drop_last()[b]).0
                == s[b].0);
        }
        assert(s.drop_last()[i] == s[i]);
        lemma_assoc_get(s.drop_last(), i);
        assert(s[i].0 != s.last().0);
    }
}

/// Appending an entry inserts its key.
pub proof fn lemma_assoc_push<V>(s: Seq<(Seq<u8>, V)>, p: (Seq<u8>, V))
    ensures
        assoc_map(s.push(p)) == assoc_map(s).insert(p.0, p.1),
{
    assert(s.push(p).drop_last() =~= s);
    assert(s.push(p).last() == p);
}

/// Replacing the value of entry `i` inserts at its key.
pub proof fn lemma_assoc_update<V>(s: Seq<(Seq<u8>, V)>, i: int, v: V)
    requires
        distinct_keys(s),
        0 <= i < s.len(),
    ensures
        assoc_map(s.update(i, (s[i].0, v))) == assoc_map(s).insert(s[i].0, v),
    decreases s.len(),
{
    let t = s.update(i, (s[i].0, v));
    if i == s.len() - 1 {
        assert(t.drop_last() =~= s.drop_last());
        assert(t.last() == (s[i].0, v));
        assert(assoc_map(t) == assoc_map(s.drop_last()).insert(s[i].0, v));
        assert(assoc_map(s.drop_last()).insert(s.last().0, s.last().1).insert(s[i].0, v)
            =~= assoc_map(s.drop_last()).insert(s[i].0, v));
    } else {
        assert(distinct_keys(s.drop_last())) by {
            assert(forall|a: int, b: int| 0 <= a < b < s.drop_last().len()
                ==> (#[trigger] s.drop_last()[a]).0 == s[a].0 && (#[trigger] s.drop_last()[b]).0
                == s[b].0);
        }
        assert(s.drop_last()[i] == s[i]);
        lemma_assoc_update(s.drop_last(), i, v);
        assert(t.drop_last() =~= s.drop_last().update(i, (s[i].0, v)));
        assert(t.last() == s.last());
        assert(assoc_map(t) == assoc_map(s.drop_last()).insert(s[i].0, v).insert(
            s.last().0,
            s.last().1,
        ));
        assert(s[i].0 != s.last().0);
        assert(assoc_map(s.drop_last()).insert(s[i].0, v).insert(s.last().0, s.last().1)
            =~= assoc_map(s.drop_last()).insert(s.last().0, s.last().1).insert(s[i].0, v));
    }
}

/// With distinct keys the map has as many entries as the list.
pub proof fn lemma_assoc_card<V>(s: Seq<(Seq<u8>, V)>)
    requires
        distinct_keys(s),
    ensures
        assoc_map(s).dom().finite(),
        assoc_map(s).dom().len() == s.len(),
    decreases s.len(),
{
    if s.len() > 0 {
        assert(distinct_keys(s.drop_last())) by {
            assert(forall|a: int, b: int| 0 <= a < b < s.drop_last().len()
                ==> (#[trigger] s.drop_last()[a]).0 == s[a].0 && (#[trigger] s.drop_last()[b]).0
                == s[b].0);
        }
        lemma_assoc_card(s.drop_last());
        lemma_assoc_contains(s.drop_last());
        assert(!has_key(s.drop_last(), s.last().0)) by {
            assert(forall|i: int| 0 <= i < s.drop_last().len() ==> (#[trigger] s.drop_last()[
                i
            ]).0 == s[i].0);
        }
        assert(assoc_map(s).dom() =~= assoc_map(s.drop_last()).dom().insert(s.last().0));
    }
}

/// One row of the bulk table: the region's fields, its canonical key and the
/// number of eligible overlapping records seen so far.
pub struct BulkRow {
    pub chromosome: Vec<u8>,
    pub start: u64,
    pub end: u64,
    pub key: Vec<u8>,
    pub count: u64,
}

/// What the bulk table knows of one region key.
pub ghost struct BulkVal {
    pub chromosome: Seq<u8>,
    pub start: u64,
    pub end: u64,
    pub count: u64,
}

impl BulkRow {
    /// The row's ghost value.
    pub open spec fn val(&self) -> BulkVal {
        BulkVal {
            chromosome: self.chromosome@,
            start: self.start,
            end: self.end,
            count: self.count,
        }
    }
}

/// The bulk count table: region key to presentation fields and count. Only
/// regions that received at least one count are present.
pub struct BulkTable {
    pub rows: Vec<BulkRow>,
}

impl BulkTable {
    /// The rows as key-value entries.
    pub open spec fn pairs(&self) -> Seq<(Seq<u8>, BulkVal)> {
        self.rows@.map_values(|r: BulkRow| (r.key@, r.val()))
    }

    /// The table as a finite map.
    pub open spec fn counts(&self) -> Map<Seq<u8>, BulkVal> {
        assoc_map(self.pairs())
    }

    /// Keys are distinct and canonical; every count is at least one.
    pub open spec fn wf(&self) -> bool {
        &&& distinct_keys(self.pairs())
        &&& forall|i: int| 0 <= i < self.rows@.len() ==> (#[trigger] self.rows@[i]).key@ == key_of(
            self.rows@[i].chromosome@,
            self.rows@[i].start,
            self.rows@[i].end,
        )
        &&& forall|i: int| 0 <= i < self.rows@.len() ==> (#[trigger] self.rows@[i]).count >= 1
    }

    /// An empty table.
    pub fn new() -> (t: BulkTable)
        ensures
            t.wf(),
            t.counts() == Map::<Seq<u8>, BulkVal>::empty(),
            t.rows@.len() == 0,
    {
        BulkTable { rows: Vec::new() }
    }

    /// Adds one count for `region`: creates its row at one, or increments it.
    /// Fails, changing nothing, exactly when the count would leave `u64`.
    #[verifier::loop_isolation(false)]
    pub fn bump(&mut self, region: &Region) -> (r: Result<(), EngineError>)
        requires
            old(self).wf(),
        ensures
            final(self).wf(),
            ({
                let k = key_of(region.chromosome@, region.start, region.end);
                let m = old(self).counts();
                if m.contains_key(k) && m[k].count == u64::MAX {
                    r is Err && final(self).counts() == m
                } else if m.contains_key(k) {
                    r is Ok && final(self).counts() == m.insert(
                        k,
                        BulkVal {
                            chromosome: m[k].chromosome,
                            start: m[k].start,
                            end: m[k].end,
                            count: (m[k].count + 1) as u64,
                        },
                    )
                } else {
                    r is Ok && final(self).counts() == m.insert(
                        k,
                        BulkVal {
                            chromosome: region.chromosome@,
                            start: region.start,
                            end: region.end,
                            count: 1,
                        },
                    )
                }
            }),
    {
        let key = region_key(region);
        let ghost k = key@;
        let ghost old_pairs = self.pairs();
        let mut i: usize = 0;
        while i < self.rows.len()
            invariant
                0 <= i <= self.rows@.len(),
                old_pairs == self.pairs(),
                *self == *old(self),
                key@ == k,
                forall|j: int| 0 <= j < i ==> (#[trigger] old_pairs[j]).0 != k,
            decreases self.rows@.len() - i,
        {
            if bytes_eq(&self.rows[i].key, &key) {
                proof {
                    assert(old_pairs[i as int].0 == k);
                    lemma_assoc_get(old_pairs, i as int);
                }
                let c = self.rows[i].count;
                if c == u64::MAX {
                    return Err(EngineError::CountOverflow);
                }
                let new_row = BulkRow {
                    chromosome: bytes_clone(&self.rows[i].chromosome),
                    start: self.rows[i].start,
                    end: self.rows[i].end,
                    key: bytes_clone(&self.rows[i].key),
                    count: c + 1,
                };
                let ghost new_val = new_row.val();
                self.rows[i] = new_row;
                proof {
                    assert(self.pairs() =~= old_pairs.update(i as int, (k, new_val)));
                    lemma_assoc_update(old_pairs, i as int, new_val);
                }
                return Ok(());
            }
            proof {
                assert(old_pairs[i as int].0 == self.rows@[i as int].key@);
            }
            i = i + 1;
        }
        proof {
            lemma_assoc_contains(old_pairs);
            assert(!has_key(old_pairs, k));
        }
        let new_row = BulkRow {
            chromosome: bytes_clone(&region.chromosome),
            start: region.start,
            end: region.end,
            key,
            count: 1,
        };
        let ghost new_val = new_row.val();
        self.rows.push(new_row);
        proof {
            assert(self.pairs() =~= old_pairs.push((k, new_val)));
            lemma_assoc_push(old_pairs, (k, new_val));
        }
        Ok(())
    }
}

/// One barcode's count within one region.
pub struct CellRow {
    pub barcode: Vec<u8>,
    pub count: u64,
}

/// One region's barcode-count list.
pub struct FeatureRow {
    pub key: Vec<u8>,
    pub cells: Vec<CellRow>,
}

/// The cell rows as key-value entries.
pub open spec fn cell_pairs(cells: Seq<CellRow>) -> Seq<(Seq<u8>, u64)> {
    cells.map_values(|c: CellRow| (c.barcode@, c.count))
}

impl FeatureRow {
    /// The row's barcode-count map.
    pub open spec fn inner(&self) -> Map<Seq<u8>, u64> {
        assoc_map(cell_pairs(self.cells@))
    }
}

/// Finds the cell row of `barcode`, if any.
#[verifier::loop_isolation(false)]
pub(crate) fn find_cell(cells: &Vec<CellRow>, barcode: &Vec<u8>) -> (r: Option<usize>)
    ensures
        match r {
            Option::Some(i) => i < cells@.len() && cell_pairs(cells@)[i as int].0 == barcode@,
            Option::None => !has_key(cell_pairs(cells@), barcode@),
        },
{
    let mut i: usize = 0;
    while i < cells.len()
        invariant
            0 <= i <= cells@.len(),
            forall|j: int| 0 <= j < i ==> (#[trigger] cell_pairs(cells@)[j]).0 != barcode@,
        decreases cells@.len() - i,
    {
        proof {
            assert(cell_pairs(cells@)[i as int].0 == cells@[i as int].barcode@);
        }
        if bytes_eq(&cells[i].barcode, barcode) {
            return Some(i);
        }
        i = i + 1;
    }
    None
}

/// The feature rows as key-value entries.
pub open spec fn feature_pairs(rows: Seq<FeatureRow>) -> Seq<(Seq<u8>, Map<Seq<u8>, u64>)> {
    rows.map_values(|f: FeatureRow| (f.key@, f.inner()))
}

/// Finds the feature row of `key`, if any.
#[verifier::loop_isolation(false)]
pub(crate) fn find_feature(rows: &Vec<FeatureRow>, key: &Vec<u8>) -> (r: Option<usize>)
    ensures
        match r {
            Option::Some(i) => i < rows@.len() && feature_pairs(rows@)[i as int].0 == key@,
            Option::None => !has_key(feature_pairs(rows@), key@),
        },
{
    let mut i: usize = 0;
    while i < rows.len()
        invariant
            0 <= i <= rows@.len(),
            forall|j: int| 0 <= j < i ==> (#[trigger] feature_pairs(rows@)[j]).0 != key@,
        decreases rows@.len() - i,
    {
        proof {
            assert(feature_pairs(rows@)[i as int].0 == rows@[i as int].key@);
        }
        if bytes_eq(&rows[i].key, key) {
            return Some(i);
        }
        i = i + 1;
    }
    None
}

/// Finds the bulk row of `key`, if any.
#[verifier::loop_isolation(false)]
pub(crate) fn find_bulk(rows: &Vec<BulkRow>, key: &Vec<u8>) -> (r: Option<usize>)
    ensures
        match r {
            Option::Some(i) => i < rows@.len() && rows@.map_values(
                |row: BulkRow| (row.key@, row.val()),
            )[i as int].0 == key@,
            Option::None => !has_key(
                rows@.map_values(|row: BulkRow| (row.key@, row.val())),
                key@,
            ),
        },
{
    let ghost pairs = rows@.map_values(|row: BulkRow| (row.key@, row.val()));
    let mut i: usize = 0;
    while i < rows.len()
        invariant
            0 <= i <= rows@.len(),
            forall|j: int| 0 <= j < i ==> (#[trigger] pairs[j]).0 != key@,
        decreases rows@.len() - i,
    {
        proof {
            assert(pairs[i as int].0 == rows@[i as int].key@);
        }
        if bytes_eq(&rows[i].key, key) {
            return Some(i);
        }
        i = i + 1;
    }
    None
}

/// The number of barcode-count entries over all features: the number of
/// nonzero cells of the matrix.
pub open spec fn total_pairs(rows: Seq<FeatureRow>) -> nat
    decreases rows.len(),
{
    if rows.len() == 0 {
        0
    } else {
        total_pairs(rows.drop_last()) + rows.last().cells@.len()
    }
}

/// The single-cell count table: region key to barcode-count map, with the
/// running number of nonzero cells.
pub struct CellTable {
    pub features: Vec<FeatureRow>,
    pub nnz: u64,
}

/// The inner map at `k`, empty when `k` is absent.
pub open spec fn inner_of(m: Map<Seq<u8>, Map<Seq<u8>, u64>>, k: Seq<u8>) -> Map<Seq<u8>, u64> {
    if m.contains_key(k) {
        m[k]
    } else {
        Map::empty()
    }
}

impl CellTable {
    /// The table as a nested finite map.
    pub open spec fn counts(&self) -> Map<Seq<u8>, Map<Seq<u8>, u64>> {
        assoc_map(feature_pairs(self.features@))
    }

    /// Keys distinct at both levels, counts at least one, and `nnz` equal to
    /// the number of barcode-count entries.
    pub open spec fn wf(&self) -> bool {
        &&& distinct_keys(feature_pairs(self.features@))
        &&& forall|i: int| 0 <= i < self.features@.len() ==> distinct_keys(
            cell_pairs((#[trigger] self.features@[i]).cells@),
        )
        &&& forall|i: int, j: int|
            0 <= i < self.features@.len() && 0 <= j < (#[trigger] self.features@[i]).cells@.len()
                ==> (#[trigger] self.features@[i].cells@[j]).count >= 1
        &&& self.nnz == total_pairs(self.features@)
    }

    /// An empty table.
    pub fn new() -> (t: CellTable)
        ensures
            t.wf(),
            t.counts() == Map::<Seq<u8>, Map<Seq<u8>, u64>>::empty(),
            t.nnz == 0,
            t.features@.len() == 0,
    {
        CellTable { features: Vec::new(), nnz: 0 }
    }

    /// Adds one count for `barcode` under `region`'s key: creates the nested
    /// entry at one, or increments it. Fails, changing nothing, exactly when
    /// the nested count or the nonzero-cell counter would leave `u64`.
    #[verifier::loop_isolation(false)]
    pub fn bump(&mut self, region: &Region, barcode: &Vec<u8>) -> (r: Result<(), EngineError>)
        requires
            old(self).wf(),
        ensures
            final(self).wf(),
            ({
                let k = key_of(region.chromosome@, region.start, region.end);
                let m = old(self).counts();
                let inner = inner_of(m, k);
                if inner.contains_key(barcode@) && inner[barcode@] == u64::MAX {
                    r is Err && final(self).counts() == m && final(self).nnz == old(self).nnz
                } else if inner.contains_key(barcode@) {
                    r is Ok && final(self).counts() == m.insert(
                        k,
                        inner.insert(barcode@, (inner[barcode@] + 1) as u64),
                    ) && final(self).nnz == old(self).nnz
                } else if old(self).nnz == u64::MAX {
                    r is Err && final(self).counts() == m && final(self).nnz == old(self).nnz
                } else {
                    r is Ok && final(self).counts() == m.insert(k, inner.insert(barcode@, 1))
                        && final(self).nnz == old(self).nnz + 1
                }
            }),
    {
        let key = region_key(region);
        let ghost k = key@;
        let ghost old_fp = feature_pairs(self.features@);
        let mut fi: usize = 0;
        while fi < self.features.len()
            invariant
                0 <= fi <= self.features@.len(),
                old_fp == feature_pairs(self.features@),
                *self == *old(self),
                key@ == k,
                forall|j: int| 0 <= j < fi ==> (#[trigger] old_fp[j]).0 != k,
            decreases self.features@.len() - fi,
        {
            if bytes_eq(&self.features[fi].key, &key) {
                proof {
                    assert(old_fp[fi as int].0 == k);
                    lemma_assoc_get(old_fp, fi as int);
                }
                return self.bump_in_row(fi, barcode, Ghost(k), Ghost(old_fp));
            }
            proof {
                assert(old_fp[fi as int].0 == self.features@[fi as int].key@);
            }
            fi = fi + 1;
        }
        proof {
            lemma_assoc_contains(old_fp);
            assert(!has_key(old_fp, k));
        }
        if self.nnz == u64::MAX {
            return Err(EngineError::CountOverflow);
        }
        let mut cells: Vec<CellRow> = Vec::new();
        cells.push(CellRow { barcode: bytes_clone(barcode), count: 1 });
        let new_row = FeatureRow { key, cells };
        let ghost new_inner = new_row.inner();
        self.features.push(new_row);
        self.nnz = self.nnz + 1;
        proof {
            assert(feature_pairs(self.features@) =~= old_fp.push((k, new_inner)));
            lemma_assoc_push(old_fp, (k, new_inner));
            assert(cell_pairs(self.features@.last().cells@) =~= Seq::<(Seq<u8>, u64)>::empty()
                .push((barcode@, 1u64)));
            lemma_assoc_push(Seq::<(Seq<u8>, u64)>::empty(), (barcode@, 1u64));
            assert(new_inner =~= Map::<Seq<u8>, u64>::empty().insert(barcode@, 1u64));
            assert(total_pairs(self.features@) == total_pairs(self.features@.drop_last()) + 1);
            assert(self.features@.drop_last() =~= old(self).features@);
        }
        Ok(())
    }

    /// Adds one count for `barcode` within the feature row at `fi`.
    #[verifier::loop_isolation(false)]
    fn bump_in_row(
        &mut self,
        fi: usize,
        barcode: &Vec<u8>,
        Ghost(k): Ghost<Seq<u8>>,
        Ghost(old_fp): Ghost<Seq<(Seq<u8>, Map<Seq<u8>, u64>)>>,
    ) -> (r: Result<(), EngineError>)
        requires
            old(self).wf(),
            fi < old(self).features@.len(),
            old_fp == feature_pairs(old(self).features@),
            k == old(self).features@[fi as int].key@,
            old(self).counts().contains_key(k),
            old(self).counts()[k] == old(self).features@[fi as int].inner(),
        ensures
            final(self).wf(),
            ({
                let m = old(self).counts();
                let inner = inner_of(m, k);
                if inner.contains_key(barcode@) && inner[barcode@] == u64::MAX {
                    r is Err && final(self).counts() == m && final(self).nnz == old(self).nnz
                } else if inner.contains_key(barcode@) {
                    r is Ok && final(self).counts() == m.insert(
                        k,
                        inner.insert(barcode@, (inner[barcode@] + 1) as u64),
                    ) && final(self).nnz == old(self).nnz
                } else if old(self).nnz == u64::MAX {
                    r is Err && final(self).counts() == m && final(self).nnz == old(self).nnz
                } else {
                    r is Ok && final(self).counts() == m.insert(k, inner.insert(barcode@, 1))
                        && final(self).nnz == old(self).nnz + 1
                }
            }),
    {
        let ghost old_rows = self.features@;
        let ghost old_inner_pairs = cell_pairs(old_rows[fi as int].cells@);
        let mut row = self.features.remove(fi);
        let hit = find_cell(&row.cells, barcode);
        proof {
            if hit is None {
                lemma_assoc_contains(old_inner_pairs);
                assert(!has_key(old_inner_pairs, barcode@));
            }
        }
        if let Some(ci) = hit {
            proof {
                lemma_assoc_get(old_inner_pairs, ci as int);
            }
            let c = row.cells[ci].count;
            if c == u64::MAX {
                self.features.insert(fi, row);
                proof {
                    assert(self.features@ =~= old_rows);
                }
                return Err(EngineError::CountOverflow);
            }
            let new_cell = CellRow { barcode: bytes_clone(&row.cells[ci].barcode), count: c + 1 };
            row.cells[ci] = new_cell;
            proof {
                assert(cell_pairs(row.cells@) =~= old_inner_pairs.update(
                    ci as int,
                    (barcode@, (c + 1) as u64),
                ));
                lemma_assoc_update(old_inner_pairs, ci as int, (c + 1) as u64);
            }
            let ghost new_inner = row.inner();
            self.features.insert(fi, row);
            proof {
                assert(self.features@ =~= old_rows.update(fi as int, self.features@[fi as int]));
                assert(feature_pairs(self.features@) =~= old_fp.update(fi as int, (k, new_inner)));
                lemma_assoc_update(old_fp, fi as int, new_inner);
                lemma_total_pairs_update(old_rows, fi as int, self.features@[fi as int]);
            }
            Ok(())
        } else {
            if self.nnz == u64::MAX {
                self.features.insert(fi, row);
                proof {
                    assert(self.features@ =~= old_rows);
                }
                return Err(EngineError::CountOverflow);
            }
            row.cells.push(CellRow { barcode: bytes_clone(barcode), count: 1 });
            proof {
                assert(cell_pairs(row.cells@) =~= old_inner_pairs.push((barcode@, 1u64)));
                lemma_assoc_push(old_inner_pairs, (barcode@, 1u64));
            }
            let ghost new_inner = row.inner();
            self.features.insert(fi, row);
            self.nnz = self.nnz + 1;
            proof {
                assert(self.features@ =~= old_rows.update(fi as int, self.features@[fi as int]));
                assert(feature_pairs(self.features@) =~= old_fp.update(fi as int, (k, new_inner)));
                lemma_assoc_update(old_fp, fi as int, new_inner);
                lemma_total_pairs_update(old_rows, fi as int, self.features@[fi as int]);
            }
            Ok(())
        }
    }
}

/// Replacing one feature row changes the entry total by the difference of
/// that row's cell counts.
pub proof fn lemma_total_pairs_update(rows: Seq<FeatureRow>, i: int, r: FeatureRow)
    requires
        0 <= i < rows.len(),
    ensures
        total_pairs(rows.update(i, r)) + rows[i].cells@.len() == total_pairs(rows)
            + r.cells@.len(),
    decreases rows.len(),
{
    let t = rows.update(i, r);
    if i == rows.len() - 1 {
        assert(t.drop_last() =~= rows.drop_last());
        assert(t.last() == r);
    } else {
        assert(t.drop_last() =~= rows.drop_last().update(i, r));
        assert(t.last() == rows.last());
        assert(rows.drop_last()[i] == rows[i]);
        lemma_total_pairs_update(rows.drop_last(), i, r);
    }
}

/// The set of barcodes observed so far, in first-seen order.
pub struct BarcodeSet {
    pub items: Vec<Vec<u8>>,
}

impl BarcodeSet {
    /// The set of observed barcodes.
    pub open spec fn observed(&self) -> Set<Seq<u8>> {
        seq_set(self.items.deep_view())
    }

    /// No barcode is listed twice.
    pub open spec fn wf(&self) -> bool {
        distinct_seqs(self.items.deep_view())
    }

    /// An empty set.
    pub fn new() -> (s: BarcodeSet)
        ensures
            s.wf(),
            s.observed() == Set::<Seq<u8>>::empty(),
            s.items@.len() == 0,
    {
        BarcodeSet { items: Vec::new() }
    }

    /// Registers `b` as observed.
    #[verifier::loop_isolation(false)]
    pub fn insert(&mut self, b: Vec<u8>)
        requires
            old(self).wf(),
        ensures
            final(self).wf(),
            final(self).observed() == old(self).observed().insert(b@),
    {
        let ghost old_dv = self.items.deep_view();
        let mut i: usize = 0;
        while i < self.items.len()
            invariant
                0 <= i <= self.items@.len(),
                old_dv == self.items.deep_view(),
                *self == *old(self),
                forall|j: int| 0 <= j < i ==> #[trigger] old_dv[j] != b@,
            decreases self.items@.len() - i,
        {
            proof {
                assert(old_dv[i as int] == self.items@[i as int]@);
            }
            if bytes_eq(&self.items[i], &b) {
                proof {
                    lemma_seq_set_mem_local(old_dv);
                    assert(seq_set(old_dv).contains(b@));
                    assert(seq_set(old_dv).insert(b@) =~= seq_set(old_dv));
                }
                return;
            }
            i = i + 1;
        }
        proof {
            lemma_seq_set_mem_local(old_dv);
            assert(!seq_set(old_dv).contains(b@));
        }
        self.items.push(b);
        proof {
            let new_dv = self.items.deep_view();
            assert(new_dv =~= old_dv.push(new_dv.last()));
            assert(new_dv.drop_last() =~= old_dv);
            assert(forall|j: int| 0 <= j < new_dv.len() ==> #[trigger] new_dv[j] == self.items@[
                j
            ]@);
        }
    }

    /// Whether `b` was observed.
    #[verifier::loop_isolation(false)]
    pub fn contains(&self, b: &Vec<u8>) -> (r: bool)
        ensures
            r == self.observed().contains(b@),
    {
        let mut i: usize = 0;
        proof {
            lemma_seq_set_mem_local(self.items.deep_view());
        }
        while i < self.items.len()
            invariant
                0 <= i <= self.items@.len(),
                forall|j: int| 0 <= j < i ==> #[trigger] self.items.deep_view()[j] != b@,
            decreases self.items@.len() - i,
        {
            proof {
                assert(self.items.deep_view()[i as int] == self.items@[i as int]@);
            }
            if bytes_eq(&self.items[i], b) {
                proof {
                    lemma_seq_set_mem_local(self.items.deep_view());
                }
                return true;
            }
            i = i + 1;
        }
        proof {
            lemma_seq_set_mem_local(self.items.deep_view());
        }
        false
    }
}

/// Membership in `seq_set`, restated here for the barcode set's proofs.
proof fn lemma_seq_set_mem_local(s: Seq<Seq<u8>>)
    ensures
        forall|x: Seq<u8>| #[trigger] seq_set(s).contains(x) <==> exists|i: int|
            0 <= i < s.len() && s[i] == x,
{
    crate::sort::lemma_seq_set_mem(s);
}

} // verus!
