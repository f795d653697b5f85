//! The counting engine: one record at a time through the filter policy, the
//! overlap detector and the aggregator, exactly as the per-region record
//! streams supply them.

use vstd::prelude::*;
use crate::filter::{Decision, accept, accepted};
use crate::model::{AlignmentRecord, EngineError, FilterConfig, Mode, Region, key_of};
use crate::overlap::{overlaps, record_overlaps};
use crate::table::{BarcodeSet, BulkTable, BulkVal, CellTable, inner_of};

verus! {

/// Whether a bulk count at `k` cannot grow.
pub open spec fn bulk_bump_overflows(m: Map<Seq<u8>, BulkVal>, k: Seq<u8>) -> bool {
    m.contains_key(k) && m[k].count == u64::MAX
}

/// The bulk map after one count at `k` for a region with the given fields.
pub open spec fn bulk_bumped(
    m: Map<Seq<u8>, BulkVal>,
    k: Seq<u8>,
    chromosome: Seq<u8>,
    start: u64,
    end: u64,
) -> Map<Seq<u8>, BulkVal> {
    if m.contains_key(k) {
        m.insert(
            k,
            BulkVal {
                chromosome: m[k].chromosome,
                start: m[k].start,
                end: m[k].end,
                count: (m[k].count + 1) as u64,
            },
        )
    } else {
        m.insert(k, BulkVal { chromosome, start, end, count: 1 })
    }
}

/// Whether a nested count at `k`, `b` cannot grow: the cell itself, or, for a
/// new cell, the nonzero-cell counter, is saturated.
pub open spec fn cell_bump_overflows(
    m: Map<Seq<u8>, Map<Seq<u8>, u64>>,
    k: Seq<u8>,
    b: Seq<u8>,
    nnz: u64,
) -> bool {
    if inner_of(m, k).contains_key(b) {
        inner_of(m, k)[b] == u64::MAX
    } else {
        nnz == u64::MAX
    }
}

/// The nested map after one count at `k`, `b`.
pub open spec fn cell_bumped(
    m: Map<Seq<u8>, Map<Seq<u8>, u64>>,
    k: Seq<u8>,
    b: Seq<u8>,
) -> Map<Seq<u8>, Map<Seq<u8>, u64>> {
    let inner = inner_of(m, k);
    if inner.contains_key(b) {
        m.insert(k, inner.insert(b, (inner[b] + 1) as u64))
    } else {
        m.insert(k, inner.insert(b, 1))
    }
}

/// The engine: mode, filter configuration, and the accumulating state.
pub struct Engine {
    pub mode: Mode,
    pub config: FilterConfig,
    pub bulk: BulkTable,
    pub cells: CellTable,
    pub barcodes: BarcodeSet,
}

impl Engine {
    /// The tables are well formed and every barcode counted somewhere was
    /// observed.
    pub open spec fn wf(&self) -> bool {
        &&& self.bulk.wf()
        &&& self.cells.wf()
        &&& self.barcodes.wf()
        &&& forall|k: Seq<u8>, b: Seq<u8>|
            self.cells.counts().contains_key(k) && #[trigger] self.cells.counts()[k].contains_key(
                b,
            ) ==> self.barcodes.observed().contains(b)
    }

    /// An engine with empty state.
    pub fn new(mode: Mode, config: FilterConfig) -> (e: Engine)
        ensures
            e.wf(),
            e.mode == mode,
            e.config == config,
            e.bulk.counts() == Map::<Seq<u8>, BulkVal>::empty(),
            e.cells.counts() == Map::<Seq<u8>, Map<Seq<u8>, u64>>::empty(),
            e.cells.nnz == 0,
            e.barcodes.observed() == Set::<Seq<u8>>::empty(),
    {
        Engine {
            mode,
            config,
            bulk: BulkTable::new(),
            cells: CellTable::new(),
            barcodes: BarcodeSet::new(),
        }
    }

    /// Records one hit of `region`: one count under the region's key, in the
    /// table of the engine's mode. Called once per (record, region) pair that
    /// passed the filter and overlapped, so a record contributes at most one
    /// count per region however many of its blocks overlap.
    pub fn record_hit(&mut self, region: &Region, barcode: &Option<Vec<u8>>) -> (r: Result<
        (),
        EngineError,
    >)
        requires
            old(self).wf(),
            old(self).mode == Mode::Single ==> (barcode matches Option::Some(b)
                && old(self).barcodes.observed().contains(b@)),
        ensures
            final(self).wf(),
            final(self).mode == old(self).mode,
            final(self).config == old(self).config,
            final(self).barcodes.observed() == old(self).barcodes.observed(),
            ({
                let k = key_of(region.chromosome@, region.start, region.end);
                match old(self).mode {
                    Mode::Bulk => {
                        &&& final(self).cells.counts() == old(self).cells.counts()
                        &&& final(self).cells.nnz == old(self).cells.nnz
                        &&& (r is Err <==> bulk_bump_overflows(old(self).bulk.counts(), k))
                        &&& (r is Ok ==> final(self).bulk.counts() == bulk_bumped(
                            old(self).bulk.counts(),
                            k,
                            region.chromosome@,
                            region.start,
                            region.end,
                        ))
                        &&& (r is Err ==> final(self).bulk.counts() == old(self).bulk.counts())
                    },
                    Mode::Single => {
                        &&& final(self).bulk.counts() == old(self).bulk.counts()
                        &&& (r is Err <==> cell_bump_overflows(
                            old(self).cells.counts(),
                            k,
                            barcode.unwrap()@,
                            old(self).cells.nnz,
                        ))
                        &&& (r is Ok ==> final(self).cells.counts() == cell_bumped(
                            old(self).cells.counts(),
                            k,
                            barcode.unwrap()@,
                        ) && (final(self).cells.nnz == old(self).cells.nnz + (
                        if inner_of(old(self).cells.counts(), k).contains_key(barcode.unwrap()@) {
                            0int
                        } else {
                            1int
                        })))
                        &&& (r is Err ==> final(self).cells.counts() == old(self).cells.counts()
                            && final(self).cells.nnz == old(self).cells.nnz)
                    },
                }
            }),
    {
        match self.mode {
            Mode::Bulk => self.bulk.bump(region),
            Mode::Single => {
                match barcode {
                    Option::Some(b) => self.cells.bump(region, b),
                    Option::None => Ok(()),
                }
            },
        }
    }

    /// Processes one record against one region: filter, then overlap, then
    /// aggregation. In single-cell mode an accepted record's barcode is
    /// registered as observed whether or not the record overlaps; an eligible
    /// overlapping record adds exactly one count under the region's key.
    /// Fails, leaving the counts unchanged, exactly when that count cannot
    /// grow.
    pub fn process_record(&mut self, region: &Region, record: &AlignmentRecord) -> (r: Result<
        (),
        EngineError,
    >)
        requires
            old(self).wf(),
            record.walk_fits(),
        ensures
            final(self).wf(),
            final(self).mode == old(self).mode,
            final(self).config == old(self).config,
            ({
                let acc = accepted(record, old(self).mode, &old(self).config);
                let hit = acc && record_overlaps(record, region);
                let k = key_of(region.chromosome@, region.start, region.end);
                let bc = record.cell_barcode.unwrap()@;
                &&& final(self).barcodes.observed() == (if old(self).mode == Mode::Single && acc {
                    old(self).barcodes.observed().insert(bc)
                } else {
                    old(self).barcodes.observed()
                })
                &&& match old(self).mode {
                    Mode::Bulk => {
                        &&& final(self).cells.counts() == old(self).cells.counts()
                        &&& final(self).cells.nnz == old(self).cells.nnz
                        &&& (r is Err <==> hit && bulk_bump_overflows(old(self).bulk.counts(), k))
                        &&& (hit && r is Ok ==> final(self).bulk.counts() == bulk_bumped(
                            old(self).bulk.counts(),
                            k,
                            region.chromosome@,
                            region.start,
                            region.end,
                        ))
                        &&& (!hit || r is Err ==> final(self).bulk.counts() == old(
                            self,
                        ).bulk.counts())
                    },
                    Mode::Single => {
                        &&& final(self).bulk.counts() == old(self).bulk.counts()
                        &&& (r is Err <==> hit && cell_bump_overflows(
                            old(self).cells.counts(),
                            k,
                            bc,
                            old(self).cells.nnz,
                        ))
                        &&& (hit && r is Ok ==> final(self).cells.counts() == cell_bumped(
                            old(self).cells.counts(),
                            k,
                            bc,
                        ) && (final(self).cells.nnz == old(self).cells.nnz + (
                        if inner_of(old(self).cells.counts(), k).contains_key(bc) {
                            0int
                        } else {
                            1int
                        })))
                        &&& (!hit || r is Err ==> final(self).cells.counts() == old(
                            self,
                        ).cells.counts() && final(self).cells.nnz == old(self).cells.nnz)
                    },
                }
            }),
    {
        let decision: Decision = accept(record, self.mode, &self.config);
        let ghost acc = accepted(record, old(self).mode, &old(self).config);
        if self.mode == Mode::Single && decision.proceed {
            match &decision.barcode {
                Option::Some(b) => {
                    proof {
                        assert(b@ == record.cell_barcode.unwrap()@);
                    }
                    let bc = crate::bytes::bytes_clone(b);
                    self.barcodes.insert(bc);
                },
                Option::None => {
                    proof {
                        assert(false);
                    }
                },
            }
        }
        proof {
            assert(self.bulk == old(self).bulk);
            assert(self.cells == old(self).cells);
            assert(self.wf());
        }
        if !decision.proceed {
            return Ok(());
        }
        if !overlaps(record, region) {
            return Ok(());
        }
        let r = self.record_hit(region, &decision.barcode);
        proof {
            if old(self).mode == Mode::Single {
                assert(decision.barcode.unwrap()@ == record.cell_barcode.unwrap()@);
            }
        }
        r
    }
}

} // verus!
