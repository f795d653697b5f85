//! The data model: regions, CIGAR operations, alignment records, counting
//! mode, filter configuration and the engine's error type.

use vstd::prelude::*;
use crate::bytes::{bytes_clone, dec_of, push_bytes, u64_to_dec};

verus! {

/// A half-open genomic interval `[start, end)` on a chromosome, keyed by the
/// canonical byte string `"chromosome:start-end"`.
pub struct Region {
    pub chromosome: Vec<u8>,
    pub start: u64,
    pub end: u64,
}

impl Region {
    /// The interval is well formed: it does not end before it starts.
    pub open spec fn wf(&self) -> bool {
        self.start <= self.end
    }
}

/// The canonical key of the region `[start, end)` on `chromosome`:
/// `chromosome ++ ":" ++ start ++ "-" ++ end`, coordinates in decimal.
pub open spec fn key_of(chromosome: Seq<u8>, start: u64, end: u64) -> Seq<u8> {
    chromosome + seq![58u8] + dec_of(start as nat) + seq![45u8] + dec_of(end as nat)
}

/// Renders the canonical key of `region`.
pub fn region_key(region: &Region) -> (k: Vec<u8>)
    ensures
        k@ == key_of(region.chromosome@, region.start, region.end),
{
    let mut k = bytes_clone(&region.chromosome);
    k.push(58);
    let s = u64_to_dec(region.start);
    push_bytes(&mut k, &s);
    k.push(45);
    let e = u64_to_dec(region.end);
    push_bytes(&mut k, &e);
    proof {
        assert(k@ =~= key_of(region.chromosome@, region.start, region.end));
    }
    k
}

/// One CIGAR operation, reduced to what overlap detection distinguishes.
///
/// `MatchLike` covers alignment match, sequence match and sequence mismatch:
/// the operations that consume reference bases and count toward overlap.
/// `SoftClip` neither counts nor advances the reference cursor.
/// `RefGap` covers the remaining length-bearing operations, which advance the
/// reference cursor without themselves constituting an overlap.
#[derive(Clone, Copy)]
pub enum CigarOp {
    MatchLike(u32),
    SoftClip(u32),
    RefGap(u32),
}

/// How far one operation advances the reference cursor.
pub open spec fn op_ref_len(op: CigarOp) -> nat {
    match op {
        CigarOp::MatchLike(l) => l as nat,
        CigarOp::SoftClip(_) => 0,
        CigarOp::RefGap(l) => l as nat,
    }
}

/// How far a whole CIGAR advances the reference cursor.
pub open spec fn ref_span(ops: Seq<CigarOp>) -> nat
    decreases ops.len(),
{
    if ops.len() == 0 {
        0
    } else {
        op_ref_len(ops[0]) + ref_span(ops.drop_first())
    }
}

/// One aligned record, as the engine consumes it: a 0-based reference start
/// position, the CIGAR, and the two optional tags the filter reads.
pub struct AlignmentRecord {
    pub ref_start: u64,
    pub cigar: Vec<CigarOp>,
    pub locus_count: Option<u64>,
    pub cell_barcode: Option<Vec<u8>>,
}

impl AlignmentRecord {
    /// The reference walk over the whole CIGAR stays within `u64`.
    pub open spec fn walk_fits(&self) -> bool {
        self.ref_start + ref_span(self.cigar@) <= u64::MAX
    }
}

/// The aggregation mode: one count per region, or one per region and cell.
#[derive(Clone, Copy, PartialEq, Eq, Structural)]
pub enum Mode {
    Bulk,
    Single,
}

/// Record eligibility rules: the locus-count ceiling and the barcode
/// allowlist. An empty allowlist means no filtering by barcode.
pub struct FilterConfig {
    pub max_loci: u64,
    pub allowlist: Vec<Vec<u8>>,
}

/// A counter that would leave `u64` was asked to grow; the record's
/// contribution was not applied.
#[derive(Clone, Copy, Debug, PartialEq, Eq, Structural)]
pub enum EngineError {
    CountOverflow,
}

} // verus!
