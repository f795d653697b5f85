//! The overlap detector: a single reference-position walk over a record's
//! CIGAR that decides whether the record overlaps a region through at least
//! one match-like block.

use vstd::prelude::*;
use crate::model::{AlignmentRecord, CigarOp, Region, op_ref_len, ref_span};

verus! {

/// The walk, started with the reference cursor at `cursor`: a match-like
/// block `[cursor, cursor + l)` overlaps `[start, end)` when
/// `cursor < end && cursor + l > start`; the first overlapping block decides,
/// soft clips leave the cursor alone, every other operation advances it.
pub open spec fn overlaps_from(cursor: int, ops: Seq<CigarOp>, start: int, end: int) -> bool
    decreases ops.len(),
{
    if ops.len() == 0 {
        false
    } else {
        match ops[0] {
            CigarOp::MatchLike(l) => (cursor < end && cursor + l > start) || overlaps_from(
                cursor + l,
                ops.drop_first(),
                start,
                end,
            ),
            CigarOp::SoftClip(_) => overlaps_from(cursor, ops.drop_first(), start, end),
            CigarOp::RefGap(l) => overlaps_from(cursor + l, ops.drop_first(), start, end),
        }
    }
}

/// Whether `record` overlaps `region`: the walk started at the record's
/// reference start.
pub open spec fn record_overlaps(record: &AlignmentRecord, region: &Region) -> bool {
    overlaps_from(
        record.ref_start as int,
        record.cigar@,
        region.start as int,
        region.end as int,
    )
}

/// Reports whether `record` overlaps `region` through a match-like block.
/// The result depends on the record's start, its CIGAR and the region alone.
pub fn overlaps(record: &AlignmentRecord, region: &Region) -> (r: bool)
    requires
        record.walk_fits(),
    ensures
        r == record_overlaps(record, region),
{
    let mut cursor: u64 = record.ref_start;
    let mut i: usize = 0;
    let n = record.cigar.len();
    proof {
        assert(record.cigar@.skip(0) =~= record.cigar@);
    }
    while i < n
        invariant
            0 <= i <= n,
            n == record.cigar.len(),
            cursor + ref_span(record.cigar@.skip(i as int)) <= u64::MAX,
            record_overlaps(record, region) == overlaps_from(
                cursor as int,
                record.cigar@.skip(i as int),
                region.start as int,
                region.end as int,
            ),
        decreases n - i,
    {
        let ghost rest = record.cigar@.skip(i as int);
        proof {
            assert(rest.len() > 0);
            assert(rest[0] == record.cigar@[i as int]);
            assert(rest.drop_first() =~= record.cigar@.skip(i + 1));
            assert(ref_span(rest) == op_ref_len(rest[0]) + ref_span(rest.drop_first()));
        }
        match record.cigar[i] {
            CigarOp::MatchLike(l) => {
                let block_end = cursor + (l as u64);
                if cursor < region.end && block_end > region.start {
                    return true;
                }
                cursor = block_end;
            },
            CigarOp::SoftClip(_) => {},
            CigarOp::RefGap(l) => {
                cursor = cursor + (l as u64);
            },
        }
        i = i + 1;
    }
    proof {
        assert(record.cigar@.skip(n as int).len() == 0);
    }
    false
}

/// A record whose CIGAR is a single match-like block of length `l` starting
/// at `p` overlaps `[start, end)` exactly when `p < end && p + l > start`.
pub proof fn lemma_single_match_overlap(p: int, l: u32, start: int, end: int)
    ensures
        overlaps_from(p, seq![CigarOp::MatchLike(l)], start, end) == (p < end && p + l > start),
{
    let ops = seq![CigarOp::MatchLike(l)];
    assert(ops[0] == CigarOp::MatchLike(l));
    assert(ops.drop_first().len() == 0);
    assert(!overlaps_from(p + l, ops.drop_first(), start, end));
}

} // verus!
