//! The filter policy: decides whether a record is eligible for counting and,
//! in single-cell mode, hands its barcode on for aggregation.

use vstd::prelude::*;
use crate::bytes::{bytes_clone, bytes_eq, trim_ascii, trimmed};
use crate::model::{AlignmentRecord, FilterConfig, Mode};

verus! {

/// The outcome of the filter: whether the record proceeds to overlap
/// detection, and, in single-cell mode, its barcode.
pub struct Decision {
    pub proceed: bool,
    pub barcode: Option<Vec<u8>>,
}

/// The locus-count rule: a record whose locus-count tag exceeds `max_loci`
/// is excluded from all counting; a record without the tag passes.
pub open spec fn locus_ok(record: &AlignmentRecord, max_loci: u64) -> bool {
    match record.locus_count {
        Option::None => true,
        Option::Some(n) => n <= max_loci,
    }
}

/// Whether `b` is a member of the allowlist.
pub open spec fn in_allowlist(list: Seq<Seq<u8>>, b: Seq<u8>) -> bool {
    exists|i: int| 0 <= i < list.len() && list[i] == b
}

/// The barcode rule of single-cell mode: an empty allowlist admits every
/// barcode; a non-empty one admits only its members.
pub open spec fn barcode_admitted(list: Seq<Seq<u8>>, b: Seq<u8>) -> bool {
    list.len() == 0 || in_allowlist(list, b)
}

/// Whether the record is eligible for counting: the locus-count rule in both
/// modes, and in single-cell mode also a present and admitted barcode.
pub open spec fn accepted(record: &AlignmentRecord, mode: Mode, config: &FilterConfig) -> bool {
    &&& locus_ok(record, config.max_loci)
    &&& (mode == Mode::Single ==> match record.cell_barcode {
        Option::None => false,
        Option::Some(b) => barcode_admitted(config.allowlist.deep_view(), b@),
    })
}

/// Looks `b` up in the allowlist.
pub fn allowlist_contains(list: &Vec<Vec<u8>>, b: &Vec<u8>) -> (r: bool)
    ensures
        r == in_allowlist(list.deep_view(), b@),
{
    let mut i: usize = 0;
    while i < list.len()
        invariant
            0 <= i <= list.len(),
            forall|j: int| 0 <= j < i ==> list.deep_view()[j] != b@,
        decreases list.len() - i,
    {
        proof {
            assert(list.deep_view()[i as int] == list@[i as int]@);
        }
        if bytes_eq(&list[i], b) {
            assert(list.deep_view()[i as int] == b@);
            return true;
        }
        i = i + 1;
    }
    false
}

/// Applies the filter policy to one record.
///
/// The record proceeds exactly when it is eligible; in single-cell mode the
/// decision carries the record's barcode, in bulk mode none.
pub fn accept(record: &AlignmentRecord, mode: Mode, config: &FilterConfig) -> (d: Decision)
    ensures
        d.proceed == accepted(record, mode, config),
        mode == Mode::Bulk ==> d.barcode is None,
        mode == Mode::Single && d.proceed ==> (record.cell_barcode matches Option::Some(rb)
            && d.barcode matches Option::Some(db) && db@ == rb@),
{
    let locus_pass = match record.locus_count {
        Option::None => true,
        Option::Some(n) => n <= config.max_loci,
    };
    if !locus_pass {
        return Decision { proceed: false, barcode: None };
    }
    match mode {
        Mode::Bulk => Decision { proceed: true, barcode: None },
        Mode::Single => {
            match &record.cell_barcode {
                Option::None => Decision { proceed: false, barcode: None },
                Option::Some(b) => {
                    let admitted = if config.allowlist.len() == 0 {
                        true
                    } else {
                        allowlist_contains(&config.allowlist, b)
                    };
                    if admitted {
                        Decision { proceed: true, barcode: Some(bytes_clone(b)) }
                    } else {
                        Decision { proceed: false, barcode: None }
                    }
                },
            }
        },
    }
}

/// Builds the barcode allowlist from the lines of an allowlist file: one
/// barcode per line, each line trimmed of ASCII whitespace.
pub fn load_cell_barcodes(lines: &Vec<Vec<u8>>) -> (list: Vec<Vec<u8>>)
    ensures
        list.deep_view() == lines.deep_view().map_values(|l: Seq<u8>| trimmed(l)),
{
    let mut list: Vec<Vec<u8>> = Vec::new();
    let mut i: usize = 0;
    while i < lines.len()
        invariant
            0 <= i <= lines.len(),
            list@.len() == i,
            forall|j: int| 0 <= j < i ==> list.deep_view()[j] == trimmed(
                #[trigger] lines.deep_view()[j],
            ),
        decreases lines.len() - i,
    {
        proof {
            assert(lines.deep_view()[i as int] == lines@[i as int]@);
        }
        list.push(trim_ascii(&lines[i]));
        proof {
            assert(forall|j: int| 0 <= j <= i ==> list.deep_view()[j] == list@[j]@);
        }
        i = i + 1;
    }
    proof {
        assert(list.deep_view() =~= lines.deep_view().map_values(|l: Seq<u8>| trimmed(l)));
    }
    list
}

} // verus!
