//! Region-list (BED) line parsing: tab-separated fields, the first three
//! being chromosome, start and end. Comment and blank lines, and lines with
//! fewer than three fields, are skipped; a line whose start or end is not an
//! unsigned integer is malformed, which callers treat as fatal.

use vstd::prelude::*;
use crate::bytes::{TAB, bytes_clone, trim_ascii, trimmed};
use crate::model::Region;

verus! {

/// The position of the first `d` in `s`, or `s.len()` when there is none.
pub open spec fn find_byte(s: Seq<u8>, d: u8) -> int
    decreases s.len(),
{
    if s.len() == 0 {
        0
    } else if s[0] == d {
        0
    } else {
        1 + find_byte(s.drop_first(), d)
    }
}

/// `find_byte` is in range, everything before it differs from `d`, and it
/// points at `d` unless it is the length.
pub proof fn lemma_find_byte(s: Seq<u8>, d: u8)
    ensures
        0 <= find_byte(s, d) <= s.len(),
        forall|j: int| 0 <= j < find_byte(s, d) ==> s[j] != d,
        find_byte(s, d) < s.len() ==> s[find_byte(s, d)] == d,
    decreases s.len(),
{
    if s.len() > 0 && s[0] != d {
        lemma_find_byte(s.drop_first(), d);
        assert forall|j: int| 0 <= j < find_byte(s, d) implies s[j] != d by {
            if j > 0 {
                assert(s.drop_first()[j - 1] == s[j]);
            }
        }
    }
}

/// `s` split on `d`: the fields between the separators, empty fields kept,
/// one more field than separators.
pub open spec fn split_on(s: Seq<u8>, d: u8) -> Seq<Seq<u8>>
    decreases s.len(),
    via split_on_dec
{
    let i = find_byte(s, d);
    if i == s.len() {
        seq![s]
    } else {
        seq![s.take(i)] + split_on(s.skip(i + 1), d)
    }
}

#[via_fn]
proof fn split_on_dec(s: Seq<u8>, d: u8) {
    lemma_find_byte(s, d);
}

/// Splits a line into its tab-separated fields.
#[verifier::loop_isolation(false)]
pub fn split_tabs(line: &Vec<u8>) -> (fields: Vec<Vec<u8>>)
    ensures
        fields.deep_view() == split_on(line@, TAB),
{
    let mut fields: Vec<Vec<u8>> = Vec::new();
    let mut pos: usize = 0;
    proof {
        assert(line@.skip(0) =~= line@);
        assert(fields.deep_view() =~= Seq::<Seq<u8>>::empty());
        assert(split_on(line@, TAB) =~= Seq::<Seq<u8>>::empty() + split_on(line@, TAB));
    }
    loop
        invariant
            0 <= pos <= line@.len(),
            split_on(line@, TAB) == fields.deep_view() + split_on(line@.skip(pos as int), TAB),
        decreases line@.len() - pos,
    {
        let ghost rest = line@.skip(pos as int);
        let mut j: usize = pos;
        while j < line.len() && line[j] != TAB
            invariant
                pos <= j <= line@.len(),
                forall|k: int| pos <= k < j ==> line@[k] != TAB,
            decreases line@.len() - j,
        {
            j = j + 1;
        }
        proof {
            lemma_find_byte(rest, TAB);
            assert(forall|k: int| 0 <= k < rest.len() ==> rest[k] == line@[pos + k]);
            let f = find_byte(rest, TAB);
            if f < j - pos {
                assert(rest[f] == TAB);
                assert(line@[pos + f] == TAB);
                assert(false);
            }
            if f > j - pos {
                assert(j < line@.len());
                assert(rest[j - pos] == TAB);
                assert(false);
            }
            assert(f == j - pos);
        }
        let mut field: Vec<u8> = Vec::new();
        let mut k: usize = pos;
        while k < j
            invariant
                pos <= k <= j,
                field@ == line@.subrange(pos as int, k as int),
            decreases j - k,
        {
            field.push(line[k]);
            proof {
                assert(line@.subrange(pos as int, k + 1) =~= line@.subrange(
                    pos as int,
                    k as int,
                ).push(line@[k as int]));
            }
            k = k + 1;
        }
        proof {
            assert(field@ =~= rest.take(j - pos));
        }
        let ghost prev_fields = fields.deep_view();
        proof {
            assert(forall|t: int| 0 <= t < fields@.len() ==> #[trigger] prev_fields[t]
                == fields@[t]@);
        }
        fields.push(field);
        proof {
            assert(forall|t: int| 0 <= t < fields@.len() ==> #[trigger] fields.deep_view()[t]
                == fields@[t]@);
            assert(fields.deep_view() =~= prev_fields.push(rest.take(j - pos)));
        }
        if j == line.len() {
            proof {
                assert(rest.take(j - pos) =~= rest);
                assert(split_on(rest, TAB) =~= seq![rest]);
                assert(fields.deep_view() =~= prev_fields + seq![rest]);
                assert(split_on(line@, TAB) =~= fields.deep_view());
            }
            return fields;
        }
        proof {
            assert(split_on(rest, TAB) == seq![rest.take(j - pos)] + split_on(
                rest.skip(j - pos + 1),
                TAB,
            ));
            assert(rest.skip(j - pos + 1) =~= line@.skip(j + 1));
            assert(fields.deep_view() + split_on(line@.skip(j + 1), TAB) =~= prev_fields
                + split_on(rest, TAB));
        }
        pos = j + 1;
    }
}

/// All bytes are decimal digits, and there is at least one.
pub open spec fn all_digits(s: Seq<u8>) -> bool {
    s.len() > 0 && forall|i: int| 0 <= i < s.len() ==> 48 <= #[trigger] s[i] <= 57
}

/// The number the digit string denotes.
pub open spec fn dec_value(s: Seq<u8>) -> nat
    decreases s.len(),
{
    if s.len() == 0 {
        0
    } else {
        dec_value(s.drop_last()) * 10 + (if s.last() >= 48 {
            (s.last() - 48) as nat
        } else {
            0
        })
    }
}

/// The digits of an unsigned-integer field: a single leading `+` is allowed.
pub open spec fn uint_digits(s: Seq<u8>) -> Seq<u8> {
    if s.len() > 0 && s[0] == 43 {
        s.drop_first()
    } else {
        s
    }
}

/// Whether the field is an unsigned integer that fits in 64 bits.
pub open spec fn is_uint(s: Seq<u8>) -> bool {
    all_digits(uint_digits(s)) && dec_value(uint_digits(s)) <= u64::MAX
}

/// A digit prefix denotes no more than the whole digit string.
proof fn lemma_dec_value_mono(s: Seq<u8>, j: int)
    requires
        0 <= j <= s.len(),
    ensures
        dec_value(s.take(j)) <= dec_value(s),
    decreases s.len() - j,
{
    if j < s.len() {
        lemma_dec_value_mono(s, j + 1);
        assert(s.take(j + 1).drop_last() =~= s.take(j));
        assert(s.take(j + 1).last() == s[j]);
        assert(dec_value(s.take(j + 1)) == dec_value(s.take(j)) * 10 + (if s[j] >= 48 {
            (s[j] - 48) as nat
        } else {
            0
        }));
    } else {
        assert(s.take(j) =~= s);
    }
}

/// Parses an unsigned 64-bit integer field: digits with an optional leading
/// `+`. Returns its value exactly when the field is such an integer.
#[verifier::loop_isolation(false)]
pub fn parse_u64(field: &Vec<u8>) -> (r: Option<u64>)
    ensures
        is_uint(field@) ==> r == Some(dec_value(uint_digits(field@)) as u64),
        !is_uint(field@) ==> r is None,
{
    let start: usize = if field.len() > 0 && field[0] == 43 {
        1
    } else {
        0
    };
    let ghost digits = uint_digits(field@);
    proof {
        assert(digits =~= field@.skip(start as int));
    }
    if field.len() == start {
        return None;
    }
    let mut acc: u64 = 0;
    let mut i: usize = start;
    while i < field.len()
        invariant
            start <= i <= field@.len(),
            acc == dec_value(digits.take(i - start)),
            forall|k: int| 0 <= k < i - start ==> 48 <= #[trigger] digits[k] <= 57,
        decreases field@.len() - i,
    {
        let b = field[i];
        proof {
            assert(digits[i - start] == field@[i as int]);
        }
        if b < 48 || b > 57 {
            return None;
        }
        let d = b - 48;
        proof {
            assert(digits.take(i - start + 1).drop_last() =~= digits.take(i - start));
            assert(digits.take(i - start + 1).last() == digits[i - start]);
        }
        let ghost jv: int = i - start + 1;
        proof {
            assert(dec_value(digits.take(jv)) == acc * 10 + d);
        }
        let next = match acc.checked_mul(10) {
            Option::Some(x) => x.checked_add(d as u64),
            Option::None => None,
        };
        match next {
            Option::Some(x) => {
                acc = x;
            },
            Option::None => {
                proof {
                    assert(dec_value(digits.take(jv)) > u64::MAX);
                    lemma_dec_value_mono(digits, jv);
                }
                return None;
            },
        }
        i = i + 1;
    }
    proof {
        assert(digits.take(field@.len() - start) =~= digits);
        assert(all_digits(digits));
    }
    Some(acc)
}

/// The outcome of parsing one region-list line.
pub enum BedLine {
    /// A comment, a blank line, or fewer than three fields: passed over.
    Skip,
    /// A region: the first three fields.
    Entry(Region),
    /// Three or more fields, but a start or end that is not an unsigned
    /// integer: fatal to the run.
    Malformed,
}

/// Whether the line is a comment: its first byte is `#`.
pub open spec fn is_comment(line: Seq<u8>) -> bool {
    line.len() > 0 && line[0] == 35
}

/// Whether the line is blank: nothing but ASCII whitespace.
pub open spec fn is_blank(line: Seq<u8>) -> bool {
    trimmed(line).len() == 0
}

/// Parses one region-list line (without its terminator): skips comments,
/// blank lines and short lines; reads chromosome, start and end from the
/// first three tab-separated fields; reports a non-integer start or end as
/// malformed.
pub fn parse_bed_line(line: &Vec<u8>) -> (r: BedLine)
    ensures
        ({
            let fields = split_on(line@, TAB);
            match r {
                BedLine::Skip => is_comment(line@) || is_blank(line@) || fields.len() < 3,
                BedLine::Entry(region) => {
                    &&& !is_comment(line@)
                    &&& !is_blank(line@)
                    &&& fields.len() >= 3
                    &&& is_uint(fields[1])
                    &&& is_uint(fields[2])
                    &&& region.chromosome@ == fields[0]
                    &&& region.start == dec_value(uint_digits(fields[1]))
                    &&& region.end == dec_value(uint_digits(fields[2]))
                },
                BedLine::Malformed => {
                    &&& !is_comment(line@)
                    &&& !is_blank(line@)
                    &&& fields.len() >= 3
                    &&& (!is_uint(fields[1]) || !is_uint(fields[2]))
                },
            }
        }),
{
    if line.len() > 0 && line[0] == 35 {
        return BedLine::Skip;
    }
    let t = trim_ascii(line);
    if t.len() == 0 {
        return BedLine::Skip;
    }
    let fields = split_tabs(line);
    if fields.len() < 3 {
        return BedLine::Skip;
    }
    proof {
        assert(fields.deep_view()[0] == fields@[0]@);
        assert(fields.deep_view()[1] == fields@[1]@);
        assert(fields.deep_view()[2] == fields@[2]@);
    }
    let start = parse_u64(&fields[1]);
    let end = parse_u64(&fields[2]);
    match (start, end) {
        (Option::Some(s), Option::Some(e)) => BedLine::Entry(
            Region { chromosome: bytes_clone(&fields[0]), start: s, end: e },
        ),
        _ => BedLine::Malformed,
    }
}

} // verus!
