//! Sorting of distinct byte-string keys: the serialization order of every
//! artifact. A strictly sorted sequence of keys is the unique presentation of
//! a finite key set, which is what makes the artifacts deterministic.

use vstd::prelude::*;
use crate::bytes::{bytes_clone, bytes_lt, lemma_lex_connected, lemma_lex_irrefl, lemma_lex_trans,
    lex_lt};

verus! {

/// No two elements are equal.
pub open spec fn distinct_seqs(s: Seq<Seq<u8>>) -> bool {
    forall|i: int, j: int| 0 <= i < j < s.len() ==> s[i] != s[j]
}

/// Strictly ascending in the lexicographic order.
pub open spec fn sorted_strict(s: Seq<Seq<u8>>) -> bool {
    forall|i: int, j: int| 0 <= i < j < s.len() ==> lex_lt(s[i], s[j])
}

/// The set of elements of a sequence.
pub open spec fn seq_set(s: Seq<Seq<u8>>) -> Set<Seq<u8>>
    decreases s.len(),
{
    if s.len() == 0 {
        Set::empty()
    } else {
        seq_set(s.drop_last()).insert(s.last())
    }
}

/// Membership in `seq_set` is membership in the sequence.
pub proof fn lemma_seq_set_mem(s: Seq<Seq<u8>>)
    ensures
        forall|x: Seq<u8>| #[trigger] seq_set(s).contains(x) <==> exists|i: int|
            0 <= i < s.len() && s[i] == x,
    decreases s.len(),
{
    if s.len() > 0 {
        lemma_seq_set_mem(s.drop_last());
        assert(seq_set(s) == seq_set(s.drop_last()).insert(s.last()));
        assert forall|x: Seq<u8>| #[trigger] seq_set(s).contains(x) implies exists|i: int|
            0 <= i < s.len() && s[i] == x by {
            if x == s.last() {
                assert(s[s.len() - 1] == x);
            } else {
                assert(seq_set(s.drop_last()).contains(x));
                let i = choose|i: int|
                    0 <= i < s.drop_last().len() && #[trigger] s.drop_last()[i] == x;
                assert(s.drop_last()[i] == s[i]);
                assert(s[i] == x);
            }
        }
        assert forall|x: Seq<u8>|
            exists|i: int| 0 <= i < s.len() && s[i] == x implies #[trigger] seq_set(s).contains(
            x,
        ) by {
            let i = choose|i: int| 0 <= i < s.len() && s[i] == x;
            if i == s.len() - 1 {
                assert(seq_set(s).contains(s.last()));
            } else {
                assert(s.drop_last()[i] == x);
            }
        }
    }
}

/// A strictly sorted sequence has distinct elements.
pub proof fn lemma_sorted_distinct(s: Seq<Seq<u8>>)
    requires
        sorted_strict(s),
    ensures
        distinct_seqs(s),
{
    assert forall|i: int, j: int| 0 <= i < j < s.len() implies s[i] != s[j] by {
        lemma_lex_irrefl(s[i]);
    }
}

/// Two strictly sorted sequences with the same element set are equal: the
/// sorted presentation of a key set is unique, so serialization over sorted
/// keys is a function of the aggregated state alone.
pub proof fn lemma_sorted_unique(a: Seq<Seq<u8>>, b: Seq<Seq<u8>>)
    requires
        sorted_strict(a),
        sorted_strict(b),
        seq_set(a) == seq_set(b),
    ensures
        a == b,
    decreases a.len(),
{
    lemma_seq_set_mem(a);
    lemma_seq_set_mem(b);
    if a.len() == 0 {
        if b.len() > 0 {
            assert(seq_set(b).contains(b[0]));
            assert(seq_set(a).contains(b[0]));
        }
        assert(a =~= b);
    } else {
        assert(seq_set(a).contains(a.last()));
        assert(seq_set(b).contains(b.last()));
        let i = choose|i: int| 0 <= i < a.len() && a[i] == b.last();
        let j = choose|j: int| 0 <= j < b.len() && b[j] == a.last();
        if a.last() != b.last() {
            assert(i < a.len() - 1);
            assert(j < b.len() - 1);
            assert(lex_lt(a[i], a.last()));
            assert(lex_lt(b[j], b.last()));
            lemma_lex_trans(a.last(), b.last(), a.last());
            lemma_lex_irrefl(a.last());
        }
        assert(a.last() == b.last());
        lemma_sorted_distinct(a);
        lemma_sorted_distinct(b);
        assert(seq_set(a.drop_last()) =~= seq_set(b.drop_last())) by {
            lemma_seq_set_mem(a.drop_last());
            lemma_seq_set_mem(b.drop_last());
            assert forall|x: Seq<u8>| #[trigger] seq_set(a.drop_last()).contains(x)
                implies seq_set(b.drop_last()).contains(x) by {
                let k = choose|k: int| 0 <= k < a.drop_last().len() && a.drop_last()[k] == x;
                assert(a[k] == x);
                assert(x != a.last());
                assert(seq_set(b).contains(x));
                let m = choose|m: int| 0 <= m < b.len() && b[m] == x;
                assert(m < b.len() - 1);
                assert(b.drop_last()[m] == x);
            }
            assert forall|x: Seq<u8>| #[trigger] seq_set(b.drop_last()).contains(x)
                implies seq_set(a.drop_last()).contains(x) by {
                let k = choose|k: int| 0 <= k < b.drop_last().len() && b.drop_last()[k] == x;
                assert(b[k] == x);
                assert(x != b.last());
                assert(seq_set(a).contains(x));
                let m = choose|m: int| 0 <= m < a.len() && a[m] == x;
                assert(m < a.len() - 1);
                assert(a.drop_last()[m] == x);
            }
        }
        assert(sorted_strict(a.drop_last())) by {
            assert(forall|i: int, j: int| 0 <= i < j < a.drop_last().len() ==> a.drop_last()[i]
                == a[i] && a.drop_last()[j] == a[j]);
        }
        assert(sorted_strict(b.drop_last())) by {
            assert(forall|i: int, j: int| 0 <= i < j < b.drop_last().len() ==> b.drop_last()[i]
                == b[i] && b.drop_last()[j] == b[j]);
        }
        lemma_sorted_unique(a.drop_last(), b.drop_last());
        assert(a =~= a.drop_last().push(a.last()));
        assert(b =~= b.drop_last().push(b.last()));
    }
}

/// Sorts distinct keys into strictly ascending lexicographic order. The
/// result holds exactly the elements of `src`.
pub fn sort_keys(src: &Vec<Vec<u8>>) -> (out: Vec<Vec<u8>>)
    requires
        distinct_seqs(src.deep_view()),
    ensures
        sorted_strict(out.deep_view()),
        seq_set(out.deep_view()) == seq_set(src.deep_view()),
{
    let mut out: Vec<Vec<u8>> = Vec::new();
    let mut i: usize = 0;
    while i < src.len()
        invariant
            0 <= i <= src.len(),
            distinct_seqs(src.deep_view()),
            sorted_strict(out.deep_view()),
            seq_set(out.deep_view()) == seq_set(src.deep_view().take(i as int)),
        decreases src.len() - i,
    {
        let ghost old_out = out.deep_view();
        let x = bytes_clone(&src[i]);
        proof {
            assert(src.deep_view()[i as int] == src@[i as int]@);
            assert(x@ == src.deep_view()[i as int]);
            lemma_seq_set_mem(old_out);
            lemma_seq_set_mem(src.deep_view().take(i as int));
            assert forall|j: int| 0 <= j < old_out.len() implies old_out[j] != x@ by {
                if old_out[j] == x@ {
                    assert(seq_set(old_out).contains(x@));
                    let k = choose|k: int|
                        0 <= k < i && src.deep_view().take(i as int)[k] == x@;
                    assert(src.deep_view()[k] == src.deep_view()[i as int]);
                }
            }
        }
        let mut pos: usize = 0;
        while pos < out.len() && bytes_lt(&out[pos], &x)
            invariant
                0 <= pos <= out.len(),
                out.deep_view() == old_out,
                forall|j: int| 0 <= j < pos ==> lex_lt(#[trigger] old_out[j], x@),
            decreases out.len() - pos,
        {
            proof {
                assert(out.deep_view()[pos as int] == out@[pos as int]@);
            }
            pos = pos + 1;
        }
        let ghost xv = x@;
        proof {
            if pos < out.len() {
                assert(out.deep_view()[pos as int] == out@[pos as int]@);
                assert(!lex_lt(old_out[pos as int], xv));
                if !lex_lt(xv, old_out[pos as int]) {
                    lemma_lex_connected(old_out[pos as int], xv);
                    assert(false);
                }
            }
            assert forall|j: int| pos <= j < old_out.len() implies lex_lt(
                xv,
                #[trigger] old_out[j],
            ) by {
                if j > pos {
                    lemma_lex_trans(xv, old_out[pos as int], old_out[j]);
                }
            }
        }
        let ghost prev = out@;
        out.insert(pos, x);
        proof {
            let new_out = out.deep_view();
            assert(out@ == prev.insert(pos as int, x));
            assert(new_out =~= old_out.insert(pos as int, xv)) by {
                assert forall|k: int| 0 <= k < new_out.len() implies new_out[k]
                    == old_out.insert(pos as int, xv)[k] by {
                    assert(new_out[k] == out@[k]@);
                    if k < pos {
                        assert(out@[k] == prev[k]);
                    } else if k == pos {
                        assert(out@[k] == x);
                    } else {
                        assert(out@[k] == prev[k - 1]);
                    }
                }
            }
            assert(sorted_strict(new_out)) by {
                assert forall|m: int, n: int| 0 <= m < n < new_out.len() implies lex_lt(
                    new_out[m],
                    new_out[n],
                ) by {
                    if m < pos && n < pos {
                        assert(new_out[m] == old_out[m] && new_out[n] == old_out[n]);
                    } else if m < pos && n == pos {
                        assert(new_out[m] == old_out[m] && new_out[n] == xv);
                    } else if m < pos && n > pos {
                        assert(new_out[m] == old_out[m] && new_out[n] == old_out[n - 1]);
                        if n - 1 == m {
                            assert(lex_lt(old_out[m], xv));
                            assert(lex_lt(xv, old_out[m]));
                            lemma_lex_trans(old_out[m], xv, old_out[m]);
                            lemma_lex_irrefl(old_out[m]);
                        }
                    } else if m == pos {
                        assert(new_out[m] == xv && new_out[n] == old_out[n - 1]);
                    } else {
                        assert(new_out[m] == old_out[m - 1] && new_out[n] == old_out[n - 1]);
                    }
                }
            }
            lemma_seq_set_mem(new_out);
            lemma_seq_set_mem(old_out);
            lemma_seq_set_mem(src.deep_view().take(i as int));
            lemma_seq_set_mem(src.deep_view().take(i + 1));
            assert(seq_set(new_out) =~= seq_set(src.deep_view().take(i + 1))) by {
                assert forall|y: Seq<u8>| #[trigger] seq_set(new_out).contains(y)
                    implies seq_set(src.deep_view().take(i + 1)).contains(y) by {
                    let k = choose|k: int| 0 <= k < new_out.len() && new_out[k] == y;
                    if k == pos {
                        assert(src.deep_view().take(i + 1)[i as int] == xv);
                    } else {
                        let k0: int = if k < pos { k } else { k - 1 };
                        assert(old_out[k0] == y);
                        assert(seq_set(old_out).contains(y));
                        let m = choose|m: int|
                            0 <= m < i && src.deep_view().take(i as int)[m] == y;
                        assert(src.deep_view().take(i + 1)[m] == y);
                    }
                }
                assert forall|y: Seq<u8>| #[trigger] seq_set(
                    src.deep_view().take(i + 1),
                ).contains(y) implies seq_set(new_out).contains(y) by {
                    let m = choose|m: int|
                        0 <= m < i + 1 && #[trigger] src.deep_view().take(i + 1)[m] == y;
                    if m == i {
                        assert(new_out[pos as int] == y);
                    } else {
                        assert(src.deep_view().take(i as int)[m] == y);
                        assert(seq_set(old_out).contains(y));
                        let k = choose|k: int| 0 <= k < old_out.len() && old_out[k] == y;
                        if k < pos {
                            assert(new_out[k] == y);
                        } else {
                            assert(new_out[k + 1] == y);
                        }
                    }
                }
            }
        }
        i = i + 1;
    }
    proof {
        assert(src.deep_view().take(src.deep_view().len() as int) =~= src.deep_view());
    }
    out
}

} // verus!
