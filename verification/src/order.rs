use vstd::prelude::*;
use vstd::relations::{sorted_by, total_ordering};

use rayon::slice::ParallelSliceMut;

verus! {

/// The order of `str` and `String`: lexicographic by Unicode scalar value (which is the
/// order of their UTF-8 bytes).
pub open spec fn str_le(a: Seq<char>, b: Seq<char>) -> bool
    decreases a.len(),
{
    if a.len() == 0 {
        true
    } else if b.len() == 0 {
        false
    } else if a[0] != b[0] {
        (a[0] as u32) < (b[0] as u32)
    } else {
        str_le(a.drop_first(), b.drop_first())
    }
}

pub open spec fn str_leq() -> spec_fn(Seq<char>, Seq<char>) -> bool {
    |a: Seq<char>, b: Seq<char>| str_le(a, b)
}

/// The order of pairs of strings: by the first, then by the second.
pub open spec fn pair_le(a: (Seq<char>, Seq<char>), b: (Seq<char>, Seq<char>)) -> bool {
    if a.0 == b.0 {
        str_le(a.1, b.1)
    } else {
        str_le(a.0, b.0)
    }
}

pub open spec fn pair_leq() -> spec_fn((Seq<char>, Seq<char>), (Seq<char>, Seq<char>)) -> bool {
    |a: (Seq<char>, Seq<char>), b: (Seq<char>, Seq<char>)| pair_le(a, b)
}

proof fn lemma_str_le_reflexive(a: Seq<char>)
    ensures
        str_le(a, a),
    decreases a.len(),
{
    if a.len() > 0 {
        lemma_str_le_reflexive(a.drop_first());
    }
}

proof fn lemma_str_le_antisymmetric(a: Seq<char>, b: Seq<char>)
    requires
        str_le(a, b),
        str_le(b, a),
    ensures
        a == b,
    decreases a.len(),
{
    if a.len() > 0 && b.len() > 0 {
        lemma_str_le_antisymmetric(a.drop_first(), b.drop_first());
        assert(a =~= seq![a[0]] + a.drop_first());
        assert(b =~= seq![b[0]] + b.drop_first());
    }
}

proof fn lemma_str_le_transitive(a: Seq<char>, b: Seq<char>, c: Seq<char>)
    requires
        str_le(a, b),
        str_le(b, c),
    ensures
        str_le(a, c),
    decreases a.len(),
{
    if a.len() > 0 && b.len() > 0 && c.len() > 0 {
        if a[0] == b[0] && b[0] == c[0] {
            lemma_str_le_transitive(a.drop_first(), b.drop_first(), c.drop_first());
        }
    }
}

proof fn lemma_str_le_total(a: Seq<char>, b: Seq<char>)
    ensures
        str_le(a, b) || str_le(b, a),
    decreases a.len(),
{
    if a.len() > 0 && b.len() > 0 {
        if a[0] == b[0] {
            lemma_str_le_total(a.drop_first(), b.drop_first());
        } else {
            vstd::utf8::char_u32_cast(a[0], a[0] as u32);
            vstd::utf8::char_u32_cast(b[0], b[0] as u32);
        }
    }
}

/// The order of strings is a total order.
pub proof fn str_le_total_ordering()
    ensures
        total_ordering(str_leq()),
{
    assert forall|a: Seq<char>| #[trigger] str_leq()(a, a) by {
        lemma_str_le_reflexive(a);
    }
    assert forall|a: Seq<char>, b: Seq<char>| #[trigger]
        str_leq()(a, b) && #[trigger] str_leq()(b, a) implies a == b by {
        lemma_str_le_antisymmetric(a, b);
    }
    assert forall|a: Seq<char>, b: Seq<char>, c: Seq<char>| #[trigger]
        str_leq()(a, b) && #[trigger] str_leq()(b, c) implies str_leq()(a, c) by {
        lemma_str_le_transitive(a, b, c);
    }
    assert forall|a: Seq<char>, b: Seq<char>| #[trigger]
        str_leq()(a, b) || #[trigger] str_leq()(b, a) by {
        lemma_str_le_total(a, b);
    }
}

/// The order of pairs of strings is a total order.
pub proof fn pair_le_total_ordering()
    ensures
        total_ordering(pair_leq()),
{
    assert forall|a: (Seq<char>, Seq<char>)| #[trigger] pair_leq()(a, a) by {
        lemma_str_le_reflexive(a.1);
    }
    assert forall|a: (Seq<char>, Seq<char>), b: (Seq<char>, Seq<char>)| #[trigger]
        pair_leq()(a, b) && #[trigger] pair_leq()(b, a) implies a == b by {
        if a.0 == b.0 {
            lemma_str_le_antisymmetric(a.1, b.1);
        } else {
            lemma_str_le_antisymmetric(a.0, b.0);
        }
    }
    assert forall|a: (Seq<char>, Seq<char>), b: (Seq<char>, Seq<char>), c: (
        Seq<char>,
        Seq<char>,
    )| #[trigger] pair_leq()(a, b) && #[trigger] pair_leq()(b, c) implies pair_leq()(a, c) by {
        if a.0 == b.0 && b.0 == c.0 {
            lemma_str_le_transitive(a.1, b.1, c.1);
        } else if a.0 == b.0 {
            assert(str_le(a.0, c.0));
        } else if b.0 == c.0 {
            assert(str_le(a.0, c.0));
        } else {
            lemma_str_le_transitive(a.0, b.0, c.0);
            if a.0 == c.0 {
                lemma_str_le_antisymmetric(a.0, b.0);
            }
        }
    }
    assert forall|a: (Seq<char>, Seq<char>), b: (Seq<char>, Seq<char>)| #[trigger]
        pair_leq()(a, b) || #[trigger] pair_leq()(b, a) by {
        lemma_str_le_total(a.0, b.0);
        lemma_str_le_total(a.1, b.1);
    }
}

/// `rayon::slice::ParallelSliceMut::par_sort_unstable` on strings. Claimed: the strings
/// come out permuted (the same multiset) and in ascending `str` order.
#[verifier::external_body]
pub(crate) fn par_sort_strings(v: &mut Vec<String>)
    ensures
        final(v).deep_view().to_multiset() == old(v).deep_view().to_multiset(),
        sorted_by(final(v).deep_view(), str_leq()),
{
    v.par_sort_unstable();
}

/// `rayon::slice::ParallelSliceMut::par_sort_unstable` on pairs of strings. Claimed: the
/// pairs come out permuted (the same multiset) and in ascending order of pairs.
#[verifier::external_body]
pub(crate) fn par_sort_pairs(v: &mut Vec<(String, String)>)
    ensures
        final(v).deep_view().to_multiset() == old(v).deep_view().to_multiset(),
        sorted_by(final(v).deep_view(), pair_leq()),
{
    v.par_sort_unstable();
}

} // verus!
