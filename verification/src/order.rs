//! The total order that the trees sort by, and what it means for a sequence
//! to be sorted under it.

use vstd::prelude::*;
use vstd::std_specs::cmp::PartialEqSpec;
use vstd::std_specs::cmp::PartialOrdIs;
use vstd::std_specs::cmp::PartialOrdSpec;

verus! {

/// The comparison of `T` is a lawful total order, and the operators `<`,
/// `==` and friends compute exactly that order.
pub open spec fn total_order<T: Ord>() -> bool {
    vstd::laws_cmp::obeys_cmp::<T>()
}

/// `a` is strictly less than `b`.
pub open spec fn below<T: Ord>(a: T, b: T) -> bool {
    a.is_lt(&b)
}

/// No element of `s` is strictly less than an element before it.
pub open spec fn sorted<T: Ord>(s: Seq<T>) -> bool {
    forall|i: int, j: int| 0 <= i < j < s.len() ==> !below(#[trigger] s[j], #[trigger] s[i])
}

/// The index of the first element of `s` that is strictly greater than `v`,
/// or the length of `s` if there is none. A new element `v` that goes behind
/// its equals lands at this index.
pub open spec fn rank<T: Ord>(s: Seq<T>, v: T) -> nat
    decreases s.len(),
{
    if s.len() == 0 || below(v, s[0]) {
        0
    } else {
        1 + rank(s.drop_first(), v)
    }
}

/// Decides `a < b`.
pub fn less<T: Ord>(a: &T, b: &T) -> (r: bool)
    requires
        total_order::<T>(),
    ensures
        r == below(*a, *b),
{
    proof {
        reveal(vstd::laws_cmp::obeys_cmp_partial_ord);
    }
    *a < *b
}

/// The strict order is transitive.
pub proof fn lemma_below_transitive<T: Ord>(a: T, b: T, c: T)
    requires
        total_order::<T>(),
        below(a, b),
        below(b, c),
    ensures
        below(a, c),
{
    reveal(vstd::laws_cmp::obeys_partial_cmp_spec_properties);
}

/// Of two elements at most one is strictly less than the other.
pub proof fn lemma_below_asymmetric<T: Ord>(a: T, b: T)
    requires
        total_order::<T>(),
        below(a, b),
    ensures
        !below(b, a),
{
    reveal(vstd::laws_cmp::obeys_partial_cmp_spec_properties);
}

/// "Not greater than" is transitive: from `a <= b` and `b <= c` follows
/// `a <= c`.
pub proof fn lemma_at_most_transitive<T: Ord>(a: T, b: T, c: T)
    requires
        total_order::<T>(),
        !below(b, a),
        !below(c, b),
    ensures
        !below(c, a),
{
    reveal(vstd::laws_cmp::obeys_partial_cmp_spec_properties);
    reveal(vstd::laws_cmp::obeys_cmp_ord);
    reveal(vstd::laws_cmp::obeys_cmp_partial_ord);
    reveal(vstd::laws_eq::obeys_eq_spec_properties);
    if below(c, a) {
        if below(a, b) {
            lemma_below_transitive(c, a, b);
        } else if below(b, c) {
            lemma_below_transitive(b, c, a);
        } else {
            assert(b.eq_spec(&a));
            assert(c.eq_spec(&b));
            assert(c.eq_spec(&a));
        }
    }
}

/// From `a < b` and `b <= c` follows `a < c`.
pub proof fn lemma_below_then_at_most<T: Ord>(a: T, b: T, c: T)
    requires
        total_order::<T>(),
        below(a, b),
        !below(c, b),
    ensures
        below(a, c),
{
    if !below(a, c) {
        lemma_at_most_transitive(b, c, a);
    }
}

/// `rank` never points past the end.
pub proof fn lemma_rank_bound<T: Ord>(s: Seq<T>, v: T)
    ensures
        rank(s, v) <= s.len(),
    decreases s.len(),
{
    if s.len() != 0 && !below(v, s[0]) {
        lemma_rank_bound(s.drop_first(), v);
    }
}

/// Every element before `rank(s, v)` is at most `v`, and the element at that
/// index, if there is one, is strictly greater.
pub proof fn lemma_rank_prefix<T: Ord>(s: Seq<T>, v: T)
    ensures
        rank(s, v) <= s.len(),
        forall|i: int| 0 <= i < rank(s, v) ==> !below(v, #[trigger] s[i]),
        rank(s, v) < s.len() ==> below(v, s[rank(s, v) as int]),
    decreases s.len(),
{
    if s.len() != 0 && !below(v, s[0]) {
        let t = s.drop_first();
        lemma_rank_prefix(t, v);
        assert forall|i: int| 0 <= i < rank(s, v) implies !below(v, #[trigger] s[i]) by {
            if i > 0 {
                assert(s[i] == t[i - 1]);
            }
        }
        if rank(s, v) < s.len() {
            assert(s[rank(s, v) as int] == t[rank(t, v) as int]);
        }
    }
}

/// In a sorted sequence every element from `rank(s, v)` on is strictly
/// greater than `v`.
pub proof fn lemma_rank_suffix<T: Ord>(s: Seq<T>, v: T)
    requires
        total_order::<T>(),
        sorted(s),
    ensures
        forall|i: int| rank(s, v) <= i < s.len() ==> below(v, #[trigger] s[i]),
{
    lemma_rank_prefix(s, v);
    let r = rank(s, v) as int;
    assert forall|i: int| r <= i < s.len() implies below(v, #[trigger] s[i]) by {
        if r < i {
            assert(!below(s[i], s[r]));
            lemma_below_then_at_most(v, s[r], s[i]);
        }
    }
}

/// The rank in a concatenation: it lies in the first part if a greater
/// element is found there, and else continues into the second.
pub proof fn lemma_rank_concat<T: Ord>(a: Seq<T>, b: Seq<T>, v: T)
    ensures
        rank(a + b, v) == if rank(a, v) < a.len() {
            rank(a, v)
        } else {
            a.len() + rank(b, v)
        },
    decreases a.len(),
{
    lemma_rank_bound(a, v);
    if a.len() == 0 {
        assert(a + b =~= b);
    } else {
        assert((a + b)[0] == a[0]);
        if !below(v, a[0]) {
            assert((a + b).drop_first() =~= a.drop_first() + b);
            lemma_rank_concat(a.drop_first(), b, v);
        }
    }
}

/// If no element of `s` is greater than `v`, the rank of `v` is the length.
pub proof fn lemma_rank_full<T: Ord>(s: Seq<T>, v: T)
    requires
        forall|i: int| 0 <= i < s.len() ==> !below(v, #[trigger] s[i]),
    ensures
        rank(s, v) == s.len(),
    decreases s.len(),
{
    if s.len() != 0 {
        let t = s.drop_first();
        assert forall|i: int| 0 <= i < t.len() implies !below(v, #[trigger] t[i]) by {
            assert(t[i] == s[i + 1]);
        }
        lemma_rank_full(t, v);
    }
}

/// The rank in a sequence that is split by a pivot `x`, where all elements
/// before the pivot are strictly less than it: a `v` that is strictly less
/// than the pivot has its rank in the first part, and any other `v` has it
/// behind the pivot.
pub proof fn lemma_rank_around<T: Ord>(l: Seq<T>, x: T, r: Seq<T>, v: T)
    requires
        total_order::<T>(),
        forall|i: int| 0 <= i < l.len() ==> below(#[trigger] l[i], x),
    ensures
        rank(l, v) <= l.len(),
        rank(r, v) <= r.len(),
        rank(l.push(x) + r, v) == if below(v, x) {
            rank(l, v)
        } else {
            l.len() + 1 + rank(r, v)
        },
{
    let lx = l.push(x);
    lemma_rank_bound(l, v);
    lemma_rank_bound(r, v);
    lemma_rank_concat(lx, r, v);
    lemma_rank_concat(l, seq![x], v);
    assert(lx =~= l + seq![x]);
    assert(seq![x].drop_first() =~= Seq::<T>::empty());
    assert(rank(Seq::<T>::empty(), v) == 0);
    if below(v, x) {
        assert(rank(seq![x], v) == 0);
    } else {
        assert forall|i: int| 0 <= i < l.len() implies !below(v, #[trigger] l[i]) by {
            if below(v, l[i]) {
                lemma_below_transitive(v, l[i], x);
            }
        }
        lemma_rank_full(l, v);
        assert(rank(seq![x], v) == 1);
    }
}

} // verus!
