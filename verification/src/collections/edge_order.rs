//! The order in which a node's outgoing edges are sorted: by edge value,
//! then by child, the child keys ordered by slot index and then by version.
use vstd::prelude::*;
use vstd::std_specs::cmp::{OrdSpec, PartialEqSpec, PartialOrdSpec};
use vstd::laws_cmp::obeys_cmp;
use core::cmp::Ordering;

verus! {

/// The edge value type's comparison is a lawful total order: vstd's
/// `obeys_cmp`, which holds of the integer types among others.
pub open spec fn lawful_order<E: Ord>() -> bool {
    obeys_cmp::<E>()
}

/// Under a lawful order, a call of `cmp` on edge values returns their
/// `cmp_spec`.
pub proof fn lemma_lawful_calls<E: Ord>()
    requires
        lawful_order::<E>(),
    ensures
        E::obeys_cmp_spec(),
{
    reveal(vstd::laws_cmp::obeys_cmp_ord);
}

/// Edge value `a` comes before edge value `b`.
pub open spec fn value_before<E: Ord>(a: E, b: E) -> bool {
    a.cmp_spec(&b) == Ordering::Less
}

/// Edge values `a` and `b` hold the same place in the order.
pub open spec fn value_ties<E: Ord>(a: E, b: E) -> bool {
    a.cmp_spec(&b) == Ordering::Equal
}

/// Child key `a` comes before child key `b`: by slot index (the low 32
/// bits), then by version (the high 32 bits).
pub open spec fn key_before(a: u64, b: u64) -> bool {
    let ia = a % 0x1_0000_0000;
    let ib = b % 0x1_0000_0000;
    ia < ib || (ia == ib && a / 0x1_0000_0000 < b / 0x1_0000_0000)
}

/// Edge `x` (a value and a child key) comes before edge `y`.
pub open spec fn edge_before<E: Ord>(x: (E, u64), y: (E, u64)) -> bool {
    value_before(x.0, y.0) || (value_ties(x.0, y.0) && key_before(x.1, y.1))
}

/// The edges are in strictly increasing order.
pub open spec fn edges_sorted<E: Ord>(s: Seq<(E, u64)>) -> bool {
    forall|i: int, j: int| 0 <= i < j < s.len() ==> #[trigger] edge_before(s[i], s[j])
}

/// The children of a list of edges.
pub open spec fn edge_children<E>(s: Seq<(E, u64)>) -> Seq<u64> {
    s.map_values(|e: (E, u64)| e.1)
}

/// Key order is a strict total order.
proof fn lemma_key_order(a: u64, b: u64, c: u64)
    ensures
        key_before(a, b) && key_before(b, c) ==> key_before(a, c),
        a != b ==> key_before(a, b) || key_before(b, a),
        !(key_before(a, b) && key_before(b, a)),
{
    assert(a == (a / 0x1_0000_0000) * 0x1_0000_0000 + a % 0x1_0000_0000) by (nonlinear_arith);
    assert(b == (b / 0x1_0000_0000) * 0x1_0000_0000 + b % 0x1_0000_0000) by (nonlinear_arith);
}

/// With a lawful order on the edge values, edge order is transitive, and
/// total on edges with different children.
pub proof fn lemma_edge_order<E: Ord>(x: (E, u64), y: (E, u64), z: (E, u64))
    requires
        lawful_order::<E>(),
    ensures
        edge_before(x, y) && edge_before(y, z) ==> edge_before(x, z),
        x.1 != y.1 ==> edge_before(x, y) || edge_before(y, x),
{
    reveal(vstd::laws_cmp::obeys_cmp_partial_ord);
    reveal(vstd::laws_cmp::obeys_cmp_ord);
    reveal(vstd::laws_cmp::obeys_partial_cmp_spec_properties);
    reveal(vstd::laws_eq::obeys_eq_spec_properties);
    lemma_key_order(x.1, y.1, z.1);
    let (a, b, c) = (x.0, y.0, z.0);
    assert(a.partial_cmp_spec(&b) == Some(a.cmp_spec(&b)));
    assert(b.partial_cmp_spec(&a) == Some(b.cmp_spec(&a)));
    assert(b.partial_cmp_spec(&c) == Some(b.cmp_spec(&c)));
    assert(c.partial_cmp_spec(&b) == Some(c.cmp_spec(&b)));
    assert(a.partial_cmp_spec(&c) == Some(a.cmp_spec(&c)));
    assert(c.partial_cmp_spec(&a) == Some(c.cmp_spec(&a)));
    // ties are symmetric
    assert(value_ties(a, b) ==> value_ties(b, a)) by {
        if value_ties(a, b) {
            assert(a.eq_spec(&b));
            assert(b.eq_spec(&a));
        }
    }
    // every pair is ordered one way, the other, or tied
    assert(value_before(a, b) || value_ties(a, b) || value_before(b, a)) by {
        if a.cmp_spec(&b) == Ordering::Greater {
            assert(b.partial_cmp_spec(&a) == Some(Ordering::Less));
        }
    }
    if edge_before(x, y) && edge_before(y, z) {
        if a.cmp_spec(&c) == Ordering::Equal {
            assert(a.eq_spec(&c));
            assert(c.eq_spec(&a));
            if value_ties(a, b) {
                assert(a.eq_spec(&b));
                assert(b.eq_spec(&a));
                assert(b.eq_spec(&c));
                assert(b.cmp_spec(&c) == Ordering::Equal);
            } else {
                if value_ties(b, c) {
                    assert(b.eq_spec(&c));
                    assert(a.eq_spec(&b));
                } else {
                    assert(c.partial_cmp_spec(&a) == Some(Ordering::Equal));
                    assert(a.partial_cmp_spec(&b) == Some(Ordering::Less));
                    assert(b.partial_cmp_spec(&c) == Some(Ordering::Less));
                    assert(a.partial_cmp_spec(&c) == Some(Ordering::Less));
                }
            }
        } else if a.cmp_spec(&c) == Ordering::Greater {
            assert(c.partial_cmp_spec(&a) == Some(Ordering::Less));
            if value_before(a, b) && value_before(b, c) {
                assert(a.partial_cmp_spec(&c) == Some(Ordering::Less));
            } else if value_before(a, b) {
                // b ties c: c < a < b, so c < b, yet b ties c
                assert(c.partial_cmp_spec(&b) == Some(Ordering::Less));
                assert(b.eq_spec(&c));
                assert(c.eq_spec(&b));
            } else if value_before(b, c) {
                // a ties b: b < c < a, so b < a, yet a ties b
                assert(b.partial_cmp_spec(&a) == Some(Ordering::Less));
                assert(a.eq_spec(&b));
                assert(b.eq_spec(&a));
            } else {
                assert(a.eq_spec(&b));
                assert(b.eq_spec(&c));
                assert(a.eq_spec(&c));
            }
        }
    }
}

/// Inserting an element into a sequence inserts it into its multiset.
pub proof fn lemma_insert_multiset<A>(s: Seq<A>, p: int, x: A)
    requires
        0 <= p <= s.len(),
    ensures
        s.insert(p, x).to_multiset() =~= s.to_multiset().insert(x),
{
    broadcast use vstd::multiset::group_multiset_axioms;
    broadcast use vstd::seq_lib::group_to_multiset_ensures;

    let front = s.take(p);
    let back = s.skip(p);
    assert(s.insert(p, x) =~= front.push(x) + back);
    assert(s =~= front + back);
    vstd::seq_lib::lemma_multiset_commutative(front.push(x), back);
    vstd::seq_lib::lemma_multiset_commutative(front, back);
}

/// Two lists of edges with the same multiset have the same children, the
/// same length, and distinct children if either has.
pub proof fn lemma_same_edges<E>(s1: Seq<(E, u64)>, s2: Seq<(E, u64)>)
    requires
        s1.to_multiset() == s2.to_multiset(),
        edge_children(s1).no_duplicates(),
    ensures
        edge_children(s2).no_duplicates(),
        s1.len() == s2.len(),
        forall|c: u64| edge_children(s1).contains(c) <==> #[trigger] edge_children(s2).contains(c),
{
    broadcast use vstd::multiset::group_multiset_axioms;
    broadcast use vstd::seq_lib::group_to_multiset_ensures;

    let c1 = edge_children(s1);
    let c2 = edge_children(s2);
    assert(s1.no_duplicates()) by {
        assert forall|i: int, j: int| 0 <= i < s1.len() && 0 <= j < s1.len() && i != j implies s1[i] != s1[j] by {
            assert(c1[i] != c1[j]);
        }
    }
    s1.lemma_multiset_has_no_duplicates();
    s2.lemma_multiset_has_no_duplicates_conv();
    assert(s1.len() == s2.len()) by {
        assert(s1.len() == s1.to_multiset().len());
        assert(s2.len() == s2.to_multiset().len());
    }
    assert forall|i: int, j: int| 0 <= i < c2.len() && 0 <= j < c2.len() && i != j implies c2[i] != c2[j] by {
        assert(s2.contains(s2[i]));
        assert(s2.contains(s2[j]));
        assert(s1.to_multiset().count(s2[i]) > 0);
        assert(s1.to_multiset().count(s2[j]) > 0);
        assert(s1.contains(s2[i]));
        assert(s1.contains(s2[j]));
        let a = choose|a: int| 0 <= a < s1.len() && s1[a] == s2[i];
        let b = choose|b: int| 0 <= b < s1.len() && s1[b] == s2[j];
        assert(s2[i] != s2[j]);
        if a == b {
            assert(false);
        } else {
            assert(c1[a] != c1[b]);
        }
    }
    assert forall|c: u64| c1.contains(c) <==> #[trigger] c2.contains(c) by {
        if c1.contains(c) {
            let a = choose|a: int| 0 <= a < c1.len() && c1[a] == c;
            assert(s1.contains(s1[a]));
            assert(s2.to_multiset().count(s1[a]) > 0);
            assert(s2.contains(s1[a]));
            let b = choose|b: int| 0 <= b < s2.len() && s2[b] == s1[a];
            assert(c2[b] == c);
        }
        if c2.contains(c) {
            let b = choose|b: int| 0 <= b < c2.len() && c2[b] == c;
            assert(s2.contains(s2[b]));
            assert(s1.to_multiset().count(s2[b]) > 0);
            assert(s1.contains(s2[b]));
            let a = choose|a: int| 0 <= a < s1.len() && s1[a] == s2[b];
            assert(c1[a] == c);
        }
    }
}

} // verus!
