//! Laws of layer sets: canonical form, the algebra of the set operations, and
//! the listing of members.
use crate::layers::{
    ascending, has_layer, intersection_blocks, layer_set,
    lemma_canonical_unique, lemma_intersection_blocks, lemma_symmetric_difference_blocks,
    lemma_union_blocks, lemma_zero_bit, listed, shares_layer, symmetric_difference_blocks, union_blocks,
    RenderLayers,
};
use vstd::prelude::*;

verus! {

/// Two well-formed sets with the same members have the same blocks, however
/// they were built; so `==` on sets is equality of members.
pub proof fn law_canonical_form(a: RenderLayers, b: RenderLayers)
    requires
        a.wf(),
        b.wf(),
        a.layers() == b.layers(),
    ensures
        a@ == b@,
{
    lemma_canonical_unique(a@, b@);
}

/// Removing a member and adding it back gives the set that was there before.
pub proof fn law_remove_add_round_trip(
    a: RenderLayers,
    removed: RenderLayers,
    restored: RenderLayers,
    n: nat,
)
    requires
        a.wf(),
        removed.wf(),
        restored.wf(),
        a.layers().contains(n),
        removed.layers() == a.layers().remove(n),
        restored.layers() == removed.layers().insert(n),
    ensures
        restored@ == a@,
{
    assert(restored.layers() =~= a.layers());
    lemma_canonical_unique(restored@, a@);
}

/// Union is commutative.
pub proof fn law_union_commutative(a: RenderLayers, b: RenderLayers)
    requires
        a.wf(),
        b.wf(),
    ensures
        union_blocks(a@, b@) == union_blocks(b@, a@),
{
    lemma_union_blocks(a@, b@);
    lemma_union_blocks(b@, a@);
    assert(layer_set(a@).union(layer_set(b@)) =~= layer_set(b@).union(layer_set(a@)));
    lemma_canonical_unique(union_blocks(a@, b@), union_blocks(b@, a@));
}

/// Intersection is commutative.
pub proof fn law_intersection_commutative(a: RenderLayers, b: RenderLayers)
    requires
        a.wf(),
        b.wf(),
    ensures
        intersection_blocks(a@, b@) == intersection_blocks(b@, a@),
{
    lemma_intersection_blocks(a@, b@);
    lemma_intersection_blocks(b@, a@);
    assert(layer_set(a@).intersect(layer_set(b@)) =~= layer_set(b@).intersect(layer_set(a@)));
    lemma_canonical_unique(intersection_blocks(a@, b@), intersection_blocks(b@, a@));
}

/// Symmetric difference is commutative.
pub proof fn law_symmetric_difference_commutative(a: RenderLayers, b: RenderLayers)
    requires
        a.wf(),
        b.wf(),
    ensures
        symmetric_difference_blocks(a@, b@) == symmetric_difference_blocks(b@, a@),
{
    lemma_symmetric_difference_blocks(a@, b@);
    lemma_symmetric_difference_blocks(b@, a@);
    let (x, y) = (layer_set(a@), layer_set(b@));
    assert(x.difference(y).union(y.difference(x)) =~= y.difference(x).union(x.difference(y)));
    lemma_canonical_unique(
        symmetric_difference_blocks(a@, b@),
        symmetric_difference_blocks(b@, a@),
    );
}

/// Union is associative.
pub proof fn law_union_associative(a: RenderLayers, b: RenderLayers, c: RenderLayers)
    requires
        a.wf(),
        b.wf(),
        c.wf(),
    ensures
        union_blocks(union_blocks(a@, b@), c@) == union_blocks(a@, union_blocks(b@, c@)),
{
    lemma_union_blocks(a@, b@);
    lemma_union_blocks(b@, c@);
    lemma_union_blocks(union_blocks(a@, b@), c@);
    lemma_union_blocks(a@, union_blocks(b@, c@));
    let (x, y, z) = (layer_set(a@), layer_set(b@), layer_set(c@));
    assert(x.union(y).union(z) =~= x.union(y.union(z)));
    lemma_canonical_unique(
        union_blocks(union_blocks(a@, b@), c@),
        union_blocks(a@, union_blocks(b@, c@)),
    );
}

/// Intersection is associative.
pub proof fn law_intersection_associative(a: RenderLayers, b: RenderLayers, c: RenderLayers)
    requires
        a.wf(),
        b.wf(),
        c.wf(),
    ensures
        intersection_blocks(intersection_blocks(a@, b@), c@) == intersection_blocks(
            a@,
            intersection_blocks(b@, c@),
        ),
{
    lemma_intersection_blocks(a@, b@);
    lemma_intersection_blocks(b@, c@);
    lemma_intersection_blocks(intersection_blocks(a@, b@), c@);
    lemma_intersection_blocks(a@, intersection_blocks(b@, c@));
    let (x, y, z) = (layer_set(a@), layer_set(b@), layer_set(c@));
    assert(x.intersect(y).intersect(z) =~= x.intersect(y.intersect(z)));
    lemma_canonical_unique(
        intersection_blocks(intersection_blocks(a@, b@), c@),
        intersection_blocks(a@, intersection_blocks(b@, c@)),
    );
}

/// The empty set (the blocks of `RenderLayers::none`) is the identity of
/// union and of symmetric difference, and absorbs under intersection.
pub proof fn law_empty_identities(x: RenderLayers)
    requires
        x.wf(),
    ensures
        union_blocks(seq![0u64], x@) == x@,
        intersection_blocks(seq![0u64], x@) == seq![0u64],
        symmetric_difference_blocks(seq![0u64], x@) == x@,
{
    let e = seq![0u64];
    assert(layer_set(e) =~= Set::<nat>::empty()) by {
        assert forall|n: nat| !has_layer(e, n) by {
            lemma_zero_bit((n % 64) as u64);
        }
    }
    let s = layer_set(x@);
    lemma_union_blocks(e, x@);
    assert(Set::<nat>::empty().union(s) =~= s);
    lemma_canonical_unique(union_blocks(e, x@), x@);
    lemma_intersection_blocks(e, x@);
    assert(Set::<nat>::empty().intersect(s) =~= layer_set(e));
    lemma_canonical_unique(intersection_blocks(e, x@), e);
    lemma_symmetric_difference_blocks(e, x@);
    assert(Set::<nat>::empty().difference(s).union(s.difference(Set::<nat>::empty())) =~= s);
    lemma_canonical_unique(symmetric_difference_blocks(e, x@), x@);
}

/// Sharing a layer is symmetric, the empty set shares no layer with itself,
/// and a set with a member shares a layer with itself.
pub proof fn law_intersects(a: RenderLayers, b: RenderLayers)
    ensures
        shares_layer(a@, b@) == shares_layer(b@, a@),
        !shares_layer(seq![0u64], seq![0u64]),
        a.layers() != Set::<nat>::empty() ==> shares_layer(a@, a@),
{
    if shares_layer(a@, b@) {
        let n = choose|n: nat| has_layer(a@, n) && has_layer(b@, n);
        assert(has_layer(b@, n) && has_layer(a@, n));
    }
    if shares_layer(b@, a@) {
        let n = choose|n: nat| has_layer(b@, n) && has_layer(a@, n);
        assert(has_layer(a@, n) && has_layer(b@, n));
    }
    assert forall|n: nat| !has_layer(seq![0u64], n) by {
        lemma_zero_bit((n % 64) as u64);
    }
    if a.layers() != Set::<nat>::empty() {
        assert(exists|n: nat| a.layers().contains(n)) by {
            if !(exists|n: nat| a.layers().contains(n)) {
                assert(a.layers() =~= Set::<nat>::empty());
            }
        }
        let n = choose|n: nat| a.layers().contains(n);
        assert(has_layer(a@, n) && has_layer(a@, n));
    }
}

/// An ascending listing of a set of layers is determined by the set: the
/// listing of a set's members is unique.
pub proof fn law_listing_unique(s: Seq<usize>, t: Seq<usize>)
    requires
        ascending(s),
        ascending(t),
        listed(s) == listed(t),
    ensures
        s == t,
    decreases s.len(),
{
    if s.len() == 0 {
        if t.len() > 0 {
            assert(listed(t).contains(t[0] as nat));
        }
        assert(s =~= t);
    } else {
        assert(listed(s).contains(s[0] as nat));
        assert(t.len() > 0);
        assert(listed(t).contains(t[0] as nat));
        let i = choose|i: int| 0 <= i < s.len() && s[i] as nat == t[0] as nat;
        let j = choose|j: int| 0 <= j < t.len() && t[j] as nat == s[0] as nat;
        assert(s[0] == t[0]) by {
            if i > 0 {
                assert(s[0] < s[i]);
            }
            if j > 0 {
                assert(t[0] < t[j]);
            }
        }
        let (s1, t1) = (s.drop_first(), t.drop_first());
        assert forall|n: nat| listed(s1).contains(n) <==> listed(t1).contains(n) by {
            if listed(s1).contains(n) {
                let k = choose|k: int| 0 <= k < s1.len() && s1[k] as nat == n;
                assert(listed(s).contains(n)) by {
                    assert(s[k + 1] as nat == n);
                }
                let m = choose|m: int| 0 <= m < t.len() && t[m] as nat == n;
                assert(s[0] < s[k + 1]);
                if m == 0 {
                    assert(false);
                }
                assert(t1[m - 1] as nat == n);
            }
            if listed(t1).contains(n) {
                let k = choose|k: int| 0 <= k < t1.len() && t1[k] as nat == n;
                assert(listed(t).contains(n)) by {
                    assert(t[k + 1] as nat == n);
                }
                let m = choose|m: int| 0 <= m < s.len() && s[m] as nat == n;
                assert(t[0] < t[k + 1]);
                if m == 0 {
                    assert(false);
                }
                assert(s1[m - 1] as nat == n);
            }
        }
        assert(listed(s1) =~= listed(t1));
        law_listing_unique(s1, t1);
        assert(s =~= t1.insert(0, t[0]));
        assert(t =~= t1.insert(0, t[0]));
    }
}

/// The listing of a set holding one layer `n` is exactly `[n]`.
pub proof fn law_single_listing(n: usize, s: Seq<usize>)
    requires
        ascending(s),
        listed(s) == set![n as nat],
    ensures
        s == seq![n],
{
    let one = seq![n];
    assert(listed(one) =~= set![n as nat]) by {
        assert(one[0] == n);
    }
    law_listing_unique(s, one);
}

} // verus!
