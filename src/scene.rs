use vstd::prelude::*;

verus! {

/// Position `i` holds the nearest hit of `hits`: no other hit is closer, and
/// every later hit is farther, so that of equally near hits the last one wins,
/// as it does in a scan that accepts a hit lying exactly at its current bound.
///
/// A hit is the key of its distance along the ray; keys order as distances do.
pub open spec fn is_nearest(hits: Seq<Option<u64>>, i: int) -> bool {
    &&& 0 <= i < hits.len()
    &&& hits[i] is Some
    &&& forall|j: int|
        0 <= j < hits.len() && (#[trigger] hits[j]) is Some ==> hits[i]->0 <= hits[j]->0
    &&& forall|j: int| i < j < hits.len() && (#[trigger] hits[j]) is Some ==> hits[i]->0 < hits[j]->0
}

/// No shape was hit.
pub open spec fn no_hit(hits: Seq<Option<u64>>) -> bool {
    forall|j: int| 0 <= j < hits.len() ==> (#[trigger] hits[j]) is None
}

/// Picks the nearest of the hits that each shape of a scene reported, in
/// scene order: `None` exactly when no shape was hit.
pub fn nearest_hit(hits: &Vec<Option<u64>>) -> (r: Option<usize>)
    ensures
        (r is None) <==> no_hit(hits@),
        r matches Some(i) ==> is_nearest(hits@, i as int),
{
    let mut best: Option<usize> = None;
    let mut closest: u64 = 0;
    let mut j: usize = 0;
    while j < hits.len()
        invariant
            j <= hits@.len(),
            best is None ==> no_hit(hits@.subrange(0, j as int)),
            best matches Some(b) ==> is_nearest(hits@.subrange(0, j as int), b as int) && hits@[b as int]
                == Some(closest),
        decreases hits@.len() - j,
    {
        match hits[j] {
            Some(t) => {
                if best.is_none() || t <= closest {
                    best = Some(j);
                    closest = t;
                }
            },
            None => {},
        }
        j = j + 1;
        proof {
            let seen = hits@.subrange(0, j as int);
            assert(seen.len() == j);
            assert forall|k: int| 0 <= k < j implies #[trigger] seen[k] == hits@[k] by {}
            assert forall|k: int| 0 <= k < j - 1 implies hits@.subrange(0, j - 1)[k] == #[trigger] seen[k] by {}
        }
    }
    assert(hits@.subrange(0, hits@.len() as int) =~= hits@);
    best
}

/// The order of the shapes does not decide what is hit: where `b` holds the
/// same hits as `a` in another order, either both hold no hit, or their
/// nearest hits lie at the same distance.
pub proof fn lemma_nearest_distance_ignores_order(a: Seq<Option<u64>>, b: Seq<Option<u64>>)
    requires
        a.to_multiset() == b.to_multiset(),
    ensures
        no_hit(a) <==> no_hit(b),
        forall|i: int, j: int| is_nearest(a, i) && is_nearest(b, j) ==> a[i] == b[j],
{
    a.to_multiset_ensures();
    b.to_multiset_ensures();
    assert forall|j: int| 0 <= j < b.len() implies a.contains(#[trigger] b[j]) by {
        assert(b.contains(b[j]));
        assert(a.to_multiset().count(b[j]) > 0);
    }
    assert forall|i: int| 0 <= i < a.len() implies b.contains(#[trigger] a[i]) by {
        assert(a.contains(a[i]));
        assert(b.to_multiset().count(a[i]) > 0);
    }
    assert forall|i: int, j: int| is_nearest(a, i) && is_nearest(b, j) implies a[i] == b[j] by {
        assert(b.contains(a[i]));
        assert(a.contains(b[j]));
        let p = choose|p: int| 0 <= p < b.len() && b[p] == a[i];
        let q = choose|q: int| 0 <= q < a.len() && a[q] == b[j];
        assert(b[j]->0 <= b[p]->0);
        assert(a[i]->0 <= a[q]->0);
    }
    if !no_hit(a) {
        let i = choose|i: int| 0 <= i < a.len() && !((#[trigger] a[i]) is None);
        assert(b.contains(a[i]));
    }
    if !no_hit(b) {
        let j = choose|j: int| 0 <= j < b.len() && !((#[trigger] b[j]) is None);
        assert(a.contains(b[j]));
    }
}

} // verus!
