//! Putting the assets of a manifest in the order of their names.

use crate::model::order::{
    lemma_name_lt_asymmetric, lemma_name_lt_irreflexive, lemma_name_lt_total,
    lemma_name_lt_transitive, name_lt, AssetView,
};
use crate::text::name_before;
use vstd::prelude::*;

verus! {

/// The manifest as the model sees it.
pub open spec fn manifest(assets: Seq<(String, Vec<u8>)>) -> Seq<AssetView> {
    Seq::new(assets.len(), |i: int| (assets[i].0@, assets[i].1@))
}

/// `order` names the place `i`.
pub open spec fn names_place(order: Seq<usize>, i: int) -> bool {
    exists|k: int| 0 <= k < order.len() && #[trigger] order[k] == i
}

/// `order` names each of the places `0 .. n` once.
pub open spec fn permutes(order: Seq<usize>, n: nat) -> bool {
    &&& order.len() == n
    &&& forall|k: int| 0 <= k < n ==> #[trigger] order[k] < n
    &&& forall|j: int, k: int| 0 <= j < k < n ==> order[j] != order[k]
    &&& forall|i: int| 0 <= i < n ==> #[trigger] names_place(order, i)
}

/// The assets in the order that `order` puts them in.
pub open spec fn reordered(assets: Seq<AssetView>, order: Seq<usize>) -> Seq<AssetView> {
    Seq::new(order.len(), |k: int| assets[order[k] as int])
}

/// No name comes before one that stands earlier.
pub open spec fn nondescending(assets: Seq<AssetView>) -> bool {
    forall|j: int, k: int| 0 <= j < k < assets.len() ==> !name_lt(assets[k].0, assets[j].0)
}

/// If `c` does not come before `b` and `b` not before `a`, then `c` does not
/// come before `a`.
pub proof fn lemma_not_before_transitive(a: Seq<char>, b: Seq<char>, c: Seq<char>)
    requires
        !name_lt(b, a),
        !name_lt(c, b),
    ensures
        !name_lt(c, a),
{
    lemma_name_lt_total(a, b);
    lemma_name_lt_total(b, c);
    if name_lt(c, a) {
        if a == b {
        } else if b == c {
        } else {
            lemma_name_lt_transitive(a, b, c);
            lemma_name_lt_asymmetric(a, c);
        }
    }
}

/// The places of the assets in the order of their names: no name comes before
/// one that stands earlier in that order.
pub fn sorted_order(assets: &Vec<(String, Vec<u8>)>) -> (order: Vec<usize>)
    ensures
        permutes(order@, assets@.len() as nat),
        nondescending(reordered(manifest(assets@), order@)),
{
    let n = assets.len();
    let ghost m = manifest(assets@);
    let mut order: Vec<usize> = Vec::with_capacity(n);
    let mut i: usize = 0;
    while i < n
        invariant
            i <= n,
            order@.len() == i,
            forall|k: int| 0 <= k < i ==> order@[k] == k,
        decreases n - i,
    {
        order.push(i);
        i += 1;
    }
    // `place[i]` is where `order` holds `i`.
    let ghost mut place: Seq<int> = Seq::new(n as nat, |i: int| i);
    let mut i: usize = 1;
    while i < n
        invariant
            1 <= i,
            n == assets@.len(),
            m == manifest(assets@),
            order@.len() == n,
            place.len() == n,
            forall|k: int| 0 <= k < n ==> #[trigger] order@[k] < n,
            forall|k: int| 0 <= k < n ==> place[#[trigger] order@[k] as int] == k,
            forall|p: int| 0 <= p < n ==> 0 <= #[trigger] place[p] < n && order@[place[p]] == p,
            n > 0 ==> i <= n,
            forall|j: int, k: int|
                0 <= j < k < i ==> !name_lt(
                    #[trigger] m[order@[k] as int].0,
                    #[trigger] m[order@[j] as int].0,
                ),
        decreases n - i,
    {
        let mut j: usize = i;
        while j > 0 && name_before(assets[order[j]].0.as_str(), assets[order[j - 1]].0.as_str())
            invariant
                j <= i < n,
                n == assets@.len(),
                m == manifest(assets@),
                order@.len() == n,
                place.len() == n,
                forall|k: int| 0 <= k < n ==> #[trigger] order@[k] < n,
                forall|k: int| 0 <= k < n ==> place[#[trigger] order@[k] as int] == k,
                forall|p: int|
                    0 <= p < n ==> 0 <= #[trigger] place[p] < n && order@[place[p]] == p,
                forall|a: int, b: int|
                    0 <= a < b <= i && a != j && b != j ==> !name_lt(
                        #[trigger] m[order@[b] as int].0,
                        #[trigger] m[order@[a] as int].0,
                    ),
                forall|b: int|
                    j < b <= i ==> name_lt(
                        m[order@[j as int] as int].0,
                        #[trigger] m[order@[b] as int].0,
                    ),
            decreases j,
        {
            let ghost before = order@;
            let moving = order[j];
            let passed = order[j - 1];
            order.set(j, passed);
            order.set(j - 1, moving);
            proof {
                assert(before[j as int] != before[j - 1]) by {
                    assert(place[before[j as int] as int] == j);
                    assert(place[before[j - 1] as int] == j - 1);
                }
                place = place.update(moving as int, j - 1).update(passed as int, j as int);
                assert forall|b: int| j - 1 < b <= i implies name_lt(
                    m[order@[j - 1] as int].0,
                    #[trigger] m[order@[b] as int].0,
                ) by {
                    if b > j {
                        assert(name_lt(m[before[j as int] as int].0, m[before[b] as int].0));
                    }
                }
                assert forall|a: int, b: int|
                    0 <= a < b <= i && a != j - 1 && b != j - 1 implies !name_lt(
                    #[trigger] m[order@[b] as int].0,
                    #[trigger] m[order@[a] as int].0,
                ) by {
                    let (x, y) = (if a == j {
                        j - 1
                    } else {
                        a
                    }, if b == j {
                        j - 1
                    } else {
                        b
                    });
                    assert(order@[a] == before[x] && order@[b] == before[y]);
                    if x < y {
                        assert(!name_lt(m[before[y] as int].0, m[before[x] as int].0));
                    }
                }
            }
            j -= 1;
        }
        proof {
            assert forall|a: int, b: int| 0 <= a < b < i + 1 implies !name_lt(
                #[trigger] m[order@[b] as int].0,
                #[trigger] m[order@[a] as int].0,
            ) by {
                if b == j {
                    // Everything before the place where the moving name came to rest
                    // stands no later than its left neighbour.
                    if a < j - 1 {
                        assert(!name_lt(m[order@[j - 1] as int].0, m[order@[a] as int].0));
                    } else {
                        lemma_name_lt_irreflexive(m[order@[a] as int].0);
                    }
                    lemma_not_before_transitive(
                        m[order@[a] as int].0,
                        m[order@[j - 1] as int].0,
                        m[order@[j as int] as int].0,
                    );
                } else if a == j {
                    assert(name_lt(m[order@[j as int] as int].0, m[order@[b] as int].0));
                    lemma_name_lt_asymmetric(m[order@[j as int] as int].0, m[order@[b] as int].0);
                }
            }
        }
        i += 1;
    }
    proof {
        assert forall|j: int, k: int| 0 <= j < k < n implies order@[j] != order@[k] by {
            assert(place[order@[j] as int] == j && place[order@[k] as int] == k);
        }
        assert forall|p: int| 0 <= p < n implies #[trigger] names_place(order@, p) by {
            assert(order@[place[p]] == p);
        }
        let sorted = reordered(m, order@);
        assert forall|j: int, k: int| 0 <= j < k < sorted.len() implies !name_lt(
            sorted[k].0,
            sorted[j].0,
        ) by {
            assert(!name_lt(m[order@[k] as int].0, m[order@[j] as int].0));
        }
    }
    order
}

} // verus!
