//! The order of asset names and the canonical order of a manifest.
//!
//! Names are ordered as their UTF-8 bytes are: byte by byte, a proper prefix
//! first. A manifest in which no name occurs twice has exactly one arrangement
//! with ascending names: its canonical order.

use vstd::prelude::*;
use vstd::utf8::encode_utf8;

verus! {

/// An asset as the model sees it: its name and its bytes.
pub type AssetView = (Seq<char>, Seq<u8>);

/// `a` comes before `b`: at the first place where they differ `a` has the smaller
/// byte, or `a` ends there and `b` goes on.
pub open spec fn bytes_lt(a: Seq<u8>, b: Seq<u8>) -> bool
    decreases a.len(),
{
    if b.len() == 0 {
        false
    } else if a.len() == 0 {
        true
    } else if a[0] != b[0] {
        a[0] < b[0]
    } else {
        bytes_lt(a.drop_first(), b.drop_first())
    }
}

/// The name `a` comes before the name `b`.
pub open spec fn name_lt(a: Seq<char>, b: Seq<char>) -> bool {
    bytes_lt(encode_utf8(a), encode_utf8(b))
}

/// Each name comes before all that follow it.
pub open spec fn ascending(names: Seq<Seq<char>>) -> bool {
    forall|i: int, j: int| 0 <= i < j < names.len() ==> name_lt(names[i], names[j])
}

/// The names of the assets, in their order.
pub open spec fn names_of(assets: Seq<AssetView>) -> Seq<Seq<char>> {
    Seq::new(assets.len(), |i: int| assets[i].0)
}

/// No name occurs twice.
pub open spec fn distinct_names(assets: Seq<AssetView>) -> bool {
    forall|i: int, j: int| 0 <= i < j < assets.len() ==> assets[i].0 != assets[j].0
}

/// `a` and `b` hold the same assets, in whatever order.
pub open spec fn same_assets(a: Seq<AssetView>, b: Seq<AssetView>) -> bool {
    forall|x: AssetView| a.contains(x) <==> b.contains(x)
}

/// `sorted` holds the assets of `assets` with ascending names.
pub open spec fn arranges(sorted: Seq<AssetView>, assets: Seq<AssetView>) -> bool {
    ascending(names_of(sorted)) && same_assets(sorted, assets)
}

/// The assets in canonical order. This is meaningful where `distinct_names` holds.
pub open spec fn canonical(assets: Seq<AssetView>) -> Seq<AssetView> {
    choose|sorted: Seq<AssetView>| arranges(sorted, assets)
}

/// Nothing comes before itself.
pub proof fn lemma_bytes_lt_irreflexive(a: Seq<u8>)
    ensures
        !bytes_lt(a, a),
    decreases a.len(),
{
    if a.len() > 0 {
        lemma_bytes_lt_irreflexive(a.drop_first());
    }
}

/// Of two byte strings at most one comes before the other.
pub proof fn lemma_bytes_lt_asymmetric(a: Seq<u8>, b: Seq<u8>)
    requires
        bytes_lt(a, b),
    ensures
        !bytes_lt(b, a),
    decreases a.len(),
{
    if a.len() > 0 && b.len() > 0 && a[0] == b[0] {
        lemma_bytes_lt_asymmetric(a.drop_first(), b.drop_first());
    }
}

/// What comes before something that comes before a third comes before the third.
pub proof fn lemma_bytes_lt_transitive(a: Seq<u8>, b: Seq<u8>, c: Seq<u8>)
    requires
        bytes_lt(a, b),
        bytes_lt(b, c),
    ensures
        bytes_lt(a, c),
    decreases a.len(),
{
    if a.len() > 0 && b.len() > 0 && c.len() > 0 && a[0] == b[0] && b[0] == c[0] {
        lemma_bytes_lt_transitive(a.drop_first(), b.drop_first(), c.drop_first());
    }
}

/// Of two different byte strings one comes before the other.
pub proof fn lemma_bytes_lt_total(a: Seq<u8>, b: Seq<u8>)
    ensures
        a == b || bytes_lt(a, b) || bytes_lt(b, a),
    decreases a.len(),
{
    if a.len() > 0 && b.len() > 0 && a[0] == b[0] {
        lemma_bytes_lt_total(a.drop_first(), b.drop_first());
        if a.drop_first() == b.drop_first() {
            assert(a =~= seq![a[0]] + a.drop_first());
            assert(b =~= seq![b[0]] + b.drop_first());
        }
    } else if a.len() == 0 && b.len() == 0 {
        assert(a =~= b);
    }
}

/// Names with the same UTF-8 bytes are the same name.
pub proof fn lemma_name_of_bytes(a: Seq<char>, b: Seq<char>)
    requires
        encode_utf8(a) == encode_utf8(b),
    ensures
        a == b,
{
    vstd::utf8::encode_utf8_decode_utf8(a);
    vstd::utf8::encode_utf8_decode_utf8(b);
}

/// No name comes before itself.
pub proof fn lemma_name_lt_irreflexive(a: Seq<char>)
    ensures
        !name_lt(a, a),
{
    lemma_bytes_lt_irreflexive(encode_utf8(a));
}

/// Of two names at most one comes before the other.
pub proof fn lemma_name_lt_asymmetric(a: Seq<char>, b: Seq<char>)
    requires
        name_lt(a, b),
    ensures
        !name_lt(b, a),
{
    lemma_bytes_lt_asymmetric(encode_utf8(a), encode_utf8(b));
}

/// A name that comes before one that comes before a third comes before the third.
pub proof fn lemma_name_lt_transitive(a: Seq<char>, b: Seq<char>, c: Seq<char>)
    requires
        name_lt(a, b),
        name_lt(b, c),
    ensures
        name_lt(a, c),
{
    lemma_bytes_lt_transitive(encode_utf8(a), encode_utf8(b), encode_utf8(c));
}

/// Of two different names one comes before the other.
pub proof fn lemma_name_lt_total(a: Seq<char>, b: Seq<char>)
    ensures
        a == b || name_lt(a, b) || name_lt(b, a),
{
    lemma_bytes_lt_total(encode_utf8(a), encode_utf8(b));
    if encode_utf8(a) == encode_utf8(b) {
        lemma_name_of_bytes(a, b);
    }
}

/// Ascending names are distinct.
pub proof fn lemma_ascending_distinct(assets: Seq<AssetView>)
    requires
        ascending(names_of(assets)),
    ensures
        distinct_names(assets),
{
    assert forall|i: int, j: int| 0 <= i < j < assets.len() implies assets[i].0 != assets[j].0 by {
        assert(name_lt(names_of(assets)[i], names_of(assets)[j]));
        lemma_name_lt_irreflexive(assets[i].0);
    }
}

/// A set of assets has at most one arrangement with ascending names.
pub proof fn lemma_arrangement_unique(a: Seq<AssetView>, b: Seq<AssetView>)
    requires
        ascending(names_of(a)),
        ascending(names_of(b)),
        same_assets(a, b),
    ensures
        a == b,
    decreases a.len(),
{
    if a.len() == 0 {
        if b.len() > 0 {
            assert(b.contains(b[0]));
            assert(a.contains(b[0]));
        }
        assert(a =~= b);
    } else {
        assert(a.contains(a.last()));
        assert(b.contains(a.last()));
        let j = choose|j: int| 0 <= j < b.len() && b[j] == a.last();
        assert(b.contains(b.last()));
        assert(a.contains(b.last()));
        let i = choose|i: int| 0 <= i < a.len() && a[i] == b.last();
        // The last of each comes no earlier than the last of the other.
        if j < b.len() - 1 {
            assert(name_lt(names_of(b)[j], names_of(b)[b.len() - 1]));
            if i < a.len() - 1 {
                assert(name_lt(names_of(a)[i], names_of(a)[a.len() - 1]));
                lemma_name_lt_asymmetric(a.last().0, b.last().0);
            } else {
                lemma_name_lt_irreflexive(a.last().0);
            }
            assert(false);
        }
        assert(a.last() == b.last());
        let (a0, b0) = (a.drop_last(), b.drop_last());
        assert(names_of(a0) =~= names_of(a).drop_last());
        assert(names_of(b0) =~= names_of(b).drop_last());
        assert forall|x: AssetView| a0.contains(x) <==> b0.contains(x) by {
            if a0.contains(x) {
                let k = choose|k: int| 0 <= k < a0.len() && a0[k] == x;
                assert(a[k] == x);
                assert(name_lt(names_of(a)[k], names_of(a)[a.len() - 1]));
                lemma_name_lt_irreflexive(x.0);
                assert(a.contains(x) && x != a.last());
                let m = choose|m: int| 0 <= m < b.len() && b[m] == x;
                assert(b0[m] == x);
            }
            if b0.contains(x) {
                let k = choose|k: int| 0 <= k < b0.len() && b0[k] == x;
                assert(b[k] == x);
                assert(name_lt(names_of(b)[k], names_of(b)[b.len() - 1]));
                lemma_name_lt_irreflexive(x.0);
                assert(b.contains(x) && x != b.last());
                let m = choose|m: int| 0 <= m < a.len() && a[m] == x;
                assert(a0[m] == x);
            }
        }
        lemma_arrangement_unique(a0, b0);
        assert(a =~= a0.push(a.last()));
        assert(b =~= b0.push(b.last()));
    }
}

/// An arrangement with ascending names is the canonical order.
pub proof fn lemma_canonical_is(sorted: Seq<AssetView>, assets: Seq<AssetView>)
    requires
        arranges(sorted, assets),
    ensures
        canonical(assets) == sorted,
{
    let chosen = canonical(assets);
    assert(arranges(chosen, assets));
    lemma_arrangement_unique(chosen, sorted);
}

/// `sorted` with `asset` put where its name belongs.
pub open spec fn with_asset(sorted: Seq<AssetView>, asset: AssetView) -> Seq<AssetView>
    decreases sorted.len(),
{
    if sorted.len() == 0 || name_lt(sorted.last().0, asset.0) {
        sorted.push(asset)
    } else {
        with_asset(sorted.drop_last(), asset).push(sorted.last())
    }
}

/// Putting in an asset with a new name keeps the names ascending and adds that
/// asset and no other.
pub proof fn lemma_with_asset(sorted: Seq<AssetView>, asset: AssetView)
    requires
        ascending(names_of(sorted)),
        forall|i: int| 0 <= i < sorted.len() ==> sorted[i].0 != asset.0,
    ensures
        ascending(names_of(with_asset(sorted, asset))),
        with_asset(sorted, asset).len() == sorted.len() + 1,
        forall|x: AssetView|
            #![trigger with_asset(sorted, asset).contains(x)]
            #![trigger sorted.contains(x)]
            with_asset(sorted, asset).contains(x) <==> (sorted.contains(x) || x == asset),
    decreases sorted.len(),
{
    let result = with_asset(sorted, asset);
    let names = names_of(result);
    if sorted.len() == 0 || name_lt(sorted.last().0, asset.0) {
        assert forall|i: int, j: int| 0 <= i < j < names.len() implies name_lt(
            names[i],
            names[j],
        ) by {
            if j < sorted.len() {
                assert(name_lt(names_of(sorted)[i], names_of(sorted)[j]));
            } else if i < sorted.len() - 1 {
                assert(name_lt(names_of(sorted)[i], names_of(sorted)[sorted.len() - 1]));
                lemma_name_lt_transitive(sorted[i].0, sorted.last().0, asset.0);
            }
        }
        assert forall|x: AssetView| result.contains(x) <==> (sorted.contains(x) || x
            == asset) by {
            if result.contains(x) {
                let k = choose|k: int| 0 <= k < result.len() && result[k] == x;
                if k < sorted.len() {
                    assert(sorted[k] == x);
                }
            }
            if sorted.contains(x) {
                let k = choose|k: int| 0 <= k < sorted.len() && sorted[k] == x;
                assert(result[k] == x);
            }
            if x == asset {
                assert(result[sorted.len() as int] == x);
            }
        }
    } else {
        let front = sorted.drop_last();
        let last = sorted.last();
        let inner = with_asset(front, asset);
        assert(names_of(front) =~= names_of(sorted).drop_last());
        lemma_with_asset(front, asset);
        lemma_name_lt_total(last.0, asset.0);
        assert(sorted[sorted.len() - 1].0 != asset.0);
        assert(name_lt(asset.0, last.0));
        assert forall|i: int, j: int| 0 <= i < j < names.len() implies name_lt(
            names[i],
            names[j],
        ) by {
            if j < inner.len() {
                assert(name_lt(names_of(inner)[i], names_of(inner)[j]));
            } else {
                assert(inner.contains(inner[i]));
                if inner[i] != asset {
                    assert(front.contains(inner[i]));
                    let k = choose|k: int| 0 <= k < front.len() && front[k] == inner[i];
                    assert(name_lt(names_of(sorted)[k], names_of(sorted)[sorted.len() - 1]));
                }
            }
        }
        assert forall|x: AssetView| result.contains(x) <==> (sorted.contains(x) || x
            == asset) by {
            if result.contains(x) {
                let k = choose|k: int| 0 <= k < result.len() && result[k] == x;
                if k < inner.len() {
                    assert(inner.contains(inner[k]));
                    if x != asset {
                        let m = choose|m: int| 0 <= m < front.len() && front[m] == x;
                        assert(sorted[m] == x);
                    }
                } else {
                    assert(sorted[sorted.len() - 1] == x);
                }
            }
            if sorted.contains(x) {
                let k = choose|k: int| 0 <= k < sorted.len() && sorted[k] == x;
                if k < front.len() {
                    assert(front[k] == x);
                    assert(inner.contains(x));
                    let m = choose|m: int| 0 <= m < inner.len() && inner[m] == x;
                    assert(result[m] == x);
                } else {
                    assert(result[inner.len() as int] == x);
                }
            }
            if x == asset {
                assert(inner.contains(x));
                let m = choose|m: int| 0 <= m < inner.len() && inner[m] == x;
                assert(result[m] == x);
            }
        }
    }
}

/// The assets one by one put where their names belong.
pub open spec fn arranged(assets: Seq<AssetView>) -> Seq<AssetView>
    decreases assets.len(),
{
    if assets.len() == 0 {
        Seq::empty()
    } else {
        with_asset(arranged(assets.drop_last()), assets.last())
    }
}

/// A manifest in which no name occurs twice has a canonical order: it holds the
/// same assets, as many, with ascending names.
pub proof fn lemma_canonical_arranges(assets: Seq<AssetView>)
    requires
        distinct_names(assets),
    ensures
        arranges(canonical(assets), assets),
        canonical(assets) == arranged(assets),
        canonical(assets).len() == assets.len(),
    decreases assets.len(),
{
    let result = arranged(assets);
    if assets.len() == 0 {
        assert(same_assets(result, assets));
    } else {
        let front = assets.drop_last();
        let last = assets.last();
        lemma_canonical_arranges(front);
        let inner = arranged(front);
        assert forall|i: int| 0 <= i < inner.len() implies inner[i].0 != last.0 by {
            assert(inner.contains(inner[i]));
            let k = choose|k: int| 0 <= k < front.len() && front[k] == inner[i];
            assert(assets[k].0 != assets[assets.len() - 1].0);
        }
        lemma_with_asset(inner, last);
        assert forall|x: AssetView| result.contains(x) <==> assets.contains(x) by {
            if assets.contains(x) {
                let k = choose|k: int| 0 <= k < assets.len() && assets[k] == x;
                if k < front.len() {
                    assert(front[k] == x);
                }
            }
            if front.contains(x) {
                let k = choose|k: int| 0 <= k < front.len() && front[k] == x;
                assert(assets[k] == x);
            }
            if x == last {
                assert(assets[assets.len() - 1] == x);
            }
        }
    }
    lemma_canonical_is(result, assets);
}

/// The same assets have the same canonical order, however they are presented.
pub proof fn lemma_canonical_of_same_assets(a: Seq<AssetView>, b: Seq<AssetView>)
    requires
        distinct_names(a),
        same_assets(a, b),
    ensures
        canonical(a) == canonical(b),
{
    lemma_canonical_arranges(a);
    lemma_canonical_is(canonical(a), b);
}

} // verus!
