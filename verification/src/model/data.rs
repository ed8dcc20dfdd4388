//! The data of a package: the bytes of all assets, one after another.

use crate::model::sizes::{lemma_total_monotone, total};
use vstd::prelude::*;

verus! {

/// The blobs one after another.
pub open spec fn concat(blobs: Seq<Seq<u8>>) -> Seq<u8>
    decreases blobs.len(),
{
    if blobs.len() == 0 {
        Seq::empty()
    } else {
        concat(blobs.drop_last()) + blobs.last()
    }
}

/// The length of each blob.
pub open spec fn lengths(blobs: Seq<Seq<u8>>) -> Seq<nat> {
    Seq::new(blobs.len(), |i: int| blobs[i].len())
}

/// Where each blob ends within the concatenation.
pub open spec fn end_offsets(blobs: Seq<Seq<u8>>) -> Seq<nat> {
    Seq::new(blobs.len(), |i: int| total(lengths(blobs), i + 1))
}

/// The concatenation is as long as the blobs together.
pub proof fn lemma_concat_len(blobs: Seq<Seq<u8>>)
    ensures
        concat(blobs).len() == total(lengths(blobs), blobs.len() as int),
    decreases blobs.len(),
{
    if blobs.len() > 0 {
        let front = blobs.drop_last();
        lemma_concat_len(front);
        assert(lengths(front) =~= lengths(blobs).take(front.len() as int));
        crate::model::sizes::lemma_total_prefix(
            lengths(blobs),
            front.len() as int,
            front.len() as int,
        );
    }
}

/// Each blob lies in the concatenation where the running total of the lengths
/// says: from the total before it to the total with it.
pub proof fn lemma_concat_slice(blobs: Seq<Seq<u8>>, i: int)
    requires
        0 <= i < blobs.len(),
    ensures
        total(lengths(blobs), i) <= total(lengths(blobs), i + 1) <= concat(blobs).len(),
        concat(blobs).subrange(total(lengths(blobs), i) as int, total(lengths(blobs), i + 1) as int)
            == blobs[i],
    decreases blobs.len(),
{
    let front = blobs.drop_last();
    let sizes = lengths(blobs);
    lemma_concat_len(blobs);
    lemma_concat_len(front);
    lemma_total_monotone(sizes, i, i + 1);
    lemma_total_monotone(sizes, i + 1, blobs.len() as int);
    assert(lengths(front) =~= sizes.take(front.len() as int));
    if i < blobs.len() - 1 {
        lemma_concat_slice(front, i);
        crate::model::sizes::lemma_total_prefix(sizes, front.len() as int, i);
        crate::model::sizes::lemma_total_prefix(sizes, front.len() as int, i + 1);
        assert(concat(blobs).subrange(total(sizes, i) as int, total(sizes, i + 1) as int)
            =~= concat(front).subrange(total(sizes, i) as int, total(sizes, i + 1) as int));
    } else {
        crate::model::sizes::lemma_total_prefix(sizes, front.len() as int, front.len() as int);
        assert(concat(blobs).subrange(total(sizes, i) as int, total(sizes, i + 1) as int)
            =~= blobs[i]);
    }
}

} // verus!
