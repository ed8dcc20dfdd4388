//! The stream of asset names: the names as UTF-8, with one zero byte between
//! neighbours and none at either end.

use vstd::prelude::*;
use vstd::utf8::{decode_utf8, encode_utf8, valid_utf8};

verus! {

/// No byte of `bytes` is zero.
pub open spec fn zero_free(bytes: Seq<u8>) -> bool {
    forall|i: int| 0 <= i < bytes.len() ==> bytes[i] != 0
}

/// The pieces, with one zero byte between neighbours.
pub open spec fn join(pieces: Seq<Seq<u8>>) -> Seq<u8>
    decreases pieces.len(),
{
    if pieces.len() == 0 {
        Seq::empty()
    } else if pieces.len() == 1 {
        pieces[0]
    } else {
        join(pieces.drop_last()) + seq![0u8] + pieces.last()
    }
}

/// The pieces that the zero bytes of `stream` part. A stream with `n` zero bytes
/// has `n + 1` pieces, so the empty stream has one piece, which is empty.
pub open spec fn split(stream: Seq<u8>) -> Seq<Seq<u8>>
    decreases stream.len(),
{
    if stream.len() == 0 {
        seq![Seq::empty()]
    } else {
        let before = split(stream.drop_last());
        if stream.last() == 0 {
            before.push(Seq::empty())
        } else {
            before.update(before.len() - 1, before.last().push(stream.last()))
        }
    }
}

/// A name can stand in a names stream: its UTF-8 form holds no zero byte.
pub open spec fn nul_free(name: Seq<char>) -> bool {
    zero_free(encode_utf8(name))
}

/// The UTF-8 form of each name.
pub open spec fn encoded(names: Seq<Seq<char>>) -> Seq<Seq<u8>> {
    Seq::new(names.len(), |i: int| encode_utf8(names[i]))
}

/// The names stream of a package.
pub open spec fn names_stream(names: Seq<Seq<char>>) -> Seq<u8> {
    join(encoded(names))
}

/// Every piece is well-formed UTF-8.
pub open spec fn all_utf8(pieces: Seq<Seq<u8>>) -> bool {
    forall|i: int| 0 <= i < pieces.len() ==> valid_utf8(#[trigger] pieces[i])
}

/// The text of each piece.
pub open spec fn decoded(pieces: Seq<Seq<u8>>) -> Seq<Seq<char>> {
    Seq::new(pieces.len(), |i: int| decode_utf8(pieces[i]))
}

/// The names that a stream holds, where every piece of it is well-formed UTF-8.
pub open spec fn stream_names(stream: Seq<u8>) -> Option<Seq<Seq<char>>> {
    if all_utf8(split(stream)) {
        Some(decoded(split(stream)))
    } else {
        None
    }
}

/// A stream always has a piece.
pub proof fn lemma_split_nonempty(stream: Seq<u8>)
    ensures
        split(stream).len() >= 1,
    decreases stream.len(),
{
    if stream.len() > 0 {
        lemma_split_nonempty(stream.drop_last());
    }
}

/// Bytes without a zero lengthen the last piece.
pub proof fn lemma_split_extend(stream: Seq<u8>, tail: Seq<u8>)
    requires
        zero_free(tail),
    ensures
        split(stream + tail) == split(stream).update(
            split(stream).len() - 1,
            split(stream).last() + tail,
        ),
    decreases tail.len(),
{
    lemma_split_nonempty(stream);
    let pieces = split(stream);
    if tail.len() == 0 {
        assert(stream + tail =~= stream);
        assert(pieces.last() + tail =~= pieces.last());
        assert(pieces.update(pieces.len() - 1, pieces.last()) =~= pieces);
    } else {
        let shorter = tail.drop_last();
        lemma_split_extend(stream, shorter);
        assert((stream + tail).drop_last() =~= stream + shorter);
        assert((stream + tail).last() == tail.last());
        assert((pieces.last() + shorter).push(tail.last()) =~= pieces.last() + tail);
        assert(split(stream + tail) =~= pieces.update(pieces.len() - 1, pieces.last() + tail));
    }
}

/// A zero byte opens a new, empty piece.
pub proof fn lemma_split_zero(stream: Seq<u8>)
    ensures
        split(stream.push(0u8)) == split(stream).push(Seq::empty()),
{
    assert(stream.push(0u8).drop_last() =~= stream);
}

/// Parting a joined stream gives the pieces back, if there is a piece at all and
/// none holds a zero byte.
pub proof fn lemma_split_join(pieces: Seq<Seq<u8>>)
    requires
        pieces.len() >= 1,
        forall|i: int| 0 <= i < pieces.len() ==> zero_free(#[trigger] pieces[i]),
    ensures
        split(join(pieces)) == pieces,
    decreases pieces.len(),
{
    let last = pieces.last();
    if pieces.len() == 1 {
        lemma_split_extend(Seq::empty(), last);
        assert(Seq::<u8>::empty() + last =~= last);
        assert(split(join(pieces)) =~= pieces);
    } else {
        let front = pieces.drop_last();
        lemma_split_join(front);
        lemma_split_zero(join(front));
        assert(join(front) + seq![0u8] =~= join(front).push(0u8));
        lemma_split_extend(join(front).push(0u8), last);
        assert(Seq::<u8>::empty() + last =~= last);
        assert(split(join(pieces)) =~= pieces);
    }
}

/// Reading the names stream of `names` gives `names` back, if there is a name at
/// all and none holds a zero byte.
pub proof fn lemma_names_stream_read_back(names: Seq<Seq<char>>)
    requires
        names.len() >= 1,
        forall|i: int| 0 <= i < names.len() ==> nul_free(#[trigger] names[i]),
    ensures
        stream_names(names_stream(names)) == Some(names),
{
    broadcast use vstd::utf8::encode_utf8_valid_utf8, vstd::utf8::encode_utf8_decode_utf8;

    let pieces = encoded(names);
    assert forall|i: int| 0 <= i < pieces.len() implies zero_free(#[trigger] pieces[i]) by {
        assert(nul_free(names[i]));
    }
    lemma_split_join(pieces);
    assert(all_utf8(pieces));
    assert(decoded(pieces) =~= names);
}

} // verus!
