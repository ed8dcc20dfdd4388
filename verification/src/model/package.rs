//! What a package holds and what an archive hands out.

use vstd::prelude::*;

verus! {

/// A package as the model sees it: three compressed streams, the sizes that two
/// of them decompress to, and one digest per asset.
pub struct PackageView {
    /// The concatenated asset bytes, compressed.
    pub data: Seq<u8>,
    /// How many bytes `data` decompresses to.
    pub uncompressed_data_size: nat,
    /// The names stream, compressed.
    pub names: Seq<u8>,
    /// How many bytes `names` decompresses to.
    pub uncompressed_names_size: nat,
    /// The sizes stream, compressed.
    pub sizes: Seq<u8>,
    /// The digest of each asset's bytes.
    pub checksums: Seq<Seq<u8>>,
}

/// A loaded archive as the model sees it: the bytes of each asset, by name.
pub type ArchiveView = Map<Seq<char>, Seq<u8>>;

/// The archive that gives the `i`-th name the `i`-th span of `data`. Where a
/// name occurs more than once, its last span counts.
pub open spec fn table(names: Seq<Seq<char>>, spans: Seq<(nat, nat)>, data: Seq<u8>) -> ArchiveView
    decreases names.len(),
{
    if names.len() == 0 {
        Map::empty()
    } else {
        table(names.drop_last(), spans.drop_last(), data).insert(
            names.last(),
            data.subrange(spans.last().0 as int, spans.last().1 as int),
        )
    }
}

/// The table holds exactly the names it was made of.
pub proof fn lemma_table_names(names: Seq<Seq<char>>, spans: Seq<(nat, nat)>, data: Seq<u8>)
    ensures
        table(names, spans, data).dom().finite(),
        forall|name: Seq<char>|
            table(names, spans, data).contains_key(name) <==> names.contains(name),
    decreases names.len(),
{
    if names.len() > 0 {
        let front = names.drop_last();
        lemma_table_names(front, spans.drop_last(), data);
        assert forall|name: Seq<char>| table(names, spans, data).contains_key(name)
            <==> names.contains(name) by {
            if names.contains(name) {
                let i = choose|i: int| 0 <= i < names.len() && names[i] == name;
                if i < front.len() {
                    assert(front[i] == name);
                }
            }
            if front.contains(name) {
                let i = choose|i: int| 0 <= i < front.len() && front[i] == name;
                assert(names[i] == name);
            }
            if name == names.last() {
                assert(names[names.len() - 1] == name);
            }
        }
    }
}

/// Where no name occurs twice, the table gives each name its own span.
pub proof fn lemma_table_entry(
    names: Seq<Seq<char>>,
    spans: Seq<(nat, nat)>,
    data: Seq<u8>,
    i: int,
)
    requires
        names.len() == spans.len(),
        0 <= i < names.len(),
        forall|j: int, k: int| 0 <= j < k < names.len() ==> names[j] != names[k],
    ensures
        table(names, spans, data).contains_key(names[i]),
        table(names, spans, data)[names[i]] == data.subrange(spans[i].0 as int, spans[i].1 as int),
    decreases names.len(),
{
    if i < names.len() - 1 {
        lemma_table_entry(names.drop_last(), spans.drop_last(), data, i);
        assert(names[i] != names[names.len() - 1]);
    }
}

} // verus!
