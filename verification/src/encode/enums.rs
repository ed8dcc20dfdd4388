//! Packing a fixed set of assets, each known by its ordinal.

use crate::decode::checksum::{compute_checksum, Checksum};
use crate::decode::codec::Codec;
use crate::decode::enums::unpacked_by_ordinal;
use crate::decode::named::digests;
use crate::encode::common::{append_bytes, BuildError, Stream};
use crate::encode::named::digests_of;
use crate::encode::parse::{
    copy_lit, first_out_of_order, in_order, kv_args_to_hashmap, lemma_out_of_order, options_of,
    KVIdentLit, Lit, OptionError,
};
use crate::laws::{lemma_round_trip_by_ordinal, recorded_ends};
use crate::model::data::{concat, lemma_concat_len, lengths};
use crate::model::sizes::{lemma_total_monotone, lemma_total_prefix, total, LIMIT};
use crate::text::str_eq;
use vstd::hash_map::StringHashMap;
use vstd::prelude::*;

verus! {

/// The data of an enum, as they come out of packing.
#[derive(Debug)]
pub struct EnumArchive {
    /// The bytes of all assets, one after another in the order of their ordinals, compressed.
    pub compressed_data: Vec<u8>,
    /// Where each asset ends within the uncompressed data.
    pub data_end_offsets: Vec<u32>,
}

/// The blobs as the model sees them.
pub open spec fn blobs_of(data: Seq<Vec<u8>>) -> Seq<Seq<u8>> {
    Seq::new(data.len(), |i: int| data[i]@)
}

/// Packs the assets of an enum: puts their bytes one after another in the
/// given order, notes where each asset ends, and compresses the whole.
pub fn prepare_asset_archive<C: Codec>(codec: &C, data: Vec<Vec<u8>>) -> (r: Result<
    EnumArchive,
    BuildError<C::CompressionError>,
>)
    ensures
        concat(blobs_of(data@)).len() <= LIMIT && codec.always_compresses() ==> r is Ok,
        match r {
            Ok(archive) => {
                &&& concat(blobs_of(data@)).len() <= LIMIT
                &&& archive.compressed_data@ == codec.compressed(concat(blobs_of(data@)))
                &&& archive.data_end_offsets@ == recorded_ends(blobs_of(data@))
                &&& unpacked_by_ordinal(
                    codec,
                    archive.compressed_data@,
                    archive.data_end_offsets@,
                    digests_of(blobs_of(data@)),
                ) == Some(blobs_of(data@))
            },
            Err(BuildError::TooMuchData(bytes)) => {
                &&& concat(blobs_of(data@)).len() > LIMIT
                &&& exists|i: int|
                    {
                        &&& 0 <= i < data@.len()
                        &&& total(lengths(blobs_of(data@)), i) <= LIMIT
                        &&& bytes == #[trigger] total(lengths(blobs_of(data@)), i + 1)
                        &&& bytes > LIMIT
                    }
            },
            Err(BuildError::Compression { stream, .. }) => {
                &&& stream is Data
                &&& concat(blobs_of(data@)).len() <= LIMIT
                &&& !codec.always_compresses()
            },
            Err(_) => false,
        },
{
    let ghost blobs = blobs_of(data@);
    let ghost sizes = lengths(blobs);
    let mut uncompressed_data: Vec<u8> = Vec::new();
    let mut data_end_offsets: Vec<u32> = Vec::with_capacity(data.len());
    let mut i: usize = 0;
    assert(blobs.take(0) =~= Seq::<Seq<u8>>::empty());
    while i < data.len()
        invariant
            i <= data@.len(),
            blobs == blobs_of(data@),
            sizes == lengths(blobs),
            uncompressed_data@ == concat(blobs.take(i as int)),
            uncompressed_data@.len() == total(sizes, i as int),
            uncompressed_data@.len() <= LIMIT,
            data_end_offsets@.len() == i,
            forall|k: int| 0 <= k < i ==> #[trigger] data_end_offsets@[k] == total(sizes, k + 1),
        decreases data@.len() - i,
    {
        append_bytes(&mut uncompressed_data, data[i].as_slice());
        proof {
            assert(blobs.take(i + 1).drop_last() =~= blobs.take(i as int));
            assert(blobs.take(i + 1).last() == data@[i as int]@);
            lemma_concat_len(blobs.take(i + 1));
            assert(lengths(blobs.take(i + 1)) =~= sizes.take(i + 1));
            lemma_total_prefix(sizes, i + 1, i + 1);
        }
        if uncompressed_data.len() > 0xffff_ffff {
            proof {
                lemma_concat_len(blobs);
                lemma_total_monotone(sizes, i + 1, blobs.len() as int);
            }
            return Err(BuildError::TooMuchData(uncompressed_data.len()));
        }
        data_end_offsets.push(uncompressed_data.len() as u32);
        i += 1;
    }
    assert(blobs.take(i as int) =~= blobs);
    assert(data_end_offsets@ =~= recorded_ends(blobs));
    let compressed_data = match codec.compress(uncompressed_data.as_slice()) {
        Ok(compressed) => compressed,
        Err(error) => {
            return Err(BuildError::Compression { stream: Stream::Data, error });
        },
    };
    proof {
        lemma_round_trip_by_ordinal(codec, blobs);
    }
    Ok(EnumArchive { compressed_data, data_end_offsets })
}

/// The digest of each asset, in order.
pub fn checksums_of(data: &Vec<Vec<u8>>) -> (checksums: Vec<Checksum>)
    ensures
        digests(checksums@) == digests_of(blobs_of(data@)),
{
    let mut checksums: Vec<Checksum> = Vec::with_capacity(data.len());
    let mut i: usize = 0;
    while i < data.len()
        invariant
            i <= data@.len(),
            checksums@.len() == i,
            forall|k: int|
                0 <= k < i ==> (#[trigger] checksums@[k])@ == crate::decode::checksum::blake2b512(
                    data@[k]@,
                ),
        decreases data@.len() - i,
    {
        checksums.push(compute_checksum(data[i].as_slice()));
        i += 1;
    }
    assert(digests(checksums@) =~= digests_of(blobs_of(data@)));
    checksums
}

/// The three shapes that an attribute can have.
#[derive(Debug, Clone, Copy)]
pub enum MetaShape {
    /// A path alone, as in `#[asset]`.
    Path,
    /// A path with arguments in brackets, as in `#[asset(path = "a.txt")]`.
    List,
    /// A path with a value, as in `#[asset = "a.txt"]`.
    NameValue,
}

/// An attribute, as far as the options of an enum care what it is.
#[derive(Debug, Clone)]
pub struct Attribute {
    /// The identifier that the path of the attribute consists of, if it is a single one.
    pub ident: Option<String>,
    /// The shape of the attribute.
    pub shape: MetaShape,
    /// The arguments of a list, if they are `ident = literal` assignments.
    pub args: Option<Vec<KVIdentLit>>,
}

/// A variant of an enum, as far as the options of the enum care what it is.
#[derive(Debug, Clone)]
pub struct Variant {
    pub name: String,
    /// Whether the variant has no fields.
    pub unit: bool,
    /// Whether the variant has an explicit discriminant.
    pub discriminant: bool,
    pub attrs: Vec<Attribute>,
}

/// An enum whose variants stand for assets.
#[derive(Debug, Clone)]
pub struct ItemEnum {
    pub ident: String,
    pub attrs: Vec<Attribute>,
    pub variants: Vec<Variant>,
}

/// What the attributes of an enum say of its assets.
#[derive(Debug)]
pub struct AssetEnumOptions {
    pub enum_name: String,
    pub base_path: String,
    pub compression_lit: Option<Lit>,
    pub level_lit: Option<Lit>,
    pub variant_paths: Vec<String>,
}

/// What is wrong with the attributes of an enum.
#[derive(Debug)]
pub enum EnumError {
    /// The enum has `#[archive]` or `#[asset]` without arguments.
    PathStyle,
    /// The enum has an attribute `asset`, which is for variants.
    AssetOnEnum,
    /// The enum has `#[archive = ..]` or `#[asset = ..]`, with this name.
    NameValueStyle(String),
    /// The arguments of an attribute are no `ident = literal` assignments.
    Arguments,
    /// The options of an attribute are out of order.
    Options(OptionError),
    /// No attribute gives the option `base_path`.
    MissingBasePath,
    /// The option `base_path` is no string.
    InvalidBasePath,
    /// This variant has fields.
    NotUnit(String),
    /// This variant has an explicit discriminant.
    Discriminant(String),
    /// This variant has no attribute.
    MissingAttribute(String),
    /// The attribute of this variant has no arguments in brackets, or its option
    /// `path` is no string.
    InvalidAttribute(String),
    /// The attribute of this variant is not `asset`.
    NotAsset(String),
    /// The attribute of this variant does not give the option `path`.
    MissingPath(String),
    /// This variant has more than one attribute.
    TooManyAttributes(String),
}

/// The attribute is named `name`.
pub open spec fn is_named(attr: Attribute, name: Seq<char>) -> bool {
    attr.ident matches Some(ident) && ident@ == name
}

/// What is wrong with the arguments of an attribute, if anything: they are no
/// assignments, an identifier is not among `allowed`, or one occurs twice.
pub open spec fn arguments_in_order(attr: Attribute, allowed: Seq<&str>) -> bool {
    attr.args matches Some(kvs) && in_order(kvs@, allowed, kvs@.len() as int)
}

/// The enum can carry this attribute: it is neither `archive` nor `asset`, or it
/// is `archive` with arguments in brackets that are options of an archive, each
/// given once.
pub open spec fn outer_in_order(attr: Attribute) -> bool {
    match attr.shape {
        MetaShape::Path => !is_named(attr, "archive"@) && !is_named(attr, "asset"@),
        MetaShape::NameValue => !is_named(attr, "archive"@) && !is_named(attr, "asset"@),
        MetaShape::List => if is_named(attr, "archive"@) {
            arguments_in_order(attr, seq!["base_path", "compression", "level"])
        } else {
            !is_named(attr, "asset"@)
        },
    }
}

/// The options that the first `n` attributes of an enum give: those of its
/// `archive` attributes, a later one replacing an earlier one of the same name.
pub open spec fn outer_options(attrs: Seq<Attribute>, n: int) -> Map<Seq<char>, Lit>
    decreases n,
{
    if n <= 0 || n > attrs.len() {
        Map::empty()
    } else {
        let before = outer_options(attrs, n - 1);
        let attr = attrs[n - 1];
        if attr.shape is List && is_named(attr, "archive"@) && attr.args is Some {
            before.union_prefer_right(options_of(attr.args->0@))
        } else {
            before
        }
    }
}

/// What the attribute of a variant says of its asset: the options it gives.
pub open spec fn variant_options(variant: Variant) -> Map<Seq<char>, Lit> {
    options_of(variant.attrs@[0].args->0@)
}

/// The variant stands for an asset: it has no fields and no discriminant, and
/// its one attribute is `asset` with the one option `path`, a string.
pub open spec fn variant_in_order(variant: Variant) -> bool {
    &&& variant.unit
    &&& !variant.discriminant
    &&& variant.attrs@.len() == 1
    &&& variant.attrs@[0].shape is List
    &&& is_named(variant.attrs@[0], "asset"@)
    &&& arguments_in_order(variant.attrs@[0], seq!["path"])
    &&& variant_options(variant).contains_key("path"@)
    &&& variant_options(variant)["path"@] is Str
}

/// The path that a variant gives for its asset.
pub open spec fn variant_path(variant: Variant) -> Seq<char> {
    variant_options(variant)["path"@]->Str_0@
}

/// The paths that the variants give, in their order.
pub open spec fn paths_of(variants: Seq<Variant>) -> Seq<Seq<char>> {
    Seq::new(variants.len(), |i: int| variant_path(variants[i]))
}

/// `error` says what is wrong with this attribute of an enum.
pub open spec fn outer_fault(attr: Attribute, error: EnumError) -> bool {
    let archive = is_named(attr, "archive"@);
    let asset = is_named(attr, "asset"@);
    match error {
        EnumError::PathStyle => attr.shape is Path && (archive || asset),
        EnumError::AssetOnEnum => attr.shape is List && !archive && asset,
        EnumError::NameValueStyle(name) => attr.shape is NameValue && (archive || asset)
            && attr.ident is Some && attr.ident->0@ == name@,
        EnumError::Arguments => attr.shape is List && archive && attr.args is None,
        EnumError::Options(error) => attr.shape is List && archive && attr.args is Some
            && first_out_of_order(attr.args->0@, seq!["base_path", "compression", "level"], error),
        _ => false,
    }
}

/// `error` says what is wrong with this variant.
pub open spec fn variant_fault(variant: Variant, error: EnumError) -> bool {
    let attr = variant.attrs@[0];
    match error {
        EnumError::NotUnit(name) => name@ == variant.name@ && !variant.unit,
        EnumError::Discriminant(name) => name@ == variant.name@ && variant.unit
            && variant.discriminant,
        EnumError::MissingAttribute(name) => name@ == variant.name@ && variant.unit
            && !variant.discriminant && variant.attrs@.len() == 0,
        EnumError::TooManyAttributes(name) => name@ == variant.name@ && variant.unit
            && !variant.discriminant && variant.attrs@.len() > 1,
        _ => {
            &&& variant.unit && !variant.discriminant && variant.attrs@.len() == 1
            &&& match error {
                EnumError::InvalidAttribute(name) => {
                    &&& name@ == variant.name@
                    &&& !(attr.shape is List) || {
                        &&& is_named(attr, "asset"@)
                        &&& arguments_in_order(attr, seq!["path"])
                        &&& variant_options(variant).contains_key("path"@)
                        &&& !(variant_options(variant)["path"@] is Str)
                    }
                },
                EnumError::NotAsset(name) => name@ == variant.name@ && attr.shape is List
                    && !is_named(attr, "asset"@),
                EnumError::Arguments => attr.shape is List && is_named(attr, "asset"@)
                    && attr.args is None,
                EnumError::Options(error) => attr.shape is List && is_named(attr, "asset"@)
                    && attr.args is Some && first_out_of_order(attr.args->0@, seq!["path"], error),
                EnumError::MissingPath(name) => {
                    &&& name@ == variant.name@
                    &&& attr.shape is List && is_named(attr, "asset"@)
                    &&& arguments_in_order(attr, seq!["path"])
                    &&& !variant_options(variant).contains_key("path"@)
                },
                _ => false,
            }
        },
    }
}

/// The texts of the paths.
pub open spec fn path_texts(paths: Seq<String>) -> Seq<Seq<char>> {
    Seq::new(paths.len(), |i: int| paths[i]@)
}

/// Whether the attribute is named `name`.
fn attr_is(attr: &Attribute, name: &str) -> (named: bool)
    ensures
        named == is_named(*attr, name@),
{
    match &attr.ident {
        Some(ident) => str_eq(ident.as_str(), name),
        None => false,
    }
}

/// The arguments of an attribute: the options that they give, if they are in order.
fn take_arguments(attr: Attribute, allowed: &[&str]) -> (r: Result<StringHashMap<Lit>, EnumError>)
    ensures
        match r {
            Ok(options) => arguments_in_order(attr, allowed@) && options@ == options_of(
                attr.args->0@,
            ),
            Err(EnumError::Arguments) => attr.args is None,
            Err(EnumError::Options(error)) => attr.args is Some && !arguments_in_order(
                attr,
                allowed@,
            ) && first_out_of_order(attr.args->0@, allowed@, error),
            Err(_) => false,
        },
{
    let kvs = match attr.args {
        Some(kvs) => kvs,
        None => {
            return Err(EnumError::Arguments);
        },
    };
    match kv_args_to_hashmap(kvs, allowed) {
        Ok(given) => Ok(given),
        Err(error) => {
            proof {
                lemma_out_of_order(kvs@, allowed@, error);
            }
            Err(EnumError::Options(error))
        },
    }
}

/// Reads what the attributes of an enum say of its assets: where they lie, how
/// they are to be compressed, and which file each variant stands for.
///
/// The enum gives its options in attributes `archive`; each variant gives its
/// path in one attribute `asset`. The first thing that is out of order is
/// reported.
pub fn check_enum_and_return_options(e: ItemEnum) -> (r: Result<AssetEnumOptions, EnumError>)
    ensures
        match r {
            Ok(options) => {
                let given = outer_options(e.attrs@, e.attrs@.len() as int);
                &&& forall|i: int|
                    0 <= i < e.attrs@.len() ==> outer_in_order(#[trigger] e.attrs@[i])
                &&& options.enum_name == e.ident
                &&& given.contains_key("base_path"@)
                &&& given["base_path"@] matches Lit::Str(path) && options.base_path@ == path@
                &&& options.compression_lit == (if given.contains_key("compression"@) {
                    Some(given["compression"@])
                } else {
                    None
                })
                &&& options.level_lit == (if given.contains_key("level"@) {
                    Some(given["level"@])
                } else {
                    None
                })
                &&& forall|i: int|
                    0 <= i < e.variants@.len() ==> variant_in_order(#[trigger] e.variants@[i])
                &&& path_texts(options.variant_paths@) == paths_of(e.variants@)
            },
            Err(error) => {
                let given = outer_options(e.attrs@, e.attrs@.len() as int);
                ||| exists|i: int|
                    {
                        &&& 0 <= i < e.attrs@.len()
                        &&& forall|k: int| 0 <= k < i ==> outer_in_order(#[trigger] e.attrs@[k])
                        &&& !outer_in_order(e.attrs@[i])
                        &&& outer_fault(#[trigger] e.attrs@[i], error)
                    }
                ||| {
                    &&& forall|i: int|
                        0 <= i < e.attrs@.len() ==> outer_in_order(#[trigger] e.attrs@[i])
                    &&& if !given.contains_key("base_path"@) {
                        error is MissingBasePath
                    } else if !(given["base_path"@] is Str) {
                        error is InvalidBasePath
                    } else {
                        exists|i: int|
                            {
                                &&& 0 <= i < e.variants@.len()
                                &&& forall|k: int|
                                    0 <= k < i ==> variant_in_order(#[trigger] e.variants@[k])
                                &&& !variant_in_order(e.variants@[i])
                                &&& variant_fault(#[trigger] e.variants@[i], error)
                            }
                    }
                }
            },
        },
{
    let ItemEnum { ident, attrs, variants } = e;
    let ghost all_attrs = attrs@;
    let ghost all_variants = variants@;

    // check outer attributes of the enum
    let mut opts: StringHashMap<Lit> = StringHashMap::new();
    let count = attrs.len();
    let mut rest = attrs;
    let mut i: usize = 0;
    while i < count
        invariant
            i <= count,
            all_attrs == e.attrs@,
            count == all_attrs.len(),
            rest@.len() == count - i,
            forall|k: int| 0 <= k < rest@.len() ==> rest@[k] == all_attrs[i + k],
            forall|k: int| 0 <= k < i ==> outer_in_order(#[trigger] all_attrs[k]),
            opts@ == outer_options(all_attrs, i as int),
        decreases count - i,
    {
        let attr = rest.remove(0);
        assert(attr == all_attrs[i as int]);
        let is_archive = attr_is(&attr, "archive");
        let is_asset = attr_is(&attr, "asset");
        match attr.shape {
            MetaShape::Path => {
                if is_archive || is_asset {
                    assert(outer_fault(all_attrs[i as int], EnumError::PathStyle));
                    return Err(EnumError::PathStyle);
                }
            },
            MetaShape::List => {
                if is_archive {
                    let allowed = ["base_path", "compression", "level"];
                    assert(allowed@ =~= seq!["base_path", "compression", "level"]);
                    match take_arguments(attr, allowed.as_slice()) {
                        Ok(given) => {
                            opts.union_prefer_right(given);
                        },
                        Err(error) => {
                            assert(outer_fault(all_attrs[i as int], error));
                            return Err(error);
                        },
                    }
                } else if is_asset {
                    assert(outer_fault(all_attrs[i as int], EnumError::AssetOnEnum));
                    return Err(EnumError::AssetOnEnum);
                }
            },
            MetaShape::NameValue => {
                if is_archive || is_asset {
                    let name = match attr.ident {
                        Some(name) => name,
                        None => String::new(),
                    };
                    assert(outer_fault(all_attrs[i as int], EnumError::NameValueStyle(name)));
                    return Err(EnumError::NameValueStyle(name));
                }
            },
        }
        i += 1;
    }
    let base_path = match opts.get("base_path") {
        None => {
            return Err(EnumError::MissingBasePath);
        },
        Some(Lit::Str(path)) => path.clone(),
        Some(_) => {
            return Err(EnumError::InvalidBasePath);
        },
    };

    // collect relative path of all variants.
    // while we're at it, ensure that all variants are unit and (most importantly) have no
    // explicit discriminator.
    let mut variant_paths: Vec<String> = Vec::new();
    let count = variants.len();
    let mut rest = variants;
    let mut i: usize = 0;
    while i < count
        invariant
            i <= count,
            all_variants == e.variants@,
            all_attrs == e.attrs@,
            count == all_variants.len(),
            rest@.len() == count - i,
            forall|k: int| 0 <= k < rest@.len() ==> rest@[k] == all_variants[i + k],
            forall|k: int| 0 <= k < all_attrs.len() ==> outer_in_order(#[trigger] all_attrs[k]),
            opts@ == outer_options(all_attrs, all_attrs.len() as int),
            opts@.contains_key("base_path"@) && opts@["base_path"@] is Str,
            variant_paths@.len() == i,
            forall|k: int| 0 <= k < i ==> variant_in_order(#[trigger] all_variants[k]),
            forall|k: int| 0 <= k < i ==> variant_paths@[k]@ == variant_path(all_variants[k]),
        decreases count - i,
    {
        let var = rest.remove(0);
        let ghost variant = all_variants[i as int];
        assert(var == variant);
        let Variant { name, unit, discriminant, attrs } = var;
        if !unit {
            assert(variant_fault(variant, EnumError::NotUnit(name)));
            return Err(EnumError::NotUnit(name));
        }
        if discriminant {
            assert(variant_fault(variant, EnumError::Discriminant(name)));
            return Err(EnumError::Discriminant(name));
        }
        let mut attrs = attrs;
        if attrs.len() == 0 {
            assert(variant_fault(variant, EnumError::MissingAttribute(name)));
            return Err(EnumError::MissingAttribute(name));
        }
        if attrs.len() > 1 {
            assert(variant_fault(variant, EnumError::TooManyAttributes(name)));
            return Err(EnumError::TooManyAttributes(name));
        }
        let attr = attrs.remove(0);
        assert(attr == variant.attrs@[0]);
        match attr.shape {
            MetaShape::List => {},
            _ => {
                assert(variant_fault(variant, EnumError::InvalidAttribute(name)));
                return Err(EnumError::InvalidAttribute(name));
            },
        }
        if !attr_is(&attr, "asset") {
            assert(variant_fault(variant, EnumError::NotAsset(name)));
            return Err(EnumError::NotAsset(name));
        }
        let allowed = ["path"];
        assert(allowed@ =~= seq!["path"]);
        let given = match take_arguments(attr, allowed.as_slice()) {
            Ok(given) => given,
            Err(error) => {
                assert(variant_fault(variant, error));
                return Err(error);
            },
        };
        match given.get("path") {
            None => {
                assert(variant_fault(variant, EnumError::MissingPath(name)));
                return Err(EnumError::MissingPath(name));
            },
            Some(Lit::Str(path)) => {
                variant_paths.push(path.clone());
            },
            Some(_) => {
                assert(variant_fault(variant, EnumError::InvalidAttribute(name)));
                return Err(EnumError::InvalidAttribute(name));
            },
        }
        i += 1;
    }
    let compression_lit = take_option(&opts, "compression");
    let level_lit = take_option(&opts, "level");
    assert(path_texts(variant_paths@) =~= paths_of(all_variants));
    Ok(AssetEnumOptions { enum_name: ident, base_path, compression_lit, level_lit, variant_paths })
}

/// The option of this name, if it is given.
fn take_option(options: &StringHashMap<Lit>, name: &str) -> (lit: Option<Lit>)
    ensures
        lit == (if options@.contains_key(name@) {
            Some(options@[name@])
        } else {
            None
        }),
{
    match options.get(name) {
        Some(lit) => Some(copy_lit(lit)),
        None => None,
    }
}

} // verus!
