use include_assets::encode::enums::{
    check_enum_and_return_options, AssetEnumOptions, Attribute, EnumError, ItemEnum, MetaShape,
    Variant,
};
use include_assets::encode::parse::{KVIdentLit, Lit, OptionError};

fn text(value: &str) -> Lit {
    Lit::Str(value.to_owned())
}

fn kv(ident: &str, lit: Lit) -> KVIdentLit {
    KVIdentLit { ident: ident.to_owned(), lit }
}

fn list(name: &str, args: Vec<KVIdentLit>) -> Attribute {
    Attribute { ident: Some(name.to_owned()), shape: MetaShape::List, args: Some(args) }
}

fn bare(name: &str, shape: MetaShape) -> Attribute {
    Attribute { ident: Some(name.to_owned()), shape, args: None }
}

fn variant(name: &str, path: &str) -> Variant {
    Variant {
        name: name.to_owned(),
        unit: true,
        discriminant: false,
        attrs: vec![list("asset", vec![kv("path", text(path))])],
    }
}

fn item(attrs: Vec<Attribute>, variants: Vec<Variant>) -> ItemEnum {
    ItemEnum { ident: "Asset".to_owned(), attrs, variants }
}

fn archive(args: Vec<KVIdentLit>) -> Attribute {
    list("archive", args)
}

fn options_of(e: ItemEnum) -> AssetEnumOptions {
    match check_enum_and_return_options(e) {
        Ok(options) => options,
        Err(_) => panic!("the enum is in order"),
    }
}

fn error_of(e: ItemEnum) -> EnumError {
    match check_enum_and_return_options(e) {
        Ok(_) => panic!("the enum is out of order"),
        Err(error) => error,
    }
}

#[test]
fn options_of_an_enum() {
    let options = options_of(item(
        vec![
            bare("derive", MetaShape::List),
            archive(vec![
                kv("base_path", text("assets")),
                kv("compression", text("zstd")),
                kv("level", Lit::Int(5)),
            ]),
            bare("repr", MetaShape::List),
            bare("doc", MetaShape::NameValue),
            bare("non_exhaustive", MetaShape::Path),
        ],
        vec![variant("Hello", "hello.txt"), variant("Unused", "dir/unused.txt")],
    ));
    assert_eq!(options.enum_name, "Asset");
    assert_eq!(options.base_path, "assets");
    assert!(matches!(options.compression_lit, Some(Lit::Str(name)) if name == "zstd"));
    assert!(matches!(options.level_lit, Some(Lit::Int(5))));
    assert_eq!(options.variant_paths, ["hello.txt", "dir/unused.txt"]);
}

#[test]
fn options_without_compression_and_variants() {
    let options = options_of(item(vec![archive(vec![kv("base_path", text("."))])], vec![]));
    assert_eq!(options.base_path, ".");
    assert!(options.compression_lit.is_none());
    assert!(options.level_lit.is_none());
    assert!(options.variant_paths.is_empty());
}

#[test]
fn later_archive_attribute_replaces_earlier_options() {
    let options = options_of(item(
        vec![
            archive(vec![kv("base_path", text("first")), kv("level", Lit::Int(1))]),
            archive(vec![kv("compression", text("lz4")), kv("base_path", text("second"))]),
        ],
        vec![],
    ));
    assert_eq!(options.base_path, "second");
    assert!(matches!(options.compression_lit, Some(Lit::Str(name)) if name == "lz4"));
    assert!(matches!(options.level_lit, Some(Lit::Int(1))));
}

#[test]
fn attributes_of_the_enum_out_of_order() {
    let base = || archive(vec![kv("base_path", text("assets"))]);
    assert!(matches!(
        error_of(item(vec![base(), bare("archive", MetaShape::Path)], vec![])),
        EnumError::PathStyle
    ));
    assert!(matches!(
        error_of(item(vec![bare("asset", MetaShape::Path)], vec![])),
        EnumError::PathStyle
    ));
    assert!(matches!(
        error_of(item(vec![base(), list("asset", vec![])], vec![])),
        EnumError::AssetOnEnum
    ));
    match error_of(item(vec![bare("archive", MetaShape::NameValue)], vec![])) {
        EnumError::NameValueStyle(name) => assert_eq!(name, "archive"),
        _ => panic!("the style of the attribute is not supported"),
    }
    match error_of(item(vec![bare("asset", MetaShape::NameValue)], vec![])) {
        EnumError::NameValueStyle(name) => assert_eq!(name, "asset"),
        _ => panic!("the style of the attribute is not supported"),
    }
    assert!(matches!(
        error_of(item(vec![bare("archive", MetaShape::List)], vec![])),
        EnumError::Arguments
    ));
    match error_of(item(vec![archive(vec![kv("path", text("x"))])], vec![])) {
        EnumError::Options(OptionError::Unknown(name)) => assert_eq!(name, "path"),
        _ => panic!("an archive has no such option"),
    }
    match error_of(item(
        vec![archive(vec![kv("level", Lit::Int(1)), kv("level", Lit::Int(2))])],
        vec![],
    )) {
        EnumError::Options(OptionError::Duplicate(name)) => assert_eq!(name, "level"),
        _ => panic!("the option is given twice"),
    }
}

#[test]
fn base_path_out_of_order() {
    assert!(matches!(error_of(item(vec![], vec![])), EnumError::MissingBasePath));
    assert!(matches!(
        error_of(item(vec![archive(vec![kv("level", Lit::Int(1))])], vec![variant("A", "a")])),
        EnumError::MissingBasePath
    ));
    assert!(matches!(
        error_of(item(vec![archive(vec![kv("base_path", Lit::Int(1))])], vec![])),
        EnumError::InvalidBasePath
    ));
}

#[test]
fn variants_out_of_order() {
    let check = |broken: Variant| {
        error_of(item(
            vec![archive(vec![kv("base_path", text("assets"))])],
            vec![variant("Fine", "fine.txt"), broken, variant("Never", "seen")],
        ))
    };
    let mut fields = variant("V", "v");
    fields.unit = false;
    fields.discriminant = true;
    assert!(matches!(check(fields), EnumError::NotUnit(name) if name == "V"));
    let mut numbered = variant("V", "v");
    numbered.discriminant = true;
    assert!(matches!(check(numbered), EnumError::Discriminant(name) if name == "V"));
    let mut plain = variant("V", "v");
    plain.attrs.clear();
    assert!(matches!(check(plain), EnumError::MissingAttribute(name) if name == "V"));
    let mut twice = variant("V", "v");
    twice.attrs.push(bare("doc", MetaShape::NameValue));
    assert!(matches!(check(twice), EnumError::TooManyAttributes(name) if name == "V"));
    let mut path_style = variant("V", "v");
    path_style.attrs = vec![bare("asset", MetaShape::Path)];
    assert!(matches!(check(path_style), EnumError::InvalidAttribute(name) if name == "V"));
    let mut value_style = variant("V", "v");
    value_style.attrs = vec![bare("asset", MetaShape::NameValue)];
    assert!(matches!(check(value_style), EnumError::InvalidAttribute(name) if name == "V"));
    let mut other = variant("V", "v");
    other.attrs = vec![list("archive", vec![kv("path", text("v"))])];
    assert!(matches!(check(other), EnumError::NotAsset(name) if name == "V"));
    let mut unparsed = variant("V", "v");
    unparsed.attrs = vec![bare("asset", MetaShape::List)];
    assert!(matches!(check(unparsed), EnumError::Arguments));
    let mut empty = variant("V", "v");
    empty.attrs = vec![list("asset", vec![])];
    assert!(matches!(check(empty), EnumError::MissingPath(name) if name == "V"));
    let mut number = variant("V", "v");
    number.attrs = vec![list("asset", vec![kv("path", Lit::Int(3))])];
    assert!(matches!(check(number), EnumError::InvalidAttribute(name) if name == "V"));
    let mut unknown = variant("V", "v");
    unknown.attrs = vec![list("asset", vec![kv("path", text("v")), kv("level", Lit::Int(3))])];
    assert!(matches!(
        check(unknown),
        EnumError::Options(OptionError::Unknown(name)) if name == "level"
    ));
    let mut repeated = variant("V", "v");
    repeated.attrs = vec![list("asset", vec![kv("path", text("v")), kv("path", text("w"))])];
    assert!(matches!(
        check(repeated),
        EnumError::Options(OptionError::Duplicate(name)) if name == "path"
    ));
}
