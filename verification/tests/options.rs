use include_assets::codec::{Codec, Deflate, ErrorMessage, Lz4, Uncompressed, Zstd};
use include_assets::encode::common::{
    append_bytes, compress_names, compress_sizes, le_bytes_of, parse_codec, AnyCodec, BuildError,
    DynCodec,
};
use include_assets::encode::named::{
    entry_step, follows_links, parse_symlink_rules, EntryKind, EntryStep, SymlinkRules,
};
use include_assets::encode::parse::{
    kv_args_to_hashmap, IncludeDirArgs, KVIdentLit, KVList, Lit, OptionError, Token,
};
use include_assets::encode::sort::sorted_order;

fn text(value: &str) -> Lit {
    Lit::Str(value.to_owned())
}

fn kv(ident: &str, lit: Lit) -> KVIdentLit {
    KVIdentLit { ident: ident.to_owned(), lit }
}

#[test]
fn default_codec_is_zstd_at_level_5() {
    assert!(matches!(parse_codec(None, None), Ok(AnyCodec::Zstd(Zstd { level: 5 }))));
}

#[test]
fn codecs_by_name() {
    assert!(matches!(parse_codec(Some(&text("uncompressed")), None), Ok(AnyCodec::Uncompressed(Uncompressed {}))));
    assert!(matches!(parse_codec(Some(&text("lz4")), None), Ok(AnyCodec::Lz4(Lz4 {}))));
    assert!(matches!(parse_codec(Some(&text("deflate")), None), Ok(AnyCodec::Deflate(Deflate { level: 2 }))));
    assert!(matches!(parse_codec(Some(&text("zstd")), None), Ok(AnyCodec::Zstd(Zstd { level: 5 }))));
}

#[test]
fn codecs_with_levels() {
    let deflate = text("deflate");
    let zstd = text("zstd");
    assert!(matches!(
        parse_codec(Some(&deflate), Some(&Lit::Int(9))),
        Ok(AnyCodec::Deflate(Deflate { level: 9 }))
    ));
    assert!(matches!(
        parse_codec(Some(&deflate), Some(&Lit::Int(0))),
        Ok(AnyCodec::Deflate(Deflate { level: 0 }))
    ));
    assert!(matches!(
        parse_codec(Some(&deflate), Some(&Lit::Int(255))),
        Ok(AnyCodec::Deflate(Deflate { level: 255 }))
    ));
    assert!(matches!(parse_codec(Some(&zstd), Some(&Lit::Int(22))), Ok(AnyCodec::Zstd(Zstd { level: 22 }))));
    assert!(matches!(parse_codec(Some(&zstd), Some(&Lit::Int(-7))), Ok(AnyCodec::Zstd(Zstd { level: -7 }))));
    assert!(matches!(
        parse_codec(None, Some(&Lit::Int(2147483647))),
        Ok(AnyCodec::Zstd(Zstd { level: 2147483647 }))
    ));
    assert!(matches!(
        parse_codec(None, Some(&Lit::Int(-2147483648))),
        Ok(AnyCodec::Zstd(Zstd { level: -2147483648 }))
    ));
}

#[test]
fn levels_out_of_range_are_rejected() {
    let deflate = text("deflate");
    let zstd = text("zstd");
    for level in [Lit::Int(256), Lit::Int(-1), text("9"), Lit::Other] {
        assert!(matches!(parse_codec(Some(&deflate), Some(&level)), Err(OptionError::InvalidLevel)));
    }
    for level in [Lit::Int(2147483648), Lit::Int(-2147483649), text("5"), Lit::Other] {
        assert!(matches!(parse_codec(Some(&zstd), Some(&level)), Err(OptionError::InvalidLevel)));
    }
}

#[test]
fn levels_where_there_are_none_are_rejected() {
    for name in ["uncompressed", "lz4"] {
        match parse_codec(Some(&text(name)), Some(&Lit::Int(1))) {
            Err(OptionError::LevelNotAllowed(which)) => assert_eq!(which, name),
            _ => panic!("this compression takes no level"),
        }
    }
}

#[test]
fn other_compressions_are_rejected() {
    match parse_codec(Some(&text("brotli")), None) {
        Err(OptionError::UnsupportedCompression(which)) => assert_eq!(which, "brotli"),
        _ => panic!("there is no such compression"),
    }
    assert!(matches!(
        parse_codec(Some(&text("Zstd")), Some(&Lit::Int(1))),
        Err(OptionError::UnsupportedCompression(_))
    ));
    assert!(matches!(parse_codec(Some(&Lit::Int(1)), None), Err(OptionError::InvalidCompression)));
    assert!(matches!(parse_codec(Some(&Lit::Other), None), Err(OptionError::InvalidCompression)));
}

#[test]
fn rules_for_links() {
    assert!(matches!(parse_symlink_rules(None), Ok(SymlinkRules::Forbid)));
    assert!(matches!(parse_symlink_rules(Some(&text("forbid"))), Ok(SymlinkRules::Forbid)));
    assert!(matches!(parse_symlink_rules(Some(&text("ignore"))), Ok(SymlinkRules::Ignore)));
    assert!(matches!(parse_symlink_rules(Some(&text("follow"))), Ok(SymlinkRules::Follow)));
    assert!(matches!(parse_symlink_rules(Some(&text("Follow"))), Err(OptionError::InvalidLinks)));
    assert!(matches!(parse_symlink_rules(Some(&text(""))), Err(OptionError::InvalidLinks)));
    assert!(matches!(parse_symlink_rules(Some(&Lit::Int(0))), Err(OptionError::InvalidLinks)));
    assert!(matches!(parse_symlink_rules(Some(&Lit::Other)), Err(OptionError::InvalidLinks)));
}

#[test]
fn walking_a_directory() {
    assert!(!follows_links(SymlinkRules::Forbid));
    assert!(!follows_links(SymlinkRules::Ignore));
    assert!(follows_links(SymlinkRules::Follow));
    for rules in [SymlinkRules::Forbid, SymlinkRules::Ignore, SymlinkRules::Follow] {
        assert_eq!(entry_step(EntryKind::Dir, rules), EntryStep::Skip);
        assert_eq!(entry_step(EntryKind::File, rules), EntryStep::Include);
        assert_eq!(entry_step(EntryKind::Other, rules), EntryStep::Unsupported);
    }
    assert_eq!(entry_step(EntryKind::Symlink, SymlinkRules::Forbid), EntryStep::ForbiddenLink);
    assert_eq!(entry_step(EntryKind::Symlink, SymlinkRules::Ignore), EntryStep::Skip);
    assert_eq!(entry_step(EntryKind::Symlink, SymlinkRules::Follow), EntryStep::ForbiddenLink);
}

#[test]
fn options_are_collected_by_name() {
    let allowed = ["compression", "level", "links"];
    let options = match kv_args_to_hashmap(
        vec![kv("level", Lit::Int(3)), kv("compression", text("zstd"))],
        &allowed,
    ) {
        Ok(options) => options,
        Err(_) => panic!("both options are allowed and given once"),
    };
    assert!(matches!(options.get("level"), Some(Lit::Int(3))));
    assert!(matches!(options.get("compression"), Some(Lit::Str(name)) if name == "zstd"));
    assert!(options.get("links").is_none());
    assert_eq!(options.len(), 2);
    assert!(matches!(parse_codec(options.get("compression"), options.get("level")), Ok(AnyCodec::Zstd(Zstd { level: 3 }))));

    match kv_args_to_hashmap(vec![], &allowed) {
        Ok(options) => assert_eq!(options.len(), 0),
        Err(_) => panic!("no options are in order"),
    }
}

#[test]
fn options_out_of_order_are_rejected() {
    let allowed = ["compression", "level", "links"];
    match kv_args_to_hashmap(
        vec![kv("level", Lit::Int(3)), kv("path", text("x")), kv("level", Lit::Int(4))],
        &allowed,
    ) {
        Err(OptionError::Unknown(name)) => assert_eq!(name, "path"),
        _ => panic!("there is no such option"),
    }
    match kv_args_to_hashmap(
        vec![kv("level", Lit::Int(3)), kv("links", text("x")), kv("level", Lit::Int(4))],
        &allowed,
    ) {
        Err(OptionError::Duplicate(name)) => assert_eq!(name, "level"),
        _ => panic!("the option is given twice"),
    }
    assert!(matches!(
        kv_args_to_hashmap(vec![kv("level", Lit::Int(3))], &[]),
        Err(OptionError::Unknown(_))
    ));
}

#[test]
fn sizes_stream_is_little_endian() {
    let out = compress_sizes(&Uncompressed {}, &[("a", 2), ("b", 6), ("c", 0x01020304), ("d", 0)]);
    assert_eq!(out.ok(), Some(vec![2, 0, 0, 0, 6, 0, 0, 0, 4, 3, 2, 1, 0, 0, 0, 0]));
    assert_eq!(compress_sizes(&Uncompressed {}, &[]).ok(), Some(vec![]));
    assert_eq!(le_bytes_of(0xfffe_fdfc), [0xfc, 0xfd, 0xfe, 0xff]);
    assert_eq!(le_bytes_of(0), [0, 0, 0, 0]);
    assert_eq!(le_bytes_of(256), [0, 1, 0, 0]);
}

#[test]
fn names_stream_has_zero_bytes_between_names() {
    let out = compress_names(&Uncompressed {}, &["a.txt", "b/c.txt"]);
    assert_eq!(out.ok(), Some((b"a.txt\0b/c.txt".to_vec(), 13)));
    assert_eq!(compress_names(&Uncompressed {}, &[]).ok(), Some((vec![], 0)));
    assert_eq!(compress_names(&Uncompressed {}, &["", "", ""]).ok(), Some((vec![0, 0], 2)));
    assert_eq!(
        compress_names(&Uncompressed {}, &["\u{00fc}"]).ok(),
        Some((vec![0xc3, 0xbc], 2))
    );
    match compress_names(&Uncompressed {}, &["fine", "not\0fine", "\0"]) {
        Err(BuildError::NulInName(name)) => assert_eq!(name, "not\0fine"),
        _ => panic!("a name with a zero byte must be rejected"),
    }
}

#[test]
fn streams_are_compressed_by_the_codec() {
    let codec = Lz4 {};
    let names: Vec<String> = (0..200).map(|i| format!("directory/file-{i:04}.txt")).collect();
    let names: Vec<&str> = names.iter().map(String::as_str).collect();
    let (compressed, size) = match compress_names(&codec, &names) {
        Ok(out) => out,
        Err(_) => panic!("the names are in order"),
    };
    let plain = names.join("\0").into_bytes();
    assert_eq!(size as usize, plain.len());
    assert!(compressed.len() < plain.len());
    assert_eq!(codec.decompress_with_length(&compressed, plain.len()), plain);

    let sizes: Vec<(&str, usize)> = names.iter().map(|name| (*name, 1000)).collect();
    let compressed = match compress_sizes(&codec, &sizes) {
        Ok(out) => out,
        Err(_) => panic!("the sizes are in order"),
    };
    assert!(compressed.len() < 800);
    assert_eq!(codec.decompress_with_length(&compressed, 800), [0xe8, 3, 0, 0].repeat(200));
}

#[test]
fn append_bytes_appends() {
    let mut buffer = vec![1, 2];
    append_bytes(&mut buffer, &[3, 4, 5]);
    append_bytes(&mut buffer, &[]);
    assert_eq!(buffer, [1, 2, 3, 4, 5]);
}

#[test]
fn sorted_order_lists_places_by_name() {
    let assets: Vec<(String, Vec<u8>)> = ["b", "a/x", "a", "a.b", "", "b", "\u{00e9}"]
        .iter()
        .map(|name| (name.to_string(), vec![]))
        .collect();
    let order = sorted_order(&assets);
    let names: Vec<&str> = order.iter().map(|i| assets[*i].0.as_str()).collect();
    assert_eq!(names, ["", "a", "a.b", "a/x", "b", "b", "\u{00e9}"]);
    let mut places = order.clone();
    places.sort();
    assert_eq!(places, [0, 1, 2, 3, 4, 5, 6]);
    assert!(sorted_order(&vec![]).is_empty());
}

#[test]
fn dyn_codec_does_what_its_codec_does() {
    let data = b"hello hello hello hello hello hello hello".to_vec();
    let plain = Zstd { level: 4 };
    let wrapped = DynCodec::new(plain);
    let compressed = match wrapped.compress(&data) {
        Ok(compressed) => compressed,
        Err(_) => panic!("zstd compresses"),
    };
    assert_eq!(compressed, plain.compress(&data).unwrap());
    assert_eq!(wrapped.decompress_with_length(&compressed, data.len()), data);
}

#[test]
fn dyn_codec_reports_errors_as_text() {
    let mut dst = [0u8; 3];
    let error = DynCodec::new(Uncompressed {}).decompress_checked(b"hello", &mut dst).err().unwrap();
    assert_eq!(error.message(), "unexpected uncompressed size: expected 3, got 5");
    let error = AnyCodec::Uncompressed(Uncompressed {}).decompress_checked(b"hello", &mut dst).err().unwrap();
    assert_eq!(error.message(), "unexpected uncompressed size: expected 3, got 5");
    let error = DynCodec::new(Deflate { level: 1 }).decompress_checked(&[0xff, 0xff], &mut dst);
    assert!(error.err().unwrap().message().starts_with("yazi "));
    let error = AnyCodec::Lz4(Lz4 {}).decompress_checked(&[0xff], &mut dst).err().unwrap();
    assert!(!error.message().is_empty());
    let error = AnyCodec::Zstd(Zstd { level: 1 }).decompress_checked(&[0xff], &mut dst).err().unwrap();
    assert!(!error.message().is_empty());
}

#[test]
fn any_codec_is_the_codec_it_names() {
    let data = b"abcabcabcabcabcabcabcabcabcabcabcabcabc".to_vec();
    assert_eq!(AnyCodec::Uncompressed(Uncompressed {}).compress(&data).ok(), Uncompressed {}.compress(&data).ok());
    assert_eq!(AnyCodec::Lz4(Lz4 {}).compress(&data).ok(), Lz4 {}.compress(&data).ok());
    assert_eq!(
        AnyCodec::Deflate(Deflate { level: 3 }).compress(&data).ok(),
        Deflate { level: 3 }.compress(&data).ok()
    );
    assert_eq!(
        AnyCodec::Zstd(Zstd { level: 3 }).compress(&data).ok(),
        Zstd { level: 3 }.compress(&data).ok()
    );
}

#[test]
fn errors_can_be_printed_for_debugging() {
    let error = parse_codec(Some(&text("brotli")), None).unwrap_err();
    assert_eq!(format!("{error:?}"), "UnsupportedCompression(\"brotli\")");
    let error = compress_names(&Uncompressed {}, &["a\0"]).unwrap_err();
    assert_eq!(format!("{error:?}"), "NulInName(\"a\\0\")");
}

fn ident(name: &str) -> Token {
    Token::Ident(name.to_owned())
}

fn assignment(name: &str, lit: Lit) -> Vec<Token> {
    vec![ident(name), Token::Eq, Token::Lit(lit)]
}

#[test]
fn arguments_of_include_dir() {
    let args = IncludeDirArgs::parse(&[Token::Lit(text("assets"))]).unwrap();
    assert_eq!(args.path, "assets");
    assert!(args.opts.is_empty());

    let args = IncludeDirArgs::parse(&[Token::Lit(text("assets")), Token::Comma]).unwrap();
    assert_eq!(args.path, "assets");
    assert!(args.opts.is_empty());

    let mut tokens = vec![Token::Lit(text("a/b")), Token::Comma];
    tokens.extend(assignment("compression", text("zstd")));
    tokens.push(Token::Comma);
    tokens.extend(assignment("level", Lit::Int(-3)));
    let args = IncludeDirArgs::parse(&tokens).unwrap();
    assert_eq!(args.path, "a/b");
    assert_eq!(args.opts.len(), 2);
    assert_eq!(args.opts[0].ident, "compression");
    assert!(matches!(&args.opts[0].lit, Lit::Str(name) if name == "zstd"));
    assert_eq!(args.opts[1].ident, "level");
    assert!(matches!(args.opts[1].lit, Lit::Int(-3)));

    tokens.push(Token::Comma);
    assert_eq!(IncludeDirArgs::parse(&tokens).unwrap().opts.len(), 2);
}

#[test]
fn arguments_of_include_dir_out_of_order() {
    let at = |tokens: &[Token]| match IncludeDirArgs::parse(tokens) {
        Ok(_) => panic!("the arguments are not written as they should be"),
        Err(error) => (error.at, format!("{:?}", error.expected)),
    };
    assert_eq!(at(&[]), (0, "Path".to_owned()));
    assert_eq!(at(&[Token::Lit(Lit::Int(1))]), (0, "Path".to_owned()));
    assert_eq!(at(&[ident("assets")]), (0, "Path".to_owned()));
    assert_eq!(at(&[Token::Lit(text("a")), Token::Eq]), (1, "Comma".to_owned()));
    assert_eq!(at(&[Token::Lit(text("a")), Token::Lit(text("b"))]), (1, "Comma".to_owned()));
    assert_eq!(at(&[Token::Lit(text("a")), Token::Comma, Token::Comma]), (2, "Ident".to_owned()));
    assert_eq!(at(&[Token::Lit(text("a")), Token::Comma, ident("x")]), (3, "Eq".to_owned()));
    assert_eq!(
        at(&[Token::Lit(text("a")), Token::Comma, ident("x"), Token::Comma]),
        (3, "Eq".to_owned())
    );
    assert_eq!(
        at(&[Token::Lit(text("a")), Token::Comma, ident("x"), Token::Eq]),
        (4, "Lit".to_owned())
    );
    assert_eq!(
        at(&[Token::Lit(text("a")), Token::Comma, ident("x"), Token::Eq, ident("y")]),
        (4, "Lit".to_owned())
    );
    let mut tokens = vec![Token::Lit(text("a")), Token::Comma];
    tokens.extend(assignment("x", Lit::Int(1)));
    tokens.extend(assignment("y", Lit::Int(2)));
    assert_eq!(at(&tokens), (5, "Comma".to_owned()));
    tokens.insert(5, Token::Other);
    assert_eq!(at(&tokens), (5, "Comma".to_owned()));
}

#[test]
fn lists_of_assignments() {
    assert!(KVList::parse(&[]).unwrap().kvs.is_empty());
    let mut tokens = assignment("path", text("a.txt"));
    assert_eq!(KVList::parse(&tokens).unwrap().kvs.len(), 1);
    tokens.push(Token::Comma);
    assert_eq!(KVList::parse(&tokens).unwrap().kvs.len(), 1);
    tokens.extend(assignment("other", Lit::Other));
    let list = KVList::parse(&tokens).unwrap();
    assert_eq!(list.kvs.len(), 2);
    assert_eq!(list.kvs[0].ident, "path");
    assert_eq!(list.kvs[1].ident, "other");
    assert!(matches!(list.kvs[1].lit, Lit::Other));
    tokens.push(Token::Comma);
    tokens.push(Token::Comma);
    assert_eq!(KVList::parse(&tokens).unwrap_err().at, 8);
    assert!(KVList::parse(&[Token::Comma]).is_err());
}

#[test]
fn one_assignment() {
    let kv = KVIdentLit::parse(&assignment("level", Lit::Int(7))).unwrap();
    assert_eq!(kv.ident, "level");
    assert!(matches!(kv.lit, Lit::Int(7)));
    assert_eq!(KVIdentLit::parse(&[]).unwrap_err().at, 0);
    assert_eq!(KVIdentLit::parse(&[Token::Eq]).unwrap_err().at, 0);
    assert_eq!(KVIdentLit::parse(&[ident("a")]).unwrap_err().at, 1);
    assert_eq!(KVIdentLit::parse(&[ident("a"), ident("b")]).unwrap_err().at, 1);
    assert_eq!(KVIdentLit::parse(&[ident("a"), Token::Eq]).unwrap_err().at, 2);
    assert_eq!(KVIdentLit::parse(&[ident("a"), Token::Eq, Token::Comma]).unwrap_err().at, 2);
    let mut tokens = assignment("level", Lit::Int(7));
    tokens.push(Token::Comma);
    assert_eq!(KVIdentLit::parse(&tokens).unwrap_err().at, 3);
}
