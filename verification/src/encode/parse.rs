//! Options as they are written where assets are included: `identifier = literal`.

use crate::text::str_eq;
use vstd::hash_map::StringHashMap;
use vstd::prelude::*;

verus! {

/// A literal, as far as options care what it is.
#[derive(Debug, Clone)]
pub enum Lit {
    /// A string literal, with its value.
    Str(String),
    /// An integer literal, with its value.
    Int(i64),
    /// Any other literal.
    Other,
}

/// assignment of the form `identifier = literal`
#[derive(Debug, Clone)]
pub struct KVIdentLit {
    pub ident: String,
    pub lit: Lit,
}

/// A literal string, followed by a number of `ident = literal` arguments
#[derive(Debug, Clone)]
pub struct IncludeDirArgs {
    pub path: String,
    pub opts: Vec<KVIdentLit>,
}

/// A number of `ident = literal` arguments
#[derive(Debug, Clone)]
pub struct KVList {
    pub kvs: Vec<KVIdentLit>,
}

/// What is wrong with the options.
#[derive(Debug)]
pub enum OptionError {
    /// This option is given more than once.
    Duplicate(String),
    /// There is no option of this name.
    Unknown(String),
    /// The compression is no string literal.
    InvalidCompression,
    /// This compression takes no level.
    LevelNotAllowed(String),
    /// The level is no integer literal, or none that the compression can take.
    InvalidLevel,
    /// There is no compression of this name.
    UnsupportedCompression(String),
    /// The rule for symbolic links is none of `forbid`, `ignore` and `follow`.
    InvalidLinks,
}

/// The identifiers of the assignments, in their order.
pub open spec fn idents(kvs: Seq<KVIdentLit>) -> Seq<Seq<char>> {
    Seq::new(kvs.len(), |i: int| kvs[i].ident@)
}

/// The texts of `allowed`.
pub open spec fn allowed_texts(allowed: Seq<&str>) -> Seq<Seq<char>> {
    Seq::new(allowed.len(), |i: int| allowed[i]@)
}

/// The first `n` assignments are in order: each identifier is allowed and none
/// occurs twice.
pub open spec fn in_order(kvs: Seq<KVIdentLit>, allowed: Seq<&str>, n: int) -> bool {
    &&& forall|i: int| 0 <= i < n ==> allowed_texts(allowed).contains(#[trigger] idents(kvs)[i])
    &&& forall|i: int, j: int| 0 <= i < j < n ==> idents(kvs)[i] != idents(kvs)[j]
}

/// The literal that the assignments give each identifier. This is meaningful
/// where no identifier occurs twice.
pub open spec fn options_of(kvs: Seq<KVIdentLit>) -> Map<Seq<char>, Lit> {
    Map::new(
        |name: Seq<char>| idents(kvs).contains(name),
        |name: Seq<char>|
            kvs[choose|i: int| 0 <= i < kvs.len() && #[trigger] kvs[i].ident@ == name].lit,
    )
}

/// `error` reports the first assignment that is out of order: one whose
/// identifier is not allowed, or else occurs earlier.
pub open spec fn first_out_of_order(
    kvs: Seq<KVIdentLit>,
    allowed: Seq<&str>,
    error: OptionError,
) -> bool {
    match error {
        OptionError::Unknown(name) => exists|i: int|
            {
                &&& 0 <= i < kvs.len()
                &&& in_order(kvs, allowed, i)
                &&& name@ == #[trigger] kvs[i].ident@
                &&& !allowed_texts(allowed).contains(name@)
            },
        OptionError::Duplicate(name) => exists|i: int|
            {
                &&& 0 <= i < kvs.len()
                &&& in_order(kvs, allowed, i)
                &&& name@ == #[trigger] kvs[i].ident@
                &&& allowed_texts(allowed).contains(name@)
                &&& idents(kvs).take(i).contains(name@)
            },
        _ => false,
    }
}

/// Assignments of which one is reported are not in order.
pub proof fn lemma_out_of_order(kvs: Seq<KVIdentLit>, allowed: Seq<&str>, error: OptionError)
    requires
        first_out_of_order(kvs, allowed, error),
    ensures
        !in_order(kvs, allowed, kvs.len() as int),
{
    let names = idents(kvs);
    match error {
        OptionError::Unknown(name) => {
            let i = choose|i: int|
                {
                    &&& 0 <= i < kvs.len()
                    &&& in_order(kvs, allowed, i)
                    &&& name@ == #[trigger] kvs[i].ident@
                    &&& !allowed_texts(allowed).contains(name@)
                };
            assert(names[i] == name@);
        },
        OptionError::Duplicate(name) => {
            let i = choose|i: int|
                {
                    &&& 0 <= i < kvs.len()
                    &&& in_order(kvs, allowed, i)
                    &&& name@ == #[trigger] kvs[i].ident@
                    &&& allowed_texts(allowed).contains(name@)
                    &&& names.take(i).contains(name@)
                };
            let k = choose|k: int| 0 <= k < names.take(i).len() && names.take(i)[k] == name@;
            assert(names[k] == names[i]);
        },
        _ => {},
    }
}

/// Whether `name` is one of `allowed`.
fn is_allowed(name: &str, allowed: &[&str]) -> (found: bool)
    ensures
        found == allowed_texts(allowed@).contains(name@),
{
    let mut i: usize = 0;
    while i < allowed.len()
        invariant
            i <= allowed@.len(),
            forall|j: int| 0 <= j < i ==> allowed_texts(allowed@)[j] != name@,
        decreases allowed@.len() - i,
    {
        if str_eq(allowed[i], name) {
            assert(allowed_texts(allowed@)[i as int] == name@);
            return true;
        }
        i += 1;
    }
    false
}

/// Collects the assignments by identifier. Every identifier has to be one of
/// `allowed`, and none may occur twice: the first assignment that is out of
/// order is reported.
pub fn kv_args_to_hashmap(kvs: Vec<KVIdentLit>, allowed: &[&str]) -> (r: Result<
    StringHashMap<Lit>,
    OptionError,
>)
    ensures
        match r {
            Ok(options) => {
                &&& in_order(kvs@, allowed@, kvs@.len() as int)
                &&& options@ == options_of(kvs@)
                &&& forall|i: int|
                    0 <= i < kvs@.len() ==> options@.contains_key(#[trigger] kvs@[i].ident@)
                        && options@[kvs@[i].ident@] == kvs@[i].lit
                &&& forall|name: Seq<char>|
                    options@.contains_key(name) ==> idents(kvs@).contains(name)
            },
            Err(error) => first_out_of_order(kvs@, allowed@, error),
        },
{
    let ghost all = kvs@;
    let count = kvs.len();
    let mut result: StringHashMap<Lit> = StringHashMap::new();
    let mut rest = kvs;
    let mut i: usize = 0;
    while i < count
        invariant
            i <= count,
            all == kvs@,
            count == all.len(),
            rest@.len() == count - i,
            forall|k: int| 0 <= k < rest@.len() ==> rest@[k] == all[i + k],
            in_order(all, allowed@, i as int),
            forall|k: int|
                0 <= k < i ==> result@.contains_key(#[trigger] all[k].ident@)
                    && result@[all[k].ident@] == all[k].lit,
            forall|name: Seq<char>|
                result@.contains_key(name) ==> idents(all).take(i as int).contains(name),
        decreases count - i,
    {
        let kv = rest.remove(0);
        assert(kv == all[i as int]);
        let key = kv.ident;
        if !is_allowed(key.as_str(), allowed) {
            assert(key@ == all[i as int].ident@);
            return Err(OptionError::Unknown(key));
        }
        if result.contains_key(key.as_str()) {
            assert(key@ == all[i as int].ident@);
            return Err(OptionError::Duplicate(key));
        }
        let ghost before = result@;
        result.insert(key, kv.lit);
        proof {
            let names = idents(all);
            assert(names[i as int] == key@);
            assert forall|a: int, b: int| 0 <= a < b < i + 1 implies names[a] != names[b] by {
                if b == i {
                    if names[a] == key@ {
                        assert(before.contains_key(all[a].ident@));
                        let k = choose|k: int|
                            0 <= k < names.take(i as int).len() && names.take(i as int)[k] == key@;
                    }
                }
            }
            assert forall|k: int| 0 <= k < i + 1 implies result@.contains_key(
                #[trigger] all[k].ident@,
            ) && result@[all[k].ident@] == all[k].lit by {
                if k < i {
                    assert(names[k] != names[i as int]);
                }
            }
            assert forall|name: Seq<char>| result@.contains_key(name) implies names.take(
                i + 1,
            ).contains(name) by {
                if name == key@ {
                    assert(names.take(i + 1)[i as int] == name);
                } else {
                    assert(names.take(i as int).contains(name));
                    let k = choose|k: int|
                        0 <= k < names.take(i as int).len() && names.take(i as int)[k] == name;
                    assert(names.take(i + 1)[k] == name);
                }
            }
        }
        i += 1;
    }
    assert(idents(all).take(count as int) =~= idents(all));
    proof {
        assert forall|name: Seq<char>| result@.contains_key(name) implies result@[name]
            == options_of(all)[name] by {
            let k = choose|k: int| 0 <= k < idents(all).len() && idents(all)[k] == name;
            assert(all[k].ident@ == name);
            let i = choose|i: int| 0 <= i < all.len() && #[trigger] all[i].ident@ == name;
            if i < k {
                assert(idents(all)[i] != idents(all)[k]);
            } else if k < i {
                assert(idents(all)[k] != idents(all)[i]);
            }
        }
        assert forall|name: Seq<char>| idents(all).contains(name) implies result@.contains_key(
            name,
        ) by {
            let k = choose|k: int| 0 <= k < idents(all).len() && idents(all)[k] == name;
            assert(result@.contains_key(all[k].ident@));
        }
        assert(result@ =~= options_of(all));
    }
    Ok(result)
}

/// A token of the arguments that options are written in.
#[derive(Debug, Clone)]
pub enum Token {
    /// An identifier.
    Ident(String),
    /// A literal.
    Lit(Lit),
    /// `,`
    Comma,
    /// `=`
    Eq,
    /// Anything else.
    Other,
}

/// What should have stood where the arguments went wrong.
#[derive(Debug, Clone, Copy)]
pub enum Expected {
    /// A string literal, for the path.
    Path,
    /// An identifier, for the name of an option.
    Ident,
    /// `=`, between the name of an option and its value.
    Eq,
    /// A literal, for the value of an option.
    Lit,
    /// `,`, between two options or after the path.
    Comma,
}

/// Arguments that are not written as they should be: what was expected, and at
/// which token. The place is the number of tokens where they end too early.
#[derive(Debug, Clone, Copy)]
pub struct SyntaxError {
    pub at: usize,
    pub expected: Expected,
}

/// The assignments that the tokens from `from` on are: `ident = literal`, with
/// a comma between two of them and, if one likes, after the last. `None` where
/// the tokens are no such list.
pub open spec fn parsed_list(tokens: Seq<Token>, from: int) -> Option<Seq<KVIdentLit>>
    decreases tokens.len() - from,
{
    if from < 0 {
        None
    } else if from >= tokens.len() {
        Some(Seq::empty())
    } else if from + 3 <= tokens.len() && tokens[from] is Ident && tokens[from + 1] is Eq
        && tokens[from + 2] is Lit {
        let kv = KVIdentLit { ident: tokens[from]->Ident_0, lit: tokens[from + 2]->Lit_0 };
        if from + 3 == tokens.len() {
            Some(seq![kv])
        } else if tokens[from + 3] is Comma {
            match parsed_list(tokens, from + 4) {
                Some(rest) => Some(seq![kv] + rest),
                None => None,
            }
        } else {
            None
        }
    } else {
        None
    }
}

/// Where the tokens from `from` on stop being a list of assignments, and what
/// should have stood there. `None` where they are such a list.
pub open spec fn list_fault(tokens: Seq<Token>, from: int) -> Option<SyntaxError>
    decreases tokens.len() - from,
{
    if from < 0 || from >= tokens.len() {
        None
    } else if !(tokens[from] is Ident) {
        Some(SyntaxError { at: from as usize, expected: Expected::Ident })
    } else if from + 1 >= tokens.len() || !(tokens[from + 1] is Eq) {
        Some(SyntaxError { at: (from + 1) as usize, expected: Expected::Eq })
    } else if from + 2 >= tokens.len() || !(tokens[from + 2] is Lit) {
        Some(SyntaxError { at: (from + 2) as usize, expected: Expected::Lit })
    } else if from + 3 >= tokens.len() {
        None
    } else if !(tokens[from + 3] is Comma) {
        Some(SyntaxError { at: (from + 3) as usize, expected: Expected::Comma })
    } else {
        list_fault(tokens, from + 4)
    }
}

/// The tokens are a list of assignments unless they stop being one somewhere.
pub proof fn lemma_list_or_fault(tokens: Seq<Token>, from: int)
    requires
        0 <= from,
        tokens.len() <= usize::MAX,
    ensures
        parsed_list(tokens, from) is Some <==> list_fault(tokens, from) is None,
        list_fault(tokens, from) matches Some(error) ==> from <= error.at <= tokens.len(),
    decreases tokens.len() - from,
{
    if from + 3 < tokens.len() {
        lemma_list_or_fault(tokens, from + 4);
    }
}

/// The tokens of one assignment.
pub open spec fn printed_kv(kv: KVIdentLit) -> Seq<Token> {
    seq![Token::Ident(kv.ident), Token::Eq, Token::Lit(kv.lit)]
}

/// The tokens of a list of assignments, with a comma between two of them.
pub open spec fn printed_list(kvs: Seq<KVIdentLit>) -> Seq<Token>
    decreases kvs.len(),
{
    if kvs.len() == 0 {
        Seq::empty()
    } else if kvs.len() == 1 {
        printed_kv(kvs[0])
    } else {
        printed_kv(kvs[0]) + seq![Token::Comma] + printed_list(kvs.drop_first())
    }
}

/// Tokens after a list do not change what the tokens before them are, as long as
/// parsing starts behind them.
proof fn lemma_parsed_suffix(front: Seq<Token>, tokens: Seq<Token>, from: int)
    requires
        0 <= from,
    ensures
        parsed_list(front + tokens, front.len() + from) == parsed_list(tokens, from),
    decreases tokens.len() - from,
{
    let all = front + tokens;
    let at = front.len() + from;
    if from < tokens.len() {
        if from + 3 <= tokens.len() {
            assert(all[at] == tokens[from] && all[at + 1] == tokens[from + 1] && all[at + 2]
                == tokens[from + 2]);
            if from + 3 < tokens.len() {
                assert(all[at + 3] == tokens[from + 3]);
                lemma_parsed_suffix(front, tokens, from + 4);
            }
        } else {
            assert(all[at] == tokens[from]);
        }
    }
}

/// What is printed is parsed as what it was printed from.
pub proof fn lemma_parse_printed(kvs: Seq<KVIdentLit>)
    ensures
        parsed_list(printed_list(kvs), 0) == Some(kvs),
        kvs.len() > 0 ==> parsed_list(printed_list(kvs).push(Token::Comma), 0) == Some(kvs),
    decreases kvs.len(),
{
    let tokens = printed_list(kvs);
    if kvs.len() == 0 {
        assert(parsed_list(tokens, 0) =~= Some(kvs));
    } else if kvs.len() == 1 {
        assert(parsed_list(tokens, 0) =~= Some(kvs));
        let longer = tokens.push(Token::Comma);
        assert(parsed_list(longer, 4) == Some(Seq::<KVIdentLit>::empty()));
        assert(seq![kvs[0]] + Seq::<KVIdentLit>::empty() =~= kvs);
    } else {
        let rest = kvs.drop_first();
        let front = printed_kv(kvs[0]) + seq![Token::Comma];
        lemma_parse_printed(rest);
        lemma_parsed_suffix(front, printed_list(rest), 0);
        assert(tokens =~= front + printed_list(rest));
        assert(seq![kvs[0]] + rest =~= kvs);
        lemma_parsed_suffix(front, printed_list(rest).push(Token::Comma), 0);
        assert(tokens.push(Token::Comma) =~= front + printed_list(rest).push(Token::Comma));
    }
}

/// Reads a list of assignments from the tokens from `from` on.
fn parse_list(tokens: &[Token], from: usize) -> (r: Result<Vec<KVIdentLit>, SyntaxError>)
    ensures
        match r {
            Ok(kvs) => parsed_list(tokens@, from as int) == Some(kvs@),
            Err(error) => parsed_list(tokens@, from as int) is None && list_fault(
                tokens@,
                from as int,
            ) == Some(error),
        },
{
    let mut kvs: Vec<KVIdentLit> = Vec::new();
    let mut i: usize = from;
    let ghost start = from as int;
    let count = tokens.len();
    proof {
        lemma_list_or_fault(tokens@, start);
    }
    while i < count
        invariant
            from <= i,
            count == tokens@.len(),
            start == from,
            parsed_list(tokens@, start) == (match parsed_list(tokens@, i as int) {
                Some(rest) => Some(kvs@ + rest),
                None => None,
            }),
            list_fault(tokens@, start) == list_fault(tokens@, i as int),
            parsed_list(tokens@, start) is Some <==> list_fault(tokens@, start) is None,
        decreases tokens@.len() - i,
    {
        let ident = match &tokens[i] {
            Token::Ident(ident) => ident.clone(),
            _ => {
                return Err(SyntaxError { at: i, expected: Expected::Ident });
            },
        };
        if i + 1 >= count {
            return Err(SyntaxError { at: i + 1, expected: Expected::Eq });
        }
        match &tokens[i + 1] {
            Token::Eq => {},
            _ => {
                return Err(SyntaxError { at: i + 1, expected: Expected::Eq });
            },
        }
        if i + 2 >= count {
            return Err(SyntaxError { at: i + 2, expected: Expected::Lit });
        }
        let lit = match &tokens[i + 2] {
            Token::Lit(lit) => copy_lit(lit),
            _ => {
                return Err(SyntaxError { at: i + 2, expected: Expected::Lit });
            },
        };
        let ghost before = kvs@;
        kvs.push(KVIdentLit { ident, lit });
        if i + 3 >= count {
            assert(before + seq![kvs@[before.len() as int]] =~= kvs@);
            return Ok(kvs);
        }
        match &tokens[i + 3] {
            Token::Comma => {},
            _ => {
                return Err(SyntaxError { at: i + 3, expected: Expected::Comma });
            },
        }
        proof {
            let kv = kvs@[before.len() as int];
            match parsed_list(tokens@, i + 4) {
                Some(rest) => {
                    assert(before + (seq![kv] + rest) =~= kvs@ + rest);
                },
                None => {},
            }
        }
        i += 4;
    }
    assert(kvs@ + Seq::<KVIdentLit>::empty() =~= kvs@);
    Ok(kvs)
}

/// A copy of a literal.
pub fn copy_lit(lit: &Lit) -> (copy: Lit)
    ensures
        copy == *lit,
{
    match lit {
        Lit::Str(text) => Lit::Str(text.clone()),
        Lit::Int(value) => Lit::Int(*value),
        Lit::Other => Lit::Other,
    }
}

impl KVList {
    /// Reads a number of `ident = literal` arguments, separated by commas.
    pub fn parse(tokens: &[Token]) -> (r: Result<Self, SyntaxError>)
        ensures
            match r {
                Ok(list) => parsed_list(tokens@, 0) == Some(list.kvs@),
                Err(error) => parsed_list(tokens@, 0) is None && list_fault(tokens@, 0) == Some(
                    error,
                ),
            },
    {
        match parse_list(tokens, 0) {
            Ok(kvs) => Ok(KVList { kvs }),
            Err(error) => Err(error),
        }
    }
}

/// Where the tokens stop being one assignment, and what should have stood
/// there. `None` where they are one assignment.
pub open spec fn kv_fault(tokens: Seq<Token>) -> Option<SyntaxError> {
    if tokens.len() == 0 || !(tokens[0] is Ident) {
        Some(SyntaxError { at: 0, expected: Expected::Ident })
    } else if tokens.len() == 1 || !(tokens[1] is Eq) {
        Some(SyntaxError { at: 1, expected: Expected::Eq })
    } else if tokens.len() == 2 || !(tokens[2] is Lit) {
        Some(SyntaxError { at: 2, expected: Expected::Lit })
    } else if tokens.len() > 3 {
        Some(SyntaxError { at: 3, expected: Expected::Comma })
    } else {
        None
    }
}

impl KVIdentLit {
    /// Reads one `ident = literal` argument, which is all that the tokens hold.
    pub fn parse(tokens: &[Token]) -> (r: Result<Self, SyntaxError>)
        ensures
            match r {
                Ok(kv) => tokens@ == printed_kv(kv),
                Err(error) => kv_fault(tokens@) == Some(error),
            },
    {
        if tokens.len() == 0 {
            return Err(SyntaxError { at: 0, expected: Expected::Ident });
        }
        let ident = match &tokens[0] {
            Token::Ident(ident) => ident.clone(),
            _ => {
                return Err(SyntaxError { at: 0, expected: Expected::Ident });
            },
        };
        if tokens.len() == 1 {
            return Err(SyntaxError { at: 1, expected: Expected::Eq });
        }
        match &tokens[1] {
            Token::Eq => {},
            _ => {
                return Err(SyntaxError { at: 1, expected: Expected::Eq });
            },
        }
        if tokens.len() == 2 {
            return Err(SyntaxError { at: 2, expected: Expected::Lit });
        }
        let lit = match &tokens[2] {
            Token::Lit(lit) => copy_lit(lit),
            _ => {
                return Err(SyntaxError { at: 2, expected: Expected::Lit });
            },
        };
        if tokens.len() > 3 {
            return Err(SyntaxError { at: 3, expected: Expected::Comma });
        }
        assert(tokens@ =~= printed_kv(KVIdentLit { ident, lit }));
        Ok(KVIdentLit { ident, lit })
    }
}

/// The path and the options that the tokens are: a string literal, and behind
/// it, after a comma, a list of assignments. `None` where the tokens are no
/// such arguments.
pub open spec fn parsed_args(tokens: Seq<Token>) -> Option<(String, Seq<KVIdentLit>)> {
    if tokens.len() == 0 {
        None
    } else {
        match tokens[0] {
            Token::Lit(Lit::Str(path)) => {
                if tokens.len() == 1 {
                    Some((path, Seq::empty()))
                } else if tokens[1] is Comma {
                    match parsed_list(tokens, 2) {
                        Some(opts) => Some((path, opts)),
                        None => None,
                    }
                } else {
                    None
                }
            },
            _ => None,
        }
    }
}

/// Where the tokens stop being a path and options, and what should have stood
/// there. `None` where they are a path and options.
pub open spec fn args_fault(tokens: Seq<Token>) -> Option<SyntaxError> {
    if tokens.len() == 0 || !(tokens[0] is Lit) || !(tokens[0]->Lit_0 is Str) {
        Some(SyntaxError { at: 0, expected: Expected::Path })
    } else if tokens.len() == 1 {
        None
    } else if !(tokens[1] is Comma) {
        Some(SyntaxError { at: 1, expected: Expected::Comma })
    } else {
        list_fault(tokens, 2)
    }
}

impl IncludeDirArgs {
    /// Reads a literal string, followed by a number of `ident = literal` arguments.
    pub fn parse(tokens: &[Token]) -> (r: Result<Self, SyntaxError>)
        ensures
            match r {
                Ok(args) => parsed_args(tokens@) == Some((args.path, args.opts@)),
                Err(error) => parsed_args(tokens@) is None && args_fault(tokens@) == Some(error),
            },
    {
        if tokens.len() == 0 {
            return Err(SyntaxError { at: 0, expected: Expected::Path });
        }
        let path = match &tokens[0] {
            Token::Lit(Lit::Str(path)) => path.clone(),
            _ => {
                return Err(SyntaxError { at: 0, expected: Expected::Path });
            },
        };
        if tokens.len() == 1 {
            return Ok(IncludeDirArgs { path, opts: Vec::new() });
        }
        match &tokens[1] {
            Token::Comma => {},
            _ => {
                return Err(SyntaxError { at: 1, expected: Expected::Comma });
            },
        }
        match parse_list(tokens, 2) {
            Ok(opts) => Ok(IncludeDirArgs { path, opts }),
            Err(error) => Err(error),
        }
    }
}

} // verus!
