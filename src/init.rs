//! The argument grammar of the initialisation call:
//! a domain string literal, then optionally `, po = <bool>` and
//! `, mo = <bool>`, then the target languages as identifiers separated by
//! commas.

use vstd::prelude::*;
use crate::config::{Config, ConfigModel, views};

verus! {

/// One token of the call's arguments, in the form the grammar reads.
#[derive(Debug, Clone)]
pub enum Token {
    /// A literal, with its source text (quotes included for a string).
    Literal(String),
    Ident(String),
    Punct(char),
    /// A delimited group; its contents play no part in the grammar.
    Group,
}

/// Why the arguments do not describe a configuration.
#[derive(Debug, Clone, Copy, PartialEq, Eq, Structural)]
pub enum InitError {
    /// There are no arguments at all.
    MissingDomain,
    /// The first argument is not a literal.
    DomainNotString,
    /// A language position holds something other than an identifier.
    ExpectedLanguage,
}

pub open spec fn is_punct(t: Token, c: char) -> bool {
    t is Punct && t->Punct_0 == c
}

pub open spec fn is_ident(t: Token, name: Seq<char>) -> bool {
    t is Ident && t->Ident_0@ == name
}

/// The text of a literal with every double quote removed.
pub open spec fn without_quotes(s: Seq<char>) -> Seq<char>
    decreases s.len(),
{
    if s.len() == 0 {
        Seq::empty()
    } else if s.last() == '"' {
        without_quotes(s.drop_last())
    } else {
        without_quotes(s.drop_last()).push(s.last())
    }
}

/// How many tokens from `from` on come before the first punctuation.
pub open spec fn value_len(t: Seq<Token>, from: int) -> nat
    decreases t.len() - from,
{
    if from < 0 || from >= t.len() || t[from] is Punct {
        0
    } else {
        1 + value_len(t, from + 1)
    }
}

pub open spec fn min(a: int, b: int) -> int {
    if a < b {
        a
    } else {
        b
    }
}

/// The value tokens of the named argument `name = ...` at `pos`, if it
/// stands there: what follows the `=` up to the next punctuation.
pub open spec fn named_value(t: Seq<Token>, pos: int, name: Seq<char>) -> Option<Seq<Token>> {
    if 0 <= pos < t.len() && is_ident(t[pos], name) {
        let from = min(pos + 2, t.len() as int);
        Some(t.subrange(from, from + value_len(t, from)))
    } else {
        None
    }
}

/// Where reading goes on after the named argument at `pos`: past its name,
/// the `=`, its value and the comma that ends it.
pub open spec fn after_named(t: Seq<Token>, pos: int, v: Option<Seq<Token>>) -> int {
    match v {
        Some(value) => min(pos + value.len() + 3, t.len() as int),
        None => pos,
    }
}

/// An absent flag is on; a given one is on when its value is `true`.
pub open spec fn flag_of(v: Option<Seq<Token>>) -> bool {
    match v {
        Some(value) => value.len() == 1 && is_ident(value[0], "true"@),
        None => true,
    }
}

/// The languages after a first one: each behind a comma.
pub open spec fn more_langs(t: Seq<Token>, pos: int) -> Result<Seq<Seq<char>>, InitError>
    decreases t.len() - pos,
{
    if pos < 0 || pos >= t.len() || !is_punct(t[pos], ',') {
        Ok(Seq::empty())
    } else if pos + 1 < t.len() && t[pos + 1] is Ident {
        match more_langs(t, pos + 2) {
            Ok(ls) => Ok(seq![t[pos + 1]->Ident_0@] + ls),
            Err(e) => Err(e),
        }
    } else {
        Err(InitError::ExpectedLanguage)
    }
}

/// The language list that starts at `pos`.
pub open spec fn langs_from(t: Seq<Token>, pos: int) -> Result<Seq<Seq<char>>, InitError> {
    if pos < 0 || pos >= t.len() {
        Ok(Seq::empty())
    } else if t[pos] is Ident {
        match more_langs(t, pos + 1) {
            Ok(ls) => Ok(seq![t[pos]->Ident_0@] + ls),
            Err(e) => Err(e),
        }
    } else {
        Err(InitError::ExpectedLanguage)
    }
}

/// The configuration that the arguments `t` describe. The token after the
/// domain is read whatever it is; named arguments are looked for only when
/// it is a comma.
pub open spec fn init_config(t: Seq<Token>) -> Result<ConfigModel, InitError> {
    if t.len() == 0 {
        Err(InitError::MissingDomain)
    } else if !(t[0] is Literal) {
        Err(InitError::DomainNotString)
    } else {
        let has_opts = t.len() > 1 && is_punct(t[1], ',');
        let opts_at: int = if t.len() > 1 {
            2
        } else {
            1
        };
        let po = if has_opts {
            named_value(t, opts_at, "po"@)
        } else {
            None
        };
        let mo_at = after_named(t, opts_at, po);
        let mo = if has_opts {
            named_value(t, mo_at, "mo"@)
        } else {
            None
        };
        let langs_at = after_named(t, mo_at, mo);
        match langs_from(t, langs_at) {
            Ok(ls) => Ok(
                ConfigModel {
                    domain: without_quotes(t[0]->Literal_0@),
                    make_po: flag_of(po),
                    make_mo: flag_of(mo),
                    langs: ls,
                },
            ),
            Err(e) => Err(e),
        }
    }
}

pub open spec fn init_result_view(r: Result<Config, InitError>) -> Result<ConfigModel, InitError> {
    match r {
        Ok(c) => Ok(c@),
        Err(e) => Err(e),
    }
}

pub open spec fn prefix_langs(a: Seq<Seq<char>>, r: Result<Seq<Seq<char>>, InitError>) -> Result<
    Seq<Seq<char>>,
    InitError,
> {
    match r {
        Ok(ls) => Ok(a + ls),
        Err(e) => Err(e),
    }
}

fn strip_quotes(s: &str) -> (r: String)
    ensures
        r@ == without_quotes(s@),
{
    let n = s.unicode_len();
    let mut out = String::new();
    let mut i: usize = 0;
    while i < n
        invariant
            i <= n,
            n == s@.len(),
            out@ == without_quotes(s@.subrange(0, i as int)),
        decreases n - i,
    {
        let c = s.get_char(i);
        proof {
            assert(s@.subrange(0, i + 1).drop_last() =~= s@.subrange(0, i as int));
        }
        if c != '"' {
            let ghost before = out@;
            out.append(s.substring_char(i, i + 1));
            assert(out@ =~= before.push(c));
        }
        i = i + 1;
    }
    assert(s@.subrange(0, n as int) =~= s@);
    out
}

fn ident_is(t: &Token, name: &str) -> (r: bool)
    ensures
        r == is_ident(*t, name@),
{
    match t {
        Token::Ident(i) => {
            let s = String::from_str(name);
            *i == s
        },
        _ => false,
    }
}

fn is_comma(t: &Token) -> (r: bool)
    ensures
        r == is_punct(*t, ','),
{
    match t {
        Token::Punct(c) => *c == ',',
        _ => false,
    }
}

fn value_count(t: &[Token], from: usize) -> (r: usize)
    requires
        from <= t@.len(),
    ensures
        r == value_len(t@, from as int),
        from + r <= t@.len(),
{
    let mut j = from;
    while j < t.len()
        invariant
            from <= j <= t@.len(),
            value_len(t@, from as int) == (j - from) + value_len(t@, j as int),
        decreases t@.len() - j,
    {
        match &t[j] {
            Token::Punct(_) => {
                return j - from;
            },
            _ => {},
        }
        j = j + 1;
    }
    j - from
}

/// Reads the named argument `name` at `pos`: its flag value, and where
/// reading goes on.
fn read_named(t: &[Token], pos: usize, name: &str) -> (r: (bool, usize))
    requires
        pos <= t@.len(),
    ensures
        r.0 == flag_of(named_value(t@, pos as int, name@)),
        r.1 == after_named(t@, pos as int, named_value(t@, pos as int, name@)),
{
    let n = t.len();
    if pos < n && ident_is(&t[pos], name) {
        let from = if n - pos >= 2 {
            pos + 2
        } else {
            n
        };
        let k = value_count(t, from);
        let flag = k == 1 && ident_is(&t[from], "true");
        let next = if n - pos - k <= 3 {
            n
        } else {
            pos + k + 3
        };
        proof {
            let value = t@.subrange(from as int, from + k);
            assert(k == 1 ==> value[0] == t@[from as int]);
        }
        (flag, next)
    } else {
        (true, pos)
    }
}

/// The configuration that the initialisation arguments `tokens` describe.
pub fn parse_init_args(tokens: &[Token]) -> (r: Result<Config, InitError>)
    ensures
        init_result_view(r) == init_config(tokens@),
{
    let ghost t = tokens@;
    let n = tokens.len();
    if n == 0 {
        return Err(InitError::MissingDomain);
    }
    let domain = match &tokens[0] {
        Token::Literal(l) => strip_quotes(l.as_str()),
        _ => {
            return Err(InitError::DomainNotString);
        },
    };
    let has_opts = n > 1 && is_comma(&tokens[1]);
    let opts_at: usize = if n > 1 {
        2
    } else {
        1
    };
    let (make_po, mo_at) = if has_opts {
        read_named(tokens, opts_at, "po")
    } else {
        (true, opts_at)
    };
    let (make_mo, langs_at) = if has_opts {
        read_named(tokens, mo_at, "mo")
    } else {
        (true, mo_at)
    };
    let mut langs: Vec<String> = Vec::new();
    if langs_at < n {
        match &tokens[langs_at] {
            Token::Ident(s) => {
                langs.push(s.clone());
            },
            _ => {
                return Err(InitError::ExpectedLanguage);
            },
        }
        let mut pos = langs_at + 1;
        assert(views(langs@) =~= seq![t[langs_at as int]->Ident_0@]);
        while pos < n && is_comma(&tokens[pos])
            invariant
                t == tokens@,
                n == t.len(),
                langs_at < pos <= n,
                langs_from(t, langs_at as int) == prefix_langs(views(langs@), more_langs(t, pos as int)),
                langs_from(t, langs_at as int) is Err ==> init_config(t) == Err::<ConfigModel, InitError>(
                    langs_from(t, langs_at as int)->Err_0,
                ),
            decreases n - pos,
        {
            if pos + 1 < n {
                match &tokens[pos + 1] {
                    Token::Ident(s) => {
                        let ghost before = views(langs@);
                        langs.push(s.clone());
                        proof {
                            assert(views(langs@) =~= before + seq![s@]);
                            match more_langs(t, pos + 2) {
                                Ok(ls) => {
                                    assert(before + (seq![s@] + ls) =~= views(langs@) + ls);
                                },
                                Err(_) => {},
                            }
                        }
                    },
                    _ => {
                        return Err(InitError::ExpectedLanguage);
                    },
                }
            } else {
                return Err(InitError::ExpectedLanguage);
            }
            pos = pos + 2;
        }
        proof {
            assert(views(langs@) + Seq::<Seq<char>>::empty() =~= views(langs@));
        }
    } else {
        assert(views(langs@) =~= Seq::<Seq<char>>::empty());
    }
    Ok(Config { domain, make_po, make_mo, langs })
}

} // verus!
