use gettext_macros::init::{parse_init_args, InitError, Token};

fn lit(s: &str) -> Token {
    Token::Literal(s.to_string())
}
fn id(s: &str) -> Token {
    Token::Ident(s.to_string())
}
fn comma() -> Token {
    Token::Punct(',')
}
fn eq() -> Token {
    Token::Punct('=')
}

#[test]
fn domain_and_languages() {
    let t = vec![lit("\"test\""), comma(), id("fr"), comma(), id("en"), comma(), id("de"), comma(), id("ja")];
    let c = parse_init_args(&t).unwrap();
    assert_eq!(c.domain, "test");
    assert!(c.make_po && c.make_mo);
    assert_eq!(c.langs, vec!["fr", "en", "de", "ja"]);
}

#[test]
fn named_flags() {
    let t = vec![
        lit("\"my_app\""), comma(),
        id("po"), eq(), id("false"), comma(),
        id("mo"), eq(), id("true"), comma(),
        id("de"), comma(), id("en"),
    ];
    let c = parse_init_args(&t).unwrap();
    assert_eq!(c.domain, "my_app");
    assert!(!c.make_po);
    assert!(c.make_mo);
    assert_eq!(c.langs, vec!["de", "en"]);
}

#[test]
fn only_mo_flag() {
    let t = vec![lit("\"d\""), comma(), id("mo"), eq(), id("false"), comma(), id("eo")];
    let c = parse_init_args(&t).unwrap();
    assert!(c.make_po);
    assert!(!c.make_mo);
    assert_eq!(c.langs, vec!["eo"]);
}

#[test]
fn domain_only() {
    let c = parse_init_args(&[lit("\"d\"")]).unwrap();
    assert_eq!(c.domain, "d");
    assert!(c.langs.is_empty());
}

#[test]
fn errors() {
    assert_eq!(parse_init_args(&[]).unwrap_err(), InitError::MissingDomain);
    assert_eq!(parse_init_args(&[id("d")]).unwrap_err(), InitError::DomainNotString);
    assert_eq!(
        parse_init_args(&[lit("\"d\""), comma(), lit("\"fr\"")]).unwrap_err(),
        InitError::ExpectedLanguage
    );
    assert_eq!(
        parse_init_args(&[lit("\"d\""), comma(), id("fr"), comma()]).unwrap_err(),
        InitError::ExpectedLanguage
    );
    assert_eq!(
        parse_init_args(&[lit("\"d\""), comma(), id("fr"), comma(), Token::Group]).unwrap_err(),
        InitError::ExpectedLanguage
    );
}

#[test]
fn list_ends_at_first_non_comma() {
    let c = parse_init_args(&[lit("\"d\""), comma(), id("fr"), id("en")]).unwrap();
    assert_eq!(c.langs, vec!["fr"]);
}
