use gettext_macros::config::{languages_text, split_lines, Config, ConfigError};

fn config(domain: &str, po: bool, mo: bool, langs: &[&str]) -> Config {
    Config {
        domain: domain.to_string(),
        make_po: po,
        make_mo: mo,
        langs: langs.iter().map(|s| s.to_string()).collect(),
    }
}

#[test]
fn writes_one_field_per_line() {
    let c = config("test", true, false, &["fr", "en", "de", "ja"]);
    assert_eq!(c.to_text(), "test\ntrue\nfalse\nfr\nen\nde\nja\n");
}

#[test]
fn reads_back_what_was_written() {
    let c = config("my_app", false, true, &["fr", "en"]);
    let back = Config::from_text(&c.to_text()).unwrap();
    assert_eq!(back.domain, "my_app");
    assert!(!back.make_po);
    assert!(back.make_mo);
    assert_eq!(back.langs, vec!["fr".to_string(), "en".to_string()]);
}

#[test]
fn reads_crlf_and_missing_final_newline() {
    let c = Config::from_text("d\r\ntrue\r\ntrue\r\nfr\r\nen").unwrap();
    assert_eq!(c.domain, "d");
    assert_eq!(c.langs, vec!["fr".to_string(), "en".to_string()]);
}

#[test]
fn no_languages() {
    let c = Config::from_text("d\ntrue\nfalse\n").unwrap();
    assert!(c.langs.is_empty());
}

#[test]
fn malformed_text() {
    assert!(matches!(Config::from_text(""), Err(ConfigError::Malformed)));
    assert!(matches!(Config::from_text("d\ntrue\n"), Err(ConfigError::Malformed)));
    assert!(matches!(Config::from_text("d\nyes\ntrue\n"), Err(ConfigError::Malformed)));
    assert!(matches!(Config::from_text("d\ntrue\nTrue\n"), Err(ConfigError::Malformed)));
}

#[test]
fn lines_like_std() {
    for text in ["", "a", "a\n", "a\n\nb", "a\r\nb\r", "\n\n", "x\ry\n"] {
        let expected: Vec<String> = std::io::BufRead::lines(text.as_bytes()).map(|l| l.unwrap()).collect();
        assert_eq!(split_lines(text), expected, "text {:?}", text);
    }
}

#[test]
fn domain_file_text() {
    let langs = vec!["en".to_string(), "fr".to_string(), "de".to_string()];
    assert_eq!(languages_text(&langs), "en\nfr\nde\n");
    assert_eq!(languages_text(&[]), "");
}
