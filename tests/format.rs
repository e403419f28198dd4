use gettext_macros::{try_format, FormatError};

fn args(v: &[&str]) -> Vec<String> {
    v.iter().map(|s| s.to_string()).collect()
}

#[test]
fn explicit_index() {
    assert_eq!(try_format("Hello {0}!", &args(&["World"])).unwrap(), "Hello World!");
}

#[test]
fn implicit_index() {
    assert_eq!(try_format("Hello {}!", &args(&["World"])).unwrap(), "Hello World!");
}

#[test]
fn reordered_indices() {
    assert_eq!(try_format("{1} {0}", &args(&["x", "y"])).unwrap(), "y x");
}

#[test]
fn unmatched_open_brace() {
    assert_eq!(try_format("Unmatched {", &args(&[])), Err(FormatError::UnmatchedDelimiter));
}

#[test]
fn missing_argument() {
    assert_eq!(try_format("{5}", &args(&["only one arg"])), Err(FormatError::MissingArgument(5)));
}

#[test]
fn implicit_counter_ignores_explicit() {
    assert_eq!(try_format("{} {5} {} {0}", &args(&["a", "b", "c", "d", "e", "f"])).unwrap(), "a f b a");
}

#[test]
fn implicit_missing_argument() {
    assert_eq!(try_format("{} and {}", &args(&["one"])), Err(FormatError::MissingArgument(1)));
}

#[test]
fn stray_close_brace() {
    assert_eq!(try_format("a } b", &args(&["x"])), Err(FormatError::UnmatchedDelimiter));
}

#[test]
fn open_brace_inside_placeholder() {
    assert_eq!(try_format("{a{0}", &args(&["x"])), Err(FormatError::UnmatchedDelimiter));
}

#[test]
fn invalid_positional_argument() {
    assert_eq!(try_format("{x}", &args(&["x"])), Err(FormatError::InvalidPositionalArgument));
    assert_eq!(try_format("{-1}", &args(&["x"])), Err(FormatError::InvalidPositionalArgument));
}

#[test]
fn index_too_large_for_usize() {
    assert_eq!(
        try_format("{99999999999999999999999}", &args(&["x"])),
        Err(FormatError::InvalidPositionalArgument)
    );
}

#[test]
fn first_fault_decides() {
    assert_eq!(try_format("{3} {", &args(&[])), Err(FormatError::MissingArgument(3)));
    assert_eq!(try_format("{ {3}", &args(&[])), Err(FormatError::UnmatchedDelimiter));
}

#[test]
fn plain_text_and_empty_pattern() {
    assert_eq!(try_format("", &args(&[])).unwrap(), "");
    assert_eq!(try_format("no placeholders: héllo", &args(&["x"])).unwrap(), "no placeholders: héllo");
}

#[test]
fn multi_digit_index_and_unicode_argument() {
    let a = args(&["0", "1", "2", "3", "4", "5", "6", "7", "8", "9", "dix", "onze", "zwölf"]);
    assert_eq!(try_format("[{12}]", &a).unwrap(), "[zwölf]");
}
