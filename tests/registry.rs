use gettext_macros::message::{
    marker, pending_entry, stanza, template_header, MessageRecord, SourceLocation, Template,
    TemplateEntry,
};

fn record(content: Option<&str>, context: Option<&str>, plural: Option<&str>) -> MessageRecord {
    MessageRecord {
        content: content.map(String::from),
        context: context.map(String::from),
        plural: plural.map(String::from),
        location: None,
    }
}

#[test]
fn marker_with_and_without_context() {
    assert_eq!(marker("Hello", &None), "msgid \"Hello\"");
    assert_eq!(marker("Hello", &Some("Greeting".to_string())), "msgctxt \"Greeting\"\nmsgid \"Hello\"");
}

#[test]
fn singular_stanza() {
    let m = record(Some("Hello"), None, None);
    assert_eq!(pending_entry("", &m).unwrap(), "\nmsgid \"Hello\"\nmsgstr \"\"\n");
}

#[test]
fn plural_stanza_with_context_and_location() {
    let mut m = record(Some("item"), Some("cart"), Some("items"));
    m.location = Some(SourceLocation { file: "src/main.rs".to_string(), line: 120 });
    assert_eq!(
        pending_entry("", &m).unwrap(),
        "\n#: src/main.rs:120\nmsgctxt \"cart\"\nmsgid \"item\"\nmsgid_plural \"items\"\nmsgstr[0] \"\"\nmsgstr[1] \"\"\n"
    );
}

#[test]
fn location_outside_tree_is_left_out() {
    let e = TemplateEntry {
        location: Some(SourceLocation { file: "/home/u/.cargo/registry/lib.rs".to_string(), line: 3 }),
        context: None,
        id: "Hi".to_string(),
        plural: None,
    };
    assert_eq!(stanza(&e), "\nmsgid \"Hi\"\nmsgstr \"\"\n");
    let e2 = TemplateEntry {
        location: Some(SourceLocation { file: "../other/lib.rs".to_string(), line: 0 }),
        ..e
    };
    assert_eq!(stanza(&e2), "\nmsgid \"Hi\"\nmsgstr \"\"\n");
}

#[test]
fn empty_or_non_literal_content_is_skipped() {
    assert!(pending_entry("", &record(Some(""), None, None)).is_none());
    assert!(pending_entry("", &record(None, Some("ctx"), None)).is_none());
}

#[test]
fn registering_twice_appends_once() {
    let m = record(Some("This should be translated"), None, None);
    let mut text = template_header("test", "nplurals=2; plural=(n != 1);");
    let first = pending_entry(&text, &m).expect("first registration appends");
    text.push_str(&first);
    assert!(pending_entry(&text, &m).is_none());
    assert_eq!(text.matches("msgid \"This should be translated\"").count(), 1);
}

#[test]
fn same_content_other_context_is_new() {
    let plain = record(Some("Hello"), None, None);
    let ctx = record(Some("Hello"), Some("Test context"), None);
    let mut text = String::new();
    text.push_str(&pending_entry(&text, &plain).unwrap());
    assert!(pending_entry(&text, &ctx).is_some());
}

#[test]
fn template_keeps_one_entry_per_pair() {
    let mut t = Template::new();
    let a = record(Some("Hello"), None, None);
    let b = record(Some("Hello"), Some("Test context"), None);
    t.record(&a);
    t.record(&b);
    t.record(&a);
    t.record(&b);
    t.record(&record(Some(""), None, None));
    t.record(&record(None, None, None));
    assert_eq!(t.entries().len(), 2);
    assert_eq!(t.entries()[0].id, "Hello");
    assert_eq!(t.entries()[0].context, None);
    assert_eq!(t.entries()[1].context.as_deref(), Some("Test context"));
    assert!(t.contains(&"Hello".to_string(), &None));
    assert!(!t.contains(&"Bye".to_string(), &None));
}

#[test]
fn template_render_and_missing() {
    let mut t = Template::new();
    t.record(&record(Some("Singular"), None, Some("Plural")));
    t.record(&record(Some("Hello"), None, None));
    let all = t.render();
    assert_eq!(
        all,
        "\nmsgid \"Singular\"\nmsgid_plural \"Plural\"\nmsgstr[0] \"\"\nmsgstr[1] \"\"\n\nmsgid \"Hello\"\nmsgstr \"\"\n"
    );
    let existing = "\nmsgid \"Singular\"\nmsgid_plural \"Plural\"\nmsgstr[0] \"\"\n";
    assert_eq!(t.missing_from(existing), "\nmsgid \"Hello\"\nmsgstr \"\"\n");
    assert_eq!(t.missing_from(&all), "");
}

#[test]
fn header_names_domain_and_plural_rule() {
    let h = template_header("my_app", "nplurals=2; plural=(n != 1);");
    assert!(h.starts_with("msgid \"\"\nmsgstr \"\"\n\"Project-Id-Version: my_app\\n\"\n"));
    assert!(h.ends_with("\"Plural-Forms: nplurals=2; plural=(n != 1);\\n\"\n"));
    assert_eq!(h.lines().count(), 13);
}

#[test]
fn large_line_number() {
    let mut m = record(Some("x"), None, None);
    m.location = Some(SourceLocation { file: "a.rs".to_string(), line: u32::MAX });
    assert!(pending_entry("", &m).unwrap().starts_with("\n#: a.rs:4294967295\n"));
    m.location = Some(SourceLocation { file: "a.rs".to_string(), line: 7 });
    assert!(pending_entry("", &m).unwrap().starts_with("\n#: a.rs:7\n"));
}

#[test]
fn plain_entry_after_context_entry_is_new() {
    let ctx = record(Some("c"), Some("x"), None);
    let plain = record(Some("c"), None, None);
    let plural = record(Some("c"), None, Some("cs"));
    let mut text = String::new();
    text.push_str(&pending_entry(&text, &ctx).unwrap());
    assert_eq!(pending_entry(&text, &plain).unwrap(), "\nmsgid \"c\"\nmsgstr \"\"\n");
    assert!(pending_entry(&text, &plural).is_some());
    text.push_str(&pending_entry(&text, &plain).unwrap());
    assert!(pending_entry(&text, &plain).is_none());
    assert!(pending_entry(&text, &ctx).is_none());
}

#[test]
fn markers_match_whole_lines_only() {
    let text = "\nmsgid \"cc\"\nmsgstr \"\"\n\nmsgid_plural \"c\"\n";
    assert!(pending_entry(text, &record(Some("c"), None, None)).is_some());
    assert!(pending_entry(text, &record(Some("cc"), None, None)).is_none());
    let ctx_other = "msgctxt \"y\"\nmsgid \"c\"\n";
    assert!(pending_entry(ctx_other, &record(Some("c"), Some("x"), None)).is_some());
    assert!(pending_entry(ctx_other, &record(Some("c"), Some("y"), None)).is_none());
}

#[test]
fn merge_keeps_plain_and_context_entries_apart() {
    let mut t = Template::new();
    t.record(&record(Some("c"), None, None));
    let existing = "\nmsgctxt \"x\"\nmsgid \"c\"\nmsgstr \"\"\n";
    let added = t.missing_from(existing);
    assert_eq!(added, "\nmsgid \"c\"\nmsgstr \"\"\n");
    let merged = format!("{}{}", existing, added);
    assert_eq!(t.missing_from(&merged), "");
}

#[test]
fn location_climbing_out_of_tree_is_left_out() {
    let entry = |file: &str| TemplateEntry {
        location: Some(SourceLocation { file: file.to_string(), line: 9 }),
        context: None,
        id: "Hi".to_string(),
        plural: None,
    };
    assert_eq!(stanza(&entry("src/../../x.rs")), "\nmsgid \"Hi\"\nmsgstr \"\"\n");
    assert_eq!(stanza(&entry("./../x.rs")), "\nmsgid \"Hi\"\nmsgstr \"\"\n");
    assert_eq!(stanza(&entry("src/../x.rs")), "\n#: src/../x.rs:9\nmsgid \"Hi\"\nmsgstr \"\"\n");
    assert_eq!(stanza(&entry("a/b/../../c.rs")), "\n#: a/b/../../c.rs:9\nmsgid \"Hi\"\nmsgstr \"\"\n");
    assert_eq!(stanza(&entry("..x/y.rs")), "\n#: ..x/y.rs:9\nmsgid \"Hi\"\nmsgstr \"\"\n");
}
