use gettext_macros::paths::{
    config_path, crate_path, domain_path, join_path, mo_path, parent_dir, po_path, pot_path,
    translations_source_path, translations_target_path, BuildEnv,
};

fn env(ws: bool, target: Option<&str>) -> BuildEnv {
    BuildEnv {
        manifest_dir: "/w/app".to_string(),
        parent_is_workspace: ws,
        target_dir: target.map(String::from),
        package: "app".to_string(),
    }
}

#[test]
fn joins() {
    assert_eq!(join_path("a", "b"), "a/b");
    assert_eq!(join_path("a/", "b"), "a/b");
    assert_eq!(join_path("", "b"), "b");
}

#[test]
fn parents() {
    assert_eq!(parent_dir("/w/app").as_deref(), Some("/w"));
    assert_eq!(parent_dir("/w").as_deref(), Some("/"));
    assert_eq!(parent_dir("/"), None);
    assert_eq!(parent_dir("app").as_deref(), Some(""));
    assert_eq!(parent_dir(""), None);
}

#[test]
fn crate_root() {
    assert_eq!(crate_path(&env(false, None)), "/w/app");
    assert_eq!(crate_path(&env(true, None)), "/w");
}

#[test]
fn translation_paths() {
    let e = env(true, None);
    assert_eq!(translations_target_path(&e), "/w/target/translations");
    assert_eq!(domain_path(&e, "dom"), "/w/target/translations/.domains/dom");
    assert_eq!(translations_source_path(&e, "dom"), "/w/po/dom");
    assert_eq!(po_path(&e, "dom", "fr"), "/w/po/dom/fr.po");
    assert_eq!(pot_path(&e, "dom"), "/w/po/dom/dom.pot");
    let t = env(false, Some("/tmp/tgt"));
    assert_eq!(translations_target_path(&t), "/tmp/tgt/translations");
    assert_eq!(config_path(&t), "/tmp/tgt/gettext_macros/app");
    assert_eq!(mo_path(&t, "dom", "fr"), "/tmp/tgt/gettext_macros/fr/dom.mo");
    assert_eq!(config_path(&env(false, None)), "/w/app/target/debug/gettext_macros/app");
}
