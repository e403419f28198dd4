use gettext_macros::config::Config;
use gettext_macros::paths::BuildEnv;
use gettext_macros::pipeline::{compile_domain_lang, load_all, plan_language, BuildError, ToolAction};

fn env() -> BuildEnv {
    BuildEnv {
        manifest_dir: "/w/app".to_string(),
        parent_is_workspace: false,
        target_dir: None,
        package: "app".to_string(),
    }
}

fn config(po: bool, mo: bool, langs: &[&str]) -> Config {
    Config {
        domain: "test".to_string(),
        make_po: po,
        make_mo: mo,
        langs: langs.iter().map(|s| s.to_string()).collect(),
    }
}

#[test]
fn first_sync_creates_source_from_template() {
    let plan = plan_language(&config(true, true, &["fr"]), &env(), "fr", false).unwrap();
    assert_eq!(plan.len(), 2);
    assert_eq!(plan[0].program(), "msginit");
    assert_eq!(
        plan[0].args(),
        vec![
            "--input=/w/app/po/test/test.pot",
            "--output-file=/w/app/po/test/fr.po",
            "--locale=fr",
            "--no-translator"
        ]
    );
    assert_eq!(plan[1].program(), "msgfmt");
    assert_eq!(
        plan[1].args(),
        vec!["--output-file=/w/app/target/debug/gettext_macros/fr/test.mo", "/w/app/po/test/fr.po"]
    );
}

#[test]
fn later_sync_merges() {
    let plan = plan_language(&config(true, false, &["fr"]), &env(), "fr", true).unwrap();
    assert_eq!(plan.len(), 1);
    assert_eq!(plan[0].program(), "msgmerge");
    assert_eq!(plan[0].args(), vec!["--update", "/w/app/po/test/fr.po", "/w/app/po/test/test.pot"]);
}

#[test]
fn compile_without_source_fails() {
    match plan_language(&config(false, true, &["fr"]), &env(), "fr", false) {
        Err(BuildError::CompileError { source }) => assert_eq!(source, "/w/app/po/test/fr.po"),
        other => panic!("unexpected {:?}", other),
    }
    assert!(plan_language(&config(false, false, &["fr"]), &env(), "fr", false).unwrap().is_empty());
}

#[test]
fn domain_lang_compiles_to_stdout() {
    let plan = compile_domain_lang(&env(), "test", "de", true);
    assert_eq!(plan[0].program(), "msgmerge");
    assert_eq!(plan[1].args(), vec!["--output-file=-", "/w/app/po/test/de.po"]);
}

#[test]
fn tool_outcomes() {
    let a = ToolAction::Compile { source: "x.po".to_string(), output: None };
    assert!(a.outcome(true, Some(0), "").is_ok());
    match a.outcome(false, None, "") {
        Err(BuildError::ExternalToolMissing { tool }) => assert_eq!(tool, "msgfmt"),
        other => panic!("unexpected {:?}", other),
    }
    match a.outcome(true, Some(1), "x.po:3: syntax error") {
        Err(BuildError::ExternalToolFailed { tool, status, stderr }) => {
            assert_eq!(tool, "msgfmt");
            assert_eq!(status, Some(1));
            assert_eq!(stderr, "x.po:3: syntax error");
        }
        other => panic!("unexpected {:?}", other),
    }
    assert!(matches!(a.outcome(true, None, ""), Err(BuildError::ExternalToolFailed { status: None, .. })));
}

#[test]
fn load_all_reports_first_missing_artifact() {
    let c = config(true, true, &["fr", "en"]);
    match load_all(&c, &env(), &[true, false]) {
        Err(BuildError::MissingArtifact { language, expected_path }) => {
            assert_eq!(language, "en");
            assert_eq!(expected_path, "/w/app/target/debug/gettext_macros/en/test.mo");
        }
        other => panic!("unexpected {:?}", other),
    }
    match load_all(&c, &env(), &[true]) {
        Err(BuildError::MissingArtifact { language, .. }) => assert_eq!(language, "en"),
        other => panic!("unexpected {:?}", other),
    }
}

#[test]
fn load_all_in_configured_order() {
    let c = config(true, true, &["fr", "en"]);
    let v = load_all(&c, &env(), &[true, true]).unwrap();
    assert_eq!(v.len(), 2);
    assert_eq!(v[0].language, "fr");
    assert_eq!(v[1].language, "en");
    assert_eq!(v[1].path, "/w/app/target/debug/gettext_macros/en/test.mo");
}
