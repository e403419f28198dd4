//! The build pipeline's decisions: which catalog tool runs for a language,
//! with which arguments, what its exit means, and which compiled catalogs the
//! loader takes. Running the tools and reading files is the caller's part.

use vstd::prelude::*;
use crate::config::{Config, views};
use crate::paths::{
    BuildEnv,
    artifacts_dir,
    mo_path,
    path_join,
    po_path,
    pot_path,
    translations_source_dir,
};

verus! {

/// One run of an external catalog tool.
#[derive(Debug, Clone)]
pub enum ToolAction {
    /// Pulls new template entries into an existing catalog source, keeping
    /// its translations.
    Merge { source: String, template: String },
    /// Creates a catalog source for `locale` holding every template entry,
    /// untranslated.
    Init { template: String, source: String, locale: String },
    /// Compiles a catalog source into a binary catalog, written to `output`
    /// or, without one, to standard output.
    Compile { source: String, output: Option<String> },
}

/// Why a build stage failed.
#[derive(Debug, Clone)]
pub enum BuildError {
    /// The tool could not be started.
    ExternalToolMissing { tool: String },
    /// The tool ended with a failure status (`None`: ended by a signal).
    ExternalToolFailed { tool: String, status: Option<i32>, stderr: String },
    /// A catalog source to compile is absent: it was neither there nor
    /// created, since source generation is off.
    CompileError { source: String },
    /// A compiled catalog that the loader needs is absent.
    MissingArtifact { language: String, expected_path: String },
}

/// A compiled catalog that the loader takes.
#[derive(Debug, Clone)]
pub struct Artifact {
    pub language: String,
    pub path: String,
}

pub open spec fn program_of(a: ToolAction) -> Seq<char> {
    match a {
        ToolAction::Merge { .. } => "msgmerge"@,
        ToolAction::Init { .. } => "msginit"@,
        ToolAction::Compile { .. } => "msgfmt"@,
    }
}

pub open spec fn args_of(a: ToolAction) -> Seq<Seq<char>> {
    match a {
        ToolAction::Merge { source, template } => seq!["--update"@, source@, template@],
        ToolAction::Init { template, source, locale } => seq![
            "--input="@ + template@,
            "--output-file="@ + source@,
            "--locale="@ + locale@,
            "--no-translator"@,
        ],
        ToolAction::Compile { source, output } => seq![
            "--output-file="@ + match output {
                Some(o) => o@,
                None => "-"@,
            },
            source@,
        ],
    }
}

pub open spec fn po_file(env: BuildEnv, domain: Seq<char>, lang: Seq<char>) -> Seq<char> {
    path_join(translations_source_dir(env, domain), lang + "."@ + "po"@)
}

pub open spec fn pot_file(env: BuildEnv, domain: Seq<char>) -> Seq<char> {
    path_join(translations_source_dir(env, domain), domain + "."@ + "pot"@)
}

pub open spec fn mo_file(env: BuildEnv, domain: Seq<char>, lang: Seq<char>) -> Seq<char> {
    path_join(path_join(artifacts_dir(env), lang), domain + "."@ + "mo"@)
}

/// The run that brings the catalog source of `lang` in line with the
/// template: a merge when the source exists, a creation otherwise.
pub open spec fn is_sync_action(
    a: ToolAction,
    env: BuildEnv,
    domain: Seq<char>,
    lang: Seq<char>,
    source_exists: bool,
) -> bool {
    if source_exists {
        a matches ToolAction::Merge { source, template } && source@ == po_file(env, domain, lang)
            && template@ == pot_file(env, domain)
    } else {
        a matches ToolAction::Init { template, source, locale } && template@ == pot_file(
            env,
            domain,
        ) && source@ == po_file(env, domain, lang) && locale@ == lang
    }
}

fn str_vec_push(v: &mut Vec<String>, s: &str)
    ensures
        final(v)@.len() == old(v)@.len() + 1,
        views(final(v)@) == views(old(v)@).push(s@),
{
    v.push(String::from_str(s));
    assert(views(final(v)@) =~= views(old(v)@).push(s@));
}

fn prefixed(prefix: &str, s: &str) -> (r: String)
    ensures
        r@ == prefix@ + s@,
{
    let mut out = String::from_str(prefix);
    out.append(s);
    out
}

impl ToolAction {
    /// The tool that this run starts.
    pub fn program(&self) -> (r: &'static str)
        ensures
            r@ == program_of(*self),
    {
        match self {
            ToolAction::Merge { .. } => "msgmerge",
            ToolAction::Init { .. } => "msginit",
            ToolAction::Compile { .. } => "msgfmt",
        }
    }

    /// The command-line arguments of this run.
    pub fn args(&self) -> (r: Vec<String>)
        ensures
            views(r@) == args_of(*self),
    {
        let mut v: Vec<String> = Vec::new();
        match self {
            ToolAction::Merge { source, template } => {
                str_vec_push(&mut v, "--update");
                str_vec_push(&mut v, source.as_str());
                str_vec_push(&mut v, template.as_str());
            },
            ToolAction::Init { template, source, locale } => {
                let a = prefixed("--input=", template.as_str());
                let b = prefixed("--output-file=", source.as_str());
                let c = prefixed("--locale=", locale.as_str());
                str_vec_push(&mut v, a.as_str());
                str_vec_push(&mut v, b.as_str());
                str_vec_push(&mut v, c.as_str());
                str_vec_push(&mut v, "--no-translator");
            },
            ToolAction::Compile { source, output } => {
                let a = match output {
                    Some(o) => prefixed("--output-file=", o.as_str()),
                    None => prefixed("--output-file=", "-"),
                };
                str_vec_push(&mut v, a.as_str());
                str_vec_push(&mut v, source.as_str());
            },
        }
        assert(views(v@) =~= args_of(*self));
        v
    }

    /// What a run of this action means: `spawned` tells whether the tool
    /// started, `exit_code` is its exit status, `stderr` what it printed
    /// there. Only a started run with status 0 succeeds.
    pub fn outcome(&self, spawned: bool, exit_code: Option<i32>, stderr: &str) -> (r: Result<
        (),
        BuildError,
    >)
        ensures
            !spawned ==> (r matches Err(BuildError::ExternalToolMissing { tool }) && tool@
                == program_of(*self)),
            spawned && exit_code == Some(0i32) ==> r is Ok,
            spawned && exit_code != Some(0i32) ==> (r matches Err(
                BuildError::ExternalToolFailed { tool, status, stderr: e },
            ) && tool@ == program_of(*self) && status == exit_code && e@ == stderr@),
    {
        let tool = String::from_str(self.program());
        if !spawned {
            return Err(BuildError::ExternalToolMissing { tool });
        }
        match exit_code {
            Some(0) => Ok(()),
            _ => Err(
                BuildError::ExternalToolFailed { tool, status: exit_code, stderr: String::from_str(stderr) },
            ),
        }
    }
}

fn sync_action(env: &BuildEnv, domain: &str, lang: &str, source_exists: bool) -> (r: ToolAction)
    ensures
        is_sync_action(r, *env, domain@, lang@, source_exists),
{
    let source = po_path(env, domain, lang);
    let template = pot_path(env, domain);
    if source_exists {
        ToolAction::Merge { source, template }
    } else {
        ToolAction::Init { template, source, locale: String::from_str(lang) }
    }
}

/// The tool runs that bring `lang` up to date, in order: the catalog source
/// is merged or created when source generation is on, then compiled into
/// its binary catalog when binary generation is on. `source_exists` tells
/// whether the catalog source is there beforehand. Compiling with no source
/// to read is a `CompileError`, and nothing runs.
pub fn plan_language(conf: &Config, env: &BuildEnv, lang: &str, source_exists: bool) -> (r: Result<
    Vec<ToolAction>,
    BuildError,
>)
    ensures
        conf.make_mo && !source_exists && !conf.make_po <==> r is Err,
        r matches Err(e) ==> e matches BuildError::CompileError { source } && source@ == po_file(
            *env,
            conf.domain@,
            lang@,
        ),
        r matches Ok(v) ==> {
            &&& v@.len() == (if conf.make_po {
                1int
            } else {
                0
            }) + (if conf.make_mo {
                1int
            } else {
                0
            })
            &&& conf.make_po ==> is_sync_action(v@[0], *env, conf.domain@, lang@, source_exists)
            &&& conf.make_mo ==> (v@.last() matches ToolAction::Compile { source, output }
                && source@ == po_file(*env, conf.domain@, lang@) && (output matches Some(o) && o@
                == mo_file(*env, conf.domain@, lang@)))
        },
{
    let domain = conf.domain.as_str();
    let mut v: Vec<ToolAction> = Vec::new();
    if conf.make_po {
        v.push(sync_action(env, domain, lang, source_exists));
    }
    if conf.make_mo {
        if !source_exists && !conf.make_po {
            return Err(BuildError::CompileError { source: po_path(env, domain, lang) });
        }
        let source = po_path(env, domain, lang);
        let output = mo_path(env, domain, lang);
        v.push(ToolAction::Compile { source, output: Some(output) });
    }
    Ok(v)
}

/// The tool runs that refresh the catalog source of `lang` from the template
/// and compile it to standard output: a merge or a creation, then a compile.
pub fn compile_domain_lang(env: &BuildEnv, domain: &str, lang: &str, source_exists: bool) -> (r: Vec<
    ToolAction,
>)
    ensures
        r@.len() == 2,
        is_sync_action(r@[0], *env, domain@, lang@, source_exists),
        r@[1] matches ToolAction::Compile { source, output } && source@ == po_file(
            *env,
            domain@,
            lang@,
        ) && output is None,
{
    let mut v: Vec<ToolAction> = Vec::new();
    v.push(sync_action(env, domain, lang, source_exists));
    v.push(ToolAction::Compile { source: po_path(env, domain, lang), output: None });
    v
}

pub open spec fn is_present(present: Seq<bool>, i: int) -> bool {
    0 <= i < present.len() && present[i]
}

/// The compiled catalogs of every configured language, in configured order.
/// `present[i]` tells whether the catalog of the `i`-th language exists (an
/// index past its end counts as absent). When one is absent the first such
/// language is reported and nothing else is returned.
pub fn load_all(conf: &Config, env: &BuildEnv, present: &[bool]) -> (r: Result<
    Vec<Artifact>,
    BuildError,
>)
    ensures
        r is Ok <==> forall|i: int| 0 <= i < conf.langs@.len() ==> is_present(present@, i),
        r matches Ok(v) ==> {
            &&& v@.len() == conf.langs@.len()
            &&& forall|i: int|
                0 <= i < v@.len() ==> (#[trigger] v@[i]).language@ == conf.langs@[i]@
                    && v@[i].path@ == mo_file(*env, conf.domain@, conf.langs@[i]@)
        },
        r matches Err(e) ==> exists|i: int|
            0 <= i < conf.langs@.len() && !is_present(present@, i) && (forall|j: int|
                0 <= j < i ==> is_present(present@, j)) && (e matches BuildError::MissingArtifact {
                language,
                expected_path,
            } && language@ == conf.langs@[i]@ && expected_path@ == mo_file(
                *env,
                conf.domain@,
                conf.langs@[i]@,
            )),
{
    let mut v: Vec<Artifact> = Vec::new();
    let mut i: usize = 0;
    while i < conf.langs.len()
        invariant
            i <= conf.langs@.len(),
            v@.len() == i,
            forall|j: int| 0 <= j < i ==> is_present(present@, j),
            forall|j: int|
                0 <= j < i ==> (#[trigger] v@[j]).language@ == conf.langs@[j]@ && v@[j].path@
                    == mo_file(*env, conf.domain@, conf.langs@[j]@),
        decreases conf.langs@.len() - i,
    {
        let lang = conf.langs[i].as_str();
        let path = mo_path(env, conf.domain.as_str(), lang);
        if i >= present.len() || !present[i] {
            let e = BuildError::MissingArtifact { language: conf.langs[i].clone(), expected_path: path };
            assert(!is_present(present@, i as int));
            return Err(e);
        }
        v.push(Artifact { language: conf.langs[i].clone(), path });
        i = i + 1;
    }
    Ok(v)
}

} // verus!
