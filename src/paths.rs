//! Where the build artifacts live, computed from the build environment.
//!
//! Paths are text with `/` as separator. The environment is read once by the
//! caller and handed in as a `BuildEnv`.

use vstd::prelude::*;

verus! {

/// What the build environment says about the crate being built.
#[derive(Debug, Clone)]
pub struct BuildEnv {
    /// The directory of the crate's manifest.
    pub manifest_dir: String,
    /// Whether the parent of `manifest_dir` holds a workspace manifest.
    pub parent_is_workspace: bool,
    /// The target directory, when one is set explicitly.
    pub target_dir: Option<String>,
    /// The name of the package being built.
    pub package: String,
}

/// `name` appended to `base` as one more path component.
pub open spec fn path_join(base: Seq<char>, name: Seq<char>) -> Seq<char> {
    if base.len() == 0 {
        name
    } else if base.last() == '/' {
        base + name
    } else {
        base + "/"@ + name
    }
}

/// Index of the last `/` in `p`, if any.
pub open spec fn last_slash(p: Seq<char>) -> Option<int>
    decreases p.len(),
{
    if p.len() == 0 {
        None
    } else if p.last() == '/' {
        Some(p.len() - 1)
    } else {
        last_slash(p.drop_last())
    }
}

/// The directory that holds `p`: none for an empty path or the root, the
/// empty path for a bare name, the root for a name directly under it.
pub open spec fn parent_of(p: Seq<char>) -> Option<Seq<char>> {
    match last_slash(p) {
        None => if p.len() == 0 {
            None
        } else {
            Some(Seq::empty())
        },
        Some(k) => if k == 0 {
            if p.len() == 1 {
                None
            } else {
                Some("/"@)
            }
        } else {
            Some(p.subrange(0, k))
        },
    }
}

/// The root of the crate, or of its workspace when it is a member of one.
pub open spec fn crate_dir(env: BuildEnv) -> Seq<char> {
    if env.parent_is_workspace && parent_of(env.manifest_dir@) is Some {
        parent_of(env.manifest_dir@)->0
    } else {
        env.manifest_dir@
    }
}

pub open spec fn target_or(env: BuildEnv, fallback: Seq<char>) -> Seq<char> {
    match env.target_dir {
        Some(t) => t@,
        None => fallback,
    }
}

pub open spec fn translations_target_dir(env: BuildEnv) -> Seq<char> {
    path_join(target_or(env, path_join(crate_dir(env), "target"@)), "translations"@)
}

pub open spec fn translations_source_dir(env: BuildEnv, domain: Seq<char>) -> Seq<char> {
    path_join(path_join(crate_dir(env), "po"@), domain)
}

/// The directory of the compiled catalogs and of the persisted configuration.
pub open spec fn artifacts_dir(env: BuildEnv) -> Seq<char> {
    path_join(
        target_or(env, path_join(path_join(crate_dir(env), "target"@), "debug"@)),
        "gettext_macros"@,
    )
}

/// Joins `name` to `base` as one more path component.
pub fn join_path(base: &str, name: &str) -> (r: String)
    ensures
        r@ == path_join(base@, name@),
{
    let n = base.unicode_len();
    let mut out = String::from_str(base);
    if n > 0 && base.get_char(n - 1) != '/' {
        out.append("/");
    }
    out.append(name);
    out
}

/// The directory that holds `p`, as `parent_of` describes it.
pub fn parent_dir(p: &str) -> (r: Option<String>)
    ensures
        opt_seq(r) == parent_of(p@),
{
    let n = p.unicode_len();
    let mut i = n;
    assert(p@.subrange(0, n as int) =~= p@);
    while i > 0
        invariant
            i <= n,
            n == p@.len(),
            last_slash(p@) == last_slash(p@.subrange(0, i as int)),
        ensures
            i <= n,
            last_slash(p@) == last_slash(p@.subrange(0, i as int)),
            i == 0 || p@[i - 1] == '/',
        decreases i,
    {
        if p.get_char(i - 1) == '/' {
            break;
        }
        proof {
            assert(p@.subrange(0, i as int).drop_last() =~= p@.subrange(0, i - 1));
        }
        i = i - 1;
    }
    proof {
        if i == 0 {
            assert(p@.subrange(0, 0) =~= Seq::<char>::empty());
        } else {
            assert(last_slash(p@.subrange(0, i as int)) == Some(i - 1));
        }
    }
    if i == 0 {
        if n == 0 {
            None
        } else {
            Some(String::new())
        }
    } else if i == 1 {
        if n == 1 {
            None
        } else {
            Some(String::from_str("/"))
        }
    } else {
        Some(String::from_str(p.substring_char(0, i - 1)))
    }
}

pub open spec fn opt_seq(o: Option<String>) -> Option<Seq<char>> {
    match o {
        Some(s) => Some(s@),
        None => None,
    }
}

/// The root of the crate, or of its workspace when it is a member of one.
pub fn crate_path(env: &BuildEnv) -> (r: String)
    ensures
        r@ == crate_dir(*env),
{
    if env.parent_is_workspace {
        match parent_dir(env.manifest_dir.as_str()) {
            Some(p) => {
                return p;
            },
            None => {},
        }
    }
    env.manifest_dir.clone()
}

fn target_base(env: &BuildEnv, fallback: String) -> (r: String)
    ensures
        r@ == target_or(*env, fallback@),
{
    match &env.target_dir {
        Some(t) => t.clone(),
        None => fallback,
    }
}

/// `<target>/translations`: the translation artifacts of the crate.
pub fn translations_target_path(env: &BuildEnv) -> (r: String)
    ensures
        r@ == translations_target_dir(*env),
{
    let root = crate_path(env);
    let base = target_base(env, join_path(root.as_str(), "target"));
    join_path(base.as_str(), "translations")
}

/// `<target>/translations/.domains/<domain>`: the languages enabled for the
/// domain, one per line.
pub fn domain_path(env: &BuildEnv, domain: &str) -> (r: String)
    ensures
        r@ == path_join(path_join(translations_target_dir(*env), ".domains"@), domain@),
{
    let t = translations_target_path(env);
    let d = join_path(t.as_str(), ".domains");
    join_path(d.as_str(), domain)
}

/// `<crate>/po/<domain>`: the translation sources of the domain.
pub fn translations_source_path(env: &BuildEnv, domain: &str) -> (r: String)
    ensures
        r@ == translations_source_dir(*env, domain@),
{
    let root = crate_path(env);
    let po = join_path(root.as_str(), "po");
    join_path(po.as_str(), domain)
}

fn with_extension(stem: &str, ext: &str) -> (r: String)
    ensures
        r@ == stem@ + "."@ + ext@,
{
    let mut out = String::from_str(stem);
    out.append(".");
    out.append(ext);
    out
}

/// `<crate>/po/<domain>/<lang>.po`: the catalog source of one language.
pub fn po_path(env: &BuildEnv, domain: &str, lang: &str) -> (r: String)
    ensures
        r@ == path_join(translations_source_dir(*env, domain@), lang@ + "."@ + "po"@),
{
    let dir = translations_source_path(env, domain);
    let file = with_extension(lang, "po");
    join_path(dir.as_str(), file.as_str())
}

/// `<crate>/po/<domain>/<domain>.pot`: the message template of the domain.
pub fn pot_path(env: &BuildEnv, domain: &str) -> (r: String)
    ensures
        r@ == path_join(translations_source_dir(*env, domain@), domain@ + "."@ + "pot"@),
{
    let dir = translations_source_path(env, domain);
    let file = with_extension(domain, "pot");
    join_path(dir.as_str(), file.as_str())
}

/// `<target>/gettext_macros`: the compiled catalogs and the persisted
/// configuration.
pub fn artifacts_path(env: &BuildEnv) -> (r: String)
    ensures
        r@ == artifacts_dir(*env),
{
    let root = crate_path(env);
    let t = join_path(root.as_str(), "target");
    let base = target_base(env, join_path(t.as_str(), "debug"));
    join_path(base.as_str(), "gettext_macros")
}

/// `<target>/gettext_macros/<package>`: the persisted configuration of the
/// package being built.
pub fn config_path(env: &BuildEnv) -> (r: String)
    ensures
        r@ == path_join(artifacts_dir(*env), env.package@),
{
    let dir = artifacts_path(env);
    join_path(dir.as_str(), env.package.as_str())
}

/// `<target>/gettext_macros/<lang>`: the compiled catalogs of one language.
pub fn mo_dir(env: &BuildEnv, lang: &str) -> (r: String)
    ensures
        r@ == path_join(artifacts_dir(*env), lang@),
{
    let dir = artifacts_path(env);
    join_path(dir.as_str(), lang)
}

/// `<target>/gettext_macros/<lang>/<domain>.mo`: the compiled catalog of one
/// language.
pub fn mo_path(env: &BuildEnv, domain: &str, lang: &str) -> (r: String)
    ensures
        r@ == path_join(path_join(artifacts_dir(*env), lang@), domain@ + "."@ + "mo"@),
{
    let dir = mo_dir(env, lang);
    let file = with_extension(domain, "mo");
    join_path(dir.as_str(), file.as_str())
}

} // verus!
