//! Configuration of a changelog-generation run: the repository, the default (catch-all)
//! changelog, extra per-crate changelogs with the source roots that route to them, and the
//! paths ignored for routing.

use crate::paths::{self, add_path_first, add_path_last};
use crate::text::{self, chars_of, string_of};
use vstd::prelude::*;

verus! {

/// Command-line arguments accepted by a changelog-generation binary.
pub struct Args {
    /// Git ref to start the search from.
    ///
    /// Only required on the very first run, when the default changelog has no
    /// `git-changelog:last-commit` marker yet.
    pub since: Option<String>,
}

/// One or more source roots that route to a single changelog file.
pub struct ChangelogTarget {
    /// The changelog file this target routes to, repo-root-relative.
    pub file: String,
    /// Source roots that route a pull request's (non-ignored) changed paths to `file`.
    pub roots: Vec<String>,
}

/// The model of a [`ChangelogTarget`].
pub struct TargetModel {
    pub file: Seq<char>,
    pub roots: Seq<Seq<char>>,
}

impl View for ChangelogTarget {
    type V = TargetModel;

    open spec fn view(&self) -> TargetModel {
        TargetModel { file: self.file@, roots: text::string_views(self.roots@) }
    }
}

/// Configuration for a changelog-generation run.
///
/// Build one with [`Config::new`], optionally add extra per-crate changelogs with
/// [`Config::changelog`] and override the ignored paths with [`Config::ignore_paths`].
pub struct Config {
    /// The repository in `owner/name` form.
    pub repo: String,
    /// The repo-root-relative path to the primary (catch-all) changelog file.
    pub default_changelog: String,
    /// Additional registered changelog targets.
    pub changelogs: Vec<ChangelogTarget>,
    /// Repo-root-relative paths ignored for routing purposes.
    pub ignore_paths: Vec<String>,
}

/// The model of a [`Config`].
pub struct ConfigModel {
    pub repo: Seq<char>,
    pub default_changelog: Seq<char>,
    pub changelogs: Seq<TargetModel>,
    pub ignore_paths: Seq<Seq<char>>,
}

/// The models of a sequence of targets.
pub open spec fn target_views(v: Seq<ChangelogTarget>) -> Seq<TargetModel> {
    v.map_values(|t: ChangelogTarget| t@)
}

impl View for Config {
    type V = ConfigModel;

    open spec fn view(&self) -> ConfigModel {
        ConfigModel {
            repo: self.repo@,
            default_changelog: self.default_changelog@,
            changelogs: target_views(self.changelogs@),
            ignore_paths: text::string_views(self.ignore_paths@),
        }
    }
}

/// The views of string slices.
pub open spec fn str_views(v: Seq<&str>) -> Seq<Seq<char>> {
    v.map_values(|s: &str| s@)
}

/// The paths ignored for routing by default.
pub open spec fn default_ignores() -> Seq<Seq<char>> {
    seq!["Cargo.toml"@, "Cargo.lock"@]
}

/// Strings holding the given string slices.
pub fn strings_of_strs(v: &[&str]) -> (r: Vec<String>)
    ensures
        text::string_views(r@) == str_views(v@),
{
    let mut r: Vec<String> = Vec::new();
    let mut i: usize = 0;
    while i < v.len()
        invariant
            i <= v.len(),
            r@.len() == i,
            forall|k: int| 0 <= k < i ==> (#[trigger] r@[k])@ == v@[k]@,
        decreases v.len() - i,
    {
        r.push(string_of(&chars_of(v[i])));
        i += 1;
    }
    assert(text::string_views(r@) =~= str_views(v@));
    r
}

/// `["Cargo.toml", "Cargo.lock"]`.
pub fn default_ignore_paths() -> (r: Vec<String>)
    ensures
        text::string_views(r@) == default_ignores(),
{
    let mut r: Vec<String> = Vec::new();
    r.push(string_of(&chars_of("Cargo.toml")));
    r.push(string_of(&chars_of("Cargo.lock")));
    assert(text::string_views(r@) =~= default_ignores());
    r
}

/// The files of a sequence of targets, in order.
pub open spec fn target_files(ts: Seq<TargetModel>) -> Seq<Seq<char>> {
    ts.map_values(|t: TargetModel| t.file)
}

/// The registered changelog files collected into a sorted path set (the last of equal paths
/// kept).
pub open spec fn collect_files(files: Seq<Seq<char>>) -> Seq<Seq<char>>
    decreases files.len(),
{
    if files.len() == 0 {
        seq![]
    } else {
        paths::insert_path_last(collect_files(files.drop_last()), files.last())
    }
}

/// All changelog files of a configuration: the registered ones, then the default one unless an
/// equal path is already there; sorted by path.
pub open spec fn all_files(cfg: ConfigModel) -> Seq<Seq<char>> {
    paths::insert_path_first(collect_files(target_files(cfg.changelogs)), cfg.default_changelog)
}

/// The collected files are exactly the given ones, each path once.
proof fn lemma_collect_files(files: Seq<Seq<char>>)
    ensures
        paths::distinct_paths(collect_files(files)),
        forall|y: Seq<char>|
            #[trigger] paths::has_path(collect_files(files), y) <==> exists|i: int|
                0 <= i < files.len() && paths::path_eq(#[trigger] files[i], y),
    decreases files.len(),
{
    if files.len() > 0 {
        let p = files.drop_last();
        lemma_collect_files(p);
        paths::lemma_insert_path(collect_files(p), files.last());
        assert forall|y: Seq<char>| #[trigger] paths::has_path(collect_files(files), y) <==> exists|i: int|
            0 <= i < files.len() && paths::path_eq(#[trigger] files[i], y) by {
            if exists|i: int| 0 <= i < files.len() && paths::path_eq(#[trigger] files[i], y) {
                let i = choose|i: int| 0 <= i < files.len() && paths::path_eq(#[trigger] files[i], y);
                if i < files.len() - 1 {
                    assert(paths::path_eq(p[i], y));
                }
            }
            if exists|i: int| 0 <= i < p.len() && paths::path_eq(#[trigger] p[i], y) {
                let i = choose|i: int| 0 <= i < p.len() && paths::path_eq(#[trigger] p[i], y);
                assert(paths::path_eq(files[i], y));
            }
        }
    }
}

/// The changelog files of a configuration are the default one and every registered one, each
/// path once.
pub proof fn lemma_all_files(cfg: ConfigModel)
    ensures
        paths::distinct_paths(all_files(cfg)),
        forall|y: Seq<char>|
            #[trigger] paths::has_path(all_files(cfg), y) <==> (paths::path_eq(cfg.default_changelog, y)
                || exists|t: int|
                0 <= t < cfg.changelogs.len() && paths::path_eq(#[trigger] cfg.changelogs[t].file, y)),
{
    let files = target_files(cfg.changelogs);
    lemma_collect_files(files);
    paths::lemma_insert_path(collect_files(files), cfg.default_changelog);
    assert forall|y: Seq<char>| #[trigger] paths::has_path(all_files(cfg), y) <==> (paths::path_eq(
        cfg.default_changelog,
        y,
    ) || exists|t: int|
        0 <= t < cfg.changelogs.len() && paths::path_eq(#[trigger] cfg.changelogs[t].file, y)) by {
        if exists|t: int| 0 <= t < cfg.changelogs.len() && paths::path_eq(#[trigger] cfg.changelogs[t].file, y) {
            let t = choose|t: int| 0 <= t < cfg.changelogs.len() && paths::path_eq(#[trigger] cfg.changelogs[t].file, y);
            assert(files[t] == cfg.changelogs[t].file);
        }
        if exists|i: int| 0 <= i < files.len() && paths::path_eq(#[trigger] files[i], y) {
            let i = choose|i: int| 0 <= i < files.len() && paths::path_eq(#[trigger] files[i], y);
            assert(files[i] == cfg.changelogs[i].file);
        }
    }
}

impl Config {
    /// Creates a new configuration.
    ///
    /// `repo` is the GitHub repository which pull requests are resolved against, in
    /// `owner/name` form. `default_changelog` is the repo-root-relative path to the primary
    /// changelog file, which is also where the commit the changelog covers up to is recorded.
    pub fn new(repo: &str, default_changelog: &str) -> (r: Self)
        ensures
            r@ == (ConfigModel {
                repo: repo@,
                default_changelog: default_changelog@,
                changelogs: seq![],
                ignore_paths: default_ignores(),
            }),
    {
        let r = Config {
            repo: string_of(&chars_of(repo)),
            default_changelog: string_of(&chars_of(default_changelog)),
            changelogs: Vec::new(),
            ignore_paths: default_ignore_paths(),
        };
        assert(target_views(r.changelogs@) =~= Seq::<TargetModel>::empty());
        r
    }

    /// Registers an additional changelog file.
    ///
    /// Changes in any of the source roots in `roots` are routed to this changelog file. All
    /// paths are relative to the repository root.
    pub fn changelog(self, file: &str, roots: &[&str]) -> (r: Self)
        ensures
            r@ == (ConfigModel {
                changelogs: self@.changelogs.push(
                    TargetModel { file: file@, roots: str_views(roots@) },
                ),
                ..self@
            }),
    {
        let mut s = self;
        let ghost before = target_views(s.changelogs@);
        let t = ChangelogTarget { file: string_of(&chars_of(file)), roots: strings_of_strs(roots) };
        s.changelogs.push(t);
        assert(target_views(s.changelogs@) =~= before.push(
            TargetModel { file: file@, roots: str_views(roots@) },
        ));
        s
    }

    /// Sets the files which are ignored for routing purposes (by default `Cargo.toml` and
    /// `Cargo.lock`): a change to an ignored path routes nowhere by itself.
    pub fn ignore_paths(self, paths: &[&str]) -> (r: Self)
        ensures
            r@ == (ConfigModel { ignore_paths: str_views(paths@), ..self@ }),
    {
        let mut s = self;
        s.ignore_paths = strings_of_strs(paths);
        s
    }

    /// All changelog files known to this configuration (the default plus every registered
    /// extra changelog), deduplicated by path and sorted.
    pub fn all_changelog_files(&self) -> (r: Vec<String>)
        ensures
            text::string_views(r@) == all_files(self@),
    {
        let ghost files = target_files(target_views(self.changelogs@));
        let mut r: Vec<String> = Vec::new();
        let mut i: usize = 0;
        assert(files.take(0) =~= Seq::<Seq<char>>::empty());
        while i < self.changelogs.len()
            invariant
                i <= self.changelogs.len(),
                files == target_files(target_views(self.changelogs@)),
                text::string_views(r@) == collect_files(files.take(i as int)),
            decreases self.changelogs.len() - i,
        {
            let f = string_of(&chars_of(self.changelogs[i].file.as_str()));
            assert(files.take(i + 1).drop_last() =~= files.take(i as int));
            assert(files.take(i + 1).last() == f@);
            add_path_last(&mut r, f);
            i += 1;
        }
        assert(files.take(self.changelogs.len() as int) =~= files);
        let d = string_of(&chars_of(self.default_changelog.as_str()));
        add_path_first(&mut r, d);
        r
    }
}

} // verus!
