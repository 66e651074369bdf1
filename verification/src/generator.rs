//! The decisions of index generation for one profile: paths, template variables, and the
//! programs to run.
use vstd::prelude::*;

use crate::config::{keys_in_order, CommandSpec, GitTool, Profile};
use crate::order::{lemma_text_less_irreflexive, text_less};
use crate::paths::{has_root, is_absolute, join_path, joined_path, path_starts_with, starts_with_path};
use crate::template::{rendered, TemplateError, TemplateFailure, Variables};
use crate::text::{chars_of, decimal, decimal_string, push_char, string_of};

verus! {

/// Options of index generation; every directory is a path string.
pub struct GenerateOptions {
    pub output_dir: String,
    pub work_dir: String,
    pub tools_dir: String,
    pub jobs: usize,
    pub index_jobs: usize,
    pub scip_clang: Option<String>,
    pub dry_run: bool,
    pub skip_build: bool,
}

/// Index generation for one profile.
pub struct Generator {
    pub profile: Profile,
    /// The options, with absolute directories.
    pub options: GenerateOptions,
    /// The checkout of the profile's repository.
    pub repo_dir: String,
    /// The indexer program, once chosen.
    pub scip_clang: String,
    /// Directories put before `PATH` for every program.
    pub path_entries: Vec<String>,
    pub variables: Variables,
}

/// Why a generation step was refused.
pub enum GeneratorFailure {
    Template(TemplateFailure),
    OutputOutsideOutputDir(Seq<char>),
    CheckoutNotGit(Seq<char>),
    ToolNotGit(Seq<char>),
}

/// A generation error.
#[derive(Debug)]
pub enum GeneratorError {
    /// A template did not render.
    Template(TemplateError),
    /// `profile output must remain under --output-dir: {path}`
    OutputOutsideOutputDir(String),
    /// `checkout path exists but is not a Git repository: {path}`
    CheckoutNotGit(String),
    /// `tool destination exists but is not a Git checkout: {destination}`
    ToolNotGit(String),
}

impl View for GeneratorError {
    type V = GeneratorFailure;

    open spec fn view(&self) -> GeneratorFailure {
        match self {
            GeneratorError::Template(e) => GeneratorFailure::Template(e@),
            GeneratorError::OutputOutsideOutputDir(p) => GeneratorFailure::OutputOutsideOutputDir(p@),
            GeneratorError::CheckoutNotGit(p) => GeneratorFailure::CheckoutNotGit(p@),
            GeneratorError::ToolNotGit(p) => GeneratorFailure::ToolNotGit(p@),
        }
    }
}

/// `path` made absolute against the current directory `cwd`.
pub open spec fn absolute_path(path: Seq<char>, cwd: Seq<char>) -> Seq<char> {
    if has_root(path) {
        path
    } else {
        joined_path(cwd, path)
    }
}

/// `path` made absolute against `cwd`.
pub fn absolute(path: &str, cwd: &str) -> (out: String)
    ensures
        out@ == absolute_path(path@, cwd@),
{
    let p = chars_of(path);
    if is_absolute(&p) {
        path.to_owned()
    } else {
        string_of(&join_path(&chars_of(cwd), &p))
    }
}

/// The checkout directory of a profile.
pub open spec fn checkout_dir(p: Profile) -> Seq<char> {
    match p.repository.directory {
        Some(d) => d@,
        None => p.name@,
    }
}

/// `m` with the `vars` set in order, later values winning.
pub open spec fn with_variables(m: Map<Seq<char>, Seq<char>>, vars: Seq<(String, String)>) -> Map<
    Seq<char>,
    Seq<char>,
>
    decreases vars.len(),
{
    if vars.len() == 0 {
        m
    } else {
        with_variables(m, vars.drop_last()).insert(vars.last().0@, vars.last().1@)
    }
}

/// Every variable of a list whose keys are in order, each once, is set to its own value by
/// `with_variables`, whatever the table it starts from.
pub proof fn law_listed_variables_are_set(base: Map<Seq<char>, Seq<char>>, vars: Seq<(String, String)>, i: int)
    requires
        keys_in_order(vars),
        0 <= i < vars.len(),
    ensures
        with_variables(base, vars).contains_key(vars[i].0@),
        with_variables(base, vars)[vars[i].0@] == vars[i].1@,
    decreases vars.len(),
{
    if i < vars.len() - 1 {
        let prev = vars.drop_last();
        assert forall|a: int, b: int| 0 <= a < b < prev.len() implies text_less(
            #[trigger] prev[a].0@,
            #[trigger] prev[b].0@,
        ) by {
            assert(prev[a] == vars[a] && prev[b] == vars[b]);
        }
        law_listed_variables_are_set(base, prev, i);
        assert(prev[i] == vars[i]);
        assert(text_less(vars[i].0@, vars[vars.len() - 1].0@));
        lemma_text_less_irreflexive(vars[i].0@);
    }
}

/// The variables that every profile's templates can use.
pub open spec fn builtin_variables(
    name: Seq<char>,
    repo_dir: Seq<char>,
    work_dir: Seq<char>,
    output_dir: Seq<char>,
    tools_dir: Seq<char>,
    jobs: nat,
    index_jobs: nat,
) -> Map<Seq<char>, Seq<char>> {
    Map::empty().insert("name"@, name).insert("repo"@, name).insert("repo_dir"@, repo_dir).insert(
        "work_dir"@,
        work_dir,
    ).insert("output_dir"@, output_dir).insert("tools_dir"@, tools_dir).insert(
        "jobs"@,
        decimal(jobs),
    ).insert("index_jobs"@, decimal(index_jobs))
}

/// What a template renders to, with a failure as a generation failure.
pub open spec fn render_outcome(vars: Map<Seq<char>, Seq<char>>, input: Seq<char>) -> Result<
    Seq<char>,
    GeneratorFailure,
> {
    match rendered(vars, input) {
        Ok(r) => Ok(r),
        Err(f) => Err(GeneratorFailure::Template(f)),
    }
}

/// A result of generation seen through views.
pub open spec fn text_outcome(res: Result<String, GeneratorError>) -> Result<Seq<char>, GeneratorFailure> {
    match res {
        Ok(s) => Ok(s@),
        Err(e) => Err(e@),
    }
}

impl Generator {
    /// Sets up generation of `profile` with `options`, whose relative directories are taken
    /// against the current directory `current_dir`.
    pub fn new(profile: Profile, options: GenerateOptions, current_dir: &str) -> (out: Self)
        ensures
            out.profile == profile,
            out.options.output_dir@ == absolute_path(options.output_dir@, current_dir@),
            out.options.work_dir@ == absolute_path(options.work_dir@, current_dir@),
            out.options.tools_dir@ == absolute_path(options.tools_dir@, current_dir@),
            out.options.jobs == options.jobs,
            out.options.index_jobs == options.index_jobs,
            out.options.scip_clang == options.scip_clang,
            out.options.dry_run == options.dry_run,
            out.options.skip_build == options.skip_build,
            out.repo_dir@ == joined_path(out.options.work_dir@, checkout_dir(profile)),
            out.scip_clang@ == Seq::<char>::empty(),
            out.path_entries@ == Seq::<String>::empty(),
            out.variables@ == with_variables(
                builtin_variables(
                    profile.name@,
                    out.repo_dir@,
                    out.options.work_dir@,
                    out.options.output_dir@,
                    out.options.tools_dir@,
                    options.jobs as nat,
                    options.index_jobs as nat,
                ),
                profile.variables@,
            ),
    {
        let output_dir = absolute(options.output_dir.as_str(), current_dir);
        let work_dir = absolute(options.work_dir.as_str(), current_dir);
        let tools_dir = absolute(options.tools_dir.as_str(), current_dir);
        let checkout = profile.checkout_directory();
        let repo_dir = string_of(&join_path(&chars_of(work_dir.as_str()), &chars_of(checkout.as_str())));
        let mut variables = Variables::new();
        variables.insert("name", profile.name.as_str());
        variables.insert("repo", profile.name.as_str());
        variables.insert("repo_dir", repo_dir.as_str());
        variables.insert("work_dir", work_dir.as_str());
        variables.insert("output_dir", output_dir.as_str());
        variables.insert("tools_dir", tools_dir.as_str());
        variables.insert("jobs", decimal_string(options.jobs).as_str());
        variables.insert("index_jobs", decimal_string(options.index_jobs).as_str());
        let ghost base = variables@;
        let mut i: usize = 0;
        while i < profile.variables.len()
            invariant
                i <= profile.variables@.len(),
                variables@ == with_variables(base, profile.variables@.take(i as int)),
            decreases profile.variables@.len() - i,
        {
            let (key, value) = &profile.variables[i];
            variables.insert(key.as_str(), value.as_str());
            assert(profile.variables@.take(i + 1).drop_last() =~= profile.variables@.take(i as int));
            i += 1;
        }
        assert(profile.variables@.take(profile.variables@.len() as int) =~= profile.variables@);
        let options = GenerateOptions {
            output_dir,
            work_dir,
            tools_dir,
            jobs: options.jobs,
            index_jobs: options.index_jobs,
            scip_clang: options.scip_clang,
            dry_run: options.dry_run,
            skip_build: options.skip_build,
        };
        Generator {
            profile,
            options,
            repo_dir,
            scip_clang: String::new(),
            path_entries: Vec::new(),
            variables,
        }
    }

    /// The file that records the cache key of the last generated index.
    pub fn cache_path(&self) -> (out: String)
        ensures
            out@ == joined_path(
                self.options.output_dir@,
                seq!['.'] + self.profile.name@ + ".scip-cache"@,
            ),
    {
        let mut name = String::new();
        push_char(&mut name, '.');
        name.append(self.profile.name.as_str());
        name.append(".scip-cache");
        string_of(&join_path(&chars_of(self.options.output_dir.as_str()), &chars_of(name.as_str())))
    }

    fn render(&self, input: &str) -> (res: Result<String, GeneratorError>)
        ensures
            text_outcome(res) == render_outcome(self.variables@, input@),
    {
        match self.variables.render(input) {
            Ok(s) => Ok(s),
            Err(e) => Err(GeneratorError::Template(e)),
        }
    }

    /// Where the index is written: the rendered output template, taken under the output
    /// directory when relative; refused unless it lies under the output directory.
    pub fn output_path(&self) -> (res: Result<String, GeneratorError>)
        ensures
            text_outcome(res) == match render_outcome(self.variables@, self.profile.index.output@) {
                Err(f) => Err(f),
                Ok(r) => {
                    let out = absolute_path(r, self.options.output_dir@);
                    if path_starts_with(out, self.options.output_dir@) {
                        Ok(out)
                    } else {
                        Err(GeneratorFailure::OutputOutsideOutputDir(out))
                    }
                },
            },
    {
        let rendered = self.render(self.profile.index.output.as_str())?;
        let output = absolute(rendered.as_str(), self.options.output_dir.as_str());
        if !starts_with_path(&chars_of(output.as_str()), &chars_of(self.options.output_dir.as_str())) {
            return Err(GeneratorError::OutputOutsideOutputDir(output));
        }
        Ok(output)
    }
}

/// The version of the indexer that generation installs and records in cache keys.
pub const SCIP_CLANG_VERSION: &'static str = "v0.4.0";

/// A program to run, with its arguments and working directory.
pub struct ProgramRun {
    pub program: String,
    pub args: Vec<String>,
    /// The working directory; the current one when `None`.
    pub cwd: Option<String>,
}

/// A program run as plain values.
pub struct RunPlan {
    pub program: Seq<char>,
    pub args: Seq<Seq<char>>,
    pub cwd: Option<Seq<char>>,
}

/// The views of strings.
pub open spec fn texts(v: Seq<String>) -> Seq<Seq<char>> {
    v.map_values(|s: String| s@)
}

/// The view of an optional string.
pub open spec fn opt_text(o: Option<String>) -> Option<Seq<char>> {
    match o {
        Some(s) => Some(s@),
        None => None,
    }
}

impl View for ProgramRun {
    type V = RunPlan;

    open spec fn view(&self) -> RunPlan {
        RunPlan { program: self.program@, args: texts(self.args@), cwd: opt_text(self.cwd) }
    }
}

/// The views of program runs.
pub open spec fn plans(v: Seq<ProgramRun>) -> Seq<RunPlan> {
    v.map_values(|r: ProgramRun| r@)
}

/// The runs that bring the checkout at `repo_dir` to the wanted revision: a shallow clone of
/// `url` when there is no checkout yet; then a fetch and detached checkout of `revision` when the
/// profile pins one, or of the upstream head when an existing checkout is reused.
pub open spec fn clone_plan(
    url: Seq<char>,
    depth: Seq<char>,
    repo_dir: Seq<char>,
    revision: Option<Seq<char>>,
    existing_checkout: bool,
) -> Seq<RunPlan> {
    let clone = if existing_checkout {
        Seq::empty()
    } else {
        seq![RunPlan { program: "git"@, args: seq!["clone"@, "--depth"@, depth, url, repo_dir], cwd: None }]
    };
    let checkout = RunPlan {
        program: "git"@,
        args: seq!["checkout"@, "--detach"@, "FETCH_HEAD"@],
        cwd: Some(repo_dir),
    };
    let update = match revision {
        Some(r) => seq![
            RunPlan { program: "git"@, args: seq!["fetch"@, "--depth"@, depth, "origin"@, r], cwd: Some(repo_dir) },
            checkout,
        ],
        None => if existing_checkout {
            seq![
                RunPlan {
                    program: "git"@,
                    args: seq!["fetch"@, "--depth"@, depth, "origin"@, "HEAD"@],
                    cwd: Some(repo_dir),
                },
                checkout,
            ]
        } else {
            Seq::empty()
        },
    };
    clone + update
}

/// Each of `items` rendered, in order; the first failure stops.
pub open spec fn render_all(vars: Map<Seq<char>, Seq<char>>, items: Seq<Seq<char>>) -> Result<
    Seq<Seq<char>>,
    GeneratorFailure,
>
    decreases items.len(),
{
    if items.len() == 0 {
        Ok(Seq::empty())
    } else {
        match render_outcome(vars, items[0]) {
            Err(f) => Err(f),
            Ok(r) => match render_all(vars, items.drop_first()) {
                Ok(rs) => Ok(seq![r] + rs),
                Err(f) => Err(f),
            },
        }
    }
}

proof fn lemma_render_all_len(vars: Map<Seq<char>, Seq<char>>, items: Seq<Seq<char>>)
    ensures
        render_all(vars, items) matches Ok(rs) ==> rs.len() == items.len(),
    decreases items.len(),
{
    if items.len() > 0 {
        lemma_render_all_len(vars, items.drop_first());
    }
}

/// A list result of generation seen through views.
pub open spec fn texts_outcome(res: Result<Vec<String>, GeneratorError>) -> Result<
    Seq<Seq<char>>,
    GeneratorFailure,
> {
    match res {
        Ok(v) => Ok(texts(v@)),
        Err(e) => Err(e@),
    }
}

fn owned(s: &str) -> (out: String)
    ensures
        out@ == s@,
{
    s.to_owned()
}

fn concat(a: &str, b: &str) -> (out: String)
    ensures
        out@ == a@ + b@,
{
    let mut out = a.to_owned();
    out.append(b);
    out
}

/// Whether the index at the output path can be reused: not in a dry run, the index is a file of
/// at least 1024 bytes, and the recorded cache key equals `key`, or, with no record, the checkout
/// did not change.
pub open spec fn index_reusable(
    dry_run: bool,
    output_is_file: bool,
    output_len: u64,
    record: Option<Seq<char>>,
    key: Seq<char>,
    checkout_changed: bool,
) -> bool {
    if dry_run || !output_is_file || output_len < 1024 {
        false
    } else {
        match record {
            Some(stored) => stored == key,
            None => !checkout_changed,
        }
    }
}

/// Whether a previously generated index can be reused; `record` is the stored cache key, or
/// `None` when none is stored.
pub fn cached_index_is_current(
    dry_run: bool,
    output_is_file: bool,
    output_len: u64,
    record: &Option<String>,
    key: &str,
    checkout_changed: bool,
) -> (res: bool)
    ensures
        res == index_reusable(dry_run, output_is_file, output_len, opt_text(*record), key@, checkout_changed),
{
    if dry_run || !output_is_file || output_len < 1024 {
        return false;
    }
    match record {
        Some(stored) => *stored == owned(key),
        None => !checkout_changed,
    }
}

/// Whether the checkout changed: it is new, or its head moved.
pub fn checkout_changed(
    existing_checkout: bool,
    previous_head: &Option<String>,
    current_head: &Option<String>,
) -> (res: bool)
    ensures
        res == (!existing_checkout || opt_text(*previous_head) != opt_text(*current_head)),
{
    if !existing_checkout {
        return true;
    }
    match (previous_head, current_head) {
        (Some(a), Some(b)) => !(*a == *b),
        (None, None) => false,
        _ => true,
    }
}

/// The text of a cache key: indexer version, checkout commit and the serialized profile.
pub open spec fn cache_key_of(commit: Seq<char>, profile: Seq<char>) -> Seq<char> {
    "scip-clang="@ + SCIP_CLANG_VERSION@ + seq!['\n'] + "commit="@ + commit + seq!['\n'] + "profile="@
        + profile + seq!['\n']
}

/// The cache key of an index built from `commit` with the profile serialized as `profile`.
pub fn cache_key_text(commit: &str, profile: &str) -> (out: String)
    ensures
        out@ == cache_key_of(commit@, profile@),
{
    let mut out = owned("scip-clang=");
    out.append(SCIP_CLANG_VERSION);
    push_char(&mut out, '\n');
    out.append("commit=");
    out.append(commit);
    push_char(&mut out, '\n');
    out.append("profile=");
    out.append(profile);
    push_char(&mut out, '\n');
    out
}

impl Generator {
    fn render_list(&self, items: &Vec<String>) -> (res: Result<Vec<String>, GeneratorError>)
        ensures
            texts_outcome(res) == render_all(self.variables@, texts(items@)),
    {
        let mut out: Vec<String> = Vec::new();
        let mut i: usize = 0;
        assert(texts(items@).skip(0) =~= texts(items@));
        while i < items.len()
            invariant
                i <= items@.len(),
                render_all(self.variables@, texts(items@)) == match render_all(
                    self.variables@,
                    texts(items@).skip(i as int),
                ) {
                    Ok(rs) => Ok(texts(out@) + rs),
                    Err(f) => Err(f),
                },
            decreases items@.len() - i,
        {
            let ghost rest = texts(items@).skip(i as int);
            assert(rest[0] == items@[i as int]@);
            assert(rest.drop_first() =~= texts(items@).skip(i + 1));
            let r = self.render(items[i].as_str())?;
            let ghost before = out@;
            out.push(r);
            proof {
                assert(texts(out@) =~= texts(before).push(r@));
                match render_all(self.variables@, texts(items@).skip(i + 1)) {
                    Ok(rs) => {
                        assert(texts(before) + (seq![r@] + rs) =~= texts(out@) + rs);
                    },
                    Err(_) => {},
                }
            }
            i += 1;
        }
        proof {
            assert(texts(items@).skip(i as int) =~= Seq::<Seq<char>>::empty());
            assert(texts(out@) + Seq::<Seq<char>>::empty() =~= texts(out@));
        }
        Ok(out)
    }

    /// Whether the checkout directory is a Git checkout to reuse, given whether it holds a
    /// `.git` directory and whether it exists at all: one that exists without `.git` is
    /// refused; one that does not exist is to be cloned.
    pub fn existing_checkout(&self, has_git_dir: bool, exists: bool) -> (res: Result<bool, GeneratorError>)
        ensures
            has_git_dir ==> res == Ok::<bool, GeneratorError>(true),
            !has_git_dir && !exists ==> res == Ok::<bool, GeneratorError>(false),
            !has_git_dir && exists ==> (res matches Err(e) && e@ == GeneratorFailure::CheckoutNotGit(
                self.repo_dir@,
            )),
    {
        if has_git_dir {
            Ok(true)
        } else if exists {
            Err(GeneratorError::CheckoutNotGit(self.repo_dir.clone()))
        } else {
            Ok(false)
        }
    }

    /// Whether a tool's destination is a Git checkout to reuse, given whether it holds a
    /// `.git` directory and whether it exists at all: one that exists without `.git` is
    /// refused; one that does not exist is to be cloned.
    pub fn existing_tool(&self, destination: &str, has_git_dir: bool, exists: bool) -> (res: Result<
        bool,
        GeneratorError,
    >)
        ensures
            has_git_dir ==> res == Ok::<bool, GeneratorError>(true),
            !has_git_dir && !exists ==> res == Ok::<bool, GeneratorError>(false),
            !has_git_dir && exists ==> (res matches Err(e) && e@ == GeneratorFailure::ToolNotGit(
                destination@,
            )),
    {
        if has_git_dir {
            Ok(true)
        } else if exists {
            Err(GeneratorError::ToolNotGit(destination.to_owned()))
        } else {
            Ok(false)
        }
    }

    /// The runs that prepare the checkout, given whether a Git checkout already exists there.
    pub fn clone_steps(&self, existing_checkout: bool) -> (res: Result<Vec<ProgramRun>, GeneratorError>)
        ensures
            match render_outcome(self.variables@, self.profile.repository.url@) {
                Err(f) => res matches Err(e) && e@ == f,
                Ok(url) => res matches Ok(steps) && plans(steps@) == clone_plan(
                    url,
                    decimal(self.profile.repository.depth as nat),
                    self.repo_dir@,
                    opt_text(self.profile.repository.revision),
                    existing_checkout,
                ),
            },
    {
        let url = self.render(self.profile.repository.url.as_str())?;
        let depth = decimal_string(self.profile.repository.depth as usize);
        let ghost expected = clone_plan(
            url@,
            decimal(self.profile.repository.depth as nat),
            self.repo_dir@,
            opt_text(self.profile.repository.revision),
            existing_checkout,
        );
        let ghost d = depth@;
        let ghost u = url@;
        let mut steps: Vec<ProgramRun> = Vec::new();
        if !existing_checkout {
            let args = vec![owned("clone"), owned("--depth"), depth.clone(), url, self.repo_dir.clone()];
            assert(texts(args@) =~= seq!["clone"@, "--depth"@, d, u, self.repo_dir@]);
            steps.push(ProgramRun { program: owned("git"), args, cwd: None });
        }
        let ghost cloned = plans(steps@);
        let fetch_target = match &self.profile.repository.revision {
            Some(revision) => Some(revision.clone()),
            None => if existing_checkout {
                Some(owned("HEAD"))
            } else {
                None
            },
        };
        if let Some(target) = fetch_target {
            let fetch_args = vec![owned("fetch"), owned("--depth"), depth.clone(), owned("origin"), target];
            assert(texts(fetch_args@) =~= seq!["fetch"@, "--depth"@, d, "origin"@, target@]);
            steps.push(ProgramRun {
                program: owned("git"),
                args: fetch_args,
                cwd: Some(self.repo_dir.clone()),
            });
            let checkout_args = vec![owned("checkout"), owned("--detach"), owned("FETCH_HEAD")];
            assert(texts(checkout_args@) =~= seq!["checkout"@, "--detach"@, "FETCH_HEAD"@]);
            steps.push(ProgramRun {
                program: owned("git"),
                args: checkout_args,
                cwd: Some(self.repo_dir.clone()),
            });
        }
        proof {
            assert(plans(steps@) =~= expected);
        }
        Ok(steps)
    }

    /// The directories put before `PATH`: the profile's entries, rendered.
    pub fn path_prepend_entries(&self) -> (res: Result<Vec<String>, GeneratorError>)
        ensures
            texts_outcome(res) == render_all(self.variables@, texts(self.profile.path_prepend@)),
    {
        self.render_list(&self.profile.path_prepend)
    }

    /// Where tool `tool` comes from and where it goes: its rendered repository, and its rendered
    /// destination under the tools directory.
    pub fn tool_source(&self, tool: &GitTool) -> (res: Result<(String, String), GeneratorError>)
        ensures
            match render_outcome(self.variables@, tool.repository@) {
                Err(f) => res matches Err(e) && e@ == f,
                Ok(repository) => match render_outcome(self.variables@, tool.destination@) {
                    Err(f) => res matches Err(e) && e@ == f,
                    Ok(dest) => res matches Ok((r, d)) && r@ == repository && d@ == joined_path(
                        self.options.tools_dir@,
                        dest,
                    ),
                },
            },
    {
        let repository = self.render(tool.repository.as_str())?;
        let destination = self.render(tool.destination.as_str())?;
        let destination = string_of(
            &join_path(&chars_of(self.options.tools_dir.as_str()), &chars_of(destination.as_str())),
        );
        Ok((repository, destination))
    }

    /// The run that clones tool `tool` from `repository` into `destination`.
    pub fn tool_clone_step(&self, tool: &GitTool, repository: &str, destination: &str) -> (out: ProgramRun)
        ensures
            out@ == (RunPlan {
                program: "git"@,
                args: seq!["clone"@, "--depth"@, decimal(tool.depth as nat), repository@, destination@],
                cwd: None,
            }),
    {
        let out = ProgramRun {
            program: owned("git"),
            args: vec![
                owned("clone"),
                owned("--depth"),
                decimal_string(tool.depth as usize),
                owned(repository),
                owned(destination),
            ],
            cwd: None,
        };
        assert(out@.args =~= seq!["clone"@, "--depth"@, decimal(tool.depth as nat), repository@, destination@]);
        out
    }

    /// The working directory and script of command `spec`, rendered.
    pub fn command_script(&self, spec: &CommandSpec) -> (res: Result<(String, String), GeneratorError>)
        ensures
            match render_outcome(self.variables@, spec.cwd@) {
                Err(f) => res matches Err(e) && e@ == f,
                Ok(cwd) => match render_outcome(self.variables@, spec.run@) {
                    Err(f) => res matches Err(e) && e@ == f,
                    Ok(script) => res matches Ok((c, s)) && c@ == cwd && s@ == script,
                },
            },
    {
        let cwd = self.render(spec.cwd.as_str())?;
        let script = self.render(spec.run.as_str())?;
        Ok((cwd, script))
    }

    /// The environment values of command `spec`, rendered, in key order.
    pub fn command_environment(&self, spec: &CommandSpec) -> (res: Result<Vec<(String, String)>, GeneratorError>)
        ensures
            match render_all(self.variables@, spec.env@.map_values(|e: (String, String)| e.1@)) {
                Err(f) => res matches Err(e) && e@ == f,
                Ok(values) => res matches Ok(env) && env@.len() == spec.env@.len() && forall|i: int|
                    0 <= i < env@.len() ==> (#[trigger] env@[i]).0@ == spec.env@[i].0@ && env@[i].1@ == values[i],
            },
    {
        let mut values: Vec<String> = Vec::new();
        let mut i: usize = 0;
        while i < spec.env.len()
            invariant
                i <= spec.env@.len(),
                values@.len() == i,
                forall|j: int| 0 <= j < i ==> (#[trigger] values@[j])@ == spec.env@[j].1@,
            decreases spec.env@.len() - i,
        {
            values.push(spec.env[i].1.clone());
            i += 1;
        }
        assert(texts(values@) =~= spec.env@.map_values(|e: (String, String)| e.1@));
        let rendered = self.render_list(&values)?;
        proof {
            lemma_render_all_len(self.variables@, texts(values@));
        }
        let mut env: Vec<(String, String)> = Vec::new();
        let mut k: usize = 0;
        while k < spec.env.len()
            invariant
                k <= spec.env@.len(),
                rendered@.len() == spec.env@.len(),
                env@.len() == k,
                forall|j: int| 0 <= j < k ==> (#[trigger] env@[j]).0@ == spec.env@[j].0@ && env@[j].1 == rendered@[j],
            decreases spec.env@.len() - k,
        {
            env.push((spec.env[k].0.clone(), rendered[k].clone()));
            k += 1;
        }
        proof {
            assert forall|j: int| 0 <= j < env@.len() implies (#[trigger] env@[j]).1@ == texts(rendered@)[j] by {}
        }
        Ok(env)
    }

    /// The compilation database: the rendered template, taken in the checkout when relative.
    pub fn compilation_database(&self) -> (res: Result<String, GeneratorError>)
        ensures
            text_outcome(res) == match render_outcome(self.variables@, self.profile.index.compilation_database@) {
                Err(f) => Err(f),
                Ok(r) => Ok(absolute_path(r, self.repo_dir@)),
            },
    {
        let rendered = self.render(self.profile.index.compilation_database.as_str())?;
        Ok(absolute(rendered.as_str(), self.repo_dir.as_str()))
    }

    /// The indexer's arguments for database `compdb` and output `output`: the two paths, the
    /// number of jobs, then the profile's arguments rendered.
    pub fn indexer_arguments(&self, compdb: &str, output: &str) -> (res: Result<Vec<String>, GeneratorError>)
        ensures
            texts_outcome(res) == match render_all(self.variables@, texts(self.profile.index.arguments@)) {
                Err(f) => Err(f),
                Ok(rest) => Ok(seq![
                    "--compdb-path="@ + compdb@,
                    "--index-output-path="@ + output@,
                    "--jobs="@ + decimal(self.options.index_jobs as nat),
                ] + rest),
            },
    {
        let rendered = self.render_list(&self.profile.index.arguments);
        match rendered {
            Err(e) => Err(e),
            Ok(rest) => {
                let mut args: Vec<String> = Vec::new();
                args.push(concat("--compdb-path=", compdb));
                args.push(concat("--index-output-path=", output));
                args.push(concat("--jobs=", decimal_string(self.options.index_jobs).as_str()));
                let mut i: usize = 0;
                while i < rest.len()
                    invariant
                        i <= rest@.len(),
                        texts(args@) == seq![
                            "--compdb-path="@ + compdb@,
                            "--index-output-path="@ + output@,
                            "--jobs="@ + decimal(self.options.index_jobs as nat),
                        ] + texts(rest@).take(i as int),
                    decreases rest@.len() - i,
                {
                    let ghost before = args@;
                    args.push(rest[i].clone());
                    assert(texts(args@) =~= texts(before).push(rest@[i as int]@));
                    assert(texts(rest@).take(i + 1) =~= texts(rest@).take(i as int).push(rest@[i as int]@));
                    i += 1;
                }
                assert(texts(rest@).take(rest@.len() as int) =~= texts(rest@));
                Ok(args)
            },
        }
    }
}

/// The `PATH` that programs run with: the ccache wrappers directory when there is one, then
/// the configured entries, then the current entries; none when nothing is configured, and
/// `PATH` is then left as it is.
pub open spec fn search_path(
    ccache_wrappers: Option<Seq<char>>,
    configured: Seq<Seq<char>>,
    current: Seq<Seq<char>>,
) -> Option<Seq<Seq<char>>> {
    let front = match ccache_wrappers {
        Some(w) => seq![w] + configured,
        None => configured,
    };
    if front.len() == 0 {
        None
    } else {
        Some(front + current)
    }
}

/// The views of optional lists of strings.
pub open spec fn opt_texts(o: Option<Vec<String>>) -> Option<Seq<Seq<char>>> {
    match o {
        Some(v) => Some(texts(v@)),
        None => None,
    }
}

fn append_all(out: &mut Vec<String>, items: &Vec<String>)
    ensures
        texts(final(out)@) == texts(old(out)@) + texts(items@),
{
    let ghost start = texts(out@);
    let mut i: usize = 0;
    while i < items.len()
        invariant
            i <= items@.len(),
            texts(out@) == start + texts(items@).take(i as int),
        decreases items@.len() - i,
    {
        let ghost before = out@;
        out.push(items[i].clone());
        assert(texts(out@) =~= texts(before).push(items@[i as int]@));
        assert(texts(items@).take(i + 1) =~= texts(items@).take(i as int).push(items@[i as int]@));
        i += 1;
    }
    assert(texts(items@).take(items@.len() as int) =~= texts(items@));
}

impl Generator {
    /// The `PATH` entries for programs: `ccache_wrappers` is the ccache wrappers directory when
    /// it exists, `current` the entries of the current `PATH`.
    pub fn program_search_path(&self, ccache_wrappers: Option<String>, current: &Vec<String>) -> (res: Option<
        Vec<String>,
    >)
        ensures
            opt_texts(res) == search_path(opt_text(ccache_wrappers), texts(self.path_entries@), texts(current@)),
    {
        let mut entries: Vec<String> = Vec::new();
        match ccache_wrappers {
            Some(w) => {
                entries.push(w);
            },
            None => {},
        }
        append_all(&mut entries, &self.path_entries);
        if entries.len() == 0 {
            proof {
                assert(texts(entries@).len() == 0);
            }
            return None;
        }
        append_all(&mut entries, current);
        proof {
            if let Some(w) = opt_text(ccache_wrappers) {
                assert(seq![w] + texts(self.path_entries@) =~= texts(Seq::<String>::empty().push(ccache_wrappers->0))
                    + texts(self.path_entries@));
            }
        }
        Some(entries)
    }

    /// The ccache settings for programs when ccache is available: its cache directory
    /// (`ccache_dir` when the environment names one, else `ccache` under the tools directory),
    /// the checkout as base directory, no hashing of directories, and compilers checked by
    /// content.
    pub fn ccache_environment(&self, ccache_dir: Option<String>) -> (out: Vec<(String, String)>)
        ensures
            out@.len() == 4,
            out@[0].0@ == "CCACHE_DIR"@,
            out@[0].1@ == match ccache_dir {
                Some(d) => d@,
                None => joined_path(self.options.tools_dir@, "ccache"@),
            },
            out@[1].0@ == "CCACHE_BASEDIR"@ && out@[1].1@ == self.repo_dir@,
            out@[2].0@ == "CCACHE_NOHASHDIR"@ && out@[2].1@ == "true"@,
            out@[3].0@ == "CCACHE_COMPILERCHECK"@ && out@[3].1@ == "content"@,
    {
        let dir = match ccache_dir {
            Some(d) => d,
            None => string_of(&join_path(&chars_of(self.options.tools_dir.as_str()), &chars_of("ccache"))),
        };
        vec![
            (owned("CCACHE_DIR"), dir),
            (owned("CCACHE_BASEDIR"), self.repo_dir.clone()),
            (owned("CCACHE_NOHASHDIR"), owned("true")),
            (owned("CCACHE_COMPILERCHECK"), owned("content")),
        ]
    }
}

/// Preparing a checkout fetches the revision that the profile pins, whether the checkout is
/// cloned now or reused, and nothing else: every fetch runs in the checkout and asks for the
/// pinned revision; with none pinned, a reused checkout fetches the upstream head and a fresh
/// clone fetches nothing.
pub proof fn law_pinned_revision_is_fetched(
    url: Seq<char>,
    depth: Seq<char>,
    repo_dir: Seq<char>,
    revision: Option<Seq<char>>,
    existing_checkout: bool,
)
    ensures
        revision is Some ==> exists|k: int|
            0 <= k < clone_plan(url, depth, repo_dir, revision, existing_checkout).len()
                && #[trigger] clone_plan(url, depth, repo_dir, revision, existing_checkout)[k].args
                == seq!["fetch"@, "--depth"@, depth, "origin"@, revision->0],
        forall|k: int|
            0 <= k < clone_plan(url, depth, repo_dir, revision, existing_checkout).len()
                && (#[trigger] clone_plan(url, depth, repo_dir, revision, existing_checkout)[k]).args.len()
                > 0 && clone_plan(url, depth, repo_dir, revision, existing_checkout)[k].args[0]
                == "fetch"@ ==> {
                let run = clone_plan(url, depth, repo_dir, revision, existing_checkout)[k];
                &&& run.cwd == Some(repo_dir)
                &&& run.args.last() == match revision {
                    Some(r) => r,
                    None => "HEAD"@,
                }
            },
        revision is None && !existing_checkout ==> forall|k: int|
            0 <= k < clone_plan(url, depth, repo_dir, revision, existing_checkout).len()
                ==> (#[trigger] clone_plan(url, depth, repo_dir, revision, existing_checkout)[k]).args[0]
                != "fetch"@,
{
    reveal_strlit("fetch");
    reveal_strlit("clone");
    reveal_strlit("checkout");
    let plan = clone_plan(url, depth, repo_dir, revision, existing_checkout);
    assert("fetch"@ != "clone"@) by {
        assert("fetch"@[0] != "clone"@[0]);
    }
    assert("fetch"@ != "checkout"@) by {
        assert("fetch"@.len() != "checkout"@.len());
    }
    if revision is Some {
        let k = if existing_checkout { 0int } else { 1int };
        assert(plan[k].args == seq!["fetch"@, "--depth"@, depth, "origin"@, revision->0]);
    }
}

} // verus!
