//! Repository profiles: what to check out, build and index, and the rules they must follow.
use vstd::prelude::*;

use crate::order::{stable_sort, stably_sorted, text_less, SortKey};
use crate::paths::{has_parent_dir, has_parent_segment, has_root, is_absolute};
use crate::text::{chars_equal, chars_of, first_index_of, lemma_first_index_of, trim, trimmed};

verus! {

/// A repository profile.
pub struct Profile {
    pub version: u32,
    pub name: String,
    pub description: String,
    pub repository: Repository,
    /// Extra template variables; `keys_in_order` holds of them in a well-formed profile.
    pub variables: Vec<(String, String)>,
    pub tools: Vec<GitTool>,
    pub path_prepend: Vec<String>,
    pub commands: Vec<CommandSpec>,
    pub index: IndexSpec,
}

/// The repository to check out.
pub struct Repository {
    pub url: String,
    pub directory: Option<String>,
    pub depth: u32,
    pub revision: Option<String>,
}

/// A tool fetched with Git.
pub struct GitTool {
    pub name: String,
    pub repository: String,
    pub destination: String,
    pub depth: u32,
}

/// A build command.
pub struct CommandSpec {
    pub name: String,
    pub run: String,
    pub cwd: String,
    /// Extra environment variables; `keys_in_order` holds of them in a well-formed profile.
    pub env: Vec<(String, String)>,
}

/// How to index the checkout.
pub struct IndexSpec {
    pub compilation_database: String,
    pub output: String,
    pub arguments: Vec<String>,
}

/// Each key once, in key order: the keys strictly increase.
pub open spec fn keys_in_order(v: Seq<(String, String)>) -> bool {
    forall|i: int, j: int| 0 <= i < j < v.len() ==> text_less(#[trigger] v[i].0@, #[trigger] v[j].0@)
}

impl Profile {
    /// A profile as its file format gives it: its variables, and the environment of each of
    /// its commands, have each key once, in key order.
    pub open spec fn well_formed(&self) -> bool {
        &&& keys_in_order(self.variables@)
        &&& forall|c: int| 0 <= c < self.commands@.len() ==> keys_in_order(#[trigger] self.commands@[c].env@)
    }
}

/// The clone depth when a profile gives none.
pub fn default_depth() -> (res: u32)
    ensures
        res == 1,
{
    1
}

/// The command directory when a profile gives none: the checkout.
pub fn default_repo_cwd() -> (res: String)
    ensures
        res@ == "{repo_dir}"@,
{
    "{repo_dir}".to_owned()
}

/// The index output when a profile gives none.
pub fn default_output() -> (res: String)
    ensures
        res@ == "{output_dir}/{name}.scip"@,
{
    "{output_dir}/{name}.scip".to_owned()
}

/// Why a profile was refused.
pub enum ConfigFailure {
    UnsupportedVersion(Seq<char>, u32),
    InvalidName(Seq<char>, Seq<char>),
    EmptyRepositoryUrl(Seq<char>),
    ZeroCloneDepth(Seq<char>),
    UnsafePath(Seq<char>, Seq<char>),
    InvalidTool(Seq<char>),
    ReservedVariable(Seq<char>),
    NoCompilationDatabase(Seq<char>),
    OutputEscapes(Seq<char>),
    NoSuchProfile(Seq<char>, Seq<char>),
}

/// A profile error; `path` is the profile file that a message names.
#[derive(Debug)]
pub enum ConfigError {
    /// `profile {path} uses unsupported schema version {version}; expected 1`
    UnsupportedVersion { path: String, version: u32 },
    /// `invalid {label} '{value}'; use letters, digits, '-' or '_'`
    InvalidName { label: String, value: String },
    /// `profile {path} has an empty repository URL`
    EmptyRepositoryUrl { path: String },
    /// `profile {path} has a zero repository clone depth`
    ZeroCloneDepth { path: String },
    /// `{label} must be a safe relative path: {value}`
    UnsafePath { label: String, value: String },
    /// `tool {name} has an invalid repository or clone depth`
    InvalidTool { name: String },
    /// `profile variable '{key}' is reserved by scip-cli`
    ReservedVariable { key: String },
    /// `profile {path} has no compilation database`
    NoCompilationDatabase { path: String },
    /// `profile output may not contain '..': {output}`
    OutputEscapes { output: String },
    /// `no profile named '{name}' in {dir}; run `scip-cli list``
    NoSuchProfile { name: String, dir: String },
}

impl View for ConfigError {
    type V = ConfigFailure;

    open spec fn view(&self) -> ConfigFailure {
        match self {
            ConfigError::UnsupportedVersion { path, version } => ConfigFailure::UnsupportedVersion(
                path@,
                *version,
            ),
            ConfigError::InvalidName { label, value } => ConfigFailure::InvalidName(label@, value@),
            ConfigError::EmptyRepositoryUrl { path } => ConfigFailure::EmptyRepositoryUrl(path@),
            ConfigError::ZeroCloneDepth { path } => ConfigFailure::ZeroCloneDepth(path@),
            ConfigError::UnsafePath { label, value } => ConfigFailure::UnsafePath(label@, value@),
            ConfigError::InvalidTool { name } => ConfigFailure::InvalidTool(name@),
            ConfigError::ReservedVariable { key } => ConfigFailure::ReservedVariable(key@),
            ConfigError::NoCompilationDatabase { path } => ConfigFailure::NoCompilationDatabase(path@),
            ConfigError::OutputEscapes { output } => ConfigFailure::OutputEscapes(output@),
            ConfigError::NoSuchProfile { name, dir } => ConfigFailure::NoSuchProfile(name@, dir@),
        }
    }
}

/// Whether `c` is an ASCII letter or digit.
pub open spec fn is_ascii_alphanumeric(c: char) -> bool {
    ('a' <= c <= 'z') || ('A' <= c <= 'Z') || ('0' <= c <= '9')
}

/// A valid name: not empty, and only ASCII letters, digits, `-` and `_`.
pub open spec fn name_ok(s: Seq<char>) -> bool {
    s.len() > 0 && forall|i: int|
        0 <= i < s.len() ==> is_ascii_alphanumeric(#[trigger] s[i]) || s[i] == '-' || s[i] == '_'
}

/// A safe relative path: not absolute, and without a `..` component.
pub open spec fn relative_path_ok(s: Seq<char>) -> bool {
    !has_root(s) && !has_parent_segment(s)
}

/// Whether `s` is empty or only white space.
pub open spec fn is_blank(s: Seq<char>) -> bool {
    trimmed(s).len() == 0
}

/// The template variable names that a profile may not define.
pub open spec fn reserved_names() -> Seq<Seq<char>> {
    seq![
        "name"@,
        "repo"@,
        "repo_dir"@,
        "work_dir"@,
        "output_dir"@,
        "tools_dir"@,
        "jobs"@,
        "index_jobs"@,
        "scip_clang"@,
    ]
}

/// The first problem among `tools`, checked in order.
pub open spec fn first_tool_problem(tools: Seq<GitTool>) -> Option<ConfigFailure>
    decreases tools.len(),
{
    if tools.len() == 0 {
        None
    } else {
        let t = tools[0];
        if !name_ok(t.name@) {
            Some(ConfigFailure::InvalidName("tool name"@, t.name@))
        } else if !relative_path_ok(t.destination@) {
            Some(ConfigFailure::UnsafePath("tool destination"@, t.destination@))
        } else if is_blank(t.repository@) || t.depth == 0 {
            Some(ConfigFailure::InvalidTool(t.name@))
        } else {
            first_tool_problem(tools.drop_first())
        }
    }
}

/// The first problem among the variable `keys`, checked in order.
pub open spec fn first_variable_problem(keys: Seq<Seq<char>>) -> Option<ConfigFailure>
    decreases keys.len(),
{
    if keys.len() == 0 {
        None
    } else if !name_ok(keys[0]) {
        Some(ConfigFailure::InvalidName("variable name"@, keys[0]))
    } else if reserved_names().contains(keys[0]) {
        Some(ConfigFailure::ReservedVariable(keys[0]))
    } else {
        first_variable_problem(keys.drop_first())
    }
}

/// The names of variables.
pub open spec fn key_views(v: Seq<(String, String)>) -> Seq<Seq<char>> {
    v.map_values(|e: (String, String)| e.0@)
}

/// The first rule that profile `p`, read from `path`, breaks, in the order they are checked.
pub open spec fn profile_problem(p: Profile, path: Seq<char>) -> Option<ConfigFailure> {
    if p.version != 1 {
        Some(ConfigFailure::UnsupportedVersion(path, p.version))
    } else if !name_ok(p.name@) {
        Some(ConfigFailure::InvalidName("profile name"@, p.name@))
    } else if is_blank(p.repository.url@) {
        Some(ConfigFailure::EmptyRepositoryUrl(path))
    } else if p.repository.depth == 0 {
        Some(ConfigFailure::ZeroCloneDepth(path))
    } else if p.repository.directory is Some && !relative_path_ok(
        p.repository.directory->0@,
    ) {
        Some(ConfigFailure::UnsafePath("repository directory"@, p.repository.directory->0@))
    } else if first_tool_problem(p.tools@) is Some {
        first_tool_problem(p.tools@)
    } else if first_variable_problem(key_views(p.variables@)) is Some {
        first_variable_problem(key_views(p.variables@))
    } else if is_blank(p.index.compilation_database@) {
        Some(ConfigFailure::NoCompilationDatabase(path))
    } else if has_parent_segment(p.index.output@) {
        Some(ConfigFailure::OutputEscapes(p.index.output@))
    } else {
        None
    }
}

/// Checks that `value` is a valid name; `label` says what it names.
pub fn validate_name(value: &str, label: &str) -> (res: Result<(), ConfigError>)
    ensures
        res is Ok <==> name_ok(value@),
        res matches Err(e) ==> e@ == ConfigFailure::InvalidName(label@, value@),
{
    let chars = chars_of(value);
    let mut ok = chars.len() > 0;
    let mut i: usize = 0;
    while ok && i < chars.len()
        invariant
            i <= chars@.len(),
            chars@ == value@,
            ok ==> chars@.len() > 0,
            ok ==> forall|j: int|
                0 <= j < i ==> is_ascii_alphanumeric(#[trigger] chars@[j]) || chars@[j] == '-'
                    || chars@[j] == '_',
            !ok ==> !name_ok(value@),
        decreases chars@.len() - i,
    {
        let c = chars[i];
        if !(('a' <= c && c <= 'z') || ('A' <= c && c <= 'Z') || ('0' <= c && c <= '9') || c == '-'
            || c == '_') {
            ok = false;
        }
        i += 1;
    }
    if ok {
        Ok(())
    } else {
        Err(ConfigError::InvalidName { label: label.to_owned(), value: value.to_owned() })
    }
}

/// Checks that `value` is a safe relative path; `label` says what it names.
pub fn validate_relative_path(value: &str, label: &str) -> (res: Result<(), ConfigError>)
    ensures
        res is Ok <==> relative_path_ok(value@),
        res matches Err(e) ==> e@ == ConfigFailure::UnsafePath(label@, value@),
{
    let chars = chars_of(value);
    if is_absolute(&chars) || has_parent_dir(&chars) {
        Err(ConfigError::UnsafePath { label: label.to_owned(), value: value.to_owned() })
    } else {
        Ok(())
    }
}

fn is_blank_text(s: &String) -> (res: bool)
    ensures
        res == is_blank(s@),
{
    trim(&chars_of(s.as_str())).len() == 0
}

fn is_reserved(key: &String) -> (res: bool)
    ensures
        res == reserved_names().contains(key@),
{
    let k = chars_of(key.as_str());
    let names = ["name", "repo", "repo_dir", "work_dir", "output_dir", "tools_dir", "jobs", "index_jobs", "scip_clang"];
    let mut i: usize = 0;
    while i < 9
        invariant
            i <= 9,
            k@ == key@,
            names@ == seq!["name", "repo", "repo_dir", "work_dir", "output_dir", "tools_dir", "jobs", "index_jobs", "scip_clang"],
            forall|j: int| 0 <= j < i ==> reserved_names()[j] != key@,
        decreases 9 - i,
    {
        if chars_equal(&k, &chars_of(names[i])) {
            assert(reserved_names()[i as int] == key@);
            return true;
        }
        i += 1;
    }
    assert(!reserved_names().contains(key@)) by {
        if reserved_names().contains(key@) {
            let j = choose|j: int| 0 <= j < reserved_names().len() && reserved_names()[j] == key@;
        }
    }
    false
}

impl Profile {
    /// The directory of the checkout under the work directory: the repository directory when the
    /// profile gives one, else the profile name.
    pub fn checkout_directory(&self) -> (res: String)
        ensures
            res@ == match self.repository.directory {
                Some(d) => d@,
                None => self.name@,
            },
    {
        match &self.repository.directory {
            Some(d) => d.clone(),
            None => self.name.clone(),
        }
    }

    /// Checks the profile against its rules; `path` is the file it came from.
    #[verifier::loop_isolation(false)]
    pub fn validate(&self, path: &str) -> (res: Result<(), ConfigError>)
        ensures
            res is Ok <==> profile_problem(*self, path@) is None,
            res matches Err(e) ==> Some(e@) == profile_problem(*self, path@),
    {
        if self.version != 1 {
            return Err(ConfigError::UnsupportedVersion { path: path.to_owned(), version: self.version });
        }
        validate_name(self.name.as_str(), "profile name")?;
        if is_blank_text(&self.repository.url) {
            return Err(ConfigError::EmptyRepositoryUrl { path: path.to_owned() });
        }
        if self.repository.depth == 0 {
            return Err(ConfigError::ZeroCloneDepth { path: path.to_owned() });
        }
        if let Some(directory) = &self.repository.directory {
            validate_relative_path(directory.as_str(), "repository directory")?;
        }
        let mut i: usize = 0;
        assert(self.tools@.skip(0) =~= self.tools@);
        while i < self.tools.len()
            invariant
                i <= self.tools@.len(),
                first_tool_problem(self.tools@) == first_tool_problem(self.tools@.skip(i as int)),
            decreases self.tools@.len() - i,
        {
            let tool = &self.tools[i];
            assert(self.tools@.skip(i as int)[0] == *tool);
            assert(self.tools@.skip(i as int).drop_first() =~= self.tools@.skip(i + 1));
            validate_name(tool.name.as_str(), "tool name")?;
            validate_relative_path(tool.destination.as_str(), "tool destination")?;
            if is_blank_text(&tool.repository) || tool.depth == 0 {
                return Err(ConfigError::InvalidTool { name: tool.name.clone() });
            }
            i += 1;
        }
        assert(self.tools@.skip(i as int) =~= Seq::<GitTool>::empty());
        let ghost keys = key_views(self.variables@);
        let mut j: usize = 0;
        assert(keys.skip(0) =~= keys);
        while j < self.variables.len()
            invariant
                keys == key_views(self.variables@),
                j <= self.variables@.len(),
                first_variable_problem(keys) == first_variable_problem(keys.skip(j as int)),
            decreases self.variables@.len() - j,
        {
            let key = &self.variables[j].0;
            assert(keys.skip(j as int)[0] == key@);
            assert(keys.skip(j as int).drop_first() =~= keys.skip(j + 1));
            validate_name(key.as_str(), "variable name")?;
            if is_reserved(key) {
                return Err(ConfigError::ReservedVariable { key: key.clone() });
            }
            j += 1;
        }
        assert(keys.skip(j as int) =~= Seq::<Seq<char>>::empty());
        if is_blank_text(&self.index.compilation_database) {
            return Err(ConfigError::NoCompilationDatabase { path: path.to_owned() });
        }
        if has_parent_dir(&chars_of(self.index.output.as_str())) {
            return Err(ConfigError::OutputEscapes { output: self.index.output.clone() });
        }
        Ok(())
    }
}

impl SortKey for (String, Profile) {
    open spec fn sort_key(&self) -> Seq<char> {
        self.1.name@
    }

    fn key_chars(&self) -> (out: Vec<char>) {
        chars_of(self.1.name.as_str())
    }
}

/// Whether a file name ends in `suffix` after at least one other character.
pub open spec fn has_suffix_after_stem(name: Seq<char>, suffix: Seq<char>) -> bool {
    name.len() > suffix.len() && name.skip(name.len() - suffix.len()) == suffix
}

/// A profile file: its extension is `yaml` or `yml` (a leading `.` alone starts no
/// extension).
pub open spec fn profile_file_ok(name: Seq<char>) -> bool {
    has_suffix_after_stem(name, ".yaml"@) || has_suffix_after_stem(name, ".yml"@)
}

fn ends_after_stem(name: &[char], suffix: &[char]) -> (res: bool)
    ensures
        res == has_suffix_after_stem(name@, suffix@),
{
    if name.len() <= suffix.len() {
        return false;
    }
    let start = name.len() - suffix.len();
    let mut i: usize = 0;
    while i < suffix.len()
        invariant
            start == name@.len() - suffix@.len(),
            start > 0,
            name@.len() == name.len(),
            i <= suffix@.len(),
            forall|j: int| 0 <= j < i ==> name@[start + j] == suffix@[j],
        decreases suffix@.len() - i,
    {
        if name[start + i] != suffix[i] {
            assert(name@.skip(start as int)[i as int] != suffix@[i as int]);
            return false;
        }
        i += 1;
    }
    assert(name@.skip(start as int) =~= suffix@);
    true
}

/// Whether the file named `file_name` in the configuration directory holds a profile.
pub fn is_profile_file(file_name: &str) -> (res: bool)
    ensures
        res == profile_file_ok(file_name@),
{
    let name = chars_of(file_name);
    ends_after_stem(&name, &chars_of(".yaml")) || ends_after_stem(&name, &chars_of(".yml"))
}

/// Profiles in name order; profiles with the same name keep their order.
pub fn sort_profiles(profiles: Vec<(String, Profile)>) -> (out: Vec<(String, Profile)>)
    ensures
        stably_sorted(profiles@, out@),
{
    stable_sort(profiles)
}

/// The names of profiles.
pub open spec fn profile_names(v: Seq<(String, Profile)>) -> Seq<Seq<char>> {
    v.map_values(|e: (String, Profile)| e.1.name@)
}

/// The first of `profiles` named `name`; `config_dir` is where they were read from.
#[verifier::loop_isolation(false)]
pub fn find_profile(config_dir: &str, profiles: Vec<(String, Profile)>, name: &str) -> (res: Result<
    (String, Profile),
    ConfigError,
>)
    ensures
        !name_ok(name@) ==> (res matches Err(e) && e@ == ConfigFailure::InvalidName(
            "repository name"@,
            name@,
        )),
        name_ok(name@) ==> match first_index_of(profile_names(profiles@), name@) {
            Some(i) => res == Ok::<(String, Profile), ConfigError>(profiles@[i]),
            None => (res matches Err(e) && e@ == ConfigFailure::NoSuchProfile(name@, config_dir@)),
        },
{
    validate_name(name, "repository name")?;
    let ghost names = profile_names(profiles@);
    let mut rest = profiles;
    let ghost input = rest@;
    let ghost mut taken: int = 0;
    proof {
        lemma_first_index_of(names, name@);
    }
    while rest.len() > 0
        invariant
            names == profile_names(input),
            0 <= taken <= input.len(),
            rest@ == input.skip(taken),
            forall|j: int| 0 <= j < taken ==> names[j] != name@,
        decreases rest@.len(),
    {
        let ghost old_rest = rest@;
        let entry = rest.remove(0);
        proof {
            assert(entry == input[taken]) by {
                assert(old_rest[0] == input.skip(taken)[0]);
            }
            assert(names[taken] == entry.1.name@);
        }
        if entry.1.name == name.to_owned() {
            proof {
                lemma_first_index_of(names, name@);
                assert(names[taken] == name@);
                if let Some(k) = first_index_of(names, name@) {
                    assert(!(k < taken));
                    assert(!(k > taken));
                }
            }
            return Ok(entry);
        }
        proof {
            assert(rest@ =~= input.skip(taken + 1));
            taken = taken + 1;
        }
    }
    proof {
        lemma_first_index_of(names, name@);
        if let Some(k) = first_index_of(names, name@) {
            assert(names[k] == name@);
        }
    }
    Err(ConfigError::NoSuchProfile { name: name.to_owned(), dir: config_dir.to_owned() })
}

proof fn lemma_tools_without_problem(tools: Seq<GitTool>)
    requires
        first_tool_problem(tools) is None,
    ensures
        forall|i: int|
            0 <= i < tools.len() ==> (#[trigger] tools[i]).depth > 0 && trimmed(tools[i].repository@).len()
                > 0 && name_ok(tools[i].name@) && relative_path_ok(tools[i].destination@),
    decreases tools.len(),
{
    if tools.len() > 0 {
        lemma_tools_without_problem(tools.drop_first());
        assert forall|i: int| 0 < i < tools.len() implies tools[i] == tools.drop_first()[i - 1] by {}
    }
}

/// A profile that passes its checks clones its repository and every tool with a depth of at
/// least one, from a repository address that is not blank, names each tool validly and keeps
/// each tool inside the tools directory.
pub proof fn law_valid_profile_clones_with_depth(p: Profile, path: Seq<char>)
    requires
        profile_problem(p, path) is None,
    ensures
        p.version == 1,
        p.repository.depth > 0,
        trimmed(p.repository.url@).len() > 0,
        forall|i: int|
            0 <= i < p.tools@.len() ==> (#[trigger] p.tools@[i]).depth > 0 && trimmed(
                p.tools@[i].repository@,
            ).len() > 0 && name_ok(p.tools@[i].name@) && relative_path_ok(p.tools@[i].destination@),
{
    lemma_tools_without_problem(p.tools@);
}

} // verus!
