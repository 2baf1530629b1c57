//! The decisions of configuration loading: which files make the
//! configuration and how they merge, which account a name selects, and
//! where a configuration is looked for and written.

use vstd::prelude::*;

use super::convert::{parse_toml, toml_parse};
use super::merge::{merge_spec, merge_toml, MergeConflict};
use super::value::{TomlTree, TomlValue};
use crate::io_error::{io_not_found, is_not_found};
use crate::text::same_text;

verus! {

/// The errors of configuration loading.
#[derive(Debug)]
pub enum ConfigError {
    /// No configuration path was given.
    EmptyPaths,
    /// A configuration file could not be read.
    Read(std::io::Error),
    /// A configuration file is not a TOML document.
    Parse(::toml::de::Error),
    /// Two configuration files give a key values of different kinds.
    Merge(MergeConflict),
    /// No account is registered under the name asked for.
    AccountNotFound(String),
    /// The platform has no configuration directory.
    NoConfigDir,
    /// Whether the explicit configuration path is there could not be
    /// told, for another reason than its absence.
    Stat { path: String, error: std::io::Error },
}

/// What went wrong while loading, as the mathematical outcome names it.
pub enum LoadFailure {
    EmptyPaths,
    Read(std::io::Error),
    Parse(::toml::de::Error),
    Merge((Seq<char>, Seq<char>, Seq<char>)),
}

impl ConfigError {
    /// What loading failure this error is.
    pub open spec fn failure(&self) -> Option<LoadFailure> {
        match self {
            ConfigError::EmptyPaths => Some(LoadFailure::EmptyPaths),
            ConfigError::Read(e) => Some(LoadFailure::Read(*e)),
            ConfigError::Parse(e) => Some(LoadFailure::Parse(*e)),
            ConfigError::Merge(c) => Some(LoadFailure::Merge(c@)),
            _ => None,
        }
    }

    /// The message of this error.
    pub open spec fn message_spec(&self) -> Seq<char> {
        match self {
            ConfigError::EmptyPaths => "Read TOML config from empty paths error"@,
            ConfigError::Read(_) => "Read TOML config file error"@,
            ConfigError::Parse(_) => "Parse TOML config error"@,
            ConfigError::Merge(c) => "Merge TOML subconfigs error: incompatible types at `"@
                + c.path@ + "`, base is "@ + c.base@ + ", override is "@ + c.other@,
            ConfigError::AccountNotFound(name) => "Get account `"@ + name@ + "` error"@,
            ConfigError::NoConfigDir => "Get XDG config directory error"@,
            ConfigError::Stat { path, .. } => "Stat TOML config file `"@ + path@ + "` error"@,
        }
    }

    /// The message of this error.
    pub fn message(&self) -> (res: String)
        ensures
            res@ == self.message_spec(),
    {
        match self {
            ConfigError::EmptyPaths => String::from_str("Read TOML config from empty paths error"),
            ConfigError::Read(_) => String::from_str("Read TOML config file error"),
            ConfigError::Parse(_) => String::from_str("Parse TOML config error"),
            ConfigError::Merge(c) => {
                let mut m = String::from_str(
                    "Merge TOML subconfigs error: incompatible types at `",
                );
                m.append(c.path.as_str());
                m.append("`, base is ");
                m.append(c.base);
                m.append(", override is ");
                m.append(c.other);
                m
            },
            ConfigError::AccountNotFound(name) => {
                let mut m = String::from_str("Get account `");
                m.append(name.as_str());
                m.append("` error");
                m
            },
            ConfigError::NoConfigDir => String::from_str("Get XDG config directory error"),
            ConfigError::Stat { path, .. } => {
                let mut m = String::from_str("Stat TOML config file `");
                m.append(path.as_str());
                m.append("` error");
                m
            },
        }
    }
}

/// Parses one configuration file's content.
pub fn parse_document(text: &str) -> (res: Result<TomlValue, ConfigError>)
    ensures
        match res {
            Ok(v) => toml_parse(text@) == Ok::<TomlTree, ::toml::de::Error>(v.tree())
                && v.well_formed(),
            Err(e) => toml_parse(text@) is Err && e.failure() == Some(
                LoadFailure::Parse(toml_parse(text@)->Err_0),
            ),
        },
{
    match parse_toml(text) {
        Ok(v) => Ok(v),
        Err(e) => Err(ConfigError::Parse(e)),
    }
}

/// The contents of the configuration files, in order: each the text that
/// was read, or the error reading it failed with.
pub open spec fn read_texts(texts: Seq<Result<String, std::io::Error>>) -> Seq<
    Result<Seq<char>, std::io::Error>,
> {
    Seq::new(
        texts.len(),
        |i: int|
            match texts[i] {
                Ok(t) => Ok(t@),
                Err(e) => Err(e),
            },
    )
}

/// What `toml` makes of one configuration file, as a loading outcome.
pub open spec fn document_outcome(text: Seq<char>) -> Result<TomlTree, LoadFailure> {
    match toml_parse(text) {
        Ok(v) => Ok(v),
        Err(e) => Err(LoadFailure::Parse(e)),
    }
}

/// Merging the configuration files `texts[i..]` into the merged
/// configuration `acc`, in order: a file that cannot be read, is not
/// TOML or does not merge is an error, the first such one decides.
pub open spec fn fold_documents(
    acc: TomlTree,
    texts: Seq<Result<Seq<char>, std::io::Error>>,
    i: int,
) -> Result<TomlTree, LoadFailure>
    decreases texts.len() - i,
{
    if 0 <= i < texts.len() {
        match texts[i] {
            Err(e) => Err(LoadFailure::Read(e)),
            Ok(t) => match document_outcome(t) {
                Err(f) => Err(f),
                Ok(v) => match merge_spec(acc, v, "$"@) {
                    Ok(m) => fold_documents(m, texts, i + 1),
                    Err(c) => Err(LoadFailure::Merge(c)),
                },
            },
        }
    } else {
        Ok(acc)
    }
}

/// The configuration the files `texts` make: the first is read and
/// parsed, the others are read, parsed and deep-merged into it in order.
pub open spec fn load_outcome(texts: Seq<Result<Seq<char>, std::io::Error>>) -> Result<
    TomlTree,
    LoadFailure,
> {
    if texts.len() == 0 {
        Err(LoadFailure::EmptyPaths)
    } else {
        match texts[0] {
            Err(e) => Err(LoadFailure::Read(e)),
            Ok(t) => match document_outcome(t) {
                Err(f) => Err(f),
                Ok(v) => fold_documents(v, texts, 1),
            },
        }
    }
}

/// Makes the configuration out of the files read at the given paths, in
/// order: the first is the base, each other one is deep-merged into it
/// (see [`merge_toml`](super::merge::merge_toml)). A file that could not
/// be read is an error, as one that is not TOML or does not merge.
pub fn merge_config_texts(texts: Vec<Result<String, std::io::Error>>) -> (res: Result<
    TomlValue,
    ConfigError,
>)
    ensures
        match res {
            Ok(v) => load_outcome(read_texts(texts@)) == Ok::<TomlTree, LoadFailure>(v.tree())
                && v.well_formed(),
            Err(e) => e.failure() is Some && load_outcome(read_texts(texts@)) == Err::<
                TomlTree,
                LoadFailure,
            >(e.failure().unwrap()),
        },
{
    let ghost all = read_texts(texts@);
    let mut rest = texts;
    if rest.len() == 0 {
        return Err(ConfigError::EmptyPaths);
    }
    let first = rest.remove(0);
    let text = match first {
        Ok(t) => t,
        Err(e) => {
            return Err(ConfigError::Read(e));
        },
    };
    let mut acc = parse_document(text.as_str())?;
    let n = rest.len();
    let mut i: usize = 0;
    while i < n
        invariant
            0 <= i <= n,
            all == read_texts(texts@),
            all.len() == n + 1,
            rest@.len() == n - i,
            forall|j: int| 0 <= j < rest@.len() ==> all[j + i + 1] == match #[trigger] rest@[j] {
                Ok(t) => Ok(t@),
                Err(e) => Err::<Seq<char>, std::io::Error>(e),
            },
            acc.well_formed(),
            load_outcome(all) == fold_documents(acc.tree(), all, i + 1),
        decreases n - i,
    {
        let ghost before = rest@;
        let next = rest.remove(0);
        proof {
            assert(all[i + 1] == match next {
                Ok(t) => Ok(t@),
                Err(e) => Err::<Seq<char>, std::io::Error>(e),
            }) by {
                assert(before[0] == next);
            }
            assert forall|j: int| 0 <= j < rest@.len() implies all[j + (i + 1) + 1] == match #[trigger] rest@[j] {
                Ok(t) => Ok(t@),
                Err(e) => Err::<Seq<char>, std::io::Error>(e),
            } by {
                assert(rest@[j] == before[j + 1]);
            }
        }
        let t = match next {
            Ok(t) => t,
            Err(e) => {
                return Err(ConfigError::Read(e));
            },
        };
        let v = match parse_document(t.as_str()) {
            Ok(v) => v,
            Err(e) => {
                return Err(e);
            },
        };
        let ghost acc_tree = acc.tree();
        match merge_toml(acc, v, "$") {
            Ok(m) => {
                acc = m;
            },
            Err(c) => {
                assert(fold_documents(acc_tree, all, i + 1) == Err::<TomlTree, LoadFailure>(
                    LoadFailure::Merge(c@),
                ));
                return Err(ConfigError::Merge(c));
            },
        }
        i = i + 1;
    }
    Ok(acc)
}

proof fn lemma_fold_push(
    acc: TomlTree,
    texts: Seq<Result<Seq<char>, std::io::Error>>,
    x: Result<Seq<char>, std::io::Error>,
    i: int,
)
    requires
        1 <= i <= texts.len(),
    ensures
        fold_documents(acc, texts.push(x), i) == match fold_documents(acc, texts, i) {
            Err(f) => Err(f),
            Ok(m) => fold_documents(m, seq![x], 0),
        },
    decreases texts.len() - i,
{
    let all = texts.push(x);
    if i < texts.len() {
        assert(all[i] == texts[i]);
        match texts[i] {
            Err(_) => {},
            Ok(t) => match document_outcome(t) {
                Err(_) => {},
                Ok(v) => match merge_spec(acc, v, "$"@) {
                    Ok(m) => {
                        lemma_fold_push(m, texts, x, i + 1);
                    },
                    Err(_) => {},
                },
            },
        }
    } else {
        assert(all[i] == x);
        assert(seq![x][0] == x);
        match x {
            Err(_) => {},
            Ok(t) => match document_outcome(t) {
                Err(_) => {},
                Ok(v) => match merge_spec(acc, v, "$"@) {
                    Ok(m) => {
                        assert(fold_documents(m, all, i + 1) == Ok::<TomlTree, LoadFailure>(m));
                        assert(fold_documents(m, seq![x], 1) == Ok::<TomlTree, LoadFailure>(m));
                    },
                    Err(_) => {},
                },
            },
        }
    }
}

proof fn lemma_fold_single(m: TomlTree, x: Result<Seq<char>, std::io::Error>)
    ensures
        fold_documents(m, seq![x], 0) == match x {
            Err(e) => Err(LoadFailure::Read(e)),
            Ok(t) => match toml_parse(t) {
                Err(e) => Err(LoadFailure::Parse(e)),
                Ok(v) => match merge_spec(m, v, "$"@) {
                    Ok(r) => Ok(r),
                    Err(c) => Err(LoadFailure::Merge(c)),
                },
            },
        },
{
    assert(seq![x][0] == x);
    if let Ok(t) = x {
        if let Ok(v) = toml_parse(t) {
            if let Ok(r) = merge_spec(m, v, "$"@) {
                assert(fold_documents(r, seq![x], 1) == Ok::<TomlTree, LoadFailure>(r));
            }
        }
    }
}

/// Loading one more file deep-merges it, as the override, into what the
/// files before it make: an unreadable file is a read error, a file that
/// is not TOML a parse error, and otherwise its document is merged over
/// the configuration so far, its values winning on scalars.
pub proof fn lemma_load_merges_last_file_over_the_rest(
    texts: Seq<Result<Seq<char>, std::io::Error>>,
    x: Result<Seq<char>, std::io::Error>,
)
    requires
        texts.len() > 0,
    ensures
        load_outcome(texts.push(x)) == match load_outcome(texts) {
            Err(f) => Err(f),
            Ok(acc) => match x {
                Err(e) => Err(LoadFailure::Read(e)),
                Ok(t) => match toml_parse(t) {
                    Err(e) => Err(LoadFailure::Parse(e)),
                    Ok(v) => match merge_spec(acc, v, "$"@) {
                        Ok(m) => Ok(m),
                        Err(c) => Err(LoadFailure::Merge(c)),
                    },
                },
            },
        },
{
    let all = texts.push(x);
    assert(all[0] == texts[0]);
    match texts[0] {
        Err(_) => {},
        Ok(t) => match document_outcome(t) {
            Err(_) => {},
            Ok(v) => {
                lemma_fold_push(v, texts, x, 1);
                if let Ok(acc) = load_outcome(texts) {
                    lemma_fold_single(acc, x);
                }
            },
        },
    }
}

/// The first file alone is the configuration: its document, or why it
/// could not be had.
pub proof fn lemma_load_one_file(x: Result<Seq<char>, std::io::Error>)
    ensures
        load_outcome(seq![x]) == match x {
            Err(e) => Err(LoadFailure::Read(e)),
            Ok(t) => match toml_parse(t) {
                Err(e) => Err::<TomlTree, LoadFailure>(LoadFailure::Parse(e)),
                Ok(v) => Ok(v),
            },
        },
{
    assert(seq![x][0] == x);
}

/// Two files make the merge of the second's document, as the override,
/// into the first's: a key both set takes the second file's value.
pub proof fn lemma_load_two_files(t1: Seq<char>, t2: Seq<char>)
    requires
        toml_parse(t1) is Ok,
        toml_parse(t2) is Ok,
    ensures
        load_outcome(seq![Ok(t1), Ok(t2)]) == match merge_spec(
            toml_parse(t1)->Ok_0,
            toml_parse(t2)->Ok_0,
            "$"@,
        ) {
            Ok(m) => Ok(m),
            Err(c) => Err::<TomlTree, LoadFailure>(LoadFailure::Merge(c)),
        },
{
    let one = seq![Ok::<Seq<char>, std::io::Error>(t1)];
    lemma_load_one_file(Ok(t1));
    lemma_load_merges_last_file_over_the_rest(one, Ok(t2));
    assert(one.push(Ok(t2)) =~= seq![Ok(t1), Ok(t2)]);
}

/// Which account a name asks for.
pub enum AccountLookup {
    /// The account marked as default.
    Default,
    /// The account registered under this name.
    Named(String),
}

/// Whether `name` asks for the default account: it is absent, empty or
/// `default`.
pub open spec fn names_default(name: Option<Seq<char>>) -> bool {
    match name {
        None => true,
        Some(n) => n.len() == 0 || n == "default"@,
    }
}

/// Which account `name` asks for: the default one when it is absent,
/// empty or `default`, the one registered under it otherwise.
pub fn account_lookup(name: Option<&str>) -> (res: AccountLookup)
    ensures
        names_default(
            match name {
                Some(n) => Some(n@),
                None => None,
            },
        ) ==> res is Default,
        !names_default(
            match name {
                Some(n) => Some(n@),
                None => None,
            },
        ) ==> (res matches AccountLookup::Named(n) && n@ == name.unwrap()@),
{
    match name {
        None => AccountLookup::Default,
        Some(n) => {
            if n.unicode_len() == 0 || same_text(n, "default") {
                AccountLookup::Default
            } else {
                AccountLookup::Named(String::from_str(n))
            }
        },
    }
}

/// What taking an account answers, given what the configuration handed
/// back for `lookup`: the default account is optional, a named one that
/// is not there is an error.
pub fn account_result<A>(lookup: AccountLookup, found: Option<(String, A)>) -> (res: Result<
    Option<(String, A)>,
    ConfigError,
>)
    ensures
        lookup is Default ==> res == Ok::<Option<(String, A)>, ConfigError>(found),
        lookup matches AccountLookup::Named(n) ==> match found {
            Some(a) => res == Ok::<Option<(String, A)>, ConfigError>(Some(a)),
            None => res matches Err(ConfigError::AccountNotFound(m)) && m@ == n@,
        },
{
    match lookup {
        AccountLookup::Default => Ok(found),
        AccountLookup::Named(n) => match found {
            Some(a) => Ok(Some(a)),
            None => Err(ConfigError::AccountNotFound(n)),
        },
    }
}

/// Whether the first explicit configuration path is there.
#[derive(Debug)]
pub enum PathStatus {
    Missing,
    Present,
}

/// Whether the first explicit configuration path is there, given what
/// asking for its metadata gave: an error saying that it does not exist
/// means that it is missing, any other error is reported with the path.
pub fn path_status(path: &str, stat: Result<(), std::io::Error>) -> (res: Result<
    PathStatus,
    ConfigError,
>)
    ensures
        match stat {
            Ok(_) => res matches Ok(PathStatus::Present),
            Err(e) => if io_not_found(e) {
                res matches Ok(PathStatus::Missing)
            } else {
                res matches Err(ConfigError::Stat { path: p, error }) && p@ == path@ && error == e
            },
        },
{
    match stat {
        Ok(_) => Ok(PathStatus::Present),
        Err(e) => {
            if is_not_found(&e) {
                Ok(PathStatus::Missing)
            } else {
                Err(ConfigError::Stat { path: String::from_str(path), error: e })
            }
        },
    }
}

/// Where a configuration is loaded from.
pub enum LoadPlan {
    /// No path was given: look in the default locations.
    Defaults,
    /// The path given is not there: there is no configuration.
    NoConfig,
    /// Load the paths given.
    Paths,
}

/// Where a configuration is loaded from, given the status of the first
/// explicit path (`None` when no path was given): a missing explicit
/// path means there is no configuration, which callers take as the
/// signal to launch a wizard.
pub fn load_plan(first: Option<PathStatus>) -> (res: LoadPlan)
    ensures
        first is None ==> res is Defaults,
        first matches Some(PathStatus::Missing) ==> res is NoConfig,
        first matches Some(PathStatus::Present) ==> res is Paths,
{
    match first {
        None => LoadPlan::Defaults,
        Some(PathStatus::Missing) => LoadPlan::NoConfig,
        Some(PathStatus::Present) => LoadPlan::Paths,
    }
}

/// The path a brand-new configuration is written to: the first explicit
/// path if one was given, else the configuration already in effect,
/// else the platform default.
pub fn target_choice<P>(explicit: Option<P>, in_effect: Option<P>, platform: Result<
    P,
    ConfigError,
>) -> (res: Result<P, ConfigError>)
    ensures
        explicit matches Some(p) ==> res == Ok::<P, ConfigError>(p),
        explicit is None ==> (in_effect matches Some(p) ==> res == Ok::<P, ConfigError>(p)),
        explicit is None && in_effect is None ==> res == platform,
{
    match explicit {
        Some(p) => Ok(p),
        None => match in_effect {
            Some(p) => Ok(p),
            None => platform,
        },
    }
}

/// The first of the candidate paths that exists, each paired with
/// whether it does.
pub fn first_existing<P>(candidates: Vec<(P, bool)>) -> (res: Option<P>)
    ensures
        match res {
            Some(p) => exists|i: int|
                0 <= i < candidates@.len() && candidates@[i] == (p, true) && forall|j: int|
                    0 <= j < i ==> !(#[trigger] candidates@[j]).1,
            None => forall|j: int| 0 <= j < candidates@.len() ==> !(#[trigger] candidates@[j]).1,
        },
{
    let ghost all = candidates@;
    let mut rest = candidates;
    let n = rest.len();
    let mut i: usize = 0;
    while i < n
        invariant
            0 <= i <= n == all.len(),
            all == candidates@,
            rest@ == all.skip(i as int),
            forall|j: int| 0 <= j < i ==> !(#[trigger] all[j]).1,
        decreases n - i,
    {
        let (p, exists) = rest.remove(0);
        proof {
            assert(all[i as int] == (p, exists));
            assert(rest@ =~= all.skip(i + 1));
        }
        if exists {
            assert(all[i as int] == (p, true));
            return Some(p);
        }
        i = i + 1;
    }
    None
}

/// The name of the home-directory configuration file of a project:
/// `.<project>rc`.
pub fn rc_file_name(project: &str) -> (res: String)
    ensures
        res@ == "."@ + project@ + "rc"@,
{
    let mut name = String::from_str(".");
    name.append(project);
    name.append("rc");
    name
}

/// The directory a default configuration location starts from.
#[derive(Clone, Copy, Debug, PartialEq, Eq)]
pub enum ConfigBase {
    /// The platform configuration directory (`$XDG_CONFIG_HOME`).
    ConfigDir,
    /// The home directory.
    HomeDir,
}

/// A default configuration location: a base directory and the path
/// components below it.
#[derive(Debug)]
pub struct ConfigLocation {
    pub base: ConfigBase,
    pub components: Vec<String>,
}

impl ConfigLocation {
    /// The base and the texts of the components.
    pub open spec fn parts(&self) -> (ConfigBase, Seq<Seq<char>>) {
        (self.base, self.components@.map_values(|c: String| c@))
    }
}

/// The default configuration locations of a project, in the order they
/// are tried.
pub open spec fn default_locations_spec(project: Seq<char>) -> Seq<(ConfigBase, Seq<Seq<char>>)> {
    seq![
        (ConfigBase::ConfigDir, seq![project, "config.toml"@]),
        (ConfigBase::HomeDir, seq![".config"@, project, "config.toml"@]),
        (ConfigBase::HomeDir, seq!["."@ + project + "rc"@]),
    ]
}

/// `<project>/config.toml` in the platform configuration directory.
pub open spec fn platform_location_spec(project: Seq<char>) -> (ConfigBase, Seq<Seq<char>>) {
    (ConfigBase::ConfigDir, seq![project, "config.toml"@])
}

/// The default locations are, in order: where a new configuration goes
/// on this platform; the same path below the home directory's `.config`;
/// and the file `.<project>rc` directly in the home directory.
pub proof fn lemma_default_locations(project: Seq<char>)
    ensures
        default_locations_spec(project).len() == 3,
        default_locations_spec(project)[0] == platform_location_spec(project),
        default_locations_spec(project)[1] == (
            ConfigBase::HomeDir,
            seq![".config"@] + platform_location_spec(project).1,
        ),
        default_locations_spec(project)[2] == (ConfigBase::HomeDir, seq!["."@ + project + "rc"@]),
{
    assert(seq![".config"@] + platform_location_spec(project).1 =~= seq![
        ".config"@,
        project,
        "config.toml"@,
    ]);
}

/// Where a new configuration of `project` goes on this platform:
/// `<project>/config.toml` in the configuration directory.
pub fn platform_location(project: &str) -> (res: ConfigLocation)
    ensures
        res.parts() == default_locations_spec(project@)[0],
        res.parts() == platform_location_spec(project@),
{
    let mut components: Vec<String> = Vec::new();
    components.push(String::from_str(project));
    components.push(String::from_str("config.toml"));
    let res = ConfigLocation { base: ConfigBase::ConfigDir, components };
    assert(res.parts().1 =~= seq![project@, "config.toml"@]);
    res
}

/// The default configuration locations of `project`, in the order they
/// are tried: `<config dir>/<project>/config.toml`,
/// `<home>/.config/<project>/config.toml`, then `<home>/.<project>rc`.
pub fn default_locations(project: &str) -> (res: Vec<ConfigLocation>)
    ensures
        res@.map_values(|l: ConfigLocation| l.parts()) == default_locations_spec(project@),
        res@.len() == 3,
        res@[0].parts() == platform_location_spec(project@),
        res@[1].base == ConfigBase::HomeDir,
        res@[2].base == ConfigBase::HomeDir,
        res@[2].parts().1 == seq!["."@ + project@ + "rc"@],
{
    let mut res: Vec<ConfigLocation> = Vec::new();
    res.push(platform_location(project));
    let mut home: Vec<String> = Vec::new();
    home.push(String::from_str(".config"));
    home.push(String::from_str(project));
    home.push(String::from_str("config.toml"));
    let second = ConfigLocation { base: ConfigBase::HomeDir, components: home };
    assert(second.parts().1 =~= seq![".config"@, project@, "config.toml"@]);
    res.push(second);
    let mut rc: Vec<String> = Vec::new();
    rc.push(rc_file_name(project));
    let third = ConfigLocation { base: ConfigBase::HomeDir, components: rc };
    assert(third.parts().1 =~= seq!["."@ + project@ + "rc"@]);
    res.push(third);
    assert(res@.map_values(|l: ConfigLocation| l.parts()) =~= default_locations_spec(project@));
    res
}

} // verus!
