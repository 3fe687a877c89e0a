//! The configuration model and the module resolver.
use vstd::prelude::*;
use crate::error::{FetchError, Fault};
use crate::osrelease::OsInfo;
use crate::template::{join_values, join_words, render, render_format, views};
use crate::text::{push_char, push_str, same_text};

verus! {

broadcast use vstd::string::group_string_axioms;

/// Art blocks given inline in the configuration, one per platform.
#[derive(Debug, Clone)]
pub struct Art {
    pub linux: Option<String>,
    pub macos: Option<String>,
    pub freebsd: Option<String>,
    pub netbsd: Option<String>,
    pub openbsd: Option<String>,
}

/// The whole configuration.
#[derive(Debug, Clone)]
pub struct Config {
    pub general: General,
    pub modules: Modules,
    pub display: Display,
    pub art: Option<Art>,
}

#[derive(Debug, Clone)]
pub struct General {
    pub default_art: String,
    pub art_directory: Option<String>,
}

#[derive(Debug, Clone)]
pub struct Display {
    pub textfield: DisplayTextField,
    pub gap: Option<usize>,
}

/// Options of the text column: the string between a label and its value
/// (`:` when absent) and a fixed width for the label, separator and value.
#[derive(Debug, Clone)]
pub struct DisplayTextField {
    pub separator: Option<String>,
    pub walls: Option<String>,
    pub gap: Option<usize>,
}

/// The names to display, in order, and the definitions they refer to.
#[derive(Debug, Clone)]
pub struct Modules {
    pub modules: Vec<String>,
    pub definitions: Vec<Module>,
}

/// One module definition as configured.
#[derive(Debug, Clone)]
pub struct Module {
    pub name: String,
    pub key: Option<String>,
    pub format: Option<String>,
    pub separator_char: Option<char>,
    pub walls: Option<bool>,
    pub module_type: String,
    pub execute: Option<Vec<String>>,
}

/// A module resolved against the host: its label, its value and its type,
/// under its name.
#[derive(Debug, Clone)]
pub struct ResolvedModule {
    pub name: String,
    pub label: String,
    pub value: String,
    pub kind: String,
    /// The declared character of a `separator` module, which its line repeats.
    pub separator_char: Option<char>,
}

/// The characters of an optional string.
pub open spec fn opt_text(o: Option<String>) -> Option<Seq<char>> {
    match o {
        Some(s) => Some(s@),
        None => None,
    }
}

/// What `str::to_lowercase` makes of a string.
pub uninterp spec fn lower_of(s: Seq<char>) -> Seq<char>;

/// Relies on `str::to_lowercase`: the result depends on the characters alone.
#[verifier::external_body]
fn lowercase(s: &str) -> (r: String)
    ensures
        r@ == lower_of(s@),
{
    s.to_lowercase()
}

impl Art {
    /// The art configured for the (already lower-case) platform name `q`.
    pub open spec fn art_for(&self, q: Seq<char>) -> Option<Seq<char>> {
        if q == "linux"@ {
            opt_text(self.linux)
        } else if q == "macos"@ {
            opt_text(self.macos)
        } else if q == "freebsd"@ {
            opt_text(self.freebsd)
        } else if q == "netbsd"@ {
            opt_text(self.netbsd)
        } else if q == "openbsd"@ {
            opt_text(self.openbsd)
        } else {
            None
        }
    }

    /// The art configured for a platform name that is already lower case.
    pub fn art_for_lowered(&self, lowered: &str) -> (r: Option<String>)
        ensures
            opt_text(r) == self.art_for(lowered@),
    {
        if same_text(lowered, "linux") {
            self.linux.clone()
        } else if same_text(lowered, "macos") {
            self.macos.clone()
        } else if same_text(lowered, "freebsd") {
            self.freebsd.clone()
        } else if same_text(lowered, "netbsd") {
            self.netbsd.clone()
        } else if same_text(lowered, "openbsd") {
            self.openbsd.clone()
        } else {
            None
        }
    }

    /// The art configured for a platform name, in any letter case.
    pub fn get_art(&self, query: &String) -> (r: Option<String>)
        ensures
            opt_text(r) == self.art_for(lower_of(query@)),
    {
        let lowered = lowercase(query.as_str());
        self.art_for_lowered(lowered.as_str())
    }
}

/// Where the art block is read from.
#[derive(Debug, Clone)]
pub enum ArtSource {
    /// The file named by `general.default_art`.
    DefaultFile,
    /// Art given inline in the configuration.
    Configured(String),
    /// The art directory: the file named like the platform, else `unknown`.
    Directory,
}

/// The platform name whose art is wanted: the one asked for, else the `ID`
/// of the release descriptor, else the operating-system identifier.
pub open spec fn logo_query(info: OsInfo, custom_logo: Option<Seq<char>>) -> Seq<char> {
    match custom_logo {
        Some(l) => l,
        None => match info.os_release_file_content.value_of("ID"@) {
            Some(id) => id,
            None => info.os_type@,
        },
    }
}

/// The platform name whose art is wanted.
pub fn logo_name(info: &OsInfo, custom_logo: &Option<String>) -> (r: String)
    ensures
        r@ == logo_query(*info, opt_text(*custom_logo)),
{
    match custom_logo {
        Some(l) => l.clone(),
        None => match info.os_release_file_content.get("ID") {
            Some(id) => id,
            None => info.os_type.clone(),
        },
    }
}

impl Config {
    /// Where the art for platform `query` comes from: the default art file
    /// where it is present and no logo was asked for, else the inline art
    /// for the platform, else the art directory.
    pub fn art_source(&self, default_art_present: bool, custom_logo: bool, query: &String) -> (r: ArtSource)
        ensures
            default_art_present && !custom_logo ==> r is DefaultFile,
            !(default_art_present && !custom_logo) ==> match r {
                ArtSource::DefaultFile => false,
                ArtSource::Configured(a) => self.art matches Some(art) && art.art_for(lower_of(query@))
                    == Some(a@),
                ArtSource::Directory => !(self.art matches Some(art) && art.art_for(
                    lower_of(query@),
                ) is Some),
            },
    {
        if default_art_present && !custom_logo {
            return ArtSource::DefaultFile;
        }
        match &self.art {
            Some(art) => match art.get_art(query) {
                Some(a) => ArtSource::Configured(a),
                None => ArtSource::Directory,
            },
            None => ArtSource::Directory,
        }
    }
}

/// Which of the file names `names` is the art for platform `wanted`.
pub fn choose_art_file(names: &Vec<String>, wanted: &str) -> (r: Option<usize>)
    ensures
        r matches Some(k) ==> k < names@.len() && names@[k as int]@ == wanted@ && forall|j: int|
            0 <= j < k ==> #[trigger] names@[j]@ != wanted@,
        r is None ==> forall|j: int| 0 <= j < names@.len() ==> #[trigger] names@[j]@ != wanted@,
{
    let mut i: usize = 0;
    while i < names.len()
        invariant
            i <= names@.len(),
            forall|j: int| 0 <= j < i ==> #[trigger] names@[j]@ != wanted@,
        decreases names@.len() - i,
    {
        if same_text(names[i].as_str(), wanted) {
            return Some(i);
        }
        i = i + 1;
    }
    None
}

/// Which directory holds the art files.
#[derive(Debug, Clone)]
pub enum ArtDirectory {
    /// The one named by `general.art_directory`.
    Configured(String),
    /// `art` under this tool's directory in the user's configuration.
    User,
    /// The system-wide art directory.
    System,
    /// None of them is present.
    Missing,
}

impl Config {
    /// The art directory: the configured one, else the user's where it is
    /// present, else the system's where it is present.
    pub fn art_directory(&self, user_art_present: bool, system_art_present: bool) -> (r: ArtDirectory)
        ensures
            match self.general.art_directory {
                Some(d) => r is Configured && r->Configured_0@ == d@,
                None => if user_art_present {
                    r is User
                } else if system_art_present {
                    r is System
                } else {
                    r is Missing
                },
            },
    {
        match &self.general.art_directory {
            Some(d) => ArtDirectory::Configured(d.clone()),
            None => if user_art_present {
                ArtDirectory::User
            } else if system_art_present {
                ArtDirectory::System
            } else {
                ArtDirectory::Missing
            },
        }
    }

    /// The default art file: the one `general.default_art` names where it is
    /// present, else (`None`) the file `default` in the art directory.
    pub fn default_art_path(&self, configured_present: bool) -> (r: Option<String>)
        ensures
            configured_present ==> r is Some && r->Some_0@ == self.general.default_art@,
            !configured_present ==> r is None,
    {
        if configured_present {
            Some(self.general.default_art.clone())
        } else {
            None
        }
    }
}

/// The text of the default art file, refused when it is empty.
pub fn default_art_text(text: String) -> (r: Option<String>)
    ensures
        r is Some <==> text@.len() > 0,
        r matches Some(t) ==> t@ == text@,
{
    if text.as_str().unicode_len() > 0 {
        Some(text)
    } else {
        None
    }
}

/// Which configuration file to read.
#[derive(Debug, Clone)]
pub enum ConfigSource {
    /// The file given on the command line.
    Given(String),
    /// The command line asked for a file but named none.
    MissingArgument,
    /// The system-wide file, where the user's could not be checked.
    System,
    /// `config.toml` in this tool's directory of the user's configuration.
    User,
}

/// Which configuration file to read: the one given on the command line,
/// else the system's where the user's could not be checked, else the user's.
pub fn config_source(custom: &(bool, Vec<String>), user_check_failed: bool) -> (r: ConfigSource)
    ensures
        custom.0 && custom.1@.len() > 0 ==> r is Given && r->Given_0@ == custom.1@[0]@,
        custom.0 && custom.1@.len() == 0 ==> r is MissingArgument,
        !custom.0 && user_check_failed ==> r is System,
        !custom.0 && !user_check_failed ==> r is User,
{
    if custom.0 {
        if custom.1.len() > 0 {
            ConfigSource::Given(custom.1[0].clone())
        } else {
            ConfigSource::MissingArgument
        }
    } else if user_check_failed {
        ConfigSource::System
    } else {
        ConfigSource::User
    }
}

/// The directory name, under the user's configuration directory, that holds
/// this tool's files on the platform `os_type`.
pub fn config_dir_name(os_type: &str) -> (r: &'static str)
    ensures
        r@ == (if os_type@ == "macos"@ {
            "se.spamix.fetch"@
        } else {
            "fetch"@
        }),
{
    if same_text(os_type, "macos") {
        "se.spamix.fetch"
    } else {
        "fetch"
    }
}

/// The label of a module: its `key`, or nothing.
pub open spec fn label_text(m: Module) -> Seq<char> {
    match m.key {
        Some(k) => k@,
        None => Seq::empty(),
    }
}

/// Whether `t` names one of the module types whose value comes from
/// positional values.
pub open spec fn is_positional_type(t: Seq<char>) -> bool {
    t == "shell"@ || t == "kernel"@ || t == "userhost"@ || t == "os"@ || t == "separator"@
}

/// The positional values that a module of a positional type produces.
pub open spec fn positional(info: OsInfo, m: Module) -> Seq<Seq<char>> {
    let t = m.module_type@;
    if t == "shell"@ {
        seq![info.shell@]
    } else if t == "kernel"@ {
        seq![info.os_release@]
    } else if t == "userhost"@ {
        seq![info.username@, info.hostname@]
    } else if t == "os"@ {
        let facts = info.os_release_file_content;
        seq![
            match facts.value_of("PRETTY_NAME"@) {
                Some(v) => v,
                None => info.os_type@,
            },
            match facts.value_of("VERSION_ID"@) {
                Some(v) => v,
                None => Seq::empty(),
            },
            info.os_arch@,
        ]
    } else {
        seq![seq![m.separator_char->Some_0]]
    }
}

/// A command and its arguments as one line, separated by spaces.
pub open spec fn command_line(cmd: Seq<Seq<char>>) -> Seq<char>
    decreases cmd.len(),
{
    if cmd.len() == 0 {
        Seq::empty()
    } else if cmd.len() == 1 {
        cmd[0]
    } else {
        command_line(cmd.drop_last()) + seq![' '] + cmd.last()
    }
}

/// The value of module `m` on host `info`, where `output` is what its
/// command printed, if it was run and could be started.
pub open spec fn module_value(info: OsInfo, m: Module, output: Option<Seq<char>>) -> Result<
    Seq<char>,
    Fault,
> {
    let t = m.module_type@;
    if t == "custom"@ {
        match m.format {
            Some(f) => Ok(f@),
            None => match m.execute {
                Some(cmd) => match output {
                    Some(o) => Ok(o),
                    None => Err(Fault::CommandFailed(command_line(views(cmd@)))),
                },
                None => Err(Fault::MissingFormatOrExecute(m.name@)),
            },
        }
    } else if !is_positional_type(t) {
        Err(Fault::UnknownModuleType(t))
    } else if t == "separator"@ && m.separator_char is None {
        Err(Fault::MissingSeparatorChar(m.name@))
    } else {
        match m.format {
            Some(f) => render(f@, positional(info, m)),
            None => Ok(join_words(positional(info, m))),
        }
    }
}

/// The mathematical content of a [`ResolvedModule`].
pub struct ResolvedView {
    pub name: Seq<char>,
    pub label: Seq<char>,
    pub value: Seq<char>,
    pub kind: Seq<char>,
    pub separator_char: Option<char>,
}

impl View for ResolvedModule {
    type V = ResolvedView;

    open spec fn view(&self) -> ResolvedView {
        ResolvedView {
            name: self.name@,
            label: self.label@,
            value: self.value@,
            kind: self.kind@,
            separator_char: self.separator_char,
        }
    }
}

/// Module `m` resolved on host `info`, where `output` is what its command
/// printed, if it was run and could be started: its name, its label, its
/// value and its type, or the fault that stops the render.
pub open spec fn resolve_view(info: OsInfo, m: Module, output: Option<Seq<char>>) -> Result<
    ResolvedView,
    Fault,
> {
    match module_value(info, m, output) {
        Ok(v) => Ok(
            ResolvedView {
                name: m.name@,
                label: label_text(m),
                value: v,
                kind: m.module_type@,
                separator_char: m.separator_char,
            },
        ),
        Err(e) => Err(e),
    }
}

/// A resolution result seen through the views of its two sides.
pub open spec fn resolved_result(r: Result<ResolvedModule, FetchError>) -> Result<
    ResolvedView,
    Fault,
> {
    match r {
        Ok(m) => Ok(m@),
        Err(e) => Err(e@),
    }
}

/// The names of the module types differ from one another.
pub proof fn lemma_type_names_distinct()
    ensures
        "custom"@ != "shell"@,
        "custom"@ != "kernel"@,
        "custom"@ != "userhost"@,
        "custom"@ != "os"@,
        "custom"@ != "separator"@,
        "shell"@ != "kernel"@,
        "shell"@ != "userhost"@,
        "shell"@ != "os"@,
        "shell"@ != "separator"@,
        "kernel"@ != "userhost"@,
        "kernel"@ != "os"@,
        "kernel"@ != "separator"@,
        "userhost"@ != "os"@,
        "userhost"@ != "separator"@,
        "os"@ != "separator"@,
{
    reveal_strlit("custom");
    reveal_strlit("shell");
    reveal_strlit("kernel");
    reveal_strlit("userhost");
    reveal_strlit("os");
    reveal_strlit("separator");
    assert("custom"@.len() == 6);
    assert("shell"@.len() == 5);
    assert("kernel"@.len() == 6);
    assert("userhost"@.len() == 8);
    assert("os"@.len() == 2);
    assert("separator"@.len() == 9);
    assert("custom"@[0] != "kernel"@[0]);
}

/// A command and its arguments as one line.
fn join_command(cmd: &Vec<String>) -> (r: String)
    ensures
        r@ == command_line(views(cmd@)),
{
    let ghost vs = views(cmd@);
    let mut out = String::new();
    let mut i: usize = 0;
    while i < cmd.len()
        invariant
            vs == views(cmd@),
            i <= cmd@.len(),
            out@ == command_line(vs.subrange(0, i as int)),
        decreases cmd@.len() - i,
    {
        assert(vs.subrange(0, i + 1).drop_last() =~= vs.subrange(0, i as int));
        if i > 0 {
            push_char(&mut out, ' ');
        }
        push_str(&mut out, cmd[i].as_str());
        i = i + 1;
    }
    assert(vs.subrange(0, cmd@.len() as int) =~= vs);
    out
}

impl Config {
    /// The command that module `module` asks to run, if its value is to be
    /// read from a command's output: a `custom` module with `execute` and no
    /// `format`.
    pub fn module_command(module: &Module) -> (r: Option<Vec<String>>)
        ensures
            r matches Some(cmd) ==> module.module_type@ == "custom"@ && module.format is None
                && module.execute is Some && cmd@ == module.execute->Some_0@,
            r is None ==> !(module.module_type@ == "custom"@ && module.format is None
                && module.execute is Some),
    {
        if same_text(module.module_type.as_str(), "custom") && module.format.is_none() {
            match &module.execute {
                Some(cmd) => {
                    let copy = cmd.clone();
                    assert(copy@ =~= cmd@);
                    Some(copy)
                },
                None => None,
            }
        } else {
            None
        }
    }

    /// Resolves `module` against the host facts `info`. `command_output` is
    /// what the module's command printed, or `None` where it could not be
    /// started; it is read only by a `custom` module with `execute` and no
    /// `format`.
    pub fn parse_module(info: &OsInfo, module: &Module, command_output: Option<String>) -> (r: Result<
        ResolvedModule,
        FetchError,
    >)
        ensures
            resolved_result(r) == resolve_view(*info, *module, opt_text(command_output)),
    {
        proof {
            lemma_type_names_distinct();
        }
        let t = module.module_type.as_str();
        let value: String;
        if same_text(t, "custom") {
            match &module.format {
                Some(f) => {
                    value = f.clone();
                },
                None => match &module.execute {
                    Some(cmd) => match command_output {
                        Some(o) => {
                            value = o;
                        },
                        None => {
                            return Err(FetchError::CommandFailed(join_command(cmd)));
                        },
                    },
                    None => {
                        return Err(FetchError::MissingFormatOrExecute(module.name.clone()));
                    },
                },
            }
        } else {
            let mut vals: Vec<String> = Vec::new();
            if same_text(t, "shell") {
                vals.push(info.shell.clone());
            } else if same_text(t, "kernel") {
                vals.push(info.os_release.clone());
            } else if same_text(t, "userhost") {
                vals.push(info.username.clone());
                vals.push(info.hostname.clone());
            } else if same_text(t, "os") {
                let facts = &info.os_release_file_content;
                match facts.get("PRETTY_NAME") {
                    Some(v) => vals.push(v),
                    None => vals.push(info.os_type.clone()),
                }
                match facts.get("VERSION_ID") {
                    Some(v) => vals.push(v),
                    None => vals.push(String::new()),
                }
                vals.push(info.os_arch.clone());
            } else if same_text(t, "separator") {
                match module.separator_char {
                    Some(c) => {
                        let mut one = String::new();
                        push_char(&mut one, c);
                        vals.push(one);
                    },
                    None => {
                        return Err(FetchError::MissingSeparatorChar(module.name.clone()));
                    },
                }
            } else {
                return Err(FetchError::UnknownModuleType(module.module_type.clone()));
            }
            assert(views(vals@) =~= positional(*info, *module));
            match &module.format {
                Some(f) => match render_format(f.as_str(), &vals) {
                    Ok(v) => {
                        value = v;
                    },
                    Err(e) => {
                        return Err(e);
                    },
                },
                None => {
                    value = join_values(&vals);
                },
            }
        }
        let label = match &module.key {
            Some(k) => k.clone(),
            None => String::new(),
        };
        let name = module.name.clone();
        let kind = module.module_type.clone();
        Ok(ResolvedModule { name, label, value, kind, separator_char: module.separator_char })
    }
}

/// Resolving one definition twice on the same host gives the same outcome,
/// the same label and the same value: resolution keeps no state.
pub proof fn lemma_resolution_repeatable(
    info: OsInfo,
    m: Module,
    output: Option<Seq<char>>,
    first: Result<ResolvedModule, FetchError>,
    second: Result<ResolvedModule, FetchError>,
)
    requires
        resolved_result(first) == resolve_view(info, m, output),
        resolved_result(second) == resolve_view(info, m, output),
    ensures
        first is Ok <==> second is Ok,
        first is Ok ==> first->Ok_0@ == second->Ok_0@,
        first is Err ==> first->Err_0@ == second->Err_0@,
{
}
} // verus!
