use fetch::config::{
    choose_art_file, config_dir_name, config_source, default_art_text, logo_name, Art, ArtDirectory,
    ArtSource, Config, ConfigSource, Display, DisplayTextField, General, Module, Modules,
};
use fetch::error::FetchError;
use fetch::osrelease::{OsInfo, OsRelease};
use fetch::template::{join_values, render_format};

fn host() -> OsInfo {
    let mut facts = OsRelease::empty();
    facts.insert("PRETTY_NAME".to_string(), "Arch Linux".to_string());
    facts.insert("ID".to_string(), "arch".to_string());
    OsInfo {
        os_release_file_content: facts,
        os_type: "linux".to_string(),
        os_arch: "x86_64".to_string(),
        shell: "/bin/zsh".to_string(),
        username: "alice".to_string(),
        os_release: "6.1.0".to_string(),
        hostname: "box".to_string(),
    }
}

fn module(name: &str, kind: &str) -> Module {
    Module {
        name: name.to_string(),
        key: None,
        format: None,
        separator_char: None,
        walls: None,
        module_type: kind.to_string(),
        execute: None,
    }
}

fn strings(v: &[&str]) -> Vec<String> {
    v.iter().map(|s| s.to_string()).collect()
}

fn value_of(m: &Module) -> Result<String, FetchError> {
    Config::parse_module(&host(), m, None).map(|r| r.value)
}

#[test]
fn empty_value_suppresses_its_piece() {
    // the dash belongs to the piece of the second value, so it goes with it
    assert_eq!(render_format("{1}-{2}", &strings(&["foo", ""])).unwrap(), "foo");
    // and stays where that value is present
    assert_eq!(render_format("{1}-{2}", &strings(&["", "bar"])).unwrap(), "-bar");
    assert_eq!(render_format("{1}-{2}", &strings(&["foo", "bar"])).unwrap(), "foo-bar");
    assert_eq!(render_format("{1}@{2}", &strings(&["alice", "box"])).unwrap(), "alice@box");
}

#[test]
fn text_outside_placeholders_is_dropped() {
    assert_eq!(render_format("v{1} trailing", &strings(&["1"])).unwrap(), "v1");
    assert_eq!(render_format("", &strings(&["1"])).unwrap(), "");
}

#[test]
fn bad_placeholders_are_refused() {
    assert_eq!(render_format("a{x}", &strings(&["1"])), Err(FetchError::BadPlaceholder("a{x}".to_string())));
    assert_eq!(render_format("ok{1}a{", &strings(&["1"])), Err(FetchError::BadPlaceholder("a{".to_string())));
    assert_eq!(render_format("{3}", &strings(&["1", "2"])), Err(FetchError::PlaceholderOutOfRange("{3}".to_string())));
    assert_eq!(render_format("{0}", &strings(&["1"])), Err(FetchError::PlaceholderOutOfRange("{0}".to_string())));
}

#[test]
fn values_join_with_single_spaces() {
    assert_eq!(join_values(&strings(&["a", "", "b"])), "a b");
    assert_eq!(join_values(&strings(&["a", ""])), "a");
    assert_eq!(join_values(&strings(&["", ""])), "");
}

#[test]
fn userhost_without_format_joins_with_a_space() {
    assert_eq!(value_of(&module("uh", "userhost")).unwrap(), "alice box");
}

#[test]
fn shell_kernel_and_os_values() {
    assert_eq!(value_of(&module("s", "shell")).unwrap(), "/bin/zsh");
    assert_eq!(value_of(&module("k", "kernel")).unwrap(), "6.1.0");
    assert_eq!(value_of(&module("o", "os")).unwrap(), "Arch Linux x86_64");
    let mut o = module("o", "os");
    o.format = Some("{1} {2} ({3})".to_string());
    // the closing parenthesis stands in a piece without placeholder
    assert_eq!(value_of(&o).unwrap(), "Arch Linux (x86_64");
    let mut bare = host();
    bare.os_release_file_content = OsRelease::empty();
    let r = Config::parse_module(&bare, &module("o", "os"), None).unwrap();
    assert_eq!(r.value, "linux x86_64");
}

#[test]
fn label_name_and_kind_are_carried() {
    let mut m = module("k", "kernel");
    m.key = Some("KERNEL".to_string());
    let r = Config::parse_module(&host(), &m, None).unwrap();
    assert_eq!((r.name.as_str(), r.label.as_str(), r.value.as_str(), r.kind.as_str()), ("k", "KERNEL", "6.1.0", "kernel"));
}

#[test]
fn resolving_twice_gives_the_same() {
    let mut m = module("uh", "userhost");
    m.format = Some("{1}@{2}".to_string());
    let a = Config::parse_module(&host(), &m, None).unwrap();
    let b = Config::parse_module(&host(), &m, None).unwrap();
    assert_eq!((a.label, a.value), (b.label, b.value));
}

#[test]
fn custom_without_format_or_execute_is_refused() {
    assert_eq!(
        value_of(&module("c", "custom")),
        Err(FetchError::MissingFormatOrExecute("c".to_string()))
    );
}

#[test]
fn custom_format_is_taken_verbatim() {
    let mut m = module("c", "custom");
    m.format = Some("{1} stays".to_string());
    assert_eq!(value_of(&m).unwrap(), "{1} stays");
}

#[test]
fn separator_needs_its_character() {
    assert_eq!(value_of(&module("sep", "separator")), Err(FetchError::MissingSeparatorChar("sep".to_string())));
    let mut m = module("sep", "separator");
    m.separator_char = Some('=');
    assert_eq!(value_of(&m).unwrap(), "=");
}

#[test]
fn unknown_type_is_refused() {
    assert_eq!(value_of(&module("x", "battery")), Err(FetchError::UnknownModuleType("battery".to_string())));
}

#[test]
fn command_is_asked_only_when_needed() {
    let mut m = module("c", "custom");
    m.execute = Some(strings(&["echo", "hi"]));
    assert_eq!(Config::module_command(&m), Some(strings(&["echo", "hi"])));
    m.format = Some("x".to_string());
    assert_eq!(Config::module_command(&m), None);
}

#[test]
fn release_text_is_parsed() {
    let r = OsRelease::new("NAME=\"Arch Linux\"\r\nID=arch\nbroken line\nID=\"other\"\n");
    assert_eq!(r.get("NAME"), Some("Arch Linux".to_string()));
    assert_eq!(r.get("ID"), Some("other".to_string()));
    assert_eq!(r.get("broken line"), None);
    let q = OsRelease::new("A=\"x\"y\"");
    assert_eq!(q.get("A"), Some("xy\"".to_string()));
}

fn art() -> Art {
    Art {
        linux: Some("penguin".to_string()),
        macos: None,
        freebsd: Some("daemon".to_string()),
        netbsd: None,
        openbsd: None,
    }
}

#[test]
fn art_lookup_ignores_letter_case() {
    assert_eq!(art().get_art(&"LINUX".to_string()), Some("penguin".to_string()));
    assert_eq!(art().get_art(&"FreeBSD".to_string()), Some("daemon".to_string()));
    assert_eq!(art().get_art(&"macos".to_string()), None);
    assert_eq!(art().get_art(&"haiku".to_string()), None);
    assert_eq!(art().art_for_lowered("LINUX"), None);
}

fn config() -> Config {
    Config {
        general: General { default_art: "~/art".to_string(), art_directory: None },
        modules: Modules { modules: vec![], definitions: vec![] },
        display: Display { textfield: DisplayTextField { separator: None, walls: None, gap: None }, gap: None },
        art: Some(art()),
    }
}

#[test]
fn art_source_order() {
    let c = config();
    assert!(matches!(c.art_source(true, false, &"linux".to_string()), ArtSource::DefaultFile));
    match c.art_source(true, true, &"Linux".to_string()) {
        ArtSource::Configured(a) => assert_eq!(a, "penguin"),
        other => panic!("unexpected {:?}", other),
    }
    assert!(matches!(c.art_source(false, false, &"arch".to_string()), ArtSource::Directory));
}

#[test]
fn logo_name_and_directories() {
    assert_eq!(logo_name(&host(), &Some("gentoo".to_string())), "gentoo");
    assert_eq!(logo_name(&host(), &None), "arch");
    let mut bare = host();
    bare.os_release_file_content = OsRelease::empty();
    assert_eq!(logo_name(&bare, &None), "linux");
    assert_eq!(config_dir_name("macos"), "se.spamix.fetch");
    assert_eq!(config_dir_name("linux"), "fetch");
    assert_eq!(choose_art_file(&strings(&["unknown", "arch", "arch"]), "arch"), Some(1));
    assert_eq!(choose_art_file(&strings(&["unknown"]), "arch"), None);
}

#[test]
fn art_directory_order() {
    let mut c = config();
    assert!(matches!(c.art_directory(true, true), ArtDirectory::User));
    assert!(matches!(c.art_directory(false, true), ArtDirectory::System));
    assert!(matches!(c.art_directory(false, false), ArtDirectory::Missing));
    c.general.art_directory = Some("/opt/art".to_string());
    match c.art_directory(true, true) {
        ArtDirectory::Configured(d) => assert_eq!(d, "/opt/art"),
        other => panic!("unexpected {:?}", other),
    }
}

#[test]
fn default_art_file_and_text() {
    let c = config();
    assert_eq!(c.default_art_path(true), Some("~/art".to_string()));
    assert_eq!(c.default_art_path(false), None);
    assert_eq!(default_art_text(String::new()), None);
    assert_eq!(default_art_text("/\\".to_string()), Some("/\\".to_string()));
}

#[test]
fn configuration_file_order() {
    match config_source(&(true, strings(&["my.toml"])), true) {
        ConfigSource::Given(f) => assert_eq!(f, "my.toml"),
        other => panic!("unexpected {:?}", other),
    }
    assert!(matches!(config_source(&(true, vec![]), false), ConfigSource::MissingArgument));
    assert!(matches!(config_source(&(false, vec![]), true), ConfigSource::System));
    assert!(matches!(config_source(&(false, vec![]), false), ConfigSource::User));
}

#[test]
fn carriage_return_goes_with_its_line_feed_only() {
    assert_eq!(OsRelease::new("ID=x\r").get("ID"), Some("x\r".to_string()));
    assert_eq!(OsRelease::new("ID=x\r\n").get("ID"), Some("x".to_string()));
    assert_eq!(OsRelease::new("ID=x\r\nA=b\r").get("A"), Some("b\r".to_string()));
}
