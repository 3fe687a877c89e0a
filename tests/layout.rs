use fetch::config::{Display, DisplayTextField, Module, Modules, ResolvedModule};
use fetch::error::FetchError;
use fetch::layout::{compose, create_output, merge_columns, pad_lines, split_art, widest};
use fetch::osrelease::{OsInfo, OsRelease};

fn host() -> OsInfo {
    let mut facts = OsRelease::empty();
    facts.insert("PRETTY_NAME".to_string(), "Arch Linux".to_string());
    facts.insert("ID".to_string(), "arch".to_string());
    OsInfo {
        os_release_file_content: facts,
        os_type: "linux".to_string(),
        os_arch: "x86_64".to_string(),
        shell: "/bin/bash".to_string(),
        username: "alice".to_string(),
        os_release: "6.1.0".to_string(),
        hostname: "box".to_string(),
    }
}

fn module(name: &str, kind: &str) -> Module {
    Module {
        name: name.to_string(),
        key: None,
        format: None,
        separator_char: None,
        walls: None,
        module_type: kind.to_string(),
        execute: None,
    }
}

fn custom(name: &str, text: &str) -> Module {
    let mut m = module(name, "custom");
    m.format = Some(text.to_string());
    m
}

fn resolved(name: &str, label: &str, value: &str, kind: &str) -> ResolvedModule {
    ResolvedModule {
        name: name.to_string(),
        label: label.to_string(),
        value: value.to_string(),
        kind: kind.to_string(),
        separator_char: None,
    }
}

fn display(separator: Option<&str>, gap: Option<usize>) -> Display {
    Display {
        textfield: DisplayTextField { separator: separator.map(|s| s.to_string()), walls: None, gap },
        gap: None,
    }
}

fn names(v: &[&str]) -> Vec<String> {
    v.iter().map(|s| s.to_string()).collect()
}

#[test]
fn two_art_lines_beside_two_module_lines() {
    let modules = Modules {
        modules: names(&["os", "shell"]),
        definitions: vec![custom("os", "OS: Linux"), custom("shell", "Shell: bash")],
    };
    let out = create_output("AA\nBBBB\n".to_string(), host(), modules, display(None, None), vec![]).unwrap();
    assert_eq!(out, "  AA    OS: Linux\n  BBBB  Shell: bash\n");
}

#[test]
fn merge_of_given_lines() {
    let art = split_art("AA\nBBBB\n");
    let w = widest(&art);
    assert_eq!(w, 4);
    let padded = pad_lines(&art, w);
    let out = merge_columns(&padded, w, &names(&["OS: Linux", "Shell: bash"]));
    assert_eq!(out, "  AA    OS: Linux\n  BBBB  Shell: bash\n");
}

#[test]
fn rows_keep_one_width_and_taller_height() {
    let art = names(&["abc", "def", "ghi", "jkl", "mno"]);
    let out = merge_columns(&art, 3, &names(&["x", "yy"]));
    let rows: Vec<&str> = out.split_inclusive('\n').collect();
    assert_eq!(rows.len(), 5);
    for r in &rows {
        assert_eq!(&r[0..2], "  ");
        assert_eq!(&r[5..7], "  ");
    }
    // five art lines against two: the module lines start one row down
    assert_eq!(out, "  abc  \n  def  x\n  ghi  yy\n  jkl  \n  mno  \n");
}

#[test]
fn shorter_art_is_centred_and_blank_cells_are_padded() {
    let art = names(&["##"]);
    let out = merge_columns(&art, 2, &names(&["a", "b", "c", "d"]));
    assert_eq!(out, "      a\n      b\n  ##  c\n      d\n");
}

#[test]
fn equal_heights_start_on_the_same_row() {
    let art = names(&["1", "2", "3"]);
    let out = merge_columns(&art, 1, &names(&["a", "b", "c"]));
    assert_eq!(out, "  1  a\n  2  b\n  3  c\n");
}

#[test]
fn art_lines_are_padded_by_characters() {
    let art = split_art("\u{2500}\u{2500}\u{2500}\nab\n\n");
    assert_eq!(art.len(), 2);
    let w = widest(&art);
    assert_eq!(w, 3);
    let padded = pad_lines(&art, w);
    assert_eq!(padded[1], "ab ");
}

#[test]
fn separator_is_stretched_to_the_widest_line() {
    let mut sep = module("sep", "separator");
    sep.separator_char = Some('-');
    let mut shell = module("shell", "shell");
    shell.key = Some("SHELL".to_string());
    let modules = Modules { modules: names(&["shell", "sep"]), definitions: vec![shell, sep] };
    let out = create_output("X\n".to_string(), host(), modules, display(None, None), vec![]).unwrap();
    // "SHELL" and "/bin/bash" make fourteen characters; the single art
    // line is centred one row down against the two module lines
    assert_eq!(out, "     SHELL:/bin/bash\n  X  --------------\n");
}

#[test]
fn label_separator_and_value_are_padded_to_the_widest() {
    let rs = vec![resolved("os", "OS", "Linux", "os"), resolved("k", "KERNEL", "6.1.0", "kernel")];
    let out = compose("A\n", &names(&["os"]), &rs, &display(Some(": "), None)).unwrap();
    // widest is 6 + 5 = 11, so the value is padded to 11 - 2 = 9
    assert_eq!(out, "  A  OS: Linux    \n");
}

#[test]
fn fixed_gap_sets_the_value_width() {
    let rs = vec![resolved("os", "OS", "Linux", "os")];
    let out = compose("A\n", &names(&["os"]), &rs, &display(None, Some(10))).unwrap();
    // 10 - 2 - 1 = 7
    assert_eq!(out, "  A  OS:Linux  \n");
    let small = compose("A\n", &names(&["os"]), &rs, &display(None, Some(1))).unwrap();
    assert_eq!(small, "  A  OS:Linux\n");
}

#[test]
fn empty_label_shows_the_bare_value() {
    let rs = vec![resolved("uh", "", "alice@box", "userhost"), resolved("k", "KERNEL", "6.1.0", "kernel")];
    let out = compose("A\n", &names(&["uh"]), &rs, &display(None, None)).unwrap();
    assert_eq!(out, "  A  alice@box\n");
}

#[test]
fn empty_art_is_refused() {
    let rs = vec![resolved("os", "OS", "Linux", "os")];
    assert_eq!(compose("\n\n", &names(&["os"]), &rs, &display(None, None)), Err(FetchError::EmptyArt));
    let modules = Modules { modules: vec![], definitions: vec![module("x", "nothing")] };
    assert_eq!(create_output(String::new(), host(), modules, display(None, None), vec![]), Err(FetchError::EmptyArt));
}

#[test]
fn no_modules_is_refused() {
    let modules = Modules { modules: vec![], definitions: vec![] };
    assert_eq!(create_output("A\n".to_string(), host(), modules, display(None, None), vec![]), Err(FetchError::NoModules));
}

#[test]
fn undefined_module_is_refused() {
    let modules = Modules { modules: names(&["os", "ghost"]), definitions: vec![custom("os", "x")] };
    assert_eq!(
        create_output("A\n".to_string(), host(), modules, display(None, None), vec![]),
        Err(FetchError::UndefinedModule("ghost".to_string()))
    );
}

#[test]
fn later_definition_replaces_earlier() {
    let modules = Modules {
        modules: names(&["a"]),
        definitions: vec![custom("a", "first and longer"), custom("a", "second")],
    };
    let out = create_output("A\n".to_string(), host(), modules, display(None, None), vec![]).unwrap();
    assert_eq!(out, "  A  second\n");
}

#[test]
fn command_output_becomes_the_value() {
    let mut m = module("up", "custom");
    m.execute = Some(names(&["uptime", "-p"]));
    let modules = Modules { modules: names(&["up"]), definitions: vec![m.clone()] };
    let out = create_output("A\n".to_string(), host(), modules, display(None, None), vec![Some("up 3 hours".to_string())]).unwrap();
    assert_eq!(out, "  A  up 3 hours\n");
    let modules = Modules { modules: names(&["up"]), definitions: vec![m] };
    assert_eq!(
        create_output("A\n".to_string(), host(), modules, display(None, None), vec![None]),
        Err(FetchError::CommandFailed("uptime -p".to_string()))
    );
}

#[test]
fn formatted_separator_repeats_its_declared_character() {
    let mut sep = module("sep", "separator");
    sep.separator_char = Some('-');
    sep.format = Some("x{1}".to_string());
    let modules = Modules { modules: names(&["sep"]), definitions: vec![sep.clone()] };
    let out = create_output("X\n".to_string(), host(), modules, display(None, None), vec![]).unwrap();
    // "x-" is two characters wide, and the line repeats '-' to that width
    assert_eq!(out, "  X  --\n");

    sep.format = Some(String::new());
    let modules = Modules {
        modules: names(&["sep"]),
        definitions: vec![sep, custom("two", "ab")],
    };
    let out = create_output("X\n".to_string(), host(), modules, display(None, None), vec![]).unwrap();
    assert_eq!(out, "  X  --\n");
}
