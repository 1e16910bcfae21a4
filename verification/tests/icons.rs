use rproc::desktop::{desktop_file_stem, is_desktop_file};
use rproc::icons::{desktop_candidates, exec_binary, parse_desktop, shell_split, IconIndex};
use rproc::resolver::Resolver;

#[test]
fn desktop_candidates_lowercases_and_extracts_stem() {
    let c = desktop_candidates("Code-Insiders", "/usr/bin/Code");
    assert_eq!(c[0], "code");
    assert_eq!(c[1], "code-insiders");
    assert_eq!(c[2], "code");
}

#[test]
fn desktop_candidates_empty_inputs_yield_empty_strings() {
    let c = desktop_candidates("", "");
    assert!(c.iter().all(|s| s.is_empty()));
}

#[test]
fn has_desktop_entry_matches_any_candidate() {
    let mut name_to_icon = IconIndex::new();
    name_to_icon.insert("firefox", "firefox");
    let r = Resolver::with_index(name_to_icon);
    assert!(r.has_desktop_entry("firefox", "/usr/lib/firefox/firefox-bin"));
    assert!(!r.has_desktop_entry("kworker/0:1", ""));
}

#[test]
fn shell_split_basic() {
    assert_eq!(shell_split("a b c"), vec!["a", "b", "c"]);
}

#[test]
fn shell_split_preserves_quoted_spaces() {
    assert_eq!(
        shell_split(r#"/usr/bin/foo "an arg" bar"#),
        vec!["/usr/bin/foo", "an arg", "bar"],
    );
}

#[test]
fn exec_binary_skips_env_assignments() {
    assert_eq!(exec_binary("FOO=bar baz"), Some("baz".to_string()));
}

#[test]
fn exec_binary_skips_env_command_wrapper() {
    assert_eq!(
        exec_binary("env VAR=1 /usr/bin/firefox"),
        Some("/usr/bin/firefox".to_string())
    );
}

#[test]
fn exec_binary_passes_through_absolute_path() {
    assert_eq!(
        exec_binary("/usr/bin/foo=weird"),
        Some("/usr/bin/foo=weird".to_string())
    );
}

#[test]
fn parse_desktop_basic_entry_indexes_by_file_stem() {
    let content = "\
[Desktop Entry]
Type=Application
Name=Firefox
Exec=/usr/bin/firefox %u
Icon=firefox
";
    let mut out = IconIndex::new();
    parse_desktop(content, "firefox", &mut out);
    assert_eq!(out.get("firefox"), Some("firefox".to_string()));
}

#[test]
fn parse_desktop_ignores_hidden_entries() {
    let content = "\
[Desktop Entry]
Type=Application
Name=Hidden app
Exec=/usr/bin/hidden
Icon=hidden
Hidden=true
";
    let mut out = IconIndex::new();
    parse_desktop(content, "hidden", &mut out);
    assert!(out.is_empty());
}

#[test]
fn parse_desktop_no_icon_skipped() {
    let content = "\
[Desktop Entry]
Type=Application
Exec=/usr/bin/foo
";
    let mut out = IconIndex::new();
    parse_desktop(content, "foo", &mut out);
    assert!(out.is_empty());
}

// ---------------------------------------------------------------------------
// Further cases
// ---------------------------------------------------------------------------

#[test]
fn shell_split_empty_and_blank_give_nothing() {
    assert!(shell_split("").is_empty());
    assert!(shell_split("   \t ").is_empty());
}

#[test]
fn shell_split_quotes_glue_words() {
    assert_eq!(shell_split(r#"a"b c"d e"#), vec!["ab cd", "e"]);
}

#[test]
fn exec_binary_skips_shell_wrappers() {
    assert_eq!(exec_binary("sh -c foo"), Some("-c".to_string()));
    assert_eq!(exec_binary("/usr/bin/env FOO=1 bash"), None);
    assert_eq!(exec_binary(""), None);
}

#[test]
fn desktop_candidates_keep_versioned_stems() {
    let c = desktop_candidates("python3.12", "/usr/bin/python3.12");
    assert_eq!(c[0], "python3.12");
}

#[test]
fn parse_desktop_indexes_exec_try_exec_and_wm_class() {
    let content = "[Desktop Entry]\nIcon=web\nExec=env A=1 /opt/Web/WebApp --x\nTryExec=/opt/web/bin/Launcher\nStartupWMClass=WebWin\n";
    let mut out = IconIndex::new();
    parse_desktop(content, "org.example.Web", &mut out);
    assert_eq!(out.get("webapp"), Some("web".to_string()));
    assert_eq!(out.get("launcher"), Some("web".to_string()));
    assert_eq!(out.get("webwin"), Some("web".to_string()));
    assert_eq!(out.get("org.example.web"), Some("web".to_string()));
    assert_eq!(out.len(), 4);
}

#[test]
fn parse_desktop_first_file_keeps_a_name() {
    let mut out = IconIndex::new();
    parse_desktop("[Desktop Entry]\nIcon=one\n", "app", &mut out);
    parse_desktop("[Desktop Entry]\nIcon=two\n", "app", &mut out);
    assert_eq!(out.get("app"), Some("one".to_string()));
}

#[test]
fn parse_desktop_hidden_is_case_insensitive_and_last_value_wins() {
    let mut out = IconIndex::new();
    parse_desktop("[Desktop Entry]\nIcon=a\nHidden=TRUE\n", "a", &mut out);
    assert!(out.is_empty());
    parse_desktop("[Desktop Entry]\nIcon=a\nIcon=b\n", "b", &mut out);
    assert_eq!(out.get("b"), Some("b".to_string()));
}

#[test]
fn parse_desktop_reads_only_the_main_group() {
    let mut out = IconIndex::new();
    parse_desktop("[Desktop Action New]\nIcon=other\n", "x", &mut out);
    assert!(out.is_empty());
}

#[test]
fn index_insert_overwrites_and_prefix_match_finds_first() {
    let mut idx = IconIndex::new();
    idx.insert("brave-browser-stable", "brave");
    idx.insert("code", "vscode");
    idx.insert("code", "code-oss");
    assert_eq!(idx.get("code"), Some("code-oss".to_string()));
    assert_eq!(idx.len(), 2);
    let p: Vec<char> = "brave-browser-s".chars().collect();
    let found = idx.prefix_match(&p).map(|v| v.into_iter().collect::<String>());
    assert_eq!(found, Some("brave".to_string()));
    assert!(idx.contains_key("code"));
    assert!(!idx.contains_key("cod"));
}

#[test]
fn desktop_files_by_extension_and_stem() {
    assert!(is_desktop_file("/usr/share/applications/org.gnome.Terminal.desktop"));
    assert!(!is_desktop_file("/usr/share/applications/.desktop"));
    assert!(!is_desktop_file("/usr/share/applications/mimeinfo.cache"));
    assert!(!is_desktop_file("/usr/share/applications/x.desktop.bak"));
    assert_eq!(desktop_file_stem("/a/org.gnome.Terminal.desktop"), "org.gnome.Terminal");
    assert_eq!(desktop_file_stem("/a/.hidden"), ".hidden");
    assert_eq!(desktop_file_stem("/"), "");
}

#[test]
fn index_never_shrinks() {
    let mut out = IconIndex::new();
    parse_desktop("[Desktop Entry]\nIcon=a\nExec=/bin/a\n", "a", &mut out);
    let before = out.len();
    parse_desktop("[Desktop Entry]\nIcon=b\nExec=/bin/a\n", "b", &mut out);
    assert!(out.len() >= before);
    parse_desktop("[Desktop Entry]\nHidden=true\nIcon=c\n", "c", &mut out);
    assert_eq!(out.len(), 2);
}
