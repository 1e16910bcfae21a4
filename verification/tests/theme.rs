use rproc::icon_theme::{
    active_theme, desktop_dirs, icon_bases, index_theme_path, search_dirs, ThemeChain,
};
use rproc::icons::IconIndex;
use rproc::resolver::Resolver;

#[test]
fn active_theme_from_gsettings_output() {
    assert_eq!(active_theme(Some("'Papirus-Dark'\n")), "Papirus-Dark");
    assert_eq!(active_theme(Some("  ''  ")), "hicolor");
    assert_eq!(active_theme(None), "hicolor");
}

#[test]
fn theme_chain_follows_inheritance_once() {
    let mut chain = ThemeChain::new("Papirus");
    assert_eq!(chain.next_theme(), Some("Papirus".to_string()));
    chain.read_index_theme("[Icon Theme]\nName=Papirus\nInherits=breeze, hicolor ,,Papirus\n");
    chain.advance();
    assert_eq!(chain.next_theme(), Some("breeze".to_string()));
    chain.read_index_theme("Inherits=hicolor,Adwaita\n");
    chain.advance();
    assert_eq!(chain.next_theme(), Some("hicolor".to_string()));
    chain.advance();
    chain.advance();
    assert_eq!(chain.next_theme(), None);
    assert_eq!(chain.finish(), vec!["Papirus", "breeze", "hicolor", "Adwaita"]);
    assert_eq!(ThemeChain::new("Mint").finish(), vec!["Mint", "hicolor", "Adwaita"]);
}

#[test]
fn directories() {
    assert_eq!(index_theme_path("/usr/share/icons", "Papirus"), "/usr/share/icons/Papirus/index.theme");
    assert_eq!(
        icon_bases(Some("/home/u")),
        vec!["/usr/share/icons", "/usr/local/share/icons", "/home/u/.local/share/icons", "/home/u/.icons"]
    );
    assert_eq!(icon_bases(None).len(), 2);
    assert_eq!(desktop_dirs(None).len(), 4);
    assert_eq!(desktop_dirs(Some("/home/u"))[5], "/home/u/.local/share/flatpak/exports/share/applications");
    let themes = vec!["A".to_string(), "B".to_string()];
    let bases = vec!["/x".to_string(), "/y/".to_string()];
    assert_eq!(search_dirs(&themes, &bases), vec!["/x/A", "/y/A", "/x/B", "/y/B"]);
}

#[test]
fn resolve_icon_finds_the_first_existing_file_and_caches() {
    let mut r = Resolver::new();
    r.load_theme_dirs(&vec!["/icons/Papirus".to_string()]);
    let exists = |p: &str| p == "/icons/Papirus/64x64/apps/firefox.png" || p == "/icons/Papirus/16x16/apps/firefox.svg";
    assert_eq!(
        r.resolve_icon("firefox", &exists),
        Some("file:///icons/Papirus/64x64/apps/firefox.png".to_string())
    );
    let nothing = |_: &str| false;
    assert_eq!(
        r.resolve_icon("firefox", &nothing),
        Some("file:///icons/Papirus/64x64/apps/firefox.png".to_string())
    );
    assert_eq!(r.resolve_icon("missing", &exists), None);
}

#[test]
fn resolve_icon_symbolic_and_absolute_names() {
    let mut r = Resolver::new();
    r.load_theme_dirs(&vec!["/t".to_string()]);
    let exists = |p: &str| p == "/t/scalable/status/net.svg" || p == "/opt/app/icon.png";
    assert_eq!(r.resolve_icon("net-symbolic", &exists), Some("file:///t/scalable/status/net.svg".to_string()));
    assert_eq!(r.resolve_icon("/opt/app/icon.png", &exists), Some("file:///opt/app/icon.png".to_string()));
    assert_eq!(r.resolve_icon("/opt/app/none.png", &exists), None);
}

#[test]
fn icon_uri_tries_index_prefix_name_and_fallback() {
    let mut idx = IconIndex::new();
    idx.insert("brave-browser-stable", "brave-icon");
    let mut r = Resolver::with_index(idx);
    r.load_theme_dirs(&vec!["/t".to_string()]);
    let exists = |p: &str| {
        p == "/t/48x48/apps/brave-icon.png"
            || p == "/t/48x48/apps/htop.svg"
            || p == "/t/48x48/mimetypes/application-x-executable.svg"
    };
    assert_eq!(
        r.icon_uri("brave-browser-s", "", &exists),
        Some("file:///t/48x48/apps/brave-icon.png".to_string())
    );
    assert_eq!(r.icon_uri("HTOP", "/usr/bin/htop", &exists), Some("file:///t/48x48/apps/htop.svg".to_string()));
    assert_eq!(
        r.icon_uri("unknownd", "", &exists),
        Some("file:///t/48x48/mimetypes/application-x-executable.svg".to_string())
    );
    let nothing = |_: &str| false;
    let mut bare = Resolver::new();
    assert_eq!(bare.icon_uri("x", "", &nothing), None);
}
