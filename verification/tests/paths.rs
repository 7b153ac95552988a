use system_trace::paths::{
    desktop_dir_candidates, gtk_settings_candidates, icon_dir_candidates, icon_theme_order,
    is_absolute_path, join_path, keep_existing_distinct, pixmap_candidates, pixmap_entry_matches,
    theme_dir_candidates, DirCandidate,
};

fn paths_of(c: &[DirCandidate]) -> Vec<(String, bool)> {
    c.iter().map(|d| (d.path.clone(), d.checked)).collect()
}

#[test]
fn join_follows_unix_path_rules() {
    assert_eq!(join_path("/usr/share", "icons"), "/usr/share/icons");
    assert_eq!(join_path("/usr/share/", "icons"), "/usr/share/icons");
    assert_eq!(join_path("", "icons"), "icons");
    assert_eq!(join_path("/usr", "/etc/x"), "/etc/x");
    assert!(is_absolute_path("/etc"));
    assert!(!is_absolute_path("etc"));
}

#[test]
fn desktop_dirs_follow_the_environment() {
    let c = desktop_dir_candidates(
        Some("/home/u".to_string()),
        Some("/home/u/.data".to_string()),
        Some("/a::/b/".to_string()),
    );
    assert_eq!(
        paths_of(&c),
        vec![
            ("/home/u/.local/share/applications".to_string(), false),
            ("/home/u/.data/applications".to_string(), true),
            ("/a/applications".to_string(), true),
            ("/b/applications".to_string(), true),
        ]
    );
    let c = desktop_dir_candidates(None, None, None);
    assert_eq!(
        paths_of(&c),
        vec![
            ("/usr/share/applications".to_string(), true),
            ("/usr/local/share/applications".to_string(), true),
        ]
    );
}

#[test]
fn icon_dirs_follow_the_environment() {
    let c = icon_dir_candidates(Some("/h".to_string()), None);
    assert_eq!(
        paths_of(&c),
        vec![
            ("/h/.local/share/icons".to_string(), false),
            ("/h/.icons".to_string(), false),
            ("/usr/share/icons".to_string(), true),
        ]
    );
    let c = icon_dir_candidates(None, Some("/x:/y".to_string()));
    assert_eq!(
        paths_of(&c),
        vec![("/x/icons".to_string(), true), ("/y/icons".to_string(), true)]
    );
}

#[test]
fn existing_dirs_are_kept_once() {
    let c = vec![
        DirCandidate { path: "/a".to_string(), checked: false },
        DirCandidate { path: "/b".to_string(), checked: true },
        DirCandidate { path: "/a/".to_string(), checked: true },
        DirCandidate { path: "/c".to_string(), checked: true },
        DirCandidate { path: "/b".to_string(), checked: false },
    ];
    let kept = keep_existing_distinct(&c, &vec![true, true, true, false, true]);
    assert_eq!(kept, vec!["/a".to_string(), "/b".to_string(), "/b".to_string()]);
}

#[test]
fn settings_theme_and_pixmap_paths() {
    assert_eq!(
        gtk_settings_candidates("/h"),
        vec!["/h/.config/gtk-3.0/settings.ini", "/h/.config/gtk-4.0/settings.ini"]
    );
    assert_eq!(icon_theme_order(Some("Papirus".to_string())), vec!["Papirus", "hicolor"]);
    assert_eq!(icon_theme_order(Some("hicolor".to_string())), vec!["hicolor"]);
    assert_eq!(icon_theme_order(None), vec!["hicolor"]);
    assert_eq!(
        theme_dir_candidates(&vec!["/b1".to_string(), "/b2".to_string()], &vec!["t1".to_string(), "t2".to_string()]),
        vec!["/b1/t1", "/b2/t1", "/b1/t2", "/b2/t2"]
    );
    assert_eq!(
        pixmap_candidates("Foo"),
        vec!["/usr/share/pixmaps/Foo.png", "/usr/share/pixmaps/foo.png"]
    );
    assert!(pixmap_entry_matches("FOO.png", "Foo"));
    assert!(!pixmap_entry_matches("foo.PNG.bak", "Foo"));
}
