use system_trace::icon::{
    bgra_to_rgba, extract_icon_rgba, extract_size_from_path, icon_name_from_desktop,
    resolve_linux_icon, theme_name_from_settings, IconLookupEvent, IconLookupStep,
};
use system_trace::paths::{desktop_entry_matches, desktop_file_candidates, icon_file_matches};
use system_trace::search::{
    find_desktop_file, find_icon_file, DesktopSearchEvent, DesktopSearchStep, FoundFile,
    IconSearchEvent, IconSearchStep,
};

// The lookup's decisions, run on the files and texts that the file system
// would give them; the probing of a real file system is the caller's.
#[test]
fn test_linux_icon_resolution_logic() {
    let apps_dir = "/tmp/system_trace_test_icons/applications".to_string();
    let desktop_file_path = "/tmp/system_trace_test_icons/applications/mock-app.desktop";
    let dirs = vec![apps_dir];
    let candidates = desktop_file_candidates(&dirs, "mock-app");
    assert_eq!(candidates[0], desktop_file_path);
    match find_desktop_file(&dirs, "mock-app", DesktopSearchEvent::Start) {
        DesktopSearchStep::CheckCandidate(0, p) => assert_eq!(p, desktop_file_path),
        _ => panic!("expected the exact name first"),
    }
    match find_desktop_file(&dirs, "mock-app", DesktopSearchEvent::CandidateChecked(0, true)) {
        DesktopSearchStep::Done(Some(p)) => assert_eq!(p, desktop_file_path),
        _ => panic!("expected the desktop file"),
    }

    let desktop_content = "[Desktop Entry]\nName=Mock App\nExec=mock-app\nIcon=mock-icon-name\n";
    let icon_name = icon_name_from_desktop(desktop_content);
    assert_eq!(icon_name, Some("mock-icon-name".to_string()));

    assert_eq!(
        extract_size_from_path("/usr/share/icons/hicolor/128x128/apps/icon.png"),
        Some(128)
    );
    assert_eq!(extract_size_from_path("icons/hicolor/256/apps/icon.png"), Some(256));
    assert_eq!(extract_size_from_path("flat/icon.png"), None);

    let icon_png_path = "/tmp/system_trace_test_icons/icons/hicolor/48x48/apps/mock-icon-name.png";
    assert!(icon_file_matches("mock-icon-name.png", "mock-icon-name"));
    let theme_dirs = vec!["/tmp/system_trace_test_icons/icons/hicolor".to_string()];
    let files = vec![FoundFile {
        path: icon_png_path.to_string(),
        name: Some("mock-icon-name.png".to_string()),
    }];
    assert!(matches!(
        find_icon_file(&theme_dirs, "mock-icon-name", IconSearchEvent::ThemeDirSearched(0, Some(files))),
        IconSearchStep::FoundInTheme(0)
    ));

    assert!(matches!(resolve_linux_icon(IconLookupEvent::Start), IconLookupStep::FindDesktopFile));
    assert!(matches!(
        resolve_linux_icon(IconLookupEvent::DesktopFileFound(true)),
        IconLookupStep::ReadDesktopFile
    ));
    match resolve_linux_icon(IconLookupEvent::DesktopFileRead(Some(desktop_content.to_string()))) {
        IconLookupStep::FindIconFile(name) => assert_eq!(name, "mock-icon-name"),
        _ => panic!("expected an icon name"),
    }
    match resolve_linux_icon(IconLookupEvent::IconFileFound(Some(icon_png_path.to_string()))) {
        IconLookupStep::Done(Some(p)) => assert!(p.ends_with("mock-icon-name.png")),
        _ => panic!("expected the icon path"),
    }
}

#[test]
fn size_from_path_edge_cases() {
    assert_eq!(extract_size_from_path("48x32/apps/16x16/x.png"), Some(16));
    assert_eq!(extract_size_from_path("a\\64x64\\b"), Some(64));
    assert_eq!(extract_size_from_path("+32/x"), Some(32));
    assert_eq!(extract_size_from_path("scalable/apps"), None);
    assert_eq!(extract_size_from_path("4294967296/x"), None);
    assert_eq!(extract_size_from_path("4294967295/x"), Some(4294967295));
    assert_eq!(extract_size_from_path(""), None);
    assert_eq!(extract_size_from_path("x/7"), Some(7));
}

#[test]
fn desktop_icon_outside_entry_is_a_fallback() {
    let text = "[Other]\nIcon=other\n[Desktop Entry]\nIcon=  main  \n";
    assert_eq!(icon_name_from_desktop(text), Some("main".to_string()));
    let text = "[Other]\nIcon=first\nIcon=second\n[Desktop Action]\nIcon=\n";
    assert_eq!(icon_name_from_desktop(text), Some("first".to_string()));
    assert_eq!(icon_name_from_desktop("Name=x\r\nIcon= \r\n"), None);
    assert_eq!(icon_name_from_desktop("  [Desktop Entry]  \r\n\tIcon=abc\r\n"), Some("abc".to_string()));
}

#[test]
fn lookup_stops_at_a_missing_piece() {
    assert!(matches!(
        resolve_linux_icon(IconLookupEvent::DesktopFileFound(false)),
        IconLookupStep::Done(None)
    ));
    assert!(matches!(
        resolve_linux_icon(IconLookupEvent::DesktopFileRead(None)),
        IconLookupStep::Done(None)
    ));
    assert!(matches!(
        resolve_linux_icon(IconLookupEvent::DesktopFileRead(Some("Name=x".to_string()))),
        IconLookupStep::Done(None)
    ));
    assert!(matches!(
        resolve_linux_icon(IconLookupEvent::IconFileFound(None)),
        IconLookupStep::Done(None)
    ));
}

#[test]
fn theme_name_is_read_from_settings() {
    let ini = "[Settings]\ngtk-theme-name=Adwaita\ngtk-icon-theme-name = Papirus \n";
    assert_eq!(theme_name_from_settings(ini), Some("Papirus".to_string()));
    assert_eq!(theme_name_from_settings("gtk-icon-theme-name=\ngtk-icon-theme-name=B"), Some("B".to_string()));
    assert_eq!(theme_name_from_settings("gtk-icon-theme-name Papirus"), None);
    assert_eq!(theme_name_from_settings(""), None);
}

#[test]
fn desktop_entries_match_by_lower_cased_occurrence() {
    assert!(desktop_entry_matches("org.mozilla.Firefox.desktop", "firefox"));
    assert!(desktop_entry_matches("firefox-esr.desktop", "Firefox"));
    assert!(!desktop_entry_matches("firefox.desktop.bak", "firefox"));
    assert!(!desktop_entry_matches("chromium.desktop", "firefox"));
}

fn found(path: &str) -> FoundFile {
    FoundFile {
        path: path.to_string(),
        name: Some(path.rsplit('/').next().unwrap().to_string()),
    }
}

#[test]
fn theme_search_prefers_apps_then_size_then_order() {
    let files = vec![
        found("/t/hicolor/256x256/mimetypes/x.png"),
        found("/t/hicolor/512x512/apps/y.png"),
        found("/t/hicolor/48x48/apps/x.png"),
        found("/t/hicolor/128x128/Apps/x.png"),
        found("/t/hicolor/128x128/apps/z/X.PNG"),
        FoundFile { path: "/t/hicolor/999x999/apps/odd".to_string(), name: None },
    ];
    let dirs = vec!["/t/hicolor".to_string()];
    assert!(matches!(
        find_icon_file(&dirs, "x", IconSearchEvent::ThemeDirSearched(0, Some(files))),
        IconSearchStep::FoundInTheme(3)
    ));
}

#[test]
fn icon_search_order() {
    let dirs = vec!["/b/t1".to_string(), "/b/t2".to_string()];
    assert!(matches!(find_icon_file(&dirs, "/abs/x.png", IconSearchEvent::Start), IconSearchStep::CheckAbsoluteFile));
    match find_icon_file(&dirs, "/abs/x.png", IconSearchEvent::AbsoluteFileChecked(true)) {
        IconSearchStep::FoundPath(p) => assert_eq!(p, "/abs/x.png"),
        _ => panic!("expected the absolute path"),
    }
    match find_icon_file(&dirs, "x", IconSearchEvent::Start) {
        IconSearchStep::SearchThemeDir(0, d) => assert_eq!(d, "/b/t1"),
        _ => panic!("expected the first theme"),
    }
    let no_match = vec![found("/b/t1/apps/y.png")];
    match find_icon_file(&dirs, "x", IconSearchEvent::ThemeDirSearched(0, Some(no_match))) {
        IconSearchStep::SearchThemeDir(1, d) => assert_eq!(d, "/b/t2"),
        _ => panic!("expected the second theme"),
    }
    assert!(matches!(
        find_icon_file(&dirs, "x", IconSearchEvent::ThemeDirSearched(1, None)),
        IconSearchStep::CheckPixmapsDir
    ));
    assert!(matches!(find_icon_file(&dirs, "x", IconSearchEvent::PixmapsDirChecked(false)), IconSearchStep::NotFound));
    match find_icon_file(&dirs, "Foo", IconSearchEvent::PixmapsDirChecked(true)) {
        IconSearchStep::CheckPixmapCandidate(0, p) => assert_eq!(p, "/usr/share/pixmaps/Foo.png"),
        _ => panic!("expected the exact pixmap"),
    }
    match find_icon_file(&dirs, "Foo", IconSearchEvent::PixmapCandidateChecked(0, false)) {
        IconSearchStep::CheckPixmapCandidate(1, p) => assert_eq!(p, "/usr/share/pixmaps/foo.png"),
        _ => panic!("expected the lower-case pixmap"),
    }
    match find_icon_file(&dirs, "Foo", IconSearchEvent::PixmapCandidateChecked(1, true)) {
        IconSearchStep::FoundPath(p) => assert_eq!(p, "/usr/share/pixmaps/foo.png"),
        _ => panic!("expected the lower-case pixmap"),
    }
    assert!(matches!(
        find_icon_file(&dirs, "Foo", IconSearchEvent::PixmapCandidateChecked(1, false)),
        IconSearchStep::ListPixmaps
    ));
    let names = vec!["bar.png".to_string(), "FOO.png".to_string(), "foo.png".to_string()];
    match find_icon_file(&dirs, "Foo", IconSearchEvent::PixmapsListed(names)) {
        IconSearchStep::FoundPath(p) => assert_eq!(p, "/usr/share/pixmaps/FOO.png"),
        _ => panic!("expected the first listed match"),
    }
    assert!(matches!(
        find_icon_file(&dirs, "Foo", IconSearchEvent::PixmapsListed(vec![])),
        IconSearchStep::NotFound
    ));
}

#[test]
fn desktop_search_order() {
    let dirs = vec!["/d1".to_string(), "/d2".to_string()];
    match find_desktop_file(&dirs, "App", DesktopSearchEvent::CandidateChecked(0, false)) {
        DesktopSearchStep::CheckCandidate(1, p) => assert_eq!(p, "/d1/app.desktop"),
        _ => panic!("expected the lower-case name"),
    }
    match find_desktop_file(&dirs, "App", DesktopSearchEvent::CandidateChecked(1, false)) {
        DesktopSearchStep::CheckCandidate(2, p) => assert_eq!(p, "/d2/App.desktop"),
        _ => panic!("expected the next directory"),
    }
    match find_desktop_file(&dirs, "App", DesktopSearchEvent::CandidateChecked(3, false)) {
        DesktopSearchStep::ListDir(0, d) => assert_eq!(d, "/d1"),
        _ => panic!("expected the first listing"),
    }
    let names = vec!["other.desktop".to_string(), "org.App.desktop".to_string(), "app-x.desktop".to_string()];
    match find_desktop_file(&dirs, "App", DesktopSearchEvent::DirListed(0, names)) {
        DesktopSearchStep::Done(Some(p)) => assert_eq!(p, "/d1/org.App.desktop"),
        _ => panic!("expected the first listed match"),
    }
    match find_desktop_file(&dirs, "App", DesktopSearchEvent::DirListed(0, vec![])) {
        DesktopSearchStep::ListDir(1, d) => assert_eq!(d, "/d2"),
        _ => panic!("expected the next listing"),
    }
    assert!(matches!(
        find_desktop_file(&dirs, "App", DesktopSearchEvent::DirListed(1, vec![])),
        DesktopSearchStep::Done(None)
    ));
    assert!(matches!(
        find_desktop_file(&vec![], "App", DesktopSearchEvent::Start),
        DesktopSearchStep::Done(None)
    ));
}

#[test]
fn icon_files_match_case_insensitively() {
    assert!(icon_file_matches("Firefox.PNG", "firefox"));
    assert!(!icon_file_matches("firefox.svg", "firefox"));
}

#[test]
fn icon_from_bgra_keeps_the_size() {
    let (w, h, px) = system_trace::icon::icon_from_bgra(2, 1, vec![1, 2, 3, 0, 5, 6, 7, 9]);
    assert_eq!((w, h), (2, 1));
    assert_eq!(px, vec![3, 2, 1, 0, 7, 6, 5, 9]);
}

#[test]
fn bgra_becomes_rgba() {
    let out = bgra_to_rgba(vec![1, 2, 3, 4, 5, 6, 7, 0, 9]);
    assert_eq!(out, vec![3, 2, 1, 4, 7, 6, 5, 0, 9]);
}

#[test]
fn bgra_without_alpha_becomes_opaque() {
    let out = bgra_to_rgba(vec![1, 2, 3, 0, 5, 6, 7, 0, 9, 9]);
    assert_eq!(out, vec![3, 2, 1, 255, 7, 6, 5, 255, 9, 9]);
}

fn tiny_png() -> Vec<u8> {
    let img = image::RgbaImage::from_raw(2, 1, vec![10, 20, 30, 255, 40, 50, 60, 128]).unwrap();
    let mut bytes = std::io::Cursor::new(Vec::new());
    img.write_to(&mut bytes, image::ImageFormat::Png).unwrap();
    bytes.into_inner()
}

#[test]
fn png_icon_decodes_to_rgba() {
    let png = tiny_png();
    let (w, h, px) = extract_icon_rgba("/x/icon.png", Some(&png)).unwrap();
    assert_eq!((w, h), (2, 1));
    assert_eq!(px.len(), 4 * 2 * 1);
    assert_eq!(px, vec![10, 20, 30, 255, 40, 50, 60, 128]);
}

#[test]
fn icon_extraction_refuses_none_unknown_formats_and_missing_files() {
    let png = tiny_png();
    assert!(extract_icon_rgba("none", Some(&png)).is_none());
    assert!(extract_icon_rgba("/x/icon.svg", Some(&png)).is_none());
    assert!(extract_icon_rgba("/x/icon", Some(&png)).is_none());
    assert!(extract_icon_rgba("/x/icon.png", None).is_none());
    assert!(extract_icon_rgba("/x/icon.png", Some(b"not a png")).is_none());
}
