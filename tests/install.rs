use reskin::classify::{font_file, font_files, has_cursors, has_fonts, has_gtk_or_wm_components, has_icons};
use reskin::codec::{decode_bundle, encode_bundle, Asset};
use reskin::error::ThemeError;
use reskin::extract::plan_extraction;
use reskin::install::{install_summary, plan_install, Component};
use reskin::manifest::{check_manifest, check_theme_name, ThemeManifest};
use reskin::recent::{recent_entry, upsert_recent};

fn names(v: &[&str]) -> Vec<String> {
    v.iter().map(|s| s.to_string()).collect()
}

fn manifest(name: &str) -> ThemeManifest {
    ThemeManifest {
        name: name.to_string(),
        author: "x".to_string(),
        description: String::new(),
        version: "1.0".to_string(),
        tags: String::new(),
        license: String::new(),
    }
}

#[test]
fn classifier_detects_each_component() {
    assert!(has_gtk_or_wm_components(&names(&["README", "gtk-3.0"])));
    assert!(has_gtk_or_wm_components(&names(&["plank"])));
    assert!(!has_gtk_or_wm_components(&names(&["gtk-3.1", "icons"])));
    assert!(has_icons(&names(&["index.theme"])));
    assert!(has_icons(&names(&["48x48"])));
    assert!(!has_icons(&names(&["gtk-2.0"])));
    assert!(has_cursors(&names(&["cursor.theme"])));
    assert!(has_cursors(&names(&["cursors"])));
    assert!(!has_cursors(&names(&["cursor"])));
    assert!(has_fonts(&names(&["a", "Inter.woff2"])));
    assert!(!has_fonts(&names(&["ttf", "font.ttf.bak"])));
    assert!(!has_gtk_or_wm_components(&Vec::new()));
    assert!(!has_fonts(&Vec::new()));
}

#[test]
fn font_extension_follows_the_last_dot() {
    assert!(font_file("a.ttf"));
    assert!(font_file("x.y.otf"));
    assert!(font_file("..eot"));
    assert!(font_file("f.woff"));
    assert!(!font_file(".ttf"));
    assert!(!font_file("a.TTF"));
    assert!(!font_file("a.ttf2"));
    assert!(!font_file("attf"));
    assert_eq!(font_files(&names(&["b.otf", "c.png", "a.ttf"])), names(&["b.otf", "a.ttf"]));
}

#[test]
fn plan_replaces_each_detected_component() {
    let steps = plan_install("Nord", &names(&["gtk-3.0", "cursors", "Nord.ttf", "notes.txt"])).unwrap();
    let got: Vec<(Component, String, String, Option<Vec<String>>)> = steps
        .into_iter()
        .map(|s| (s.component, s.parent, s.dest, s.files))
        .collect();
    assert_eq!(
        got,
        vec![
            (Component::WindowManager, ".themes".to_string(), ".themes/Nord".to_string(), None),
            (
                Component::Cursors,
                ".local/share/icons".to_string(),
                ".local/share/icons/Nord-cursors".to_string(),
                None
            ),
            (
                Component::Fonts,
                ".local/share/fonts".to_string(),
                ".local/share/fonts/Nord".to_string(),
                Some(names(&["Nord.ttf"]))
            ),
        ]
    );
}

#[test]
fn plan_with_nothing_detected_is_empty() {
    let steps = plan_install("Nord", &names(&["README.md"])).unwrap();
    assert!(steps.is_empty());
    assert_eq!(
        install_summary("Nord", &Vec::new()),
        "Theme 'Nord' installed successfully!\nComponents: No compatible components found"
    );
}

#[test]
fn plan_refuses_unusable_theme_names() {
    for bad in ["", ".", "..", "a/b", "/abs"] {
        assert!(matches!(plan_install(bad, &names(&["gtk-3.0"])), Err(ThemeError::BadManifest)));
        assert!(matches!(check_theme_name(bad), Err(ThemeError::BadManifest)));
    }
    assert!(check_theme_name("Nord Dark").is_ok());
    assert!(matches!(check_manifest(&manifest("x/y")), Err(ThemeError::BadManifest)));
    assert!(check_manifest(&manifest("Nord")).is_ok());
}

#[test]
fn summary_lists_components_in_order() {
    let s = install_summary("Nord", &vec![Component::WindowManager, Component::Icons, Component::Fonts]);
    assert_eq!(
        s,
        "Theme 'Nord' installed successfully!\nComponents: GTK/Window Manager theme, Icons, Fonts"
    );
    assert_eq!(
        install_summary("N", &vec![Component::Cursors]),
        "Theme 'N' installed successfully!\nComponents: Cursors"
    );
}

#[test]
fn reinstall_with_fewer_components_replaces_only_those() {
    let first = plan_install("T", &names(&["gtk-3.0", "icons"])).unwrap();
    assert_eq!(first.len(), 2);
    let second = plan_install("T", &names(&["gtk-4.0"])).unwrap();
    assert_eq!(second.len(), 1);
    assert_eq!(second[0].component, Component::WindowManager);
    assert_eq!(second[0].dest, first[0].dest);
    assert_eq!(second[0].files, None);
}

#[test]
fn nord_bundle_installs_as_a_window_manager_theme() {
    let m = manifest("Nord");
    let manifest_json = br#"{"name":"Nord","author":"x","version":"1.0"}"#;
    let bytes = encode_bundle(
        manifest_json,
        &vec![Asset { name: "gtk-3.0/gtk.css".to_string(), data: b"body{}".to_vec() }],
    );
    let bundle = decode_bundle(&bytes).unwrap();
    assert_eq!(bundle.manifest_json, manifest_json.to_vec());
    let writes = plan_extraction(bundle).unwrap();
    let written: Vec<&str> = writes.iter().map(|w| w.name.as_str()).collect();
    assert_eq!(written, vec!["reskin.json", "gtk-3.0/gtk.css"]);
    assert_eq!(writes[1].data, b"body{}".to_vec());
    // A fresh extraction root then lists the sidecar and the one folder.
    let root = names(&["reskin.json", "gtk-3.0"]);
    assert!(has_gtk_or_wm_components(&root));
    assert!(!has_icons(&root));
    assert!(!has_cursors(&root));
    assert!(!has_fonts(&root));
    let steps = plan_install(&m.name, &root).unwrap();
    assert_eq!(steps.len(), 1);
    assert_eq!(steps[0].component, Component::WindowManager);
    assert_eq!(steps[0].dest, ".themes/Nord");
    let ledger = upsert_recent(&Vec::new(), recent_entry(&m, 1_700_000_000));
    assert_eq!(ledger.len(), 1);
    assert_eq!(ledger[0].name, "Nord");
    assert_eq!(ledger[0].author, "x");
    assert_eq!(ledger[0].installed_at, 1_700_000_000);
}

#[test]
fn icons_and_cursors_get_different_folders() {
    let steps = plan_install("T", &names(&["icons", "cursors"])).unwrap();
    assert_eq!(steps.len(), 2);
    assert_eq!(steps[0].component, Component::Icons);
    assert_eq!(steps[0].dest, ".local/share/icons/T");
    assert_eq!(steps[1].component, Component::Cursors);
    assert_eq!(steps[1].dest, ".local/share/icons/T-cursors");
    assert_eq!(steps[0].parent, steps[1].parent);
}

#[test]
fn cursors_only_reinstall_leaves_the_icon_folder_alone() {
    let first = plan_install("T", &names(&["index.theme", "cursors"])).unwrap();
    let icon_dest = first[0].dest.clone();
    let second = plan_install("T", &names(&["cursors"])).unwrap();
    assert_eq!(second.len(), 1);
    assert_eq!(second[0].component, Component::Cursors);
    assert_ne!(second[0].dest, icon_dest);
    assert!(!second[0].dest.starts_with(&format!("{}/", icon_dest)));
}
