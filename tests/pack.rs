use reskin::error::ThemeError;
use reskin::manifest::{BundleRequest, ThemeManifest};
use reskin::pack::plan_pack;

fn request(name: &str, dir: Option<&str>, assets: &[&str]) -> BundleRequest {
    BundleRequest {
        manifest: ThemeManifest {
            name: name.to_string(),
            author: String::new(),
            description: String::new(),
            version: String::new(),
            tags: String::new(),
            license: String::new(),
        },
        output_path: "/tmp/out.reskin".to_string(),
        assets: assets.iter().map(|s| s.to_string()).collect(),
        theme_directory: dir.map(|d| d.to_string()),
    }
}

fn plan(req: &BundleRequest) -> Vec<(String, String)> {
    plan_pack(req).unwrap().into_iter().map(|s| (s.path, s.name)).collect()
}

#[test]
fn assets_under_the_theme_directory_keep_their_relative_path() {
    let req = request("Nord", Some("/src/nord"), &["/src/nord/gtk-3.0/gtk.css", "icons/a.png", "/elsewhere/f.ttf"]);
    assert_eq!(
        plan(&req),
        vec![
            ("/src/nord/gtk-3.0/gtk.css".to_string(), "gtk-3.0/gtk.css".to_string()),
            ("/src/nord/icons/a.png".to_string(), "icons/a.png".to_string()),
            ("/elsewhere/f.ttf".to_string(), "f.ttf".to_string()),
        ]
    );
}

#[test]
fn without_a_theme_directory_assets_keep_their_file_name() {
    let req = request("Nord", None, &["/a/b/c.css", "plain.txt"]);
    assert_eq!(
        plan(&req),
        vec![
            ("/a/b/c.css".to_string(), "c.css".to_string()),
            ("plain.txt".to_string(), "plain.txt".to_string()),
        ]
    );
}

#[test]
fn packing_refuses_bad_names() {
    assert!(matches!(plan_pack(&request("a/b", None, &["x"])), Err(ThemeError::BadManifest)));
    match plan_pack(&request("ok", Some("/d"), &["x", "../up"])) {
        Err(ThemeError::UnsafeAssetName(n)) => assert_eq!(n, "../up"),
        _ => panic!("accepted"),
    }
    match plan_pack(&request("ok", None, &["/dir/"])) {
        Err(ThemeError::UnsafeAssetName(n)) => assert_eq!(n, "/dir/"),
        _ => panic!("accepted"),
    }
}

#[test]
fn colliding_file_names_are_refused() {
    match plan_pack(&request("ok", None, &["/a/x.css", "/b/x.css"])) {
        Err(ThemeError::DuplicateAssetName(n)) => assert_eq!(n, "/b/x.css"),
        _ => panic!("collision accepted"),
    }
    match plan_pack(&request("ok", Some("/t"), &["/elsewhere/x.css", "x.css"])) {
        Err(ThemeError::DuplicateAssetName(n)) => assert_eq!(n, "x.css"),
        _ => panic!("collision accepted"),
    }
}

#[test]
fn same_file_name_in_different_theme_folders_is_kept() {
    let req = request("ok", Some("/t"), &["/t/a/x.css", "/t/b/x.css"]);
    assert_eq!(
        plan(&req),
        vec![
            ("/t/a/x.css".to_string(), "a/x.css".to_string()),
            ("/t/b/x.css".to_string(), "b/x.css".to_string()),
        ]
    );
}
