use rui::cli::{crate_ident, fill, package_name, project_files, valid_project_name, ProjectTemplates};

#[test]
fn package_name_from_manifest() {
    let toml = "[workspace]\nname = \"ws\"\n\n[ package ]\nversion = \"0.1.0\"\n  name = 'my-app' \r\nedition = \"2021\"\n";
    assert_eq!(package_name(toml), Some("my_app".to_string()));
    assert_eq!(package_name("[package]\nnamed = \"x\"\nname=\"\"\"a-b\"\"\"\n"), Some("a_b".to_string()));
    assert_eq!(package_name("[dependencies]\nname = \"dep\"\n"), None);
    assert_eq!(package_name("name = \"top\"\n[package]\nversion = \"1\"\n"), None);
    assert_eq!(package_name(""), None);
    // the first `name` key of the section wins
    assert_eq!(package_name("[package]\nname = \"first\"\nname = \"second\"\n"), Some("first".to_string()));
}

#[test]
fn project_names() {
    assert!(valid_project_name("demo"));
    assert!(valid_project_name("my-app_2"));
    assert!(valid_project_name("_x"));
    assert!(valid_project_name("__"));
    assert!(!valid_project_name(""));
    assert!(!valid_project_name("_"));
    assert!(!valid_project_name("-a"));
    assert!(!valid_project_name("9lives"));
    assert!(!valid_project_name("a b"));
    assert!(!valid_project_name("café"));
    assert_eq!(crate_ident("my-app-x"), "my_app_x");
}

#[test]
fn templates_are_filled() {
    assert_eq!(fill("a {NAME} b {NAME}", "{NAME}", "x"), "a x b x");
    assert_eq!(fill("aaa", "aa", "b"), "ba");
    assert_eq!(fill("{NAM", "{NAME}", "x"), "{NAM");
    let t = ProjectTemplates {
        cargo: "name = \"{NAME}\"\nrui = { path = \"{RUI}\" }\n".to_string(),
        tailwind: "@tailwind base;".to_string(),
        lib: "// lib".to_string(),
        ssr: "fn main() { {NAME}::run() }".to_string(),
        data_mod: "// data".to_string(),
        api_mod: "// api".to_string(),
        view_mod: "// view".to_string(),
    };
    let files = project_files("my-app", "/ws/crates/rui", &t);
    assert_eq!(files.len(), 7);
    assert_eq!(files[0], ("Cargo.toml".to_string(), "name = \"my-app\"\nrui = { path = \"/ws/crates/rui\" }\n".to_string()));
    assert_eq!(files[1], ("tailwind.css".to_string(), "@tailwind base;".to_string()));
    assert_eq!(files[3], ("src/bin/ssr.rs".to_string(), "fn main() { my_app::run() }".to_string()));
    assert_eq!(files[6].0, "src/view/mod.rs");
}
