use agentlens::module::{detect_modules, get_module_files, path_to_slug, BoundaryType, ModuleInfo};
use agentlens::types::{FileEntry, Language};

fn make_file(relative_path: &str) -> FileEntry {
    FileEntry {
        path: relative_path.to_string(),
        relative_path: relative_path.to_string(),
        extension: relative_path.split('.').last().map(|s| s.to_string()),
        language: Language::Rust,
        size_bytes: 100,
        line_count: 50,
        is_large: false,
    }
}

#[test]
fn test_path_to_slug() {
    assert_eq!(path_to_slug("src/analyze"), "src-analyze");
    assert_eq!(path_to_slug("src/analyze/lang"), "src-analyze-lang");
    assert_eq!(path_to_slug(""), "root");
    assert_eq!(path_to_slug("."), "root");
}

#[test]
fn test_detect_rust_modules() {
    let files = vec![
        make_file("src/lib.rs"),
        make_file("src/main.rs"),
        make_file("src/analyze/mod.rs"),
        make_file("src/analyze/parser.rs"),
        make_file("src/analyze/lang/mod.rs"),
        make_file("src/analyze/lang/rust.rs"),
    ];

    let modules = detect_modules(&files);

    assert!(modules.iter().any(|m| m.path == "src"));
    assert!(modules.iter().any(|m| m.path == "src/analyze"));
    assert!(modules.iter().any(|m| m.path == "src/analyze/lang"));

    let src_module = modules.iter().find(|m| m.path == "src").unwrap();
    assert_eq!(src_module.boundary_type, BoundaryType::RustModule);

    let analyze_module = modules.iter().find(|m| m.path == "src/analyze").unwrap();
    assert_eq!(analyze_module.boundary_type, BoundaryType::RustModule);
}

#[test]
fn test_detect_python_packages() {
    let files = vec![
        make_file("mypackage/__init__.py"),
        make_file("mypackage/core.py"),
        make_file("mypackage/utils/__init__.py"),
        make_file("mypackage/utils/helpers.py"),
    ];

    let files: Vec<FileEntry> = files
        .into_iter()
        .map(|mut f| {
            f.language = Language::Python;
            f
        })
        .collect();

    let modules = detect_modules(&files);

    assert!(modules.iter().any(|m| m.path == "mypackage"));
    assert!(modules.iter().any(|m| m.path == "mypackage/utils"));

    let pkg_module = modules.iter().find(|m| m.path == "mypackage").unwrap();
    assert_eq!(pkg_module.boundary_type, BoundaryType::PythonPackage);
}

#[test]
fn test_detect_js_modules() {
    let files = vec![
        make_file("src/index.ts"),
        make_file("src/app.ts"),
        make_file("src/components/index.tsx"),
        make_file("src/components/Button.tsx"),
        make_file("src/utils/index.js"),
        make_file("src/utils/format.js"),
    ];

    let modules = detect_modules(&files);

    assert!(modules.iter().any(|m| m.path == "src"));
    assert!(modules.iter().any(|m| m.path == "src/components"));
    assert!(modules.iter().any(|m| m.path == "src/utils"));

    let components = modules.iter().find(|m| m.path == "src/components").unwrap();
    assert_eq!(components.boundary_type, BoundaryType::JsModule);
}

#[test]
fn test_detect_implicit_modules() {
    let files: Vec<FileEntry> = (0..6)
        .map(|i| make_file(&format!("src/services/service{}.rs", i)))
        .collect();

    let modules = detect_modules(&files);

    let services = modules.iter().find(|m| m.path == "src/services");
    assert!(services.is_some());
    assert_eq!(services.unwrap().boundary_type, BoundaryType::Implicit);
}

#[test]
fn test_implicit_threshold_not_met() {
    let files: Vec<FileEntry> = (0..3)
        .map(|i| make_file(&format!("src/small/file{}.rs", i)))
        .collect();

    let modules = detect_modules(&files);

    let small = modules.iter().find(|m| m.path == "src/small");
    assert!(small.is_none());
}

#[test]
fn test_nested_module_relationships() {
    let files = vec![
        make_file("src/lib.rs"),
        make_file("src/analyze/mod.rs"),
        make_file("src/analyze/lang/mod.rs"),
    ];

    let modules = detect_modules(&files);

    let lang_module = modules.iter().find(|m| m.path == "src/analyze/lang").unwrap();
    assert_eq!(lang_module.parent, Some("src-analyze".to_string()));

    let analyze_module = modules.iter().find(|m| m.path == "src/analyze").unwrap();
    assert!(analyze_module.children.contains(&"src-analyze-lang".to_string()));
}

#[test]
fn test_file_assignment() {
    let files = vec![
        make_file("src/lib.rs"),
        make_file("src/main.rs"),
        make_file("src/analyze/mod.rs"),
        make_file("src/analyze/parser.rs"),
    ];

    let modules = detect_modules(&files);

    let analyze = modules.iter().find(|m| m.path == "src/analyze").unwrap();
    assert!(analyze.files.contains(&"src/analyze/mod.rs".to_string()));
    assert!(analyze.files.contains(&"src/analyze/parser.rs".to_string()));

    let src = modules.iter().find(|m| m.path == "src").unwrap();
    assert!(src.files.contains(&"src/lib.rs".to_string()));
    assert!(src.files.contains(&"src/main.rs".to_string()));
}

#[test]
fn modules_are_sorted_and_orphans_go_to_root() {
    let files = vec![
        make_file("README.md"),
        make_file("zeta/mod.rs"),
        make_file("alpha/mod.rs"),
        make_file("alpha/b.rs"),
        make_file("alpha/a.rs"),
    ];
    let modules = detect_modules(&files);
    let paths: Vec<&str> = modules.iter().map(|m| m.path.as_str()).collect();
    assert_eq!(paths, vec!["", "alpha", "zeta"]);
    assert_eq!(modules[0].boundary_type, BoundaryType::Root);
    assert_eq!(modules[0].slug, "root");
    assert_eq!(modules[0].files, vec!["README.md".to_string()]);
    assert_eq!(
        modules[1].files,
        vec!["alpha/a.rs".to_string(), "alpha/b.rs".to_string(), "alpha/mod.rs".to_string()]
    );
    assert_eq!(modules[1].entry_point, Some("alpha/mod.rs".to_string()));
}

#[test]
fn module_info_add_file_dedupes() {
    let mut m = ModuleInfo::new("src/x", BoundaryType::Implicit, None);
    assert_eq!(m.slug, "src-x");
    m.add_file("src/x/a.rs".to_string());
    m.add_file("src/x/a.rs".to_string());
    m.add_file("src/x/b.rs".to_string());
    assert_eq!(m.file_count(), 2);
    assert_eq!(BoundaryType::JsModule.as_str(), "js/ts");
    assert_eq!(BoundaryType::Implicit.as_str(), "implicit");
}

#[test]
fn module_files_exclude_child_modules() {
    let files = vec![
        make_file("src/lib.rs"),
        make_file("src/main.rs"),
        make_file("src/analyze/mod.rs"),
        make_file("src/analyze/parser.rs"),
    ];
    let modules = detect_modules(&files);
    let src = modules.iter().find(|m| m.path == "src").unwrap();
    let own = get_module_files(src, &modules, &files);
    let names: Vec<&str> = own.iter().map(|f| f.relative_path.as_str()).collect();
    assert_eq!(names, vec!["src/lib.rs", "src/main.rs"]);
}
