use agentlens::emit::{MemoryEntry, ModuleOutput};
use agentlens::imports::{generate_imports, FileGraph};
use agentlens::module::{BoundaryType, ModuleInfo};
use agentlens::skills::{
    detect_skill_target, install_targets, SkillTarget, NAVIGATION_MD, SKILL_MD, STRUCTURE_MD,
};
use agentlens::types::{FileEntry, Symbol, SymbolKind, Visibility};

#[test]
fn test_skill_target_display() {
    assert_eq!(SkillTarget::OpenCode.display_name(), "OpenCode");
    assert_eq!(SkillTarget::Codex.display_name(), "Codex CLI");
}

#[test]
fn test_skill_content_valid() {
    assert!(SKILL_MD.contains("name: agentlens"));
    assert!(SKILL_MD.contains("description:"));

    assert!(SKILL_MD.contains("INDEX.md"));
    assert!(SKILL_MD.contains("MODULE.md"));
    assert!(NAVIGATION_MD.contains("Pattern"));
    assert!(STRUCTURE_MD.contains(".agentlens/"));
}

#[test]
fn skill_target_priority_and_dirs() {
    assert_eq!(detect_skill_target(true, true), Some(SkillTarget::OpenCode));
    assert_eq!(detect_skill_target(false, true), Some(SkillTarget::Codex));
    assert_eq!(detect_skill_target(false, false), None);
    assert_eq!(SkillTarget::OpenCode.skill_dir(), vec![".config", "opencode", "skill", "agentlens"]);
    assert_eq!(SkillTarget::OpenCode.project_skill_dir(), vec![".opencode", "skill", "agentlens"]);
    assert_eq!(SkillTarget::Codex.tool_dir(), vec![".codex"]);
    assert_eq!(install_targets(true, true, false, None), vec![SkillTarget::OpenCode, SkillTarget::Codex]);
    assert_eq!(install_targets(false, true, false, None), vec![SkillTarget::Codex]);
    assert_eq!(install_targets(false, false, true, None).len(), 2);
    assert_eq!(install_targets(false, false, false, Some(SkillTarget::Codex)), vec![SkillTarget::Codex]);
}

#[test]
fn test_empty_graph() {
    let graph = FileGraph::new();
    let result = generate_imports(&graph);
    assert!(result.contains("No import relationships detected"));
}

#[test]
fn test_with_imports() {
    let mut graph = FileGraph::new();
    graph.add_file("main.rs", vec!["lib".to_string(), "utils".to_string()]);
    graph.add_file("lib.rs", vec!["types".to_string()]);

    let result = generate_imports(&graph);
    assert!(result.contains("main.rs"));
    assert!(result.contains("lib, utils"));
}

#[test]
fn imports_page_layout() {
    let mut graph = FileGraph::new();
    graph.add_file("b.rs", vec!["z".to_string(), "a".to_string()]);
    let result = generate_imports(&graph);
    assert_eq!(
        result,
        "# imports.md\n\nFile dependency graph showing imports and importers.\n\n## `b.rs`\n\n**Imports:** a, z\n\n**Imported by:** (none - entry point)\n\n---\n\n"
    );
}

#[test]
fn module_output_counts() {
    let mut m = ModuleInfo::new("src", BoundaryType::RustModule, Some("src/lib.rs".to_string()));
    m.add_file("src/lib.rs".to_string());
    m.add_file("src/a.rs".to_string());
    let memory = vec![
        MemoryEntry { source_file: "src/a.rs".to_string(), line: 3, marker: "WARNING".to_string(), text: "x".to_string() },
        MemoryEntry { source_file: "other.rs".to_string(), line: 1, marker: "WARNING".to_string(), text: "y".to_string() },
    ];
    let f = FileEntry::new("src/a.rs".to_string(), "src/a.rs".to_string(), 10, 5, 500);
    let s = Symbol::new(SymbolKind::Function, "f".to_string(), 1, Visibility::Public);
    let symbols = vec![(f, vec![s.clone(), s])];
    let hubs = vec![("src/lib.rs".to_string(), 4usize)];
    let out = ModuleOutput::from_module_info(&m, &memory, &symbols, &hubs);
    assert_eq!(out.slug, "src");
    assert_eq!(out.boundary_type, "rust");
    assert_eq!(out.file_count, 2);
    assert_eq!(out.warning_count, 1);
    assert_eq!(out.symbol_count, 2);
    assert!(out.is_hub);
    let none = ModuleOutput::from_module_info(&m, &[], &[], &[]);
    assert!(!none.is_hub);
    assert_eq!(none.warning_count, 0);
}
