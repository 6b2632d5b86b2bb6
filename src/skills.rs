//! Where the agent skill that describes the generated documentation is
//! installed, and its content.

use vstd::prelude::*;

verus! {

/// A coding tool that loads agent skills.
#[derive(Debug, Clone, Copy, PartialEq, Eq, Structural)]
pub enum SkillTarget {
    OpenCode,
    Codex,
}

pub open spec fn target_name(t: SkillTarget) -> Seq<char> {
    match t {
        SkillTarget::OpenCode => "OpenCode"@,
        SkillTarget::Codex => "Codex CLI"@,
    }
}

/// The directories, under the home directory, of a tool and of its skill.
pub open spec fn tool_dir_parts(t: SkillTarget) -> Seq<Seq<char>> {
    match t {
        SkillTarget::OpenCode => seq![".config"@, "opencode"@],
        SkillTarget::Codex => seq![".codex"@],
    }
}

pub open spec fn skill_dir_parts(t: SkillTarget) -> Seq<Seq<char>> {
    match t {
        SkillTarget::OpenCode => seq![".config"@, "opencode"@, "skill"@, "agentlens"@],
        SkillTarget::Codex => seq![".codex"@, "skills"@, "agentlens"@],
    }
}

/// The skill directories, under a project, for a project-level install.
pub open spec fn project_skill_dir_parts(t: SkillTarget) -> Seq<Seq<char>> {
    match t {
        SkillTarget::OpenCode => seq![".opencode"@, "skill"@, "agentlens"@],
        SkillTarget::Codex => seq![".codex"@, "skills"@, "agentlens"@],
    }
}

pub open spec fn str_seq(v: Seq<&str>) -> Seq<Seq<char>> {
    v.map_values(|s: &str| s@)
}

impl SkillTarget {
    /// The tool's name for people.
    pub fn display_name(&self) -> (r: &'static str)
        ensures
            r@ == target_name(*self),
    {
        match self {
            SkillTarget::OpenCode => "OpenCode",
            SkillTarget::Codex => "Codex CLI",
        }
    }

    /// Path components, under the home directory, of the directory whose
    /// presence shows that the tool is installed.
    pub fn tool_dir(&self) -> (r: Vec<&'static str>)
        ensures
            str_seq(r@) == tool_dir_parts(*self),
    {
        let r = match self {
            SkillTarget::OpenCode => vec![".config", "opencode"],
            SkillTarget::Codex => vec![".codex"],
        };
        assert(str_seq(r@) =~= tool_dir_parts(*self));
        r
    }

    /// Path components, under the home directory, of the skill directory.
    pub fn skill_dir(&self) -> (r: Vec<&'static str>)
        ensures
            str_seq(r@) == skill_dir_parts(*self),
    {
        let r = match self {
            SkillTarget::OpenCode => vec![".config", "opencode", "skill", "agentlens"],
            SkillTarget::Codex => vec![".codex", "skills", "agentlens"],
        };
        assert(str_seq(r@) =~= skill_dir_parts(*self));
        r
    }

    /// Path components, under a project, of a project-level skill directory.
    pub fn project_skill_dir(&self) -> (r: Vec<&'static str>)
        ensures
            str_seq(r@) == project_skill_dir_parts(*self),
    {
        let r = match self {
            SkillTarget::OpenCode => vec![".opencode", "skill", "agentlens"],
            SkillTarget::Codex => vec![".codex", "skills", "agentlens"],
        };
        assert(str_seq(r@) =~= project_skill_dir_parts(*self));
        r
    }
}

/// The tool most likely in use, given which tools are installed: OpenCode
/// first, then Codex CLI.
pub fn detect_skill_target(opencode: bool, codex: bool) -> (r: Option<SkillTarget>)
    ensures
        r == (if opencode {
            Some(SkillTarget::OpenCode)
        } else if codex {
            Some(SkillTarget::Codex)
        } else {
            None
        }),
{
    if opencode {
        Some(SkillTarget::OpenCode)
    } else if codex {
        Some(SkillTarget::Codex)
    } else {
        None
    }
}

/// The targets of an install request: all of them, the ones asked for, or
/// the detected one when none is asked for.
pub fn install_targets(opencode: bool, codex: bool, all: bool, detected: Option<SkillTarget>) -> (r: Vec<SkillTarget>)
    ensures
        all ==> r@ == seq![SkillTarget::OpenCode, SkillTarget::Codex],
        !all && (opencode || codex) ==> r@ == (if opencode { seq![SkillTarget::OpenCode] } else { Seq::empty() })
            + (if codex { seq![SkillTarget::Codex] } else { Seq::empty() }),
        !all && !(opencode || codex) ==> r@ == (match detected {
            Some(t) => seq![t],
            None => Seq::empty(),
        }),
{
    if all {
        let r = vec![SkillTarget::OpenCode, SkillTarget::Codex];
        assert(r@ =~= seq![SkillTarget::OpenCode, SkillTarget::Codex]);
        return r;
    }
    let mut r: Vec<SkillTarget> = Vec::new();
    if opencode || codex {
        if opencode {
            r.push(SkillTarget::OpenCode);
        }
        if codex {
            r.push(SkillTarget::Codex);
        }
        assert(r@ =~= (if opencode { seq![SkillTarget::OpenCode] } else { Seq::empty() })
            + (if codex { seq![SkillTarget::Codex] } else { Seq::empty() }));
        return r;
    }
    match detected {
        Some(t) => {
            r.push(t);
            assert(r@ =~= seq![t]);
        },
        None => {
            assert(r@ =~= Seq::<SkillTarget>::empty());
        },
    }
    r
}

/// The skill's main file.
pub const SKILL_MD: &'static str = r#"---
name: agentlens
description: Navigate and understand codebases using agentlens hierarchical documentation. Use when exploring new projects, finding modules, locating symbols in large files, finding TODOs/warnings, or understanding code structure.
metadata:
  short-description: Codebase navigation with agentlens
  author: agentlens
  version: "1.0"
---

# AgentLens - Codebase Navigation

## Before Working on Any Codebase
Always start by reading `.agentlens/INDEX.md` for the project map.

## Navigation Hierarchy

| Level | File | Purpose |
|-------|------|---------|
| L0 | `INDEX.md` | Project overview, all modules listed |
| L1 | `modules/{slug}/MODULE.md` | Module details, file list |
| L1 | `modules/{slug}/outline.md` | Symbols in large files |
| L1 | `modules/{slug}/memory.md` | TODOs, warnings, business rules |
| L1 | `modules/{slug}/imports.md` | File dependencies |
| L2 | `files/{slug}.md` | Deep docs for complex files |

## Navigation Flow

```
INDEX.md → Find module → MODULE.md → outline.md/memory.md → Source file
```

## When To Read What

| You Need | Read This |
|----------|-----------|
| Project overview | `.agentlens/INDEX.md` |
| Find a module | INDEX.md, search module name |
| Understand a module | `modules/{slug}/MODULE.md` |
| Find function/class in large file | `modules/{slug}/outline.md` |
| Find TODOs, warnings, rules | `modules/{slug}/memory.md` |
| Understand file dependencies | `modules/{slug}/imports.md` |

## Best Practices

1. **Don't read source files directly** for large codebases - use outline.md first
2. **Check memory.md before modifying** code to see warnings and TODOs
3. **Use outline.md to locate symbols**, then read only the needed source sections
4. **Regenerate docs** with `agentlens` command if they seem stale

For detailed navigation patterns, see [references/navigation.md](references/navigation.md)
For structure explanation, see [references/structure.md](references/structure.md)
"#;

/// The skill's guide to navigation patterns.
pub const NAVIGATION_MD: &'static str = r#"# Navigation Patterns

## Pattern 1: Exploring a New Codebase

```
1. Read .agentlens/INDEX.md
   → Get list of all modules
   → Note entry points and hub modules

2. Pick relevant module from INDEX
   → Read modules/{slug}/MODULE.md
   → Understand module purpose and files

3. Need specific symbol?
   → Read modules/{slug}/outline.md
   → Find line number of function/class

4. Check for issues first?
   → Read modules/{slug}/memory.md
   → See TODOs, warnings before editing
```

## Pattern 2: Finding Where Something Is Defined

```
1. Start with INDEX.md
2. Search for keyword in module descriptions
3. Go to matching MODULE.md
4. Check outline.md for symbol locations
5. Read only the specific source lines needed
```

## Pattern 3: Understanding Dependencies

```
1. Read modules/{slug}/imports.md
2. See which files import what
3. Understand the dependency graph
4. Navigate to related modules as needed
```

## Pattern 4: Before Modifying Code

```
1. Read memory.md for the module
2. Check for:
   - TODO: Pending work
   - FIXME: Known bugs
   - WARNING: Dangerous areas
   - SAFETY: Critical invariants
   - DEPRECATED: Code to avoid
3. Understand the context before changes
```

## Token Efficiency Tips

- **Never read entire source files** in large codebases
- **Use outline.md** to find exact line numbers first
- **Read only relevant sections** of source code
- **Navigate hierarchically**: INDEX → MODULE → outline → source
- **Estimated savings**: 80-96% fewer tokens than reading raw source
"#;

/// The skill's description of the generated documentation's layout.
pub const STRUCTURE_MD: &'static str = r#"# AgentLens Output Structure

## Directory Layout

```
.agentlens/
├── INDEX.md              # L0: Global routing table
├── AGENT.md              # Agent-specific instructions
├── modules/
│   └── {module-slug}/
│       ├── MODULE.md     # L1: Module overview
│       ├── outline.md    # L1: Symbol maps for large files
│       ├── memory.md     # L1: TODOs, warnings, rules
│       └── imports.md    # L1: File dependencies
└── files/
    └── {file-slug}.md    # L2: Deep docs for complex files
```

## File Purposes

### INDEX.md (Always Read First)
- Project name and description
- Complete list of modules with descriptions
- Entry points (main files)
- Hub files (heavily imported)
- High-priority warnings summary

### MODULE.md
- Module purpose and responsibility
- List of all files in the module
- File descriptions and line counts
- Language breakdown

### outline.md
- Symbol maps for large files (>500 lines)
- Functions, classes, structs, enums, traits
- Line numbers for quick navigation
- Visibility (public/private)

### memory.md
- TODO comments
- FIXME and BUG markers
- WARNING and SAFETY notes
- DEPRECATED markers
- Business rules (RULE, POLICY)

### imports.md
- Which files import which
- Internal dependencies within module
- Helps understand coupling

### files/{slug}.md (L2 - Complex Files Only)
- Generated for very complex files
- Detailed symbol documentation
- More context than outline.md
"#;

} // verus!
