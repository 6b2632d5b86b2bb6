//! The records of the machine-readable project summary.

use vstd::prelude::*;
use crate::module::{boundary_name, ModuleInfo};
use crate::store::{str_eq, string_views};
use crate::types::{FileEntry, Symbol};

verus! {

/// A marker comment found in a source file (a TODO, a warning, a rule).
#[derive(Debug, Clone)]
pub struct MemoryEntry {
    pub source_file: String,
    pub line: usize,
    pub marker: String,
    pub text: String,
}

/// Line changes of one file against a base revision.
#[derive(Debug, Clone)]
pub struct DiffStat {
    pub path: String,
    pub additions: usize,
    pub deletions: usize,
}

#[derive(Debug, Clone)]
pub struct ProjectInfo {
    pub path: String,
    pub files_scanned: usize,
    pub large_files_count: usize,
    pub memory_markers_count: usize,
    pub modules_count: usize,
}

/// A module in the summary.
#[derive(Debug, Clone)]
pub struct ModuleOutput {
    pub slug: String,
    pub path: String,
    pub boundary_type: String,
    pub file_count: usize,
    pub files: Vec<String>,
    pub entry_point: Option<String>,
    pub warning_count: usize,
    pub symbol_count: usize,
    pub is_hub: bool,
}

#[derive(Debug, Clone)]
pub struct LargeFileEntry {
    pub path: String,
    pub line_count: usize,
    pub language: String,
    pub symbols: Vec<Symbol>,
}

#[derive(Debug, Clone)]
pub struct CriticalFile {
    pub path: String,
    pub high_priority_markers: usize,
}

#[derive(Debug, Clone)]
pub struct HubFile {
    pub path: String,
    pub imported_by: usize,
}

#[derive(Debug, Clone)]
pub struct DiffInfo {
    pub base_ref: String,
    pub files: Vec<DiffStat>,
}

/// How many markers lie in the module's files.
pub open spec fn warnings_in(memory: Seq<MemoryEntry>, files: Seq<Seq<char>>) -> nat
    decreases memory.len(),
{
    if memory.len() == 0 {
        0
    } else {
        warnings_in(memory.drop_last(), files) + if files.contains(memory.last().source_file@) { 1nat } else { 0nat }
    }
}

/// How many symbols the module's files hold (saturating).
pub open spec fn symbols_in(symbols: Seq<(FileEntry, Vec<Symbol>)>, files: Seq<Seq<char>>) -> nat
    decreases symbols.len(),
{
    if symbols.len() == 0 {
        0
    } else {
        let prev = symbols_in(symbols.drop_last(), files);
        let total = prev + if files.contains(symbols.last().0.relative_path@) { symbols.last().1@.len() } else { 0 };
        if total > usize::MAX { usize::MAX as nat } else { total }
    }
}

fn contains_str(v: &Vec<String>, s: &str) -> (r: bool)
    ensures
        r == string_views(v@).contains(s@),
{
    let mut i: usize = 0;
    while i < v.len()
        invariant
            i <= v@.len(),
            forall|j: int| 0 <= j < i ==> v@[j]@ != s@,
        decreases v@.len() - i,
    {
        if str_eq(v[i].as_str(), s) {
            assert(string_views(v@)[i as int] == s@);
            return true;
        }
        i = i + 1;
    }
    assert forall|j: int| 0 <= j < string_views(v@).len() implies string_views(v@)[j] != s@ by {
        assert(string_views(v@)[j] == v@[j]@);
    }
    false
}

impl ModuleOutput {
    /// The summary record of a module: its markers, its symbols, and
    /// whether one of its files is a hub.
    pub fn from_module_info(
        module: &ModuleInfo,
        memory: &[MemoryEntry],
        symbols: &[(FileEntry, Vec<Symbol>)],
        hub_files: &[(String, usize)],
    ) -> (r: ModuleOutput)
        ensures
            r.slug@ == module.slug@,
            r.path@ == module.path@,
            r.boundary_type@ == boundary_name(module.boundary_type),
            r.file_count == module.files@.len(),
            string_views(r.files@) == string_views(module.files@),
            r.entry_point == module.entry_point,
            r.warning_count == warnings_in(memory@, string_views(module.files@)),
            r.symbol_count == symbols_in(symbols@, string_views(module.files@)),
            r.is_hub == exists|i: int, j: int|
                0 <= i < module.files@.len() && 0 <= j < hub_files@.len() && (#[trigger] hub_files@[j]).0@
                    == (#[trigger] module.files@[i])@,
    {
        let ghost fv = string_views(module.files@);
        let mut warnings: usize = 0;
        let mut i: usize = 0;
        while i < memory.len()
            invariant
                i <= memory@.len(),
                fv == string_views(module.files@),
                warnings == warnings_in(memory@.take(i as int), fv),
                warnings <= i,
            decreases memory@.len() - i,
        {
            assert(memory@.take(i + 1).drop_last() =~= memory@.take(i as int));
            if contains_str(&module.files, memory[i].source_file.as_str()) {
                warnings = warnings + 1;
            }
            i = i + 1;
        }
        assert(memory@.take(i as int) =~= memory@);
        let mut count: usize = 0;
        i = 0;
        while i < symbols.len()
            invariant
                i <= symbols@.len(),
                fv == string_views(module.files@),
                count == symbols_in(symbols@.take(i as int), fv),
            decreases symbols@.len() - i,
        {
            assert(symbols@.take(i + 1).drop_last() =~= symbols@.take(i as int));
            if contains_str(&module.files, symbols[i].0.relative_path.as_str()) {
                count = count.saturating_add(symbols[i].1.len());
            }
            i = i + 1;
        }
        assert(symbols@.take(i as int) =~= symbols@);
        let mut hub = false;
        let mut f: usize = 0;
        while f < module.files.len()
            invariant
                f <= module.files@.len(),
                hub == exists|a: int, b: int|
                    0 <= a < f && 0 <= b < hub_files@.len() && (#[trigger] hub_files@[b]).0@ == (#[trigger] module.files@[a])@,
            decreases module.files@.len() - f,
        {
            let mut h: usize = 0;
            let mut here = false;
            while h < hub_files.len()
                invariant
                    h <= hub_files@.len(),
                    f < module.files@.len(),
                    here == exists|b: int| 0 <= b < h && (#[trigger] hub_files@[b]).0@ == module.files@[f as int]@,
                decreases hub_files@.len() - h,
            {
                if str_eq(hub_files[h].0.as_str(), module.files[f].as_str()) {
                    here = true;
                }
                h = h + 1;
            }
            hub = hub || here;
            f = f + 1;
        }
        let mut files: Vec<String> = Vec::new();
        let mut k: usize = 0;
        while k < module.files.len()
            invariant
                k <= module.files@.len(),
                string_views(files@) == string_views(module.files@.take(k as int)),
            decreases module.files@.len() - k,
        {
            let s = module.files[k].clone();
            let ghost prev = string_views(files@);
            files.push(s);
            assert(string_views(files@) =~= prev.push(s@));
            assert(string_views(module.files@.take(k + 1)) =~= string_views(module.files@.take(k as int)).push(module.files@[k as int]@));
            k = k + 1;
        }
        assert(module.files@.take(k as int) =~= module.files@);
        ModuleOutput {
            slug: module.slug.clone(),
            path: module.path.clone(),
            boundary_type: crate::text::string_of(crate::text::chars_of(module.boundary_type.as_str()).as_slice()),
            file_count: module.files.len(),
            files,
            entry_point: module.entry_point.clone(),
            warning_count: warnings,
            symbol_count: count,
            is_hub: hub,
        }
    }
}

} // verus!
