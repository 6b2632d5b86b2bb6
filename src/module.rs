//! Module boundaries of a code base: directories marked by an entry file
//! (`mod.rs`, `lib.rs`, `__init__.py`, `index.js` and the like), directories
//! with many source files, and a root module for the files left over.

use vstd::prelude::*;
use crate::sorting::{lex_before, lex_le, lex_lt, sort_strings, sorted_order, str_views};
use crate::store::{str_eq, string_views};
use crate::text::{chars_of, string_of};
use crate::types::FileEntry;

verus! {

/// Fewest files in a directory for it to count as a module by itself.
pub const IMPLICIT_MODULE_THRESHOLD: usize = 5;

/// How a module boundary was found.
#[derive(Debug, Clone, Copy, PartialEq, Eq, Structural)]
pub enum BoundaryType {
    /// Rust: `mod.rs`, or `lib.rs` at the crate root.
    RustModule,
    /// Python: `__init__.py`.
    PythonPackage,
    /// JavaScript or TypeScript: an `index` file.
    JsModule,
    /// Go: a package directory.
    GoPackage,
    /// A directory with many source files.
    Implicit,
    /// The project root.
    Root,
}

pub open spec fn boundary_name(b: BoundaryType) -> Seq<char> {
    match b {
        BoundaryType::RustModule => "rust"@,
        BoundaryType::PythonPackage => "python"@,
        BoundaryType::JsModule => "js/ts"@,
        BoundaryType::GoPackage => "go"@,
        BoundaryType::Implicit => "implicit"@,
        BoundaryType::Root => "root"@,
    }
}

impl BoundaryType {
    pub fn as_str(&self) -> (r: &'static str)
        ensures
            r@ == boundary_name(*self),
    {
        match self {
            BoundaryType::RustModule => "rust",
            BoundaryType::PythonPackage => "python",
            BoundaryType::JsModule => "js/ts",
            BoundaryType::GoPackage => "go",
            BoundaryType::Implicit => "implicit",
            BoundaryType::Root => "root",
        }
    }
}

/// A detected module.
#[derive(Debug, Clone)]
pub struct ModuleInfo {
    /// The path with separators turned into `-`; `root` for the root.
    pub slug: String,
    /// The directory, relative to the project root.
    pub path: String,
    /// Files of the module (relative paths).
    pub files: Vec<String>,
    /// The file that marked the module, if any.
    pub entry_point: Option<String>,
    pub boundary_type: BoundaryType,
    /// Slug of the enclosing module.
    pub parent: Option<String>,
    /// Slugs of the modules directly inside.
    pub children: Vec<String>,
}

/// The slug of a path: `-` for each `/` or `\`; `root` for the empty path
/// and for `.`.
pub open spec fn slug_of(path: Seq<char>) -> Seq<char> {
    if path.len() == 0 || path == "."@ {
        "root"@
    } else {
        path.map_values(|c: char| if c == '/' || c == '\\' { '-' } else { c })
    }
}

/// Converts a path to a slug.
pub fn path_to_slug(path: &str) -> (r: String)
    ensures
        r@ == slug_of(path@),
{
    let cs = chars_of(path);
    if cs.len() == 0 || crate::store::str_eq(path, ".") {
        return string_of(chars_of("root").as_slice());
    }
    let mut out: Vec<char> = Vec::new();
    let mut i: usize = 0;
    while i < cs.len()
        invariant
            i <= cs@.len(),
            out@ == cs@.take(i as int).map_values(|c: char| if c == '/' || c == '\\' { '-' } else { c }),
        decreases cs@.len() - i,
    {
        let c = cs[i];
        out.push(if c == '/' || c == '\\' { '-' } else { c });
        i = i + 1;
        assert(out@ =~= cs@.take(i as int).map_values(|c: char| if c == '/' || c == '\\' { '-' } else { c }));
    }
    assert(cs@.take(i as int) =~= cs@);
    string_of(out.as_slice())
}

impl ModuleInfo {
    pub fn new(path: &str, boundary_type: BoundaryType, entry_point: Option<String>) -> (r: ModuleInfo)
        ensures
            r.slug@ == slug_of(path@),
            r.path@ == path@,
            r.files@.len() == 0,
            r.entry_point == entry_point,
            r.boundary_type == boundary_type,
            r.parent.is_none(),
            r.children@.len() == 0,
    {
        ModuleInfo {
            slug: path_to_slug(path),
            path: string_of(chars_of(path).as_slice()),
            files: Vec::new(),
            entry_point,
            boundary_type,
            parent: None,
            children: Vec::new(),
        }
    }

    /// Adds a file unless the module already has it.
    pub fn add_file(&mut self, relative_path: String)
        ensures
            final(self).slug == old(self).slug,
            final(self).path == old(self).path,
            final(self).entry_point == old(self).entry_point,
            final(self).boundary_type == old(self).boundary_type,
            final(self).parent == old(self).parent,
            final(self).children == old(self).children,
            string_views(old(self).files@).contains(relative_path@) ==> string_views(final(self).files@) == string_views(old(self).files@),
            !string_views(old(self).files@).contains(relative_path@) ==> string_views(final(self).files@) == string_views(old(self).files@).push(relative_path@),
    {
        let mut i: usize = 0;
        while i < self.files.len()
            invariant
                i <= self.files@.len(),
                forall|j: int| 0 <= j < i ==> self.files@[j]@ != relative_path@,
            decreases self.files@.len() - i,
        {
            if str_eq(self.files[i].as_str(), relative_path.as_str()) {
                assert(string_views(self.files@)[i as int] == relative_path@);
                return;
            }
            i = i + 1;
        }
        assert forall|j: int| 0 <= j < string_views(self.files@).len() implies string_views(self.files@)[j] != relative_path@ by {
            assert(string_views(self.files@)[j] == self.files@[j]@);
        }
        let ghost before = string_views(self.files@);
        let ghost p = relative_path@;
        self.files.push(relative_path);
        assert(string_views(self.files@) =~= before.push(p));
    }

    /// A copy of this module.
    pub fn clone_module(&self) -> (r: ModuleInfo)
        ensures
            r.slug@ == self.slug@,
            r.path@ == self.path@,
            string_views(r.files@) == string_views(self.files@),
            r.files@.len() == self.files@.len(),
            r.boundary_type == self.boundary_type,
    {
        ModuleInfo {
            slug: self.slug.clone(),
            path: self.path.clone(),
            files: crate::store::copy_strings(&self.files),
            entry_point: self.entry_point.clone(),
            boundary_type: self.boundary_type,
            parent: self.parent.clone(),
            children: crate::store::copy_strings(&self.children),
        }
    }

    pub fn file_count(&self) -> (r: usize)
        ensures
            r == self.files@.len(),
    {
        self.files.len()
    }
}

/// Index of the last `/`, or -1.
pub open spec fn last_slash(s: Seq<char>) -> int
    decreases s.len(),
{
    if s.len() == 0 {
        -1
    } else if s.last() == '/' {
        s.len() - 1
    } else {
        last_slash(s.drop_last())
    }
}

proof fn lemma_last_slash(s: Seq<char>)
    ensures
        -1 <= last_slash(s) < s.len(),
    decreases s.len(),
{
    if s.len() > 0 {
        lemma_last_slash(s.drop_last());
    }
}

/// The directory part of a relative path: what precedes its last `/`.
pub open spec fn parent_dir(s: Seq<char>) -> Seq<char> {
    if last_slash(s) < 0 {
        Seq::empty()
    } else {
        s.take(last_slash(s))
    }
}

/// The file name of a relative path: what follows its last `/`.
pub open spec fn file_name(s: Seq<char>) -> Seq<char> {
    s.skip(last_slash(s) + 1)
}

fn last_slash_exec(s: &Vec<char>) -> (r: Option<usize>)
    ensures
        match r {
            Some(i) => i as int == last_slash(s@),
            None => last_slash(s@) == -1,
        },
{
    let mut i = s.len();
    assert(s@.take(i as int) =~= s@);
    while i > 0
        invariant
            i <= s@.len(),
            last_slash(s@) == last_slash(s@.take(i as int)),
        decreases i,
    {
        assert(s@.take(i as int).drop_last() =~= s@.take(i - 1));
        if s[i - 1] == '/' {
            return Some(i - 1);
        }
        i = i - 1;
    }
    None
}

/// The directory part of a relative path.
pub fn get_parent_dir(path: &str) -> (r: String)
    ensures
        r@ == parent_dir(path@),
{
    let cs = chars_of(path);
    proof {
        lemma_last_slash(cs@);
    }
    match last_slash_exec(&cs) {
        Some(i) => string_of(crate::store::vec_prefix(&cs, i).as_slice()),
        None => string_of(Vec::<char>::new().as_slice()),
    }
}

fn file_name_of(path: &str) -> (r: Vec<char>)
    ensures
        r@ == file_name(path@),
{
    let cs = chars_of(path);
    proof {
        lemma_last_slash(cs@);
    }
    let start = match last_slash_exec(&cs) {
        Some(i) => {
            assert(i < cs@.len());
            assert(i < cs.len());
            i + 1
        },
        None => 0,
    };
    let mut out: Vec<char> = Vec::new();
    let mut j = start;
    while j < cs.len()
        invariant
            start <= j <= cs@.len(),
            out@ == cs@.subrange(start as int, j as int),
        decreases cs@.len() - j,
    {
        out.push(cs[j]);
        j = j + 1;
        assert(out@ =~= cs@.subrange(start as int, j as int));
    }
    assert(cs@.skip(start as int) =~= cs@.subrange(start as int, cs@.len() as int));
    out
}

/// The explicit boundary that a file marks: its directory and kind.
pub open spec fn explicit_boundary(path: Seq<char>) -> Option<(Seq<char>, BoundaryType)> {
    let name = file_name(path);
    let dir = parent_dir(path);
    if name == "mod.rs"@ {
        Some((dir, BoundaryType::RustModule))
    } else if name == "lib.rs"@ {
        if dir == "src"@ || dir.len() == 0 {
            Some((dir, BoundaryType::RustModule))
        } else {
            None
        }
    } else if name == "__init__.py"@ {
        Some((dir, BoundaryType::PythonPackage))
    } else if name == "index.js"@ || name == "index.jsx"@ || name == "index.ts"@ || name == "index.tsx"@
        || name == "index.mjs"@ || name == "index.mts"@ {
        Some((dir, BoundaryType::JsModule))
    } else {
        None
    }
}

fn chars_eq(a: &Vec<char>, b: &str) -> (r: bool)
    ensures
        r == (a@ == b@),
{
    let s = string_of(a.as_slice());
    str_eq(s.as_str(), b)
}

fn detect_explicit_boundary(path: &str) -> (r: Option<(String, BoundaryType)>)
    ensures
        match r {
            Some((d, t)) => explicit_boundary(path@) == Some((d@, t)),
            None => explicit_boundary(path@).is_none(),
        },
{
    let name = file_name_of(path);
    let dir = get_parent_dir(path);
    if chars_eq(&name, "mod.rs") {
        Some((dir, BoundaryType::RustModule))
    } else if chars_eq(&name, "lib.rs") {
        if str_eq(dir.as_str(), "src") || dir.as_str().is_empty() {
            Some((dir, BoundaryType::RustModule))
        } else {
            None
        }
    } else if chars_eq(&name, "__init__.py") {
        Some((dir, BoundaryType::PythonPackage))
    } else if chars_eq(&name, "index.js") || chars_eq(&name, "index.jsx") || chars_eq(&name, "index.ts")
        || chars_eq(&name, "index.tsx") || chars_eq(&name, "index.mjs") || chars_eq(&name, "index.mts") {
        Some((dir, BoundaryType::JsModule))
    } else {
        None
    }
}

/// The nearest of `dir` and its ancestors that is among `paths`; the empty
/// path when none is.
pub open spec fn owning_module(dir: Seq<char>, paths: Seq<Seq<char>>) -> Seq<char>
    decreases dir.len(),
{
    if paths.contains(dir) {
        dir
    } else {
        let p = parent_dir(dir);
        if p.len() == 0 || p.len() >= dir.len() {
            Seq::empty()
        } else {
            owning_module(p, paths)
        }
    }
}

/// The nearest proper ancestor of `path` among `paths`, if any.
pub open spec fn parent_module(path: Seq<char>, paths: Seq<Seq<char>>) -> Option<Seq<char>>
    decreases path.len(),
{
    let p = parent_dir(path);
    if p.len() == 0 || p.len() >= path.len() {
        None
    } else if paths.contains(p) {
        Some(p)
    } else {
        parent_module(p, paths)
    }
}

fn contains_str(v: &Vec<String>, s: &str) -> (r: bool)
    ensures
        r == string_views(v@).contains(s@),
{
    let mut i: usize = 0;
    while i < v.len()
        invariant
            i <= v@.len(),
            forall|j: int| 0 <= j < i ==> v@[j]@ != s@,
        decreases v@.len() - i,
    {
        if str_eq(v[i].as_str(), s) {
            assert(string_views(v@)[i as int] == s@);
            return true;
        }
        i = i + 1;
    }
    assert forall|j: int| 0 <= j < string_views(v@).len() implies string_views(v@)[j] != s@ by {
        assert(string_views(v@)[j] == v@[j]@);
    }
    false
}

fn find_owning_module(dir: &str, paths: &Vec<String>) -> (r: String)
    ensures
        r@ == owning_module(dir@, string_views(paths@)),
{
    let mut current = string_of(chars_of(dir).as_slice());
    loop
        invariant
            owning_module(dir@, string_views(paths@)) == owning_module(current@, string_views(paths@)),
        decreases current@.len(),
    {
        if contains_str(paths, current.as_str()) {
            return current;
        }
        let parent = get_parent_dir(current.as_str());
        let pl = chars_of(parent.as_str()).len();
        let cl = chars_of(current.as_str()).len();
        if pl == 0 || pl >= cl {
            return string_of(Vec::<char>::new().as_slice());
        }
        current = parent;
    }
}

fn find_parent_module(path: &str, paths: &Vec<String>) -> (r: Option<String>)
    ensures
        match r {
            Some(p) => parent_module(path@, string_views(paths@)) == Some(p@),
            None => parent_module(path@, string_views(paths@)).is_none(),
        },
{
    let mut current = string_of(chars_of(path).as_slice());
    loop
        invariant
            parent_module(path@, string_views(paths@)) == parent_module(current@, string_views(paths@)),
        decreases current@.len(),
    {
        let parent = get_parent_dir(current.as_str());
        let pl = chars_of(parent.as_str()).len();
        let cl = chars_of(current.as_str()).len();
        if pl == 0 || pl >= cl {
            return None;
        }
        if contains_str(paths, parent.as_str()) {
            return Some(parent);
        }
        current = parent;
    }
}

fn module_index(mods: &Vec<ModuleInfo>, path: &str) -> (r: Option<usize>)
    ensures
        match r {
            Some(i) => i < mods@.len() && mods@[i as int].path@ == path@,
            None => forall|i: int| 0 <= i < mods@.len() ==> mods@[i].path@ != path@,
        },
{
    let mut i: usize = 0;
    while i < mods.len()
        invariant
            i <= mods@.len(),
            forall|j: int| 0 <= j < i ==> mods@[j].path@ != path@,
        decreases mods@.len() - i,
    {
        if str_eq(mods[i].path.as_str(), path) {
            return Some(i);
        }
        i = i + 1;
    }
    None
}

fn module_paths(mods: &Vec<ModuleInfo>) -> (r: Vec<String>)
    ensures
        string_views(r@) == mods@.map_values(|m: ModuleInfo| m.path@),
{
    let mut r: Vec<String> = Vec::new();
    let mut i: usize = 0;
    while i < mods.len()
        invariant
            i <= mods@.len(),
            string_views(r@) == mods@.take(i as int).map_values(|m: ModuleInfo| m.path@),
        decreases mods@.len() - i,
    {
        let p = mods[i].path.clone();
        let ghost prev = string_views(r@);
        r.push(p);
        assert(string_views(r@) =~= prev.push(p@));
        assert(mods@.take(i + 1).map_values(|m: ModuleInfo| m.path@) =~= mods@.take(i as int).map_values(
            |m: ModuleInfo| m.path@,
        ).push(mods@[i as int].path@));
        i = i + 1;
    }
    assert(mods@.take(i as int) =~= mods@);
    r
}

/// Every module's slug is the slug of its path.
pub open spec fn slugs_match(mods: Seq<ModuleInfo>) -> bool {
    forall|i: int| 0 <= i < mods.len() ==> (#[trigger] mods[i]).slug@ == slug_of(mods[i].path@)
}

/// Whether `s` starts with `prefix`.
pub open spec fn has_prefix(s: Seq<char>, prefix: Seq<char>) -> bool {
    prefix.len() <= s.len() && s.take(prefix.len() as int) == prefix
}

fn starts_with(s: &str, prefix: &str) -> (r: bool)
    ensures
        r == has_prefix(s@, prefix@),
{
    let a = chars_of(s);
    let b = chars_of(prefix);
    if b.len() > a.len() {
        return false;
    }
    let mut i: usize = 0;
    while i < b.len()
        invariant
            b@.len() <= a@.len(),
            a@ == s@,
            b@ == prefix@,
            i <= b@.len(),
            forall|j: int| 0 <= j < i ==> a@[j] == b@[j],
        decreases b@.len() - i,
    {
        if a[i] != b[i] {
            assert(a@.take(b@.len() as int)[i as int] != b@[i as int]);
            return false;
        }
        i = i + 1;
    }
    assert(a@.take(b@.len() as int) =~= b@);
    true
}

/// Some module has this path.
pub open spec fn has_module(mods: Seq<ModuleInfo>, path: Seq<char>) -> bool {
    exists|k: int| 0 <= k < mods.len() && (#[trigger] mods[k]).path@ == path
}

/// Some module lists this file.
pub open spec fn holds_file(mods: Seq<ModuleInfo>, f: Seq<char>) -> bool {
    exists|k: int, j: int| 0 <= k < mods.len() && 0 <= j < mods[k].files@.len() && (#[trigger] mods[k].files@[j])@ == f
}

/// The first `n` files that mark a boundary have a module for its directory.
pub open spec fn marked_dirs_present(files: Seq<FileEntry>, n: int, mods: Seq<ModuleInfo>) -> bool {
    forall|i: int|
        0 <= i < n ==> (explicit_boundary((#[trigger] files[i]).relative_path@) matches Some(p) ==> has_module(mods, p.0))
}

/// `b` keeps every module of `a` at its place, with its path, slug and files.
pub open spec fn keeps_modules(a: Seq<ModuleInfo>, b: Seq<ModuleInfo>) -> bool {
    &&& a.len() <= b.len()
    &&& forall|k: int| 0 <= k < a.len() ==> (#[trigger] b[k]).path@ == a[k].path@ && b[k].slug@ == a[k].slug@ && b[k].boundary_type == a[k].boundary_type
    &&& forall|k: int, j: int|
        0 <= k < a.len() && 0 <= j < a[k].files@.len() ==> string_views(b[k].files@).contains(#[trigger] a[k].files@[j]@)
}

proof fn lemma_keeps_modules(files: Seq<FileEntry>, n: int, a: Seq<ModuleInfo>, b: Seq<ModuleInfo>)
    requires
        keeps_modules(a, b),
    ensures
        marked_dirs_present(files, n, a) ==> marked_dirs_present(files, n, b),
        forall|f: Seq<char>| holds_file(a, f) ==> #[trigger] holds_file(b, f),
        forall|p: Seq<char>| has_module(a, p) ==> #[trigger] has_module(b, p),
        forall|p: Seq<char>| has_implicit(a, p) ==> #[trigger] has_implicit(b, p),
        slugs_match(a) && (forall|k: int| a.len() <= k < b.len() ==> (#[trigger] b[k]).slug@ == slug_of(b[k].path@)) ==> slugs_match(b),
{
    assert forall|p: Seq<char>| has_module(a, p) implies #[trigger] has_module(b, p) by {
        let k = choose|k: int| 0 <= k < a.len() && (#[trigger] a[k]).path@ == p;
        assert(b[k].path@ == p);
    }
    assert forall|p: Seq<char>| has_implicit(a, p) implies #[trigger] has_implicit(b, p) by {
        let k = choose|k: int| 0 <= k < a.len() && (#[trigger] a[k]).path@ == p && a[k].boundary_type == BoundaryType::Implicit;
        assert(b[k].path@ == p);
    }
    assert forall|f: Seq<char>| holds_file(a, f) implies #[trigger] holds_file(b, f) by {
        let (k, j) = choose|k: int, j: int| 0 <= k < a.len() && 0 <= j < a[k].files@.len() && (#[trigger] a[k].files@[j])@ == f;
        assert(string_views(b[k].files@).contains(a[k].files@[j]@));
        let q = choose|q: int| 0 <= q < string_views(b[k].files@).len() && string_views(b[k].files@)[q] == f;
        assert(b[k].files@[q]@ == f);
    }
    if marked_dirs_present(files, n, a) {
        assert forall|i: int| 0 <= i < n implies (explicit_boundary((#[trigger] files[i]).relative_path@) matches Some(p) ==> has_module(b, p.0)) by {
            if let Some(p) = explicit_boundary(files[i].relative_path@) {
                assert(has_module(a, p.0));
            }
        }
    }
    if slugs_match(a) && (forall|k: int| a.len() <= k < b.len() ==> (#[trigger] b[k]).slug@ == slug_of(b[k].path@)) {
        assert forall|k: int| 0 <= k < b.len() implies (#[trigger] b[k]).slug@ == slug_of(b[k].path@) by {
            if k < a.len() {
                assert(a[k].slug@ == slug_of(a[k].path@));
            }
        }
    }
}

proof fn lemma_keeps_trans(a: Seq<ModuleInfo>, b: Seq<ModuleInfo>, c: Seq<ModuleInfo>)
    requires
        keeps_modules(a, b),
        keeps_modules(b, c),
    ensures
        keeps_modules(a, c),
{
    assert forall|k: int, j: int| 0 <= k < a.len() && 0 <= j < a[k].files@.len() implies string_views(c[k].files@).contains(
        #[trigger] a[k].files@[j]@,
    ) by {
        assert(string_views(b[k].files@).contains(a[k].files@[j]@));
        let w = choose|w: int| 0 <= w < string_views(b[k].files@).len() && string_views(b[k].files@)[w] == a[k].files@[j]@;
        assert(b[k].files@[w]@ == a[k].files@[j]@);
        assert(string_views(c[k].files@).contains(b[k].files@[w]@));
    }
}

/// Equal texts: every string of `a` is among `b`'s.
proof fn lemma_same_views(a: Seq<String>, b: Seq<String>)
    requires
        string_views(a) == string_views(b),
    ensures
        forall|j: int| 0 <= j < a.len() ==> string_views(b).contains(#[trigger] a[j]@),
{
    assert forall|j: int| 0 <= j < a.len() implies string_views(b).contains(#[trigger] a[j]@) by {
        assert(string_views(a)[j] == a[j]@);
        assert(string_views(b)[j] == a[j]@);
    }
}

/// Containment of strings chains.
proof fn lemma_contained_trans(a: Seq<String>, b: Seq<String>, c: Seq<String>)
    requires
        forall|j: int| 0 <= j < a.len() ==> string_views(b).contains(#[trigger] a[j]@),
        forall|j: int| 0 <= j < b.len() ==> string_views(c).contains(#[trigger] b[j]@),
    ensures
        forall|j: int| 0 <= j < a.len() ==> string_views(c).contains(#[trigger] a[j]@),
{
    assert forall|j: int| 0 <= j < a.len() implies string_views(c).contains(#[trigger] a[j]@) by {
        let w = choose|w: int| 0 <= w < string_views(b).len() && string_views(b)[w] == a[j]@;
        assert(b[w]@ == a[j]@);
        assert(string_views(c).contains(b[w]@));
    }
}

proof fn lemma_keeps_refl(a: Seq<ModuleInfo>)
    ensures
        keeps_modules(a, a),
{
    assert forall|k: int, j: int| 0 <= k < a.len() && 0 <= j < a[k].files@.len() implies string_views(a[k].files@).contains(
        #[trigger] a[k].files@[j]@,
    ) by {
        assert(string_views(a[k].files@)[j] == a[k].files@[j]@);
    }
}

proof fn lemma_keeps_push(a: Seq<ModuleInfo>, m: ModuleInfo)
    ensures
        keeps_modules(a, a.push(m)),
{
    lemma_keeps_refl(a);
    assert forall|k: int, j: int| 0 <= k < a.len() && 0 <= j < a[k].files@.len() implies string_views(a.push(m)[k].files@).contains(
        #[trigger] a[k].files@[j]@,
    ) by {
        assert(a.push(m)[k] == a[k]);
        assert(string_views(a[k].files@)[j] == a[k].files@[j]@);
    }
}

/// Replacing module `k` by one with the same path and slug and at least its files.
proof fn lemma_keeps_update(a: Seq<ModuleInfo>, k: int, m: ModuleInfo)
    requires
        0 <= k < a.len(),
        m.path@ == a[k].path@,
        m.slug@ == a[k].slug@,
        m.boundary_type == a[k].boundary_type,
        forall|j: int| 0 <= j < a[k].files@.len() ==> string_views(m.files@).contains(#[trigger] a[k].files@[j]@),
    ensures
        keeps_modules(a, a.update(k, m)),
{
    let b = a.update(k, m);
    assert forall|q: int, j: int| 0 <= q < a.len() && 0 <= j < a[q].files@.len() implies string_views(b[q].files@).contains(
        #[trigger] a[q].files@[j]@,
    ) by {
        if q != k {
            assert(b[q] == a[q]);
            assert(string_views(a[q].files@)[j] == a[q].files@[j]@);
        }
    }
}

/// Adding a file keeps the old files and adds the new one.
proof fn lemma_add_file_keeps(old_files: Seq<String>, new_files: Seq<String>, f: Seq<char>)
    requires
        string_views(old_files).contains(f) ==> string_views(new_files) == string_views(old_files),
        !string_views(old_files).contains(f) ==> string_views(new_files) == string_views(old_files).push(f),
    ensures
        forall|j: int| 0 <= j < old_files.len() ==> string_views(new_files).contains(#[trigger] old_files[j]@),
        string_views(new_files).contains(f),
{
    assert forall|j: int| 0 <= j < old_files.len() implies string_views(new_files).contains(#[trigger] old_files[j]@) by {
        assert(string_views(old_files)[j] == old_files[j]@);
        assert(string_views(new_files)[j] == old_files[j]@);
    }
    if !string_views(old_files).contains(f) {
        assert(string_views(new_files)[old_files.len() as int] == f);
    }
}

fn replace_module(mods: &mut Vec<ModuleInfo>, k: usize, m: ModuleInfo)
    requires
        k < old(mods)@.len(),
    ensures
        final(mods)@ == old(mods)@.update(k as int, m),
{
    let ghost before = mods@;
    mods.remove(k);
    mods.insert(k, m);
    assert(mods@ =~= before.update(k as int, m));
}

/// No two texts are equal.
pub open spec fn distinct_texts(s: Seq<Seq<char>>) -> bool {
    forall|a: int, b: int| 0 <= a < s.len() && 0 <= b < s.len() && a != b ==> s[a] != s[b]
}

/// The text is the relative path of one of the files.
pub open spec fn is_input(fs: Seq<FileEntry>, t: Seq<char>) -> bool {
    exists|i: int| 0 <= i < fs.len() && (#[trigger] fs[i]).relative_path@ == t
}

/// Every text is the relative path of one of the files.
pub open spec fn all_inputs(s: Seq<Seq<char>>, fs: Seq<FileEntry>) -> bool {
    forall|j: int| 0 <= j < s.len() ==> is_input(fs, #[trigger] s[j])
}

/// A module lists input files, each once.
pub open spec fn module_files_ok(m: ModuleInfo, fs: Seq<FileEntry>) -> bool {
    distinct_texts(string_views(m.files@)) && all_inputs(string_views(m.files@), fs)
}

/// Module paths are distinct, and every module lists input files, each once.
pub open spec fn modules_ok(mods: Seq<ModuleInfo>, fs: Seq<FileEntry>) -> bool {
    &&& forall|a: int, b: int| 0 <= a < mods.len() && 0 <= b < mods.len() && a != b ==> mods[a].path@ != mods[b].path@
    &&& forall|k: int| 0 <= k < mods.len() ==> module_files_ok(#[trigger] mods[k], fs)
}

proof fn lemma_modules_update(a: Seq<ModuleInfo>, k: int, m: ModuleInfo, fs: Seq<FileEntry>)
    requires
        modules_ok(a, fs),
        0 <= k < a.len(),
        m.path@ == a[k].path@,
        module_files_ok(m, fs),
    ensures
        modules_ok(a.update(k, m), fs),
{
    let b = a.update(k, m);
    assert forall|x: int, y: int| 0 <= x < b.len() && 0 <= y < b.len() && x != y implies b[x].path@ != b[y].path@ by {
        assert(b[x].path@ == a[x].path@ && b[y].path@ == a[y].path@);
    }
    assert forall|q: int| 0 <= q < b.len() implies module_files_ok(#[trigger] b[q], fs) by {
        if q != k {
            assert(b[q] == a[q]);
        }
    }
}

proof fn lemma_modules_push(a: Seq<ModuleInfo>, m: ModuleInfo, fs: Seq<FileEntry>)
    requires
        modules_ok(a, fs),
        forall|q: int| 0 <= q < a.len() ==> (#[trigger] a[q]).path@ != m.path@,
        module_files_ok(m, fs),
    ensures
        modules_ok(a.push(m), fs),
{
    let b = a.push(m);
    assert forall|x: int, y: int| 0 <= x < b.len() && 0 <= y < b.len() && x != y implies b[x].path@ != b[y].path@ by {
        if x < a.len() && y < a.len() {
            assert(b[x] == a[x] && b[y] == a[y]);
        } else if x < a.len() {
            assert(b[x] == a[x]);
        } else {
            assert(b[y] == a[y]);
        }
    }
    assert forall|q: int| 0 <= q < b.len() implies module_files_ok(#[trigger] b[q], fs) by {
        if q < a.len() {
            assert(b[q] == a[q]);
        }
    }
}

proof fn lemma_empty_files_ok(m: ModuleInfo, fs: Seq<FileEntry>)
    requires
        m.files@.len() == 0,
    ensures
        module_files_ok(m, fs),
{
}

/// Adding an input file keeps a module's files distinct inputs.
proof fn lemma_add_input(old_files: Seq<String>, new_files: Seq<String>, f: Seq<char>, fs: Seq<FileEntry>)
    requires
        distinct_texts(string_views(old_files)),
        all_inputs(string_views(old_files), fs),
        is_input(fs, f),
        string_views(old_files).contains(f) ==> string_views(new_files) == string_views(old_files),
        !string_views(old_files).contains(f) ==> string_views(new_files) == string_views(old_files).push(f),
    ensures
        distinct_texts(string_views(new_files)),
        all_inputs(string_views(new_files), fs),
{
    let o = string_views(old_files);
    let n = string_views(new_files);
    if !o.contains(f) {
        assert forall|a: int, b: int| 0 <= a < n.len() && 0 <= b < n.len() && a != b implies n[a] != n[b] by {
            if a < o.len() && b < o.len() {
                assert(n[a] == o[a] && n[b] == o[b]);
            } else if a < o.len() {
                assert(n[a] == o[a]);
                assert(n[b] == f);
            } else {
                assert(n[b] == o[b]);
                assert(n[a] == f);
            }
        }
        assert forall|j: int| 0 <= j < n.len() implies is_input(fs, #[trigger] n[j]) by {
            if j < o.len() {
                assert(n[j] == o[j]);
            }
        }
    }
}

/// Some input file marks directory `p` as a module.
pub open spec fn marked_dir(fs: Seq<FileEntry>, p: Seq<char>) -> bool {
    exists|j: int| 0 <= j < fs.len() && (explicit_boundary((#[trigger] fs[j]).relative_path@) matches Some(x) && x.0 == p)
}

/// Some input file marks `d` or a directory below it.
pub open spec fn marks_under(fs: Seq<FileEntry>, d: Seq<char>) -> bool {
    exists|j: int| 0 <= j < fs.len() && (explicit_boundary((#[trigger] fs[j]).relative_path@) matches Some(x) && has_prefix(x.0, d))
}

/// How many input files lie directly in directory `d`.
pub open spec fn dir_count(fs: Seq<FileEntry>, d: Seq<char>) -> nat
    decreases fs.len(),
{
    if fs.len() == 0 {
        0
    } else {
        dir_count(fs.drop_last(), d) + if parent_dir(fs.last().relative_path@) == d { 1nat } else { 0nat }
    }
}

/// A directory that becomes a module by its number of files: five or more,
/// with no marked directory at or below it.
pub open spec fn implicit_dir(fs: Seq<FileEntry>, d: Seq<char>) -> bool {
    dir_count(fs, d) >= IMPLICIT_MODULE_THRESHOLD && !marks_under(fs, d)
}

/// Some module has path `d` and was found by its number of files.
pub open spec fn has_implicit(mods: Seq<ModuleInfo>, d: Seq<char>) -> bool {
    exists|k: int| 0 <= k < mods.len() && (#[trigger] mods[k]).path@ == d && mods[k].boundary_type == BoundaryType::Implicit
}

/// Some input file has path `f` and its directory is owned by module path `p`.
pub open spec fn owned_by(fs: Seq<FileEntry>, ov: Seq<Seq<char>>, f: Seq<char>, p: Seq<char>) -> bool {
    exists|i: int| 0 <= i < fs.len() && (#[trigger] fs[i]).relative_path@ == f && ov[i] == p
}

/// Every file of the module is an input owned by the module's path.
pub open spec fn module_owned(m: ModuleInfo, fs: Seq<FileEntry>, ov: Seq<Seq<char>>) -> bool {
    forall|j: int| 0 <= j < string_views(m.files@).len() ==> owned_by(fs, ov, #[trigger] string_views(m.files@)[j], m.path@)
}

proof fn lemma_owned_add(old_files: Seq<String>, new_files: Seq<String>, f: Seq<char>, p: Seq<char>, fs: Seq<FileEntry>, ov: Seq<Seq<char>>)
    requires
        forall|j: int| 0 <= j < string_views(old_files).len() ==> owned_by(fs, ov, #[trigger] string_views(old_files)[j], p),
        owned_by(fs, ov, f, p),
        string_views(old_files).contains(f) ==> string_views(new_files) == string_views(old_files),
        !string_views(old_files).contains(f) ==> string_views(new_files) == string_views(old_files).push(f),
    ensures
        forall|j: int| 0 <= j < string_views(new_files).len() ==> owned_by(fs, ov, #[trigger] string_views(new_files)[j], p),
{
    let o = string_views(old_files);
    let n = string_views(new_files);
    assert forall|j: int| 0 <= j < n.len() implies owned_by(fs, ov, #[trigger] n[j], p) by {
        if j < o.len() {
            assert(n[j] == o[j]);
        }
    }
}

proof fn lemma_owned_update(a: Seq<ModuleInfo>, k: int, m: ModuleInfo, fs: Seq<FileEntry>, ov: Seq<Seq<char>>)
    requires
        forall|q: int| 0 <= q < a.len() ==> module_owned(#[trigger] a[q], fs, ov),
        0 <= k < a.len(),
        module_owned(m, fs, ov),
    ensures
        forall|q: int| 0 <= q < a.update(k, m).len() ==> module_owned(#[trigger] a.update(k, m)[q], fs, ov),
{
    assert forall|q: int| 0 <= q < a.update(k, m).len() implies module_owned(#[trigger] a.update(k, m)[q], fs, ov) by {
        if q != k {
            assert(a.update(k, m)[q] == a[q]);
        }
    }
}

proof fn lemma_owned_push(a: Seq<ModuleInfo>, m: ModuleInfo, fs: Seq<FileEntry>, ov: Seq<Seq<char>>)
    requires
        forall|q: int| 0 <= q < a.len() ==> module_owned(#[trigger] a[q], fs, ov),
        module_owned(m, fs, ov),
    ensures
        forall|q: int| 0 <= q < a.push(m).len() ==> module_owned(#[trigger] a.push(m)[q], fs, ov),
{
    assert forall|q: int| 0 <= q < a.push(m).len() implies module_owned(#[trigger] a.push(m)[q], fs, ov) by {
        if q < a.len() {
            assert(a.push(m)[q] == a[q]);
        }
    }
}

proof fn lemma_owning_module(d: Seq<char>, paths: Seq<Seq<char>>)
    ensures
        owning_module(d, paths).len() == 0 || paths.contains(owning_module(d, paths)),
    decreases d.len(),
{
    if !paths.contains(d) {
        let p = parent_dir(d);
        if !(p.len() == 0 || p.len() >= d.len()) {
            lemma_owning_module(p, paths);
        }
    }
}

/// Sorting a module's files keeps them distinct inputs.
proof fn lemma_sorted_files_ok(v: Seq<String>, r: Seq<String>, fs: Seq<FileEntry>, ov: Seq<Seq<char>>, p: Seq<char>)
    requires
        distinct_texts(string_views(v)),
        all_inputs(string_views(v), fs),
        forall|j: int| 0 <= j < string_views(v).len() ==> owned_by(fs, ov, #[trigger] string_views(v)[j], p),
        exists|order: Seq<usize>|
            #[trigger] crate::sorting::is_sorted_order(str_views(v), order) && str_views(r) =~= order.map_values(
                |p: usize| v[p as int]@,
            ),
    ensures
        distinct_texts(string_views(r)),
        all_inputs(string_views(r), fs),
        forall|j: int| 0 <= j < string_views(r).len() ==> owned_by(fs, ov, #[trigger] string_views(r)[j], p),
{
    let order = choose|order: Seq<usize>|
        #[trigger] crate::sorting::is_sorted_order(str_views(v), order) && str_views(r) =~= order.map_values(
            |p: usize| v[p as int]@,
        );
    crate::sorting::lemma_sorted_order_distinct(str_views(v), order);
    let mapped = order.map_values(|p: usize| v[p as int]@);
    assert(str_views(r) == mapped);
    assert(string_views(r) =~= str_views(r));
    assert(string_views(v) =~= str_views(v));
    assert forall|a: int, b: int| 0 <= a < string_views(r).len() && 0 <= b < string_views(r).len() && a != b implies string_views(r)[a] != string_views(r)[b] by {
        assert(string_views(r)[a] == mapped[a] && string_views(r)[b] == mapped[b]);
        assert(mapped[a] == string_views(v)[order[a] as int]);
        assert(mapped[b] == string_views(v)[order[b] as int]);
    }
    assert forall|j: int| 0 <= j < string_views(r).len() implies is_input(fs, #[trigger] string_views(r)[j]) by {
        assert(string_views(r)[j] == mapped[j]);
        assert(mapped[j] == string_views(v)[order[j] as int]);
        assert(order[j] < string_views(v).len());
        let w = order[j] as int;
        assert(is_input(fs, string_views(v)[w]));
    }
    assert forall|j: int| 0 <= j < string_views(r).len() implies owned_by(fs, ov, #[trigger] string_views(r)[j], p) by {
        assert(string_views(r)[j] == mapped[j]);
        assert(mapped[j] == string_views(v)[order[j] as int]);
        assert(order[j] < string_views(v).len());
        let w = order[j] as int;
        assert(owned_by(fs, ov, string_views(v)[w], p));
    }
}

/// Detects the modules of a set of files: a module for each directory that
/// a marker file names, a module for each directory with five or more files
/// and no marked directory at or below it, and a root module for the rest.
/// Module paths are distinct and sorted; every input file is listed by
/// exactly one module, each module lists only input files, each once and in
/// strictly ascending order; slugs are those of the paths and children are
/// sorted.
pub fn detect_modules(files: &[FileEntry]) -> (r: Vec<ModuleInfo>)
    ensures
        slugs_match(r@),
        forall|i: int| 0 <= i < files@.len() ==> #[trigger] holds_file(r@, files@[i].relative_path@),
        marked_dirs_present(files@, files@.len() as int, r@),
        forall|i: int, j: int| 0 <= i < j < r@.len() ==> lex_lt(#[trigger] r@[i].path@, #[trigger] r@[j].path@),
        forall|m: int| 0 <= m < r@.len() ==> module_files_ok(#[trigger] r@[m], files@),
        forall|q: int|
            0 <= q < files@.len() && implicit_dir(files@, parent_dir((#[trigger] files@[q]).relative_path@)) ==> has_implicit(
                r@,
                parent_dir(files@[q].relative_path@),
            ),
        forall|k1: int, k2: int, a: int, b: int|
            0 <= k1 < r@.len() && 0 <= k2 < r@.len() && 0 <= a < r@[k1].files@.len() && 0 <= b < r@[k2].files@.len()
                && (#[trigger] r@[k1].files@[a])@ == (#[trigger] r@[k2].files@[b])@ ==> k1 == k2,
        forall|m: int, i: int, j: int|
            0 <= m < r@.len() && 0 <= i < j < r@[m].files@.len() ==> lex_lt(
                #[trigger] r@[m].files@[i]@,
                #[trigger] r@[m].files@[j]@,
            ),
        forall|m: int, i: int, j: int|
            0 <= m < r@.len() && 0 <= i < j < r@[m].children@.len() ==> lex_le(
                #[trigger] r@[m].children@[i]@,
                #[trigger] r@[m].children@[j]@,
            ),
{
    let ghost fs = files@;
    let mut mods: Vec<ModuleInfo> = Vec::new();
    // Marked directories; a later marker of the same directory replaces an earlier one.
    let mut i: usize = 0;
    while i < files.len()
        invariant
            i <= files@.len(),
            fs == files@,
            slugs_match(mods@),
            marked_dirs_present(fs, i as int, mods@),
            modules_ok(mods@, fs),
            forall|q: int| 0 <= q < mods@.len() ==> (#[trigger] mods@[q]).files@.len() == 0,
            forall|q: int| 0 <= q < mods@.len() ==> marked_dir(fs, (#[trigger] mods@[q]).path@),
        decreases files@.len() - i,
    {
        let ghost before = mods@;
        match detect_explicit_boundary(files[i].relative_path.as_str()) {
            Some((dir, bt)) => {
                let entry = files[i].relative_path.clone();
                let m = ModuleInfo::new(dir.as_str(), bt, Some(entry));
                match module_index(&mods, dir.as_str()) {
                    Some(k) => {
                        mods.set(k, m);
                        proof {
                            assert(mods@ == before.update(k as int, m));
                            lemma_modules_update(before, k as int, m, fs);
                            assert forall|q: int| 0 <= q < mods@.len() implies (#[trigger] mods@[q]).path@ == before[q].path@ by {}
                            assert forall|p: Seq<char>| has_module(before, p) implies #[trigger] has_module(mods@, p) by {
                                let q = choose|q: int| 0 <= q < before.len() && (#[trigger] before[q]).path@ == p;
                                assert(mods@[q].path@ == p);
                            }
                            assert(mods@[k as int].path@ == dir@);
                        }
                    },
                    None => {
                        mods.push(m);
                        proof {
                            lemma_modules_push(before, m, fs);
                            assert forall|p: Seq<char>| has_module(before, p) implies #[trigger] has_module(mods@, p) by {
                                let q = choose|q: int| 0 <= q < before.len() && (#[trigger] before[q]).path@ == p;
                                assert(mods@[q] == before[q]);
                            }
                            assert(mods@[mods@.len() - 1].path@ == dir@);
                        }
                    },
                }
                proof {
                    assert(has_module(mods@, dir@));
                    assert(marked_dir(fs, dir@)) by {
                        assert(explicit_boundary(fs[i as int].relative_path@) == Some((dir@, bt)));
                    }
                    assert forall|q: int| 0 <= q < mods@.len() implies marked_dir(fs, (#[trigger] mods@[q]).path@) by {
                        if q < before.len() && mods@[q] != m {
                            assert(mods@[q] == before[q]);
                        }
                    }
                    assert forall|q: int| 0 <= q < mods@.len() implies (#[trigger] mods@[q]).slug@ == slug_of(mods@[q].path@) by {
                        if q < before.len() && mods@[q] != m {
                            assert(mods@[q] == before[q]);
                        }
                    }
                }
            },
            None => {},
        }
        proof {
            assert forall|q: int| 0 <= q < i + 1 implies (explicit_boundary((#[trigger] fs[q]).relative_path@) matches Some(p) ==> has_module(mods@, p.0)) by {
                if q < i {
                    if let Some(p) = explicit_boundary(fs[q].relative_path@) {
                        assert(has_module(before, p.0));
                    }
                }
            }
        }
        i = i + 1;
    }
    let explicit = module_paths(&mods);
    // The marked module that owns each file's directory.
    let mut owner: Vec<String> = Vec::new();
    let mut dirs: Vec<String> = Vec::new();
    i = 0;
    while i < files.len()
        invariant
            i <= files@.len(),
            fs == files@,
            owner@.len() == i,
            dirs@.len() == i,
            forall|q: int| 0 <= q < i ==> (#[trigger] dirs@[q])@ == parent_dir(fs[q].relative_path@),
            forall|q: int| 0 <= q < i ==> (#[trigger] owner@[q])@ == owning_module(dirs@[q]@, string_views(explicit@)),
        decreases files@.len() - i,
    {
        let dir = get_parent_dir(files[i].relative_path.as_str());
        let o = find_owning_module(dir.as_str(), &explicit);
        owner.push(o);
        dirs.push(dir);
        i = i + 1;
    }
    // Directories with enough files and no marked module at or below them.
    let ghost marked = mods@;
    proof {
        lemma_keeps_refl(marked);
        assert(string_views(explicit@) == mods@.map_values(|m: ModuleInfo| m.path@));
        assert forall|e: int| 0 <= e < explicit@.len() implies marked_dir(fs, (#[trigger] explicit@[e])@) by {
            assert(string_views(explicit@)[e] == explicit@[e]@);
            assert(string_views(explicit@).len() == mods@.len());
            assert(mods@.map_values(|m: ModuleInfo| m.path@)[e] == mods@[e].path@);
            assert(mods@[e].path@ == explicit@[e]@);
            assert(marked_dir(fs, mods@[e].path@));
        }
        reveal_strlit("");
        assert forall|q: int| 0 <= q < fs.len() implies (#[trigger] owner@[q])@ == ""@ || has_module(mods@, owner@[q]@) by {
            lemma_owning_module(dirs@[q]@, string_views(explicit@));
            let x = owner@[q]@;
            if x.len() == 0 {
                assert(x =~= ""@);
            } else {
                let w = choose|w: int| 0 <= w < string_views(explicit@).len() && string_views(explicit@)[w] == x;
                assert(mods@[w].path@ == x);
            }
        }
    }
    i = 0;
    while i < files.len()
        invariant
            i <= files@.len(),
            fs == files@,
            owner@.len() == files@.len(),
            dirs@.len() == files@.len(),
            slugs_match(mods@),
            keeps_modules(marked, mods@),
            marked_dirs_present(fs, fs.len() as int, marked),
            modules_ok(mods@, fs),
            forall|q: int| 0 <= q < mods@.len() ==> (#[trigger] mods@[q]).files@.len() == 0,
            forall|q: int| 0 <= q < fs.len() ==> (#[trigger] dirs@[q])@ == parent_dir(fs[q].relative_path@),
            forall|q1: int, q2: int|
                0 <= q1 < fs.len() && 0 <= q2 < fs.len() && (#[trigger] dirs@[q1])@ == (#[trigger] dirs@[q2])@ ==> owner@[q1]@ == owner@[q2]@,
            forall|q: int| 0 <= q < fs.len() ==> (#[trigger] owner@[q])@ == ""@ || has_module(mods@, owner@[q]@),
            forall|e: int| 0 <= e < explicit@.len() ==> marked_dir(fs, (#[trigger] explicit@[e])@),
            forall|q: int|
                0 <= q < mods@.len() ==> marked_dir(fs, (#[trigger] mods@[q]).path@) || exists|w: int|
                    0 <= w < i && (#[trigger] dirs@[w])@ == mods@[q].path@,
            forall|q: int| 0 <= q < i && implicit_dir(fs, (#[trigger] dirs@[q])@) ==> has_implicit(mods@, dirs@[q]@),
        decreases files@.len() - i,
    {
        let dir = dirs[i].clone();
        let ghost d = dir@;
        let ghost start_mods = mods@;
        let mut first = true;
        let mut count: usize = 0;
        let mut j: usize = 0;
        while j < files.len()
            invariant
                j <= files@.len(),
                i < files@.len(),
                fs == files@,
                dirs@.len() == files@.len(),
                d == dir@,
                count <= j,
                forall|q: int| 0 <= q < fs.len() ==> (#[trigger] dirs@[q])@ == parent_dir(fs[q].relative_path@),
                count == dir_count(fs.take(j as int), d),
                first <==> !(exists|q: int| 0 <= q < j && q < i && (#[trigger] dirs@[q])@ == d),
            decreases files@.len() - j,
        {
            assert(fs.take(j + 1).drop_last() =~= fs.take(j as int));
            assert(fs.take(j + 1).last() == fs[j as int]);
            if str_eq(dirs[j].as_str(), dir.as_str()) {
                if j < i {
                    first = false;
                }
                count = count + 1;
            }
            j = j + 1;
        }
        assert(fs.take(j as int) =~= fs);
        let present = module_index(&mods, dir.as_str());
        if first && count >= IMPLICIT_MODULE_THRESHOLD && present.is_none() {
            let mut covered = false;
            let mut e: usize = 0;
            while e < explicit.len()
                invariant
                    e <= explicit@.len(),
                    d == dir@,
                    covered ==> exists|w: int| 0 <= w < e && has_prefix((#[trigger] explicit@[w])@, d),
                decreases explicit@.len() - e,
            {
                if starts_with(explicit[e].as_str(), dir.as_str()) && !str_eq(explicit[e].as_str(), dir.as_str()) {
                    covered = true;
                }
                e = e + 1;
            }
            if !covered {
                let m = ModuleInfo::new(dir.as_str(), BoundaryType::Implicit, None);
                let ghost before = mods@;
                mods.push(m);
                proof {
                    lemma_keeps_push(before, m);
                    lemma_keeps_modules(fs, fs.len() as int, before, mods@);
                    assert(mods@[mods@.len() - 1].path@ == dir@);
                    assert(has_module(mods@, dir@));
                    assert(before == start_mods);
                    assert(mods@[mods@.len() - 1].boundary_type == BoundaryType::Implicit);
                    assert(has_implicit(mods@, d));
                    assert forall|q: int| 0 <= q < mods@.len() implies marked_dir(fs, (#[trigger] mods@[q]).path@) || exists|w: int|
                        0 <= w < i + 1 && (#[trigger] dirs@[w])@ == mods@[q].path@ by {
                        if q < before.len() {
                            assert(mods@[q] == before[q]);
                            if !marked_dir(fs, before[q].path@) {
                                let w = choose|w: int| 0 <= w < i && (#[trigger] dirs@[w])@ == before[q].path@;
                                assert(dirs@[w]@ == mods@[q].path@);
                            }
                        } else {
                            assert(dirs@[i as int]@ == mods@[q].path@);
                        }
                    }
                    lemma_modules_push(before, m, fs);
                    lemma_keeps_push(before, m);
                    lemma_keeps_trans(marked, before, mods@);
                    assert forall|q: int| 0 <= q < mods@.len() implies (#[trigger] mods@[q]).files@.len() == 0 by {
                        if q < before.len() {
                            assert(mods@[q] == before[q]);
                        }
                    }
                    assert forall|q: int| 0 <= q < mods@.len() implies (#[trigger] mods@[q]).slug@ == slug_of(mods@[q].path@) by {
                        if q < before.len() {
                            assert(mods@[q] == before[q]);
                        }
                    }
                }
                let ghost old_owner = owner@;
                let mut f: usize = 0;
                while f < files.len()
                    invariant
                        f <= files@.len(),
                        fs == files@,
                        owner@.len() == files@.len(),
                        dirs@.len() == files@.len(),
                        has_module(mods@, dir@),
                        forall|q: int| 0 <= q < f && (#[trigger] dirs@[q])@ == dir@ ==> owner@[q]@ == dir@,
                        forall|q: int| 0 <= q < fs.len() && (q >= f || dirs@[q]@ != dir@) ==> (#[trigger] owner@[q]) == old_owner[q],
                    decreases files@.len() - f,
                {
                    if str_eq(dirs[f].as_str(), dir.as_str()) {
                        let dc = dir.clone();
                        owner.set(f, dc);
                    }
                    f = f + 1;
                }
                proof {
                    assert forall|q1: int, q2: int|
                        0 <= q1 < fs.len() && 0 <= q2 < fs.len() && (#[trigger] dirs@[q1])@ == (#[trigger] dirs@[q2])@ implies owner@[q1]@ == owner@[q2]@ by {
                        if dirs@[q1]@ != dir@ {
                            assert(owner@[q1] == old_owner[q1] && owner@[q2] == old_owner[q2]);
                        }
                    }
                    assert forall|q: int| 0 <= q < fs.len() implies (#[trigger] owner@[q])@ == ""@ || has_module(mods@, owner@[q]@) by {
                        if dirs@[q]@ != dir@ {
                            assert(owner@[q] == old_owner[q]);
                        }
                    }
                }
            } else {
                proof {
                    let w = choose|w: int| 0 <= w < explicit@.len() && has_prefix((#[trigger] explicit@[w])@, d);
                    assert(marked_dir(fs, explicit@[w]@));
                    let jj = choose|jj: int| 0 <= jj < fs.len() && (explicit_boundary((#[trigger] fs[jj]).relative_path@) matches Some(x) && x.0 == explicit@[w]@);
                    assert(marks_under(fs, d));
                }
            }
        } else {
            proof {
                assert(d.take(d.len() as int) =~= d);
                if first && count >= IMPLICIT_MODULE_THRESHOLD {
                    let kk = present.unwrap();
                    assert(mods@[kk as int].path@ == d);
                    if marked_dir(fs, mods@[kk as int].path@) {
                        let jj = choose|jj: int| 0 <= jj < fs.len() && (explicit_boundary((#[trigger] fs[jj]).relative_path@) matches Some(x) && x.0 == d);
                        assert(has_prefix(d, d));
                        assert(marks_under(fs, d));
                    } else {
                        let w = choose|w: int| 0 <= w < i && (#[trigger] dirs@[w])@ == mods@[kk as int].path@;
                        assert(w < j);
                    }
                } else if !first {
                    let w = choose|w: int| 0 <= w < j && w < i && (#[trigger] dirs@[w])@ == d;
                    if implicit_dir(fs, d) {
                        assert(has_implicit(mods@, dirs@[w]@));
                    }
                }
            }
        }
        proof {
            assert(forall|q: int| 0 <= q < i && implicit_dir(fs, (#[trigger] dirs@[q])@) ==> has_implicit(mods@, dirs@[q]@));
            assert(implicit_dir(fs, d) ==> has_implicit(mods@, d));
            assert(dirs@[i as int]@ == d);
        }
        i = i + 1;
    }
    proof {
        lemma_keeps_modules(fs, fs.len() as int, marked, mods@);
    }
    // Files join their modules; the rest go to the root module.
    let ghost ov = string_views(owner@);
    proof {
        assert forall|q: int| 0 <= q < mods@.len() implies module_owned(#[trigger] mods@[q], fs, ov) by {
            assert(mods@[q].files@.len() == 0);
        }
    }
    let mut orphans: Vec<String> = Vec::new();
    i = 0;
    while i < files.len()
        invariant
            i <= files@.len(),
            fs == files@,
            owner@.len() == files@.len(),
            slugs_match(mods@),
            marked_dirs_present(fs, fs.len() as int, mods@),
            modules_ok(mods@, fs),
            all_inputs(string_views(orphans@), fs),
            ov == string_views(owner@),
            forall|q: int| 0 <= q < mods@.len() ==> module_owned(#[trigger] mods@[q], fs, ov),
            forall|j: int| 0 <= j < string_views(orphans@).len() ==> owned_by(fs, ov, #[trigger] string_views(orphans@)[j], ""@),
            forall|q: int| 0 <= q < fs.len() ==> (#[trigger] owner@[q])@ == ""@ || has_module(mods@, owner@[q]@),
            forall|q: int| 0 <= q < fs.len() && implicit_dir(fs, (#[trigger] dirs@[q])@) ==> has_implicit(mods@, dirs@[q]@),
            forall|q: int| 0 <= q < i ==> holds_file(mods@, #[trigger] fs[q].relative_path@) || string_views(orphans@).contains(fs[q].relative_path@),
        decreases files@.len() - i,
    {
        let ghost before = mods@;
        let ghost before_orphans = string_views(orphans@);
        let ghost f = fs[i as int].relative_path@;
        match module_index(&mods, owner[i].as_str()) {
            Some(k) => {
                let mut m = mods[k].clone_module();
                let ghost old_files = m.files@;
                m.add_file(files[i].relative_path.clone());
                proof {
                    assert(module_files_ok(before[k as int], fs));
                    assert(fs[i as int].relative_path@ == f);
                    assert(ov[i as int] == owner@[i as int]@);
                    assert(owned_by(fs, ov, f, m.path@));
                    assert(module_owned(before[k as int], fs, ov));
                    assert(string_views(old_files) == string_views(before[k as int].files@));
                    lemma_owned_add(old_files, m.files@, f, m.path@, fs, ov);
                    lemma_owned_update(before, k as int, m, fs, ov);
                    lemma_add_input(old_files, m.files@, f, fs);
                    lemma_modules_update(before, k as int, m, fs);
                    lemma_add_file_keeps(old_files, m.files@, f);
                    lemma_same_views(before[k as int].files@, old_files);
                    lemma_contained_trans(before[k as int].files@, old_files, m.files@);
                    lemma_keeps_update(before, k as int, m);
                }
                replace_module(&mut mods, k, m);
                proof {
                    lemma_keeps_modules(fs, fs.len() as int, before, mods@);
                    let q = choose|q: int| 0 <= q < string_views(mods@[k as int].files@).len() && string_views(mods@[k as int].files@)[q] == f;
                    assert(mods@[k as int].files@[q]@ == f);
                    assert(holds_file(mods@, f));
                    assert forall|q: int| 0 <= q < mods@.len() implies (#[trigger] mods@[q]).slug@ == slug_of(mods@[q].path@) by {
                        assert(mods@[q].slug@ == before[q].slug@ && mods@[q].path@ == before[q].path@);
                    }
                }
            },
            None => {
                let name = files[i].relative_path.clone();
                orphans.push(name);
                proof {
                    assert(string_views(orphans@) =~= before_orphans.push(f));
                    assert(fs[i as int].relative_path@ == f);
                    assert(!has_module(mods@, owner@[i as int]@));
                    assert(ov[i as int] == ""@);
                    assert forall|j: int| 0 <= j < string_views(orphans@).len() implies owned_by(fs, ov, #[trigger] string_views(orphans@)[j], ""@) by {
                        if j < before_orphans.len() {
                            assert(string_views(orphans@)[j] == before_orphans[j]);
                        }
                    }
                    assert forall|j: int| 0 <= j < string_views(orphans@).len() implies is_input(fs, #[trigger] string_views(orphans@)[j]) by {
                        if j < before_orphans.len() {
                            assert(string_views(orphans@)[j] == before_orphans[j]);
                        }
                    }
                    assert(string_views(orphans@)[orphans@.len() - 1] == f);
                }
            },
        }
        proof {
            assert forall|q: int| 0 <= q < i + 1 implies holds_file(mods@, #[trigger] fs[q].relative_path@) || string_views(orphans@).contains(fs[q].relative_path@) by {
                if q < i {
                    if !holds_file(before, fs[q].relative_path@) {
                        let w = choose|w: int| 0 <= w < before_orphans.len() && before_orphans[w] == fs[q].relative_path@;
                        assert(string_views(orphans@)[w] == fs[q].relative_path@);
                    }
                }
            }
        }
        i = i + 1;
    }
    if orphans.len() > 0 {
        let ghost before = mods@;
        let (mut root, k) = match module_index(&mods, "") {
            Some(k) => (mods[k].clone_module(), Some(k)),
            None => (ModuleInfo::new("", BoundaryType::Root, None), None),
        };
        let ghost start_files = root.files@;
        proof {
            lemma_same_views(start_files, start_files);
            match k {
                Some(kk) => {
                    assert(module_files_ok(before[kk as int], fs));
                    assert(module_owned(before[kk as int], fs, ov));
                    assert(string_views(root.files@) == string_views(before[kk as int].files@));
                    assert(root.path@ == before[kk as int].path@);
                },
                None => {
                    lemma_empty_files_ok(root, fs);
                },
            }
        }
        let mut o: usize = 0;
        while o < orphans.len()
            invariant
                o <= orphans@.len(),
                root.slug@ == slug_of(root.path@),
                forall|j: int| 0 <= j < start_files.len() ==> string_views(root.files@).contains(#[trigger] start_files[j]@),
                forall|q: int| 0 <= q < o ==> string_views(root.files@).contains(#[trigger] orphans@[q]@),
                root.path@ == ""@ || (k matches Some(kk) && kk < before.len() && root.path@ == before[kk as int].path@),
                module_files_ok(root, fs),
                all_inputs(string_views(orphans@), fs),
                module_owned(root, fs, ov),
                root.path@ == ""@,
                k matches Some(kk) ==> kk < before.len() && root.boundary_type == before[kk as int].boundary_type,
                forall|j: int| 0 <= j < string_views(orphans@).len() ==> owned_by(fs, ov, #[trigger] string_views(orphans@)[j], ""@),
            decreases orphans@.len() - o,
        {
            let ghost prev = root.files@;
            let ghost f = orphans@[o as int]@;
            root.add_file(orphans[o].clone());
            proof {
                assert(string_views(orphans@)[o as int] == f);
                lemma_owned_add(prev, root.files@, f, root.path@, fs, ov);
                lemma_add_input(prev, root.files@, f, fs);
                lemma_add_file_keeps(prev, root.files@, f);
                assert forall|j: int| 0 <= j < start_files.len() implies string_views(root.files@).contains(#[trigger] start_files[j]@) by {
                    let w = choose|w: int| 0 <= w < string_views(prev).len() && string_views(prev)[w] == start_files[j]@;
                    assert(string_views(root.files@).contains(prev[w]@));
                }
                assert forall|q: int| 0 <= q < o + 1 implies string_views(root.files@).contains(#[trigger] orphans@[q]@) by {
                    if q < o {
                        let w = choose|w: int| 0 <= w < string_views(prev).len() && string_views(prev)[w] == orphans@[q]@;
                        assert(string_views(root.files@).contains(prev[w]@));
                    }
                }
            }
            o = o + 1;
        }
        match k {
            Some(kk) => {
                proof {
                    assert(before[kk as int].path@ == ""@);
                    lemma_modules_update(before, kk as int, root, fs);
                    lemma_owned_update(before, kk as int, root, fs, ov);
                    lemma_same_views(before[kk as int].files@, start_files);
                    lemma_contained_trans(before[kk as int].files@, start_files, root.files@);
                    lemma_keeps_update(before, kk as int, root);
                }
                replace_module(&mut mods, kk, root);
                proof {
                    lemma_keeps_modules(fs, fs.len() as int, before, mods@);
                    assert forall|q: int| 0 <= q < mods@.len() implies (#[trigger] mods@[q]).slug@ == slug_of(mods@[q].path@) by {
                        assert(mods@[q].slug@ == before[q].slug@ && mods@[q].path@ == before[q].path@);
                    }
                }
            },
            None => {
                proof {
                    assert(root.path@ == ""@);
                    lemma_modules_push(before, root, fs);
                    lemma_owned_push(before, root, fs, ov);
                }
                mods.push(root);
                proof {
                    lemma_keeps_push(before, root);
                    lemma_keeps_modules(fs, fs.len() as int, before, mods@);
                }
            },
        }
        proof {
            let rk = match k { Some(kk) => kk as int, None => before.len() as int };
            assert(mods@[rk].files@ == root.files@);
            assert forall|q: int| 0 <= q < fs.len() implies #[trigger] holds_file(mods@, fs[q].relative_path@) by {
                if !holds_file(before, fs[q].relative_path@) {
                    let w = choose|w: int| 0 <= w < string_views(orphans@).len() && string_views(orphans@)[w] == fs[q].relative_path@;
                    assert(string_views(root.files@).contains(orphans@[w]@));
                    let z = choose|z: int| 0 <= z < string_views(root.files@).len() && string_views(root.files@)[z] == orphans@[w]@;
                    assert(mods@[rk].files@[z]@ == fs[q].relative_path@);
                }
            }
        }
    } else {
        proof {
            assert forall|q: int| 0 <= q < fs.len() implies #[trigger] holds_file(mods@, fs[q].relative_path@) by {
                if !holds_file(mods@, fs[q].relative_path@) {
                    assert(string_views(orphans@).len() == 0);
                }
            }
        }
    }
    // Parents and children.
    let all_paths = module_paths(&mods);
    let mut p: usize = 0;
    while p < all_paths.len()
        invariant
            p <= all_paths@.len(),
            fs == files@,
            slugs_match(mods@),
            marked_dirs_present(fs, fs.len() as int, mods@),
            forall|q: int| 0 <= q < fs.len() ==> #[trigger] holds_file(mods@, fs[q].relative_path@),
            modules_ok(mods@, fs),
            forall|q: int| 0 <= q < mods@.len() ==> module_owned(#[trigger] mods@[q], fs, ov),
            forall|q: int| 0 <= q < fs.len() && implicit_dir(fs, (#[trigger] dirs@[q])@) ==> has_implicit(mods@, dirs@[q]@),
        decreases all_paths@.len() - p,
    {
        let path = &all_paths[p];
        if chars_of(path.as_str()).len() > 0 {
            match find_parent_module(path.as_str(), &all_paths) {
                Some(parent) => {
                    match module_index(&mods, path.as_str()) {
                        Some(k) => {
                            let ghost before = mods@;
                            let mut m = mods[k].clone_module();
                            m.parent = Some(path_to_slug(parent.as_str()));
                            proof {
                                assert(module_files_ok(before[k as int], fs));
                                assert(module_owned(before[k as int], fs, ov));
                                lemma_owned_update(before, k as int, m, fs, ov);
                                lemma_modules_update(before, k as int, m, fs);
                                lemma_same_views(before[k as int].files@, m.files@);
                                lemma_keeps_update(before, k as int, m);
                            }
                            replace_module(&mut mods, k, m);
                            proof {
                                lemma_keeps_modules(fs, fs.len() as int, before, mods@);
                            }
                        },
                        None => {},
                    }
                    match module_index(&mods, parent.as_str()) {
                        Some(k) => {
                            let ghost before = mods@;
                            let mut m = mods[k].clone_module();
                            m.children.push(path_to_slug(path.as_str()));
                            proof {
                                assert(module_files_ok(before[k as int], fs));
                                assert(module_owned(before[k as int], fs, ov));
                                lemma_owned_update(before, k as int, m, fs, ov);
                                lemma_modules_update(before, k as int, m, fs);
                                lemma_same_views(before[k as int].files@, m.files@);
                                lemma_keeps_update(before, k as int, m);
                            }
                            replace_module(&mut mods, k, m);
                            proof {
                                lemma_keeps_modules(fs, fs.len() as int, before, mods@);
                            }
                        },
                        None => {},
                    }
                },
                None => {},
            }
        }
        p = p + 1;
    }
    // Sorted files and children, modules by path.
    let order = sorted_order(&module_paths(&mods));
    let ghost keys = mods@.map_values(|m: ModuleInfo| m.path@);
    let mut out: Vec<ModuleInfo> = Vec::new();
    let mut j: usize = 0;
    while j < order.len()
        invariant
            j <= order@.len(),
            crate::sorting::is_sorted_order(keys, order@),
            keys == mods@.map_values(|m: ModuleInfo| m.path@),
            slugs_match(mods@),
            out@.len() == j,
            forall|q: int| 0 <= q < j ==> (#[trigger] out@[q]).path@ == keys[order@[q] as int],
            forall|q: int, w: int|
                0 <= q < j && 0 <= w < mods@[order@[q] as int].files@.len() ==> string_views(out@[q].files@).contains(
                    #[trigger] mods@[order@[q] as int].files@[w]@,
                ),
            slugs_match(out@),
            modules_ok(mods@, fs),
            forall|q: int| 0 <= q < j ==> module_files_ok(#[trigger] out@[q], fs),
            forall|q: int| 0 <= q < mods@.len() ==> module_owned(#[trigger] mods@[q], fs, ov),
            forall|q: int| 0 <= q < j ==> module_owned(#[trigger] out@[q], fs, ov),
            forall|q: int| 0 <= q < j ==> (#[trigger] out@[q]).boundary_type == mods@[order@[q] as int].boundary_type,
            forall|q: int, a: int, b: int|
                0 <= q < out@.len() && 0 <= a < b < out@[q].files@.len() ==> lex_le(
                    #[trigger] out@[q].files@[a]@,
                    #[trigger] out@[q].files@[b]@,
                ),
            forall|q: int, a: int, b: int|
                0 <= q < out@.len() && 0 <= a < b < out@[q].children@.len() ==> lex_le(
                    #[trigger] out@[q].children@[a]@,
                    #[trigger] out@[q].children@[b]@,
                ),
        decreases order@.len() - j,
    {
        let src = &mods[order[j]];
        let sorted_files = sort_strings(&src.files);
        assert(src.files@.len() == src.files.len());
        proof {
            crate::sorting::lemma_sorted_keeps(src.files@, sorted_files@);
            assert(module_files_ok(mods@[order@[j as int] as int], fs));
            assert(module_owned(mods@[order@[j as int] as int], fs, ov));
            lemma_sorted_files_ok(src.files@, sorted_files@, fs, ov, src.path@);
        }
        let m = ModuleInfo {
            slug: src.slug.clone(),
            path: src.path.clone(),
            files: sorted_files,
            entry_point: src.entry_point.clone(),
            boundary_type: src.boundary_type,
            parent: src.parent.clone(),
            children: sort_strings(&src.children),
        };
        assert(src.slug@ == slug_of(src.path@));
        out.push(m);
        j = j + 1;
    }
    proof {
        crate::sorting::lemma_sorted_order_distinct(keys, order@);
        assert forall|a: int, b: int| 0 <= a < b < out@.len() implies lex_lt(#[trigger] out@[a].path@, #[trigger] out@[b].path@) by {
            assert(lex_before(keys, order@[a] as int, order@[b] as int));
            assert(order@[a] != order@[b]);
            assert(keys[order@[a] as int] == mods@[order@[a] as int].path@);
            assert(keys[order@[b] as int] == mods@[order@[b] as int].path@);
        }
        assert forall|pth: Seq<char>| has_module(mods@, pth) implies #[trigger] has_module(out@, pth) by {
            let k = choose|k: int| 0 <= k < mods@.len() && (#[trigger] mods@[k]).path@ == pth;
            assert(order@.contains(k as usize));
            let q = choose|q: int| 0 <= q < order@.len() && order@[q] == k as usize;
            assert(out@[q].path@ == keys[k]);
        }
        assert forall|i: int| 0 <= i < fs.len() implies (explicit_boundary((#[trigger] fs[i]).relative_path@) matches Some(p) ==> has_module(out@, p.0)) by {
            if let Some(p) = explicit_boundary(fs[i].relative_path@) {
                assert(has_module(mods@, p.0));
            }
        }
        assert forall|k1: int, k2: int, a: int, b: int|
            0 <= k1 < out@.len() && 0 <= k2 < out@.len() && 0 <= a < out@[k1].files@.len() && 0 <= b < out@[k2].files@.len()
                && (#[trigger] out@[k1].files@[a])@ == (#[trigger] out@[k2].files@[b])@ implies k1 == k2 by {
            let f = out@[k1].files@[a]@;
            assert(string_views(out@[k1].files@)[a] == f);
            assert(string_views(out@[k2].files@)[b] == f);
            assert(module_owned(out@[k1], fs, ov));
            assert(module_owned(out@[k2], fs, ov));
            assert(owned_by(fs, ov, f, out@[k1].path@));
            assert(owned_by(fs, ov, f, out@[k2].path@));
            let i1 = choose|i: int| 0 <= i < fs.len() && (#[trigger] fs[i]).relative_path@ == f && ov[i] == out@[k1].path@;
            let i2 = choose|i: int| 0 <= i < fs.len() && (#[trigger] fs[i]).relative_path@ == f && ov[i] == out@[k2].path@;
            assert(dirs@[i1]@ == parent_dir(fs[i1].relative_path@));
            assert(dirs@[i2]@ == parent_dir(fs[i2].relative_path@));
            assert(owner@[i1]@ == owner@[i2]@);
            assert(ov[i1] == owner@[i1]@ && ov[i2] == owner@[i2]@);
            if k1 != k2 {
                crate::sorting::lemma_lex_irrefl(out@[k1].path@);
                if k1 < k2 {
                    assert(lex_lt(out@[k1].path@, out@[k2].path@));
                } else {
                    assert(lex_lt(out@[k2].path@, out@[k1].path@));
                }
            }
        }
        assert forall|q: int| 0 <= q < fs.len() && implicit_dir(fs, parent_dir((#[trigger] fs[q]).relative_path@)) implies has_implicit(out@, parent_dir(fs[q].relative_path@)) by {
            let d = parent_dir(fs[q].relative_path@);
            assert(dirs@[q]@ == d);
            assert(has_implicit(mods@, d));
            let k = choose|k: int| 0 <= k < mods@.len() && (#[trigger] mods@[k]).path@ == d && mods@[k].boundary_type == BoundaryType::Implicit;
            assert(order@.contains(k as usize));
            let w = choose|w: int| 0 <= w < order@.len() && order@[w] == k as usize;
            assert(out@[w].path@ == keys[k]);
            assert(out@[w].boundary_type == BoundaryType::Implicit);
        }
        assert forall|m: int, a: int, b: int|
            0 <= m < out@.len() && 0 <= a < b < out@[m].files@.len() implies lex_lt(
                #[trigger] out@[m].files@[a]@,
                #[trigger] out@[m].files@[b]@,
            ) by {
            assert(lex_le(out@[m].files@[a]@, out@[m].files@[b]@));
            assert(module_files_ok(out@[m], fs));
            assert(string_views(out@[m].files@)[a] == out@[m].files@[a]@);
            assert(string_views(out@[m].files@)[b] == out@[m].files@[b]@);
        }
        assert forall|i: int| 0 <= i < fs.len() implies #[trigger] holds_file(out@, fs[i].relative_path@) by {
            let f = fs[i].relative_path@;
            assert(holds_file(mods@, f));
            let (k, w) = choose|k: int, w: int| 0 <= k < mods@.len() && 0 <= w < mods@[k].files@.len() && (#[trigger] mods@[k].files@[w])@ == f;
            assert(order@.contains(k as usize));
            let q = choose|q: int| 0 <= q < order@.len() && order@[q] == k as usize;
            assert(string_views(out@[q].files@).contains(mods@[k].files@[w]@));
            let z = choose|z: int| 0 <= z < string_views(out@[q].files@).len() && string_views(out@[q].files@)[z] == f;
            assert(out@[q].files@[z]@ == f);
        }
    }
    out
}

/// Paths of the modules whose parent is the module with slug `slug`.
pub open spec fn child_paths(mods: Seq<ModuleInfo>, slug: Seq<char>) -> Seq<Seq<char>>
    decreases mods.len(),
{
    if mods.len() == 0 {
        Seq::empty()
    } else {
        let prev = child_paths(mods.drop_last(), slug);
        match mods.last().parent {
            Some(p) => if p@ == slug { prev.push(mods.last().path@) } else { prev },
            None => prev,
        }
    }
}

/// A file belongs to a module itself when its directory lies under the
/// module's path and under none of its children's paths.
pub open spec fn own_file(dir: Seq<char>, path: Seq<char>, children: Seq<Seq<char>>) -> bool {
    (has_prefix(dir, path) || dir == path) && !(exists|i: int| 0 <= i < children.len() && has_prefix(dir, #[trigger] children[i]))
}

pub open spec fn own_files(files: Seq<FileEntry>, path: Seq<char>, children: Seq<Seq<char>>) -> Seq<FileEntry>
    decreases files.len(),
{
    if files.len() == 0 {
        Seq::empty()
    } else {
        let prev = own_files(files.drop_last(), path, children);
        if own_file(parent_dir(files.last().relative_path@), path, children) {
            prev.push(files.last())
        } else {
            prev
        }
    }
}

/// The files that belong to `module` itself, not to one of its child modules.
pub fn get_module_files<'a>(module: &ModuleInfo, all_modules: &[ModuleInfo], files: &'a [FileEntry]) -> (r: Vec<&'a FileEntry>)
    ensures
        r@.map_values(|f: &FileEntry| *f) == own_files(files@, module.path@, child_paths(all_modules@, module.slug@)),
{
    let ghost slug = module.slug@;
    let mut children: Vec<String> = Vec::new();
    let mut i: usize = 0;
    while i < all_modules.len()
        invariant
            i <= all_modules@.len(),
            slug == module.slug@,
            string_views(children@) == child_paths(all_modules@.take(i as int), slug),
        decreases all_modules@.len() - i,
    {
        let m = &all_modules[i];
        assert(all_modules@.take(i + 1).drop_last() =~= all_modules@.take(i as int));
        assert(all_modules@.take(i + 1).last() == *m);
        match &m.parent {
            Some(p) => {
                if str_eq(p.as_str(), module.slug.as_str()) {
                    let ghost prev = string_views(children@);
                    let c = m.path.clone();
                    children.push(c);
                    assert(string_views(children@) =~= prev.push(m.path@));
                }
            },
            None => {},
        }
        i = i + 1;
    }
    assert(all_modules@.take(i as int) =~= all_modules@);
    let ghost cp = string_views(children@);
    let mut out: Vec<&'a FileEntry> = Vec::new();
    let mut k: usize = 0;
    while k < files.len()
        invariant
            k <= files@.len(),
            cp == string_views(children@),
            out@.map_values(|f: &FileEntry| *f) == own_files(files@.take(k as int), module.path@, cp),
        decreases files@.len() - k,
    {
        let f = &files[k];
        assert(files@.take(k + 1).drop_last() =~= files@.take(k as int));
        assert(files@.take(k + 1).last() == *f);
        let dir = get_parent_dir(f.relative_path.as_str());
        let mut keep = starts_with(dir.as_str(), module.path.as_str()) || str_eq(dir.as_str(), module.path.as_str());
        if keep {
            let mut c: usize = 0;
            while c < children.len()
                invariant
                    c <= children@.len(),
                    cp == string_views(children@),
                    keep == !(exists|q: int| 0 <= q < c && has_prefix(dir@, #[trigger] cp[q])),
                decreases children@.len() - c,
            {
                if starts_with(dir.as_str(), children[c].as_str()) {
                    keep = false;
                }
                assert(cp[c as int] == children@[c as int]@);
                c = c + 1;
            }
        }
        let ghost prev = out@.map_values(|f: &FileEntry| *f);
        if keep {
            out.push(f);
            assert(out@.map_values(|f: &FileEntry| *f) =~= prev.push(*f));
        }
        k = k + 1;
    }
    assert(files@.take(k as int) =~= files@);
    out
}

} // verus!
