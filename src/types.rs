//! Plain data handed to the chunker and the module detector: files found by
//! the scanner and the symbols that a language parser located in them.

use vstd::prelude::*;

verus! {

/// What kind of declaration a symbol is.
#[derive(Debug, Clone, Copy, PartialEq, Eq, Structural)]
pub enum SymbolKind {
    Function,
    Method,
    Class,
    Struct,
    Interface,
    Enum,
    Trait,
    Module,
    Const,
    Type,
}

#[derive(Debug, Clone, Copy, PartialEq, Eq, Structural)]
pub enum Visibility {
    Public,
    Private,
    Protected,
    Internal,
}

#[derive(Debug, Clone, Copy, PartialEq, Eq, Structural)]
pub enum Language {
    Rust,
    Python,
    JavaScript,
    TypeScript,
    Go,
    Java,
    CSharp,
    Swift,
    Other,
}

/// An inclusive range of 1-based line numbers.
#[derive(Debug, Clone, Copy, PartialEq, Eq, Structural)]
pub struct LineRange {
    pub start: usize,
    pub end: usize,
}

/// A declaration located in a source file.
#[derive(Debug, Clone)]
pub struct Symbol {
    pub kind: SymbolKind,
    pub name: String,
    pub line: usize,
    pub visibility: Visibility,
    pub line_range: LineRange,
    pub signature: Option<String>,
}

impl Symbol {
    /// A symbol that spans its own line only.
    pub fn new(kind: SymbolKind, name: String, line: usize, visibility: Visibility) -> (r: Symbol)
        ensures
            r.kind == kind,
            r.name@ == name@,
            r.line == line,
            r.visibility == visibility,
            r.line_range == (LineRange { start: line, end: line }),
            r.signature.is_none(),
    {
        Symbol {
            kind,
            name,
            line,
            visibility,
            line_range: LineRange { start: line, end: line },
            signature: None,
        }
    }

    pub fn with_line_range(self, start: usize, end: usize) -> (r: Symbol)
        ensures
            r.line_range == (LineRange { start, end }),
            r.signature == self.signature,
            r.kind == self.kind,
            r.name@ == self.name@,
            r.line == self.line,
            r.visibility == self.visibility,
    {
        Symbol { line_range: LineRange { start, end }, ..self }
    }

    /// Equal in every field.
    pub open spec fn view_eq(&self, o: Symbol) -> bool {
        &&& self.kind == o.kind
        &&& self.name@ == o.name@
        &&& self.line == o.line
        &&& self.visibility == o.visibility
        &&& self.line_range == o.line_range
        &&& match (self.signature, o.signature) {
            (Some(a), Some(b)) => a@ == b@,
            (None, None) => true,
            _ => false,
        }
    }

    /// A copy of this symbol.
    pub fn duplicate(&self) -> (r: Symbol)
        ensures
            r.view_eq(*self),
    {
        Symbol {
            kind: self.kind,
            name: self.name.clone(),
            line: self.line,
            visibility: self.visibility,
            line_range: self.line_range,
            signature: match &self.signature {
                Some(s) => Some(s.clone()),
                None => None,
            },
        }
    }

    pub fn with_signature(self, signature: String) -> (r: Symbol)
        ensures
            r.signature == Some(signature),
            r.line_range == self.line_range,
            r.kind == self.kind,
            r.name@ == self.name@,
            r.line == self.line,
            r.visibility == self.visibility,
    {
        Symbol { signature: Some(signature), ..self }
    }
}

/// The lower-case name of a symbol kind, as shown in fragment headers.
pub open spec fn kind_name(k: SymbolKind) -> Seq<char> {
    match k {
        SymbolKind::Function => "function"@,
        SymbolKind::Method => "method"@,
        SymbolKind::Class => "class"@,
        SymbolKind::Struct => "struct"@,
        SymbolKind::Interface => "interface"@,
        SymbolKind::Enum => "enum"@,
        SymbolKind::Trait => "trait"@,
        SymbolKind::Module => "module"@,
        SymbolKind::Const => "const"@,
        SymbolKind::Type => "type"@,
    }
}

impl SymbolKind {
    pub fn name(&self) -> (r: &'static str)
        ensures
            r@ == kind_name(*self),
    {
        match self {
            SymbolKind::Function => "function",
            SymbolKind::Method => "method",
            SymbolKind::Class => "class",
            SymbolKind::Struct => "struct",
            SymbolKind::Interface => "interface",
            SymbolKind::Enum => "enum",
            SymbolKind::Trait => "trait",
            SymbolKind::Module => "module",
            SymbolKind::Const => "const",
            SymbolKind::Type => "type",
        }
    }
}

/// A file chosen for indexing by the scanner.
#[derive(Debug, Clone)]
pub struct FileEntry {
    /// Where the file can be read.
    pub path: String,
    /// The path relative to the project root; the file's identity.
    pub relative_path: String,
    pub extension: Option<String>,
    pub language: Language,
    pub size_bytes: u64,
    pub line_count: usize,
    /// Whether the file has more lines than the scanner's threshold.
    pub is_large: bool,
}

impl FileEntry {
    pub fn new(
        path: String,
        relative_path: String,
        size_bytes: u64,
        line_count: usize,
        large_threshold: usize,
    ) -> (r: FileEntry)
        ensures
            r.path@ == path@,
            r.relative_path@ == relative_path@,
            r.size_bytes == size_bytes,
            r.line_count == line_count,
            r.is_large == (line_count > large_threshold),
            r.extension.is_none(),
            r.language == Language::Other,
    {
        FileEntry {
            path,
            relative_path,
            extension: None,
            language: Language::Other,
            size_bytes,
            line_count,
            is_large: line_count > large_threshold,
        }
    }
}

} // verus!
