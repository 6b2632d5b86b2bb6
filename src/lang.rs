//! Symbol parsers for Java, C# and Swift: patterns find declarations, and a
//! brace scan finds where each one ends.

use vstd::prelude::*;
use vstd::utf8::encode_utf8;
use crate::ranking::{is_top_ranking, top_positions};
use crate::store::str_eq;
use crate::text::{chars_of, is_space, is_space_char, string_of};
use crate::types::{Symbol, SymbolKind, Visibility};

verus! {

/// The matches of a pattern in a text, in order: for each group, its byte
/// span and text when it took part in the match.
pub uninterp spec fn regex_matches(pattern: Seq<char>, text: Seq<char>) -> Seq<Seq<Option<(nat, nat, Seq<char>)>>>;

/// One match's groups as mathematical values.
pub open spec fn match_view(m: Seq<Option<(usize, usize, String)>>) -> Seq<Option<(nat, nat, Seq<char>)>> {
    m.map_values(
        |g: Option<(usize, usize, String)>|
            match g {
                Some(x) => Some((x.0 as nat, x.1 as nat, x.2@)),
                None => None,
            },
    )
}

pub open spec fn group_views(ms: Seq<Vec<Option<(usize, usize, String)>>>) -> Seq<Seq<Option<(nat, nat, Seq<char>)>>> {
    ms.map_values(|m: Vec<Option<(usize, usize, String)>>| match_view(m@))
}

/// Relies on `regex::Regex::new` and `Regex::captures_iter`: for a valid
/// pattern, the matches with their groups; group 0, the whole match, always
/// takes part, and each span lies in the text with its start before its end.
#[verifier::external_body]
fn find_matches(pattern: &str, text: &str) -> (r: Option<Vec<Vec<Option<(usize, usize, String)>>>>)
    ensures
        r matches Some(ms) ==> group_views(ms@) == regex_matches(pattern@, text@) && well_spanned(ms@, text@),
{
    let re = regex::Regex::new(pattern).ok()?;
    Some(
        re.captures_iter(text)
            .map(|c| c.iter().map(|g| g.map(|m| (m.start(), m.end(), m.as_str().to_string()))).collect())
            .collect(),
    )
}

/// How many newline bytes the bytes hold.
pub open spec fn count_newlines(b: Seq<u8>) -> nat
    decreases b.len(),
{
    if b.len() == 0 {
        0
    } else {
        count_newlines(b.drop_last()) + if b.last() == 10u8 { 1nat } else { 0nat }
    }
}

/// The 1-based line of byte offset `offset` of the text.
pub open spec fn line_of(content: Seq<char>, offset: int) -> nat {
    count_newlines(encode_utf8(content).take(offset)) + 1
}

/// The line of the brace that closes the block opened at or after `from`;
/// `line` when there is none.
pub open spec fn block_end_line(content: Seq<char>, from: int, singles: bool, line: nat) -> nat {
    match brace_end_of(content, from, singles) {
        Some(p) => line_of(content, p),
        None => line,
    }
}

/// A symbol as mathematical values.
pub struct SymModel {
    pub kind: SymbolKind,
    pub name: Seq<char>,
    pub line: nat,
    pub visibility: Visibility,
    pub start: nat,
    pub end: nat,
    pub signature: Option<Seq<char>>,
}

pub open spec fn symbol_model(s: Symbol) -> SymModel {
    SymModel {
        kind: s.kind,
        name: s.name@,
        line: s.line as nat,
        visibility: s.visibility,
        start: s.line_range.start as nat,
        end: s.line_range.end as nat,
        signature: match s.signature {
            Some(x) => Some(x@),
            None => None,
        },
    }
}

pub open spec fn symbol_models(v: Seq<Symbol>) -> Seq<SymModel> {
    v.map_values(|s: Symbol| symbol_model(s))
}

/// Sort keys for ordering symbols by their first line, earliest first.
pub open spec fn line_keys(v: Seq<SymModel>) -> Seq<u128> {
    v.map_values(|s: SymModel| (u128::MAX - s.start) as u128)
}

/// The text of group `g`, or `default` when the group did not take part.
pub open spec fn gtext(m: Seq<Option<(nat, nat, Seq<char>)>>, g: int, default: Seq<char>) -> Seq<char> {
    if 0 <= g < m.len() && m[g].is_some() {
        m[g].unwrap().2
    } else {
        default
    }
}

/// The 1-based line of a byte offset.
pub fn line_number_at_offset(content: &str, offset: usize) -> (r: usize)
    requires
        offset <= encode_utf8(content@).len(),
        offset < usize::MAX,
    ensures
        r == count_newlines(encode_utf8(content@).take(offset as int)) + 1,
{
    let bytes = content.as_bytes();
    let ghost b = encode_utf8(content@);
    let mut n: usize = 0;
    let mut i: usize = 0;
    while i < offset
        invariant
            bytes@ == b,
            offset <= b.len(),
            offset < usize::MAX,
            i <= offset,
            n == count_newlines(b.take(i as int)),
            n <= i,
        decreases offset - i,
    {
        assert(b.take(i + 1).drop_last() =~= b.take(i as int));
        if bytes[i] == 10u8 {
            n = n + 1;
        }
        i = i + 1;
    }
    n + 1
}

/// The brace scan from byte `i` with `depth` open braces, inside a string
/// literal delimited by `q` when `in_str`; `singles` makes `'` a delimiter
/// too. The result is the position of the brace that closes the first one
/// opened.
pub open spec fn brace_scan(b: Seq<u8>, i: int, depth: int, in_str: bool, q: u8, singles: bool) -> Option<int>
    decreases b.len() - i,
{
    if i < 0 || i >= b.len() {
        None
    } else if in_str {
        let closes = b[i] == q && (i == 0 || b[i - 1] != 92u8);
        brace_scan(b, i + 1, depth, !closes, q, singles)
    } else if b[i] == 34u8 || (singles && b[i] == 39u8) {
        brace_scan(b, i + 1, depth, true, b[i], singles)
    } else if b[i] == 123u8 {
        brace_scan(b, i + 1, depth + 1, false, q, singles)
    } else if b[i] == 125u8 {
        if depth - 1 == 0 {
            Some(i)
        } else {
            brace_scan(b, i + 1, depth - 1, false, q, singles)
        }
    } else {
        brace_scan(b, i + 1, depth, false, q, singles)
    }
}

/// The byte position of the `}` that closes the first `{` at or after
/// `start`, skipping string literals.
pub fn find_brace_end(content: &str, start: usize, singles: bool) -> (r: Option<usize>)
    ensures
        r matches Some(p) ==> brace_end_of(content@, start as int, singles) == Some(p as int),
        r is None ==> brace_end_of(content@, start as int, singles) is None,
{
    let bytes = content.as_bytes();
    let ghost b = encode_utf8(content@);
    let mut depth: i128 = 0;
    let mut in_string = false;
    let mut string_char: u8 = 34u8;
    let mut i = start;
    while i < bytes.len()
        invariant
            bytes@ == b,
            b == encode_utf8(content@),
            start <= i,
            -(i - start) <= depth <= i - start,
            brace_end_of(content@, start as int, singles) == brace_scan(b, i as int, depth as int, in_string, string_char, singles),
        decreases b.len() - i,
    {
        let c = bytes[i];
        if in_string {
            if c == string_char && (i == 0 || bytes[i - 1] != 92u8) {
                in_string = false;
            }
            i = i + 1;
        } else {
            if c == 34u8 || (singles && c == 39u8) {
                in_string = true;
                string_char = c;
            } else if c == 123u8 {
                depth = depth + 1;
            } else if c == 125u8 {
                if depth == 1 {
                    return Some(i);
                }
                depth = depth - 1;
            }
            i = i + 1;
        }
    }
    None
}

/// Where the brace scan from `start` ends, if it does.
pub open spec fn brace_end_of(content: Seq<char>, start: int, singles: bool) -> Option<int> {
    brace_scan(encode_utf8(content), start, 0, false, 34u8, singles)
}

/// Java's and C#'s visibility words; anything else is `otherwise`.
pub open spec fn visibility_of(word: Seq<char>, otherwise: Visibility) -> Visibility {
    if word == "private"@ {
        Visibility::Private
    } else if word == "protected"@ {
        Visibility::Protected
    } else if word == "public"@ {
        Visibility::Public
    } else if word == "internal"@ {
        Visibility::Internal
    } else {
        otherwise
    }
}

/// Visibility of a Java or C# modifier; an unknown word gets `otherwise`.
pub fn parse_visibility(word: &str, otherwise: Visibility) -> (r: Visibility)
    ensures
        r == visibility_of(word@, otherwise),
{
    if str_eq(word, "private") {
        Visibility::Private
    } else if str_eq(word, "protected") {
        Visibility::Protected
    } else if str_eq(word, "public") {
        Visibility::Public
    } else if str_eq(word, "internal") {
        Visibility::Internal
    } else {
        otherwise
    }
}

/// The text without white space at either end.
pub open spec fn trimmed(s: Seq<char>) -> Seq<char>
    decreases s.len(),
{
    if s.len() > 0 && is_space_char(s[0]) {
        trimmed(s.drop_first())
    } else if s.len() > 0 && is_space_char(s.last()) {
        trimmed(s.drop_last())
    } else {
        s
    }
}

pub fn trim(s: &str) -> (r: String)
    ensures
        r@ == trimmed(s@),
{
    let cs = chars_of(s);
    let mut lo: usize = 0;
    let mut hi = cs.len();
    assert(cs@.subrange(0, hi as int) =~= cs@);
    while lo < hi && (is_space(cs[lo]) || is_space(cs[hi - 1]))
        invariant
            lo <= hi <= cs@.len(),
            trimmed(s@) == trimmed(cs@.subrange(lo as int, hi as int)),
            cs@ == s@,
        decreases hi - lo,
    {
        let ghost t = cs@.subrange(lo as int, hi as int);
        if is_space(cs[lo]) {
            assert(t.drop_first() =~= cs@.subrange(lo + 1, hi as int));
            lo = lo + 1;
        } else {
            assert(t.drop_last() =~= cs@.subrange(lo as int, hi - 1));
            hi = hi - 1;
        }
    }
    let mut out: Vec<char> = Vec::new();
    let mut k = lo;
    while k < hi
        invariant
            lo <= k <= hi <= cs@.len(),
            out@ == cs@.subrange(lo as int, k as int),
        decreases hi - k,
    {
        out.push(cs[k]);
        k = k + 1;
        assert(out@ =~= cs@.subrange(lo as int, k as int));
    }
    string_of(out.as_slice())
}

/// The text without every trailing `c`.
pub open spec fn without_trailing(s: Seq<char>, c: char) -> Seq<char>
    decreases s.len(),
{
    if s.len() > 0 && s.last() == c {
        without_trailing(s.drop_last(), c)
    } else {
        s
    }
}

fn trim_end_char(s: &str, c: char) -> (r: Vec<char>)
    ensures
        r@ == without_trailing(s@, c),
{
    let cs = chars_of(s);
    let mut n = cs.len();
    assert(cs@.take(n as int) =~= cs@);
    while n > 0 && cs[n - 1] == c
        invariant
            n <= cs@.len(),
            without_trailing(s@, c) == without_trailing(cs@.take(n as int), c),
            cs@ == s@,
        decreases n,
    {
        assert(cs@.take(n as int).drop_last() =~= cs@.take(n - 1));
        n = n - 1;
    }
    crate::store::vec_prefix(&cs, n)
}

fn concat(a: &Vec<char>, b: &str) -> (r: String)
    ensures
        r@ == a@ + b@,
{
    let mut v = a.clone();
    assert(v@ =~= a@);
    let bs = chars_of(b);
    let mut i: usize = 0;
    while i < bs.len()
        invariant
            i <= bs@.len(),
            v@ == a@ + bs@.take(i as int),
        decreases bs@.len() - i,
    {
        v.push(bs[i]);
        i = i + 1;
        assert(v@ =~= a@ + bs@.take(i as int));
    }
    assert(bs@.take(i as int) =~= bs@);
    string_of(v.as_slice())
}

/// The text of group `g`, or `default` when the group did not take part.
fn group_text(m: &Vec<Option<(usize, usize, String)>>, g: usize, default: &str) -> (r: String)
    ensures
        g < m@.len() && m@[g as int].is_some() ==> r@ == m@[g as int].unwrap().2@,
        !(g < m@.len() && m@[g as int].is_some()) ==> r@ == default@,
{
    if g < m.len() {
        match &m[g] {
            Some(x) => return x.2.clone(),
            None => {},
        }
    }
    string_of(chars_of(default).as_slice())
}

/// The whole match: its start, its end and its text.
fn whole(m: &Vec<Option<(usize, usize, String)>>) -> (r: (usize, usize, String))
    requires
        m@.len() > 0 && m@[0].is_some(),
    ensures
        r.0 == m@[0].unwrap().0,
        r.1 == m@[0].unwrap().1,
        r.2@ == m@[0].unwrap().2@,
{
    match &m[0] {
        Some(x) => (x.0, x.1, x.2.clone()),
        None => (0, 0, String::new()),
    }
}

/// The line of a byte offset, and the line of the brace that closes the
/// block opened at or after `brace_from` (the same line when there is none).
fn line_span(content: &str, offset: usize, brace_from: usize, singles: bool) -> (r: (usize, usize))
    requires
        offset <= encode_utf8(content@).len(),
        encode_utf8(content@).len() < usize::MAX,
    ensures
        r.0 >= 1,
        r.1 >= 1,
        r.0 == line_of(content@, offset as int),
        r.1 == block_end_line(content@, brace_from as int, singles, r.0 as nat),
{
    let line = line_number_at_offset(content, offset);
    let end = match find_brace_end(content, brace_from, singles) {
        Some(p) => {
            proof {
                lemma_brace_scan_in_range(encode_utf8(content@), brace_from as int, 0, false, 34u8, singles);
                assert(brace_end_of(content@, brace_from as int, singles) == brace_scan(encode_utf8(content@), brace_from as int, 0, false, 34u8, singles));
            }
            line_number_at_offset(content, p)
        },
        None => line,
    };
    (line, end)
}

proof fn lemma_brace_scan_in_range(b: Seq<u8>, i: int, depth: int, in_str: bool, q: u8, singles: bool)
    ensures
        brace_scan(b, i, depth, in_str, q, singles) matches Some(p) ==> i <= p < b.len(),
    decreases b.len() - i,
{
    if 0 <= i < b.len() {
        if in_str {
            let closes = b[i] == q && (i == 0 || b[i - 1] != 92u8);
            lemma_brace_scan_in_range(b, i + 1, depth, !closes, q, singles);
        } else if b[i] == 34u8 || (singles && b[i] == 39u8) {
            lemma_brace_scan_in_range(b, i + 1, depth, true, b[i], singles);
        } else if b[i] == 123u8 {
            lemma_brace_scan_in_range(b, i + 1, depth + 1, false, q, singles);
        } else if b[i] == 125u8 {
            lemma_brace_scan_in_range(b, i + 1, depth - 1, false, q, singles);
        } else {
            lemma_brace_scan_in_range(b, i + 1, depth, false, q, singles);
        }
    }
}

/// Symbols sorted by their first line, equal lines in input order.
fn sort_by_line(symbols: &Vec<Symbol>) -> (r: Vec<Symbol>)
    ensures
        r@.len() == symbols@.len(),
        forall|i: int, j: int| 0 <= i < j < r@.len() ==> (#[trigger] r@[i]).line_range.start <= (#[trigger] r@[j]).line_range.start,
        exists|from: Seq<int>|
            #![trigger from.len()]
            from.len() == r@.len() && forall|i: int|
                0 <= i < r@.len() ==> 0 <= #[trigger] from[i] < symbols@.len() && r@[i].view_eq(symbols@[from[i]]),
        exists|order: Seq<usize>|
            #![trigger is_top_ranking(line_keys(symbol_models(symbols@)), order, symbols@.len())]
            is_top_ranking(line_keys(symbol_models(symbols@)), order, symbols@.len()) && r@.len() == order.len()
                && forall|i: int| 0 <= i < r@.len() ==> symbol_model(#[trigger] r@[i]) == symbol_models(symbols@)[order[i] as int],
{
    let mut keys: Vec<u128> = Vec::new();
    let mut i: usize = 0;
    while i < symbols.len()
        invariant
            i <= symbols@.len(),
            keys@.len() == i,
            forall|k: int| 0 <= k < i ==> #[trigger] keys@[k] == u128::MAX - symbols@[k].line_range.start,
        decreases symbols@.len() - i,
    {
        keys.push(u128::MAX - symbols[i].line_range.start as u128);
        i = i + 1;
    }
    let order = top_positions(&keys, keys.len());
    let mut out: Vec<Symbol> = Vec::new();
    let mut j: usize = 0;
    while j < order.len()
        invariant
            j <= order@.len(),
            is_top_ranking(keys@, order@, keys@.len() as nat),
            keys@.len() == symbols@.len(),
            forall|k: int| 0 <= k < keys@.len() ==> #[trigger] keys@[k] == u128::MAX - symbols@[k].line_range.start,
            out@.len() == j,
            forall|m: int| 0 <= m < j ==> (#[trigger] out@[m]).view_eq(symbols@[order@[m] as int]),
        decreases order@.len() - j,
    {
        let p = order[j];
        out.push(symbols[p].duplicate());
        j = j + 1;
    }
    assert forall|a: int, b: int| 0 <= a < b < out@.len() implies (#[trigger] out@[a]).line_range.start <= (#[trigger] out@[b]).line_range.start by {
        assert(crate::ranking::ranks_before(keys@, order@[a] as int, order@[b] as int));
    }
    proof {
        assert(keys@ =~= line_keys(symbol_models(symbols@)));
        assert forall|i: int| 0 <= i < out@.len() implies symbol_model(#[trigger] out@[i]) == symbol_models(symbols@)[order@[i] as int] by {
            assert(order@[i] < keys@.len());
            assert(out@[i].view_eq(symbols@[order@[i] as int]));
        }
        assert(is_top_ranking(line_keys(symbol_models(symbols@)), order@, symbols@.len()));
    }
    let ghost from = order@.map_values(|x: usize| x as int);
    assert forall|i: int| 0 <= i < out@.len() implies 0 <= #[trigger] from[i] < symbols@.len() && out@[i].view_eq(symbols@[from[i]]) by {
        assert(order@[i] < keys@.len());
    }
    assert(from.len() == out@.len());
    out
}

/// Every match has a whole-match group, and every group's span lies in the text.
pub open spec fn well_spanned(ms: Seq<Vec<Option<(usize, usize, String)>>>, text: Seq<char>) -> bool {
    &&& forall|a: int| 0 <= a < ms.len() ==> (#[trigger] ms[a])@.len() > 0 && ms[a]@[0].is_some()
    &&& forall|a: int, b: int|
        0 <= a < ms.len() && 0 <= b < ms[a]@.len() && (#[trigger] ms[a]@[b]).is_some() ==> ms[a]@[b].unwrap().0
            <= ms[a]@[b].unwrap().1 <= encode_utf8(text).len()
}




/// A symbol for a whole match: its line, and the line of the brace that
/// closes its block, searched from `brace_from`.
fn symbol_at(
    content: &str,
    m: &Vec<Option<(usize, usize, String)>>,
    brace_from: usize,
    singles: bool,
    kind: SymbolKind,
    name: String,
    visibility: Visibility,
) -> (r: Symbol)
    requires
        m@.len() > 0 && m@[0].is_some(),
        m@[0].unwrap().0 <= encode_utf8(content@).len(),
        encode_utf8(content@).len() < usize::MAX,
    ensures
        r.line_range.start >= 1,
        r.line == r.line_range.start,
        r.kind == kind,
        r.name@ == name@,
        r.visibility == visibility,
        symbol_model(r) == (SymModel {
            kind,
            name: name@,
            line: line_of(content@, m@[0].unwrap().0 as int),
            visibility,
            start: line_of(content@, m@[0].unwrap().0 as int),
            end: block_end_line(content@, brace_from as int, singles, line_of(content@, m@[0].unwrap().0 as int)),
            signature: None,
        }),
{
    let (start, _end, _text) = whole(m);
    let (line, end_line) = line_span(content, start, brace_from, singles);
    Symbol::new(kind, name, line, visibility).with_line_range(line, end_line)
}



pub const JAVA_CLASS_PATTERN: &'static str = r"(?m)^\s*(public|private|protected)?\s*(abstract|final)?\s*(class|interface|enum)\s+(\w+)";

pub const JAVA_METHOD_PATTERN: &'static str = r"(?m)^\s*(public|private|protected)?\s*(static)?\s*(final)?\s*(abstract)?\s*(\w+(?:<[^>]+>)?)\s+(\w+)\s*\(";

pub const JAVA_ANNOTATION_PATTERN: &'static str = r"(?m)^\s*@interface\s+(\w+)";

/// Finds classes, interfaces, enums, methods and annotation types in Java.
pub struct JavaParser;

/// The symbol of a class, interface or enum match.
pub open spec fn java_type_symbol(content: Seq<char>, m: Seq<Option<(nat, nat, Seq<char>)>>) -> SymModel {
    let kw = gtext(m, 3, "class"@);
    let line = line_of(content, m[0].unwrap().0 as int);
    SymModel {
        kind: if kw == "interface"@ {
            SymbolKind::Interface
        } else if kw == "enum"@ {
            SymbolKind::Enum
        } else {
            SymbolKind::Class
        },
        name: gtext(m, 4, ""@),
        line,
        visibility: visibility_of(gtext(m, 1, "package"@), Visibility::Internal),
        start: line,
        end: block_end_line(content, m[0].unwrap().1 as int, true, line),
        signature: Some(trimmed(m[0].unwrap().2)),
    }
}

/// A method match that is a real method: its name is no statement word and
/// its return type no declaration word.
pub open spec fn java_method_kept(m: Seq<Option<(nat, nat, Seq<char>)>>) -> bool {
    let name = gtext(m, 6, ""@);
    let ret = gtext(m, 5, ""@);
    !(name == "if"@ || name == "for"@ || name == "while"@ || name == "switch"@ || name == "catch"@) && !(ret == "class"@
        || ret == "interface"@ || ret == "enum"@ || ret == "new"@)
}

pub open spec fn java_method_symbol(content: Seq<char>, m: Seq<Option<(nat, nat, Seq<char>)>>) -> SymModel {
    let line = line_of(content, m[0].unwrap().0 as int);
    SymModel {
        kind: SymbolKind::Method,
        name: gtext(m, 6, ""@),
        line,
        visibility: visibility_of(gtext(m, 1, "package"@), Visibility::Internal),
        start: line,
        end: block_end_line(content, m[0].unwrap().1 as int, true, line),
        signature: Some(without_trailing(trimmed(m[0].unwrap().2), '(') + "(...)"@),
    }
}

pub open spec fn java_annotation_symbol(content: Seq<char>, m: Seq<Option<(nat, nat, Seq<char>)>>) -> SymModel {
    let line = line_of(content, m[0].unwrap().0 as int);
    SymModel {
        kind: SymbolKind::Interface,
        name: gtext(m, 1, ""@),
        line,
        visibility: Visibility::Public,
        start: line,
        end: line,
        signature: None,
    }
}

pub open spec fn java_methods(content: Seq<char>, ms: Seq<Seq<Option<(nat, nat, Seq<char>)>>>) -> Seq<SymModel>
    decreases ms.len(),
{
    if ms.len() == 0 {
        Seq::empty()
    } else {
        let prev = java_methods(content, ms.drop_last());
        if java_method_kept(ms.last()) {
            prev.push(java_method_symbol(content, ms.last()))
        } else {
            prev
        }
    }
}

/// The symbols of the three Java patterns' matches, before ordering.
pub open spec fn java_raw(
    content: Seq<char>,
    types: Seq<Seq<Option<(nat, nat, Seq<char>)>>>,
    methods: Seq<Seq<Option<(nat, nat, Seq<char>)>>>,
    annotations: Seq<Seq<Option<(nat, nat, Seq<char>)>>>,
) -> Seq<SymModel> {
    types.map_values(|m: Seq<Option<(nat, nat, Seq<char>)>>| java_type_symbol(content, m)) + java_methods(content, methods)
        + annotations.map_values(|m: Seq<Option<(nat, nat, Seq<char>)>>| java_annotation_symbol(content, m))
}

/// `out` is `raw` ordered by first line, equal lines in their order in `raw`.
pub open spec fn ordered_by_line(raw: Seq<SymModel>, out: Seq<SymModel>) -> bool {
    exists|order: Seq<usize>|
        #![trigger is_top_ranking(line_keys(raw), order, raw.len())]
        is_top_ranking(line_keys(raw), order, raw.len()) && out.len() == order.len() && forall|i: int|
            0 <= i < out.len() ==> #[trigger] out[i] == raw[order[i] as int]
}

fn is_java_statement(w: &str) -> (r: bool)
    ensures
        r == (w@ == "if"@ || w@ == "for"@ || w@ == "while"@ || w@ == "switch"@ || w@ == "catch"@),
{
    str_eq(w, "if") || str_eq(w, "for") || str_eq(w, "while") || str_eq(w, "switch") || str_eq(w, "catch")
}

fn is_java_declaration_word(w: &str) -> (r: bool)
    ensures
        r == (w@ == "class"@ || w@ == "interface"@ || w@ == "enum"@ || w@ == "new"@),
{
    str_eq(w, "class") || str_eq(w, "interface") || str_eq(w, "enum") || str_eq(w, "new")
}

/// The Java symbols of given pattern matches (of `JAVA_CLASS_PATTERN`,
/// `JAVA_METHOD_PATTERN` and `JAVA_ANNOTATION_PATTERN` on `content`):
/// exactly the type, method and annotation symbols those matches describe,
/// ordered by first line.
pub fn java_symbols(
    content: &str,
    types: &Vec<Vec<Option<(usize, usize, String)>>>,
    methods: &Vec<Vec<Option<(usize, usize, String)>>>,
    annotations: &Vec<Vec<Option<(usize, usize, String)>>>,
) -> (r: Vec<Symbol>)
    requires
        encode_utf8(content@).len() < usize::MAX,
        well_spanned(types@, content@),
        well_spanned(methods@, content@),
        well_spanned(annotations@, content@),
    ensures
        ordered_by_line(
            java_raw(content@, group_views(types@), group_views(methods@), group_views(annotations@)),
            symbol_models(r@),
        ),
{
    let ghost tv = group_views(types@);
    let ghost mv = group_views(methods@);
    let ghost av = group_views(annotations@);
    let ghost part1 = tv.map_values(|m: Seq<Option<(nat, nat, Seq<char>)>>| java_type_symbol(content@, m));
    let mut symbols: Vec<Symbol> = Vec::new();
    let mut i: usize = 0;
    while i < types.len()
        invariant
            i <= types@.len(),
            tv == group_views(types@),
            encode_utf8(content@).len() < usize::MAX,
            well_spanned(types@, content@),
            symbol_models(symbols@) == tv.take(i as int).map_values(|m: Seq<Option<(nat, nat, Seq<char>)>>| java_type_symbol(content@, m)),
        decreases types@.len() - i,
    {
        let m = &types[i];
        assert(m@[0].is_some());
        assert(tv[i as int] == match_view(m@));
        let vis_word = group_text(m, 1, "package");
        let kind_word = group_text(m, 3, "class");
        let name = group_text(m, 4, "");
        let (_s, end, text) = whole(m);
        let kind = if str_eq(kind_word.as_str(), "interface") {
            SymbolKind::Interface
        } else if str_eq(kind_word.as_str(), "enum") {
            SymbolKind::Enum
        } else {
            SymbolKind::Class
        };
        let sym = symbol_at(content, m, end, true, kind, name, parse_visibility(vis_word.as_str(), Visibility::Internal));
        let sym = sym.with_signature(trim(text.as_str()));
        let ghost prev = symbol_models(symbols@);
        proof {
            let mvw = match_view(m@);
            assert(mvw[0] == Some((m@[0].unwrap().0 as nat, m@[0].unwrap().1 as nat, m@[0].unwrap().2@)));
            assert(gtext(mvw, 1, "package"@) == vis_word@);
            assert(gtext(mvw, 3, "class"@) == kind_word@);
            assert(gtext(mvw, 4, ""@) == name@);
            assert(symbol_model(sym) == java_type_symbol(content@, mvw));
        }
        symbols.push(sym);
        assert(symbol_models(symbols@) =~= prev.push(symbol_model(sym)));
        assert(tv.take(i + 1) =~= tv.take(i as int).push(tv[i as int]));
        i = i + 1;
    }
    assert(tv.take(i as int) =~= tv);
    let mut i: usize = 0;
    assert(mv.take(0) =~= Seq::<Seq<Option<(nat, nat, Seq<char>)>>>::empty());
    assert(part1 + java_methods(content@, mv.take(0)) =~= part1);
    while i < methods.len()
        invariant
            i <= methods@.len(),
            mv == group_views(methods@),
            encode_utf8(content@).len() < usize::MAX,
            well_spanned(methods@, content@),
            symbol_models(symbols@) == part1 + java_methods(content@, mv.take(i as int)),
        decreases methods@.len() - i,
    {
        let m = &methods[i];
        assert(m@[0].is_some());
        assert(mv[i as int] == match_view(m@));
        assert(mv.take(i + 1).drop_last() =~= mv.take(i as int));
        assert(mv.take(i + 1).last() == mv[i as int]);
        let vis_word = group_text(m, 1, "package");
        let return_type = group_text(m, 5, "");
        let name = group_text(m, 6, "");
        let skip = is_java_statement(name.as_str()) || is_java_declaration_word(return_type.as_str());
        let ghost prev = symbol_models(symbols@);
        let ghost mvw = match_view(m@);
        proof {
            assert(mvw[0] == Some((m@[0].unwrap().0 as nat, m@[0].unwrap().1 as nat, m@[0].unwrap().2@)));
            assert(gtext(mvw, 1, "package"@) == vis_word@);
            assert(gtext(mvw, 5, ""@) == return_type@);
            assert(gtext(mvw, 6, ""@) == name@);
            assert(skip == !java_method_kept(mvw));
        }
        if !skip {
            let (_s, end, text) = whole(m);
            let trimmed_text = trim(text.as_str());
            let signature = concat(&trim_end_char(trimmed_text.as_str(), '('), "(...)");
            let sym = symbol_at(content, m, end, true, SymbolKind::Method, name, parse_visibility(vis_word.as_str(), Visibility::Internal));
            let sym = sym.with_signature(signature);
            proof {
                assert(symbol_model(sym) == java_method_symbol(content@, mvw));
            }
            symbols.push(sym);
            assert(symbol_models(symbols@) =~= prev.push(symbol_model(sym)));
        }
        i = i + 1;
    }
    assert(mv.take(i as int) =~= mv);
    let ghost part2 = part1 + java_methods(content@, mv);
    let mut i: usize = 0;
    assert(part2 + av.take(0).map_values(|m: Seq<Option<(nat, nat, Seq<char>)>>| java_annotation_symbol(content@, m)) =~= part2);
    while i < annotations.len()
        invariant
            i <= annotations@.len(),
            av == group_views(annotations@),
            encode_utf8(content@).len() < usize::MAX,
            well_spanned(annotations@, content@),
            symbol_models(symbols@) == part2 + av.take(i as int).map_values(
                |m: Seq<Option<(nat, nat, Seq<char>)>>| java_annotation_symbol(content@, m),
            ),
        decreases annotations@.len() - i,
    {
        let m = &annotations[i];
        assert(m@[0].is_some());
        assert(av[i as int] == match_view(m@));
        let name = group_text(m, 1, "");
        let (start, _end, _text) = whole(m);
        let line = line_number_at_offset(content, start);
        let sym = Symbol::new(SymbolKind::Interface, name, line, Visibility::Public);
        let ghost prev = symbol_models(symbols@);
        proof {
            let mvw = match_view(m@);
            assert(mvw[0] == Some((m@[0].unwrap().0 as nat, m@[0].unwrap().1 as nat, m@[0].unwrap().2@)));
            assert(gtext(mvw, 1, ""@) == name@);
            assert(symbol_model(sym) == java_annotation_symbol(content@, mvw));
        }
        symbols.push(sym);
        assert(symbol_models(symbols@) =~= prev.push(symbol_model(sym)));
        assert(av.take(i + 1) =~= av.take(i as int).push(av[i as int]));
        assert(part2 + av.take(i + 1).map_values(|m: Seq<Option<(nat, nat, Seq<char>)>>| java_annotation_symbol(content@, m))
            =~= (part2 + av.take(i as int).map_values(|m: Seq<Option<(nat, nat, Seq<char>)>>| java_annotation_symbol(content@, m))).push(
            java_annotation_symbol(content@, av[i as int]),
        ));
        i = i + 1;
    }
    assert(av.take(i as int) =~= av);
    assert(symbol_models(symbols@) == java_raw(content@, tv, mv, av));
    sort_by_line(&symbols)
}

impl JavaParser {
    /// The Java symbols of `content`: `java_symbols` of the three patterns'
    /// matches (no matches for a pattern that does not compile).
    pub fn parse_symbols(&self, content: &str) -> (r: Vec<Symbol>)
        ensures
            encode_utf8(content@).len() < usize::MAX ==> exists|t: Seq<Seq<Option<(nat, nat, Seq<char>)>>>, m: Seq<Seq<Option<(nat, nat, Seq<char>)>>>, a: Seq<Seq<Option<(nat, nat, Seq<char>)>>>|
                (t == regex_matches(JAVA_CLASS_PATTERN@, content@) || t.len() == 0) && (m == regex_matches(
                    JAVA_METHOD_PATTERN@,
                    content@,
                ) || m.len() == 0) && (a == regex_matches(JAVA_ANNOTATION_PATTERN@, content@) || a.len() == 0)
                    && #[trigger] ordered_by_line(java_raw(content@, t, m, a), symbol_models(r@)),
    {
        if content.as_bytes().len() == usize::MAX {
            return Vec::new();
        }
        let types = match find_matches(JAVA_CLASS_PATTERN, content) {
            Some(ms) => ms,
            None => Vec::new(),
        };
        let methods = match find_matches(JAVA_METHOD_PATTERN, content) {
            Some(ms) => ms,
            None => Vec::new(),
        };
        let annotations = match find_matches(JAVA_ANNOTATION_PATTERN, content) {
            Some(ms) => ms,
            None => Vec::new(),
        };
        proof {
            assert(group_views(Seq::<Vec<Option<(usize, usize, String)>>>::empty()).len() == 0);
        }
        java_symbols(content, &types, &methods, &annotations)
    }
}

pub const CSHARP_NAMESPACE_PATTERN: &'static str = r"(?m)^\s*namespace\s+([\w.]+)";

pub const CSHARP_CLASS_PATTERN: &'static str = r"(?m)^\s*(public|private|protected|internal)?\s*(abstract|sealed|static|partial)?\s*(class|interface|enum|struct|record)\s+(\w+)";

pub const CSHARP_METHOD_PATTERN: &'static str = r"(?m)^\s*(public|private|protected|internal)?\s*(static|virtual|override|abstract|async)?\s*([\w<>\[\],\s]+?)\s+(\w+)\s*\(";

pub const CSHARP_PROPERTY_PATTERN: &'static str = r"(?m)^\s*(public|private|protected|internal)?\s*(static|virtual|override)?\s*([\w<>\[\]?]+)\s+(\w+)\s*\{\s*(get|set)";

/// Finds namespaces, types, methods and properties in C#.
pub struct CSharpParser;

pub open spec fn cs_namespace_symbol(content: Seq<char>, m: Seq<Option<(nat, nat, Seq<char>)>>) -> SymModel {
    let line = line_of(content, m[0].unwrap().0 as int);
    SymModel {
        kind: SymbolKind::Module,
        name: gtext(m, 1, ""@),
        line,
        visibility: Visibility::Public,
        start: line,
        end: block_end_line(content, m[0].unwrap().1 as int, true, line),
        signature: Some("namespace "@ + gtext(m, 1, ""@)),
    }
}

pub open spec fn cs_type_symbol(content: Seq<char>, m: Seq<Option<(nat, nat, Seq<char>)>>) -> SymModel {
    let kw = gtext(m, 3, "class"@);
    let line = line_of(content, m[0].unwrap().0 as int);
    SymModel {
        kind: if kw == "interface"@ {
            SymbolKind::Interface
        } else if kw == "enum"@ {
            SymbolKind::Enum
        } else if kw == "struct"@ || kw == "record"@ {
            SymbolKind::Struct
        } else {
            SymbolKind::Class
        },
        name: gtext(m, 4, ""@),
        line,
        visibility: visibility_of(gtext(m, 1, "internal"@), Visibility::Private),
        start: line,
        end: block_end_line(content, m[0].unwrap().1 as int, true, line),
        signature: Some(trimmed(m[0].unwrap().2)),
    }
}

pub open spec fn cs_method_kept(m: Seq<Option<(nat, nat, Seq<char>)>>) -> bool {
    let name = gtext(m, 4, ""@);
    let ret = trimmed(gtext(m, 3, ""@));
    !(name == "if"@ || name == "for"@ || name == "while"@ || name == "switch"@ || name == "catch"@ || name == "foreach"@)
        && !(ret == "class"@ || ret == "interface"@ || ret == "enum"@ || ret == "struct"@ || ret == "new"@ || ret
        == "namespace"@)
}

pub open spec fn cs_method_symbol(content: Seq<char>, m: Seq<Option<(nat, nat, Seq<char>)>>) -> SymModel {
    let line = line_of(content, m[0].unwrap().0 as int);
    SymModel {
        kind: SymbolKind::Method,
        name: gtext(m, 4, ""@),
        line,
        visibility: visibility_of(gtext(m, 1, "private"@), Visibility::Private),
        start: line,
        end: block_end_line(content, m[0].unwrap().1 as int, true, line),
        signature: Some(without_trailing(trimmed(m[0].unwrap().2), '(') + "(...)"@),
    }
}

pub open spec fn cs_property_symbol(content: Seq<char>, m: Seq<Option<(nat, nat, Seq<char>)>>) -> SymModel {
    let line = line_of(content, m[0].unwrap().0 as int);
    SymModel {
        kind: SymbolKind::Const,
        name: gtext(m, 4, ""@),
        line,
        visibility: visibility_of(gtext(m, 1, "private"@), Visibility::Private),
        start: line,
        end: line,
        signature: None,
    }
}

pub open spec fn cs_methods(content: Seq<char>, ms: Seq<Seq<Option<(nat, nat, Seq<char>)>>>) -> Seq<SymModel>
    decreases ms.len(),
{
    if ms.len() == 0 {
        Seq::empty()
    } else {
        let prev = cs_methods(content, ms.drop_last());
        if cs_method_kept(ms.last()) {
            prev.push(cs_method_symbol(content, ms.last()))
        } else {
            prev
        }
    }
}

/// The symbols of the four C# patterns' matches, before ordering.
pub open spec fn cs_raw(content: Seq<char>, ns: Seq<Seq<Option<(nat, nat, Seq<char>)>>>, types: Seq<Seq<Option<(nat, nat, Seq<char>)>>>, methods: Seq<Seq<Option<(nat, nat, Seq<char>)>>>, props: Seq<Seq<Option<(nat, nat, Seq<char>)>>>) -> Seq<SymModel> {
    ns.map_values(|m: Seq<Option<(nat, nat, Seq<char>)>>| cs_namespace_symbol(content, m)) + types.map_values(|m: Seq<Option<(nat, nat, Seq<char>)>>| cs_type_symbol(content, m))
        + cs_methods(content, methods) + props.map_values(|m: Seq<Option<(nat, nat, Seq<char>)>>| cs_property_symbol(content, m))
}

fn is_cs_statement(w: &str) -> (r: bool)
    ensures
        r == (w@ == "if"@ || w@ == "for"@ || w@ == "while"@ || w@ == "switch"@ || w@ == "catch"@ || w@ == "foreach"@),
{
    str_eq(w, "if") || str_eq(w, "for") || str_eq(w, "while") || str_eq(w, "switch") || str_eq(w, "catch") || str_eq(
        w,
        "foreach",
    )
}

fn is_cs_declaration_word(w: &str) -> (r: bool)
    ensures
        r == (w@ == "class"@ || w@ == "interface"@ || w@ == "enum"@ || w@ == "struct"@ || w@ == "new"@ || w@
            == "namespace"@),
{
    str_eq(w, "class") || str_eq(w, "interface") || str_eq(w, "enum") || str_eq(w, "struct") || str_eq(w, "new")
        || str_eq(w, "namespace")
}

/// The C# symbols of given pattern matches (of the namespace, type, method
/// and property patterns on `content`): exactly the symbols those matches
/// describe, ordered by first line.
pub fn csharp_symbols(
    content: &str,
    namespaces: &Vec<Vec<Option<(usize, usize, String)>>>,
    types: &Vec<Vec<Option<(usize, usize, String)>>>,
    methods: &Vec<Vec<Option<(usize, usize, String)>>>,
    properties: &Vec<Vec<Option<(usize, usize, String)>>>,
) -> (r: Vec<Symbol>)
    requires
        encode_utf8(content@).len() < usize::MAX,
        well_spanned(namespaces@, content@),
        well_spanned(types@, content@),
        well_spanned(methods@, content@),
        well_spanned(properties@, content@),
    ensures
        ordered_by_line(
            cs_raw(content@, group_views(namespaces@), group_views(types@), group_views(methods@), group_views(properties@)),
            symbol_models(r@),
        ),
{
    let ghost nv = group_views(namespaces@);
    let ghost tv = group_views(types@);
    let ghost mv = group_views(methods@);
    let ghost pv = group_views(properties@);
    let mut symbols: Vec<Symbol> = Vec::new();
    let mut i: usize = 0;
    while i < namespaces.len()
        invariant
            i <= namespaces@.len(),
            nv == group_views(namespaces@),
            encode_utf8(content@).len() < usize::MAX,
            well_spanned(namespaces@, content@),
            symbol_models(symbols@) == nv.take(i as int).map_values(|m: Seq<Option<(nat, nat, Seq<char>)>>| cs_namespace_symbol(content@, m)),
        decreases namespaces@.len() - i,
    {
        let m = &namespaces[i];
        assert(m@[0].is_some());
        assert(nv[i as int] == match_view(m@));
        let name = group_text(m, 1, "");
        let (_s, end, _text) = whole(m);
        let signature = concat(&chars_of("namespace "), name.as_str());
        let sym = symbol_at(content, m, end, true, SymbolKind::Module, name, Visibility::Public);
        let sym = sym.with_signature(signature);
        let ghost prev = symbol_models(symbols@);
        proof {
            let mvw = match_view(m@);
            assert(mvw[0] == Some((m@[0].unwrap().0 as nat, m@[0].unwrap().1 as nat, m@[0].unwrap().2@)));
            assert(gtext(mvw, 1, ""@) == name@);
            assert(symbol_model(sym) == cs_namespace_symbol(content@, mvw));
        }
        symbols.push(sym);
        assert(symbol_models(symbols@) =~= prev.push(symbol_model(sym)));
        assert(nv.take(i + 1) =~= nv.take(i as int).push(nv[i as int]));
        i = i + 1;
    }
    assert(nv.take(i as int) =~= nv);
    let ghost part1 = nv.map_values(|m: Seq<Option<(nat, nat, Seq<char>)>>| cs_namespace_symbol(content@, m));
    let mut i: usize = 0;
    assert(part1 + tv.take(0).map_values(|m: Seq<Option<(nat, nat, Seq<char>)>>| cs_type_symbol(content@, m)) =~= part1);
    while i < types.len()
        invariant
            i <= types@.len(),
            tv == group_views(types@),
            encode_utf8(content@).len() < usize::MAX,
            well_spanned(types@, content@),
            symbol_models(symbols@) == part1 + tv.take(i as int).map_values(|m: Seq<Option<(nat, nat, Seq<char>)>>| cs_type_symbol(content@, m)),
        decreases types@.len() - i,
    {
        let m = &types[i];
        assert(m@[0].is_some());
        assert(tv[i as int] == match_view(m@));
        let vis_word = group_text(m, 1, "internal");
        let kind_word = group_text(m, 3, "class");
        let name = group_text(m, 4, "");
        let (_s, end, text) = whole(m);
        let kind = if str_eq(kind_word.as_str(), "interface") {
            SymbolKind::Interface
        } else if str_eq(kind_word.as_str(), "enum") {
            SymbolKind::Enum
        } else if str_eq(kind_word.as_str(), "struct") || str_eq(kind_word.as_str(), "record") {
            SymbolKind::Struct
        } else {
            SymbolKind::Class
        };
        let sym = symbol_at(content, m, end, true, kind, name, parse_visibility(vis_word.as_str(), Visibility::Private));
        let sym = sym.with_signature(trim(text.as_str()));
        let ghost prev = symbol_models(symbols@);
        proof {
            let mvw = match_view(m@);
            assert(mvw[0] == Some((m@[0].unwrap().0 as nat, m@[0].unwrap().1 as nat, m@[0].unwrap().2@)));
            assert(gtext(mvw, 1, "internal"@) == vis_word@);
            assert(gtext(mvw, 3, "class"@) == kind_word@);
            assert(gtext(mvw, 4, ""@) == name@);
            assert(symbol_model(sym) == cs_type_symbol(content@, mvw));
        }
        symbols.push(sym);
        assert(symbol_models(symbols@) =~= prev.push(symbol_model(sym)));
        assert(tv.take(i + 1) =~= tv.take(i as int).push(tv[i as int]));
        assert(part1 + tv.take(i + 1).map_values(|m: Seq<Option<(nat, nat, Seq<char>)>>| cs_type_symbol(content@, m)) =~= (part1 + tv.take(i as int).map_values(
            |m: Seq<Option<(nat, nat, Seq<char>)>>| cs_type_symbol(content@, m),
        )).push(cs_type_symbol(content@, tv[i as int])));
        i = i + 1;
    }
    assert(tv.take(i as int) =~= tv);
    let ghost part2 = part1 + tv.map_values(|m: Seq<Option<(nat, nat, Seq<char>)>>| cs_type_symbol(content@, m));
    let mut i: usize = 0;
    assert(mv.take(0) =~= Seq::<Seq<Option<(nat, nat, Seq<char>)>>>::empty());
    assert(part2 + cs_methods(content@, mv.take(0)) =~= part2);
    while i < methods.len()
        invariant
            i <= methods@.len(),
            mv == group_views(methods@),
            encode_utf8(content@).len() < usize::MAX,
            well_spanned(methods@, content@),
            symbol_models(symbols@) == part2 + cs_methods(content@, mv.take(i as int)),
        decreases methods@.len() - i,
    {
        let m = &methods[i];
        assert(m@[0].is_some());
        assert(mv[i as int] == match_view(m@));
        assert(mv.take(i + 1).drop_last() =~= mv.take(i as int));
        assert(mv.take(i + 1).last() == mv[i as int]);
        let vis_word = group_text(m, 1, "private");
        let ret_word = group_text(m, 3, "");
        let return_type = trim(ret_word.as_str());
        let name = group_text(m, 4, "");
        let skip = is_cs_statement(name.as_str()) || is_cs_declaration_word(return_type.as_str());
        let ghost prev = symbol_models(symbols@);
        let ghost mvw = match_view(m@);
        proof {
            assert(mvw[0] == Some((m@[0].unwrap().0 as nat, m@[0].unwrap().1 as nat, m@[0].unwrap().2@)));
            assert(gtext(mvw, 1, "private"@) == vis_word@);
            assert(gtext(mvw, 3, ""@) == ret_word@);
            assert(gtext(mvw, 4, ""@) == name@);
            assert(skip == !cs_method_kept(mvw));
        }
        if !skip {
            let (_s, end, text) = whole(m);
            let trimmed_text = trim(text.as_str());
            let signature = concat(&trim_end_char(trimmed_text.as_str(), '('), "(...)");
            let sym = symbol_at(content, m, end, true, SymbolKind::Method, name, parse_visibility(vis_word.as_str(), Visibility::Private));
            let sym = sym.with_signature(signature);
            proof {
                assert(symbol_model(sym) == cs_method_symbol(content@, mvw));
            }
            symbols.push(sym);
            assert(symbol_models(symbols@) =~= prev.push(symbol_model(sym)));
        }
        i = i + 1;
    }
    assert(mv.take(i as int) =~= mv);
    let ghost part3 = part2 + cs_methods(content@, mv);
    let mut i: usize = 0;
    assert(part3 + pv.take(0).map_values(|m: Seq<Option<(nat, nat, Seq<char>)>>| cs_property_symbol(content@, m)) =~= part3);
    while i < properties.len()
        invariant
            i <= properties@.len(),
            pv == group_views(properties@),
            encode_utf8(content@).len() < usize::MAX,
            well_spanned(properties@, content@),
            symbol_models(symbols@) == part3 + pv.take(i as int).map_values(|m: Seq<Option<(nat, nat, Seq<char>)>>| cs_property_symbol(content@, m)),
        decreases properties@.len() - i,
    {
        let m = &properties[i];
        assert(m@[0].is_some());
        assert(pv[i as int] == match_view(m@));
        let vis_word = group_text(m, 1, "private");
        let name = group_text(m, 4, "");
        let (start, _end, _text) = whole(m);
        let line = line_number_at_offset(content, start);
        let sym = Symbol::new(SymbolKind::Const, name, line, parse_visibility(vis_word.as_str(), Visibility::Private));
        let ghost prev = symbol_models(symbols@);
        proof {
            let mvw = match_view(m@);
            assert(mvw[0] == Some((m@[0].unwrap().0 as nat, m@[0].unwrap().1 as nat, m@[0].unwrap().2@)));
            assert(gtext(mvw, 1, "private"@) == vis_word@);
            assert(gtext(mvw, 4, ""@) == name@);
            assert(symbol_model(sym) == cs_property_symbol(content@, mvw));
        }
        symbols.push(sym);
        assert(symbol_models(symbols@) =~= prev.push(symbol_model(sym)));
        assert(pv.take(i + 1) =~= pv.take(i as int).push(pv[i as int]));
        assert(part3 + pv.take(i + 1).map_values(|m: Seq<Option<(nat, nat, Seq<char>)>>| cs_property_symbol(content@, m)) =~= (part3 + pv.take(i as int).map_values(
            |m: Seq<Option<(nat, nat, Seq<char>)>>| cs_property_symbol(content@, m),
        )).push(cs_property_symbol(content@, pv[i as int])));
        i = i + 1;
    }
    assert(pv.take(i as int) =~= pv);
    assert(symbols@.len() >= 0);
    assert(symbol_models(symbols@) == cs_raw(content@, nv, tv, mv, pv));
    sort_by_line(&symbols)
}

impl CSharpParser {
    /// The C# symbols of `content`: `csharp_symbols` of the four patterns'
    /// matches (no matches for a pattern that does not compile).
    pub fn parse_symbols(&self, content: &str) -> (r: Vec<Symbol>)
        ensures
            encode_utf8(content@).len() < usize::MAX ==> exists|n: Seq<Seq<Option<(nat, nat, Seq<char>)>>>, t: Seq<Seq<Option<(nat, nat, Seq<char>)>>>, m: Seq<Seq<Option<(nat, nat, Seq<char>)>>>, p: Seq<Seq<Option<(nat, nat, Seq<char>)>>>|
                (n == regex_matches(CSHARP_NAMESPACE_PATTERN@, content@) || n.len() == 0) && (t == regex_matches(
                    CSHARP_CLASS_PATTERN@,
                    content@,
                ) || t.len() == 0) && (m == regex_matches(CSHARP_METHOD_PATTERN@, content@) || m.len() == 0) && (p
                    == regex_matches(CSHARP_PROPERTY_PATTERN@, content@) || p.len() == 0)
                    && #[trigger] ordered_by_line(cs_raw(content@, n, t, m, p), symbol_models(r@)),
    {
        if content.as_bytes().len() == usize::MAX {
            return Vec::new();
        }
        let namespaces = match find_matches(CSHARP_NAMESPACE_PATTERN, content) {
            Some(ms) => ms,
            None => Vec::new(),
        };
        let types = match find_matches(CSHARP_CLASS_PATTERN, content) {
            Some(ms) => ms,
            None => Vec::new(),
        };
        let methods = match find_matches(CSHARP_METHOD_PATTERN, content) {
            Some(ms) => ms,
            None => Vec::new(),
        };
        let properties = match find_matches(CSHARP_PROPERTY_PATTERN, content) {
            Some(ms) => ms,
            None => Vec::new(),
        };
        csharp_symbols(content, &namespaces, &types, &methods, &properties)
    }
}

pub const SWIFT_CLASS_PATTERN: &'static str = r"(?m)^(?:@\w+\s+)*(public\s+|internal\s+|fileprivate\s+|private\s+|open\s+)?(?:final\s+)?class\s+(\w+)(?:\s*:\s*[^{]+)?\s*\{";

pub const SWIFT_STRUCT_PATTERN: &'static str = r"(?m)^(?:@\w+\s+)*(public\s+|internal\s+|fileprivate\s+|private\s+)?struct\s+(\w+)(?:\s*:\s*[^{]+)?\s*\{";

pub const SWIFT_ENUM_PATTERN: &'static str = r"(?m)^(?:@\w+\s+)*(public\s+|internal\s+|fileprivate\s+|private\s+)?enum\s+(\w+)(?:\s*:\s*[^{]+)?\s*\{";

pub const SWIFT_PROTOCOL_PATTERN: &'static str = r"(?m)^(?:@\w+\s+)*(public\s+|internal\s+|fileprivate\s+|private\s+)?protocol\s+(\w+)(?:\s*:\s*[^{]+)?\s*\{";

pub const SWIFT_EXTENSION_PATTERN: &'static str = r"(?m)^(?:@\w+\s+)*(public\s+|internal\s+|fileprivate\s+|private\s+)?extension\s+(\w+)(?:\s*:\s*[^{]+)?\s*\{";

pub const SWIFT_ACTOR_PATTERN: &'static str = r"(?m)^(?:@\w+\s+)*(public\s+|internal\s+|fileprivate\s+|private\s+)?actor\s+(\w+)(?:\s*:\s*[^{]+)?\s*\{";

pub const SWIFT_FUNC_PATTERN: &'static str = r"(?m)^(?:\s*)(?:@\w+\s+)*(public\s+|internal\s+|fileprivate\s+|private\s+|open\s+)?(?:static\s+|class\s+)?(?:override\s+)?func\s+(\w+)\s*\([^)]*\)(?:\s*(?:async\s+)?(?:throws\s+)?(?:->\s*[^{]+)?)?\s*\{";

pub const SWIFT_INIT_PATTERN: &'static str = r"(?m)^(?:\s*)(?:@\w+\s+)*(public\s+|internal\s+|fileprivate\s+|private\s+)?(?:convenience\s+|required\s+)?init\??\s*\([^)]*\)(?:\s*throws)?\s*\{";

/// Swift's access words: `public` and `open` are public, `private` and
/// `fileprivate` private, anything else internal.
pub open spec fn swift_visibility_of(word: Option<Seq<char>>) -> Visibility {
    match word {
        Some(w) => if trimmed(w) == "public"@ || trimmed(w) == "open"@ {
            Visibility::Public
        } else if trimmed(w) == "private"@ || trimmed(w) == "fileprivate"@ {
            Visibility::Private
        } else {
            Visibility::Internal
        },
        None => Visibility::Internal,
    }
}

fn swift_visibility(m: &Vec<Option<(usize, usize, String)>>) -> (r: Visibility)
    ensures
        r == swift_visibility_of(if 1 < m@.len() && m@[1].is_some() { Some(m@[1].unwrap().2@) } else { None }),
{
    if 1 < m.len() {
        match &m[1] {
            Some(x) => {
                let w = trim(x.2.as_str());
                if str_eq(w.as_str(), "public") || str_eq(w.as_str(), "open") {
                    return Visibility::Public;
                } else if str_eq(w.as_str(), "private") || str_eq(w.as_str(), "fileprivate") {
                    return Visibility::Private;
                } else {
                    return Visibility::Internal;
                }
            },
            None => {},
        }
    }
    Visibility::Internal
}

/// Finds types, extensions, actors, functions and initializers in Swift.
pub struct SwiftParser;

/// The kinds of Swift declaration that the patterns find.
#[derive(Debug, Clone, Copy, PartialEq, Eq, Structural)]
pub enum SwiftShape {
    Class,
    Struct,
    Enum,
    Protocol,
    Extension,
    Actor,
    Func,
    Init,
}

pub open spec fn swift_vis(m: Seq<Option<(nat, nat, Seq<char>)>>) -> Visibility {
    swift_visibility_of(if 1 < m.len() && m[1].is_some() { Some(m[1].unwrap().2) } else { None })
}

/// The symbol of one Swift match of the given shape; the block is searched
/// from the opening brace that ends the match.
pub open spec fn swift_symbol(content: Seq<char>, m: Seq<Option<(nat, nat, Seq<char>)>>, shape: SwiftShape) -> SymModel {
    let line = line_of(content, m[0].unwrap().0 as int);
    let brace = if m[0].unwrap().1 >= 1 { m[0].unwrap().1 - 1 } else { 0 };
    let end = block_end_line(content, brace as int, false, line);
    let name = gtext(m, 2, ""@);
    let vis = swift_vis(m);
    let header = Some(trimmed(without_trailing(trimmed(m[0].unwrap().2), '{')));
    match shape {
        SwiftShape::Class => SymModel { kind: SymbolKind::Class, name, line, visibility: vis, start: line, end, signature: Some("class "@ + name) },
        SwiftShape::Struct => SymModel { kind: SymbolKind::Struct, name, line, visibility: vis, start: line, end, signature: Some("struct "@ + name) },
        SwiftShape::Enum => SymModel { kind: SymbolKind::Enum, name, line, visibility: vis, start: line, end, signature: Some("enum "@ + name) },
        SwiftShape::Protocol => SymModel { kind: SymbolKind::Trait, name, line, visibility: vis, start: line, end, signature: Some("protocol "@ + name) },
        SwiftShape::Extension => SymModel { kind: SymbolKind::Module, name: "extension "@ + name, line, visibility: vis, start: line, end, signature: None },
        SwiftShape::Actor => SymModel { kind: SymbolKind::Class, name, line, visibility: vis, start: line, end, signature: Some("actor "@ + name) },
        SwiftShape::Func => SymModel { kind: SymbolKind::Function, name, line, visibility: vis, start: line, end, signature: header },
        SwiftShape::Init => SymModel { kind: SymbolKind::Method, name: "init"@, line, visibility: vis, start: line, end, signature: header },
    }
}

pub open spec fn swift_part(content: Seq<char>, ms: Seq<Seq<Option<(nat, nat, Seq<char>)>>>, shape: SwiftShape) -> Seq<SymModel> {
    ms.map_values(|m: Seq<Option<(nat, nat, Seq<char>)>>| swift_symbol(content, m, shape))
}

/// The symbols of the eight Swift patterns' matches, before ordering.
pub open spec fn swift_raw(content: Seq<char>, g: Seq<Seq<Seq<Option<(nat, nat, Seq<char>)>>>>) -> Seq<SymModel> {
    swift_part(content, g[0], SwiftShape::Class) + swift_part(content, g[1], SwiftShape::Struct) + swift_part(content, g[2], SwiftShape::Enum)
        + swift_part(content, g[3], SwiftShape::Protocol) + swift_part(content, g[4], SwiftShape::Extension) + swift_part(
        content,
        g[5],
        SwiftShape::Actor,
    ) + swift_part(content, g[6], SwiftShape::Func) + swift_part(content, g[7], SwiftShape::Init)
}

/// Each symbol that repeats the name and first line of the last one kept is
/// dropped.
pub open spec fn dedup_models(v: Seq<SymModel>) -> Seq<SymModel>
    decreases v.len(),
{
    if v.len() == 0 {
        v
    } else {
        let p = dedup_models(v.drop_last());
        if p.len() > 0 && p.last().name == v.last().name && p.last().start == v.last().start {
            p
        } else {
            p.push(v.last())
        }
    }
}

/// The Swift result for the matches `g`: ordered by first line, then
/// repeats dropped.
pub open spec fn swift_result(content: Seq<char>, g: Seq<Seq<Seq<Option<(nat, nat, Seq<char>)>>>>, out: Seq<SymModel>) -> bool {
    exists|sorted: Seq<SymModel>| #[trigger] ordered_by_line(swift_raw(content, g), sorted) && out == dedup_models(sorted)
}

/// Appends the symbols of one pattern's matches.
fn push_swift(content: &str, ms: &Vec<Vec<Option<(usize, usize, String)>>>, shape: SwiftShape, symbols: &mut Vec<Symbol>)
    requires
        encode_utf8(content@).len() < usize::MAX,
        well_spanned(ms@, content@),
    ensures
        symbol_models(final(symbols)@) == symbol_models(old(symbols)@) + swift_part(content@, group_views(ms@), shape),
{
    let ghost start = symbol_models(symbols@);
    let ghost gv = group_views(ms@);
    let mut i: usize = 0;
    assert(start + swift_part(content@, gv.take(0), shape) =~= start);
    while i < ms.len()
        invariant
            i <= ms@.len(),
            gv == group_views(ms@),
            encode_utf8(content@).len() < usize::MAX,
            well_spanned(ms@, content@),
            symbol_models(symbols@) == start + swift_part(content@, gv.take(i as int), shape),
        decreases ms@.len() - i,
    {
        let m = &ms[i];
        assert(m@[0].is_some());
        assert(gv[i as int] == match_view(m@));
        let ghost mvw = match_view(m@);
        let name = group_text(m, 2, "");
        let (_s, end, text) = whole(m);
        let vis = swift_visibility(m);
        proof {
            assert(mvw[0] == Some((m@[0].unwrap().0 as nat, m@[0].unwrap().1 as nat, m@[0].unwrap().2@)));
            assert(gtext(mvw, 2, ""@) == name@);
            if 1 < m@.len() && m@[1].is_some() {
                assert(mvw[1] == Some((m@[1].unwrap().0 as nat, m@[1].unwrap().1 as nat, m@[1].unwrap().2@)));
            }
            assert(vis == swift_vis(mvw));
        }
        let brace = end.saturating_sub(1);
        let sym = match shape {
            SwiftShape::Class => symbol_at(content, m, brace, false, SymbolKind::Class, name.clone(), vis).with_signature(concat(&chars_of("class "), name.as_str())),
            SwiftShape::Struct => symbol_at(content, m, brace, false, SymbolKind::Struct, name.clone(), vis).with_signature(concat(&chars_of("struct "), name.as_str())),
            SwiftShape::Enum => symbol_at(content, m, brace, false, SymbolKind::Enum, name.clone(), vis).with_signature(concat(&chars_of("enum "), name.as_str())),
            SwiftShape::Protocol => symbol_at(content, m, brace, false, SymbolKind::Trait, name.clone(), vis).with_signature(concat(&chars_of("protocol "), name.as_str())),
            SwiftShape::Extension => symbol_at(content, m, brace, false, SymbolKind::Module, concat(&chars_of("extension "), name.as_str()), vis),
            SwiftShape::Actor => symbol_at(content, m, brace, false, SymbolKind::Class, name.clone(), vis).with_signature(concat(&chars_of("actor "), name.as_str())),
            SwiftShape::Func => {
                let t = trim(text.as_str());
                let header = trim(string_of(trim_end_char(t.as_str(), '{').as_slice()).as_str());
                symbol_at(content, m, brace, false, SymbolKind::Function, name.clone(), vis).with_signature(header)
            },
            SwiftShape::Init => {
                let t = trim(text.as_str());
                let header = trim(string_of(trim_end_char(t.as_str(), '{').as_slice()).as_str());
                symbol_at(content, m, brace, false, SymbolKind::Method, string_of(chars_of("init").as_slice()), vis).with_signature(header)
            },
        };
        proof {
            assert(symbol_model(sym) == swift_symbol(content@, mvw, shape));
        }
        let ghost prev = symbol_models(symbols@);
        symbols.push(sym);
        assert(symbol_models(symbols@) =~= prev.push(symbol_model(sym)));
        assert(gv.take(i + 1) =~= gv.take(i as int).push(gv[i as int]));
        assert(start + swift_part(content@, gv.take(i + 1), shape) =~= (start + swift_part(content@, gv.take(i as int), shape)).push(
            swift_symbol(content@, gv[i as int], shape),
        ));
        i = i + 1;
    }
    assert(gv.take(i as int) =~= gv);
}

fn matches_of(pattern: &str, content: &str) -> (r: Vec<Vec<Option<(usize, usize, String)>>>)
    ensures
        group_views(r@) == regex_matches(pattern@, content@) || r@.len() == 0,
        well_spanned(r@, content@),
{
    match find_matches(pattern, content) {
        Some(ms) => ms,
        None => Vec::new(),
    }
}

/// The Swift symbols of given pattern matches, one list per pattern in the
/// order class, struct, enum, protocol, extension, actor, function,
/// initializer: exactly the symbols those matches describe, ordered by first
/// line, each dropped that repeats the name and first line of the one kept
/// before it.
pub fn swift_symbols(content: &str, groups: &Vec<Vec<Vec<Option<(usize, usize, String)>>>>) -> (r: Vec<Symbol>)
    requires
        encode_utf8(content@).len() < usize::MAX,
        groups@.len() == 8,
        forall|k: int| 0 <= k < 8 ==> well_spanned(#[trigger] groups@[k]@, content@),
    ensures
        swift_result(content@, groups@.map_values(|g: Vec<Vec<Option<(usize, usize, String)>>>| group_views(g@)), symbol_models(r@)),
{
    let ghost gs = groups@.map_values(|g: Vec<Vec<Option<(usize, usize, String)>>>| group_views(g@));
    let mut symbols: Vec<Symbol> = Vec::new();
    assert(symbol_models(symbols@) =~= Seq::<SymModel>::empty());
    push_swift(content, &groups[0], SwiftShape::Class, &mut symbols);
    push_swift(content, &groups[1], SwiftShape::Struct, &mut symbols);
    push_swift(content, &groups[2], SwiftShape::Enum, &mut symbols);
    push_swift(content, &groups[3], SwiftShape::Protocol, &mut symbols);
    push_swift(content, &groups[4], SwiftShape::Extension, &mut symbols);
    push_swift(content, &groups[5], SwiftShape::Actor, &mut symbols);
    push_swift(content, &groups[6], SwiftShape::Func, &mut symbols);
    push_swift(content, &groups[7], SwiftShape::Init, &mut symbols);
    assert(Seq::<SymModel>::empty() + swift_part(content@, gs[0], SwiftShape::Class) =~= swift_part(content@, gs[0], SwiftShape::Class));
    assert(symbol_models(symbols@) == swift_raw(content@, gs));
    let sorted = sort_by_line(&symbols);
    let r = dedup_symbols(sorted);
    assert(ordered_by_line(swift_raw(content@, gs), symbol_models(sorted@)));
    r
}

impl SwiftParser {
    /// The Swift symbols of `content`: `swift_symbols` of the eight
    /// patterns' matches (no matches for a pattern that does not compile).
    pub fn parse_symbols(&self, content: &str) -> (r: Vec<Symbol>)
        ensures
            encode_utf8(content@).len() < usize::MAX ==> exists|g: Seq<Seq<Seq<Option<(nat, nat, Seq<char>)>>>>|
                g.len() == 8 && (forall|k: int| 0 <= k < 8 ==> #[trigger] g[k] == regex_matches(swift_pattern(k)@, content@) || g[k].len() == 0)
                    && #[trigger] swift_result(content@, g, symbol_models(r@)),
    {
        if content.as_bytes().len() == usize::MAX {
            return Vec::new();
        }
        let groups = vec![
            matches_of(SWIFT_CLASS_PATTERN, content),
            matches_of(SWIFT_STRUCT_PATTERN, content),
            matches_of(SWIFT_ENUM_PATTERN, content),
            matches_of(SWIFT_PROTOCOL_PATTERN, content),
            matches_of(SWIFT_EXTENSION_PATTERN, content),
            matches_of(SWIFT_ACTOR_PATTERN, content),
            matches_of(SWIFT_FUNC_PATTERN, content),
            matches_of(SWIFT_INIT_PATTERN, content),
        ];
        let r = swift_symbols(content, &groups);
        let ghost g = groups@.map_values(|g: Vec<Vec<Option<(usize, usize, String)>>>| group_views(g@));
        assert(forall|k: int| 0 <= k < 8 ==> #[trigger] g[k] == regex_matches(swift_pattern(k)@, content@) || g[k].len() == 0);
        r
    }
}

/// The Swift pattern of each list, in the order of `swift_symbols`.
pub open spec fn swift_pattern(k: int) -> &'static str {
    if k == 0 {
        SWIFT_CLASS_PATTERN
    } else if k == 1 {
        SWIFT_STRUCT_PATTERN
    } else if k == 2 {
        SWIFT_ENUM_PATTERN
    } else if k == 3 {
        SWIFT_PROTOCOL_PATTERN
    } else if k == 4 {
        SWIFT_EXTENSION_PATTERN
    } else if k == 5 {
        SWIFT_ACTOR_PATTERN
    } else if k == 6 {
        SWIFT_FUNC_PATTERN
    } else {
        SWIFT_INIT_PATTERN
    }
}

/// Drops each symbol that repeats the name and first line of the one kept
/// before it.
fn dedup_symbols(v: Vec<Symbol>) -> (r: Vec<Symbol>)
    ensures
        symbol_models(r@) == dedup_models(symbol_models(v@)),
{
    let ghost mv = symbol_models(v@);
    let mut out: Vec<Symbol> = Vec::new();
    let mut i: usize = 0;
    assert(out@.len() == 0);
    assert(symbol_models(out@) =~= dedup_models(mv.take(0)));
    while i < v.len()
        invariant
            i <= v@.len(),
            mv == symbol_models(v@),
            symbol_models(out@) == dedup_models(mv.take(i as int)),
        decreases v@.len() - i,
    {
        assert(mv.take(i + 1).drop_last() =~= mv.take(i as int));
        assert(mv.take(i + 1).last() == symbol_model(v@[i as int]));
        let keep = if out.len() == 0 {
            true
        } else {
            let last = &out[out.len() - 1];
            assert(symbol_models(out@).last() == symbol_model(*last));
            !(str_eq(last.name.as_str(), v[i].name.as_str()) && last.line_range.start == v[i].line_range.start)
        };
        if keep {
            let ghost prev = symbol_models(out@);
            let d = v[i].duplicate();
            out.push(d);
            assert(symbol_model(d) == symbol_model(v@[i as int]));
            assert(symbol_models(out@) =~= prev.push(symbol_model(d)));
        }
        i = i + 1;
    }
    assert(mv.take(i as int) =~= mv);
    out
}

} // verus!
