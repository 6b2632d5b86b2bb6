//! Splitting a file's text into fragments: one per qualifying symbol, with
//! oversized symbols and symbol-less files cut into windows of whole lines.

use vstd::prelude::*;
use crate::hashing::{content_hash, hash_content};
use crate::text::{
    chars_of, decimal, decimal_chars, is_blank, is_blank_seq, is_space_char, join_lines, join_range, lines_of,
    split_lines, string_of, views,
};
use crate::types::{kind_name, FileEntry, Symbol, SymbolKind};

verus! {

/// The category of a fragment.
#[derive(Debug, Clone, Copy, PartialEq, Eq, Structural)]
pub enum ChunkType {
    Function,
    Class,
    Method,
    Module,
    FileHeader,
    Block,
}

/// A fragment before it is embedded.
#[derive(Debug, Clone)]
pub struct ChunkInfo {
    pub id: String,
    pub file_path: String,
    pub start_line: usize,
    pub end_line: usize,
    pub content: String,
    pub hash: String,
    pub chunk_type: ChunkType,
}

/// What a fragment holds, as mathematical values.
pub struct FragmentModel {
    pub id: Seq<char>,
    pub file_path: Seq<char>,
    pub start_line: nat,
    pub end_line: nat,
    pub content: Seq<char>,
    pub hash: Seq<char>,
    pub chunk_type: ChunkType,
}

impl View for ChunkInfo {
    type V = FragmentModel;

    open spec fn view(&self) -> FragmentModel {
        FragmentModel {
            id: self.id@,
            file_path: self.file_path@,
            start_line: self.start_line as nat,
            end_line: self.end_line as nat,
            content: self.content@,
            hash: self.hash@,
            chunk_type: self.chunk_type,
        }
    }
}

pub open spec fn fragment_views(s: Seq<ChunkInfo>) -> Seq<FragmentModel> {
    s.map_values(|c: ChunkInfo| c@)
}

/// Characters assumed per line when an overlap in characters is turned into
/// an overlap in lines.
pub const ASSUMED_LINE_CHARS: usize = 80;

pub open spec fn overlap_lines(overlap_chars: nat) -> nat {
    overlap_chars / (ASSUMED_LINE_CHARS as nat)
}

/// Where a window that starts at line index `start` ends (exclusive), given
/// that lines `start..end` have been taken and joined into `acc` characters:
/// the first line is always taken, and each further line only while the
/// joined excerpt with it stays within the budget.
pub open spec fn fill_end(lines: Seq<Seq<char>>, hi: int, start: int, end: int, acc: int, max: int) -> int
    decreases hi - end,
{
    if end < hi && end == start {
        fill_end(lines, hi, start, end + 1, lines[end].len() as int, max)
    } else if end < hi && acc + 1 + lines[end].len() <= max {
        fill_end(lines, hi, start, end + 1, acc + 1 + lines[end].len(), max)
    } else {
        end
    }
}

pub open spec fn window_end(lines: Seq<Seq<char>>, hi: int, start: int, max: int) -> int {
    fill_end(lines, hi, start, start, 0, max)
}

/// The start of the next window: backed up by the overlap when the window
/// from there still reaches past the previous end, and at the previous end
/// otherwise, so that every window ends after the one before.
pub open spec fn next_start(lines: Seq<Seq<char>>, hi: int, max: int, start: int, end: int, ov: nat) -> int {
    if end - ov > start && window_end(lines, hi, end - ov, max) > end {
        end - ov
    } else if end > start {
        end
    } else {
        start + 1
    }
}

/// The windows `(start, end)` over line indices `start..hi`.
pub open spec fn windows(lines: Seq<Seq<char>>, hi: int, start: int, max: int, ov: nat) -> Seq<(int, int)>
    decreases hi - start,
{
    if start >= hi {
        Seq::empty()
    } else {
        let end = window_end(lines, hi, start, max);
        if end >= hi {
            seq![(start, end)]
        } else {
            seq![(start, end)] + windows(lines, hi, next_start(lines, hi, max, start, end, ov), max, ov)
        }
    }
}

pub open spec fn range_text(lines: Seq<Seq<char>>, s: int, e: int) -> Seq<char> {
    join_lines(lines.subrange(s, e))
}

/// The header of a window fragment.
pub open spec fn lines_header(path: Seq<char>, first: nat, last: nat) -> Seq<char> {
    "File: "@ + path + "\nLines: "@ + decimal(first) + "-"@ + decimal(last) + "\n\n"@
}

/// The header of a symbol fragment.
pub open spec fn symbol_header(path: Seq<char>, name: Seq<char>, kind: SymbolKind, first: nat, last: nat) -> Seq<char> {
    "File: "@ + path + "\nSymbol: "@ + name + " ("@ + kind_name(kind) + ")\nLines: "@ + decimal(first)
        + "-"@ + decimal(last) + "\n\n"@
}

/// The fragment for lines `s..e`; `tag` is `:block:` or `:split:`.
pub open spec fn piece_fragment(
    path: Seq<char>,
    lines: Seq<Seq<char>>,
    s: int,
    e: int,
    tag: Seq<char>,
    t: ChunkType,
) -> FragmentModel {
    let text = range_text(lines, s, e);
    FragmentModel {
        id: path + tag + decimal((s + 1) as nat),
        file_path: path,
        start_line: (s + 1) as nat,
        end_line: e as nat,
        content: lines_header(path, (s + 1) as nat, e as nat) + text,
        hash: content_hash(text),
        chunk_type: t,
    }
}

/// The fragments of a list of windows; a blank window gives none.
pub open spec fn pieces(
    path: Seq<char>,
    lines: Seq<Seq<char>>,
    ws: Seq<(int, int)>,
    tag: Seq<char>,
    t: ChunkType,
) -> Seq<FragmentModel>
    decreases ws.len(),
{
    if ws.len() == 0 {
        Seq::empty()
    } else {
        let rest = pieces(path, lines, ws.drop_first(), tag, t);
        if is_blank_seq(range_text(lines, ws[0].0, ws[0].1)) {
            rest
        } else {
            seq![piece_fragment(path, lines, ws[0].0, ws[0].1, tag, t)] + rest
        }
    }
}

/// The fragments that window chunking gives for a whole file.
pub open spec fn window_fragments(path: Seq<char>, text: Seq<char>, max: nat, overlap: nat) -> Seq<FragmentModel> {
    let lines = split_lines(text);
    pieces(path, lines, windows(lines, lines.len() as int, 0, max as int, overlap_lines(overlap)), ":block:"@, ChunkType::Block)
}

pub open spec fn qualifies(k: SymbolKind) -> bool {
    k == SymbolKind::Function || k == SymbolKind::Method || k == SymbolKind::Class || k == SymbolKind::Struct
}

pub open spec fn chunk_type_of(k: SymbolKind) -> ChunkType {
    match k {
        SymbolKind::Function => ChunkType::Function,
        SymbolKind::Method => ChunkType::Method,
        SymbolKind::Class => ChunkType::Class,
        SymbolKind::Struct => ChunkType::Class,
        SymbolKind::Module => ChunkType::Module,
        _ => ChunkType::Block,
    }
}

/// First line index of a symbol's excerpt.
pub open spec fn sym_first(sym: Symbol) -> int {
    if sym.line_range.start == 0 { 0 } else { sym.line_range.start - 1 }
}

/// Line index just past a symbol's excerpt.
pub open spec fn sym_last(sym: Symbol, n: int) -> int {
    if sym.line_range.end < n { sym.line_range.end as int } else { n }
}

/// The fragments of one symbol.
pub open spec fn symbol_fragments(
    path: Seq<char>,
    lines: Seq<Seq<char>>,
    sym: Symbol,
    max: nat,
    overlap: nat,
) -> Seq<FragmentModel> {
    let n = lines.len() as int;
    let s = sym_first(sym);
    let e = sym_last(sym, n);
    let text = range_text(lines, s, e);
    if !qualifies(sym.kind) || s >= n || s >= e || is_blank_seq(text) {
        Seq::empty()
    } else if text.len() > max {
        pieces(path, lines, windows(lines, e, s, max as int, overlap_lines(overlap)), ":split:"@, chunk_type_of(sym.kind))
    } else {
        seq![FragmentModel {
            id: path + ":"@ + sym.name@ + ":"@ + decimal(sym.line_range.start as nat),
            file_path: path,
            start_line: (s + 1) as nat,
            end_line: e as nat,
            content: symbol_header(path, sym.name@, sym.kind, (s + 1) as nat, e as nat) + text,
            hash: content_hash(text),
            chunk_type: chunk_type_of(sym.kind),
        }]
    }
}

pub open spec fn all_symbol_fragments(
    path: Seq<char>,
    lines: Seq<Seq<char>>,
    syms: Seq<Symbol>,
    max: nat,
    overlap: nat,
) -> Seq<FragmentModel>
    decreases syms.len(),
{
    if syms.len() == 0 {
        Seq::empty()
    } else {
        all_symbol_fragments(path, lines, syms.drop_last(), max, overlap)
            + symbol_fragments(path, lines, syms.last(), max, overlap)
    }
}

/// Symbol chunking of a file, with window chunking when no symbol gives a
/// fragment.
pub open spec fn symbol_chunking(
    path: Seq<char>,
    text: Seq<char>,
    syms: Seq<Symbol>,
    max: nat,
    overlap: nat,
) -> Seq<FragmentModel> {
    let fs = all_symbol_fragments(path, split_lines(text), syms, max, overlap);
    if fs.len() == 0 {
        window_fragments(path, text, max, overlap)
    } else {
        fs
    }
}

proof fn lemma_fill_end_bounds(lines: Seq<Seq<char>>, hi: int, start: int, end: int, acc: int, max: int)
    requires
        start <= end <= hi,
    ensures
        end <= fill_end(lines, hi, start, end, acc, max) <= hi,
        start < hi ==> fill_end(lines, hi, start, end, acc, max) > start,
    decreases hi - end,
{
    if end < hi && end == start {
        lemma_fill_end_bounds(lines, hi, start, end + 1, lines[end].len() as int, max);
    } else if end < hi && acc + 1 + lines[end].len() <= max {
        lemma_fill_end_bounds(lines, hi, start, end + 1, acc + 1 + lines[end].len(), max);
    }
}

/// Joining one more line adds a newline and the line.
proof fn lemma_join_step(lines: Seq<Seq<char>>, s: int, e: int)
    requires
        0 <= s <= e < lines.len(),
    ensures
        e == s ==> range_text(lines, s, e + 1) == lines[e],
        e > s ==> range_text(lines, s, e + 1) == range_text(lines, s, e) + seq!['\n'] + lines[e],
{
    let t = lines.subrange(s, e + 1);
    if e == s {
        assert(t.len() == 1);
        assert(t[0] == lines[e]);
    } else {
        assert(t.drop_last() =~= lines.subrange(s, e));
        assert(t.last() == lines[e]);
    }
}

proof fn lemma_fill_end_budget(lines: Seq<Seq<char>>, hi: int, start: int, end: int, acc: int, max: int)
    requires
        0 <= start <= end <= hi <= lines.len(),
        end > start ==> acc == range_text(lines, start, end).len(),
        end > start + 1 ==> acc <= max,
    ensures
        fill_end(lines, hi, start, end, acc, max) > start + 1 ==> range_text(
            lines,
            start,
            fill_end(lines, hi, start, end, acc, max),
        ).len() <= max,
    decreases hi - end,
{
    if end < hi && end == start {
        lemma_join_step(lines, start, end);
        lemma_fill_end_budget(lines, hi, start, end + 1, lines[end].len() as int, max);
    } else if end < hi && acc + 1 + lines[end].len() <= max {
        lemma_join_step(lines, start, end);
        lemma_fill_end_budget(lines, hi, start, end + 1, acc + 1 + lines[end].len(), max);
    }
}

/// Every window of more than one line stays within the budget: its lines,
/// joined by newlines, have at most `max` characters. Only a window of a
/// single line can be longer.
pub proof fn lemma_windows_within_budget(lines: Seq<Seq<char>>, hi: int, start: int, max: int, ov: nat)
    requires
        0 <= start,
        hi <= lines.len(),
    ensures
        ({
            let ws = windows(lines, hi, start, max, ov);
            forall|i: int| 0 <= i < ws.len() && (#[trigger] ws[i]).1 > ws[i].0 + 1 ==> range_text(lines, ws[i].0, ws[i].1).len() <= max
        }),
    decreases hi - start,
{
    let ws = windows(lines, hi, start, max, ov);
    if start < hi {
        let end = window_end(lines, hi, start, max);
        lemma_fill_end_budget(lines, hi, start, start, 0, max);
        lemma_fill_end_bounds(lines, hi, start, start, 0, max);
        if end < hi {
            let nx = next_start(lines, hi, max, start, end, ov);
            lemma_windows_within_budget(lines, hi, nx, max, ov);
            let rest = windows(lines, hi, nx, max, ov);
            assert(ws == seq![(start, end)] + rest);
            assert forall|i: int| 0 <= i < ws.len() && (#[trigger] ws[i]).1 > ws[i].0 + 1 implies range_text(lines, ws[i].0, ws[i].1).len() <= max by {
                if i > 0 {
                    assert(ws[i] == rest[i - 1]);
                }
            }
        } else {
            assert(ws == seq![(start, end)]);
        }
    }
}

/// Windows cover lines `start..hi` completely: the first starts at `start`,
/// the last ends at `hi`, each holds at least one line, each starts after the
/// previous one and no later than its end, and consecutive windows share at
/// most `ov` lines.
pub proof fn lemma_windows_cover(lines: Seq<Seq<char>>, hi: int, start: int, max: int, ov: nat)
    requires
        0 <= start < hi,
    ensures
        ({
            let ws = windows(lines, hi, start, max, ov);
            &&& ws.len() > 0
            &&& ws[0].0 == start
            &&& ws.last().1 == hi
            &&& forall|i: int| 0 <= i < ws.len() ==> start <= #[trigger] ws[i].0 < ws[i].1 <= hi
            &&& forall|i: int|
                0 <= i < ws.len() - 1 ==> (#[trigger] ws[i]).0 < ws[i + 1].0 <= ws[i].1 && ws[i].1
                    - ws[i + 1].0 <= ov && ws[i].1 < ws[i + 1].1
        }),
    decreases hi - start,
{
    let end = window_end(lines, hi, start, max);
    lemma_fill_end_bounds(lines, hi, start, start, 0, max);
    let ws = windows(lines, hi, start, max, ov);
    if end < hi {
        let nx = next_start(lines, hi, max, start, end, ov);
        lemma_windows_cover(lines, hi, nx, max, ov);
        let rest = windows(lines, hi, nx, max, ov);
        assert(ws == seq![(start, end)] + rest);
        assert forall|i: int| 0 <= i < ws.len() implies start <= #[trigger] ws[i].0 < ws[i].1 <= hi by {
            if i > 0 {
                assert(ws[i] == rest[i - 1]);
            }
        }
        lemma_fill_end_bounds(lines, hi, nx, nx, 0, max);
        assert(rest[0] == (nx, window_end(lines, hi, nx, max)));
        if !(end - ov > start && window_end(lines, hi, end - ov, max) > end) {
            assert(nx == end);
        }
        assert forall|i: int| 0 <= i < ws.len() - 1 implies (#[trigger] ws[i]).0 < ws[i + 1].0 <= ws[i].1
            && ws[i].1 - ws[i + 1].0 <= ov && ws[i].1 < ws[i + 1].1 by {
            assert(ws[i + 1] == rest[i]);
            if i > 0 {
                assert(ws[i] == rest[i - 1]);
            } else {
                assert(ws[0] == (start, end));
                assert(rest[0].0 == nx);
            }
        }
    }
}

/// An excerpt that holds a non-blank line is not blank; one made of blank
/// lines is blank.
proof fn lemma_range_blank(lines: Seq<Seq<char>>, s: int, e: int)
    requires
        0 <= s < e <= lines.len(),
    ensures
        (exists|k: int| s <= k < e && !is_blank_seq(#[trigger] lines[k])) ==> !is_blank_seq(range_text(lines, s, e)),
        (forall|k: int| s <= k < e ==> is_blank_seq(#[trigger] lines[k])) ==> is_blank_seq(range_text(lines, s, e)),
    decreases e - s,
{
    lemma_join_step(lines, s, e - 1);
    if e - 1 > s {
        lemma_range_blank(lines, s, e - 1);
        let pre = range_text(lines, s, e - 1);
        let all = range_text(lines, s, e);
        assert(all == pre + seq!['\n'] + lines[e - 1]);
        if exists|k: int| s <= k < e && !is_blank_seq(#[trigger] lines[k]) {
            let k = choose|k: int| s <= k < e && !is_blank_seq(#[trigger] lines[k]);
            if k == e - 1 {
                let c = choose|c: int| 0 <= c < lines[k].len() && !is_space_char(#[trigger] lines[k][c]);
                assert(all[pre.len() + 1 + c] == lines[k][c]);
            } else {
                assert(!is_blank_seq(pre));
                let c = choose|c: int| 0 <= c < pre.len() && !is_space_char(#[trigger] pre[c]);
                assert(all[c] == pre[c]);
            }
        }
        if forall|k: int| s <= k < e ==> is_blank_seq(#[trigger] lines[k]) {
            assert(is_blank_seq(lines[e - 1]));
            assert(is_blank_seq(pre));
            assert forall|c: int| 0 <= c < all.len() implies is_space_char(#[trigger] all[c]) by {
                if c < pre.len() {
                    assert(all[c] == pre[c]);
                } else if c == pre.len() {
                    assert(all[c] == '\n');
                } else {
                    assert(all[c] == lines[e - 1][c - pre.len() - 1]);
                }
            }
        }
    }
}

/// A window of `ws` contains line index `k`.
proof fn lemma_window_containing(ws: Seq<(int, int)>, k: int, i: int, hi: int)
    requires
        0 <= i < ws.len(),
        ws[i].0 <= k < hi,
        ws.last().1 == hi,
        forall|x: int| 0 <= x < ws.len() - 1 ==> (#[trigger] ws[x]).0 < ws[x + 1].0 <= ws[x].1,
    ensures
        exists|w: int| 0 <= w < ws.len() && (#[trigger] ws[w]).0 <= k < ws[w].1,
    decreases ws.len() - i,
{
    if k >= ws[i].1 {
        if i == ws.len() - 1 {
            assert(ws[i] == ws.last());
        } else {
            assert(ws[i].0 < ws[i + 1].0 <= ws[i].1);
            lemma_window_containing(ws, k, i + 1, hi);
        }
    }
}

/// A non-blank window gives a fragment over its lines.
proof fn lemma_pieces_have(path: Seq<char>, lines: Seq<Seq<char>>, ws: Seq<(int, int)>, tag: Seq<char>, t: ChunkType, w: int)
    requires
        0 <= w < ws.len(),
        0 <= ws[w].0 <= ws[w].1,
        !is_blank_seq(range_text(lines, ws[w].0, ws[w].1)),
    ensures
        exists|f: int|
            0 <= f < pieces(path, lines, ws, tag, t).len() && (#[trigger] pieces(path, lines, ws, tag, t)[f]).start_line == ws[w].0 + 1
                && pieces(path, lines, ws, tag, t)[f].end_line == ws[w].1,
    decreases ws.len(),
{
    let ps = pieces(path, lines, ws, tag, t);
    let rest = pieces(path, lines, ws.drop_first(), tag, t);
    if w == 0 {
        assert(ps[0] == piece_fragment(path, lines, ws[0].0, ws[0].1, tag, t));
        assert(ps[0].start_line == ws[0].0 + 1 && ps[0].end_line == ws[0].1);
    } else {
        assert(ws.drop_first()[w - 1] == ws[w]);
        lemma_pieces_have(path, lines, ws.drop_first(), tag, t, w - 1);
        let f = choose|f: int|
            0 <= f < rest.len() && (#[trigger] rest[f]).start_line == ws[w].0 + 1 && rest[f].end_line == ws[w].1;
        if is_blank_seq(range_text(lines, ws[0].0, ws[0].1)) {
            assert(ps[f] == rest[f]);
        } else {
            assert(ps[f + 1] == rest[f]);
        }
    }
}

/// A file's window fragments cover every non-blank line: for each line that
/// is not blank there is a fragment whose line range holds it. Every
/// fragment lies within the file, and there are fragments exactly when some
/// line is not blank.
pub proof fn lemma_window_fragments_cover(path: Seq<char>, text: Seq<char>, max: nat, overlap: nat)
    ensures
        ({
            let lines = split_lines(text);
            let fr = window_fragments(path, text, max, overlap);
            &&& forall|k: int|
                0 <= k < lines.len() && !is_blank_seq(#[trigger] lines[k]) ==> exists|f: int|
                    0 <= f < fr.len() && (#[trigger] fr[f]).start_line <= k + 1 <= fr[f].end_line
            &&& fr.len() > 0 <==> exists|k: int| 0 <= k < lines.len() && !is_blank_seq(#[trigger] lines[k])
        }),
{
    let lines = split_lines(text);
    let n = lines.len() as int;
    let ov = overlap_lines(overlap);
    let ws = windows(lines, n, 0, max as int, ov);
    let fr = window_fragments(path, text, max, overlap);
    assert(fr == pieces(path, lines, ws, ":block:"@, ChunkType::Block));
    if n > 0 {
        lemma_windows_cover(lines, n, 0, max as int, ov);
        assert forall|k: int| 0 <= k < lines.len() && !is_blank_seq(#[trigger] lines[k]) implies exists|f: int|
            0 <= f < fr.len() && (#[trigger] fr[f]).start_line <= k + 1 <= fr[f].end_line by {
            lemma_window_containing(ws, k, 0, n);
            let w = choose|w: int| 0 <= w < ws.len() && (#[trigger] ws[w]).0 <= k < ws[w].1;
            lemma_range_blank(lines, ws[w].0, ws[w].1);
            lemma_pieces_have(path, lines, ws, ":block:"@, ChunkType::Block, w);
            let f = choose|f: int| 0 <= f < fr.len() && (#[trigger] fr[f]).start_line == ws[w].0 + 1 && fr[f].end_line == ws[w].1;
        }
        if fr.len() > 0 {
            lemma_pieces_blank(path, lines, ws, ":block:"@, ChunkType::Block, n);
        }
    } else {
        assert(ws.len() == 0);
    }
}

/// Fragments only come from windows that hold a non-blank line.
proof fn lemma_pieces_blank(path: Seq<char>, lines: Seq<Seq<char>>, ws: Seq<(int, int)>, tag: Seq<char>, t: ChunkType, n: int)
    requires
        n == lines.len(),
        forall|w: int| 0 <= w < ws.len() ==> 0 <= (#[trigger] ws[w]).0 < ws[w].1 <= n,
        pieces(path, lines, ws, tag, t).len() > 0,
    ensures
        exists|k: int| 0 <= k < lines.len() && !is_blank_seq(#[trigger] lines[k]),
    decreases ws.len(),
{
    if ws.len() > 0 {
        if is_blank_seq(range_text(lines, ws[0].0, ws[0].1)) {
            assert forall|w: int| 0 <= w < ws.drop_first().len() implies 0 <= (#[trigger] ws.drop_first()[w]).0 < ws.drop_first()[w].1 <= n by {
                assert(ws.drop_first()[w] == ws[w + 1]);
            }
            lemma_pieces_blank(path, lines, ws.drop_first(), tag, t, n);
        } else {
            lemma_range_blank(lines, ws[0].0, ws[0].1);
        }
    }
}

/// Indices, from `i` on, of the windows that are not blank, in order.
pub open spec fn kept_windows(lines: Seq<Seq<char>>, ws: Seq<(int, int)>, i: int) -> Seq<int>
    decreases ws.len() - i,
{
    if i < 0 || i >= ws.len() {
        Seq::empty()
    } else {
        let rest = kept_windows(lines, ws, i + 1);
        if is_blank_seq(range_text(lines, ws[i].0, ws[i].1)) {
            rest
        } else {
            seq![i] + rest
        }
    }
}

/// The fragments of windows `i..` are those of the kept windows, and the
/// kept windows are increasing, not blank, with only blank windows between
/// consecutive ones.
proof fn lemma_pieces_kept(path: Seq<char>, lines: Seq<Seq<char>>, ws: Seq<(int, int)>, tag: Seq<char>, t: ChunkType, i: int)
    requires
        0 <= i <= ws.len(),
    ensures
        ({
            let ks = kept_windows(lines, ws, i);
            let ps = pieces(path, lines, ws.subrange(i, ws.len() as int), tag, t);
            &&& ps.len() == ks.len()
            &&& forall|f: int| 0 <= f < ks.len() ==> #[trigger] ps[f] == piece_fragment(path, lines, ws[ks[f]].0, ws[ks[f]].1, tag, t)
            &&& forall|f: int| 0 <= f < ks.len() ==> i <= #[trigger] ks[f] < ws.len() && !is_blank_seq(range_text(lines, ws[ks[f]].0, ws[ks[f]].1))
            &&& forall|f: int| 0 <= f < ks.len() - 1 ==> #[trigger] ks[f] < ks[f + 1]
            &&& forall|f: int, w: int| 0 <= f < ks.len() - 1 && #[trigger] ks[f] < w < ks[f + 1] ==> is_blank_seq(#[trigger] range_text(lines, ws[w].0, ws[w].1))
        }),
    decreases ws.len() - i,
{
    let sub = ws.subrange(i, ws.len() as int);
    if i < ws.len() {
        lemma_pieces_kept(path, lines, ws, tag, t, i + 1);
        assert(sub.drop_first() =~= ws.subrange(i + 1, ws.len() as int));
        assert(sub[0] == ws[i]);
        let ks = kept_windows(lines, ws, i);
        let rest = kept_windows(lines, ws, i + 1);
        let ps = pieces(path, lines, sub, tag, t);
        let prest = pieces(path, lines, ws.subrange(i + 1, ws.len() as int), tag, t);
        if !is_blank_seq(range_text(lines, ws[i].0, ws[i].1)) {
            assert(ks == seq![i] + rest);
            assert(ps == seq![piece_fragment(path, lines, ws[i].0, ws[i].1, tag, t)] + prest);
            assert forall|f: int| 0 <= f < ks.len() implies #[trigger] ps[f] == piece_fragment(path, lines, ws[ks[f]].0, ws[ks[f]].1, tag, t) by {
                if f > 0 {
                    assert(ps[f] == prest[f - 1] && ks[f] == rest[f - 1]);
                }
            }
            assert forall|f: int| 0 <= f < ks.len() implies i <= #[trigger] ks[f] < ws.len() && !is_blank_seq(range_text(lines, ws[ks[f]].0, ws[ks[f]].1)) by {
                if f > 0 {
                    assert(ks[f] == rest[f - 1]);
                }
            }
            assert forall|f: int| 0 <= f < ks.len() - 1 implies #[trigger] ks[f] < ks[f + 1] by {
                assert(ks[f + 1] == rest[f]);
                if f > 0 {
                    assert(ks[f] == rest[f - 1]);
                }
            }
            assert forall|f: int, w: int| 0 <= f < ks.len() - 1 && #[trigger] ks[f] < w < ks[f + 1] implies is_blank_seq(#[trigger] range_text(lines, ws[w].0, ws[w].1)) by {
                assert(ks[f + 1] == rest[f]);
                if f > 0 {
                    assert(ks[f] == rest[f - 1]);
                } else {
                    // windows between i and the first kept window after it are blank
                    lemma_kept_first(lines, ws, i + 1, w);
                }
            }
        } else {
            assert(ks == rest);
            assert(ps == prest);
        }
    } else {
        assert(sub.len() == 0);
    }
}

/// Windows from `i` up to the first kept one are blank.
proof fn lemma_kept_first(lines: Seq<Seq<char>>, ws: Seq<(int, int)>, i: int, w: int)
    requires
        0 <= i <= w < ws.len(),
        kept_windows(lines, ws, i).len() > 0 ==> w < kept_windows(lines, ws, i)[0],
    ensures
        is_blank_seq(range_text(lines, ws[w].0, ws[w].1)),
    decreases w - i,
{
    if !is_blank_seq(range_text(lines, ws[i].0, ws[i].1)) {
        assert(kept_windows(lines, ws, i)[0] == i);
    } else if i < w {
        assert(kept_windows(lines, ws, i) == kept_windows(lines, ws, i + 1));
        lemma_kept_first(lines, ws, i + 1, w);
    }
}

/// Window starts and ends both increase along the list.
proof fn lemma_windows_monotone(ws: Seq<(int, int)>, i: int, j: int)
    requires
        0 <= i < j < ws.len(),
        forall|x: int| 0 <= x < ws.len() - 1 ==> (#[trigger] ws[x]).0 < ws[x + 1].0 && ws[x].1 < ws[x + 1].1,
    ensures
        ws[i].0 < ws[j].0,
        ws[i].1 < ws[j].1,
    decreases j - i,
{
    assert(ws[i].0 < ws[i + 1].0 && ws[i].1 < ws[i + 1].1);
    if i + 1 < j {
        lemma_windows_monotone(ws, i + 1, j);
    }
}

proof fn lemma_fragments_bounds(path: Seq<char>, text: Seq<char>, max: nat, overlap: nat)
    ensures
        ({
            let lines = split_lines(text);
            let fr = window_fragments(path, text, max, overlap);
            forall|f: int|
                0 <= f < fr.len() ==> 1 <= (#[trigger] fr[f]).start_line <= fr[f].end_line <= lines.len() && !is_blank_seq(
                    range_text(lines, fr[f].start_line - 1, fr[f].end_line as int),
                )
        }),
{
    let lines = split_lines(text);
    let n = lines.len() as int;
    let ov = overlap_lines(overlap);
    let ws = windows(lines, n, 0, max as int, ov);
    let fr = window_fragments(path, text, max, overlap);
    lemma_pieces_kept(path, lines, ws, ":block:"@, ChunkType::Block, 0);
    assert(ws.subrange(0, ws.len() as int) =~= ws);
    let ks = kept_windows(lines, ws, 0);
    if n == 0 {
        assert(ws.len() == 0);
        return;
    }
    lemma_windows_cover(lines, n, 0, max as int, ov);
    assert forall|f: int| 0 <= f < fr.len() implies 1 <= (#[trigger] fr[f]).start_line <= fr[f].end_line <= lines.len()
        && !is_blank_seq(range_text(lines, fr[f].start_line - 1, fr[f].end_line as int)) by {
        assert(fr[f] == piece_fragment(path, lines, ws[ks[f]].0, ws[ks[f]].1, ":block:"@, ChunkType::Block));
    }
}

proof fn lemma_fragments_advance(path: Seq<char>, text: Seq<char>, max: nat, overlap: nat)
    ensures
        ({
            let fr = window_fragments(path, text, max, overlap);
            let ov = overlap_lines(overlap);
            forall|f: int|
                0 <= f < fr.len() - 1 ==> (#[trigger] fr[f]).end_line < fr[f + 1].end_line && fr[f + 1].start_line + ov
                    >= fr[f].end_line + 1
        }),
{
    let lines = split_lines(text);
    let n = lines.len() as int;
    let ov = overlap_lines(overlap);
    let ws = windows(lines, n, 0, max as int, ov);
    let fr = window_fragments(path, text, max, overlap);
    lemma_pieces_kept(path, lines, ws, ":block:"@, ChunkType::Block, 0);
    assert(ws.subrange(0, ws.len() as int) =~= ws);
    let ks = kept_windows(lines, ws, 0);
    if n == 0 {
        assert(ws.len() == 0);
        return;
    }
    lemma_windows_cover(lines, n, 0, max as int, ov);
    assert forall|f: int| 0 <= f < fr.len() - 1 implies (#[trigger] fr[f]).end_line < fr[f + 1].end_line && fr[f + 1].start_line
        + ov >= fr[f].end_line + 1 by {
        let a = ks[f];
        let b = ks[f + 1];
        assert(a < b);
        assert(fr[f] == piece_fragment(path, lines, ws[a].0, ws[a].1, ":block:"@, ChunkType::Block));
        assert(fr[f + 1] == piece_fragment(path, lines, ws[b].0, ws[b].1, ":block:"@, ChunkType::Block));
        lemma_windows_monotone(ws, a, b);
        if a + 1 < b {
            lemma_windows_monotone(ws, a + 1, b);
        }
        assert(ws[a].1 - ws[a + 1].0 <= ov);
    }
}

proof fn lemma_fragments_gaps(path: Seq<char>, text: Seq<char>, max: nat, overlap: nat)
    ensures
        ({
            let lines = split_lines(text);
            let fr = window_fragments(path, text, max, overlap);
            forall|f: int, k: int|
                0 <= f < fr.len() - 1 && (#[trigger] fr[f]).end_line <= k < fr[f + 1].start_line - 1 ==> is_blank_seq(
                    #[trigger] lines[k],
                )
        }),
{
    let lines = split_lines(text);
    let n = lines.len() as int;
    let ov = overlap_lines(overlap);
    let ws = windows(lines, n, 0, max as int, ov);
    let fr = window_fragments(path, text, max, overlap);
    lemma_pieces_kept(path, lines, ws, ":block:"@, ChunkType::Block, 0);
    assert(ws.subrange(0, ws.len() as int) =~= ws);
    let ks = kept_windows(lines, ws, 0);
    if n == 0 {
        assert(ws.len() == 0);
        return;
    }
    lemma_windows_cover(lines, n, 0, max as int, ov);
    assert forall|f: int, k: int| 0 <= f < fr.len() - 1 && (#[trigger] fr[f]).end_line <= k < fr[f + 1].start_line - 1 implies is_blank_seq(
        #[trigger] lines[k],
    ) by {
        let a = ks[f];
        let b = ks[f + 1];
        assert(fr[f] == piece_fragment(path, lines, ws[a].0, ws[a].1, ":block:"@, ChunkType::Block));
        assert(fr[f + 1] == piece_fragment(path, lines, ws[b].0, ws[b].1, ":block:"@, ChunkType::Block));
        lemma_window_containing(ws, k, 0, n);
        let w = choose|w: int| 0 <= w < ws.len() && (#[trigger] ws[w]).0 <= k < ws[w].1;
        if w <= a {
            if w < a {
                lemma_windows_monotone(ws, w, a);
            }
        } else if w >= b {
            if w > b {
                lemma_windows_monotone(ws, b, w);
            }
        } else {
            assert(is_blank_seq(range_text(lines, ws[w].0, ws[w].1)));
            lemma_range_blank(lines, ws[w].0, ws[w].1);
        }
    }
}

/// Consecutive window fragments of a file: each lies within the file and
/// holds a non-blank excerpt; each ends after the one before, starts at most
/// `overlap / 80` lines before the end of the one before, and every line
/// between the two is blank.
pub proof fn lemma_window_fragments_order(path: Seq<char>, text: Seq<char>, max: nat, overlap: nat)
    ensures
        ({
            let lines = split_lines(text);
            let fr = window_fragments(path, text, max, overlap);
            let ov = overlap_lines(overlap);
            &&& forall|f: int|
                0 <= f < fr.len() ==> 1 <= (#[trigger] fr[f]).start_line <= fr[f].end_line <= lines.len() && !is_blank_seq(
                    range_text(lines, fr[f].start_line - 1, fr[f].end_line as int),
                )
            &&& forall|f: int|
                0 <= f < fr.len() - 1 ==> (#[trigger] fr[f]).end_line < fr[f + 1].end_line && fr[f + 1].start_line + ov
                    >= fr[f].end_line + 1
            &&& forall|f: int, k: int|
                0 <= f < fr.len() - 1 && (#[trigger] fr[f]).end_line <= k < fr[f + 1].start_line - 1 ==> is_blank_seq(
                    #[trigger] lines[k],
                )
        }),
{
    lemma_fragments_bounds(path, text, max, overlap);
    lemma_fragments_advance(path, text, max, overlap);
    lemma_fragments_gaps(path, text, max, overlap);
}

/// A file where no symbol is a function, method, class or struct is chunked
/// by windows alone.
pub proof fn lemma_no_symbols_window_fallback(
    path: Seq<char>,
    text: Seq<char>,
    syms: Seq<Symbol>,
    max: nat,
    overlap: nat,
)
    requires
        forall|i: int| 0 <= i < syms.len() ==> !qualifies(#[trigger] syms[i].kind),
    ensures
        symbol_chunking(path, text, syms, max, overlap) == window_fragments(path, text, max, overlap),
{
    lemma_unqualified_give_nothing(path, split_lines(text), syms, max, overlap);
}

proof fn lemma_unqualified_give_nothing(
    path: Seq<char>,
    lines: Seq<Seq<char>>,
    syms: Seq<Symbol>,
    max: nat,
    overlap: nat,
)
    requires
        forall|i: int| 0 <= i < syms.len() ==> !qualifies(#[trigger] syms[i].kind),
    ensures
        all_symbol_fragments(path, lines, syms, max, overlap).len() == 0,
    decreases syms.len(),
{
    if syms.len() > 0 {
        let init = syms.drop_last();
        assert forall|i: int| 0 <= i < init.len() implies !qualifies(#[trigger] init[i].kind) by {
            assert(init[i] == syms[i]);
        }
        lemma_unqualified_give_nothing(path, lines, init, max, overlap);
        assert(!qualifies(syms[syms.len() - 1].kind));
    }
}

/// Two function symbols whose line ranges lie in the file, whose excerpts are
/// not blank and fit the budget, give exactly two fragments, in order, each
/// holding its function's text under the function's own line range.
pub proof fn lemma_two_function_symbols(
    path: Seq<char>,
    text: Seq<char>,
    a: Symbol,
    b: Symbol,
    max: nat,
    overlap: nat,
)
    requires
        a.kind == SymbolKind::Function,
        b.kind == SymbolKind::Function,
        1 <= a.line_range.start <= a.line_range.end <= split_lines(text).len(),
        1 <= b.line_range.start <= b.line_range.end <= split_lines(text).len(),
        !is_blank_seq(range_text(split_lines(text), a.line_range.start - 1, a.line_range.end as int)),
        !is_blank_seq(range_text(split_lines(text), b.line_range.start - 1, b.line_range.end as int)),
        range_text(split_lines(text), a.line_range.start - 1, a.line_range.end as int).len() <= max,
        range_text(split_lines(text), b.line_range.start - 1, b.line_range.end as int).len() <= max,
    ensures
        ({
            let fs = symbol_chunking(path, text, seq![a, b], max, overlap);
            let lines = split_lines(text);
            &&& fs.len() == 2
            &&& fs[0] == symbol_fragments(path, lines, a, max, overlap)[0]
            &&& fs[1] == symbol_fragments(path, lines, b, max, overlap)[0]
            &&& fs[0].start_line == a.line_range.start && fs[0].end_line == a.line_range.end
            &&& fs[1].start_line == b.line_range.start && fs[1].end_line == b.line_range.end
            &&& fs[0].content == symbol_header(path, a.name@, a.kind, a.line_range.start as nat, a.line_range.end as nat)
                + range_text(lines, a.line_range.start - 1, a.line_range.end as int)
            &&& fs[1].content == symbol_header(path, b.name@, b.kind, b.line_range.start as nat, b.line_range.end as nat)
                + range_text(lines, b.line_range.start - 1, b.line_range.end as int)
            &&& fs[0].chunk_type == ChunkType::Function && fs[1].chunk_type == ChunkType::Function
        }),
{
    let lines = split_lines(text);
    let syms = seq![a, b];
    assert(syms.drop_last() =~= seq![a]);
    assert(seq![a].drop_last() =~= Seq::<Symbol>::empty());
    let fa = symbol_fragments(path, lines, a, max, overlap);
    let fb = symbol_fragments(path, lines, b, max, overlap);
    assert(fa.len() == 1);
    assert(fb.len() == 1);
    assert(seq![a].last() == a);
    assert(syms.last() == b);
    assert(all_symbol_fragments(path, lines, Seq::<Symbol>::empty(), max, overlap) == Seq::<FragmentModel>::empty());
    assert(all_symbol_fragments(path, lines, seq![a], max, overlap) == Seq::<FragmentModel>::empty() + fa);
    assert(Seq::<FragmentModel>::empty() + fa =~= fa);
    assert(all_symbol_fragments(path, lines, syms, max, overlap) == fa + fb);
}

pub fn chunk_type_for(kind: SymbolKind) -> (r: ChunkType)
    ensures
        r == chunk_type_of(kind),
{
    match kind {
        SymbolKind::Function => ChunkType::Function,
        SymbolKind::Method => ChunkType::Method,
        SymbolKind::Class | SymbolKind::Struct => ChunkType::Class,
        SymbolKind::Module => ChunkType::Module,
        _ => ChunkType::Block,
    }
}

fn push_str(v: &mut Vec<char>, s: &str)
    ensures
        final(v)@ == old(v)@ + s@,
{
    let cs = chars_of(s);
    push_all(v, &cs);
}

fn push_all(v: &mut Vec<char>, s: &Vec<char>)
    ensures
        final(v)@ == old(v)@ + s@,
{
    let ghost before = v@;
    let mut i: usize = 0;
    while i < s.len()
        invariant
            i <= s@.len(),
            v@ == before + s@.take(i as int),
        decreases s@.len() - i,
    {
        v.push(s[i]);
        i = i + 1;
        assert(v@ =~= before + s@.take(i as int));
    }
    assert(s@.take(s@.len() as int) =~= s@);
}

/// Splits text into fragments.
pub struct Chunker {
    max_chars: usize,
    overlap_chars: usize,
}

impl Chunker {
    /// The size budget of a fragment, in characters.
    pub closed spec fn budget(&self) -> nat {
        self.max_chars as nat
    }

    /// The overlap between windows, in characters.
    pub closed spec fn overlap(&self) -> nat {
        self.overlap_chars as nat
    }

    pub fn new(max_chars: usize, overlap_chars: usize) -> (r: Chunker)
        ensures
            r.budget() == max_chars,
            r.overlap() == overlap_chars,
    {
        Chunker { max_chars, overlap_chars }
    }

    /// A chunker sized in tokens, at four characters a token.
    pub fn from_tokens(max_tokens: usize, overlap_tokens: usize) -> (r: Chunker)
        requires
            max_tokens * 4 <= usize::MAX,
            overlap_tokens * 4 <= usize::MAX,
        ensures
            r.budget() == max_tokens * 4,
            r.overlap() == overlap_tokens * 4,
    {
        Chunker::new(max_tokens * 4, overlap_tokens * 4)
    }

    fn window_end_exec(&self, lines: &Vec<Vec<char>>, hi: usize, start: usize) -> (end: usize)
        requires
            start < hi <= lines@.len(),
        ensures
            end == window_end(views(lines@), hi as int, start as int, self.budget() as int),
            start < end <= hi,
    {
        let ghost l = views(lines@);
        let ghost max = self.budget() as int;
        proof {
            lemma_fill_end_bounds(l, hi as int, start as int, start as int, 0, max);
        }
        let mut end = start;
        let mut acc: usize = 0;
        loop
            invariant
                start <= end <= hi <= lines@.len(),
                l == views(lines@),
                max == self.budget() as int,
                end == start ==> acc == 0,
                window_end(l, hi as int, start as int, max) == fill_end(l, hi as int, start as int, end as int, acc as int, max),
                start < window_end(l, hi as int, start as int, max) <= hi,
            decreases hi - end,
        {
            if end >= hi {
                return end;
            }
            let len = lines[end].len();
            assert(len == l[end as int].len());
            if end == start {
                acc = len;
                end = end + 1;
            } else if len < self.max_chars && acc <= self.max_chars - 1 - len {
                acc = acc + 1 + len;
                end = end + 1;
            } else {
                return end;
            }
        }
    }

    fn make_piece(
        path: &Vec<char>,
        lines: &Vec<Vec<char>>,
        s: usize,
        e: usize,
        text: &Vec<char>,
        tag: &str,
        t: ChunkType,
    ) -> (c: ChunkInfo)
        requires
            s < e <= lines@.len(),
            text@ == range_text(views(lines@), s as int, e as int),
        ensures
            c@ == piece_fragment(path@, views(lines@), s as int, e as int, tag@, t),
    {
        let first = decimal_chars((s + 1) as u64);
        let last = decimal_chars(e as u64);
        let mut id = path.clone();
        assert(id@ =~= path@);
        push_str(&mut id, tag);
        push_all(&mut id, &first);
        let mut content = chars_of("File: ");
        push_all(&mut content, path);
        push_str(&mut content, "\nLines: ");
        push_all(&mut content, &first);
        push_str(&mut content, "-");
        push_all(&mut content, &last);
        push_str(&mut content, "\n\n");
        push_all(&mut content, text);
        let text_string = string_of(text.as_slice());
        ChunkInfo {
            id: string_of(id.as_slice()),
            file_path: string_of(path.as_slice()),
            start_line: s + 1,
            end_line: e,
            content: string_of(content.as_slice()),
            hash: hash_content(text_string.as_str()),
            chunk_type: t,
        }
    }

    /// Window fragments over line indices `lo..hi`.
    fn range_pieces(
        &self,
        path: &Vec<char>,
        lines: &Vec<Vec<char>>,
        lo: usize,
        hi: usize,
        tag: &str,
        t: ChunkType,
    ) -> (r: Vec<ChunkInfo>)
        requires
            lo <= hi <= lines@.len(),
        ensures
            fragment_views(r@) == pieces(
                path@,
                views(lines@),
                windows(views(lines@), hi as int, lo as int, self.budget() as int, overlap_lines(self.overlap())),
                tag@,
                t,
            ),
    {
        let ghost l = views(lines@);
        let ghost max = self.budget() as int;
        let ov = self.overlap_chars / ASSUMED_LINE_CHARS;
        let ghost total = pieces(path@, l, windows(l, hi as int, lo as int, max, ov as nat), tag@, t);
        let mut out: Vec<ChunkInfo> = Vec::new();
        let mut start = lo;
        assert(fragment_views(out@) =~= Seq::<FragmentModel>::empty());
        loop
            invariant
                lo <= start <= hi <= lines@.len(),
                l == views(lines@),
                max == self.budget() as int,
                ov as nat == overlap_lines(self.overlap()),
                total == pieces(path@, l, windows(l, hi as int, lo as int, max, ov as nat), tag@, t),
                total == fragment_views(out@) + pieces(path@, l, windows(l, hi as int, start as int, max, ov as nat), tag@, t),
            decreases hi - start,
        {
            if start >= hi {
                assert(fragment_views(out@) + Seq::<FragmentModel>::empty() =~= fragment_views(out@));
                return out;
            }
            let end = self.window_end_exec(lines, hi, start);
            let text = join_range(lines, start, end);
            let ghost ws = windows(l, hi as int, start as int, max, ov as nat);
            let ghost nx = next_start(l, hi as int, max, start as int, end as int, ov as nat);
            let ghost rest = if end >= hi { Seq::<(int, int)>::empty() } else { windows(l, hi as int, nx, max, ov as nat) };
            assert(ws == seq![(start as int, end as int)] + rest);
            assert(ws.drop_first() =~= rest);
            let ghost before = fragment_views(out@);
            if !is_blank(&text) {
                let c = Chunker::make_piece(path, lines, start, end, &text, tag, t);
                out.push(c);
                assert(fragment_views(out@) =~= before.push(c@));
                assert(before + pieces(path@, l, ws, tag@, t) =~= fragment_views(out@) + pieces(path@, l, rest, tag@, t));
            }
            if end >= hi {
                assert(fragment_views(out@) + Seq::<FragmentModel>::empty() =~= fragment_views(out@));
                return out;
            }
            if end - start > ov {
                let back = end - ov;
                let back_end = self.window_end_exec(lines, hi, back);
                if back_end > end {
                    start = back;
                } else {
                    start = end;
                }
            } else {
                start = end;
            }
        }
    }

    /// Window chunking: whole lines gathered up to the budget, each window
    /// backed up by the overlap; blank windows are dropped.
    pub fn chunk_by_window(&self, file: &FileEntry, content: &str) -> (r: Vec<ChunkInfo>)
        ensures
            fragment_views(r@) == window_fragments(file.relative_path@, content@, self.budget(), self.overlap()),
    {
        let chars = chars_of(content);
        let lines = lines_of(&chars);
        let path = chars_of(file.relative_path.as_str());
        self.range_pieces(&path, &lines, 0, lines.len(), ":block:", ChunkType::Block)
    }

    fn symbol_pieces(&self, path: &Vec<char>, lines: &Vec<Vec<char>>, sym: &Symbol) -> (r: Vec<ChunkInfo>)
        ensures
            fragment_views(r@) == symbol_fragments(path@, views(lines@), *sym, self.budget(), self.overlap()),
    {
        let ghost l = views(lines@);
        let n = lines.len();
        let s = sym.line_range.start.saturating_sub(1);
        let e = if sym.line_range.end < n { sym.line_range.end } else { n };
        let kind = sym.kind;
        let qualifies_kind = match kind {
            SymbolKind::Function | SymbolKind::Method | SymbolKind::Class | SymbolKind::Struct => true,
            _ => false,
        };
        if !qualifies_kind || s >= n || s >= e {
            let r: Vec<ChunkInfo> = Vec::new();
            assert(fragment_views(r@) =~= Seq::<FragmentModel>::empty());
            return r;
        }
        let text = join_range(lines, s, e);
        if is_blank(&text) {
            let r: Vec<ChunkInfo> = Vec::new();
            assert(fragment_views(r@) =~= Seq::<FragmentModel>::empty());
            return r;
        }
        let t = chunk_type_for(kind);
        if text.len() > self.max_chars {
            return self.range_pieces(path, lines, s, e, ":split:", t);
        }
        let first = decimal_chars((s + 1) as u64);
        let last = decimal_chars(e as u64);
        let start_num = decimal_chars(sym.line_range.start as u64);
        let name = chars_of(sym.name.as_str());
        let mut id = path.clone();
        assert(id@ =~= path@);
        push_str(&mut id, ":");
        push_all(&mut id, &name);
        push_str(&mut id, ":");
        push_all(&mut id, &start_num);
        let mut content = chars_of("File: ");
        push_all(&mut content, path);
        push_str(&mut content, "\nSymbol: ");
        push_all(&mut content, &name);
        push_str(&mut content, " (");
        push_str(&mut content, kind.name());
        push_str(&mut content, ")\nLines: ");
        push_all(&mut content, &first);
        push_str(&mut content, "-");
        push_all(&mut content, &last);
        push_str(&mut content, "\n\n");
        push_all(&mut content, &text);
        let text_string = string_of(text.as_slice());
        let c = ChunkInfo {
            id: string_of(id.as_slice()),
            file_path: string_of(path.as_slice()),
            start_line: s + 1,
            end_line: e,
            content: string_of(content.as_slice()),
            hash: hash_content(text_string.as_str()),
            chunk_type: t,
        };
        let r = vec![c];
        assert(fragment_views(r@) =~= seq![c@]);
        r
    }

    /// Symbol chunking: one fragment per function, method, class or struct
    /// symbol (split into windows when over the budget); window chunking of
    /// the whole file when no symbol gives a fragment.
    pub fn chunk_by_symbols(&self, file: &FileEntry, content: &str, symbols: &[Symbol]) -> (r: Vec<ChunkInfo>)
        ensures
            fragment_views(r@) == symbol_chunking(file.relative_path@, content@, symbols@, self.budget(), self.overlap()),
    {
        let chars = chars_of(content);
        let lines = lines_of(&chars);
        let path = chars_of(file.relative_path.as_str());
        let ghost l = views(lines@);
        let mut out: Vec<ChunkInfo> = Vec::new();
        let mut i: usize = 0;
        assert(fragment_views(out@) =~= Seq::<FragmentModel>::empty());
        while i < symbols.len()
            invariant
                i <= symbols@.len(),
                l == views(lines@),
                l == split_lines(content@),
                path@ == file.relative_path@,
                fragment_views(out@) == all_symbol_fragments(path@, l, symbols@.take(i as int), self.budget(), self.overlap()),
            decreases symbols@.len() - i,
        {
            let mut more = self.symbol_pieces(&path, &lines, &symbols[i]);
            let ghost before = fragment_views(out@);
            let ghost added = fragment_views(more@);
            out.append(&mut more);
            assert(symbols@.take(i + 1).drop_last() =~= symbols@.take(i as int));
            assert(fragment_views(out@) =~= before + added);
            i = i + 1;
        }
        assert(symbols@.take(symbols@.len() as int) =~= symbols@);
        if out.len() == 0 {
            return self.range_pieces(&path, &lines, 0, lines.len(), ":block:", ChunkType::Block);
        }
        out
    }
}

impl Default for Chunker {
    fn default() -> (r: Chunker)
        ensures
            r.budget() == 2048,
            r.overlap() == 200,
    {
        Chunker::new(2048, 200)
    }
}

} // verus!
