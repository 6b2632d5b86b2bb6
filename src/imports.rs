//! The file dependency page: for each file, what it imports and what
//! imports it.

use vstd::prelude::*;
use crate::sorting::{sort_strings, sorted_texts, str_views};
use crate::store::{str_eq, string_views};
use crate::text::{chars_of, string_of};

verus! {

/// Imports between files: each file's imports, and for each import target
/// the files that import it.
#[derive(Debug, Clone)]
pub struct FileGraph {
    pub imports: Vec<(String, Vec<String>)>,
    pub importers: Vec<(String, Vec<String>)>,
}

pub open spec fn graph_keys(entries: Seq<(String, Vec<String>)>) -> Seq<Seq<char>> {
    entries.map_values(|e: (String, Vec<String>)| e.0@)
}

/// Index of the first entry for `key`, or -1.
pub open spec fn entry_pos(entries: Seq<(String, Vec<String>)>, key: Seq<char>) -> int
    decreases entries.len(),
{
    if entries.len() == 0 {
        -1
    } else {
        let p = entry_pos(entries.drop_last(), key);
        if p >= 0 {
            p
        } else if entries.last().0@ == key {
            entries.len() - 1
        } else {
            -1
        }
    }
}

proof fn lemma_entry_pos(entries: Seq<(String, Vec<String>)>, key: Seq<char>, i: int)
    requires
        0 <= i <= entries.len(),
        forall|j: int| 0 <= j < i ==> entries[j].0@ != key,
    ensures
        i < entries.len() && entries[i].0@ == key ==> entry_pos(entries, key) == i,
        i == entries.len() ==> entry_pos(entries, key) == -1,
    decreases entries.len(),
{
    if entries.len() > 0 {
        let init = entries.drop_last();
        if i < entries.len() {
            if i < init.len() {
                assert forall|j: int| 0 <= j < i implies init[j].0@ != key by {
                    assert(init[j] == entries[j]);
                }
                assert(init[i] == entries[i]);
                lemma_entry_pos(init, key, i);
            } else {
                assert forall|j: int| 0 <= j < init.len() implies init[j].0@ != key by {
                    assert(init[j] == entries[j]);
                }
                lemma_entry_pos(init, key, init.len() as int);
            }
        } else {
            assert forall|j: int| 0 <= j < init.len() implies init[j].0@ != key by {
                assert(init[j] == entries[j]);
            }
            lemma_entry_pos(init, key, init.len() as int);
        }
    }
}

/// Index of the first entry view for `key`, or -1.
pub open spec fn first_key(ev: Seq<(Seq<char>, Seq<Seq<char>>)>, key: Seq<char>) -> int
    decreases ev.len(),
{
    if ev.len() == 0 {
        -1
    } else {
        let p = first_key(ev.drop_last(), key);
        if p >= 0 {
            p
        } else if ev.last().0 == key {
            ev.len() - 1
        } else {
            -1
        }
    }
}

proof fn lemma_first_key(entries: Seq<(String, Vec<String>)>, key: Seq<char>)
    ensures
        first_key(entry_views(entries), key) == entry_pos(entries, key),
    decreases entries.len(),
{
    if entries.len() > 0 {
        lemma_first_key(entries.drop_last(), key);
        assert(entry_views(entries).drop_last() =~= entry_views(entries.drop_last()));
    }
}

fn find_entry(entries: &Vec<(String, Vec<String>)>, key: &str) -> (r: Option<usize>)
    ensures
        match r {
            Some(i) => i < entries@.len() && entries@[i as int].0@ == key@ && entry_pos(entries@, key@) == i,
            None => !graph_keys(entries@).contains(key@) && entry_pos(entries@, key@) == -1,
        },
{
    let mut i: usize = 0;
    while i < entries.len()
        invariant
            i <= entries@.len(),
            forall|j: int| 0 <= j < i ==> entries@[j].0@ != key@,
        decreases entries@.len() - i,
    {
        if str_eq(entries[i].0.as_str(), key) {
            proof {
                lemma_entry_pos(entries@, key@, i as int);
            }
            return Some(i);
        }
        i = i + 1;
    }
    assert forall|j: int| 0 <= j < graph_keys(entries@).len() implies graph_keys(entries@)[j] != key@ by {
        assert(graph_keys(entries@)[j] == entries@[j].0@);
    }
    proof {
        lemma_entry_pos(entries@, key@, i as int);
    }
    None
}

/// The entries as texts: each key with its list.
pub open spec fn entry_views(entries: Seq<(String, Vec<String>)>) -> Seq<(Seq<char>, Seq<Seq<char>>)> {
    entries.map_values(|e: (String, Vec<String>)| (e.0@, string_views(e.1@)))
}

/// Records `f` as an importer of `t`: appended to the first entry for `t`
/// unless it is listed there already, or in a new entry.
pub open spec fn add_importer(
    ev: Seq<(Seq<char>, Seq<Seq<char>>)>,
    p: int,
    t: Seq<char>,
    f: Seq<char>,
) -> Seq<(Seq<char>, Seq<Seq<char>>)> {
    if p >= 0 {
        ev.update(p, (t, if ev[p].1.contains(f) { ev[p].1 } else { ev[p].1.push(f) }))
    } else {
        ev.push((t, seq![f]))
    }
}

impl FileGraph {
    pub fn new() -> (r: FileGraph)
        ensures
            r.imports@.len() == 0,
            r.importers@.len() == 0,
    {
        FileGraph { imports: Vec::new(), importers: Vec::new() }
    }

    /// Records the imports of `file`, replacing earlier ones, and `file` as
    /// an importer of each target.
    pub fn add_file(&mut self, file: &str, imports: Vec<String>)
        ensures
            exists|i: int|
                0 <= i < final(self).imports@.len() && (#[trigger] final(self).imports@[i]).0@ == file@
                    && final(self).imports@[i].1 == imports,
            graph_keys(old(self).imports@).contains(file@) ==> final(self).imports@.len() == old(self).imports@.len(),
            !graph_keys(old(self).imports@).contains(file@) ==> final(self).imports@.len() == old(self).imports@.len() + 1,
            exists|steps: Seq<Seq<(Seq<char>, Seq<Seq<char>>)>>|
                #![trigger steps.len()]
                {
                    &&& steps.len() == imports@.len() + 1
                    &&& steps[0] == entry_views(old(self).importers@)
                    &&& steps[imports@.len() as int] == entry_views(final(self).importers@)
                    &&& forall|t: int|
                        0 <= t < imports@.len() ==> #[trigger] steps[t + 1] == add_importer(
                            steps[t],
                            first_key(steps[t], imports@[t]@),
                            imports@[t]@,
                            file@,
                        )
                }
    {
        let ghost given = imports;
        let ghost before = self.imports@;
        let ghost mut steps: Seq<Seq<(Seq<char>, Seq<Seq<char>>)>> = seq![entry_views(self.importers@)];
        let mut t: usize = 0;
        while t < imports.len()
            invariant
                t <= imports@.len(),
                self.imports@ == before,
                steps.len() == t + 1,
                steps[t as int] == entry_views(self.importers@),
                steps[0] == entry_views(old(self).importers@),
                forall|q: int|
                    0 <= q < t ==> #[trigger] steps[q + 1] == add_importer(steps[q], first_key(steps[q], imports@[q]@), imports@[q]@, file@),
            decreases imports@.len() - t,
        {
            let target = imports[t].as_str();
            let name = string_of(chars_of(file).as_slice());
            let ghost ev = entry_views(self.importers@);
            proof {
                lemma_first_key(self.importers@, target@);
            }
            match find_entry(&self.importers, target) {
                Some(i) => {
                    let ghost old_entries = self.importers@;
                    let (key, mut list) = self.importers.remove(i);
                    let ghost old_list = string_views(list@);
                    let mut present = false;
                    let mut j: usize = 0;
                    while j < list.len()
                        invariant
                            j <= list@.len(),
                            present == exists|w: int| 0 <= w < j && (#[trigger] list@[w])@ == file@,
                        decreases list@.len() - j,
                    {
                        if str_eq(list[j].as_str(), file) {
                            present = true;
                        }
                        j = j + 1;
                    }
                    proof {
                        if present {
                            let w = choose|w: int| 0 <= w < j && (#[trigger] list@[w])@ == file@;
                            assert(old_list[w] == file@);
                        } else {
                            assert forall|w: int| 0 <= w < old_list.len() implies old_list[w] != file@ by {
                                assert(old_list[w] == list@[w]@);
                            }
                        }
                    }
                    if !present {
                        let ghost pl = string_views(list@);
                        list.push(name);
                        assert(string_views(list@) =~= pl.push(file@));
                    }
                    let ghost new_list = string_views(list@);
                    self.importers.insert(i, (key, list));
                    proof {
                        assert(self.importers@ =~= old_entries.update(i as int, (key, list)));
                        assert(ev[i as int] == (old_entries[i as int].0@, old_list));
                        assert(entry_views(self.importers@) =~= add_importer(ev, i as int, target@, file@));
                    }
                },
                None => {
                    let key = string_of(chars_of(target).as_slice());
                    let ghost old_entries = self.importers@;
                    let v = vec![name];
                    assert(string_views(v@) =~= seq![file@]);
                    self.importers.push((key, v));
                    proof {
                        assert(entry_views(self.importers@) =~= add_importer(ev, -1, target@, file@));
                    }
                },
            }
            proof {
                steps = steps.push(entry_views(self.importers@));
            }
            t = t + 1;
        }
        let key = string_of(chars_of(file).as_slice());
        match find_entry(&self.imports, file) {
            Some(i) => {
                assert(graph_keys(before)[i as int] == file@);
                self.imports.set(i, (key, imports));
                assert(self.imports@[i as int].0@ == file@ && self.imports@[i as int].1 == given);
            },
            None => {
                self.imports.push((key, imports));
                assert(self.imports@[self.imports@.len() - 1].0@ == file@);
            },
        }
    }
}

fn push_str(v: &mut Vec<char>, s: &str)
    ensures
        final(v)@ == old(v)@ + s@,
{
    let cs = chars_of(s);
    let ghost before = v@;
    let mut i: usize = 0;
    while i < cs.len()
        invariant
            i <= cs@.len(),
            v@ == before + cs@.take(i as int),
        decreases cs@.len() - i,
    {
        v.push(cs[i]);
        i = i + 1;
        assert(v@ =~= before + cs@.take(i as int));
    }
    assert(cs@.take(i as int) =~= cs@);
}

/// Items separated by `, `.
pub open spec fn joined(items: Seq<Seq<char>>) -> Seq<char>
    decreases items.len(),
{
    if items.len() == 0 {
        Seq::empty()
    } else if items.len() == 1 {
        items[0]
    } else {
        joined(items.drop_last()) + ", "@ + items.last()
    }
}

/// Appends the items separated by `, `.
fn push_joined(v: &mut Vec<char>, items: &Vec<String>)
    ensures
        final(v)@ == old(v)@ + joined(string_views(items@)),
{
    let ghost start = v@;
    let mut i: usize = 0;
    assert(string_views(items@).take(0) =~= Seq::<Seq<char>>::empty());
    assert(start + joined(Seq::<Seq<char>>::empty()) =~= start);
    while i < items.len()
        invariant
            i <= items@.len(),
            v@ == start + joined(string_views(items@).take(i as int)),
        decreases items@.len() - i,
    {
        let ghost t = string_views(items@).take(i + 1);
        assert(t.drop_last() =~= string_views(items@).take(i as int));
        assert(t.last() == items@[i as int]@);
        if i > 0 {
            push_str(v, ", ");
        }
        push_str(v, items[i].as_str());
        proof {
            if i == 0 {
                assert(t =~= seq![items@[0]@]);
                assert(joined(string_views(items@).take(0)) =~= Seq::<char>::empty());
                assert(v@ =~= start + joined(t));
            } else {
                assert(v@ =~= start + joined(t));
            }
        }
        i = i + 1;
    }
    assert(string_views(items@).take(i as int) =~= string_views(items@));
}

pub open spec fn imports_header() -> Seq<char> {
    "# imports.md\n\n"@ + "File dependency graph showing imports and importers.\n\n"@
}

/// The sorted list stored for `key`, or nothing.
pub open spec fn entry_list(entries: Seq<(String, Vec<String>)>, key: Seq<char>) -> Seq<Seq<char>> {
    let p = entry_pos(entries, key);
    if p >= 0 {
        sorted_texts(string_views(entries[p].1@))
    } else {
        Seq::empty()
    }
}

/// The section of one file; nothing when it has neither imports nor importers.
pub open spec fn file_section(graph: FileGraph, f: Seq<char>) -> Seq<char> {
    let imps = entry_list(graph.imports@, f);
    let imprs = entry_list(graph.importers@, f);
    if imps.len() == 0 && imprs.len() == 0 {
        Seq::empty()
    } else {
        "## `"@ + f + "`\n\n"@ + (if imps.len() > 0 {
            "**Imports:** "@ + joined(imps) + "\n\n"@
        } else {
            "**Imports:** (none)\n\n"@
        }) + (if imprs.len() > 0 {
            "**Imported by:** "@ + joined(imprs) + "\n\n"@
        } else {
            "**Imported by:** (none - entry point)\n\n"@
        }) + "---\n\n"@
    }
}

pub open spec fn file_sections(graph: FileGraph, files: Seq<Seq<char>>) -> Seq<char>
    decreases files.len(),
{
    if files.len() == 0 {
        Seq::empty()
    } else {
        file_sections(graph, files.drop_last()) + file_section(graph, files.last())
    }
}

/// The whole page.
pub open spec fn imports_page(graph: FileGraph) -> Seq<char> {
    if graph.imports@.len() == 0 {
        imports_header() + "*No import relationships detected.*\n"@
    } else {
        imports_header() + file_sections(graph, sorted_texts(graph_keys(graph.imports@)))
    }
}

/// Builds the section of one file from its sorted lists.
fn push_section(out: &mut Vec<char>, file: &str, imports: &Vec<String>, importers: &Vec<String>)
    ensures
        final(out)@ == old(out)@ + (if imports@.len() == 0 && importers@.len() == 0 {
            Seq::<char>::empty()
        } else {
            "## `"@ + file@ + "`\n\n"@ + (if imports@.len() > 0 {
                "**Imports:** "@ + joined(string_views(imports@)) + "\n\n"@
            } else {
                "**Imports:** (none)\n\n"@
            }) + (if importers@.len() > 0 {
                "**Imported by:** "@ + joined(string_views(importers@)) + "\n\n"@
            } else {
                "**Imported by:** (none - entry point)\n\n"@
            }) + "---\n\n"@
        }),
{
    let ghost start = out@;
    if imports.len() == 0 && importers.len() == 0 {
        assert(out@ =~= start + Seq::<char>::empty());
        return;
    }
    push_str(out, "## `");
    push_str(out, file);
    push_str(out, "`\n\n");
    let ghost head = out@;
    if imports.len() > 0 {
        push_str(out, "**Imports:** ");
        push_joined(out, imports);
        push_str(out, "\n\n");
    } else {
        push_str(out, "**Imports:** (none)\n\n");
    }
    let ghost mid = out@;
    if importers.len() > 0 {
        push_str(out, "**Imported by:** ");
        push_joined(out, importers);
        push_str(out, "\n\n");
    } else {
        push_str(out, "**Imported by:** (none - entry point)\n\n");
    }
    push_str(out, "---\n\n");
    assert(out@ =~= start + ("## `"@ + file@ + "`\n\n"@ + (if imports@.len() > 0 {
        "**Imports:** "@ + joined(string_views(imports@)) + "\n\n"@
    } else {
        "**Imports:** (none)\n\n"@
    }) + (if importers@.len() > 0 {
        "**Imported by:** "@ + joined(string_views(importers@)) + "\n\n"@
    } else {
        "**Imported by:** (none - entry point)\n\n"@
    }) + "---\n\n"@));
}

/// The sorted list stored for `key`.
fn sorted_entry(entries: &Vec<(String, Vec<String>)>, key: &str) -> (r: Vec<String>)
    ensures
        string_views(r@) == entry_list(entries@, key@),
{
    match find_entry(entries, key) {
        Some(k) => {
            let v = sort_strings(&entries[k].1);
            assert(string_views(v@) =~= str_views(v@));
            assert(string_views(entries@[k as int].1@) =~= str_views(entries@[k as int].1@));
            v
        },
        None => {
            let v: Vec<String> = Vec::new();
            assert(string_views(v@) =~= Seq::<Seq<char>>::empty());
            v
        },
    }
}

/// The imports page: a section per file with imports or importers, files
/// in ascending order, each list sorted and joined by `, `.
pub fn generate_imports(graph: &FileGraph) -> (r: String)
    ensures
        r@ == imports_page(*graph),
{
    let mut out = chars_of("# imports.md\n\n");
    push_str(&mut out, "File dependency graph showing imports and importers.\n\n");
    let ghost header = out@;
    assert(header == imports_header());
    if graph.imports.len() == 0 {
        push_str(&mut out, "*No import relationships detected.*\n");
        return string_of(out.as_slice());
    }
    let mut keys: Vec<String> = Vec::new();
    let mut i: usize = 0;
    while i < graph.imports.len()
        invariant
            i <= graph.imports@.len(),
            str_views(keys@) == graph_keys(graph.imports@.take(i as int)),
        decreases graph.imports@.len() - i,
    {
        let k = graph.imports[i].0.clone();
        let ghost prev = str_views(keys@);
        keys.push(k);
        assert(str_views(keys@) =~= prev.push(k@));
        assert(graph_keys(graph.imports@.take(i + 1)) =~= graph_keys(graph.imports@.take(i as int)).push(graph.imports@[i as int].0@));
        i = i + 1;
    }
    assert(graph.imports@.take(i as int) =~= graph.imports@);
    let files = sort_strings(&keys);
    let ghost sorted = str_views(files@);
    assert(sorted == sorted_texts(graph_keys(graph.imports@)));
    let mut f: usize = 0;
    assert(sorted.take(0) =~= Seq::<Seq<char>>::empty());
    assert(header + file_sections(*graph, sorted.take(0)) =~= header);
    while f < files.len()
        invariant
            f <= files@.len(),
            sorted == str_views(files@),
            header == imports_header(),
            out@ == header + file_sections(*graph, sorted.take(f as int)),
        decreases files@.len() - f,
    {
        let file = files[f].as_str();
        let imports = sorted_entry(&graph.imports, file);
        let importers = sorted_entry(&graph.importers, file);
        let ghost before = out@;
        push_section(&mut out, file, &imports, &importers);
        proof {
            let t = sorted.take(f + 1);
            assert(t.drop_last() =~= sorted.take(f as int));
            assert(t.last() == files@[f as int]@);
            assert(out@ =~= header + file_sections(*graph, t));
        }
        f = f + 1;
    }
    assert(sorted.take(f as int) =~= sorted);
    string_of(out.as_slice())
}

} // verus!
