//! The in-memory index: fragments keyed by identity and per-file documents,
//! each kept in insertion order with unique keys.

use vstd::prelude::*;
use crate::chunker::ChunkType;

verus! {

/// A stored fragment with its embedding.
#[derive(Debug)]
pub struct Chunk {
    pub id: String,
    pub file_path: String,
    pub start_line: usize,
    pub end_line: usize,
    pub content: String,
    /// The embedding, as the bit patterns of its IEEE-754 single-precision
    /// components; the index only carries it.
    pub vector: Vec<u32>,
    pub hash: String,
    /// Milliseconds since the Unix epoch.
    pub updated_at: i64,
    pub chunk_type: ChunkType,
}

pub struct ChunkModel {
    pub id: Seq<char>,
    pub file_path: Seq<char>,
    pub start_line: nat,
    pub end_line: nat,
    pub content: Seq<char>,
    pub vector: Seq<u32>,
    pub hash: Seq<char>,
    pub updated_at: int,
    pub chunk_type: ChunkType,
}

impl View for Chunk {
    type V = ChunkModel;

    open spec fn view(&self) -> ChunkModel {
        ChunkModel {
            id: self.id@,
            file_path: self.file_path@,
            start_line: self.start_line as nat,
            end_line: self.end_line as nat,
            content: self.content@,
            vector: self.vector@,
            hash: self.hash@,
            updated_at: self.updated_at as int,
            chunk_type: self.chunk_type,
        }
    }
}

pub fn copy_words(v: &Vec<u32>) -> (r: Vec<u32>)
    ensures
        r@ == v@,
{
    let mut r: Vec<u32> = Vec::new();
    let mut i: usize = 0;
    while i < v.len()
        invariant
            i <= v@.len(),
            r@ == v@.take(i as int),
        decreases v@.len() - i,
    {
        r.push(v[i]);
        i = i + 1;
        assert(r@ =~= v@.take(i as int));
    }
    assert(v@.take(v@.len() as int) =~= v@);
    r
}

pub fn copy_strings(v: &Vec<String>) -> (r: Vec<String>)
    ensures
        string_views(r@) == string_views(v@),
{
    let mut r: Vec<String> = Vec::new();
    let mut i: usize = 0;
    while i < v.len()
        invariant
            i <= v@.len(),
            string_views(r@) == string_views(v@.take(i as int)),
        decreases v@.len() - i,
    {
        let x = v[i].clone();
        assert(x@ == v@[i as int]@);
        let ghost prev = string_views(r@);
        r.push(x);
        assert(string_views(r@) =~= prev.push(x@));
        i = i + 1;
        assert(string_views(v@.take(i as int)) =~= string_views(v@.take(i - 1)).push(v@[i - 1]@));
    }
    assert(v@.take(v@.len() as int) =~= v@);
    r
}

pub open spec fn string_views(s: Seq<String>) -> Seq<Seq<char>> {
    s.map_values(|x: String| x@)
}

impl Chunk {
    /// A copy of this fragment.
    pub fn duplicate(&self) -> (r: Chunk)
        ensures
            r@ == self@,
    {
        Chunk {
            id: self.id.clone(),
            file_path: self.file_path.clone(),
            start_line: self.start_line,
            end_line: self.end_line,
            content: self.content.clone(),
            vector: copy_words(&self.vector),
            hash: self.hash.clone(),
            updated_at: self.updated_at,
            chunk_type: self.chunk_type,
        }
    }
}

/// Bookkeeping for one indexed file.
#[derive(Debug)]
pub struct Document {
    pub path: String,
    /// Content hash of the whole file when it was indexed.
    pub hash: String,
    /// Milliseconds since the Unix epoch.
    pub mod_time: i64,
    pub chunk_ids: Vec<String>,
}

pub struct DocumentModel {
    pub path: Seq<char>,
    pub hash: Seq<char>,
    pub mod_time: int,
    pub chunk_ids: Seq<Seq<char>>,
}

impl View for Document {
    type V = DocumentModel;

    open spec fn view(&self) -> DocumentModel {
        DocumentModel {
            path: self.path@,
            hash: self.hash@,
            mod_time: self.mod_time as int,
            chunk_ids: string_views(self.chunk_ids@),
        }
    }
}

impl Document {
    pub fn duplicate(&self) -> (r: Document)
        ensures
            r@ == self@,
    {
        Document {
            path: self.path.clone(),
            hash: self.hash.clone(),
            mod_time: self.mod_time,
            chunk_ids: copy_strings(&self.chunk_ids),
        }
    }
}

/// Index statistics that the in-memory state determines.
#[derive(Debug, Clone, Copy, PartialEq, Eq, Structural)]
pub struct IndexCounts {
    pub total_files: usize,
    pub total_chunks: usize,
    /// The latest `updated_at` of any fragment.
    pub last_updated: Option<i64>,
}

pub open spec fn chunk_views(s: Seq<Chunk>) -> Seq<ChunkModel> {
    s.map_values(|c: Chunk| c@)
}

pub open spec fn doc_views(s: Seq<Document>) -> Seq<DocumentModel> {
    s.map_values(|d: Document| d@)
}

/// Position of the fragment with identity `id`, or -1.
pub open spec fn chunk_pos(s: Seq<ChunkModel>, id: Seq<char>) -> int
    decreases s.len(),
{
    if s.len() == 0 {
        -1
    } else if s.last().id == id {
        s.len() - 1
    } else {
        chunk_pos(s.drop_last(), id)
    }
}

/// Position of the document for `path`, or -1.
pub open spec fn doc_pos(s: Seq<DocumentModel>, path: Seq<char>) -> int
    decreases s.len(),
{
    if s.len() == 0 {
        -1
    } else if s.last().path == path {
        s.len() - 1
    } else {
        doc_pos(s.drop_last(), path)
    }
}

/// Insert or replace by identity.
pub open spec fn upsert_chunk(s: Seq<ChunkModel>, c: ChunkModel) -> Seq<ChunkModel> {
    let p = chunk_pos(s, c.id);
    if p >= 0 {
        s.update(p, c)
    } else {
        s.push(c)
    }
}

/// Upserts in order: for a repeated identity the last one wins.
pub open spec fn upsert_chunks(s: Seq<ChunkModel>, cs: Seq<ChunkModel>) -> Seq<ChunkModel>
    decreases cs.len(),
{
    if cs.len() == 0 {
        s
    } else {
        upsert_chunk(upsert_chunks(s, cs.drop_last()), cs.last())
    }
}

pub open spec fn upsert_doc(s: Seq<DocumentModel>, d: DocumentModel) -> Seq<DocumentModel> {
    let p = doc_pos(s, d.path);
    if p >= 0 {
        s.update(p, d)
    } else {
        s.push(d)
    }
}

/// The fragments that do not belong to `path`, in order.
pub open spec fn chunks_without(s: Seq<ChunkModel>, path: Seq<char>) -> Seq<ChunkModel>
    decreases s.len(),
{
    if s.len() == 0 {
        s
    } else if s.last().file_path == path {
        chunks_without(s.drop_last(), path)
    } else {
        chunks_without(s.drop_last(), path).push(s.last())
    }
}

/// The documents for other paths than `path`, in order.
pub open spec fn docs_without(s: Seq<DocumentModel>, path: Seq<char>) -> Seq<DocumentModel>
    decreases s.len(),
{
    if s.len() == 0 {
        s
    } else if s.last().path == path {
        docs_without(s.drop_last(), path)
    } else {
        docs_without(s.drop_last(), path).push(s.last())
    }
}

pub open spec fn unique_ids(s: Seq<ChunkModel>) -> bool {
    forall|i: int, j: int| 0 <= i < s.len() && 0 <= j < s.len() && i != j ==> s[i].id != s[j].id
}

pub open spec fn unique_paths(s: Seq<DocumentModel>) -> bool {
    forall|i: int, j: int| 0 <= i < s.len() && 0 <= j < s.len() && i != j ==> s[i].path != s[j].path
}

/// The most recent `updated_at` over the fragments, if any.
pub open spec fn latest_update(s: Seq<ChunkModel>) -> Option<int>
    decreases s.len(),
{
    if s.len() == 0 {
        None
    } else {
        match latest_update(s.drop_last()) {
            None => Some(s.last().updated_at),
            Some(t) => Some(if s.last().updated_at > t { s.last().updated_at } else { t }),
        }
    }
}

pub proof fn lemma_chunk_pos(s: Seq<ChunkModel>, id: Seq<char>)
    ensures
        -1 <= chunk_pos(s, id) < s.len(),
        chunk_pos(s, id) >= 0 ==> s[chunk_pos(s, id)].id == id,
        chunk_pos(s, id) < 0 ==> forall|i: int| 0 <= i < s.len() ==> s[i].id != id,
    decreases s.len(),
{
    if s.len() > 0 {
        lemma_chunk_pos(s.drop_last(), id);
        let p = chunk_pos(s, id);
        if p < 0 {
            assert forall|i: int| 0 <= i < s.len() implies s[i].id != id by {
                if i < s.len() - 1 {
                    assert(s[i] == s.drop_last()[i]);
                }
            }
        } else if p < s.len() - 1 {
            assert(s[p] == s.drop_last()[p]);
        }
    }
}

pub proof fn lemma_doc_pos(s: Seq<DocumentModel>, path: Seq<char>)
    ensures
        -1 <= doc_pos(s, path) < s.len(),
        doc_pos(s, path) >= 0 ==> s[doc_pos(s, path)].path == path,
        doc_pos(s, path) < 0 ==> forall|i: int| 0 <= i < s.len() ==> s[i].path != path,
    decreases s.len(),
{
    if s.len() > 0 {
        lemma_doc_pos(s.drop_last(), path);
        let p = doc_pos(s, path);
        if p < 0 {
            assert forall|i: int| 0 <= i < s.len() implies s[i].path != path by {
                if i < s.len() - 1 {
                    assert(s[i] == s.drop_last()[i]);
                }
            }
        } else if p < s.len() - 1 {
            assert(s[p] == s.drop_last()[p]);
        }
    }
}

pub proof fn lemma_upsert_unique(s: Seq<ChunkModel>, c: ChunkModel)
    requires
        unique_ids(s),
    ensures
        unique_ids(upsert_chunk(s, c)),
{
    lemma_chunk_pos(s, c.id);
}

pub proof fn lemma_upsert_doc_unique(s: Seq<DocumentModel>, d: DocumentModel)
    requires
        unique_paths(s),
    ensures
        unique_paths(upsert_doc(s, d)),
{
    lemma_doc_pos(s, d.path);
}

/// A fragment is in the result of removing `path` exactly when it was there
/// before and belongs to another file.
pub proof fn lemma_chunks_without(s: Seq<ChunkModel>, path: Seq<char>)
    ensures
        forall|x: ChunkModel| #[trigger] chunks_without(s, path).contains(x) <==> (s.contains(x) && x.file_path != path),
        unique_ids(s) ==> unique_ids(chunks_without(s, path)),
    decreases s.len(),
{
    if s.len() > 0 {
        let init = s.drop_last();
        lemma_chunks_without(init, path);
        let r = chunks_without(s, path);
        let ri = chunks_without(init, path);
        let last = s.last();
        assert(r == if last.file_path == path { ri } else { ri.push(last) });
        assert forall|x: ChunkModel| r.contains(x) implies (s.contains(x) && x.file_path != path) by {
            let m = choose|m: int| 0 <= m < r.len() && r[m] == x;
            if last.file_path != path && m == r.len() - 1 {
                assert(s[s.len() - 1] == x);
            } else {
                assert(ri[m] == x);
                assert(ri.contains(x));
                assert(init.contains(x));
                let k = choose|k: int| 0 <= k < init.len() && init[k] == x;
                assert(s[k] == x);
            }
        }
        assert forall|x: ChunkModel| (s.contains(x) && x.file_path != path) implies r.contains(x) by {
            let k = choose|k: int| 0 <= k < s.len() && s[k] == x;
            if k < s.len() - 1 {
                assert(init[k] == x);
                assert(init.contains(x));
                assert(ri.contains(x));
                let m = choose|m: int| 0 <= m < ri.len() && ri[m] == x;
                assert(r[m] == x);
            } else {
                assert(r[r.len() - 1] == x);
            }
        }
        if unique_ids(s) {
            assert(unique_ids(init)) by {
                assert forall|i: int, j: int| 0 <= i < init.len() && 0 <= j < init.len() && i != j implies init[i].id != init[j].id by {
                    assert(init[i] == s[i] && init[j] == s[j]);
                }
            }
            if last.file_path != path {
                assert forall|i: int, j: int| 0 <= i < r.len() && 0 <= j < r.len() && i != j implies r[i].id != r[j].id by {
                    if i == r.len() - 1 || j == r.len() - 1 {
                        let o = if i == r.len() - 1 { j } else { i };
                        assert(r[o] == ri[o]);
                        assert(ri.contains(r[o]));
                        assert(init.contains(r[o]));
                        let k = choose|k: int| 0 <= k < init.len() && init[k] == r[o];
                        assert(s[k] == r[o]);
                        assert(s[s.len() - 1] == last);
                    } else {
                        assert(r[i] == ri[i] && r[j] == ri[j]);
                    }
                }
            }
        }
    }
}

pub proof fn lemma_docs_without(s: Seq<DocumentModel>, path: Seq<char>)
    ensures
        forall|x: DocumentModel| #[trigger] docs_without(s, path).contains(x) <==> (s.contains(x) && x.path != path),
        unique_paths(s) ==> unique_paths(docs_without(s, path)),
    decreases s.len(),
{
    if s.len() > 0 {
        let init = s.drop_last();
        lemma_docs_without(init, path);
        let r = docs_without(s, path);
        let ri = docs_without(init, path);
        let last = s.last();
        assert(r == if last.path == path { ri } else { ri.push(last) });
        assert forall|x: DocumentModel| r.contains(x) implies (s.contains(x) && x.path != path) by {
            let m = choose|m: int| 0 <= m < r.len() && r[m] == x;
            if last.path != path && m == r.len() - 1 {
                assert(s[s.len() - 1] == x);
            } else {
                assert(ri[m] == x);
                assert(ri.contains(x));
                assert(init.contains(x));
                let k = choose|k: int| 0 <= k < init.len() && init[k] == x;
                assert(s[k] == x);
            }
        }
        assert forall|x: DocumentModel| (s.contains(x) && x.path != path) implies r.contains(x) by {
            let k = choose|k: int| 0 <= k < s.len() && s[k] == x;
            if k < s.len() - 1 {
                assert(init[k] == x);
                assert(init.contains(x));
                assert(ri.contains(x));
                let m = choose|m: int| 0 <= m < ri.len() && ri[m] == x;
                assert(r[m] == x);
            } else {
                assert(r[r.len() - 1] == x);
            }
        }
        if unique_paths(s) {
            assert(unique_paths(init)) by {
                assert forall|i: int, j: int| 0 <= i < init.len() && 0 <= j < init.len() && i != j implies init[i].path != init[j].path by {
                    assert(init[i] == s[i] && init[j] == s[j]);
                }
            }
            if last.path != path {
                assert forall|i: int, j: int| 0 <= i < r.len() && 0 <= j < r.len() && i != j implies r[i].path != r[j].path by {
                    if i == r.len() - 1 || j == r.len() - 1 {
                        let o = if i == r.len() - 1 { j } else { i };
                        assert(r[o] == ri[o]);
                        assert(ri.contains(r[o]));
                        assert(init.contains(r[o]));
                        let k = choose|k: int| 0 <= k < init.len() && init[k] == r[o];
                        assert(s[k] == r[o]);
                        assert(s[s.len() - 1] == last);
                    } else {
                        assert(r[i] == ri[i] && r[j] == ri[j]);
                    }
                }
            }
        }
    }
}

/// The whole in-memory index.
pub struct IndexData {
    chunks: Vec<Chunk>,
    documents: Vec<Document>,
}

pub struct IndexModel {
    pub chunks: Seq<ChunkModel>,
    pub documents: Seq<DocumentModel>,
}

impl View for IndexData {
    type V = IndexModel;

    closed spec fn view(&self) -> IndexModel {
        IndexModel { chunks: chunk_views(self.chunks@), documents: doc_views(self.documents@) }
    }
}

impl IndexData {
    /// Identities are unique among fragments, paths among documents.
    pub open spec fn wf(&self) -> bool {
        unique_ids(self@.chunks) && unique_paths(self@.documents)
    }

    pub fn new() -> (r: IndexData)
        ensures
            r.wf(),
            r@.chunks.len() == 0,
            r@.documents.len() == 0,
    {
        let r = IndexData { chunks: Vec::new(), documents: Vec::new() };
        assert(r@.chunks =~= Seq::<ChunkModel>::empty());
        assert(r@.documents =~= Seq::<DocumentModel>::empty());
        r
    }

    fn find_chunk(&self, id: &String) -> (r: Option<usize>)
        ensures
            match r {
                Some(p) => p as int == chunk_pos(self@.chunks, id@),
                None => chunk_pos(self@.chunks, id@) == -1,
            },
    {
        let ghost s = self@.chunks;
        let mut i = self.chunks.len();
        assert(s.take(i as int) =~= s);
        while i > 0
            invariant
                i <= self.chunks@.len(),
                s == self@.chunks,
                chunk_pos(s, id@) == chunk_pos(s.take(i as int), id@),
            decreases i,
        {
            let ghost t = s.take(i as int);
            assert(t.drop_last() =~= s.take(i - 1));
            assert(t.last() == self.chunks@[i - 1]@);
            if self.chunks[i - 1].id == *id {
                return Some(i - 1);
            }
            i = i - 1;
        }
        None
    }

    fn find_document(&self, path: &str) -> (r: Option<usize>)
        ensures
            match r {
                Some(p) => p as int == doc_pos(self@.documents, path@),
                None => doc_pos(self@.documents, path@) == -1,
            },
    {
        let ghost s = self@.documents;
        let mut i = self.documents.len();
        assert(s.take(i as int) =~= s);
        while i > 0
            invariant
                i <= self.documents@.len(),
                s == self@.documents,
                doc_pos(s, path@) == doc_pos(s.take(i as int), path@),
            decreases i,
        {
            let ghost t = s.take(i as int);
            assert(t.drop_last() =~= s.take(i - 1));
            assert(t.last() == self.documents@[i - 1]@);
            if str_eq(self.documents[i - 1].path.as_str(), path) {
                return Some(i - 1);
            }
            i = i - 1;
        }
        None
    }

    fn save_chunk(&mut self, c: Chunk)
        requires
            old(self).wf(),
        ensures
            final(self).wf(),
            final(self)@.chunks == upsert_chunk(old(self)@.chunks, c@),
            final(self)@.documents == old(self)@.documents,
    {
        proof {
            lemma_upsert_unique(self@.chunks, c@);
            lemma_chunk_pos(self@.chunks, c@.id);
        }
        let ghost before = self@.chunks;
        match self.find_chunk(&c.id) {
            Some(p) => {
                self.chunks.set(p, c);
                assert(self@.chunks =~= before.update(p as int, c@));
            },
            None => {
                self.chunks.push(c);
                assert(self@.chunks =~= before.push(c@));
            },
        }
    }

    /// Upserts fragments by identity; for a repeated identity the last one wins.
    pub fn save_chunks(&mut self, chunks: Vec<Chunk>)
        requires
            old(self).wf(),
        ensures
            final(self).wf(),
            final(self)@.chunks == upsert_chunks(old(self)@.chunks, chunk_views(chunks@)),
            final(self)@.documents == old(self)@.documents,
    {
        let ghost start = self@.chunks;
        let ghost all = chunks@;
        for c in it: chunks.into_iter()
            invariant
                self.wf(),
                all == it.seq(),
                self@.chunks == upsert_chunks(start, chunk_views(all).take(it.index() as int)),
                self@.documents == old(self)@.documents,
        {
            assert(c == all[it.index() as int]);
            assert(chunk_views(all).take(it.index() + 1).drop_last() =~= chunk_views(all).take(it.index() as int));
            self.save_chunk(c);
        }
        assert(chunk_views(all).take(all.len() as int) =~= chunk_views(all));
    }

    /// Removes every fragment of `path` and the document for `path`.
    pub fn delete_by_file(&mut self, path: &str)
        requires
            old(self).wf(),
        ensures
            final(self).wf(),
            final(self)@.chunks == chunks_without(old(self)@.chunks, path@),
            final(self)@.documents == docs_without(old(self)@.documents, path@),
    {
        let ghost cs = self@.chunks;
        let ghost ds = self@.documents;
        proof {
            lemma_chunks_without(cs, path@);
            lemma_docs_without(ds, path@);
        }
        let mut old_chunks: Vec<Chunk> = Vec::new();
        std::mem::swap(&mut old_chunks, &mut self.chunks);
        let ghost all = old_chunks@;
        assert(chunk_views(all) == cs);
        let mut kept: Vec<Chunk> = Vec::new();
        for c in it: old_chunks.into_iter()
            invariant
                all == it.seq(),
                chunk_views(kept@) == chunks_without(chunk_views(all).take(it.index() as int), path@),
        {
            assert(c == all[it.index() as int]);
            let ghost prev = chunk_views(kept@);
            assert(chunk_views(all).take(it.index() + 1).drop_last() =~= chunk_views(all).take(it.index() as int));
            if !str_eq(c.file_path.as_str(), path) {
                kept.push(c);
                assert(chunk_views(kept@) =~= prev.push(c@));
            }
        }
        assert(chunk_views(all).take(all.len() as int) =~= cs);
        self.chunks = kept;
        let mut old_docs: Vec<Document> = Vec::new();
        std::mem::swap(&mut old_docs, &mut self.documents);
        let ghost all_docs = old_docs@;
        assert(doc_views(all_docs) == ds);
        let mut kept_docs: Vec<Document> = Vec::new();
        for d in it: old_docs.into_iter()
            invariant
                all_docs == it.seq(),
                doc_views(kept_docs@) == docs_without(doc_views(all_docs).take(it.index() as int), path@),
        {
            assert(d == all_docs[it.index() as int]);
            let ghost prev = doc_views(kept_docs@);
            assert(doc_views(all_docs).take(it.index() + 1).drop_last() =~= doc_views(all_docs).take(it.index() as int));
            if !str_eq(d.path.as_str(), path) {
                kept_docs.push(d);
                assert(doc_views(kept_docs@) =~= prev.push(d@));
            }
        }
        assert(doc_views(all_docs).take(all_docs.len() as int) =~= ds);
        self.documents = kept_docs;
    }

    /// The document for `path`, if any.
    pub fn get_document(&self, path: &str) -> (r: Option<Document>)
        ensures
            match r {
                Some(d) => doc_pos(self@.documents, path@) >= 0 && d@ == self@.documents[doc_pos(self@.documents, path@)],
                None => doc_pos(self@.documents, path@) == -1,
            },
    {
        proof {
            lemma_doc_pos(self@.documents, path@);
        }
        match self.find_document(path) {
            Some(p) => Some(self.documents[p].duplicate()),
            None => None,
        }
    }

    /// Inserts or replaces the document for `doc.path`.
    pub fn save_document(&mut self, doc: Document)
        requires
            old(self).wf(),
        ensures
            final(self).wf(),
            final(self)@.documents == upsert_doc(old(self)@.documents, doc@),
            final(self)@.chunks == old(self)@.chunks,
    {
        proof {
            lemma_upsert_doc_unique(self@.documents, doc@);
            lemma_doc_pos(self@.documents, doc@.path);
        }
        let ghost before = self@.documents;
        match self.find_document(doc.path.as_str()) {
            Some(p) => {
                self.documents.set(p, doc);
                assert(self@.documents =~= before.update(p as int, doc@));
            },
            None => {
                self.documents.push(doc);
                assert(self@.documents =~= before.push(doc@));
            },
        }
    }

    /// The paths of all documents, in insertion order.
    pub fn list_documents(&self) -> (r: Vec<String>)
        ensures
            string_views(r@) == self@.documents.map_values(|d: DocumentModel| d.path),
    {
        let mut r: Vec<String> = Vec::new();
        let mut i: usize = 0;
        while i < self.documents.len()
            invariant
                i <= self.documents@.len(),
                string_views(r@) == self@.documents.take(i as int).map_values(|d: DocumentModel| d.path),
            decreases self.documents@.len() - i,
        {
            let x = self.documents[i].path.clone();
            let ghost prev = string_views(r@);
            r.push(x);
            assert(string_views(r@) =~= prev.push(x@));
            assert(self@.documents.take(i + 1).map_values(|d: DocumentModel| d.path) =~= self@.documents.take(
                i as int,
            ).map_values(|d: DocumentModel| d.path).push(self@.documents[i as int].path));
            i = i + 1;
        }
        assert(self@.documents.take(i as int) =~= self@.documents);
        r
    }

    /// Copies of all fragments, in insertion order.
    pub fn get_all_chunks(&self) -> (r: Vec<Chunk>)
        ensures
            chunk_views(r@) == self@.chunks,
    {
        let mut r: Vec<Chunk> = Vec::new();
        let mut i: usize = 0;
        while i < self.chunks.len()
            invariant
                i <= self.chunks@.len(),
                chunk_views(r@) == self@.chunks.take(i as int),
            decreases self.chunks@.len() - i,
        {
            let c = self.chunks[i].duplicate();
            let ghost prev = chunk_views(r@);
            r.push(c);
            assert(chunk_views(r@) =~= prev.push(c@));
            assert(self@.chunks.take(i + 1) =~= self@.chunks.take(i as int).push(self@.chunks[i as int]));
            i = i + 1;
        }
        assert(self@.chunks.take(i as int) =~= self@.chunks);
        r
    }

    /// Document count, fragment count and the latest fragment update.
    pub fn counts(&self) -> (r: IndexCounts)
        ensures
            r.total_files == self@.documents.len(),
            r.total_chunks == self@.chunks.len(),
            match r.last_updated {
                Some(t) => latest_update(self@.chunks) == Some(t as int),
                None => latest_update(self@.chunks).is_none(),
            },
    {
        let mut latest: Option<i64> = None;
        let mut i: usize = 0;
        while i < self.chunks.len()
            invariant
                i <= self.chunks@.len(),
                match latest {
                    Some(t) => latest_update(self@.chunks.take(i as int)) == Some(t as int),
                    None => latest_update(self@.chunks.take(i as int)).is_none(),
                },
            decreases self.chunks@.len() - i,
        {
            let t = self.chunks[i].updated_at;
            assert(self@.chunks.take(i + 1).drop_last() =~= self@.chunks.take(i as int));
            latest = match latest {
                None => Some(t),
                Some(u) => Some(if t > u { t } else { u }),
            };
            i = i + 1;
        }
        assert(self@.chunks.take(i as int) =~= self@.chunks);
        IndexCounts { total_files: self.documents.len(), total_chunks: self.chunks.len(), last_updated: latest }
    }

    /// Vector search over given relevance keys, one per fragment in index
    /// order (higher is more similar): the fragments by descending key, equal
    /// keys in index order, at most `limit` of them. `None` when the keys do
    /// not match the fragments in number.
    pub fn search_scored(&self, keys: &Vec<u128>, limit: usize) -> (r: Option<Vec<crate::hybrid::SearchResult>>)
        ensures
            keys@.len() != self@.chunks.len() ==> r.is_none(),
            keys@.len() == self@.chunks.len() ==> (r matches Some(v) && exists|order: Seq<usize>|
                #![trigger crate::ranking::is_top_ranking(keys@, order, limit as nat)]
                {
                    &&& crate::ranking::is_top_ranking(keys@, order, limit as nat)
                    &&& v@.len() == order.len()
                    &&& forall|i: int|
                        0 <= i < v@.len() ==> (#[trigger] v@[i]).chunk@ == self@.chunks[order[i] as int] && v@[i].score
                            == keys@[order[i] as int]
                }),
    {
        if keys.len() != self.chunks.len() {
            return None;
        }
        let order = crate::ranking::top_positions(keys, limit);
        let mut out: Vec<crate::hybrid::SearchResult> = Vec::new();
        let mut j: usize = 0;
        while j < order.len()
            invariant
                j <= order@.len(),
                keys@.len() == self.chunks@.len(),
                crate::ranking::is_top_ranking(keys@, order@, limit as nat),
                out@.len() == j,
                forall|m: int|
                    0 <= m < j ==> (#[trigger] out@[m]).chunk@ == self@.chunks[order@[m] as int] && out@[m].score
                        == keys@[order@[m] as int],
            decreases order@.len() - j,
        {
            let p = order[j];
            assert(order@[j as int] < keys@.len());
            out.push(crate::hybrid::SearchResult::new(self.chunks[p].duplicate(), keys[p]));
            j = j + 1;
        }
        assert(crate::ranking::is_top_ranking(keys@, order@, limit as nat));
        Some(out)
    }

    /// Empties the index.
    pub fn clear(&mut self)
        ensures
            final(self).wf(),
            final(self)@.chunks.len() == 0,
            final(self)@.documents.len() == 0,
    {
        self.chunks.clear();
        self.documents.clear();
        assert(self@.chunks =~= Seq::<ChunkModel>::empty());
        assert(self@.documents =~= Seq::<DocumentModel>::empty());
    }
}

/// The first `n` elements.
pub fn vec_prefix(v: &Vec<char>, n: usize) -> (r: Vec<char>)
    requires
        n <= v@.len(),
    ensures
        r@ == v@.take(n as int),
{
    let mut r: Vec<char> = Vec::new();
    let mut i: usize = 0;
    while i < n
        invariant
            i <= n <= v@.len(),
            r@ == v@.take(i as int),
        decreases n - i,
    {
        r.push(v[i]);
        i = i + 1;
        assert(r@ =~= v@.take(i as int));
    }
    r
}

/// String equality.
pub fn str_eq(a: &str, b: &str) -> (r: bool)
    ensures
        r == (a@ == b@),
{
    let x = crate::text::chars_of(a);
    let y = crate::text::chars_of(b);
    if x.len() != y.len() {
        assert(x@.len() != y@.len());
        return false;
    }
    let mut i: usize = 0;
    while i < x.len()
        invariant
            x@ == a@,
            y@ == b@,
            x@.len() == y@.len(),
            i <= x@.len(),
            forall|k: int| 0 <= k < i ==> x@[k] == y@[k],
        decreases x@.len() - i,
    {
        if x[i] != y[i] {
            assert(x@[i as int] != y@[i as int]);
            return false;
        }
        i = i + 1;
    }
    assert(x@ =~= y@);
    true
}

} // verus!
