//! The decisions of incremental indexing: skip unchanged files, drop stale
//! fragments, batch fragments for embedding, store the embedded fragments
//! with their document, and prune documents of deleted files. Reading files,
//! calling the embedding provider and persisting the index happen outside;
//! these functions take and return plain values.

use vstd::prelude::*;
use crate::chunker::{fragment_views, symbol_chunking, ChunkInfo, Chunker, FragmentModel};
use crate::hashing::{content_hash, hash_content};
use crate::store::{
    chunk_views, chunks_without, doc_pos, docs_without, lemma_chunks_without, lemma_doc_pos, lemma_docs_without,
    lemma_chunk_pos, chunk_pos,
    str_eq, string_views, unique_ids, unique_paths, upsert_chunk, upsert_chunks, upsert_doc, Chunk,
    ChunkModel, Document, DocumentModel, IndexData, IndexModel,
};
use crate::types::{FileEntry, Symbol};
use crate::embedder::EmbedError;

verus! {

/// Fragments sent to the embedding provider per request.
pub const EMBED_BATCH: usize = 32;

/// Chunk sizes in tokens.
#[derive(Debug, Clone, Copy, PartialEq, Eq, Structural)]
pub struct ChunkingConfig {
    pub max_tokens: usize,
    pub overlap_tokens: usize,
}

impl Default for ChunkingConfig {
    fn default() -> (r: ChunkingConfig)
        ensures
            r.max_tokens == 512,
            r.overlap_tokens == 50,
    {
        ChunkingConfig { max_tokens: 512, overlap_tokens: 50 }
    }
}

/// Counts of a batch run and one message per failed file.
#[derive(Debug)]
pub struct IndexResult {
    pub files_processed: usize,
    pub chunks_created: usize,
    pub files_skipped: usize,
    pub errors: Vec<String>,
}

/// A count that saturates at `usize::MAX`.
pub open spec fn sat_count(x: int) -> usize {
    if x > usize::MAX { usize::MAX } else { x as usize }
}

/// How indexing one file ended.
#[derive(Debug)]
pub enum FileOutcome {
    /// Indexed, with this many fragments created.
    Indexed(usize),
    /// Unchanged since it was last indexed.
    Skipped,
    /// Failed, with a message naming the file and the cause.
    Failed(String),
}

impl IndexResult {
    pub fn new() -> (r: IndexResult)
        ensures
            r.files_processed == 0,
            r.chunks_created == 0,
            r.files_skipped == 0,
            r.errors@.len() == 0,
    {
        IndexResult { files_processed: 0, chunks_created: 0, files_skipped: 0, errors: Vec::new() }
    }

    /// Adds one file's outcome; a failure is recorded and does not stop the batch.
    pub fn record(&mut self, outcome: FileOutcome)
        ensures
            match outcome {
                FileOutcome::Indexed(n) => {
                    &&& final(self).files_processed == sat_count(old(self).files_processed + 1)
                    &&& final(self).chunks_created == sat_count(old(self).chunks_created + n)
                    &&& final(self).files_skipped == old(self).files_skipped
                    &&& final(self).errors@ == old(self).errors@
                },
                FileOutcome::Skipped => {
                    &&& final(self).files_processed == old(self).files_processed
                    &&& final(self).chunks_created == old(self).chunks_created
                    &&& final(self).files_skipped == sat_count(old(self).files_skipped + 1)
                    &&& final(self).errors@ == old(self).errors@
                },
                FileOutcome::Failed(msg) => {
                    &&& final(self).files_processed == old(self).files_processed
                    &&& final(self).chunks_created == old(self).chunks_created
                    &&& final(self).files_skipped == old(self).files_skipped
                    &&& final(self).errors@ == old(self).errors@.push(msg)
                },
            },
    {
        match outcome {
            FileOutcome::Indexed(n) => {
                self.files_processed = self.files_processed.saturating_add(1);
                self.chunks_created = self.chunks_created.saturating_add(n);
            },
            FileOutcome::Skipped => {
                self.files_skipped = self.files_skipped.saturating_add(1);
            },
            FileOutcome::Failed(msg) => {
                self.errors.push(msg);
            },
        }
    }
}

/// What indexing a file needs after the first steps.
#[derive(Debug)]
pub enum Prepared {
    /// The stored hash matches: nothing to do.
    Unchanged,
    /// The file's old fragments are gone; these new ones wait for embeddings.
    Fresh { hash: String, chunks: Vec<ChunkInfo> },
}

/// An unforced run skips a file whose document holds the same content hash.
pub open spec fn skips(m: IndexModel, path: Seq<char>, hash: Seq<char>, force: bool) -> bool {
    !force && doc_pos(m.documents, path) >= 0 && m.documents[doc_pos(m.documents, path)].hash == hash
}

/// The index with every trace of `path` removed.
pub open spec fn without_path(m: IndexModel, path: Seq<char>) -> IndexModel {
    IndexModel { chunks: chunks_without(m.chunks, path), documents: docs_without(m.documents, path) }
}

/// The fragment that an embedded fragment becomes.
pub open spec fn stored_fragment(f: FragmentModel, v: Seq<u32>, now: int) -> ChunkModel {
    ChunkModel {
        id: f.id,
        file_path: f.file_path,
        start_line: f.start_line,
        end_line: f.end_line,
        content: f.content,
        vector: v,
        hash: f.hash,
        updated_at: now,
        chunk_type: f.chunk_type,
    }
}

/// Fragments `b * 32 ..` of one batch paired with the vectors returned for
/// it, position by position, as far as both go.
pub open spec fn batch_fragments(fs: Seq<FragmentModel>, b: int, vs: Seq<Seq<u32>>, now: int) -> Seq<ChunkModel> {
    let lo = b * EMBED_BATCH;
    let hi = if lo + EMBED_BATCH < fs.len() { lo + EMBED_BATCH } else { fs.len() as int };
    let n = if hi - lo < vs.len() { hi - lo } else { vs.len() as int };
    if lo >= fs.len() {
        Seq::empty()
    } else {
        Seq::new(n as nat, |i: int| stored_fragment(fs[lo + i], vs[i], now))
    }
}

/// The embedded fragments of all batches, batch after batch.
pub open spec fn embedded_fragments(fs: Seq<FragmentModel>, batches: Seq<Seq<Seq<u32>>>, now: int) -> Seq<ChunkModel>
    decreases batches.len(),
{
    if batches.len() == 0 {
        Seq::empty()
    } else {
        embedded_fragments(fs, batches.drop_last(), now) + batch_fragments(
            fs,
            batches.len() - 1,
            batches.last(),
            now,
        )
    }
}

pub open spec fn batch_views(batches: Seq<Vec<Vec<u32>>>) -> Seq<Seq<Seq<u32>>> {
    batches.map_values(|b: Vec<Vec<u32>>| b@.map_values(|v: Vec<u32>| v@))
}

/// The index after storing the embedded fragments of a file and its
/// document; a file without fragments still gets its document, with no
/// fragment identities, so that it is skipped while unchanged.
pub open spec fn committed(m: IndexModel, path: Seq<char>, hash: Seq<char>, cs: Seq<ChunkModel>, now: int) -> IndexModel {
    IndexModel {
        chunks: upsert_chunks(m.chunks, cs),
        documents: upsert_doc(
            m.documents,
            DocumentModel { path, hash, mod_time: now, chunk_ids: cs.map_values(|c: ChunkModel| c.id) },
        ),
    }
}

/// Paths of documents whose file is not among `existing`, in document order.
pub open spec fn stale_paths(docs: Seq<DocumentModel>, existing: Seq<Seq<char>>) -> Seq<Seq<char>>
    decreases docs.len(),
{
    if docs.len() == 0 {
        Seq::empty()
    } else if existing.contains(docs.last().path) {
        stale_paths(docs.drop_last(), existing)
    } else {
        stale_paths(docs.drop_last(), existing).push(docs.last().path)
    }
}

/// The index with each of `paths` removed in turn.
pub open spec fn without_paths(m: IndexModel, paths: Seq<Seq<char>>) -> IndexModel
    decreases paths.len(),
{
    if paths.len() == 0 {
        m
    } else {
        without_path(without_paths(m, paths.drop_last()), paths.last())
    }
}

fn contains_string(v: &Vec<String>, s: &str) -> (r: bool)
    ensures
        r == string_views(v@).contains(s@),
{
    let mut i: usize = 0;
    while i < v.len()
        invariant
            i <= v@.len(),
            forall|j: int| 0 <= j < i ==> v@[j]@ != s@,
        decreases v@.len() - i,
    {
        if str_eq(v[i].as_str(), s) {
            assert(string_views(v@)[i as int] == s@);
            return true;
        }
        i = i + 1;
    }
    assert forall|j: int| 0 <= j < string_views(v@).len() implies string_views(v@)[j] != s@ by {
        assert(string_views(v@)[j] == v@[j]@);
    }
    false
}

/// The provider answered every batch of `n` fragments with one vector per
/// fragment, and no more batches than there are.
pub open spec fn full_batches(n: nat, bv: Seq<Seq<Seq<u32>>>) -> bool {
    &&& bv.len() * EMBED_BATCH >= n
    &&& forall|b: int| 0 <= b < bv.len() ==> #[trigger] (b * EMBED_BATCH) < n && bv[b].len() == batch_len(n as int, b)
}

/// Whether the vectors answer the batches of `n` fragments one for one.
pub fn batches_match(n: usize, vectors: &Vec<Vec<Vec<u32>>>) -> (r: bool)
    ensures
        r == full_batches(n as nat, batch_views(vectors@)),
{
    let ghost bv = batch_views(vectors@);
    let mut b: usize = 0;
    let mut lo: usize = 0;
    while b < vectors.len()
        invariant
            b <= vectors@.len(),
            bv == batch_views(vectors@),
            lo as int == b * EMBED_BATCH,
            b > 0 ==> lo < n,
            forall|x: int| 0 <= x < b ==> #[trigger] (x * EMBED_BATCH) < n && bv[x].len() == batch_len(n as int, x),
        decreases vectors@.len() - b,
    {
        assert(bv[b as int].len() == vectors@[b as int]@.len());
        if lo >= n {
            assert(!(((b as int) * EMBED_BATCH) < n));
            return false;
        }
        let expected = if n - lo > EMBED_BATCH { EMBED_BATCH } else { n - lo };
        if vectors[b].len() != expected {
            return false;
        }
        if n - lo <= EMBED_BATCH {
            let all = b + 1 == vectors.len();
            proof {
                if !all {
                    assert(!((((b + 1) as int) * EMBED_BATCH) < n));
                }
            }
            return all;
        }
        lo = lo + EMBED_BATCH;
        b = b + 1;
    }
    lo >= n
}

/// Orchestrates chunking and the index for one project.
pub struct Indexer {
    chunker: Chunker,
}

impl Indexer {
    pub closed spec fn chunker(&self) -> Chunker {
        self.chunker
    }

    pub fn new(config: &ChunkingConfig) -> (r: Indexer)
        requires
            config.max_tokens * 4 <= usize::MAX,
            config.overlap_tokens * 4 <= usize::MAX,
        ensures
            r.chunker().budget() == config.max_tokens * 4,
            r.chunker().overlap() == config.overlap_tokens * 4,
    {
        Indexer { chunker: Chunker::from_tokens(config.max_tokens, config.overlap_tokens) }
    }

    /// The first steps of indexing a file whose text is `content`: hash it;
    /// unless forced, skip it when its document holds that hash; otherwise
    /// remove its old fragments and document and chunk it.
    pub fn prepare_file(
        &self,
        store: &mut IndexData,
        file: &FileEntry,
        content: &str,
        symbols: &[Symbol],
        force: bool,
    ) -> (r: Prepared)
        requires
            old(store).wf(),
        ensures
            final(store).wf(),
            match r {
                Prepared::Unchanged => {
                    &&& skips(old(store)@, file.relative_path@, content_hash(content@), force)
                    &&& final(store)@ == old(store)@
                },
                Prepared::Fresh { hash, chunks } => {
                    &&& !skips(old(store)@, file.relative_path@, content_hash(content@), force)
                    &&& hash@ == content_hash(content@)
                    &&& final(store)@ == without_path(old(store)@, file.relative_path@)
                    &&& fragment_views(chunks@) == symbol_chunking(
                        file.relative_path@,
                        content@,
                        symbols@,
                        self.chunker().budget(),
                        self.chunker().overlap(),
                    )
                },
            },
    {
        let hash = hash_content(content);
        if !force {
            match store.get_document(file.relative_path.as_str()) {
                Some(doc) => {
                    if str_eq(doc.hash.as_str(), hash.as_str()) {
                        return Prepared::Unchanged;
                    }
                },
                None => {},
            }
        }
        store.delete_by_file(file.relative_path.as_str());
        let chunks = self.chunker.chunk_by_symbols(file, content, symbols);
        Prepared::Fresh { hash, chunks }
    }

    /// The texts to embed, in batches of 32, in fragment order.
    pub fn embedding_batches(chunks: &Vec<ChunkInfo>) -> (r: Vec<Vec<String>>)
        ensures
            forall|b: int| 0 <= b < r@.len() ==> #[trigger] (b * EMBED_BATCH) < chunks@.len(),
            r@.len() * EMBED_BATCH >= chunks@.len(),
            forall|b: int, i: int|
                0 <= b < r@.len() && 0 <= i < r@[b]@.len() ==> (#[trigger] r@[b]@[i])@ == chunks@[b * EMBED_BATCH
                    + i].content@,
            forall|b: int|
                0 <= b < r@.len() ==> (#[trigger] r@[b]@).len() == batch_len(chunks@.len() as int, b),
    {
        let n = chunks.len();
        let mut out: Vec<Vec<String>> = Vec::new();
        let mut lo: usize = 0;
        while lo < n
            invariant
                n == chunks@.len(),
                lo <= n,
                out@.len() * EMBED_BATCH <= n ==> lo == out@.len() * EMBED_BATCH,
                out@.len() * EMBED_BATCH > n ==> lo == n,
                forall|b: int| 0 <= b < out@.len() ==> #[trigger] (b * EMBED_BATCH) < n,
                forall|b: int, i: int|
                    0 <= b < out@.len() && 0 <= i < out@[b]@.len() ==> (#[trigger] out@[b]@[i])@
                        == chunks@[b * EMBED_BATCH + i].content@,
                forall|b: int| 0 <= b < out@.len() ==> (#[trigger] out@[b]@).len() == batch_len(n as int, b),
            decreases n - lo,
        {
            let hi = if n - lo > EMBED_BATCH { lo + EMBED_BATCH } else { n };
            let mut batch: Vec<String> = Vec::new();
            let mut i = lo;
            while i < hi
                invariant
                    lo <= i <= hi <= n == chunks@.len(),
                    batch@.len() == i - lo,
                    forall|j: int| 0 <= j < batch@.len() ==> (#[trigger] batch@[j])@ == chunks@[lo + j].content@,
                decreases hi - i,
            {
                let text = chunks[i].content.clone();
                batch.push(text);
                i = i + 1;
            }
            let ghost b = out@.len() as int;
            assert(lo == b * EMBED_BATCH);
            out.push(batch);
            proof {
                assert forall|bb: int| 0 <= bb < out@.len() implies #[trigger] (bb * EMBED_BATCH) < n by {
                    if bb == b {
                    } else {
                        assert(bb < b);
                    }
                }
                assert forall|bb: int, j: int|
                    0 <= bb < out@.len() && 0 <= j < out@[bb]@.len() implies (#[trigger] out@[bb]@[j])@
                    == chunks@[bb * EMBED_BATCH + j].content@ by {
                    if bb == b {
                        assert(out@[bb] == batch);
                    }
                }
                assert forall|bb: int| 0 <= bb < out@.len() implies (#[trigger] out@[bb]@).len() == batch_len(n as int, bb) by {
                    if bb == b {
                        assert(out@[bb] == batch);
                    }
                }
            }
            lo = hi;
        }
        out
    }

    /// Stores the embedded fragments of a file and its document, and returns
    /// how many fragments were stored. `vectors` holds, per batch of
    /// `embedding_batches`, the vectors the provider returned, one per
    /// fragment; any other answer is a provider error and stores nothing.
    /// A file without fragments gets its document all the same, with no
    /// identities. `now` is the time of the update, in milliseconds since the
    /// Unix epoch.
    pub fn commit_file(
        store: &mut IndexData,
        file: &FileEntry,
        hash: String,
        chunks: Vec<ChunkInfo>,
        vectors: Vec<Vec<Vec<u32>>>,
        now: i64,
    ) -> (r: Result<usize, EmbedError>)
        requires
            old(store).wf(),
        ensures
            final(store).wf(),
            full_batches(chunks@.len(), batch_views(vectors@)) ==> {
                &&& r == Ok::<usize, EmbedError>(chunks.len())
                &&& final(store)@ == committed(
                    old(store)@,
                    file.relative_path@,
                    hash@,
                    embedded_fragments(fragment_views(chunks@), batch_views(vectors@), now as int),
                    now as int,
                )
                &&& embedded_fragments(fragment_views(chunks@), batch_views(vectors@), now as int).len() == chunks@.len()
            },
            !full_batches(chunks@.len(), batch_views(vectors@)) ==> r == Err::<usize, EmbedError>(EmbedError::WrongCount)
                && final(store)@ == old(store)@,
    {
        if !batches_match(chunks.len(), &vectors) {
            return Err(EmbedError::WrongCount);
        }
        let ghost fs = fragment_views(chunks@);
        let ghost bv = batch_views(vectors@);
        proof {
            lemma_full_batches(fs, bv, now as int);
        }
        let n = Indexer::store_embedded(store, file, hash, chunks, vectors, now);
        Ok(n)
    }

    fn store_embedded(
        store: &mut IndexData,
        file: &FileEntry,
        hash: String,
        chunks: Vec<ChunkInfo>,
        vectors: Vec<Vec<Vec<u32>>>,
        now: i64,
    ) -> (r: usize)
        requires
            old(store).wf(),
        ensures
            final(store).wf(),
            final(store)@ == committed(
                old(store)@,
                file.relative_path@,
                hash@,
                embedded_fragments(fragment_views(chunks@), batch_views(vectors@), now as int),
                now as int,
            ),
            r == embedded_fragments(fragment_views(chunks@), batch_views(vectors@), now as int).len(),
    {
        let n = chunks.len();
        let ghost fs = fragment_views(chunks@);
        let ghost bv = batch_views(vectors@);
        let mut stored: Vec<Chunk> = Vec::new();
        let mut ids: Vec<String> = Vec::new();
        let mut b: usize = 0;
        let mut lo: usize = 0;
        assert(bv.take(0) =~= Seq::<Seq<Seq<u32>>>::empty());
        assert(chunk_views(stored@) =~= Seq::<ChunkModel>::empty());
        while b < vectors.len()
            invariant
                n == chunks@.len(),
                fs == fragment_views(chunks@),
                bv == batch_views(vectors@),
                b <= vectors@.len(),
                lo as int == if b * EMBED_BATCH <= usize::MAX { b * EMBED_BATCH } else { usize::MAX as int },
                chunk_views(stored@) == embedded_fragments(fs, bv.take(b as int), now as int),
                string_views(ids@) == chunk_views(stored@).map_values(|c: ChunkModel| c.id),
            decreases vectors@.len() - b,
        {
            let vs = &vectors[b];
            let ghost before = chunk_views(stored@);
            let ghost vsv = bv[b as int];
            assert(vsv == vs@.map_values(|v: Vec<u32>| v@));
            if lo < n {
                let hi = if n - lo > EMBED_BATCH { lo + EMBED_BATCH } else { n };
                let m = if hi - lo < vs.len() { hi - lo } else { vs.len() };
                let mut i: usize = 0;
                while i < m
                    invariant
                        i <= m,
                        lo + m <= n == chunks@.len(),
                        m <= vs@.len(),
                        fs == fragment_views(chunks@),
                        vsv == vs@.map_values(|v: Vec<u32>| v@),
                        chunk_views(stored@) == before + Seq::new(
                            i as nat,
                            |j: int| stored_fragment(fs[lo + j], vsv[j], now as int),
                        ),
                        string_views(ids@) == chunk_views(stored@).map_values(|c: ChunkModel| c.id),
                    decreases m - i,
                {
                    let info = &chunks[lo + i];
                    let c = Chunk {
                        id: info.id.clone(),
                        file_path: info.file_path.clone(),
                        start_line: info.start_line,
                        end_line: info.end_line,
                        content: info.content.clone(),
                        vector: crate::store::copy_words(&vs[i]),
                        hash: info.hash.clone(),
                        updated_at: now,
                        chunk_type: info.chunk_type,
                    };
                    let ghost prev = chunk_views(stored@);
                    let ghost prev_ids = string_views(ids@);
                    let id = c.id.clone();
                    ids.push(id);
                    stored.push(c);
                    assert(chunk_views(stored@) =~= prev.push(c@));
                    assert(string_views(ids@) =~= prev_ids.push(c@.id));
                    assert(c@ == stored_fragment(fs[lo + i], vsv[i as int], now as int));
                    i = i + 1;
                    assert(chunk_views(stored@) =~= before + Seq::new(
                        i as nat,
                        |j: int| stored_fragment(fs[lo + j], vsv[j], now as int),
                    ));
                    assert(string_views(ids@) =~= chunk_views(stored@).map_values(|c: ChunkModel| c.id));
                }
                assert(batch_fragments(fs, b as int, vsv, now as int) =~= Seq::new(
                    m as nat,
                    |j: int| stored_fragment(fs[lo + j], vsv[j], now as int),
                ));
            } else {
                assert(batch_fragments(fs, b as int, vsv, now as int) =~= Seq::<ChunkModel>::empty());
                assert(before + Seq::<ChunkModel>::empty() =~= before);
            }
            assert(bv.take(b + 1).drop_last() =~= bv.take(b as int));
            assert(bv.take(b + 1).last() == vsv);
            b = b + 1;
            lo = lo.saturating_add(EMBED_BATCH);
        }
        assert(bv.take(b as int) =~= bv);
        let ghost cs = chunk_views(stored@);
        let count = stored.len();
        store.save_chunks(stored);
        let doc = Document { path: file.relative_path.clone(), hash, mod_time: now, chunk_ids: ids };
        store.save_document(doc);
        count
    }

    /// Removes the documents and fragments of every indexed file that is not
    /// among `existing` (relative paths), and returns how many files were
    /// pruned.
    pub fn prune_deleted(store: &mut IndexData, existing: &Vec<String>) -> (r: usize)
        requires
            old(store).wf(),
        ensures
            final(store).wf(),
            r == stale_paths(old(store)@.documents, string_views(existing@)).len(),
            final(store)@ == without_paths(old(store)@, stale_paths(old(store)@.documents, string_views(existing@))),
    {
        let ghost m0 = store@;
        let ghost ex = string_views(existing@);
        let paths = store.list_documents();
        let ghost docs = m0.documents;
        assert(string_views(paths@).len() == docs.len());
        let mut pruned: usize = 0;
        let mut i: usize = 0;
        assert(docs.take(0) =~= Seq::<DocumentModel>::empty());
        while i < paths.len()
            invariant
                store.wf(),
                i <= paths@.len() == docs.len(),
                ex == string_views(existing@),
                string_views(paths@) == docs.map_values(|d: DocumentModel| d.path),
                pruned == stale_paths(docs.take(i as int), ex).len(),
                pruned <= i,
                store@ == without_paths(m0, stale_paths(docs.take(i as int), ex)),
            decreases paths@.len() - i,
        {
            let ghost st = stale_paths(docs.take(i as int), ex);
            assert(docs.take(i + 1).drop_last() =~= docs.take(i as int));
            assert(docs.take(i + 1).last() == docs[i as int]);
            assert(paths@[i as int]@ == docs[i as int].path) by {
                assert(string_views(paths@)[i as int] == paths@[i as int]@);
            }
            if !contains_string(existing, paths[i].as_str()) {
                store.delete_by_file(paths[i].as_str());
                pruned = pruned + 1;
                assert(st.push(docs[i as int].path).drop_last() =~= st);
            }
            i = i + 1;
        }
        assert(docs.take(i as int) =~= docs);
        pruned
    }
}

proof fn lemma_doc_pos_unique(s: Seq<DocumentModel>, i: int)
    requires
        unique_paths(s),
        0 <= i < s.len(),
    ensures
        doc_pos(s, s[i].path) == i,
    decreases s.len(),
{
    if i < s.len() - 1 {
        let init = s.drop_last();
        assert(unique_paths(init)) by {
            assert forall|a: int, b: int| 0 <= a < init.len() && 0 <= b < init.len() && a != b implies init[a].path != init[b].path by {
                assert(init[a] == s[a] && init[b] == s[b]);
            }
        }
        assert(init[i] == s[i]);
        assert(s.last() == s[s.len() - 1]);
        lemma_doc_pos_unique(init, i);
    }
}

/// Storing a document makes it the one found for its path.
pub proof fn lemma_upsert_doc_found(s: Seq<DocumentModel>, d: DocumentModel)
    requires
        unique_paths(s),
    ensures
        doc_pos(upsert_doc(s, d), d.path) >= 0,
        upsert_doc(s, d)[doc_pos(upsert_doc(s, d), d.path)] == d,
{
    lemma_doc_pos(s, d.path);
    crate::store::lemma_upsert_doc_unique(s, d);
    let t = upsert_doc(s, d);
    let p = doc_pos(s, d.path);
    if p >= 0 {
        assert(t[p] == d);
        lemma_doc_pos_unique(t, p);
    } else {
        assert(t.last() == d);
    }
}

/// Every fragment after upserts was there before or is one of the upserted.
pub proof fn lemma_upsert_chunks_members(s: Seq<ChunkModel>, cs: Seq<ChunkModel>)
    ensures
        forall|c: ChunkModel| upsert_chunks(s, cs).contains(c) ==> s.contains(c) || cs.contains(c),
    decreases cs.len(),
{
    if cs.len() > 0 {
        let init = cs.drop_last();
        lemma_upsert_chunks_members(s, init);
        let u = upsert_chunks(s, init);
        let last = cs.last();
        lemma_chunk_pos(u, last.id);
        assert forall|c: ChunkModel| upsert_chunks(s, cs).contains(c) implies s.contains(c) || cs.contains(c) by {
            let t = upsert_chunks(s, cs);
            let m = choose|m: int| 0 <= m < t.len() && t[m] == c;
            if c == last {
                assert(cs[cs.len() - 1] == c);
            } else {
                let p = chunk_pos(u, last.id);
                if p >= 0 {
                    assert(t == u.update(p, last));
                    assert(u[m] == c);
                } else {
                    assert(t == u.push(last));
                    assert(u[m] == c);
                }
                assert(u.contains(c));
                if init.contains(c) {
                    let q = choose|q: int| 0 <= q < init.len() && init[q] == c;
                    assert(cs[q] == c);
                }
            }
        }
    }
}

/// Indexing a file again without force, when its content is unchanged,
/// skips it: once a file's fragments (possibly none) and document are
/// stored, its content hash is found in its document.
pub proof fn lemma_reindex_unchanged_skips(
    m: IndexModel,
    path: Seq<char>,
    hash: Seq<char>,
    cs: Seq<ChunkModel>,
    now: int,
)
    requires
        unique_paths(m.documents),
    ensures
        skips(committed(m, path, hash, cs, now), path, hash, false),
{
    lemma_upsert_doc_found(
        m.documents,
        DocumentModel { path, hash, mod_time: now, chunk_ids: cs.map_values(|c: ChunkModel| c.id) },
    );
}

/// A forced re-index of a file leaves no fragment of that file but the new
/// ones: every fragment of the file in the index afterwards is one of `cs`,
/// and every identity of `cs` is stored.
pub proof fn lemma_forced_reindex_replaces(
    m: IndexModel,
    path: Seq<char>,
    hash: Seq<char>,
    cs: Seq<ChunkModel>,
    now: int,
)
    ensures
        forall|c: ChunkModel|
            #[trigger] committed(without_path(m, path), path, hash, cs, now).chunks.contains(c)
                && c.file_path == path ==> cs.contains(c),
        forall|i: int| 0 <= i < cs.len() ==> has_id(committed(without_path(m, path), path, hash, cs, now).chunks, #[trigger] cs[i].id),
{
    lemma_upsert_chunks_ids(without_path(m, path).chunks, cs);
    let w = without_path(m, path);
    lemma_chunks_without(m.chunks, path);
    lemma_upsert_chunks_members(w.chunks, cs);
    assert forall|c: ChunkModel|
        #[trigger] committed(w, path, hash, cs, now).chunks.contains(c) && c.file_path == path implies cs.contains(c) by {
        assert(upsert_chunks(w.chunks, cs).contains(c));
        assert(w.chunks == chunks_without(m.chunks, path));
        assert(!w.chunks.contains(c));
    }
}

/// Removing a list of paths leaves exactly the fragments and documents of
/// other paths.
pub proof fn lemma_without_paths(m: IndexModel, paths: Seq<Seq<char>>)
    ensures
        forall|c: ChunkModel|
            #[trigger] without_paths(m, paths).chunks.contains(c) <==> (m.chunks.contains(c) && !paths.contains(
                c.file_path,
            )),
        forall|d: DocumentModel|
            #[trigger] without_paths(m, paths).documents.contains(d) <==> (m.documents.contains(d)
                && !paths.contains(d.path)),
    decreases paths.len(),
{
    if paths.len() > 0 {
        let init = paths.drop_last();
        let last = paths.last();
        lemma_without_paths(m, init);
        let w = without_paths(m, init);
        lemma_chunks_without(w.chunks, last);
        lemma_docs_without(w.documents, last);
        assert forall|p: Seq<char>| #[trigger] paths.contains(p) <==> (init.contains(p) || p == last) by {
            if paths.contains(p) {
                let q = choose|q: int| 0 <= q < paths.len() && paths[q] == p;
                if q < paths.len() - 1 {
                    assert(init[q] == p);
                }
            }
            if init.contains(p) {
                let q = choose|q: int| 0 <= q < init.len() && init[q] == p;
                assert(paths[q] == p);
            }
            if p == last {
                assert(paths[paths.len() - 1] == p);
            }
        }
        let r = without_paths(m, paths);
        assert(r.chunks == chunks_without(w.chunks, last));
        assert(r.documents == docs_without(w.documents, last));
        assert forall|c: ChunkModel| #[trigger] r.chunks.contains(c) <==> (m.chunks.contains(c) && !paths.contains(c.file_path)) by {
            assert(r.chunks.contains(c) <==> (w.chunks.contains(c) && c.file_path != last));
            assert(w.chunks.contains(c) <==> (m.chunks.contains(c) && !init.contains(c.file_path)));
            assert(paths.contains(c.file_path) <==> (init.contains(c.file_path) || c.file_path == last));
        }
        assert forall|d: DocumentModel| #[trigger] r.documents.contains(d) <==> (m.documents.contains(d) && !paths.contains(d.path)) by {
            assert(r.documents.contains(d) <==> (w.documents.contains(d) && d.path != last));
            assert(w.documents.contains(d) <==> (m.documents.contains(d) && !init.contains(d.path)));
            assert(paths.contains(d.path) <==> (init.contains(d.path) || d.path == last));
        }
    }
}

/// The stale paths are the indexed paths that are not among `existing`.
pub proof fn lemma_stale_paths(docs: Seq<DocumentModel>, existing: Seq<Seq<char>>)
    ensures
        forall|p: Seq<char>|
            #[trigger] stale_paths(docs, existing).contains(p) <==> (!existing.contains(p) && exists|i: int|
                0 <= i < docs.len() && docs[i].path == p),
    decreases docs.len(),
{
    if docs.len() > 0 {
        let init = docs.drop_last();
        lemma_stale_paths(init, existing);
        let st = stale_paths(docs, existing);
        let si = stale_paths(init, existing);
        assert forall|p: Seq<char>| st.contains(p) <==> (!existing.contains(p) && exists|i: int|
            0 <= i < docs.len() && docs[i].path == p) by {
            if st.contains(p) {
                let q = choose|q: int| 0 <= q < st.len() && st[q] == p;
                if !existing.contains(docs.last().path) && q == st.len() - 1 {
                    assert(docs[docs.len() - 1].path == p);
                } else {
                    assert(si[q] == p);
                    assert(si.contains(p));
                    let i = choose|i: int| 0 <= i < init.len() && init[i].path == p;
                    assert(docs[i].path == p);
                }
            }
            if !existing.contains(p) && exists|i: int| 0 <= i < docs.len() && docs[i].path == p {
                let i = choose|i: int| 0 <= i < docs.len() && docs[i].path == p;
                if i < docs.len() - 1 {
                    assert(init[i].path == p);
                    assert(si.contains(p));
                    let q = choose|q: int| 0 <= q < si.len() && si[q] == p;
                    if !existing.contains(docs.last().path) {
                        assert(st[q] == p);
                    }
                } else {
                    assert(st[st.len() - 1] == p);
                }
            }
        }
    }
}

/// Pruning removes the document and every fragment of each indexed file
/// that no longer exists, keeps those of the files that do, and counts one
/// per removed file.
pub proof fn lemma_prune_correct(m: IndexModel, existing: Seq<Seq<char>>)
    requires
        unique_paths(m.documents),
    ensures
        ({
            let st = stale_paths(m.documents, existing);
            let after = without_paths(m, st);
            &&& forall|d: DocumentModel| #[trigger] after.documents.contains(d) <==> (m.documents.contains(d) && existing.contains(d.path))
            &&& forall|c: ChunkModel|
                #[trigger] after.chunks.contains(c) <==> (m.chunks.contains(c) && !(!existing.contains(c.file_path)
                    && exists|i: int| 0 <= i < m.documents.len() && m.documents[i].path == c.file_path))
            &&& st.len() == m.documents.len() - m.documents.filter(|d: DocumentModel| existing.contains(d.path)).len()
            &&& forall|p: Seq<char>|
                #[trigger] st.contains(p) <==> (!existing.contains(p) && exists|i: int| 0 <= i < m.documents.len() && m.documents[i].path == p)
            &&& forall|a: int, b: int| 0 <= a < st.len() && 0 <= b < st.len() && a != b ==> st[a] != st[b]
        }),
{
    lemma_stale_distinct(m.documents, existing);
    let st = stale_paths(m.documents, existing);
    lemma_without_paths(m, st);
    lemma_stale_paths(m.documents, existing);
    assert forall|d: DocumentModel| without_paths(m, st).documents.contains(d) <==> (m.documents.contains(d) && existing.contains(d.path)) by {
        if m.documents.contains(d) {
            let i = choose|i: int| 0 <= i < m.documents.len() && m.documents[i] == d;
            assert(m.documents[i].path == d.path);
        }
    }
    lemma_stale_len(m.documents, existing);
}

/// With distinct document paths, each stale path appears once.
proof fn lemma_stale_distinct(docs: Seq<DocumentModel>, existing: Seq<Seq<char>>)
    requires
        unique_paths(docs),
    ensures
        forall|a: int, b: int|
            0 <= a < stale_paths(docs, existing).len() && 0 <= b < stale_paths(docs, existing).len() && a != b
                ==> stale_paths(docs, existing)[a] != stale_paths(docs, existing)[b],
    decreases docs.len(),
{
    if docs.len() > 0 {
        let init = docs.drop_last();
        assert(unique_paths(init)) by {
            assert forall|i: int, j: int| 0 <= i < init.len() && 0 <= j < init.len() && i != j implies init[i].path != init[j].path by {
                assert(init[i] == docs[i] && init[j] == docs[j]);
            }
        }
        lemma_stale_distinct(init, existing);
        lemma_stale_paths(init, existing);
        let si = stale_paths(init, existing);
        let st = stale_paths(docs, existing);
        if !existing.contains(docs.last().path) {
            assert(!si.contains(docs.last().path)) by {
                if si.contains(docs.last().path) {
                    let i = choose|i: int| 0 <= i < init.len() && init[i].path == docs.last().path;
                    assert(docs[i] == init[i]);
                    assert(docs[docs.len() - 1].path == docs.last().path);
                }
            }
            assert forall|a: int, b: int| 0 <= a < st.len() && 0 <= b < st.len() && a != b implies st[a] != st[b] by {
                if a == st.len() - 1 {
                    assert(st[b] == si[b]);
                    assert(si.contains(si[b]));
                } else if b == st.len() - 1 {
                    assert(st[a] == si[a]);
                    assert(si.contains(si[a]));
                } else {
                    assert(st[a] == si[a] && st[b] == si[b]);
                }
            }
        }
    }
}

proof fn lemma_stale_len(docs: Seq<DocumentModel>, existing: Seq<Seq<char>>)
    ensures
        stale_paths(docs, existing).len() == docs.len() - docs.filter(|d: DocumentModel| existing.contains(d.path)).len(),
    decreases docs.len(),
{
    reveal(Seq::filter);
    if docs.len() > 0 {
        lemma_stale_len(docs.drop_last(), existing);
    }
}

/// Some fragment has identity `id`.
pub open spec fn has_id(s: Seq<ChunkModel>, id: Seq<char>) -> bool {
    exists|i: int| 0 <= i < s.len() && (#[trigger] s[i]).id == id
}

proof fn lemma_upsert_chunk_ids(s: Seq<ChunkModel>, c: ChunkModel)
    ensures
        has_id(upsert_chunk(s, c), c.id),
        forall|id: Seq<char>| has_id(s, id) ==> #[trigger] has_id(upsert_chunk(s, c), id),
{
    lemma_chunk_pos(s, c.id);
    let u = upsert_chunk(s, c);
    let p = chunk_pos(s, c.id);
    if p >= 0 {
        assert(u[p].id == c.id);
    } else {
        assert(u[u.len() - 1].id == c.id);
    }
    assert forall|id: Seq<char>| has_id(s, id) implies #[trigger] has_id(u, id) by {
        let i = choose|i: int| 0 <= i < s.len() && (#[trigger] s[i]).id == id;
        if p >= 0 && i == p {
            assert(u[p].id == id);
        } else {
            assert(u[i] == s[i]);
        }
    }
}

proof fn lemma_upsert_chunks_ids(s: Seq<ChunkModel>, cs: Seq<ChunkModel>)
    ensures
        forall|i: int| 0 <= i < cs.len() ==> has_id(upsert_chunks(s, cs), #[trigger] cs[i].id),
        forall|id: Seq<char>| has_id(s, id) ==> #[trigger] has_id(upsert_chunks(s, cs), id),
    decreases cs.len(),
{
    if cs.len() > 0 {
        let init = cs.drop_last();
        lemma_upsert_chunks_ids(s, init);
        let u = upsert_chunks(s, init);
        lemma_upsert_chunk_ids(u, cs.last());
        assert forall|i: int| 0 <= i < cs.len() implies has_id(upsert_chunks(s, cs), #[trigger] cs[i].id) by {
            if i < cs.len() - 1 {
                assert(init[i] == cs[i]);
                assert(has_id(u, init[i].id));
            }
        }
    }
}

/// After a file is stored, every identity in its document names a stored
/// fragment.
pub proof fn lemma_committed_ids_stored(
    m: IndexModel,
    path: Seq<char>,
    hash: Seq<char>,
    cs: Seq<ChunkModel>,
    now: int,
)
    requires
        unique_paths(m.documents),
    ensures
        ({
            let after = committed(m, path, hash, cs, now);
            let d = after.documents[doc_pos(after.documents, path)];
            &&& doc_pos(after.documents, path) >= 0
            &&& forall|i: int| 0 <= i < d.chunk_ids.len() ==> has_id(after.chunks, #[trigger] d.chunk_ids[i])
        }),
{
    let doc = DocumentModel { path, hash, mod_time: now, chunk_ids: cs.map_values(|c: ChunkModel| c.id) };
    lemma_upsert_doc_found(m.documents, doc);
    lemma_upsert_chunks_ids(m.chunks, cs);
    let after = committed(m, path, hash, cs, now);
    let d = after.documents[doc_pos(after.documents, path)];
    assert(d == doc);
    assert forall|i: int| 0 <= i < d.chunk_ids.len() implies has_id(after.chunks, #[trigger] d.chunk_ids[i]) by {
        assert(d.chunk_ids[i] == cs[i].id);
    }
}

/// Every fragment's embedding has `dim` components.
pub open spec fn uniform_dimension(s: Seq<ChunkModel>, dim: nat) -> bool {
    forall|i: int| 0 <= i < s.len() ==> (#[trigger] s[i]).vector.len() == dim
}

proof fn lemma_embedded_dimension(fs: Seq<FragmentModel>, batches: Seq<Seq<Seq<u32>>>, now: int, dim: nat)
    requires
        forall|b: int, v: int| 0 <= b < batches.len() && 0 <= v < batches[b].len() ==> (#[trigger] batches[b][v]).len() == dim,
    ensures
        uniform_dimension(embedded_fragments(fs, batches, now), dim),
    decreases batches.len(),
{
    if batches.len() > 0 {
        let init = batches.drop_last();
        assert forall|b: int, v: int| 0 <= b < init.len() && 0 <= v < init[b].len() implies (#[trigger] init[b][v]).len() == dim by {
            assert(init[b] == batches[b]);
        }
        lemma_embedded_dimension(fs, init, now, dim);
        let prev = embedded_fragments(fs, init, now);
        let last = batch_fragments(fs, batches.len() - 1, batches.last(), now);
        let all = prev + last;
        assert forall|i: int| 0 <= i < all.len() implies (#[trigger] all[i]).vector.len() == dim by {
            if i >= prev.len() {
                assert(all[i] == last[i - prev.len()]);
                assert(batches.last() == batches[batches.len() - 1]);
            } else {
                assert(all[i] == prev[i]);
            }
        }
    }
}

/// Re-indexing a file keeps the index's embeddings of one length: when the
/// stored fragments and the returned vectors all have `dim` components, so
/// do the fragments afterwards.
pub proof fn lemma_reindex_keeps_dimension(
    m: IndexModel,
    path: Seq<char>,
    hash: Seq<char>,
    fs: Seq<FragmentModel>,
    batches: Seq<Seq<Seq<u32>>>,
    now: int,
    dim: nat,
)
    requires
        uniform_dimension(m.chunks, dim),
        forall|b: int, v: int| 0 <= b < batches.len() && 0 <= v < batches[b].len() ==> (#[trigger] batches[b][v]).len() == dim,
    ensures
        uniform_dimension(
            committed(without_path(m, path), path, hash, embedded_fragments(fs, batches, now), now).chunks,
            dim,
        ),
{
    let w = without_path(m, path);
    let cs = embedded_fragments(fs, batches, now);
    lemma_embedded_dimension(fs, batches, now, dim);
    lemma_chunks_without(m.chunks, path);
    assert(w.chunks == chunks_without(m.chunks, path));
    assert forall|i: int| 0 <= i < w.chunks.len() implies (#[trigger] w.chunks[i]).vector.len() == dim by {
        assert(w.chunks.contains(w.chunks[i]));
        assert(m.chunks.contains(w.chunks[i]));
        let k = choose|k: int| 0 <= k < m.chunks.len() && m.chunks[k] == w.chunks[i];
    }
    lemma_upsert_chunks_members(w.chunks, cs);
    let after = committed(w, path, hash, cs, now).chunks;
    assert forall|i: int| 0 <= i < after.len() implies (#[trigger] after[i]).vector.len() == dim by {
        assert(upsert_chunks(w.chunks, cs).contains(after[i]));
        if w.chunks.contains(after[i]) {
            let k = choose|k: int| 0 <= k < w.chunks.len() && w.chunks[k] == after[i];
        } else {
            let k = choose|k: int| 0 <= k < cs.len() && cs[k] == after[i];
        }
    }
}

/// When the provider answers every batch with one vector per text, every
/// fragment is stored, in order: as many fragments as the chunker gave, with
/// the same identities.
pub proof fn lemma_full_batches(fs: Seq<FragmentModel>, batches: Seq<Seq<Seq<u32>>>, now: int)
    requires
        batches.len() * EMBED_BATCH >= fs.len(),
        forall|b: int|
            0 <= b < batches.len() ==> #[trigger] (b * EMBED_BATCH) < fs.len() && batches[b].len() == batch_len(
                fs.len() as int,
                b,
            ),
    ensures
        embedded_fragments(fs, batches, now).len() == fs.len(),
        forall|i: int| 0 <= i < fs.len() ==> (#[trigger] embedded_fragments(fs, batches, now)[i]).id == fs[i].id,
{
    lemma_batches_prefix(fs, batches, now);
}

proof fn lemma_batches_prefix(fs: Seq<FragmentModel>, batches: Seq<Seq<Seq<u32>>>, now: int)
    requires
        forall|b: int|
            0 <= b < batches.len() ==> #[trigger] (b * EMBED_BATCH) < fs.len() && batches[b].len() == batch_len(
                fs.len() as int,
                b,
            ),
    ensures
        embedded_fragments(fs, batches, now).len() == if batches.len() * EMBED_BATCH < fs.len() {
            batches.len() * EMBED_BATCH
        } else {
            fs.len() as int
        },
        forall|i: int|
            0 <= i < embedded_fragments(fs, batches, now).len() ==> (#[trigger] embedded_fragments(fs, batches, now)[i]).id
                == fs[i].id,
    decreases batches.len(),
{
    if batches.len() > 0 {
        let init = batches.drop_last();
        let bl = batches.len() - 1;
        assert forall|b: int| 0 <= b < init.len() implies #[trigger] (b * EMBED_BATCH) < fs.len() && init[b].len() == batch_len(
            fs.len() as int,
            b,
        ) by {
            assert(init[b] == batches[b]);
        }
        lemma_batches_prefix(fs, init, now);
        assert(bl * EMBED_BATCH < fs.len());
        assert(batches[bl] == batches.last());
        let prev = embedded_fragments(fs, init, now);
        let last = batch_fragments(fs, bl, batches.last(), now);
        assert(prev.len() == bl * EMBED_BATCH);
        let all = prev + last;
        assert forall|i: int| 0 <= i < all.len() implies (#[trigger] all[i]).id == fs[i].id by {
            if i >= prev.len() {
                assert(all[i] == last[i - prev.len()]);
            } else {
                assert(all[i] == prev[i]);
            }
        }
    }
}

/// The number of fragments in batch `b` of `n` fragments.
pub open spec fn batch_len(n: int, b: int) -> int {
    if b * EMBED_BATCH + EMBED_BATCH < n {
        EMBED_BATCH as int
    } else {
        n - b * EMBED_BATCH
    }
}

} // verus!
