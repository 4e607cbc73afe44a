//! The retrieval pipeline: ingesting documents and answering questions.

use vstd::prelude::*;
use vstd::string::StringExecFns;
use rand::{RngCore, SeedableRng};
use rand::rngs::StdRng;
use crate::copy::copy_of;
use crate::error::Error;
use crate::format::{encode, load_outcome};
use crate::graph::{HnswParams, IndexView, empty_view};
use crate::index::HnswIndex;
use crate::insert::insert_outcome;
use crate::search::{exact_ids, ranked_ids, search_outcome, search_width};
use crate::store::{RecordStore, StoreView};

verus! {

/// The number of chunks that a question is answered with.
pub const ANSWER_CHUNKS: usize = 10;

/// `rand::rngs::StdRng`, the generator of the `rand` crate, as a value that
/// is carried along and never looked into.
#[verifier::external_type_specification]
#[verifier::external_body]
pub struct ExStdRng(StdRng);

/// Calls `rand::SeedableRng::seed_from_u64` for `rand::rngs::StdRng`: a
/// generator whose draws are fixed by `seed`. Nothing is claimed of it.
#[verifier::external_body]
fn seeded_generator(seed: u64) -> (rng: StdRng) {
    StdRng::seed_from_u64(seed)
}

/// Calls `rand::RngCore::next_u64`: the generator's next 64 bits. Nothing is
/// claimed of the number drawn.
#[verifier::external_body]
fn next_draw(rng: &mut StdRng) -> (draw: u64) {
    rng.next_u64()
}

/// A service as a mathematical value: its records and its index.
pub struct ServiceView {
    pub store: StoreView,
    pub index: IndexView,
}

impl ServiceView {
    /// The invariant of a service.
    pub open spec fn wf(self) -> bool {
        self.store.wf() && self.index.wf()
    }

    /// Whether the index is in step with the store: each of its nodes has
    /// the vector of the record with its identifier. Ingestion and loading
    /// keep the two in step; a vector that is put into the index alone may
    /// not.
    pub open spec fn in_step(self) -> bool {
        &&& self.index.vectors.len() <= self.store.vectors.len()
        &&& forall|i: int|
            0 <= i < self.index.vectors.len() ==> (#[trigger] self.index.vectors[i])
                == self.store.vectors[i]
    }
}

/// What ingesting a document leaves and returns, given what the embedding
/// function returned and the number drawn for the new node's layer.
///
/// Without an embedding nothing changes and the error is `EmbeddingError`.
/// Where the store refuses the vector nothing changes and the error is
/// `DimensionMismatch`. Else the record is appended; the index then takes the
/// vector under the record's identifier, and where it refuses it the record
/// stays and the index's error is returned.
pub open spec fn ingest_outcome(
    v: ServiceView,
    document: Seq<char>,
    embedding: Option<Seq<i16>>,
    draw: u64,
) -> (ServiceView, Result<usize, Error>) {
    match embedding {
        None => (v, Err(Error::EmbeddingError)),
        Some(vector) => if !v.store.accepts(vector.len()) {
            (v, Err(Error::DimensionMismatch))
        } else {
            let id = v.store.vectors.len() as usize;
            let store = v.store.appended(vector, document);
            match insert_outcome(v.index, id, vector, draw) {
                Ok(index) => (ServiceView { store, index }, Ok(id)),
                Err(e) => (ServiceView { store, index: v.index }, Err(e)),
            }
        },
    }
}

/// The texts of the records `ids`, in their order.
pub open spec fn texts_of(store: StoreView, ids: Seq<usize>) -> Seq<Seq<char>> {
    Seq::new(ids.len(), |i: int| store.texts[ids[i] as int])
}

/// What retrieval returns, given what the embedding function returned:
/// `EmbeddingError` without an embedding, the error of the search where it
/// fails, `NotFound` where the search names a record that the store lacks,
/// else the texts of the records found, nearest first.
pub open spec fn retrieve_outcome(v: ServiceView, embedding: Option<Seq<i16>>, k: int) -> Result<
    Seq<Seq<char>>,
    Error,
> {
    match embedding {
        None => Err(Error::EmbeddingError),
        Some(query) => match search_outcome(v.index, query, k) {
            Err(e) => Err(e),
            Ok(ids) => if forall|i: int| 0 <= i < ids.len() ==> (#[trigger] ids[i]) < v.store.vectors.len() {
                Ok(texts_of(v.store, ids))
            } else {
                Err(Error::NotFound)
            },
        },
    }
}

/// The texts held in `texts`.
pub open spec fn texts_view(texts: Seq<String>) -> Seq<Seq<char>> {
    Seq::new(texts.len(), |i: int| texts[i]@)
}

/// What an embedding function returned, as a mathematical value.
pub open spec fn embedding_view(embedding: Option<Vec<i16>>) -> Option<Seq<i16>> {
    match embedding {
        Some(vector) => Some(vector@),
        None => None,
    }
}

/// The texts joined by newlines, in their order.
pub open spec fn joined(texts: Seq<Seq<char>>) -> Seq<char>
    decreases texts.len(),
{
    if texts.len() == 0 {
        Seq::empty()
    } else if texts.len() == 1 {
        texts[0]
    } else {
        joined(texts.drop_last()) + seq!['\n'] + texts.last()
    }
}

/// Joins the ranked texts by newlines, in rank order.
pub fn assemble_context(ranked_texts: &Vec<String>) -> (context: String)
    ensures
        context@ == joined(texts_view(ranked_texts@)),
{
    let ghost all = texts_view(ranked_texts@);
    let mut context = String::new();
    let mut i: usize = 0;
    while i < ranked_texts.len()
        invariant
            i <= ranked_texts.len(),
            all == texts_view(ranked_texts@),
            context@ == joined(all.take(i as int)),
        decreases ranked_texts.len() - i,
    {
        proof {
            reveal_strlit("\n");
            let next = all.take(i + 1);
            assert(next.drop_last() =~= all.take(i as int));
        }
        if i > 0 {
            context.append("\n");
        }
        context.append(ranked_texts[i].as_str());
        i += 1;
    }
    assert(all.take(ranked_texts.len() as int) =~= all);
    context
}

/// The prompt that asks for a brief answer to `question` from `context`.
pub open spec fn prompt_text(context: Seq<char>, question: Seq<char>) -> Seq<char> {
    "<human>:You will give a brief answer to a question using the following text between the <doc> tags:\n\n<doc>\n"@
        + context + "\n<doc>\n\nHere is the question: "@ + question + "\n<bot>:"@
}

/// Writes the prompt that asks the generating model for a brief answer to
/// `question` from `context`, the ranked texts joined by newlines.
pub fn question_prompt(context: &str, question: &str) -> (prompt: String)
    ensures
        prompt@ == prompt_text(context@, question@),
{
    let mut prompt = String::from_str(
        "<human>:You will give a brief answer to a question using the following text between the <doc> tags:\n\n<doc>\n",
    );
    prompt.append(context);
    prompt.append("\n<doc>\n\nHere is the question: ");
    prompt.append(question);
    prompt.append("\n<bot>:");
    prompt
}

/// The retrieval pipeline: a store of records, an index of their vectors,
/// and the generator that draws the layers of new nodes.
pub struct EmbeddingService {
    store: RecordStore,
    index: HnswIndex,
    rng: StdRng,
}

impl View for EmbeddingService {
    type V = ServiceView;

    closed spec fn view(&self) -> ServiceView {
        ServiceView { store: self.store@, index: self.index@ }
    }
}

impl EmbeddingService {
    /// The invariant of a service.
    pub open spec fn wf(&self) -> bool {
        self@.wf()
    }

    /// A service without records; the layers of its index's nodes are drawn
    /// from a generator started with `seed`.
    pub fn new(params: HnswParams, seed: u64) -> (service: EmbeddingService)
        ensures
            service.wf(),
            service@.index == empty_view(params),
            service@.store.vectors.len() == 0,
            service@.store.texts.len() == 0,
            service@.store.dimension is None,
            service@.in_step(),
    {
        EmbeddingService {
            store: RecordStore::new(),
            index: HnswIndex::new(params),
            rng: seeded_generator(seed),
        }
    }

    /// The records.
    pub fn store(&self) -> (store: &RecordStore)
        ensures
            store@ == self@.store,
    {
        &self.store
    }

    /// The index.
    pub fn index(&self) -> (index: &HnswIndex)
        ensures
            index@ == self@.index,
    {
        &self.index
    }

    /// Appends a record to the store and returns its identifier; the index
    /// is left as it is. This is how the records come back before a snapshot
    /// of their index is loaded.
    ///
    /// Fails with `DimensionMismatch`, and changes nothing, where the store
    /// refuses the vector.
    pub fn add_record(&mut self, vector: Vec<i16>, text: String) -> (r: Result<usize, Error>)
        requires
            old(self).wf(),
        ensures
            final(self).wf(),
            final(self)@.index == old(self)@.index,
            old(self)@.in_step() ==> final(self)@.in_step(),
            match r {
                Ok(id) => {
                    &&& old(self)@.store.accepts(vector@.len())
                    &&& id == old(self)@.store.vectors.len()
                    &&& final(self)@.store == old(self)@.store.appended(vector@, text@)
                },
                Err(e) => {
                    &&& !old(self)@.store.accepts(vector@.len())
                    &&& e == Error::DimensionMismatch
                    &&& final(self)@ == old(self)@
                },
            },
    {
        self.store.append(vector, text)
    }

    /// Inserts `vector` into the index under `id`, with a layer drawn from
    /// the service's generator.
    ///
    /// Fails, and changes nothing, with `DimensionMismatch` where the vector
    /// has not the index's dimension, else with `NotFound` where `id` is not
    /// the number of nodes.
    pub fn add_to_index(&mut self, id: usize, vector: &[i16]) -> (r: Result<(), Error>)
        requires
            old(self).wf(),
        ensures
            final(self).wf(),
            final(self)@.store == old(self)@.store,
            exists|draw: u64|
                match r {
                    Ok(()) => #[trigger] insert_outcome(old(self)@.index, id, vector@, draw) == Ok::<
                        IndexView,
                        Error,
                    >(final(self)@.index),
                    Err(e) => insert_outcome(old(self)@.index, id, vector@, draw) == Err::<
                        IndexView,
                        Error,
                    >(e) && final(self)@ == old(self)@,
                },
            r is Ok <==> vector@.len() == old(self)@.index.params.dimension && id == old(
                self,
            )@.index.vectors.len(),
    {
        let draw = next_draw(&mut self.rng);
        self.index.insert(id, vector, draw)
    }

    /// The identifiers of the `num_results` nodes nearest to `vector`,
    /// nearest first.
    pub fn query(&self, vector: &[i16], num_results: usize) -> (r: Result<Vec<usize>, Error>)
        requires
            self.wf(),
        ensures
            match r {
                Ok(ids) => {
                    &&& search_outcome(self@.index, vector@, num_results as int) == Ok::<
                        Seq<usize>,
                        Error,
                    >(ids@)
                    &&& ids.len() <= num_results
                    &&& ids.len() <= self@.index.vectors.len()
                    &&& forall|i: int, j: int| 0 <= i < j < ids.len() ==> ids[i] != ids[j]
                    &&& ranked_ids(self@.index, vector@, ids@)
                    &&& self@.index.spanning() && search_width(self@.index, num_results as int)
                        >= self@.index.vectors.len() ==> exact_ids(
                        self@.index,
                        vector@,
                        num_results as int,
                        ids@,
                    )
                },
                Err(e) => search_outcome(self@.index, vector@, num_results as int) == Err::<
                    Seq<usize>,
                    Error,
                >(e),
            },
    {
        self.index.search(vector, num_results)
    }

    /// The snapshot of the index.
    pub fn build_index(&self) -> (bytes: Vec<u8>)
        requires
            self.wf(),
        ensures
            bytes@ == encode(self@.index),
    {
        self.index.save()
    }

    /// Replaces the index by the one that the snapshot `bytes` and the
    /// vectors of the store's records make. Where that fails, with the error
    /// of `HnswIndex::load`, the service keeps the index that it had.
    pub fn load_index(&mut self, bytes: &[u8]) -> (r: Result<(), Error>)
        requires
            old(self).wf(),
        ensures
            final(self).wf(),
            final(self)@.store == old(self)@.store,
            match r {
                Ok(()) => load_outcome(bytes@, old(self)@.store.vectors) == Ok::<IndexView, Error>(
                    final(self)@.index,
                ) && final(self)@.index.vectors == final(self)@.store.vectors && final(self)@.in_step(),
                Err(e) => load_outcome(bytes@, old(self)@.store.vectors) == Err::<IndexView, Error>(
                    e,
                ) && final(self)@ == old(self)@,
            },
    {
        let vectors = self.store.vectors();
        match HnswIndex::load(bytes, vectors) {
            Ok(index) => {
                self.index = index;
                Ok(())
            },
            Err(e) => Err(e),
        }
    }

    /// Ingests a document whose embedding function returned `embedding`;
    /// `draw` is the number drawn for the layer of the new node. Returns the
    /// identifier of the new record.
    pub fn ingest_embedded(&mut self, document: String, embedding: Option<Vec<i16>>, draw: u64) -> (r:
        Result<usize, Error>)
        requires
            old(self).wf(),
        ensures
            final(self).wf(),
            (final(self)@, r) == ingest_outcome(
                old(self)@,
                document@,
                embedding_view(embedding),
                draw,
            ),
            old(self)@.in_step() ==> final(self)@.in_step(),
    {
        let vector = match embedding {
            Some(vector) => vector,
            None => {
                return Err(Error::EmbeddingError);
            },
        };
        let copy = copy_of(vector.as_slice());
        let id = match self.store.append(copy, document) {
            Ok(id) => id,
            Err(e) => {
                return Err(e);
            },
        };
        match self.index.insert(id, vector.as_slice(), draw) {
            Ok(()) => Ok(id),
            Err(e) => Err(e),
        }
    }

    /// Ingests a document: embeds it with `embed`, appends the record to the
    /// store, and inserts its vector into the index under the record's
    /// identifier, which is returned. An embedding function returns `None`
    /// where it fails.
    pub fn add_document<F: Fn(&String) -> Option<Vec<i16>>>(&mut self, document: String, embed: F) -> (r:
        Result<usize, Error>)
        requires
            old(self).wf(),
            call_requires(embed, (&document,)),
        ensures
            final(self).wf(),
            exists|embedding: Option<Vec<i16>>, draw: u64|
                call_ensures(embed, (&document,), embedding) && (final(self)@, r)
                    == #[trigger] ingest_outcome(
                    old(self)@,
                    document@,
                    embedding_view(embedding),
                    draw,
                ),
            old(self)@.in_step() ==> final(self)@.in_step(),
    {
        let embedding = embed(&document);
        let draw = next_draw(&mut self.rng);
        self.ingest_embedded(document, embedding, draw)
    }

    /// Answers a query whose embedding function returned `embedding` with
    /// the texts of the `k` nearest records, nearest first.
    pub fn retrieve_embedded(&self, embedding: Option<Vec<i16>>, k: usize) -> (r: Result<
        Vec<String>,
        Error,
    >)
        requires
            self.wf(),
        ensures
            match r {
                Ok(texts) => retrieve_outcome(self@, embedding_view(embedding), k as int) == Ok::<
                    Seq<Seq<char>>,
                    Error,
                >(texts_view(texts@)) && texts.len() <= k && texts.len() <= self@.index.vectors.len(),
                Err(e) => retrieve_outcome(self@, embedding_view(embedding), k as int) == Err::<
                    Seq<Seq<char>>,
                    Error,
                >(e),
            },
            self@.in_step() ==> r != Err::<Vec<String>, Error>(Error::NotFound),
    {
        let query = match embedding {
            Some(query) => query,
            None => {
                return Err(Error::EmbeddingError);
            },
        };
        let ids = match self.index.search(query.as_slice(), k) {
            Ok(ids) => ids,
            Err(e) => {
                return Err(e);
            },
        };
        let mut texts: Vec<String> = Vec::new();
        let mut i: usize = 0;
        while i < ids.len()
            invariant
                self.wf(),
                i <= ids.len(),
                texts.len() == i,
                embedding_view(embedding) == Some(query@),
                search_outcome(self@.index, query@, k as int) == Ok::<Seq<usize>, Error>(ids@),
                ids.len() <= k,
                ids.len() <= self@.index.vectors.len(),
                forall|t: int| 0 <= t < ids.len() ==> (#[trigger] ids[t]) < self@.index.vectors.len(),
                forall|t: int| 0 <= t < i ==> (#[trigger] ids[t]) < self@.store.vectors.len(),
                forall|t: int| 0 <= t < i ==> (#[trigger] texts[t])@ == self@.store.texts[ids[t] as int],
            decreases ids.len() - i,
        {
            match self.store.get(ids[i]) {
                Ok((_, text)) => {
                    texts.push(text.clone());
                },
                Err(e) => {
                    return Err(e);
                },
            }
            i += 1;
        }
        assert(texts_view(texts@) =~= texts_of(self@.store, ids@));
        Ok(texts)
    }

    /// Answers `query_text` with the texts of the `k` nearest records,
    /// nearest first: embeds the query with `embed`, searches the index, and
    /// looks the records found up in the store.
    pub fn retrieve<F: Fn(&String) -> Option<Vec<i16>>>(&self, query_text: &String, embed: F, k: usize) -> (r:
        Result<Vec<String>, Error>)
        requires
            self.wf(),
            call_requires(embed, (query_text,)),
        ensures
            exists|embedding: Option<Vec<i16>>|
                call_ensures(embed, (query_text,), embedding) && match r {
                    Ok(texts) => #[trigger] retrieve_outcome(
                        self@,
                        embedding_view(embedding),
                        k as int,
                    ) == Ok::<Seq<Seq<char>>, Error>(texts_view(texts@)),
                    Err(e) => retrieve_outcome(self@, embedding_view(embedding), k as int) == Err::<
                        Seq<Seq<char>>,
                        Error,
                    >(e),
                },
            self@.in_step() ==> r != Err::<Vec<String>, Error>(Error::NotFound),
    {
        let embedding = embed(query_text);
        self.retrieve_embedded(embedding, k)
    }

    /// Answers a question with the texts of the `ANSWER_CHUNKS` nearest
    /// records, nearest first.
    pub fn ask_question<F: Fn(&String) -> Option<Vec<i16>>>(&self, question: &String, embed: F) -> (r:
        Result<Vec<String>, Error>)
        requires
            self.wf(),
            call_requires(embed, (question,)),
        ensures
            exists|embedding: Option<Vec<i16>>|
                call_ensures(embed, (question,), embedding) && match r {
                    Ok(texts) => #[trigger] retrieve_outcome(
                        self@,
                        embedding_view(embedding),
                        ANSWER_CHUNKS as int,
                    ) == Ok::<Seq<Seq<char>>, Error>(texts_view(texts@)),
                    Err(e) => retrieve_outcome(
                        self@,
                        embedding_view(embedding),
                        ANSWER_CHUNKS as int,
                    ) == Err::<Seq<Seq<char>>, Error>(e),
                },
            self@.in_step() ==> r != Err::<Vec<String>, Error>(Error::NotFound),
    {
        self.retrieve(question, embed, ANSWER_CHUNKS)
    }
}

} // verus!
