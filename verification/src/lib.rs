//! A semantic document-retrieval engine.
//!
//! Text chunks are stored next to their embeddings, the embeddings are
//! indexed in a layered proximity graph, and a query embedding is answered
//! with the nearest chunks.
//!
//! Embeddings are quantized: every component is a signed 16-bit fixed-point
//! number. All distances are then exact integers, and everything that the
//! engine computes is proved of it:
//!
//! - [`metric`] defines the distances and proves them symmetric;
//! - [`store`] keeps the records, [`chunk`] cuts documents into them;
//! - [`level`] turns a random draw into the top layer of a node;
//! - [`graph`] holds the model of an index and its invariant, [`index`] the
//!   index itself;
//! - [`beam`], [`search`] and [`insert`] are the search of a layer, the
//!   answering of a query and the insertion of a node, each proved to
//!   compute what its definition says and to keep the invariant; an
//!   insertion selects neighbours ([`select`]) and links the node back from
//!   them ([`link`]);
//! - [`complete`] proves that a search is exact where the beam is as wide as
//!   the index is large and no list of neighbours was ever cut back;
//! - [`format`] defines snapshots, [`save`] writes and [`load`] reads them,
//!   and [`roundtrip`] proves that the two undo each other;
//! - [`preserve`] proves that every insertion keeps the invariant, and
//!   [`laws`] that the first vector inserted is found;
//! - [`service`] is the pipeline that ingests documents and answers
//!   questions.
//!
//! The embedding function is the caller's. The one thing taken on trust is
//! the random generator that draws the layers of new nodes: nothing is
//! assumed of the numbers it gives, and [`index::HnswIndex::insert`] takes
//! the number drawn as an argument.

pub mod beam;
pub mod chunk;
pub mod copy;
pub mod complete;
pub mod error;
pub mod format;
pub mod graph;
pub mod index;
pub mod insert;
pub mod laws;
pub mod level;
pub mod load;
pub mod link;
pub mod metric;
pub mod preserve;
pub mod roundtrip;
pub mod save;
pub mod search;
pub mod select;
pub mod service;
pub mod store;
