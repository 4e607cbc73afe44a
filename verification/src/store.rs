//! The store of records: vectors and their texts, by identifier.

use vstd::prelude::*;
use crate::copy::copy_of;
use crate::error::Error;
use crate::format::vectors_view;

verus! {

/// The records of a store as a mathematical value. A record's identifier is
/// its position.
pub struct StoreView {
    /// The dimension of every vector, once the first record has fixed it.
    pub dimension: Option<usize>,
    pub vectors: Seq<Seq<i16>>,
    pub texts: Seq<Seq<char>>,
}

impl StoreView {
    /// The invariant of a store.
    pub open spec fn wf(self) -> bool {
        &&& self.vectors.len() == self.texts.len()
        &&& self.dimension is None <==> self.vectors.len() == 0
        &&& forall|i: int|
            0 <= i < self.vectors.len() ==> Some((#[trigger] self.vectors[i]).len() as usize)
                == self.dimension && self.vectors[i].len() <= usize::MAX
    }

    /// Whether a vector of `len` components can be appended.
    pub open spec fn accepts(self, len: nat) -> bool {
        match self.dimension {
            Some(d) => d == len,
            None => true,
        }
    }

    /// The store with one more record.
    pub open spec fn appended(self, vector: Seq<i16>, text: Seq<char>) -> StoreView {
        StoreView {
            dimension: Some(vector.len() as usize),
            vectors: self.vectors.push(vector),
            texts: self.texts.push(text),
        }
    }
}

/// An append-only store of records: each holds a vector and its text, under
/// the identifier that it was given when it was appended.
pub struct RecordStore {
    dimension: Option<usize>,
    vectors: Vec<Vec<i16>>,
    texts: Vec<String>,
}

impl View for RecordStore {
    type V = StoreView;

    closed spec fn view(&self) -> StoreView {
        StoreView {
            dimension: self.dimension,
            vectors: Seq::new(self.vectors@.len(), |i: int| self.vectors@[i]@),
            texts: Seq::new(self.texts@.len(), |i: int| self.texts@[i]@),
        }
    }
}

impl RecordStore {
    /// The invariant of a store.
    pub open spec fn wf(&self) -> bool {
        self@.wf()
    }

    /// A store without records.
    pub fn new() -> (store: RecordStore)
        ensures
            store.wf(),
            store@.dimension is None,
            store@.vectors.len() == 0,
            store@.texts.len() == 0,
    {
        RecordStore { dimension: None, vectors: Vec::new(), texts: Vec::new() }
    }

    /// Appends a record and returns its identifier, the number of records
    /// appended before it.
    ///
    /// Fails with `DimensionMismatch`, and changes nothing, where the vector
    /// has not the length of the first vector that was appended.
    pub fn append(&mut self, vector: Vec<i16>, text: String) -> (r: Result<usize, Error>)
        requires
            old(self).wf(),
        ensures
            final(self).wf(),
            match r {
                Ok(id) => {
                    &&& old(self)@.accepts(vector@.len())
                    &&& id == old(self)@.vectors.len()
                    &&& final(self)@ == old(self)@.appended(vector@, text@)
                },
                Err(e) => {
                    &&& !old(self)@.accepts(vector@.len())
                    &&& e == Error::DimensionMismatch
                    &&& final(self)@ == old(self)@
                },
            },
    {
        match self.dimension {
            Some(d) => {
                if vector.len() != d {
                    return Err(Error::DimensionMismatch);
                }
            },
            None => {},
        }
        let ghost before = self@;
        let id = self.vectors.len();
        self.dimension = Some(vector.len());
        self.vectors.push(vector);
        self.texts.push(text);
        proof {
            let want = before.appended(vector@, text@);
            assert(self@.vectors =~= want.vectors);
            assert(self@.texts =~= want.texts);
        }
        Ok(id)
    }

    /// The vector and the text of the record `id`; `NotFound` where no
    /// record was given that identifier.
    pub fn get(&self, id: usize) -> (r: Result<(&Vec<i16>, &String), Error>)
        requires
            self.wf(),
        ensures
            match r {
                Ok((vector, text)) => {
                    &&& id < self@.vectors.len()
                    &&& vector@ == self@.vectors[id as int]
                    &&& text@ == self@.texts[id as int]
                },
                Err(e) => id >= self@.vectors.len() && e == Error::NotFound,
            },
    {
        if id >= self.vectors.len() {
            return Err(Error::NotFound);
        }
        Ok((&self.vectors[id], &self.texts[id]))
    }

    /// The number of records appended so far.
    pub fn count(&self) -> (n: usize)
        requires
            self.wf(),
        ensures
            n == self@.vectors.len(),
    {
        self.vectors.len()
    }

    /// A copy of the vectors of all records, by ascending identifier.
    pub fn vectors(&self) -> (copies: Vec<Vec<i16>>)
        requires
            self.wf(),
        ensures
            vectors_view(copies@) == self@.vectors,
    {
        let mut copies: Vec<Vec<i16>> = Vec::new();
        let mut i: usize = 0;
        while i < self.vectors.len()
            invariant
                i <= self.vectors.len(),
                copies.len() == i,
                forall|t: int| 0 <= t < i ==> (#[trigger] copies[t])@ == self.vectors[t]@,
            decreases self.vectors.len() - i,
        {
            copies.push(copy_of(self.vectors[i].as_slice()));
            i += 1;
        }
        copies
    }

    /// The dimension of the vectors, once the first record has fixed it.
    pub fn dimension(&self) -> (d: Option<usize>)
        ensures
            d == self@.dimension,
    {
        self.dimension
    }
}

} // verus!
