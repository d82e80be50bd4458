//! The index: records and the locators of their parts.

use vstd::prelude::*;

verus! {

/// The byte range of one part in the raw store.
#[derive(Debug, Clone, Copy, PartialEq, Eq)]
pub struct PartOffset {
    pub offset: u64,
    pub length: usize,
}

impl View for PartOffset {
    type V = PartOffset;

    open spec fn view(&self) -> PartOffset {
        *self
    }
}

/// One record. `Part` is how a part is represented: a [`PartOffset`] in the
/// index, a `String` once its text has been read, a `usize` where only its
/// byte length is reported.
#[derive(Debug, Clone, PartialEq, Eq)]
pub struct Metadata<Part> {
    pub url: String,
    pub likes: u64,
    pub parts: Vec<Part>,
    pub rating: String,
    pub direction: String,
    pub category: String,
}

/// The mathematical value of a record whose parts have the value `P`.
#[verifier::ext_equal]
pub struct Record<P> {
    pub url: Seq<char>,
    pub likes: u64,
    pub parts: Seq<P>,
    pub rating: Seq<char>,
    pub direction: Seq<char>,
    pub category: Seq<char>,
}

impl<Part: View> View for Metadata<Part> {
    type V = Record<Part::V>;

    open spec fn view(&self) -> Record<Part::V> {
        Record {
            url: self.url@,
            likes: self.likes,
            parts: self.parts@.map_values(|p: Part| p@),
            rating: self.rating@,
            direction: self.direction@,
            category: self.category@,
        }
    }
}

/// The values of `records`, in order.
pub open spec fn records_view<Part: View>(records: Seq<Metadata<Part>>) -> Seq<Record<Part::V>> {
    records.map_values(|m: Metadata<Part>| m@)
}

/// An ordered sequence of records. The order in which the records were
/// inserted is the order in which pages are cut.
#[derive(Debug, Clone, PartialEq, Eq)]
pub struct Metadatas<Part>(pub Vec<Metadata<Part>>);

impl<Part: View> View for Metadatas<Part> {
    type V = Seq<Record<Part::V>>;

    open spec fn view(&self) -> Seq<Record<Part::V>> {
        records_view(self.0@)
    }
}

impl<Part> Metadatas<Part> {
    /// The number of records.
    pub fn len(&self) -> (n: usize)
        ensures
            n == self.0@.len(),
    {
        self.0.len()
    }
}

} // verus!
