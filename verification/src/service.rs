//! The service: one index and one raw store, shared and never changed, and
//! the two paged queries over them with their ceilings on `count`.

use crate::index::records_view;
use crate::index::Metadata;
use crate::index::Metadatas;
use crate::index::PartOffset;
use crate::index::Record;
use crate::page::length_page;
use crate::page::page_len;
use crate::page::page_of;
use crate::page::record_lengths;
use crate::page::record_part_lengths;
use crate::page::text_page;
use crate::page::ServerStateInner;
use crate::store::RawStore;
use crate::store::StoreError;
use std::sync::Arc;
use vstd::prelude::*;

verus! {

/// The most records that one query for text may ask for.
pub const FULL_CEILING: usize = 10000;

/// The most records that one query for part lengths may ask for.
pub const META_CEILING: usize = 100000;

/// The two ways in which a page gives the parts of its records.
#[derive(Debug, Clone, Copy, PartialEq, Eq)]
pub enum Mode {
    /// Every part as its text, read from the raw store.
    Full,
    /// Every part as its length in bytes, taken from the index alone.
    MetaOnly,
}

impl Mode {
    /// The ceiling on `count` in this mode.
    pub open spec fn spec_ceiling(self) -> usize {
        match self {
            Mode::Full => FULL_CEILING,
            Mode::MetaOnly => META_CEILING,
        }
    }

    /// The ceiling on `count` in this mode.
    #[verifier::when_used_as_spec(spec_ceiling)]
    pub fn ceiling(self) -> (n: usize)
        ensures
            n == self.spec_ceiling(),
    {
        match self {
            Mode::Full => FULL_CEILING,
            Mode::MetaOnly => META_CEILING,
        }
    }
}

/// Why a query was not answered.
#[derive(Debug, Clone, Copy, PartialEq, Eq)]
pub enum QueryError {
    /// `count` is above the ceiling of the mode. The caller is told so.
    ClientRange { mode: Mode, count: usize },
    /// The raw store could not supply a part or the part is not text. The
    /// fault is for the operator; the caller is told no more than that the
    /// query failed.
    Internal(StoreError),
}

impl QueryError {
    /// The HTTP status that answers the caller: 400 for a `count` above
    /// the ceiling, 500 for a fault of the store.
    pub fn status_code(&self) -> (code: u16)
        ensures
            code == (if self is ClientRange {
                400u16
            } else {
                500u16
            }),
    {
        match self {
            QueryError::ClientRange { .. } => 400,
            QueryError::Internal(_) => 500,
        }
    }

    /// What the caller is told: which ceiling `count` went above, or, for
    /// every fault of the store alike, that the query failed.
    pub fn reason(&self) -> (text: &'static str)
        ensures
            text@ == (match *self {
                QueryError::ClientRange { mode: Mode::Full, .. } => {
                    "count is greated than 10000"@
                },
                QueryError::ClientRange { mode: Mode::MetaOnly, .. } => {
                    "count is greated than 100000"@
                },
                QueryError::Internal(_) => "Internal server error"@,
            }),
    {
        match self {
            QueryError::ClientRange { mode: Mode::Full, .. } => "count is greated than 10000",
            QueryError::ClientRange { mode: Mode::MetaOnly, .. } => "count is greated than 100000",
            QueryError::Internal(_) => "Internal server error",
        }
    }
}

/// A handle on the shared state. Clones share one index and one raw store,
/// and no handle can change either.
#[derive(Clone)]
pub struct ServerState(Arc<ServerStateInner>);

impl ServerState {
    /// The records of the index that the state holds, in their stored order.
    pub closed spec fn index(&self) -> Seq<Record<PartOffset>> {
        self.0.index()
    }

    /// The bytes of the raw store that the state holds.
    pub closed spec fn store(&self) -> Seq<u8> {
        self.0.store()
    }

    /// Puts an index and the raw store that it points into behind one
    /// shared handle.
    pub fn new(metadata: Metadatas<PartOffset>, raw: RawStore) -> (state: ServerState)
        ensures
            state.index() == metadata@,
            state.store() == raw@,
    {
        ServerState(Arc::new(ServerStateInner::new(metadata, raw)))
    }

    /// The page `(start, len)` with every part as text: see
    /// [`ServerStateInner::get_subseg`].
    pub fn get_subseg(&self, start: usize, len: usize) -> (res: Result<
        Metadatas<String>,
        StoreError,
    >)
        ensures
            match res {
                Ok(page) => text_page(self.index(), self.store(), start as int, len as int) == Ok::<
                    Seq<Record<Seq<char>>>,
                    StoreError,
                >(page@),
                Err(e) => text_page(self.index(), self.store(), start as int, len as int) == Err::<
                    Seq<Record<Seq<char>>>,
                    StoreError,
                >(e),
            },
            res matches Ok(page) ==> page@.len() == page_len(
                self.index().len() as int,
                start as int,
                len as int,
            ),
            start >= self.index().len() || len == 0 ==> (res matches Ok(page) && page@.len() == 0),
    {
        self.0.get_subseg(start, len)
    }

    /// The page `(start, len)` as it stands in the index: see
    /// [`ServerStateInner::get_meta_subseg`].
    pub fn get_meta_subseg(&self, start: usize, len: usize) -> (res: &[Metadata<PartOffset>])
        ensures
            records_view(res@) == page_of(self.index(), start as int, len as int),
            res@.len() == page_len(self.index().len() as int, start as int, len as int),
    {
        self.0.get_meta_subseg(start, len)
    }
}

/// What a query for the page `(start, count)` of text is answered with: a
/// `count` above [`FULL_CEILING`] is turned away before anything is read;
/// else the page, or the fault that kept one of its parts from being read.
pub open spec fn paged_get(
    index: Seq<Record<PartOffset>>,
    store: Seq<u8>,
    start: usize,
    count: usize,
) -> Result<Seq<Record<Seq<char>>>, QueryError> {
    if count > FULL_CEILING {
        Err(QueryError::ClientRange { mode: Mode::Full, count })
    } else {
        match text_page(index, store, start as int, count as int) {
            Ok(page) => Ok(page),
            Err(e) => Err(QueryError::Internal(e)),
        }
    }
}

/// What a query for the page `(start, count)` of part lengths is answered
/// with: a `count` above [`META_CEILING`] is turned away; else the page.
pub open spec fn metadata_get(index: Seq<Record<PartOffset>>, start: usize, count: usize) -> Result<
    Seq<Record<usize>>,
    QueryError,
> {
    if count > META_CEILING {
        Err(QueryError::ClientRange { mode: Mode::MetaOnly, count })
    } else {
        Ok(length_page(index, start as int, count as int))
    }
}

/// Answers a query for the page `(start, count)` with every part as text.
/// A `count` of exactly [`FULL_CEILING`] is served, one above is not.
pub fn handle_paged_get(state: &ServerState, start: usize, count: usize) -> (res: Result<
    Metadatas<String>,
    QueryError,
>)
    ensures
        match res {
            Ok(page) => paged_get(state.index(), state.store(), start, count) == Ok::<
                Seq<Record<Seq<char>>>,
                QueryError,
            >(page@),
            Err(e) => paged_get(state.index(), state.store(), start, count) == Err::<
                Seq<Record<Seq<char>>>,
                QueryError,
            >(e),
        },
        count > FULL_CEILING <==> res matches Err(QueryError::ClientRange { .. }),
{
    if count > FULL_CEILING {
        return Err(QueryError::ClientRange { mode: Mode::Full, count });
    }
    match state.get_subseg(start, count) {
        Ok(page) => Ok(page),
        Err(e) => Err(QueryError::Internal(e)),
    }
}

/// Answers a query for the page `(start, count)` with every part as its
/// length in bytes. The raw store is not touched. A `count` of exactly
/// [`META_CEILING`] is served, one above is not.
pub fn handle_metadata_get(state: &ServerState, start: usize, count: usize) -> (res: Result<
    Metadatas<usize>,
    QueryError,
>)
    ensures
        match res {
            Ok(page) => metadata_get(state.index(), start, count) == Ok::<
                Seq<Record<usize>>,
                QueryError,
            >(page@),
            Err(e) => metadata_get(state.index(), start, count) == Err::<
                Seq<Record<usize>>,
                QueryError,
            >(e),
        },
        count > META_CEILING <==> res is Err,
{
    if count > META_CEILING {
        return Err(QueryError::ClientRange { mode: Mode::MetaOnly, count });
    }
    let metas = state.get_meta_subseg(start, count);
    let ghost page = page_of(state.index(), start as int, count as int);
    let mut new_metas: Vec<Metadata<usize>> = Vec::with_capacity(metas.len());
    let mut i: usize = 0;
    while i < metas.len()
        invariant
            i <= metas@.len(),
            records_view(metas@) == page,
            new_metas@.len() == i,
            forall|k: int| 0 <= k < i ==> (#[trigger] new_metas@[k])@ == record_lengths(page[k]),
        decreases metas@.len() - i,
    {
        new_metas.push(record_part_lengths(&metas[i]));
        i += 1;
    }
    let res = Metadatas(new_metas);
    proof {
        assert(res@ =~= length_page(state.index(), start as int, count as int));
    }
    Ok(res)
}

} // verus!
