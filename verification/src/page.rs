//! Pages: bounded runs of consecutive records, cut out of the index in its
//! stored order, with the parts as text or as byte lengths.

use crate::index::records_view;
use crate::index::Metadata;
use crate::index::Metadatas;
use crate::index::PartOffset;
use crate::index::Record;
use crate::store::part_bytes;
use crate::store::part_fault;
use crate::store::part_text;
use crate::store::RawStore;
use crate::store::StoreError;
use vstd::prelude::*;
use vstd::slice::slice_subrange;
use vstd::utf8::decode_utf8_encode_utf8;
use vstd::utf8::encode_utf8;

verus! {

/// Where the page that starts at `start` and asks for `count` records ends
/// (exclusive) in an index of `total` records.
pub open spec fn page_end(total: int, start: int, count: int) -> int {
    if start + count < total {
        start + count
    } else {
        total
    }
}

/// The page of `records` that starts at `start` and asks for `count` records:
/// nothing where `start` lies behind the last record, else the records from
/// `start` on, as many as there are but no more than `count`.
pub open spec fn page_of<T>(records: Seq<T>, start: int, count: int) -> Seq<T> {
    if start >= records.len() {
        Seq::empty()
    } else {
        records.subrange(start, page_end(records.len() as int, start, count))
    }
}

/// How many records that page holds.
pub open spec fn page_len(total: int, start: int, count: int) -> int {
    if start >= total {
        0
    } else if count < total - start {
        count
    } else {
        total - start
    }
}

/// The fault of the first of `parts`, in order, that has one.
pub open spec fn parts_fault(store: Seq<u8>, parts: Seq<PartOffset>) -> Option<StoreError>
    decreases parts.len(),
{
    if parts.len() == 0 {
        None
    } else if parts_fault(store, parts.drop_last()) is Some {
        parts_fault(store, parts.drop_last())
    } else {
        part_fault(store, parts.last())
    }
}

/// The fault of the first part that has one, going through `records` in
/// order and through the parts of each in order.
pub open spec fn records_fault(store: Seq<u8>, records: Seq<Record<PartOffset>>) -> Option<
    StoreError,
>
    decreases records.len(),
{
    if records.len() == 0 {
        None
    } else if records_fault(store, records.drop_last()) is Some {
        records_fault(store, records.drop_last())
    } else {
        parts_fault(store, records.last().parts)
    }
}

/// `record` with every part replaced by its text in `store`.
pub open spec fn record_text(store: Seq<u8>, record: Record<PartOffset>) -> Record<Seq<char>> {
    Record {
        url: record.url,
        likes: record.likes,
        parts: record.parts.map_values(|p: PartOffset| part_text(store, p)),
        rating: record.rating,
        direction: record.direction,
        category: record.category,
    }
}

/// `record` with every part replaced by its length in bytes.
pub open spec fn record_lengths(record: Record<PartOffset>) -> Record<usize> {
    Record {
        url: record.url,
        likes: record.likes,
        parts: record.parts.map_values(|p: PartOffset| p.length),
        rating: record.rating,
        direction: record.direction,
        category: record.category,
    }
}

/// Every record of `records` with its parts as text.
pub open spec fn records_text(store: Seq<u8>, records: Seq<Record<PartOffset>>) -> Seq<
    Record<Seq<char>>,
> {
    records.map_values(|r: Record<PartOffset>| record_text(store, r))
}

/// Every record of `records` with its parts as byte lengths.
pub open spec fn records_lengths(records: Seq<Record<PartOffset>>) -> Seq<Record<usize>> {
    records.map_values(|r: Record<PartOffset>| record_lengths(r))
}

/// The page `(start, count)` of `index` with the parts as text read from
/// `store`: the fault of the first part of the page that has one, else the
/// records of the page with every part as text.
pub open spec fn text_page(
    index: Seq<Record<PartOffset>>,
    store: Seq<u8>,
    start: int,
    count: int,
) -> Result<Seq<Record<Seq<char>>>, StoreError> {
    match records_fault(store, page_of(index, start, count)) {
        Some(e) => Err(e),
        None => Ok(records_text(store, page_of(index, start, count))),
    }
}

/// The page `(start, count)` of `index` with the parts as byte lengths.
pub open spec fn length_page(index: Seq<Record<PartOffset>>, start: int, count: int) -> Seq<
    Record<usize>,
> {
    records_lengths(page_of(index, start, count))
}

/// A fault among the first `k` parts is the fault of the whole list.
pub proof fn lemma_parts_fault_prefix(store: Seq<u8>, parts: Seq<PartOffset>, k: int)
    requires
        0 <= k <= parts.len(),
        parts_fault(store, parts.take(k)) is Some,
    ensures
        parts_fault(store, parts) == parts_fault(store, parts.take(k)),
    decreases parts.len(),
{
    if k == parts.len() {
        assert(parts.take(k) =~= parts);
    } else {
        assert(parts.drop_last().take(k) =~= parts.take(k));
        lemma_parts_fault_prefix(store, parts.drop_last(), k);
    }
}

/// A fault among the first `k` records is the fault of the whole list.
pub proof fn lemma_records_fault_prefix(
    store: Seq<u8>,
    records: Seq<Record<PartOffset>>,
    k: int,
)
    requires
        0 <= k <= records.len(),
        records_fault(store, records.take(k)) is Some,
    ensures
        records_fault(store, records) == records_fault(store, records.take(k)),
    decreases records.len(),
{
    if k == records.len() {
        assert(records.take(k) =~= records);
    } else {
        assert(records.drop_last().take(k) =~= records.take(k));
        lemma_records_fault_prefix(store, records.drop_last(), k);
    }
}

/// A list of parts is free of faults exactly when each of its parts is.
pub proof fn lemma_parts_fault_none(store: Seq<u8>, parts: Seq<PartOffset>)
    ensures
        parts_fault(store, parts) is None <==> forall|j: int|
            0 <= j < parts.len() ==> part_fault(store, #[trigger] parts[j]) is None,
    decreases parts.len(),
{
    if parts.len() > 0 {
        lemma_parts_fault_none(store, parts.drop_last());
        if parts_fault(store, parts) is None {
            assert forall|j: int| 0 <= j < parts.len() implies part_fault(
                store,
                #[trigger] parts[j],
            ) is None by {
                if j < parts.len() - 1 {
                    assert(parts.drop_last()[j] == parts[j]);
                }
            }
        }
    }
}

/// A list of records is free of faults exactly when every part of every
/// record is.
pub proof fn lemma_records_fault_none(store: Seq<u8>, records: Seq<Record<PartOffset>>)
    ensures
        records_fault(store, records) is None <==> forall|i: int|
            0 <= i < records.len() ==> parts_fault(store, (#[trigger] records[i]).parts) is None,
    decreases records.len(),
{
    if records.len() > 0 {
        lemma_records_fault_none(store, records.drop_last());
        if records_fault(store, records) is None {
            assert forall|i: int| 0 <= i < records.len() implies parts_fault(
                store,
                (#[trigger] records[i]).parts,
            ) is None by {
                if i < records.len() - 1 {
                    assert(records.drop_last()[i] == records[i]);
                }
            }
        }
    }
}

/// The fault of a list of parts is the fault of one of its parts, and no
/// part before that one has a fault.
pub proof fn lemma_parts_fault_some(store: Seq<u8>, parts: Seq<PartOffset>)
    requires
        parts_fault(store, parts) is Some,
    ensures
        exists|j: int|
            {
                &&& 0 <= j < parts.len()
                &&& part_fault(store, #[trigger] parts[j]) == parts_fault(store, parts)
                &&& parts_fault(store, parts.take(j)) is None
            },
    decreases parts.len(),
{
    let short = parts.drop_last();
    if parts_fault(store, short) is Some {
        lemma_parts_fault_some(store, short);
        let j = choose|j: int|
            {
                &&& 0 <= j < short.len()
                &&& part_fault(store, #[trigger] short[j]) == parts_fault(store, short)
                &&& parts_fault(store, short.take(j)) is None
            };
        assert(short.take(j) =~= parts.take(j));
    }
}

/// The fault of a list of records is the fault of one of its records, and no
/// record before that one has a fault.
pub proof fn lemma_records_fault_some(store: Seq<u8>, records: Seq<Record<PartOffset>>)
    requires
        records_fault(store, records) is Some,
    ensures
        exists|i: int|
            {
                &&& 0 <= i < records.len()
                &&& parts_fault(store, (#[trigger] records[i]).parts) == records_fault(
                    store,
                    records,
                )
                &&& records_fault(store, records.take(i)) is None
            },
    decreases records.len(),
{
    let short = records.drop_last();
    if records_fault(store, short) is Some {
        lemma_records_fault_some(store, short);
        let i = choose|i: int|
            {
                &&& 0 <= i < short.len()
                &&& parts_fault(store, (#[trigger] short[i]).parts) == records_fault(store, short)
                &&& records_fault(store, short.take(i)) is None
            };
        assert(short.take(i) =~= records.take(i));
    }
}

/// A page never fails where it holds no record: behind the last record, and
/// where no record is asked for. Else it holds the records from `start` on,
/// as many as were asked for or as are left, whichever is less.
pub proof fn lemma_page_bounds(
    index: Seq<Record<PartOffset>>,
    store: Seq<u8>,
    start: nat,
    count: nat,
)
    ensures
        start >= index.len() || count == 0 ==> text_page(index, store, start as int, count as int)
            == Ok::<Seq<Record<Seq<char>>>, StoreError>(Seq::empty()),
        start >= index.len() || count == 0 ==> length_page(index, start as int, count as int)
            == Seq::<Record<usize>>::empty(),
        page_of(index, start as int, count as int).len() == page_len(
            index.len() as int,
            start as int,
            count as int,
        ),
        length_page(index, start as int, count as int).len() == page_len(
            index.len() as int,
            start as int,
            count as int,
        ),
        forall|i: int|
            0 <= i < page_len(index.len() as int, start as int, count as int)
                ==> #[trigger] page_of(index, start as int, count as int)[i] == index[start + i],
{
    let page = page_of(index, start as int, count as int);
    if start >= index.len() || count == 0 {
        assert(records_text(store, page) =~= Seq::empty());
    }
}

/// Pages of text and pages of lengths agree: where the page of text can be
/// had, it holds as many records as the page of lengths, each record has as
/// many parts in the one as in the other, and every text is as many bytes
/// long as the page of lengths says.
pub proof fn lemma_text_and_lengths_agree(
    index: Seq<Record<PartOffset>>,
    store: Seq<u8>,
    start: nat,
    count: nat,
)
    requires
        text_page(index, store, start as int, count as int) is Ok,
    ensures
        ({
            let text = text_page(index, store, start as int, count as int)->Ok_0;
            let lengths = length_page(index, start as int, count as int);
            &&& text.len() == lengths.len()
            &&& forall|i: int|
                0 <= i < text.len() ==> (#[trigger] text[i]).parts.len() == lengths[i].parts.len()
            &&& forall|i: int, j: int|
                0 <= i < text.len() && 0 <= j < text[i].parts.len() ==> encode_utf8(
                    #[trigger] text[i].parts[j],
                ).len() == lengths[i].parts[j]
        }),
{
    let page = page_of(index, start as int, count as int);
    let text = text_page(index, store, start as int, count as int)->Ok_0;
    let lengths = length_page(index, start as int, count as int);
    lemma_text_is_store_bytes(index, store, start, count);
    assert forall|i: int, j: int|
        0 <= i < text.len() && 0 <= j < text[i].parts.len() implies encode_utf8(
        #[trigger] text[i].parts[j],
    ).len() == lengths[i].parts[j] by {
        lemma_records_fault_none(store, page);
        lemma_parts_fault_none(store, page[i].parts);
    }
}

/// What a page of text gives is what the store holds: encoded as UTF-8,
/// the text of a part is the bytes of the store that the part's locator
/// addresses.
pub proof fn lemma_text_is_store_bytes(
    index: Seq<Record<PartOffset>>,
    store: Seq<u8>,
    start: nat,
    count: nat,
)
    requires
        text_page(index, store, start as int, count as int) is Ok,
    ensures
        ({
            let page = page_of(index, start as int, count as int);
            let text = text_page(index, store, start as int, count as int)->Ok_0;
            forall|i: int, j: int|
                0 <= i < text.len() && 0 <= j < text[i].parts.len() ==> encode_utf8(
                    #[trigger] text[i].parts[j],
                ) == part_bytes(store, page[i].parts[j])
        }),
{
    let page = page_of(index, start as int, count as int);
    let text = text_page(index, store, start as int, count as int)->Ok_0;
    lemma_records_fault_none(store, page);
    assert forall|i: int, j: int|
        0 <= i < text.len() && 0 <= j < text[i].parts.len() implies encode_utf8(
        #[trigger] text[i].parts[j],
    ) == part_bytes(store, page[i].parts[j]) by {
        lemma_parts_fault_none(store, page[i].parts);
        decode_utf8_encode_utf8(part_bytes(store, page[i].parts[j]));
    }
}

/// Reads the text of every part of `record` from `raw`, in order, and stops
/// at the first part that cannot be read as text.
pub fn read_record(raw: &RawStore, record: &Metadata<PartOffset>) -> (res: Result<
    Metadata<String>,
    StoreError,
>)
    ensures
        match res {
            Ok(text) => parts_fault(raw@, record@.parts) is None && text@ == record_text(
                raw@,
                record@,
            ),
            Err(e) => parts_fault(raw@, record@.parts) == Some(e),
        },
{
    let mut parts: Vec<String> = Vec::with_capacity(record.parts.len());
    let mut j: usize = 0;
    while j < record.parts.len()
        invariant
            j <= record.parts@.len(),
            parts@.len() == j,
            parts_fault(raw@, record@.parts.take(j as int)) is None,
            forall|k: int|
                0 <= k < j ==> (#[trigger] parts@[k])@ == part_text(raw@, record.parts@[k]),
        decreases record.parts@.len() - j,
    {
        proof {
            assert(record@.parts.take(j + 1).drop_last() =~= record@.parts.take(j as int));
        }
        match raw.read_text(&record.parts[j]) {
            Ok(text) => {
                parts.push(text);
            },
            Err(e) => {
                proof {
                    lemma_parts_fault_prefix(raw@, record@.parts, j + 1);
                }
                return Err(e);
            },
        }
        j += 1;
    }
    let text = Metadata {
        url: record.url.clone(),
        likes: record.likes,
        parts,
        rating: record.rating.clone(),
        direction: record.direction.clone(),
        category: record.category.clone(),
    };
    proof {
        assert(record@.parts.take(j as int) =~= record@.parts);
    }
    Ok(text)
}

/// `record` with the byte length of each part in place of its locator. The
/// raw store is not needed for this.
pub fn record_part_lengths(record: &Metadata<PartOffset>) -> (res: Metadata<usize>)
    ensures
        res@ == record_lengths(record@),
{
    let mut parts: Vec<usize> = Vec::with_capacity(record.parts.len());
    let mut j: usize = 0;
    while j < record.parts.len()
        invariant
            j <= record.parts@.len(),
            parts@.len() == j,
            forall|k: int| 0 <= k < j ==> #[trigger] parts@[k] == record.parts@[k].length,
        decreases record.parts@.len() - j,
    {
        parts.push(record.parts[j].length);
        j += 1;
    }
    Metadata {
        url: record.url.clone(),
        likes: record.likes,
        parts,
        rating: record.rating.clone(),
        direction: record.direction.clone(),
        category: record.category.clone(),
    }
}

/// The index and the raw store that it points into. Neither changes once
/// the two are put together.
pub struct ServerStateInner {
    metadata: Metadatas<PartOffset>,
    raw: RawStore,
}

impl ServerStateInner {
    /// The records of the index, in their stored order.
    pub closed spec fn index(&self) -> Seq<Record<PartOffset>> {
        self.metadata@
    }

    /// The bytes of the raw store.
    pub closed spec fn store(&self) -> Seq<u8> {
        self.raw@
    }

    /// Puts an index together with the raw store that it points into.
    pub fn new(metadata: Metadatas<PartOffset>, raw: RawStore) -> (state: ServerStateInner)
        ensures
            state.index() == metadata@,
            state.store() == raw@,
    {
        ServerStateInner { metadata, raw }
    }

    /// The index.
    pub fn metadata(&self) -> (metadata: &Metadatas<PartOffset>)
        ensures
            metadata@ == self.index(),
    {
        &self.metadata
    }

    /// The raw store.
    pub fn raw(&self) -> (raw: &RawStore)
        ensures
            raw@ == self.store(),
    {
        &self.raw
    }

    /// The page `(start, len)` with the text of every part read from the raw
    /// store. A start behind the last record gives the empty page, and a page
    /// that would run past the last record ends there. One part that cannot
    /// be read as text fails the whole page, with the fault of the first such
    /// part in page order. An empty page reads nothing and cannot fail.
    pub fn get_subseg(&self, start: usize, len: usize) -> (res: Result<
        Metadatas<String>,
        StoreError,
    >)
        ensures
            match res {
                Ok(page) => text_page(self.index(), self.store(), start as int, len as int) == Ok::<
                    Seq<Record<Seq<char>>>,
                    StoreError,
                >(page@),
                Err(e) => text_page(self.index(), self.store(), start as int, len as int) == Err::<
                    Seq<Record<Seq<char>>>,
                    StoreError,
                >(e),
            },
            res matches Ok(page) ==> page@.len() == page_len(
                self.index().len() as int,
                start as int,
                len as int,
            ),
            start >= self.index().len() || len == 0 ==> (res matches Ok(page) && page@.len()
                == 0),
    {
        let metas = self.get_meta_subseg(start, len);
        let ghost page = page_of(self.metadata@, start as int, len as int);
        let mut new_metas: Vec<Metadata<String>> = Vec::with_capacity(metas.len());
        let mut i: usize = 0;
        while i < metas.len()
            invariant
                i <= metas@.len(),
                records_view(metas@) == page,
                page == page_of(self.metadata@, start as int, len as int),
                metas@.len() == page_len(self.metadata@.len() as int, start as int, len as int),
                new_metas@.len() == i,
                records_fault(self.raw@, page.take(i as int)) is None,
                forall|k: int|
                    0 <= k < i ==> (#[trigger] new_metas@[k])@ == record_text(self.raw@, page[k]),
            decreases metas@.len() - i,
        {
            proof {
                assert(page.take(i + 1).drop_last() =~= page.take(i as int));
            }
            match read_record(&self.raw, &metas[i]) {
                Ok(text) => {
                    new_metas.push(text);
                },
                Err(e) => {
                    proof {
                        lemma_records_fault_prefix(self.raw@, page, i + 1);
                    }
                    return Err(e);
                },
            }
            i += 1;
        }
        let res = Metadatas(new_metas);
        proof {
            assert(page.take(i as int) =~= page);
            assert(res@ =~= records_text(self.raw@, page));
        }
        Ok(res)
    }

    /// The page `(start, len)` as it stands in the index: the records from
    /// `start` on, as many as there are but no more than `len`, in the
    /// stored order; none where `start` lies behind the last record.
    pub fn get_meta_subseg(&self, start: usize, len: usize) -> (res: &[Metadata<PartOffset>])
        ensures
            records_view(res@) == page_of(self.index(), start as int, len as int),
            res@.len() == page_len(self.index().len() as int, start as int, len as int),
    {
        let total = self.metadata.len();
        let all = self.metadata.0.as_slice();
        if start >= total {
            slice_subrange(all, 0, 0)
        } else {
            let end = if len < total - start {
                start + len
            } else {
                total
            };
            slice_subrange(all, start, end)
        }
    }
}

} // verus!
