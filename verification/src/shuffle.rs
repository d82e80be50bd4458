//! Laying the raw store out anew: the parts of every record are copied, in
//! index order, into a fresh store, one after another, and every locator is
//! made to point at the copy. A shuffle does this in a random record
//! order.

use crate::index::Metadata;
use crate::index::Metadatas;
use crate::index::PartOffset;
use crate::index::Record;
use crate::page::lemma_parts_fault_none;
use crate::page::lemma_parts_fault_prefix;
use crate::page::lemma_parts_fault_some;
use crate::page::lemma_records_fault_none;
use crate::page::lemma_records_fault_prefix;
use crate::page::lemma_records_fault_some;
use crate::page::parts_fault;
use crate::page::record_text;
use crate::page::records_fault;
use crate::page::records_text;
use crate::store::decode_text;
use crate::store::part_bytes;
use crate::store::part_fault;
use crate::store::part_readable;
use crate::store::RawStore;
use crate::store::StoreError;
use rand::seq::SliceRandom;
use rand::thread_rng;
use vstd::prelude::*;

verus! {

/// The lengths of `parts`, added up.
pub open spec fn parts_len(parts: Seq<PartOffset>) -> nat
    decreases parts.len(),
{
    if parts.len() == 0 {
        0
    } else {
        parts_len(parts.drop_last()) + parts.last().length as nat
    }
}

/// The lengths of all parts of `records`, added up.
pub open spec fn records_len(records: Seq<Record<PartOffset>>) -> nat
    decreases records.len(),
{
    if records.len() == 0 {
        0
    } else {
        records_len(records.drop_last()) + parts_len(records.last().parts)
    }
}

/// The bytes of `parts` in `store`, one part after another.
pub open spec fn parts_bytes(store: Seq<u8>, parts: Seq<PartOffset>) -> Seq<u8>
    decreases parts.len(),
{
    if parts.len() == 0 {
        Seq::empty()
    } else {
        parts_bytes(store, parts.drop_last()) + part_bytes(store, parts.last())
    }
}

/// The bytes of all parts of `records` in `store`, one record after another.
pub open spec fn records_bytes(store: Seq<u8>, records: Seq<Record<PartOffset>>) -> Seq<u8>
    decreases records.len(),
{
    if records.len() == 0 {
        Seq::empty()
    } else {
        records_bytes(store, records.drop_last()) + parts_bytes(store, records.last().parts)
    }
}

/// `parts` laid out one after another from offset `base` on: every part
/// keeps its length and starts where the one before it ends.
pub open spec fn packed_parts(parts: Seq<PartOffset>, base: nat) -> Seq<PartOffset> {
    Seq::new(
        parts.len(),
        |j: int|
            PartOffset {
                offset: (base + parts_len(parts.take(j))) as u64,
                length: parts[j].length,
            },
    )
}

/// `record` with its parts laid out from offset `base` on.
pub open spec fn packed_record(record: Record<PartOffset>, base: nat) -> Record<PartOffset> {
    Record {
        url: record.url,
        likes: record.likes,
        parts: packed_parts(record.parts, base),
        rating: record.rating,
        direction: record.direction,
        category: record.category,
    }
}

/// `records` with all parts laid out one after another from offset 0 on, in
/// the order of the records and, within a record, of its parts.
pub open spec fn packed_records(records: Seq<Record<PartOffset>>) -> Seq<Record<PartOffset>> {
    Seq::new(
        records.len(),
        |i: int| packed_record(records[i], records_len(records.take(i))),
    )
}

/// What laying `store` out anew in the order of `records` gives: the fault
/// of the first part that has one, else the packed index and the new store.
pub open spec fn reindexed(store: Seq<u8>, records: Seq<Record<PartOffset>>) -> Result<
    (Seq<Record<PartOffset>>, Seq<u8>),
    StoreError,
> {
    match records_fault(store, records) {
        Some(e) => Err(e),
        None => Ok((packed_records(records), records_bytes(store, records))),
    }
}

/// What a run, failed or not, has given, as values.
pub open spec fn outcome_view(res: Result<(Metadatas<PartOffset>, RawStore), StoreError>) -> Result<
    (Seq<Record<PartOffset>>, Seq<u8>),
    StoreError,
> {
    match res {
        Ok((meta, raw)) => Ok((meta@, raw@)),
        Err(e) => Err(e),
    }
}

/// `store` can supply the bytes of every part of `records`.
pub open spec fn records_readable(store: Seq<u8>, records: Seq<Record<PartOffset>>) -> bool {
    forall|i: int, j: int|
        0 <= i < records.len() && 0 <= j < records[i].parts.len() ==> part_readable(
            store,
            #[trigger] records[i].parts[j],
        )
}

/// What `records` hold in `store`, record by record: the url and the bytes
/// of all parts, one after another.
pub open spec fn records_contents(store: Seq<u8>, records: Seq<Record<PartOffset>>) -> Seq<
    (Seq<char>, Seq<u8>),
> {
    records.map_values(|r: Record<PartOffset>| (r.url, parts_bytes(store, r.parts)))
}

/// Two sequences that hold the same items equally often still do so after
/// one function has been applied to every item.
pub proof fn lemma_map_values_to_multiset<A, B>(a: Seq<A>, b: Seq<A>, f: spec_fn(A) -> B)
    requires
        a.to_multiset() == b.to_multiset(),
    ensures
        a.map_values(f).to_multiset() == b.map_values(f).to_multiset(),
    decreases a.len(),
{
    a.to_multiset_ensures();
    b.to_multiset_ensures();
    if a.len() == 0 {
        assert(a.map_values(f) =~= b.map_values(f));
    } else {
        let x = a.last();
        let short_a = a.drop_last();
        assert(a =~= short_a.push(x));
        assert(b.to_multiset().count(x) > 0);
        let k = choose|k: int| 0 <= k < b.len() && b[k] == x;
        let short_b = b.remove(k);
        short_a.to_multiset_ensures();
        assert(short_a.to_multiset() =~= a.to_multiset().remove(x));
        lemma_map_values_to_multiset(short_a, short_b, f);
        let mapped_a = short_a.map_values(f);
        let mapped_b = short_b.map_values(f);
        assert(a.map_values(f) =~= mapped_a.push(f(x)));
        assert(b.map_values(f) =~= mapped_b.insert(k, f(x)));
        mapped_a.to_multiset_ensures();
        vstd::seq_lib::to_multiset_insert(mapped_b, k, f(x));
    }
}

/// Parts that the store can supply have as many bytes as their lengths say.
pub proof fn lemma_parts_bytes_len(store: Seq<u8>, parts: Seq<PartOffset>)
    requires
        forall|j: int| 0 <= j < parts.len() ==> part_readable(store, #[trigger] parts[j]),
    ensures
        parts_bytes(store, parts).len() == parts_len(parts),
    decreases parts.len(),
{
    if parts.len() > 0 {
        lemma_parts_bytes_len(store, parts.drop_last());
    }
}

/// Where the bytes of part `j` stand among the bytes of `parts`: behind the
/// bytes of the parts before it.
pub proof fn lemma_parts_bytes_at(store: Seq<u8>, parts: Seq<PartOffset>, j: int)
    requires
        forall|k: int| 0 <= k < parts.len() ==> part_readable(store, #[trigger] parts[k]),
        0 <= j < parts.len(),
    ensures
        parts_len(parts.take(j)) + parts[j].length <= parts_len(parts),
        parts_bytes(store, parts).subrange(
            parts_len(parts.take(j)) as int,
            parts_len(parts.take(j)) + parts[j].length,
        ) == part_bytes(store, parts[j]),
    decreases parts.len(),
{
    let short = parts.drop_last();
    lemma_parts_bytes_len(store, short);
    if j == parts.len() - 1 {
        assert(parts_bytes(store, parts).subrange(
            parts_len(short) as int,
            parts_len(short) + parts[j].length,
        ) =~= part_bytes(store, parts[j]));
    } else {
        lemma_parts_bytes_at(store, short, j);
        assert(short.take(j) =~= parts.take(j));
        assert(parts_bytes(store, parts).subrange(
            parts_len(parts.take(j)) as int,
            parts_len(parts.take(j)) + parts[j].length,
        ) =~= parts_bytes(store, short).subrange(
            parts_len(parts.take(j)) as int,
            parts_len(parts.take(j)) + parts[j].length,
        ));
    }
}

/// Records whose parts the store can supply have as many bytes as the
/// lengths of their parts say.
pub proof fn lemma_records_bytes_len(store: Seq<u8>, records: Seq<Record<PartOffset>>)
    requires
        records_readable(store, records),
    ensures
        records_bytes(store, records).len() == records_len(records),
    decreases records.len(),
{
    if records.len() > 0 {
        let short = records.drop_last();
        lemma_records_bytes_len(store, short);
        let last = records.last();
        lemma_parts_bytes_len(store, last.parts);
    }
}

/// Where the bytes of record `i` stand among the bytes of `records`: behind
/// the bytes of the records before it.
pub proof fn lemma_records_bytes_at(store: Seq<u8>, records: Seq<Record<PartOffset>>, i: int)
    requires
        records_readable(store, records),
        0 <= i < records.len(),
    ensures
        records_len(records.take(i)) + parts_len(records[i].parts) <= records_len(records),
        records_bytes(store, records).subrange(
            records_len(records.take(i)) as int,
            (records_len(records.take(i)) + parts_len(records[i].parts)) as int,
        ) == parts_bytes(store, records[i].parts),
    decreases records.len(),
{
    let short = records.drop_last();
    let last = records.last();
    lemma_records_bytes_len(store, short);
    lemma_parts_bytes_len(store, last.parts);
    if i == records.len() - 1 {
        assert(records_bytes(store, records).subrange(
            records_len(short) as int,
            (records_len(short) + parts_len(last.parts)) as int,
        ) =~= parts_bytes(store, last.parts));
    } else {
        lemma_records_bytes_at(store, short, i);
        assert(short.take(i) =~= records.take(i));
        assert(records_bytes(store, records).subrange(
            records_len(records.take(i)) as int,
            (records_len(records.take(i)) + parts_len(records[i].parts)) as int,
        ) =~= records_bytes(store, short).subrange(
            records_len(records.take(i)) as int,
            (records_len(records.take(i)) + parts_len(records[i].parts)) as int,
        ));
    }
}

/// The new layout is faithful part by part: the new store can supply every
/// part of the packed index, and the part addresses there the very bytes
/// that it had in the old store.
pub proof fn lemma_packed_part(store: Seq<u8>, records: Seq<Record<PartOffset>>, i: int, j: int)
    requires
        records_readable(store, records),
        records_len(records) <= u64::MAX,
        0 <= i < records.len(),
        0 <= j < records[i].parts.len(),
    ensures
        packed_records(records)[i].parts[j].length == records[i].parts[j].length,
        part_readable(records_bytes(store, records), packed_records(records)[i].parts[j]),
        part_bytes(records_bytes(store, records), packed_records(records)[i].parts[j])
            == part_bytes(store, records[i].parts[j]),
{
    let parts = records[i].parts;
    let base = records_len(records.take(i));
    let within = parts_len(parts.take(j));
    let length = parts[j].length;
    let new_store = records_bytes(store, records);
    lemma_records_bytes_len(store, records);
    lemma_records_bytes_at(store, records, i);
    lemma_parts_bytes_at(store, parts, j);
    assert(new_store.subrange((base + within) as int, base + within + length)
        =~= new_store.subrange(base as int, (base + parts_len(parts)) as int).subrange(
        within as int,
        within + length,
    ));
}

/// Part lists that agree part by part on the bytes they address agree on all
/// their bytes.
pub proof fn lemma_parts_bytes_pointwise(
    store_a: Seq<u8>,
    parts_a: Seq<PartOffset>,
    store_b: Seq<u8>,
    parts_b: Seq<PartOffset>,
)
    requires
        parts_a.len() == parts_b.len(),
        forall|j: int|
            0 <= j < parts_a.len() ==> part_bytes(store_a, #[trigger] parts_a[j]) == part_bytes(
                store_b,
                parts_b[j],
            ),
    ensures
        parts_bytes(store_a, parts_a) == parts_bytes(store_b, parts_b),
    decreases parts_a.len(),
{
    if parts_a.len() > 0 {
        lemma_parts_bytes_pointwise(store_a, parts_a.drop_last(), store_b, parts_b.drop_last());
    }
}

/// A new layout keeps what every record holds: the packed index holds in the
/// new store, record by record, the url and the bytes that the index held in
/// the old store.
pub proof fn lemma_packed_contents(store: Seq<u8>, records: Seq<Record<PartOffset>>)
    requires
        records_readable(store, records),
        records_len(records) <= u64::MAX,
    ensures
        records_readable(records_bytes(store, records), packed_records(records)),
        records_contents(records_bytes(store, records), packed_records(records))
            == records_contents(store, records),
{
    let new_store = records_bytes(store, records);
    let packed = packed_records(records);
    assert forall|i: int, j: int|
        0 <= i < packed.len() && 0 <= j < packed[i].parts.len() implies part_readable(
        new_store,
        #[trigger] packed[i].parts[j],
    ) by {
        lemma_packed_part(store, records, i, j);
    }
    assert forall|i: int| 0 <= i < records.len() implies #[trigger] records_contents(
        new_store,
        packed,
    )[i] == records_contents(store, records)[i] by {
        assert forall|j: int| 0 <= j < packed[i].parts.len() implies part_bytes(
            new_store,
            #[trigger] packed[i].parts[j],
        ) == part_bytes(store, records[i].parts[j]) by {
            lemma_packed_part(store, records, i, j);
        }
        lemma_parts_bytes_pointwise(new_store, packed[i].parts, store, records[i].parts);
    }
}

/// Every item of one sequence stands somewhere in any sequence that holds
/// the same items equally often.
pub proof fn lemma_permutation_member<A>(a: Seq<A>, b: Seq<A>, i: int)
    requires
        a.to_multiset() == b.to_multiset(),
        0 <= i < b.len(),
    ensures
        exists|k: int| 0 <= k < a.len() && a[k] == b[i],
{
    a.to_multiset_ensures();
    b.to_multiset_ensures();
    assert(a.to_multiset().count(b[i]) > 0);
}

/// The order of the records does not decide whether one of them has a
/// fault, nor whether the store can supply all their parts.
pub proof fn lemma_permutation_faults(
    store: Seq<u8>,
    a: Seq<Record<PartOffset>>,
    b: Seq<Record<PartOffset>>,
)
    requires
        a.to_multiset() == b.to_multiset(),
    ensures
        records_fault(store, a) is None <==> records_fault(store, b) is None,
        records_readable(store, a) <==> records_readable(store, b),
{
    lemma_records_fault_none(store, a);
    lemma_records_fault_none(store, b);
    if records_fault(store, a) is None {
        assert forall|i: int| 0 <= i < b.len() implies parts_fault(
            store,
            (#[trigger] b[i]).parts,
        ) is None by {
            lemma_permutation_member(a, b, i);
        }
    }
    if records_fault(store, b) is None {
        assert forall|i: int| 0 <= i < a.len() implies parts_fault(
            store,
            (#[trigger] a[i]).parts,
        ) is None by {
            lemma_permutation_member(b, a, i);
        }
    }
    if records_readable(store, a) {
        assert forall|i: int, j: int|
            0 <= i < b.len() && 0 <= j < b[i].parts.len() implies part_readable(
            store,
            #[trigger] b[i].parts[j],
        ) by {
            lemma_permutation_member(a, b, i);
        }
    }
    if records_readable(store, b) {
        assert forall|i: int, j: int|
            0 <= i < a.len() && 0 <= j < a[i].parts.len() implies part_readable(
            store,
            #[trigger] a[i].parts[j],
        ) by {
            lemma_permutation_member(b, a, i);
        }
    }
}

/// The first fault of the records in one order is the fault of a part that
/// the records hold in any order.
pub proof fn lemma_permutation_fault_part(
    store: Seq<u8>,
    index: Seq<Record<PartOffset>>,
    order: Seq<Record<PartOffset>>,
)
    requires
        order.to_multiset() == index.to_multiset(),
        records_fault(store, order) is Some,
    ensures
        exists|i: int, j: int|
            {
                &&& 0 <= i < index.len()
                &&& 0 <= j < index[i].parts.len()
                &&& part_fault(store, #[trigger] index[i].parts[j]) == records_fault(store, order)
            },
{
    lemma_records_fault_some(store, order);
    let at = choose|i: int|
        {
            &&& 0 <= i < order.len()
            &&& parts_fault(store, (#[trigger] order[i]).parts) == records_fault(store, order)
            &&& records_fault(store, order.take(i)) is None
        };
    lemma_parts_fault_some(store, order[at].parts);
    let j = choose|j: int|
        {
            &&& 0 <= j < order[at].parts.len()
            &&& part_fault(store, #[trigger] order[at].parts[j]) == parts_fault(
                store,
                order[at].parts,
            )
            &&& parts_fault(store, order[at].parts.take(j)) is None
        };
    lemma_permutation_member(index, order, at);
    let i = choose|i: int| 0 <= i < index.len() && index[i] == order[at];
    assert(part_fault(store, index[i].parts[j]) == records_fault(store, order));
}

/// The store can supply every part of records that are free of faults.
pub proof fn lemma_fault_free_readable(store: Seq<u8>, records: Seq<Record<PartOffset>>)
    requires
        records_fault(store, records) is None,
    ensures
        records_readable(store, records),
{
    lemma_records_fault_none(store, records);
    assert forall|i: int, j: int|
        0 <= i < records.len() && 0 <= j < records[i].parts.len() implies part_readable(
        store,
        #[trigger] records[i].parts[j],
    ) by {
        lemma_parts_fault_none(store, records[i].parts);
    }
}

/// A new layout reads as the old one did: where the records were free of
/// faults in the old store, the packed index is free of faults in the new
/// store and gives every record the same text.
pub proof fn lemma_packed_text(store: Seq<u8>, records: Seq<Record<PartOffset>>)
    requires
        records_fault(store, records) is None,
        records_len(records) <= u64::MAX,
    ensures
        records_fault(records_bytes(store, records), packed_records(records)) is None,
        records_text(records_bytes(store, records), packed_records(records)) == records_text(
            store,
            records,
        ),
{
    let new_store = records_bytes(store, records);
    let packed = packed_records(records);
    lemma_fault_free_readable(store, records);
    lemma_records_fault_none(store, records);
    assert forall|i: int| 0 <= i < packed.len() implies parts_fault(
        new_store,
        (#[trigger] packed[i]).parts,
    ) is None && record_text(new_store, packed[i]) == record_text(store, records[i]) by {
        lemma_parts_fault_none(store, records[i].parts);
        assert forall|j: int| 0 <= j < packed[i].parts.len() implies part_fault(
            new_store,
            #[trigger] packed[i].parts[j],
        ) is None && part_bytes(new_store, packed[i].parts[j]) == part_bytes(
            store,
            records[i].parts[j],
        ) by {
            lemma_packed_part(store, records, i, j);
        }
        lemma_parts_fault_none(new_store, packed[i].parts);
    }
    lemma_records_fault_none(new_store, packed);
}

/// Putting one record into a sequence adds the lengths of its parts to the
/// sum.
pub proof fn lemma_records_len_insert(
    records: Seq<Record<PartOffset>>,
    k: int,
    record: Record<PartOffset>,
)
    requires
        0 <= k <= records.len(),
    ensures
        records_len(records.insert(k, record)) == records_len(records) + parts_len(record.parts),
    decreases records.len(),
{
    let longer = records.insert(k, record);
    if k == records.len() {
        assert(longer.drop_last() =~= records);
    } else {
        assert(longer.drop_last() =~= records.drop_last().insert(k, record));
        lemma_records_len_insert(records.drop_last(), k, record);
    }
}

/// The order of the records does not change the sum of the lengths of their
/// parts.
pub proof fn lemma_permutation_len(a: Seq<Record<PartOffset>>, b: Seq<Record<PartOffset>>)
    requires
        a.to_multiset() == b.to_multiset(),
    ensures
        records_len(a) == records_len(b),
    decreases a.len(),
{
    a.to_multiset_ensures();
    b.to_multiset_ensures();
    if a.len() > 0 {
        let x = a.last();
        let short_a = a.drop_last();
        assert(a =~= short_a.push(x));
        lemma_permutation_member(b, a, a.len() - 1);
        let k = choose|k: int| 0 <= k < b.len() && b[k] == a[a.len() - 1];
        let short_b = b.remove(k);
        short_a.to_multiset_ensures();
        assert(short_a.to_multiset() =~= a.to_multiset().remove(x));
        lemma_permutation_len(short_a, short_b);
        assert(b =~= short_b.insert(k, x));
        lemma_records_len_insert(short_b, k, x);
    }
}

/// A shuffle keeps what the records hold and changes only their order and
/// where their bytes lie: whatever order `order` the records of `index` are
/// laid out in, the urls with the bytes of their records are the same, each
/// as often as before.
pub proof fn lemma_shuffle_keeps_contents(
    store: Seq<u8>,
    index: Seq<Record<PartOffset>>,
    order: Seq<Record<PartOffset>>,
)
    requires
        order.to_multiset() == index.to_multiset(),
        records_readable(store, index),
        records_len(index) <= u64::MAX,
    ensures
        records_contents(records_bytes(store, order), packed_records(order)).to_multiset()
            == records_contents(store, index).to_multiset(),
{
    lemma_permutation_faults(store, order, index);
    lemma_permutation_len(order, index);
    lemma_packed_contents(store, order);
    lemma_map_values_to_multiset(
        order,
        index,
        |r: Record<PartOffset>| (r.url, parts_bytes(store, r.parts)),
    );
}

/// Copies the parts of `record` from `raw` to the end of `out`, in order,
/// and gives the record with its locators pointing at the copies. Stops at
/// the first part that the store cannot supply or that is not UTF-8.
fn reindex_record(raw: &RawStore, record: &Metadata<PartOffset>, out: &mut Vec<u8>) -> (res:
    Result<Metadata<PartOffset>, StoreError>)
    ensures
        match res {
            Ok(packed) => {
                &&& parts_fault(raw@, record@.parts) is None
                &&& final(out)@ == old(out)@ + parts_bytes(raw@, record@.parts)
                &&& final(out)@.len() == old(out)@.len() + parts_len(record@.parts)
                &&& packed@ == packed_record(record@, old(out)@.len())
            },
            Err(e) => parts_fault(raw@, record@.parts) == Some(e),
        },
{
    let ghost base = out@.len();
    let ghost given = record@.parts;
    let mut parts: Vec<PartOffset> = Vec::with_capacity(record.parts.len());
    let mut j: usize = 0;
    while j < record.parts.len()
        invariant
            j <= record.parts@.len(),
            given == record@.parts,
            base == old(out)@.len(),
            parts@.len() == j,
            parts_fault(raw@, given.take(j as int)) is None,
            out@ == old(out)@ + parts_bytes(raw@, given.take(j as int)),
            out@.len() == base + parts_len(given.take(j as int)),
            forall|k: int|
                0 <= k < j ==> #[trigger] parts@[k] == (PartOffset {
                    offset: (base + parts_len(given.take(k))) as u64,
                    length: given[k].length,
                }),
        decreases record.parts@.len() - j,
    {
        let part = record.parts[j];
        proof {
            assert(given.take(j + 1).drop_last() =~= given.take(j as int));
        }
        let bytes = match raw.read_exact(part.offset, part.length) {
            Ok(bytes) => bytes,
            Err(e) => {
                proof {
                    lemma_parts_fault_prefix(raw@, given, j + 1);
                }
                return Err(e);
            },
        };
        let offset = out.len() as u64;
        out.extend_from_slice(bytes.as_slice());
        if decode_text(bytes).is_none() {
            proof {
                lemma_parts_fault_prefix(raw@, given, j + 1);
            }
            return Err(StoreError::Decode { offset: part.offset, length: part.length });
        }
        parts.push(PartOffset { offset, length: part.length });
        j += 1;
    }
    let packed = Metadata {
        url: record.url.clone(),
        likes: record.likes,
        parts,
        rating: record.rating.clone(),
        direction: record.direction.clone(),
        category: record.category.clone(),
    };
    proof {
        assert(given.take(j as int) =~= given);
    }
    Ok(packed)
}

/// Lays the raw store out anew in the order of `meta`: the new store holds
/// the bytes of all parts, record after record and part after part, and the
/// new index is `meta` with every locator pointing at its part's copy. One
/// part that the store cannot supply or that is not UTF-8 fails the whole
/// run, with the fault of the first such part.
pub fn reindex(meta: &Metadatas<PartOffset>, raw: &RawStore) -> (res: Result<
    (Metadatas<PartOffset>, RawStore),
    StoreError,
>)
    ensures
        outcome_view(res) == reindexed(raw@, meta@),
        res is Ok ==> records_len(meta@) <= usize::MAX,
{
    let mut out: Vec<u8> = Vec::new();
    let mut new_metas: Vec<Metadata<PartOffset>> = Vec::with_capacity(meta.len());
    let mut i: usize = 0;
    while i < meta.0.len()
        invariant
            i <= meta.0@.len(),
            new_metas@.len() == i,
            records_fault(raw@, meta@.take(i as int)) is None,
            out@ == records_bytes(raw@, meta@.take(i as int)),
            out@.len() == records_len(meta@.take(i as int)),
            forall|k: int|
                0 <= k < i ==> (#[trigger] new_metas@[k])@ == packed_record(
                    meta@[k],
                    records_len(meta@.take(k)),
                ),
        decreases meta.0@.len() - i,
    {
        proof {
            assert(meta@.take(i + 1).drop_last() =~= meta@.take(i as int));
        }
        match reindex_record(raw, &meta.0[i], &mut out) {
            Ok(packed) => {
                new_metas.push(packed);
            },
            Err(e) => {
                proof {
                    lemma_records_fault_prefix(raw@, meta@, i + 1);
                }
                return Err(e);
            },
        }
        i += 1;
    }
    proof {
        assert(meta@.take(i as int) =~= meta@);
        assert(out@.len() == out.len());
    }
    let new_meta = Metadatas(new_metas);
    let new_raw = RawStore::new(out);
    proof {
        assert(new_meta@ =~= packed_records(meta@));
    }
    Ok((new_meta, new_raw))
}

/// `SliceRandom::shuffle` of rand on the records, with the generator that
/// `rand::thread_rng` hands to the calling thread: the shuffle only swaps
/// records, so they change places among themselves and none is added,
/// dropped or altered. Nothing is said of the order that comes out. The
/// generator is seeded by the system when a thread first asks for it, and
/// rand panics where the system has no seed to give.
#[verifier::external_body]
fn shuffle_records(records: &mut Vec<Metadata<PartOffset>>)
    ensures
        final(records)@.to_multiset() == old(records)@.to_multiset(),
{
    records.shuffle(&mut thread_rng());
}

/// Lays the raw store out anew in a random order of the records: the records
/// of `meta` are shuffled, and the store and the index are then rebuilt in
/// that order as [`reindex`] does. The parts of a record keep their order.
///
/// The outcome is that of [`reindex`] on some order of the records of
/// `meta`. The run succeeds exactly when no part of `meta` has a fault in
/// `raw`, whatever order was drawn. The new pair then holds what the old one
/// held, each url with the bytes of its record as often as before, and reads
/// back without a fault. A failed run reports the fault of one of the parts:
/// of the first that has one in the order drawn.
pub fn shuffle(meta: Metadatas<PartOffset>, raw: &RawStore) -> (res: Result<
    (Metadatas<PartOffset>, RawStore),
    StoreError,
>)
    ensures
        exists|order: Seq<Record<PartOffset>>|
            {
                &&& #[trigger] order.to_multiset() == meta@.to_multiset()
                &&& outcome_view(res) == reindexed(raw@, order)
            },
        res is Ok <==> records_fault(raw@, meta@) is None,
        match res {
            Ok((new_meta, new_raw)) => {
                &&& records_contents(new_raw@, new_meta@).to_multiset() == records_contents(
                    raw@,
                    meta@,
                ).to_multiset()
                &&& records_fault(new_raw@, new_meta@) is None
            },
            Err(e) => exists|i: int, j: int|
                {
                    &&& 0 <= i < meta@.len()
                    &&& 0 <= j < meta@[i].parts.len()
                    &&& part_fault(raw@, #[trigger] meta@[i].parts[j]) == Some(e)
                },
        },
{
    let ghost index = meta@;
    let ghost given = meta.0@;
    let mut meta = meta;
    shuffle_records(&mut meta.0);
    let ghost order = meta@;
    proof {
        lemma_map_values_to_multiset(meta.0@, given, |m: Metadata<PartOffset>| m@);
        lemma_permutation_faults(raw@, order, index);
    }
    let res = reindex(&meta, raw);
    proof {
        if res is Ok {
            lemma_fault_free_readable(raw@, order);
            lemma_permutation_len(order, index);
            lemma_shuffle_keeps_contents(raw@, index, order);
            lemma_packed_text(raw@, order);
        } else {
            lemma_permutation_fault_part(raw@, index, order);
        }
    }
    res
}

} // verus!
