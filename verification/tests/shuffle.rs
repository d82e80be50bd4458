use fanfic_server::index::{Metadata, Metadatas, PartOffset};
use fanfic_server::page::ServerStateInner;
use fanfic_server::shuffle::{reindex, shuffle};
use fanfic_server::store::{RawStore, StoreError};

fn locator(offset: u64, length: usize) -> PartOffset {
    PartOffset { offset, length }
}

fn record(url: &str, likes: u64, parts: Vec<PartOffset>) -> Metadata<PartOffset> {
    Metadata {
        url: url.to_string(),
        likes,
        parts,
        rating: format!("rating {likes}"),
        direction: format!("direction {likes}"),
        category: format!("category {likes}"),
    }
}

/// A store of `n` records; record `i` has `i % 4` parts of differing lengths.
fn sample(n: usize) -> (Metadatas<PartOffset>, RawStore) {
    let mut bytes = Vec::new();
    let mut records = Vec::new();
    for i in 0..n {
        let mut parts = Vec::new();
        for j in 0..i % 4 {
            let text = format!("<{i}:{j}:{}>", "é".repeat(j + i % 3));
            parts.push(locator(bytes.len() as u64, text.len()));
            bytes.extend_from_slice(text.as_bytes());
        }
        records.push(record(&format!("url-{i}"), i as u64, parts));
    }
    (Metadatas(records), RawStore::new(bytes))
}

/// The url of every record with the bytes of its parts, one after another.
fn contents(meta: &Metadatas<PartOffset>, raw: &RawStore) -> Vec<(String, Vec<u8>)> {
    let bytes = raw.as_bytes();
    meta.0
        .iter()
        .map(|m| {
            let mut all = Vec::new();
            for p in &m.parts {
                let begin = p.offset as usize;
                all.extend_from_slice(&bytes[begin..begin + p.length]);
            }
            (m.url.clone(), all)
        })
        .collect()
}

fn sorted<T: Ord>(mut items: Vec<T>) -> Vec<T> {
    items.sort();
    items
}

fn urls(meta: &Metadatas<PartOffset>) -> Vec<String> {
    meta.0.iter().map(|m| m.url.clone()).collect()
}

#[test]
fn reindex_packs_parts_in_index_order() {
    let meta = Metadatas(vec![
        record("a", 1, vec![locator(10, 4), locator(0, 5)]),
        record("b", 2, vec![locator(5, 3)]),
        record("c", 3, vec![]),
        record("d", 4, vec![locator(8, 2)]),
    ]);
    let raw = RawStore::new(b"helloabcdewxyz".to_vec());
    let (new_meta, new_raw) = reindex(&meta, &raw).unwrap();
    assert_eq!(new_raw.as_bytes(), b"wxyzhelloabcde");
    let expected = Metadatas(vec![
        record("a", 1, vec![locator(0, 4), locator(4, 5)]),
        record("b", 2, vec![locator(9, 3)]),
        record("c", 3, vec![]),
        record("d", 4, vec![locator(12, 2)]),
    ]);
    assert_eq!(new_meta, expected);
    assert_eq!(raw.as_bytes(), b"helloabcdewxyz");
}

#[test]
fn reindex_copies_shared_bytes_for_each_part() {
    let meta = Metadatas(vec![
        record("a", 1, vec![locator(0, 5), locator(0, 5)]),
        record("b", 2, vec![locator(3, 4), locator(14, 0)]),
        record("c", 3, vec![locator(700, 0), locator(13, 1)]),
    ]);
    let raw = RawStore::new(b"helloabcdewxyz".to_vec());
    let (new_meta, new_raw) = reindex(&meta, &raw).unwrap();
    assert_eq!(new_raw.as_bytes(), b"hellohelloloabz");
    assert_eq!(new_meta.0[0].parts, vec![locator(0, 5), locator(5, 5)]);
    assert_eq!(new_meta.0[1].parts, vec![locator(10, 4), locator(14, 0)]);
    assert_eq!(new_meta.0[2].parts, vec![locator(14, 0), locator(14, 1)]);
}

#[test]
fn reindex_of_nothing() {
    let raw = RawStore::new(b"unused".to_vec());
    let (new_meta, new_raw) = reindex(&Metadatas(vec![]), &raw).unwrap();
    assert_eq!(new_meta, Metadatas(vec![]));
    assert_eq!(new_raw.len(), 0);
}

#[test]
fn reindex_of_a_packed_store_changes_nothing() {
    let (meta, raw) = sample(40);
    let (new_meta, new_raw) = reindex(&meta, &raw).unwrap();
    assert_eq!(new_meta, meta);
    assert_eq!(new_raw, raw);
}

#[test]
fn reindex_stops_at_the_first_fault() {
    let mut bytes = b"helloabcdewxyz".to_vec();
    bytes[9] = 0xc3;
    let raw = RawStore::new(bytes);
    let meta = Metadatas(vec![
        record("a", 1, vec![locator(0, 5)]),
        record("b", 2, vec![locator(5, 3), locator(8, 2), locator(14, 1)]),
    ]);
    assert_eq!(reindex(&meta, &raw), Err(StoreError::Decode { offset: 8, length: 2 }));
    let meta = Metadatas(vec![
        record("b", 2, vec![locator(5, 3), locator(14, 1), locator(8, 2)]),
        record("a", 1, vec![locator(0, 5)]),
    ]);
    assert_eq!(reindex(&meta, &raw), Err(StoreError::Io { offset: 14, length: 1 }));
}

#[test]
fn shuffle_keeps_the_contents() {
    let (meta, raw) = sample(60);
    let before = sorted(contents(&meta, &raw));
    for _ in 0..20 {
        let (new_meta, new_raw) = shuffle(meta.clone(), &raw).unwrap();
        assert_eq!(new_meta.len(), 60);
        assert_eq!(sorted(contents(&new_meta, &new_raw)), before);
    }
}

#[test]
fn shuffle_keeps_contents_that_occur_twice() {
    let meta = Metadatas(vec![
        record("same", 1, vec![locator(0, 2)]),
        record("same", 2, vec![locator(0, 2)]),
        record("same", 3, vec![locator(2, 2)]),
        record("other", 4, vec![locator(0, 2)]),
    ]);
    let raw = RawStore::new(b"abcd".to_vec());
    let before = sorted(contents(&meta, &raw));
    for _ in 0..20 {
        let (new_meta, new_raw) = shuffle(meta.clone(), &raw).unwrap();
        assert_eq!(sorted(contents(&new_meta, &new_raw)), before);
        assert_eq!(new_raw.len(), 8);
    }
}

#[test]
fn shuffle_keeps_the_records_and_the_order_of_their_parts() {
    let (meta, raw) = sample(30);
    let state = ServerStateInner::new(meta.clone(), raw.clone());
    let mut before = state.get_subseg(0, 30).unwrap().0;
    before.sort_by(|a, b| a.url.cmp(&b.url));
    let (new_meta, new_raw) = shuffle(meta, &raw).unwrap();
    let state = ServerStateInner::new(new_meta, new_raw);
    let mut after = state.get_subseg(0, 30).unwrap().0;
    after.sort_by(|a, b| a.url.cmp(&b.url));
    assert_eq!(after, before);
}

#[test]
fn shuffle_packs_the_new_store() {
    let (meta, raw) = sample(50);
    let total: usize = meta.0.iter().flat_map(|m| m.parts.iter()).map(|p| p.length).sum();
    let (new_meta, new_raw) = shuffle(meta, &raw).unwrap();
    assert_eq!(new_raw.len(), total);
    let mut cursor = 0u64;
    for m in &new_meta.0 {
        for p in &m.parts {
            assert_eq!(p.offset, cursor);
            cursor += p.length as u64;
        }
    }
    assert_eq!(cursor, total as u64);
}

#[test]
fn shuffle_leaves_the_old_store_alone() {
    let (meta, raw) = sample(20);
    let bytes = raw.as_bytes().to_vec();
    let kept = meta.clone();
    shuffle(meta, &raw).unwrap();
    assert_eq!(raw.as_bytes(), &bytes[..]);
    let state = ServerStateInner::new(kept, raw);
    assert!(state.get_subseg(0, 20).is_ok());
}

#[test]
fn shuffle_changes_the_order() {
    let (meta, raw) = sample(12);
    let given = urls(&meta);
    let mut moved = false;
    for _ in 0..20 {
        let (new_meta, _) = shuffle(meta.clone(), &raw).unwrap();
        assert_eq!(sorted(urls(&new_meta)), sorted(given.clone()));
        moved = moved || urls(&new_meta) != given;
    }
    assert!(moved);
}

#[test]
fn shuffle_puts_every_record_everywhere() {
    let meta = Metadatas(vec![
        record("0", 0, vec![locator(0, 1)]),
        record("1", 1, vec![locator(1, 1)]),
        record("2", 2, vec![locator(2, 1)]),
    ]);
    let raw = RawStore::new(b"abc".to_vec());
    let mut seen = [[0u32; 3]; 3];
    let mut orders = std::collections::BTreeMap::new();
    let runs = 6000;
    for _ in 0..runs {
        let (new_meta, _) = shuffle(meta.clone(), &raw).unwrap();
        let order = urls(&new_meta);
        for (position, url) in order.iter().enumerate() {
            seen[url.parse::<usize>().unwrap()][position] += 1;
        }
        *orders.entry(order).or_insert(0u32) += 1;
    }
    // Each record should stand at each position in a third of the runs,
    // and each of the six orders should come in a sixth of them.
    for record in seen {
        for times in record {
            assert!((1700..=2300).contains(&times), "{times} of {runs}");
        }
    }
    assert_eq!(orders.len(), 6);
    for times in orders.values() {
        assert!((800..=1200).contains(times), "{times} of {runs}");
    }
}

#[test]
fn shuffle_fails_whatever_the_order() {
    let mut bytes = b"helloabcdewxyz".to_vec();
    bytes[13] = 0xff;
    let raw = RawStore::new(bytes);
    let meta = Metadatas(vec![
        record("a", 1, vec![locator(0, 5)]),
        record("b", 2, vec![locator(5, 3), locator(12, 2)]),
        record("c", 3, vec![locator(8, 2)]),
        record("d", 4, vec![]),
    ]);
    for _ in 0..30 {
        assert_eq!(shuffle(meta.clone(), &raw), Err(StoreError::Decode { offset: 12, length: 2 }));
    }
}

#[test]
fn shuffle_reports_the_fault_of_one_of_the_parts() {
    let raw = RawStore::new(b"hello\xffabc".to_vec());
    let meta = Metadatas(vec![
        record("a", 1, vec![locator(0, 5)]),
        record("b", 2, vec![locator(4, 3)]),
        record("c", 3, vec![locator(6, 4)]),
    ]);
    let faults =
        [StoreError::Decode { offset: 4, length: 3 }, StoreError::Io { offset: 6, length: 4 }];
    for _ in 0..30 {
        let e = shuffle(meta.clone(), &raw).unwrap_err();
        assert!(faults.contains(&e));
    }
}

#[test]
fn shuffle_of_nothing_and_of_one() {
    let raw = RawStore::new(b"abc".to_vec());
    assert_eq!(shuffle(Metadatas(vec![]), &raw), Ok((Metadatas(vec![]), RawStore::new(vec![]))));
    let one = Metadatas(vec![record("only", 7, vec![locator(1, 2)])]);
    let expected = Metadatas(vec![record("only", 7, vec![locator(0, 2)])]);
    assert_eq!(shuffle(one, &raw), Ok((expected, RawStore::new(b"bc".to_vec()))));
}
