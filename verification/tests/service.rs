use fanfic_server::index::{Metadata, Metadatas, PartOffset};
use fanfic_server::service::{
    handle_metadata_get, handle_paged_get, Mode, QueryError, ServerState, FULL_CEILING,
    META_CEILING,
};
use fanfic_server::store::{RawStore, StoreError};

fn locator(offset: u64, length: usize) -> PartOffset {
    PartOffset { offset, length }
}

fn record<P>(url: &str, likes: u64, parts: Vec<P>) -> Metadata<P> {
    Metadata {
        url: url.to_string(),
        likes,
        parts,
        rating: String::from("PG"),
        direction: String::from("het"),
        category: String::from("drama"),
    }
}

fn three_records() -> ServerState {
    let metadata = Metadatas(vec![
        record("u0", 10, vec![locator(0, 5)]),
        record("u1", 11, vec![locator(5, 3), locator(8, 2)]),
        record("u2", 12, vec![locator(10, 4)]),
    ]);
    ServerState::new(metadata, RawStore::new(b"helloabcdewxyz".to_vec()))
}

/// `n` records of one part each, every part the one byte of the store.
fn many_records(n: usize) -> ServerState {
    let records = (0..n).map(|i| record(&i.to_string(), i as u64, vec![locator(0, 1)])).collect();
    ServerState::new(Metadatas(records), RawStore::new(vec![b'x']))
}

#[test]
fn ceilings_are_ten_and_a_hundred_thousand() {
    assert_eq!(FULL_CEILING, 10000);
    assert_eq!(META_CEILING, 100000);
    assert_eq!(Mode::Full.ceiling(), 10000);
    assert_eq!(Mode::MetaOnly.ceiling(), 100000);
}

#[test]
fn paged_get_end_to_end() {
    let state = three_records();
    let expected = Metadatas(vec![
        record("u1", 11, vec![String::from("abc"), String::from("de")]),
        record("u2", 12, vec![String::from("wxyz")]),
    ]);
    assert_eq!(handle_paged_get(&state, 1, 2), Ok(expected));
}

#[test]
fn metadata_get_end_to_end() {
    let state = three_records();
    let expected =
        Metadatas(vec![record("u1", 11, vec![3usize, 2]), record("u2", 12, vec![4usize])]);
    assert_eq!(handle_metadata_get(&state, 1, 2), Ok(expected));
}

#[test]
fn metadata_get_does_not_touch_the_store() {
    let metadata = Metadatas(vec![
        record("u0", 10, vec![locator(0, 5)]),
        record("u1", 11, vec![locator(5, 3), locator(8, 2)]),
        record("u2", 12, vec![locator(10, 4)]),
    ]);
    // A store that holds none of the parts, and no text either.
    let state = ServerState::new(metadata, RawStore::new(vec![0xff]));
    let expected =
        Metadatas(vec![record("u1", 11, vec![3usize, 2]), record("u2", 12, vec![4usize])]);
    assert_eq!(handle_metadata_get(&state, 1, 2), Ok(expected));
    assert!(handle_paged_get(&state, 1, 2).is_err());
}

#[test]
fn paged_get_at_the_ceiling_is_served() {
    let state = many_records(10002);
    let page = handle_paged_get(&state, 0, 10000).unwrap();
    assert_eq!(page.len(), 10000);
    assert_eq!(page.0[0].url, "0");
    assert_eq!(page.0[9999].url, "9999");
    assert_eq!(page.0[9999].parts, vec!["x"]);
    assert_eq!(handle_paged_get(&state, 1, 9999).unwrap().len(), 9999);
}

#[test]
fn paged_get_above_the_ceiling_is_turned_away() {
    let state = many_records(10002);
    let e = handle_paged_get(&state, 0, 10001).unwrap_err();
    assert_eq!(e, QueryError::ClientRange { mode: Mode::Full, count: 10001 });
    assert_eq!(e.status_code(), 400);
    assert_eq!(e.reason(), "count is greated than 10000");
    assert_eq!(
        handle_paged_get(&state, 0, usize::MAX),
        Err(QueryError::ClientRange { mode: Mode::Full, count: usize::MAX })
    );
}

#[test]
fn metadata_get_at_the_ceiling_is_served() {
    let state = many_records(100002);
    let page = handle_metadata_get(&state, 0, 100000).unwrap();
    assert_eq!(page.len(), 100000);
    assert_eq!(page.0[99999].url, "99999");
    assert_eq!(page.0[99999].parts, vec![1]);
    // Above the ceiling of the other mode, below its own.
    assert_eq!(handle_metadata_get(&state, 2, 10001).unwrap().len(), 10001);
}

#[test]
fn metadata_get_above_the_ceiling_is_turned_away() {
    let state = many_records(3);
    let e = handle_metadata_get(&state, 0, 100001).unwrap_err();
    assert_eq!(e, QueryError::ClientRange { mode: Mode::MetaOnly, count: 100001 });
    assert_eq!(e.status_code(), 400);
    assert_eq!(e.reason(), "count is greated than 100000");
}

#[test]
fn ceiling_is_tested_before_the_start() {
    let state = three_records();
    assert_eq!(
        handle_paged_get(&state, 3, 10001),
        Err(QueryError::ClientRange { mode: Mode::Full, count: 10001 })
    );
    assert_eq!(
        handle_metadata_get(&state, usize::MAX, 100001),
        Err(QueryError::ClientRange { mode: Mode::MetaOnly, count: 100001 })
    );
    assert_eq!(handle_paged_get(&state, 3, 10000), Ok(Metadatas(vec![])));
    assert_eq!(handle_metadata_get(&state, 3, 100000), Ok(Metadatas(vec![])));
}

#[test]
fn count_zero_is_served_empty() {
    let state = ServerState::new(
        Metadatas(vec![record("outside", 0, vec![locator(99, 1)])]),
        RawStore::new(vec![]),
    );
    assert_eq!(handle_paged_get(&state, 0, 0), Ok(Metadatas(vec![])));
    assert_eq!(handle_metadata_get(&state, 0, 0), Ok(Metadatas(vec![])));
}

#[test]
fn store_faults_are_internal() {
    let mut bytes = b"helloabcdewxyz".to_vec();
    bytes[11] = 0xff;
    let metadata = Metadatas(vec![
        record("short", 10, vec![locator(0, 5), locator(14, 1)]),
        record("no text", 12, vec![locator(10, 4)]),
    ]);
    let state = ServerState::new(metadata, RawStore::new(bytes));
    let io = handle_paged_get(&state, 0, 2).unwrap_err();
    assert_eq!(io, QueryError::Internal(StoreError::Io { offset: 14, length: 1 }));
    assert_eq!(io.status_code(), 500);
    assert_eq!(io.reason(), "Internal server error");
    let decode = handle_paged_get(&state, 1, 1).unwrap_err();
    assert_eq!(decode, QueryError::Internal(StoreError::Decode { offset: 10, length: 4 }));
    assert_eq!(decode.status_code(), 500);
    assert_eq!(decode.reason(), "Internal server error");
    assert_eq!(handle_metadata_get(&state, 0, 2).unwrap().len(), 2);
}

#[test]
fn state_forwards_to_the_shared_index_and_store() {
    let state = three_records();
    let other = state.clone();
    assert_eq!(state.get_subseg(0, 3), other.get_subseg(0, 3));
    assert_eq!(state.get_subseg(0, 1).unwrap().0[0].parts, vec!["hello"]);
    assert_eq!(other.get_meta_subseg(2, 5).len(), 1);
    assert_eq!(other.get_meta_subseg(2, 5)[0], record("u2", 12, vec![locator(10, 4)]));
    assert_eq!(state.get_meta_subseg(3, 5).len(), 0);
    assert_eq!(state.get_meta_subseg(0, usize::MAX).len(), 3);
}
