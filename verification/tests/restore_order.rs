use pbs_datastore::api_types::DataStoreConfig;
use pbs_datastore::chunk_store::DataBlob;
use pbs_datastore::datastore::{sort_by_key, DataStore, MissingChunk};
use pbs_datastore::error::Error;
use pbs_datastore::index::{DynamicEntry, DynamicIndexReader};

fn index_of(digests: &[[u8; 32]]) -> DynamicIndexReader {
    let mut end = 0u64;
    let entries = digests
        .iter()
        .map(|d| {
            end += 10;
            DynamicEntry { end, digest: *d }
        })
        .collect();
    DynamicIndexReader::new(entries).unwrap()
}

fn store(tuning: Option<&str>) -> DataStore {
    let mut config = DataStoreConfig::new("s".to_string(), "/s".to_string());
    config.tuning = tuning.map(|t| t.to_string());
    DataStore::open_from_config(config, None).unwrap()
}

#[test]
fn chunks_are_read_by_inode() {
    let mut store = store(None);
    let a = [1u8; 32];
    let b = [2u8; 32];
    let c = [3u8; 32];
    let missing = [9u8; 32];
    // inode numbers follow the order of insertion
    for d in [c, a, b] {
        store.insert_chunk(&DataBlob::from_raw(vec![d[0]]), &d, 1).unwrap();
    }
    let ino = |d: &[u8; 32]| store.stat_chunk(d).unwrap().ino;
    let index = index_of(&[a, missing, b, c]);
    let order = store
        .get_chunks_in_order(&index, |_d: &[u8; 32]| false, |_pos: usize| Ok(()))
        .unwrap();
    assert_eq!(
        order,
        vec![(3, ino(&c)), (0, ino(&a)), (2, ino(&b)), (1, u64::MAX)]
    );
    assert!(ino(&c) < ino(&a) && ino(&a) < ino(&b));
}

#[test]
fn skipped_chunks_are_left_out() {
    let mut store = store(None);
    let a = [1u8; 32];
    let b = [2u8; 32];
    store.insert_chunk(&DataBlob::from_raw(vec![1]), &a, 1).unwrap();
    store.insert_chunk(&DataBlob::from_raw(vec![2]), &b, 1).unwrap();
    let index = index_of(&[a, b, a]);
    let order = store
        .get_chunks_in_order(&index, |d: &[u8; 32]| *d == a, |_pos: usize| Ok(()))
        .unwrap();
    assert_eq!(order.len(), 1);
    assert_eq!(order[0].0, 1);
}

#[test]
fn index_order_is_kept_without_sorting() {
    let mut store = store(Some("chunk-order=none"));
    let a = [1u8; 32];
    let b = [2u8; 32];
    store.insert_chunk(&DataBlob::from_raw(vec![2]), &b, 1).unwrap();
    store.insert_chunk(&DataBlob::from_raw(vec![1]), &a, 1).unwrap();
    let index = index_of(&[a, b, [7u8; 32]]);
    let order = store
        .get_chunks_in_order(&index, |_d: &[u8; 32]| false, |_pos: usize| Ok(()))
        .unwrap();
    assert_eq!(order, vec![(0, 0), (1, 0), (2, 0)]);
}

#[test]
fn abort_check_ends_the_ordering() {
    let store = store(None);
    let index = index_of(&[[1u8; 32], [2u8; 32], [3u8; 32]]);
    let result = store.get_chunks_in_order(
        &index,
        |_d: &[u8; 32]| false,
        |pos: usize| if pos == 2 { Err(Error::AbortRequested) } else { Ok(()) },
    );
    assert_eq!(result, Err(Error::AbortRequested));
}

#[test]
fn sort_orders_by_key() {
    let list = vec![(0usize, 5u64), (1, 3), (2, 9), (3, 3), (4, 0)];
    let sorted = sort_by_key(&list);
    let keys: Vec<u64> = sorted.iter().map(|x| x.1).collect();
    assert_eq!(keys, vec![0, 3, 3, 5, 9]);
    let mut positions: Vec<usize> = sorted.iter().map(|x| x.0).collect();
    positions.sort();
    assert_eq!(positions, vec![0, 1, 2, 3, 4]);
    assert!(sort_by_key(&vec![]).is_empty());
}

#[test]
fn fast_verification_looks_at_each_digest_once() {
    let mut store = store(None);
    let a = [1u8; 32];
    let b = [2u8; 32];
    let missing = [9u8; 32];
    store.insert_chunk(&DataBlob::from_raw(vec![1]), &a, 1).unwrap();
    store.insert_chunk(&DataBlob::from_raw(vec![2]), &b, 1).unwrap();
    let mut checked: Vec<[u8; 32]> = Vec::new();
    assert_eq!(
        store.fast_index_verification(&index_of(&[a, b, a, a]), &mut checked),
        Ok(())
    );
    assert_eq!(checked, vec![a, b]);
    assert_eq!(
        store.fast_index_verification(&index_of(&[b, missing]), &mut checked),
        Err(MissingChunk { digest: missing })
    );
    assert_eq!(
        MissingChunk { digest: missing }.message(),
        format!("chunk {} not found", "09".repeat(32))
    );
    // what is found before the missing chunk is taken up
    let mut some: Vec<[u8; 32]> = Vec::new();
    assert_eq!(
        store.fast_index_verification(&index_of(&[b, missing, a]), &mut some),
        Err(MissingChunk { digest: missing })
    );
    assert_eq!(some, vec![b]);
    assert_eq!(checked, vec![a, b]);
    // a digest that is known to be there is not looked up again
    let mut known = vec![missing];
    assert_eq!(
        store.fast_index_verification(&index_of(&[missing, a]), &mut known),
        Ok(())
    );
    assert_eq!(known, vec![missing, a]);
}

#[test]
fn positions_with_a_set_flag_are_skipped() {
    let mut store = store(Some("chunk-order=none"));
    let a = [1u8; 32];
    let b = [2u8; 32];
    store.insert_chunk(&DataBlob::from_raw(vec![1]), &a, 1).unwrap();
    let digests = vec![a, b, a, b];
    assert_eq!(
        store.chunks_in_order(&digests, &vec![false, true, true, false]),
        vec![(0, 0), (3, 0)]
    );
    // a position without a flag is not skipped
    assert_eq!(
        store.chunks_in_order(&digests, &vec![true, true]),
        vec![(2, 0), (3, 0)]
    );
    assert_eq!(
        store.chunks_in_order(&digests, &Vec::new()),
        vec![(0, 0), (1, 0), (2, 0), (3, 0)]
    );
    assert!(store.chunks_in_order(&Vec::new(), &vec![true]).is_empty());
}
