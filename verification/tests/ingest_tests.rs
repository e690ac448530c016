use memstore::cache::Cache;
use memstore::ingest::IngestBuffer;

#[test]
fn drains_chunks_and_tees_into_relay() {
    let mut ing = IngestBuffer::new(0);
    let mut relay: Vec<u8> = vec![9];
    ing.push_chunk(&vec![1, 2, 3], &mut relay);
    ing.push_chunk(&vec![], &mut relay);
    ing.push_chunk(&vec![4, 5], &mut relay);
    assert_eq!(ing.size(), 5);
    assert_eq!(ing.into_data(), vec![1, 2, 3, 4, 5]);
    // the relay got the same bytes, after what it already held
    assert_eq!(relay, vec![9, 1, 2, 3, 4, 5]);
}

#[test]
fn declared_length_wins_over_computed() {
    let mut ing = IngestBuffer::new(10);
    let mut relay: Vec<u8> = Vec::new();
    ing.push_chunk(&vec![1, 2, 3], &mut relay);
    assert_eq!(ing.size(), 10);
    assert_eq!(ing.into_data(), vec![1, 2, 3]);
}

#[test]
fn unknown_length_is_summed_while_draining() {
    let mut ing = IngestBuffer::new(0);
    let mut relay: Vec<u8> = Vec::new();
    assert_eq!(ing.size(), 0);
    ing.push_chunk(&vec![0; 7], &mut relay);
    ing.push_chunk(&vec![0; 5], &mut relay);
    assert_eq!(ing.size(), 12);
}

#[test]
fn failed_drain_commits_nothing() {
    let mut c = Cache::new(100, 200).unwrap();
    c.store("old".to_string(), vec![1], 10).unwrap();
    let mut ing = IngestBuffer::new(0);
    let mut relay: Vec<u8> = Vec::new();
    ing.push_chunk(&vec![1, 2], &mut relay);
    // the stream errors mid-drain: the buffer is dropped, the store is
    // never committed, and the cache shows no partial entry or size drift
    drop(ing);
    assert_eq!(c.entry_count(), 1);
    assert_eq!(c.aggregate_size(), 10);
    assert_eq!(c.retrieve(&"old".to_string()), Some(vec![1]));
}

#[test]
fn drained_buffer_commits_to_cache() {
    let mut c = Cache::new(100, 200).unwrap();
    let mut ing = IngestBuffer::new(0);
    let mut relay: Vec<u8> = Vec::new();
    ing.push_chunk(&vec![1, 2], &mut relay);
    ing.push_chunk(&vec![3], &mut relay);
    let size = ing.size();
    c.store("k".to_string(), ing.into_data(), size).unwrap();
    assert_eq!(c.aggregate_size(), 3);
    assert_eq!(c.retrieve(&"k".to_string()), Some(vec![1, 2, 3]));
}
