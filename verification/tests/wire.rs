use social_schedule::batch::{
    BatchDeserialize, BatchId, BatchOutputDeserialize, BatchOutputSerialize, BatchSerialize, BlockIter, Elapsed,
    Stats,
};

#[test]
fn block_iter() {
    let data = vec![0u8; 8];
    assert_eq!(BlockIter::new(&data, 1).flatten(), vec![0u64]);
}

#[test]
fn batch_round_trip() {
    let words = [1u64, 0x0102_0304_0506_0708, u64::MAX];
    let s = BatchSerialize::new(BatchId::new(42), &words);
    let mut buf = vec![0u8; s.get_size()];
    assert!(s.serialize(&mut buf).is_ok());
    let d = BatchDeserialize::deserialize(&buf).unwrap();
    assert_eq!(d.get_id().get(), 42);
    assert_eq!(d.get_length(), 3);
    assert_eq!(d.get_data().collect_words(), words.to_vec());
}

#[test]
fn batch_serialize_needs_room() {
    let words = [5u64];
    let s = BatchSerialize::new(BatchId::new(1), &words);
    let mut buf = vec![0u8; s.get_size() - 1];
    assert!(s.serialize(&mut buf).is_err());
    assert!(buf.iter().all(|b| *b == 0));
}

#[test]
fn batch_deserialize_rejects_short_input() {
    assert!(BatchDeserialize::deserialize(&[1, 2, 3]).is_err());
}

#[test]
fn batch_output_round_trip() {
    let children = [1u64, 2, 3, 4];
    let notable = [9u64, 8];
    let stats = Stats { steps: 77, elapsed: Elapsed::new(3, 500) };
    let s = BatchOutputSerialize::new(BatchId::new(5), 2, &children, &notable, stats);
    let mut buf = vec![0u8; s.get_size()];
    assert!(s.serialize(&mut buf).is_ok());
    let d = BatchOutputDeserialize::deserialize(2, &buf).unwrap();
    assert_eq!(d.get_base().get(), 5);
    assert_eq!(d.get_stats(), stats);
    assert_eq!(d.get_children().flatten(), children.to_vec());
    assert_eq!(d.get_notable().flatten(), notable.to_vec());
}

#[test]
fn elapsed_carries_whole_seconds() {
    let e = Elapsed::new(1, 2_500_000_000);
    assert_eq!(e.as_secs(), 3);
    assert_eq!(e.subsec_nanos(), 500_000_000);
}
