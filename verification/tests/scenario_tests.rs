use ping_sweep::names::{decode_name, encode_name};
use ping_sweep::record::record_from_bytes;
use ping_sweep::store::ResultStore;
use ping_sweep::subnets::SubnetSet;
use ping_sweep::sweep::write_outcomes;

/// A mock probe client that replies, with a 10 ms latency, only to the
/// addresses it was given.
fn mock_probe(reachable: &[u32], addr: u32) -> Option<u32> {
    if reachable.contains(&addr) {
        Some(0.01f32.to_bits())
    } else {
        None
    }
}

#[test]
fn slash_30_sweep_end_to_end() {
    let list = vec![b"10.0.0.0/30".to_vec()];
    let ss = SubnetSet::parse(&list).unwrap();

    // Two usable host addresses.
    assert_eq!(ss.total_hosts(), 2);
    assert_eq!(ss.addr_at(0), u32::from_be_bytes([10, 0, 0, 1]));
    assert_eq!(ss.addr_at(1), u32::from_be_bytes([10, 0, 0, 2]));

    // The canonical file name.
    assert_eq!(encode_name(&ss), b"10.0.0.0-30.ping".to_vec());

    // Only 10.0.0.1 replies.
    let reachable = [u32::from_be_bytes([10, 0, 0, 1])];
    let outcomes: Vec<Option<u32>> = (0..ss.total_hosts())
        .map(|i| mock_probe(&reachable, ss.addr_at(i)))
        .collect();

    let (mut store, seek) = ResultStore::open(0);
    assert_eq!(seek, 0);
    write_outcomes(&mut store, &outcomes);
    let file = store.take_pending();

    // A two-record file: record zero non-negative, record one exactly -1.
    assert_eq!(file.len(), 8);
    let r0 = f32::from_bits(record_from_bytes(file[0], file[1], file[2], file[3]));
    let r1 = f32::from_bits(record_from_bytes(file[4], file[5], file[6], file[7]));
    assert!(r0 >= 0.0);
    assert_eq!(r0, 0.01);
    assert_eq!(r1, -1.0);
}

#[test]
fn reader_recovers_the_sweep_from_the_name_alone() {
    // The writer derives the name; a reader with only that name re-derives
    // the same address sequence and zips it with the records.
    let list = vec![b"10.0.0.0/30".to_vec()];
    let writer_set = SubnetSet::parse(&list).unwrap();
    let name = encode_name(&writer_set);

    let reader_set = decode_name(&name).unwrap();
    assert_eq!(reader_set.total_hosts(), writer_set.total_hosts());
    for i in 0..writer_set.total_hosts() {
        assert_eq!(reader_set.addr_at(i), writer_set.addr_at(i));
    }
}
