use ping_sweep::record::{is_reply, record_from_bytes, record_to_bytes, TIMEOUT_BITS};
use ping_sweep::store::ResultStore;
use ping_sweep::RECORD_SIZE;

#[test]
fn record_size_is_a_single_float() {
    assert_eq!(RECORD_SIZE, std::mem::size_of::<f32>() as u64);
}

#[test]
fn timeout_sentinel_is_minus_one() {
    assert_eq!(TIMEOUT_BITS, (-1.0f32).to_bits());
    assert!(f32::from_bits(TIMEOUT_BITS) < 0.0);
}

#[test]
fn record_bytes_are_big_endian() {
    let bits = 0.01f32.to_bits();
    assert_eq!(bits, 0x3C23_D70A);
    assert_eq!(record_to_bytes(bits), vec![0x3C, 0x23, 0xD7, 0x0A]);
}

#[test]
fn record_byte_round_trip() {
    for bits in [0u32, 0x3C23_D70A, TIMEOUT_BITS, u32::MAX] {
        let b = record_to_bytes(bits);
        assert_eq!(record_from_bytes(b[0], b[1], b[2], b[3]), bits);
    }
}

#[test]
fn fresh_file_opens_at_zero() {
    let (store, seek) = ResultStore::open(0);
    assert_eq!(store.resume_offset(), 0);
    assert_eq!(seek, 0);
}

#[test]
fn open_counts_complete_records() {
    let (store, seek) = ResultStore::open(12);
    assert_eq!(store.resume_offset(), 3);
    assert_eq!(seek, 12);
}

#[test]
fn torn_write_rounds_down_and_truncates() {
    // Write three records, then simulate a torn half-record on disk.
    let (mut store, _) = ResultStore::open(0);
    for bits in [1u32, 2, 3] {
        store.append(Some(bits));
    }
    let mut file = store.take_pending();
    assert_eq!(file.len(), 12);
    file.push(0xAA);
    file.push(0xBB);

    // Reopening recomputes the count by rounding down and seeks to the last
    // record boundary, so the torn tail is overwritten.
    let (mut resumed, seek) = ResultStore::open(file.len() as u64);
    assert_eq!(resumed.resume_offset(), 3);
    assert_eq!(seek, 12);
    file.truncate(seek as usize);

    // The first three records were never touched.
    assert_eq!(record_from_bytes(file[0], file[1], file[2], file[3]), 1);
    assert_eq!(record_from_bytes(file[4], file[5], file[6], file[7]), 2);
    assert_eq!(record_from_bytes(file[8], file[9], file[10], file[11]), 3);

    // Continuing appends the next record at the boundary.
    resumed.append(Some(4));
    let more = resumed.take_pending();
    file.extend_from_slice(&more);
    assert_eq!(file.len(), 16);
    assert_eq!(record_from_bytes(file[12], file[13], file[14], file[15]), 4);
}

#[test]
fn resume_offset_advances_with_drained_records() {
    let (mut store, _) = ResultStore::open(8);
    assert_eq!(store.resume_offset(), 2);
    store.append(None);
    store.append(Some(7));
    let bytes = store.take_pending();
    assert_eq!(bytes.len(), 8);
    assert_eq!(store.resume_offset(), 4);
}

#[test]
fn timeout_records_read_back_negative() {
    let (mut store, _) = ResultStore::open(0);
    store.append(None);
    let bytes = store.take_pending();
    let bits = record_from_bytes(bytes[0], bytes[1], bytes[2], bytes[3]);
    assert!(!is_reply(bits));
    assert_eq!(f32::from_bits(bits), -1.0);
}
