use ping_sweep::names::{decode_name, encode_name};
use ping_sweep::subnets::SubnetSet;

fn parse_set(subnets: &[&str]) -> SubnetSet {
    let list: Vec<Vec<u8>> = subnets.iter().map(|s| s.as_bytes().to_vec()).collect();
    SubnetSet::parse(&list).expect("subnets should parse")
}

fn blocks(ss: &SubnetSet) -> Vec<(u32, u8)> {
    ss.blocks.iter().map(|c| (c.net, c.prefix)).collect()
}

#[test]
fn name_of_single_block() {
    let ss = parse_set(&["10.0.0.0/30"]);
    assert_eq!(encode_name(&ss), b"10.0.0.0-30.ping".to_vec());
}

#[test]
fn name_of_two_blocks() {
    let ss = parse_set(&["142.244.0.0/16", "129.128.0.0/16"]);
    assert_eq!(
        encode_name(&ss),
        b"129.128.0.0-16_142.244.0.0-16.ping".to_vec()
    );
}

#[test]
fn name_of_empty_set() {
    let ss = parse_set(&[]);
    assert_eq!(encode_name(&ss), b".ping".to_vec());
}

#[test]
fn decode_reverses_encode() {
    let ss = parse_set(&["172.16.0.0/22", "10.0.0.0/29", "10.0.0.8/29"]);
    let name = encode_name(&ss);
    let back = decode_name(&name).expect("canonical name should decode");
    assert_eq!(blocks(&ss), blocks(&back));
}

#[test]
fn decode_reverses_encode_for_empty_set() {
    let ss = parse_set(&[]);
    let back = decode_name(&encode_name(&ss)).expect(".ping should decode");
    assert_eq!(blocks(&back), vec![]);
}

#[test]
fn decoded_name_reproduces_the_address_sequence() {
    let ss = parse_set(&["10.0.0.0/30", "192.168.1.0/31"]);
    let back = decode_name(&encode_name(&ss)).expect("name should decode");
    assert_eq!(ss.total_hosts(), back.total_hosts());
    for i in 0..ss.total_hosts() {
        assert_eq!(ss.addr_at(i), back.addr_at(i));
    }
}

#[test]
fn decode_normalizes_what_it_reads() {
    // A readable but non-minimal name still decodes, to the canonical set.
    let back = decode_name(&b"10.0.0.0-25_10.0.0.128-25.ping".to_vec()).unwrap();
    assert_eq!(blocks(&back), vec![(0x0A00_0000, 24)]);
}

#[test]
fn decode_rejects_missing_extension() {
    assert!(decode_name(&b"10.0.0.0-30".to_vec()).is_none());
    assert!(decode_name(&b"10.0.0.0-30.bin".to_vec()).is_none());
}

#[test]
fn decode_rejects_bad_token() {
    assert!(decode_name(&b"10.0.0-30.ping".to_vec()).is_none());
    assert!(decode_name(&b"10.0.0.0-33.ping".to_vec()).is_none());
    assert!(decode_name(&b"10.0.0.0.ping".to_vec()).is_none());
}

#[test]
fn decode_rejects_unaligned_network() {
    assert!(decode_name(&b"10.0.0.1-24.ping".to_vec()).is_none());
}

#[test]
fn decode_rejects_non_canonical_decimal() {
    assert!(decode_name(&b"10.0.0.0-024.ping".to_vec()).is_none());
    assert!(decode_name(&b"010.0.0.0-24.ping".to_vec()).is_none());
}
