use ping_sweep::cidr::Cidr;
use ping_sweep::subnets::SubnetSet;
use ping_sweep::SweepError;

fn parse_set(subnets: &[&str]) -> SubnetSet {
    let list: Vec<Vec<u8>> = subnets.iter().map(|s| s.as_bytes().to_vec()).collect();
    SubnetSet::parse(&list).expect("subnets should parse")
}

fn parse_err(subnets: &[&str]) -> SweepError {
    let list: Vec<Vec<u8>> = subnets.iter().map(|s| s.as_bytes().to_vec()).collect();
    SubnetSet::parse(&list).expect_err("subnets should be rejected")
}

fn blocks(ss: &SubnetSet) -> Vec<(u32, u8)> {
    ss.blocks.iter().map(|c| (c.net, c.prefix)).collect()
}

#[test]
fn subsumed_blocks_collapse() {
    let ss = parse_set(&["10.0.0.0/24", "10.0.0.0/25"]);
    assert_eq!(blocks(&ss), vec![(0x0A00_0000, 24)]);
}

#[test]
fn normalizing_twice_equals_once() {
    let once = parse_set(&["10.0.0.0/24", "10.0.0.0/25"]);
    let twice = SubnetSet::from_blocks(&once.blocks);
    assert_eq!(blocks(&once), blocks(&twice));
}

#[test]
fn buddy_blocks_coalesce() {
    let ss = parse_set(&["10.0.0.0/25", "10.0.0.128/25"]);
    assert_eq!(blocks(&ss), vec![(0x0A00_0000, 24)]);
}

#[test]
fn touching_non_buddies_stay_canonical() {
    // 10.0.0.1 and 10.0.0.2/31 are contiguous but cannot merge into one block.
    let ss = parse_set(&["10.0.0.1/32", "10.0.0.2/31"]);
    assert_eq!(blocks(&ss), vec![(0x0A00_0001, 32), (0x0A00_0002, 31)]);
}

#[test]
fn disjoint_blocks_sort() {
    let ss = parse_set(&["10.1.0.0/24", "10.0.0.0/24"]);
    assert_eq!(blocks(&ss), vec![(0x0A00_0000, 24), (0x0A01_0000, 24)]);
}

#[test]
fn host_bits_are_masked() {
    let ss = parse_set(&["10.0.0.7/24"]);
    assert_eq!(blocks(&ss), vec![(0x0A00_0000, 24)]);
}

#[test]
fn empty_list_gives_empty_set() {
    let ss = parse_set(&[]);
    assert_eq!(blocks(&ss), vec![]);
    assert_eq!(ss.total_hosts(), 0);
}

#[test]
fn invalid_octet_rejected() {
    assert_eq!(parse_err(&["10.0.0.300/24"]), SweepError::InvalidSubnet);
}

#[test]
fn invalid_prefix_rejected() {
    assert_eq!(parse_err(&["10.0.0.0/33"]), SweepError::InvalidSubnet);
}

#[test]
fn missing_prefix_rejected() {
    assert_eq!(parse_err(&["10.0.0.0"]), SweepError::InvalidSubnet);
}

#[test]
fn leading_zero_rejected() {
    assert_eq!(parse_err(&["010.0.0.0/24"]), SweepError::InvalidSubnet);
}

#[test]
fn one_bad_subnet_rejects_the_list() {
    assert_eq!(
        parse_err(&["10.0.0.0/24", "not-a-subnet"]),
        SweepError::InvalidSubnet
    );
}

#[test]
fn host_counts_per_prefix() {
    assert_eq!(parse_set(&["10.0.0.0/24"]).total_hosts(), 254);
    assert_eq!(parse_set(&["10.0.0.0/30"]).total_hosts(), 2);
    assert_eq!(parse_set(&["10.0.0.0/31"]).total_hosts(), 2);
    assert_eq!(parse_set(&["10.0.0.0/32"]).total_hosts(), 1);
}

#[test]
fn address_sequence_of_a_slash24() {
    let ss = parse_set(&["10.0.0.0/24"]);
    assert_eq!(ss.addr_at(0), 0x0A00_0001);
    assert_eq!(ss.addr_at(253), 0x0A00_00FE);
}

#[test]
fn address_sequence_crosses_blocks_in_order() {
    let ss = parse_set(&["10.1.0.0/31", "10.0.0.0/31"]);
    let addrs: Vec<u32> = (0..ss.total_hosts()).map(|i| ss.addr_at(i)).collect();
    assert_eq!(addrs, vec![0x0A00_0000, 0x0A00_0001, 0x0A01_0000, 0x0A01_0001]);
}

#[test]
fn determinism_same_input_same_sequence() {
    let a = parse_set(&["172.16.0.0/22", "10.0.0.0/29"]);
    let b = parse_set(&["172.16.0.0/22", "10.0.0.0/29"]);
    assert_eq!(blocks(&a), blocks(&b));
    assert_eq!(a.total_hosts(), b.total_hosts());
    for i in 0..a.total_hosts() {
        assert_eq!(a.addr_at(i), b.addr_at(i));
    }
}

fn iprange_blocks(subnets: &[&str]) -> Vec<(u32, u8)> {
    let mut range = iprange::IpRange::<ipnet::Ipv4Net>::new();
    for s in subnets {
        range.add(s.parse().unwrap());
    }
    range.simplify();
    let mut out: Vec<(u32, u8)> = range
        .iter()
        .map(|net| (u32::from(net.network()), net.prefix_len()))
        .collect();
    out.sort();
    out
}

#[test]
fn normalization_matches_iprange_simplify() {
    let cases: Vec<Vec<&str>> = vec![
        vec!["10.0.0.0/24", "10.0.0.0/25"],
        vec!["10.0.0.0/25", "10.0.0.128/25"],
        vec!["10.1.0.0/24", "10.0.0.0/24"],
        vec!["192.168.0.0/16", "192.168.128.0/17", "10.0.0.0/30"],
        vec!["0.0.0.0/0"],
        vec!["255.255.255.255/32", "255.255.255.254/32"],
        vec!["10.0.0.0/30", "10.0.0.4/30", "10.0.0.8/30"],
    ];
    for case in cases {
        let ss = parse_set(&case);
        let mut ours = blocks(&ss);
        ours.sort();
        assert_eq!(ours, iprange_blocks(&case), "case {:?}", case);
    }
}

#[test]
fn host_enumeration_matches_ipnet_hosts() {
    for s in ["10.0.0.0/28", "10.0.0.0/30", "10.0.0.0/31", "10.0.0.0/32"] {
        let ss = parse_set(&[s]);
        let net: ipnet::Ipv4Net = s.parse().unwrap();
        let expect: Vec<u32> = net.hosts().map(u32::from).collect();
        let got: Vec<u32> = (0..ss.total_hosts()).map(|i| ss.addr_at(i)).collect();
        assert_eq!(got, expect, "hosts of {}", s);
    }
}
