use hostsync::address::{HardwareAddress, IpAddress};
use hostsync::hosts::{find_host, find_neighbour, HostRecord, HostsFile, HOST_FILE_PATH};
use hostsync::neighbour::Record;
use hostsync::table::parse_lines;

const LINK_LOCAL_ONE: u128 = 0xfe80_0000_0000_0000_0000_0000_0000_0001;
const LINK_LOCAL_TWO: u128 = 0xfe80_0000_0000_0000_0000_0000_0000_0002;
const ALL_NODES: u128 = 0xff02_0000_0000_0000_0000_0000_0000_0001;
const ALL_ROUTERS: u128 = 0xff02_0000_0000_0000_0000_0000_0000_0002;
const MULTICAST_PREFIX: u128 = 0xff00_0000_0000_0000_0000_0000_0000_0000;
const LOCAL_NET: u128 = 0xfe00_0000_0000_0000_0000_0000_0000_0000;

fn host(address: IpAddress, hostname: &str) -> HostRecord {
    HostRecord { address, hostname: hostname.to_string() }
}

fn neighbour(lla: u64, address: IpAddress) -> Record {
    Record { lla: HardwareAddress { value: lla }, address }
}

fn table(records: Vec<HostRecord>) -> HostsFile {
    let lines: Vec<Result<HostRecord, String>> = records.into_iter().map(Ok).collect();
    HostsFile::new("/etc/hosts", &lines).unwrap()
}

fn text_of(address: &IpAddress) -> String {
    match address {
        IpAddress::V4(a) => format!("{}.{}.{}.{}", a >> 24, (a >> 16) & 255, (a >> 8) & 255, a & 255),
        IpAddress::V6(a) => format!("v6:{:x}", a),
    }
}

fn written(hosts: HostsFile) -> String {
    let texts: Vec<String> = hosts.records().iter().map(|r| text_of(&r.address)).collect();
    hosts.flush(&texts)
}

#[test]
fn new_keeps_the_lines_in_order() {
    let lines = vec![
        Ok(host(IpAddress::V4(0x7f00_0001), "localhost")),
        Ok(host(IpAddress::V6(1), "localhost")),
        Ok(host(IpAddress::V4(0x7f00_0001), "localhost")),
    ];
    let hosts = HostsFile::new("/tmp/hosts", &lines).unwrap();
    assert_eq!(hosts.file_path(), "/tmp/hosts");
    assert_eq!(
        hosts.records(),
        &vec![
            host(IpAddress::V4(0x7f00_0001), "localhost"),
            host(IpAddress::V6(1), "localhost"),
            host(IpAddress::V4(0x7f00_0001), "localhost"),
        ]
    );
    assert!(HostsFile::new("p", &vec![]).unwrap().records().is_empty());
}

#[test]
fn new_fails_with_the_first_rejected_line() {
    let lines = vec![
        Ok(host(IpAddress::V4(1), "a")),
        Err("invalid IP address syntax".to_string()),
        Ok(host(IpAddress::V4(2), "b")),
        Err("second".to_string()),
    ];
    match HostsFile::new("/etc/hosts", &lines) {
        Err(reason) => assert_eq!(reason, "invalid IP address syntax"),
        Ok(_) => panic!("a rejected line was accepted"),
    }
}

#[test]
fn bad_address_token_aborts_the_table() {
    let tokens = parse_lines(b"10.0.0.5 printer\nnot-an-ip somehost\n");
    let lines: Vec<Result<HostRecord, String>> = tokens
        .iter()
        .map(|l| {
            if l.address == "10.0.0.5" {
                Ok(host(IpAddress::V4(0x0a00_0005), &l.hostname))
            } else {
                Err(format!("invalid IP address syntax: {}", l.address))
            }
        })
        .collect();
    match HostsFile::new("/etc/hosts", &lines) {
        Err(reason) => assert_eq!(reason, "invalid IP address syntax: not-an-ip"),
        Ok(_) => panic!("a bad address was accepted"),
    }
}

#[test]
fn baseline_keeps_ipv4_and_the_reserved_groups() {
    let mut hosts = table(vec![
        host(IpAddress::V4(0x7f00_0001), "localhost"),
        host(IpAddress::V6(1), "ip6-localhost"),
        host(IpAddress::V6(LOCAL_NET), "ip6-localnet"),
        host(IpAddress::V6(MULTICAST_PREFIX), "ip6-mcastprefix"),
        host(IpAddress::V6(ALL_NODES), "ip6-allnodes"),
        host(IpAddress::V6(LINK_LOCAL_ONE), "printer"),
        host(IpAddress::V6(ALL_ROUTERS), "ip6-allrouters"),
        host(IpAddress::V4(0x0a00_0005), "printer"),
    ]);
    hosts.retain_ipv4_only();
    let expected = vec![
        host(IpAddress::V4(0x7f00_0001), "localhost"),
        host(IpAddress::V6(MULTICAST_PREFIX), "ip6-mcastprefix"),
        host(IpAddress::V6(ALL_NODES), "ip6-allnodes"),
        host(IpAddress::V6(ALL_ROUTERS), "ip6-allrouters"),
        host(IpAddress::V4(0x0a00_0005), "printer"),
    ];
    assert_eq!(hosts.records(), &expected);
    assert_eq!(hosts.file_path(), "/etc/hosts");
    hosts.retain_ipv4_only();
    assert_eq!(hosts.records(), &expected);
}

#[test]
fn find_neighbour_gives_the_first_match_or_the_length() {
    let list = vec![
        neighbour(1, IpAddress::V4(1)),
        neighbour(2, IpAddress::V4(2)),
        neighbour(2, IpAddress::V4(3)),
    ];
    assert_eq!(find_neighbour(&list, HardwareAddress { value: 2 }), 1);
    assert_eq!(find_neighbour(&list, HardwareAddress { value: 1 }), 0);
    assert_eq!(find_neighbour(&list, HardwareAddress { value: 9 }), 3);
    assert_eq!(find_neighbour(&vec![], HardwareAddress { value: 9 }), 0);
}

#[test]
fn find_host_looks_at_the_leading_records_only() {
    let list = vec![
        host(IpAddress::V4(1), "a"),
        host(IpAddress::V4(2), "b"),
        host(IpAddress::V4(2), "c"),
        host(IpAddress::V4(3), "d"),
    ];
    assert_eq!(find_host(&list, 4, IpAddress::V4(2)), 1);
    assert_eq!(find_host(&list, 4, IpAddress::V4(3)), 3);
    assert_eq!(find_host(&list, 3, IpAddress::V4(3)), 3);
    assert_eq!(find_host(&list, 4, IpAddress::V6(2)), 4);
    assert_eq!(find_host(&list, 0, IpAddress::V4(1)), 0);
}

#[test]
fn printer_gets_its_ipv6_entry() {
    let mut hosts = table(vec![host(IpAddress::V4(0x0a00_0005), "printer")]);
    hosts.retain_ipv4_only();
    let ipv4 = vec![neighbour(0xaabb_ccdd_eeff, IpAddress::V4(0x0a00_0005))];
    let ipv6 = vec![neighbour(0xaabb_ccdd_eeff, IpAddress::V6(LINK_LOCAL_ONE))];
    hosts.add_ipv6_clients(ipv6, ipv4);
    assert_eq!(
        hosts.records(),
        &vec![
            host(IpAddress::V4(0x0a00_0005), "printer"),
            host(IpAddress::V6(LINK_LOCAL_ONE), "printer"),
        ]
    );
    let texts = vec!["10.0.0.5".to_string(), "fe80::1".to_string()];
    assert_eq!(hosts.flush(&texts), "10.0.0.5 printer\nfe80::1 printer");
}

#[test]
fn neighbours_without_counterpart_add_nothing() {
    let mut hosts = table(vec![host(IpAddress::V4(1), "a"), host(IpAddress::V4(2), "b")]);
    let ipv4 = vec![neighbour(10, IpAddress::V4(1)), neighbour(30, IpAddress::V4(3))];
    let ipv6 = vec![
        neighbour(20, IpAddress::V6(LINK_LOCAL_ONE)),
        neighbour(30, IpAddress::V6(LINK_LOCAL_TWO)),
    ];
    hosts.add_ipv6_clients(ipv6, ipv4);
    assert_eq!(hosts.records(), &vec![host(IpAddress::V4(1), "a"), host(IpAddress::V4(2), "b")]);
    hosts.add_ipv6_clients(vec![], vec![neighbour(10, IpAddress::V4(1))]);
    assert_eq!(hosts.records().len(), 2);
    hosts.add_ipv6_clients(vec![neighbour(10, IpAddress::V6(LINK_LOCAL_ONE))], vec![]);
    assert_eq!(hosts.records().len(), 2);
}

#[test]
fn first_match_wins_on_both_lookups() {
    let mut hosts = table(vec![
        host(IpAddress::V4(1), "first"),
        host(IpAddress::V4(1), "second"),
        host(IpAddress::V4(2), "other"),
    ]);
    let ipv4 = vec![
        neighbour(10, IpAddress::V4(1)),
        neighbour(10, IpAddress::V4(2)),
        neighbour(20, IpAddress::V4(9)),
        neighbour(20, IpAddress::V4(2)),
    ];
    let ipv6 = vec![
        neighbour(10, IpAddress::V6(LINK_LOCAL_ONE)),
        neighbour(20, IpAddress::V6(LINK_LOCAL_TWO)),
        neighbour(10, IpAddress::V6(LINK_LOCAL_ONE)),
    ];
    hosts.add_ipv6_clients(ipv6, ipv4);
    assert_eq!(
        hosts.records()[3..],
        [host(IpAddress::V6(LINK_LOCAL_ONE), "first"), host(IpAddress::V6(LINK_LOCAL_ONE), "first")]
    );
    assert_eq!(hosts.records().len(), 5);
}

#[test]
fn appended_entries_do_not_feed_later_lookups() {
    let mut hosts = table(vec![host(IpAddress::V4(1), "a")]);
    let ipv4 = vec![neighbour(10, IpAddress::V4(1)), neighbour(20, IpAddress::V4(7))];
    let ipv6 = vec![neighbour(10, IpAddress::V4(7)), neighbour(20, IpAddress::V6(LINK_LOCAL_TWO))];
    hosts.add_ipv6_clients(ipv6, ipv4);
    assert_eq!(hosts.records(), &vec![host(IpAddress::V4(1), "a"), host(IpAddress::V4(7), "a")]);
}

#[test]
fn correlation_gives_the_same_result_each_time() {
    let start = vec![host(IpAddress::V4(1), "a"), host(IpAddress::V4(2), "b")];
    let ipv4 = vec![neighbour(10, IpAddress::V4(2)), neighbour(11, IpAddress::V4(1))];
    let ipv6 = vec![
        neighbour(11, IpAddress::V6(LINK_LOCAL_ONE)),
        neighbour(10, IpAddress::V6(LINK_LOCAL_TWO)),
    ];
    let mut first = table(start.clone());
    first.add_ipv6_clients(ipv6.clone(), ipv4.clone());
    let mut second = table(start);
    second.add_ipv6_clients(ipv6, ipv4);
    assert_eq!(first.records(), second.records());
    assert_eq!(
        first.records()[2..],
        [host(IpAddress::V6(LINK_LOCAL_ONE), "a"), host(IpAddress::V6(LINK_LOCAL_TWO), "b")]
    );
}

#[test]
fn stale_entries_do_not_pile_up_over_runs() {
    let ipv4 = vec![neighbour(10, IpAddress::V4(1))];
    let ipv6 = vec![neighbour(10, IpAddress::V6(LINK_LOCAL_ONE))];
    let mut hosts = table(vec![host(IpAddress::V4(1), "a")]);
    hosts.retain_ipv4_only();
    hosts.add_ipv6_clients(ipv6.clone(), ipv4.clone());
    let after_one = hosts.records().clone();
    let mut again = table(after_one.clone());
    again.retain_ipv4_only();
    again.add_ipv6_clients(ipv6, ipv4);
    assert_eq!(again.records(), &after_one);
}

#[test]
fn flush_writes_one_line_per_record() {
    assert_eq!(written(table(vec![])), "");
    assert_eq!(written(table(vec![host(IpAddress::V4(0x7f00_0001), "localhost")])), "127.0.0.1 localhost");
    assert_eq!(
        written(table(vec![
            host(IpAddress::V4(0x7f00_0001), "localhost"),
            host(IpAddress::V6(1), "ip6-localhost"),
            host(IpAddress::V4(0x0a00_0005), "printer"),
        ])),
        "127.0.0.1 localhost\nv6:1 ip6-localhost\n10.0.0.5 printer"
    );
}

#[test]
fn system_table_path() {
    assert_eq!(HOST_FILE_PATH, "/etc/hosts");
    assert_eq!(table(vec![]).file_path(), HOST_FILE_PATH);
}
