use lease_status::address::{parse_ipv4, Ipv4Address};
use lease_status::error::StatusError;
use lease_status::lease::{expiry_text, parse_lease_block, parse_leases, read_lease_with_expiry};
use lease_status::neighbor::{parse_neighbors, NdpCacheState};

fn chars(s: &str) -> Vec<char> {
    s.chars().collect()
}

const TWO_LEASES: &str = "# dhcpd.leases\n\
lease 192.168.0.10 {\n\
  starts 4 2024/05/30 10:00:00;\n\
  ends 6 2024/06/01 00:00:00;\n\
  hardware ethernet aa:bb:cc:dd:ee:01;\n\
  client-hostname \"laptop\";\n\
}\n\
lease 192.168.0.11 {\n\
  starts 4 2024/05/30 10:00:00;\n\
  ends 6 2024/06/01 00:00:01;\n\
  hardware ethernet aa:bb:cc:dd:ee:02;\n\
}\n";

#[test]
fn well_formed_blocks_give_one_record_each() {
    let leases = parse_leases(TWO_LEASES).unwrap();
    assert_eq!(leases.len(), 2);
    assert_eq!(leases[0].mac_address, "aa:bb:cc:dd:ee:01");
    assert_eq!(leases[0].ip_address, Ipv4Address(192, 168, 0, 10));
    assert_eq!(leases[0].expires_at, 1717200000);
    assert_eq!(leases[0].hostname, Some("laptop".to_string()));
    assert_eq!(leases[1].mac_address, "aa:bb:cc:dd:ee:02");
    assert_eq!(leases[1].ip_address, Ipv4Address(192, 168, 0, 11));
    assert_eq!(leases[1].expires_at, 1717200001);
    assert_eq!(leases[1].hostname, None);
}

#[test]
fn empty_lease_text_has_no_records() {
    assert_eq!(parse_leases("").unwrap().len(), 0);
    assert_eq!(parse_leases("# nothing here\n}\n").unwrap().len(), 0);
}

#[test]
fn block_without_hardware_fails_the_whole_text() {
    let text = "lease 10.0.0.1 {\n  ends 1 2030/01/01 00:00:00;\n  hardware ethernet aa:bb:cc:00:00:01;\n}\n\
lease 10.0.0.2 {\n  ends 1 2030/01/01 00:00:00;\n}\n";
    assert_eq!(parse_leases(text).unwrap_err(), StatusError::MalformedLease { block: 1 });
}

#[test]
fn directive_order_inside_a_block_does_not_matter() {
    let a = "lease 10.0.0.7 {\n  hardware ethernet aa:bb:cc:00:00:07;\n  client-hostname \"box\";\n  ends 2 2030/01/01 12:30:00;\n}\n";
    let b = "lease 10.0.0.7 {\n  ends 2 2030/01/01 12:30:00;\n  client-hostname \"box\";\n  hardware ethernet aa:bb:cc:00:00:07;\n}\n";
    let la = parse_leases(a).unwrap();
    let lb = parse_leases(b).unwrap();
    assert_eq!(la.len(), 1);
    assert_eq!(la[0].mac_address, lb[0].mac_address);
    assert_eq!(la[0].ip_address, lb[0].ip_address);
    assert_eq!(la[0].expires_at, lb[0].expires_at);
    assert_eq!(la[0].hostname, lb[0].hostname);
    assert_eq!(la[0].expires_at, 1893501000);
}

#[test]
fn block_lines_are_trimmed_and_joined() {
    let block = chars("lease 10.0.0.5 {starts 1 2030/01/01 00:00:00;ends 1 2030/01/01 00:00:00;hardware ethernet aa:bb:cc:00:00:05;}");
    let l = parse_lease_block(&block).unwrap();
    assert_eq!(l.ip_address, Ipv4Address(10, 0, 0, 5));
    assert_eq!(l.mac_address, "aa:bb:cc:00:00:05");
    assert_eq!(l.expires_at, 1893456000);
    let text = "\t lease 10.0.0.5 {  \r\n   ends 1 2030/01/01 00:00:00;\r\n hardware ethernet aa:bb:cc:00:00:05;\n   }  \n";
    let v = parse_leases(text).unwrap();
    assert_eq!(v.len(), 1);
    assert_eq!(v[0].mac_address, "aa:bb:cc:00:00:05");
}

#[test]
fn bad_address_or_time_fails() {
    let bad_ip = "lease 10.0.0.256 {\nends 1 2030/01/01 00:00:00;\nhardware ethernet aa:bb;\n}\n";
    assert_eq!(parse_leases(bad_ip).unwrap_err(), StatusError::MalformedLease { block: 0 });
    let bad_time = "lease 10.0.0.1 {\nends 1 2030-01-01 00:00:00;\nhardware ethernet aa:bb;\n}\n";
    assert_eq!(parse_leases(bad_time).unwrap_err(), StatusError::MalformedLease { block: 0 });
    let never = "lease 10.0.0.1 {\nends never;\nhardware ethernet aa:bb;\n}\n";
    assert_eq!(parse_leases(never).unwrap_err(), StatusError::MalformedLease { block: 0 });
}

#[test]
fn dotted_decimal_addresses() {
    assert_eq!(parse_ipv4(&chars("10.0.0.5")), Some(Ipv4Address(10, 0, 0, 5)));
    assert_eq!(parse_ipv4(&chars("255.255.255.255")), Some(Ipv4Address(255, 255, 255, 255)));
    assert_eq!(parse_ipv4(&chars("0.0.0.0")), Some(Ipv4Address(0, 0, 0, 0)));
    assert_eq!(parse_ipv4(&chars("1.2.3")), None);
    assert_eq!(parse_ipv4(&chars("1.2.3.4.5")), None);
    assert_eq!(parse_ipv4(&chars("01.2.3.4")), None);
    assert_eq!(parse_ipv4(&chars("1.2..4")), None);
    assert_eq!(parse_ipv4(&chars("1.2.3.x")), None);
    assert_eq!(parse_ipv4(&chars("1.2.3.1000")), None);
    assert_eq!(parse_ipv4(&chars("")), None);
}

#[test]
fn neighbor_header_is_always_dropped() {
    let text = "fe80::9 aa:bb:cc:00:00:09 em0 23h59m59s R\nfe80::1 aa:bb:cc:00:00:01 em0 23h59m59s R\n";
    let v = parse_neighbors(text).unwrap();
    assert_eq!(v.len(), 1);
    assert_eq!(v[0].ip_address, "fe80::1");
    assert_eq!(v[0].mac_address, "aa:bb:cc:00:00:01");
    assert_eq!(v[0].cache_state, Some(NdpCacheState::Reachable));
    assert_eq!(parse_neighbors("only a header").unwrap().len(), 0);
    assert_eq!(parse_neighbors("").unwrap().len(), 0);
}

#[test]
fn neighbor_blank_lines_are_ignored() {
    let text = "Neighbor Linklayer Address Netif Expire S Flags\n\n   \nfe80::1 aa:bb:cc:00:00:01\n\n\t\nfe80::2   aa:bb:cc:00:00:02  em0 permanent S\n";
    let v = parse_neighbors(text).unwrap();
    assert_eq!(v.len(), 2);
    assert_eq!(v[0].mac_address, "aa:bb:cc:00:00:01");
    assert_eq!(v[0].cache_state, None);
    assert_eq!(v[1].ip_address, "fe80::2");
    assert_eq!(v[1].cache_state, Some(NdpCacheState::Stale));
}

#[test]
fn neighbor_row_with_one_column_fails() {
    let text = "Neighbor Linklayer Address\nfe80::1 aa:bb:cc:00:00:01\n\nfe80::2\n";
    assert_eq!(parse_neighbors(text).unwrap_err(), StatusError::MalformedNeighbor { line: 3 });
}

#[test]
fn cache_state_names() {
    assert_eq!(NdpCacheState::from_str("R"), Some(NdpCacheState::Reachable));
    assert_eq!(NdpCacheState::from_str("No State"), Some(NdpCacheState::NoState));
    assert_eq!(NdpCacheState::from_str("?"), Some(NdpCacheState::Unknown));
    assert_eq!(NdpCacheState::from_str("W"), Some(NdpCacheState::WaitDelete));
    assert_eq!(NdpCacheState::from_str("x"), None);
    assert_eq!(NdpCacheState::WaitDelete.to_string(), "Wait Delete");
    assert_eq!(NdpCacheState::Probe.to_string(), "Probe");
}

#[test]
fn expiry_text_and_fields_read_separately() {
    let block = chars("lease 10.1.2.3 {ends 3 2030/01/01 00:00:00;hardware ethernet 00:11:22:33:44:55;client-hostname \"pc\";}");
    assert_eq!(expiry_text(&block), Some("2030/01/01 00:00:00".to_string()));
    let l = read_lease_with_expiry(&block, 42).unwrap();
    assert_eq!(l.expires_at, 42);
    assert_eq!(l.ip_address, Ipv4Address(10, 1, 2, 3));
    assert_eq!(l.mac_address, "00:11:22:33:44:55");
    assert_eq!(l.hostname, Some("pc".to_string()));
    assert_eq!(expiry_text(&chars("lease 10.1.2.3 {ends never;}")), None);
    assert!(read_lease_with_expiry(&chars("lease 10.1.2.3 {ends 3 x;}"), 42).is_none());
}
