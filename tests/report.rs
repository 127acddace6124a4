use lease_status::address::Ipv4Address;
use lease_status::error::StatusError;
use lease_status::lease::LeaseRecord;
use lease_status::merge::{merge, StatusEntry};
use lease_status::neighbor::{NdpCacheState, NeighborEntry};
use lease_status::status::{filter_available, status_report};

const NOW: i64 = 1717200000;

fn lease(mac: &str, last: u8, expires_at: i64) -> LeaseRecord {
    LeaseRecord {
        mac_address: mac.to_string(),
        ip_address: Ipv4Address(10, 0, 0, last),
        expires_at,
        hostname: None,
    }
}

fn neighbor(ip: &str, mac: &str) -> NeighborEntry {
    NeighborEntry { mac_address: mac.to_string(), ip_address: ip.to_string(), cache_state: None }
}

fn find<'a>(r: &'a [StatusEntry], mac: &str) -> Option<&'a StatusEntry> {
    r.iter().find(|e| e.mac_address == mac)
}

#[test]
fn availability_is_strictly_after_now() {
    assert!(!lease("a", 1, NOW - 1).is_available(NOW));
    assert!(lease("a", 1, NOW + 1).is_available(NOW));
    assert!(!lease("a", 1, NOW).is_available(NOW));
}

#[test]
fn filter_keeps_active_leases_in_order() {
    let ls = vec![lease("a", 1, NOW + 5), lease("b", 2, NOW), lease("c", 3, NOW - 1), lease("d", 4, NOW + 1)];
    let r = filter_available(&ls, NOW);
    assert_eq!(r.len(), 2);
    assert_eq!(r[0].mac_address, "a");
    assert_eq!(r[1].mac_address, "d");
}

#[test]
fn merge_twice_gives_the_same_view() {
    let ls = vec![lease("a", 1, NOW + 5), lease("b", 2, NOW + 5), lease("a", 3, NOW + 9)];
    let ns = vec![neighbor("fe80::1", "c"), neighbor("fe80::2", "a"), neighbor("fe80::3", "c")];
    let r1 = merge(&ls, &ns);
    let r2 = merge(&ls, &ns);
    assert_eq!(format!("{:?}", r1), format!("{:?}", r2));
    assert_eq!(ls.len(), 3);
    assert_eq!(ns.len(), 3);
    assert_eq!(ls[0].ip_address, Ipv4Address(10, 0, 0, 1));
}

#[test]
fn merge_has_one_entry_per_address() {
    let ls = vec![lease("a", 1, NOW + 5), lease("b", 2, NOW + 5), lease("a", 3, NOW + 9)];
    let ns = vec![neighbor("fe80::1", "c"), neighbor("fe80::2", "a"), neighbor("fe80::3", "c")];
    let r = merge(&ls, &ns);
    assert_eq!(r.len(), 3);
    let a = find(&r, "a").unwrap();
    assert_eq!(a.dhcp_lease.as_ref().unwrap().ip_address, Ipv4Address(10, 0, 0, 3));
    assert_eq!(a.ndp_entries.len(), 1);
    assert_eq!(a.ndp_entries[0].ip_address, "fe80::2");
    let b = find(&r, "b").unwrap();
    assert!(b.dhcp_lease.is_some());
    assert!(b.ndp_entries.is_empty());
    let c = find(&r, "c").unwrap();
    assert!(c.dhcp_lease.is_none());
    assert_eq!(c.ndp_entries.len(), 2);
    assert_eq!(c.ndp_entries[0].ip_address, "fe80::1");
    assert_eq!(c.ndp_entries[1].ip_address, "fe80::3");
}

#[test]
fn merge_of_nothing_is_empty() {
    assert!(merge(&Vec::new(), &Vec::new()).is_empty());
}

#[test]
fn expired_lease_alone_leaves_no_entry() {
    let leases = "lease 10.0.0.9 {\nends 1 2024/05/31 23:59:59;\nhardware ethernet aa:bb:cc:00:00:09;\n}\n";
    let r = status_report(leases, "header\n", NOW).unwrap();
    assert!(r.is_empty());
    let r = status_report(leases, "header\nfe80::9 aa:bb:cc:00:00:09 em0 1s D\n", NOW).unwrap();
    assert_eq!(r.len(), 1);
    assert!(r[0].dhcp_lease.is_none());
    assert_eq!(r[0].ndp_entries[0].cache_state, Some(NdpCacheState::Delay));
}

#[test]
fn end_to_end_two_leases_two_neighbors() {
    let leases = "lease 10.0.0.5 {\n  starts 6 2024/06/01 00:00:00;\n  ends 0 2025/06/01 00:00:00;\n  hardware ethernet aa:bb:cc:00:00:01;\n  client-hostname \"laptop\";\n}\n\
lease 10.0.0.6 {\n  starts 4 2023/06/01 00:00:00;\n  ends 4 2023/06/01 00:00:00;\n  hardware ethernet aa:bb:cc:00:00:02;\n}\n";
    let neighbors = "Neighbor Linklayer Address Netif Expire S Flags\n\
fe80::1 aa:bb:cc:00:00:01 em0 23h59m59s Reachable\n\
fe80::2 aa:bb:cc:00:00:03 em0 23h59m59s Stale\n";
    let r = status_report(leases, neighbors, NOW).unwrap();
    assert_eq!(r.len(), 2);
    let one = find(&r, "aa:bb:cc:00:00:01").unwrap();
    let l = one.dhcp_lease.as_ref().unwrap();
    assert_eq!(l.ip_address, Ipv4Address(10, 0, 0, 5));
    assert_eq!(l.hostname, Some("laptop".to_string()));
    assert_eq!(l.expires_at, 1748736000);
    assert_eq!(one.ndp_entries.len(), 1);
    assert_eq!(one.ndp_entries[0].ip_address, "fe80::1");
    assert_eq!(one.ndp_entries[0].cache_state, Some(NdpCacheState::Reachable));
    assert!(find(&r, "aa:bb:cc:00:00:02").is_none());
    let three = find(&r, "aa:bb:cc:00:00:03").unwrap();
    assert!(three.dhcp_lease.is_none());
    assert_eq!(three.ndp_entries.len(), 1);
    assert_eq!(three.ndp_entries[0].ip_address, "fe80::2");
}

#[test]
fn report_errors_name_the_failing_source() {
    let bad_lease = "lease 10.0.0.5 {\nends 1 2030/01/01 00:00:00;\n}\n";
    let bad_neighbors = "header\nfe80::1\n";
    assert_eq!(status_report(bad_lease, bad_neighbors, NOW).unwrap_err(), StatusError::MalformedLease { block: 0 });
    assert_eq!(status_report("", bad_neighbors, NOW).unwrap_err(), StatusError::MalformedNeighbor { line: 1 });
}

#[test]
fn report_now_drops_leases_long_expired() {
    let leases = "lease 10.0.0.5 {\nends 1 2001/01/01 00:00:00;\nhardware ethernet aa:bb:cc:00:00:01;\n}\n\
lease 10.0.0.6 {\nends 1 2999/01/01 00:00:00;\nhardware ethernet aa:bb:cc:00:00:02;\n}\n";
    let now = chrono::Utc::now().timestamp();
    let r = status_report(leases, "header\n", now).unwrap();
    assert_eq!(r.len(), 1);
    assert_eq!(r[0].mac_address, "aa:bb:cc:00:00:02");
}

#[test]
fn merge_keeps_order_of_first_appearance() {
    let ls = vec![lease("b", 1, NOW + 5), lease("a", 2, NOW + 5), lease("b", 3, NOW + 9)];
    let ns = vec![neighbor("fe80::1", "d"), neighbor("fe80::2", "a"), neighbor("fe80::3", "c"), neighbor("fe80::4", "d")];
    let r = merge(&ls, &ns);
    let keys: Vec<&str> = r.iter().map(|e| e.mac_address.as_str()).collect();
    assert_eq!(keys, vec!["b", "a", "d", "c"]);
}
