use prometheus::Registry;
use wireguard_exporter::alias::AliasMap;
use wireguard_exporter::metrics::Metrics;
use wireguard_exporter::wireguard::WireguardState;

fn parse(dump: &str) -> WireguardState {
    WireguardState::parse(dump.as_bytes(), &AliasMap::new(Vec::new())).unwrap()
}

fn value(r: &Registry, family: &str, labels: &[(&str, &str)]) -> Option<f64> {
    for mf in r.gather() {
        if mf.get_name() != family {
            continue;
        }
        'metric: for m in mf.get_metric() {
            let have = m.get_label();
            if have.len() != labels.len() {
                continue;
            }
            for (k, v) in labels {
                if !have.iter().any(|l| l.name() == *k && l.value() == *v) {
                    continue 'metric;
                }
            }
            return Some(if family.ends_with("bytes_total") {
                m.get_counter().value()
            } else {
                m.get_gauge().value()
            });
        }
    }
    None
}

const CYCLE1: &str = "iface0\tPRIV\tPUB0\t51820\t0\nPUB0\tpeerPUB\tPSK\t1.2.3.4:51820\t0.0.0.0/0\t1700000000\t1000\t2000\t25";
const CYCLE2: &str = "iface0\tPRIV\tPUB0\t51820\t0\nPUB0\tpeerPUB\tPSK\t1.2.3.4:51820\t0.0.0.0/0\t1700000000\t1500\t2000\t25";
const CYCLE3: &str = "iface0\tPRIV\tPUB0\t51820\t0\nPUB0\tpeerPUB\tPSK\t1.2.3.4:51820\t0.0.0.0/0\t1700000000\t300\t100\t25";

#[test]
fn counters_follow_raw_values_across_cycles() {
    let r = Registry::new();
    let mut m = Metrics::new(&r, false).unwrap();
    m.update(&parse(CYCLE1), &None);
    assert_eq!(value(&r, "wireguard_interfaces_total", &[]), Some(1.0));
    assert_eq!(value(&r, "wireguard_peers_total", &[("interface", "iface0")]), Some(1.0));
    assert_eq!(
        value(&r, "wireguard_bytes_total", &[("interface", "iface0"), ("direction", "tx")]),
        Some(1000.0)
    );
    assert_eq!(
        value(&r, "wireguard_bytes_total", &[("interface", "iface0"), ("direction", "rx")]),
        Some(2000.0)
    );

    // A second cycle with tx grown by 500 increments the counter by
    // exactly 500.
    m.update(&parse(CYCLE2), &None);
    assert_eq!(
        value(&r, "wireguard_bytes_total", &[("interface", "iface0"), ("direction", "tx")]),
        Some(1500.0)
    );
    assert_eq!(
        value(
            &r,
            "wireguard_peer_bytes_total",
            &[("interface", "iface0"), ("peer", "peerPUB"), ("direction", "tx"), ("alias", "")]
        ),
        Some(1500.0)
    );
}

#[test]
fn rollback_never_lowers_a_counter() {
    let r = Registry::new();
    let mut m = Metrics::new(&r, false).unwrap();
    m.update(&parse(CYCLE2), &None);
    m.update(&parse(CYCLE3), &None);
    assert_eq!(
        value(&r, "wireguard_bytes_total", &[("interface", "iface0"), ("direction", "tx")]),
        Some(1500.0)
    );
    assert_eq!(
        value(&r, "wireguard_bytes_total", &[("interface", "iface0"), ("direction", "rx")]),
        Some(2000.0)
    );
    assert_eq!(
        value(
            &r,
            "wireguard_peer_bytes_total",
            &[("interface", "iface0"), ("peer", "peerPUB"), ("direction", "rx"), ("alias", "")]
        ),
        Some(2000.0)
    );
}

#[test]
fn endpoint_marker_without_geo_has_no_country_label() {
    let r = Registry::new();
    let mut m = Metrics::new(&r, false).unwrap();
    m.update(&parse(CYCLE1), &None);
    assert_eq!(
        value(
            &r,
            "wireguard_peer_endpoint",
            &[("interface", "iface0"), ("endpoint_ip", "1.2.3.4"), ("peer", "peerPUB"), (
                "alias",
                ""
            )]
        ),
        Some(1.0)
    );
}

#[test]
fn endpoint_marker_with_geo_carries_a_country_label() {
    let r = Registry::new();
    let mut m = Metrics::new(&r, true).unwrap();
    let countries = vec!["DE".to_owned()];
    m.apply(&parse(CYCLE1), &countries, 1_700_000_100);
    assert_eq!(
        value(
            &r,
            "wireguard_peer_endpoint",
            &[
                ("interface", "iface0"),
                ("endpoint_ip", "1.2.3.4"),
                ("endpoint_country", "DE"),
                ("peer", "peerPUB"),
                ("alias", "")
            ]
        ),
        Some(1.0)
    );
}

#[test]
fn handshake_gauge_is_elapsed_milliseconds() {
    let r = Registry::new();
    let mut m = Metrics::new(&r, false).unwrap();
    let countries = vec![String::new()];
    m.apply(&parse(CYCLE1), &countries, 1_700_000_100);
    assert_eq!(
        value(
            &r,
            "wireguard_duration_since_latest_handshake",
            &[("interface", "iface0"), ("peer", "peerPUB"), ("alias", "")]
        ),
        Some(100_000.0)
    );
}

#[test]
fn never_handshaked_peer_publishes_no_duration() {
    let dump = "iface0\tPRIV\tPUB0\t51820\t0\nPUB0\tpk\tPSK\t(none)\t::/0\t0\t1\t2\t25";
    let r = Registry::new();
    let mut m = Metrics::new(&r, false).unwrap();
    m.update(&parse(dump), &None);
    assert_eq!(
        value(
            &r,
            "wireguard_duration_since_latest_handshake",
            &[("interface", "iface0"), ("peer", "pk"), ("alias", "")]
        ),
        None
    );
}

#[test]
fn changed_endpoint_leaves_the_old_combination_behind() {
    let moved = "iface0\tPRIV\tPUB0\t51820\t0\nPUB0\tpeerPUB\tPSK\t5.6.7.8:51820\t0.0.0.0/0\t1700000000\t1500\t2000\t25";
    let r = Registry::new();
    let mut m = Metrics::new(&r, false).unwrap();
    m.update(&parse(CYCLE1), &None);
    m.update(&parse(moved), &None);
    assert_eq!(
        value(
            &r,
            "wireguard_peer_endpoint",
            &[("interface", "iface0"), ("endpoint_ip", "1.2.3.4"), ("peer", "peerPUB"), (
                "alias",
                ""
            )]
        ),
        Some(1.0),
        "the stale combination is not pruned"
    );
    assert_eq!(
        value(
            &r,
            "wireguard_peer_endpoint",
            &[("interface", "iface0"), ("endpoint_ip", "5.6.7.8"), ("peer", "peerPUB"), (
                "alias",
                ""
            )]
        ),
        Some(1.0)
    );
}

#[test]
fn alias_label_is_carried_into_peer_series() {
    let mut entries = Vec::new();
    entries.push(wireguard_exporter::alias::Alias {
        inner: (b"peerPUB".to_vec(), b"alice".to_vec()),
    });
    let aliases = AliasMap::new(entries);
    let st = WireguardState::parse(CYCLE1.as_bytes(), &aliases).unwrap();
    let r = Registry::new();
    let mut m = Metrics::new(&r, false).unwrap();
    m.update(&st, &None);
    assert_eq!(
        value(
            &r,
            "wireguard_peer_bytes_total",
            &[("interface", "iface0"), ("peer", "peerPUB"), ("direction", "tx"), (
                "alias",
                "alice"
            )]
        ),
        Some(1000.0)
    );
}
