use wireguard_exporter::alias::{Alias, AliasMap};
use wireguard_exporter::wireguard::{FieldKind, ParseError, WireguardState};

fn no_aliases() -> AliasMap {
    AliasMap::new(Vec::new())
}

fn alias_map(pairs: &[(&str, &str)]) -> AliasMap {
    let mut entries = Vec::new();
    for (k, v) in pairs {
        entries.push(Alias { inner: (k.as_bytes().to_vec(), v.as_bytes().to_vec()) });
    }
    AliasMap::new(entries)
}

#[test]
fn example_scenario_parses() {
    let dump = "iface0\tPRIV\tPUB0\t51820\t0\nPUB0\tpeerPUB\tPSK\t1.2.3.4:51820\t0.0.0.0/0\t1700000000\t1000\t2000\t25";
    let st = WireguardState::parse(dump.as_bytes(), &no_aliases()).unwrap();
    assert_eq!(st.interfaces.len(), 1);
    assert_eq!(st.interfaces[0], b"iface0".to_vec());
    assert_eq!(st.peers.len(), 1);
    let p = &st.peers[0];
    assert_eq!(p.pubkey, b"peerPUB".to_vec());
    assert_eq!(p.interface, 0);
    assert_eq!(p.tx_bytes, 1000);
    assert_eq!(p.rx_bytes, 2000);
    assert_eq!(p.handshake_timestamp, Some(1700000000));
    let ep = p.endpoint.as_ref().unwrap();
    assert_eq!(ep.ip, b"1.2.3.4".to_vec());
    assert_eq!(ep.port, 51820);
    assert_eq!(p.alias, None);
}

#[test]
fn peers_bind_to_nearest_preceding_interface() {
    let dump = "wg0\tP\tP\t1\t0\n\
                A\tpkA\tx\t(none)\t::/0\t0\t1\t2\t0\n\
                wg1\tP\tP\t2\t0\n\
                B\tpkB\tx\t(none)\t::/0\t0\t3\t4\t0\n\
                C\tpkC\tx\t(none)\t::/0\t0\t5\t6\t0\n";
    let st = WireguardState::parse(dump.as_bytes(), &no_aliases()).unwrap();
    assert_eq!(st.interfaces.len(), 2);
    assert_eq!(st.interfaces[1], b"wg1".to_vec());
    assert_eq!(st.peers.len(), 3);
    assert_eq!(st.peers[0].interface, 0);
    assert_eq!(st.peers[1].interface, 1);
    assert_eq!(st.peers[2].interface, 1);
}

#[test]
fn peer_before_interface_is_rejected() {
    let dump = "PUB0\tpeerPUB\tPSK\t(none)\t::/0\t0\t1\t2\t0\n";
    let r = WireguardState::parse(dump.as_bytes(), &no_aliases());
    assert_eq!(r, Err(ParseError::PeerBeforeInterface));
}

#[test]
fn zero_handshake_is_normalized_to_none() {
    let dump = "wg0\tP\tP\t1\t0\nA\tpk\tx\t(none)\t::/0\t0\t1\t2\t0\n";
    let st = WireguardState::parse(dump.as_bytes(), &no_aliases()).unwrap();
    assert_eq!(st.peers[0].handshake_timestamp, None);
}

#[test]
fn nonzero_handshake_round_trips_exactly() {
    let dump = "wg0\tP\tP\t1\t0\nA\tpk\tx\t(none)\t::/0\t18446744073709551615\t1\t2\t0\n";
    let st = WireguardState::parse(dump.as_bytes(), &no_aliases()).unwrap();
    assert_eq!(st.peers[0].handshake_timestamp, Some(u64::MAX));
}

#[test]
fn unrecognized_line_is_rejected() {
    let dump = "wg0\tP\tP\t1\t0\nonly\tthree\tfields\n";
    let r = WireguardState::parse(dump.as_bytes(), &no_aliases());
    assert_eq!(r, Err(ParseError::UnrecognizedLine));
}

#[test]
fn blank_line_is_rejected() {
    let dump = "wg0\tP\tP\t1\t0\n\n";
    let r = WireguardState::parse(dump.as_bytes(), &no_aliases());
    assert_eq!(r, Err(ParseError::UnrecognizedLine));
}

#[test]
fn bad_integer_fields_name_the_field() {
    let base = "wg0\tP\tP\t1\t0\n";
    let hs = format!("{}A\tpk\tx\t(none)\t::/0\tnope\t1\t2\t0\n", base);
    assert_eq!(
        WireguardState::parse(hs.as_bytes(), &no_aliases()),
        Err(ParseError::FieldParseFailure(FieldKind::Handshake))
    );
    let tx = format!("{}A\tpk\tx\t(none)\t::/0\t0\t\t2\t0\n", base);
    assert_eq!(
        WireguardState::parse(tx.as_bytes(), &no_aliases()),
        Err(ParseError::FieldParseFailure(FieldKind::TxBytes))
    );
    let rx = format!("{}A\tpk\tx\t(none)\t::/0\t0\t1\t99999999999999999999999\t0\n", base);
    assert_eq!(
        WireguardState::parse(rx.as_bytes(), &no_aliases()),
        Err(ParseError::FieldParseFailure(FieldKind::RxBytes))
    );
}

#[test]
fn empty_input_is_an_empty_snapshot() {
    let st = WireguardState::parse(b"", &no_aliases()).unwrap();
    assert!(st.interfaces.is_empty());
    assert!(st.peers.is_empty());
}

#[test]
fn endpoint_variants() {
    let dump = "wg0\tP\tP\t1\t0\n\
                A\tpk1\tx\t(none)\t::/0\t0\t1\t2\t0\n\
                B\tpk2\tx\t[2001:db8::1]:51820\t::/0\t0\t1\t2\t0\n\
                C\tpk3\tx\tgarbage\t::/0\t0\t1\t2\t0\n\
                D\tpk4\tx\t9.8.7.6:123456\t::/0\t0\t1\t2\t0\n";
    let st = WireguardState::parse(dump.as_bytes(), &no_aliases()).unwrap();
    assert_eq!(st.peers[0].endpoint, None);
    let e1 = st.peers[1].endpoint.as_ref().unwrap();
    assert_eq!(e1.ip, b"2001:db8::1".to_vec());
    assert_eq!(e1.port, 51820);
    assert_eq!(st.peers[2].endpoint, None);
    assert_eq!(st.peers[3].endpoint, None, "out-of-range port degrades to no endpoint");
}

#[test]
fn endpoint_host_must_be_an_ip_address() {
    let dump = "wg0\tP\tP\t1\t0\n\
                A\tpk1\tx\tabc:80\t::/0\t0\t1\t2\t0\n\
                B\tpk2\tx\t999.1.2.3:80\t::/0\t0\t1\t2\t0\n\
                C\tpk3\tx\t01.2.3.4:80\t::/0\t0\t1\t2\t0\n\
                D\tpk4\tx\t[1:2:3]:80\t::/0\t0\t1\t2\t0\n\
                E\tpk5\tx\t10.0.0.1:80\t::/0\t0\t1\t2\t0\n";
    let st = WireguardState::parse(dump.as_bytes(), &no_aliases()).unwrap();
    assert_eq!(st.peers[0].endpoint, None, "a host that is no IP address yields no endpoint");
    assert_eq!(st.peers[1].endpoint, None, "an octet above 255 is rejected");
    assert_eq!(st.peers[2].endpoint, None, "a leading zero in an octet is rejected");
    assert_eq!(st.peers[3].endpoint, None, "three bare groups are no IPv6 address");
    let e = st.peers[4].endpoint.as_ref().unwrap();
    assert_eq!(e.ip, b"10.0.0.1".to_vec());
    assert_eq!(e.port, 80);
}

#[test]
fn endpoint_zone_suffix_is_stripped() {
    let dump = "wg0\tP\tP\t1\t0\n\
                A\tpk1\tx\t[fe80::1%3]:51820\t::/0\t0\t1\t2\t0\n\
                B\tpk2\tx\t[fe80::1%eth0]:51820\t::/0\t0\t1\t2\t0\n\
                C\tpk3\tx\t[::ffff:10.0.0.1]:51820\t::/0\t0\t1\t2\t0\n";
    let st = WireguardState::parse(dump.as_bytes(), &no_aliases()).unwrap();
    let e0 = st.peers[0].endpoint.as_ref().unwrap();
    assert_eq!(e0.ip, b"fe80::1".to_vec(), "a numeric zone is accepted and dropped");
    assert_eq!(e0.port, 51820);
    assert_eq!(st.peers[1].endpoint, None, "a named zone is not a numeric identifier");
    let e2 = st.peers[2].endpoint.as_ref().unwrap();
    assert_eq!(e2.ip, b"::ffff:10.0.0.1".to_vec(), "an embedded IPv4 tail is accepted");
}

#[test]
fn alias_resolution_is_exact_match() {
    let aliases = alias_map(&[("pkA", "alice"), ("pkB", "bob"), ("pkA", "late-alice")]);
    let dump = "wg0\tP\tP\t1\t0\n\
                A\tpkA\tx\t(none)\t::/0\t0\t1\t2\t0\n\
                B\tpkB\tx\t(none)\t::/0\t0\t1\t2\t0\n\
                C\tpkC\tx\t(none)\t::/0\t0\t1\t2\t0\n";
    let st = WireguardState::parse(dump.as_bytes(), &aliases).unwrap();
    assert_eq!(st.peers[0].alias, Some(b"late-alice".to_vec()), "the later entry wins");
    assert_eq!(st.peers[1].alias, Some(b"bob".to_vec()));
    assert_eq!(st.peers[2].alias, None);
}
