//! The metric family registry and the snapshot updater.
//!
//! Six fixed families are declared once; every cycle the updater folds a
//! fresh snapshot into them. Gauges are overwritten; counters are only
//! ever raised to the snapshot's raw cumulative value, so a rolled-back
//! raw value (an interface reset) is absorbed instead of being applied
//! as a negative increment.

use vstd::prelude::*;
use vstd::math::max;
use crate::shim::{at, counter_labels, counter_name, counter_values, gauge_labels, gauge_name,
    gauge_values, geo_country, geo_wf, key_of, lossy_text, now_unix, to_text, CounterVec,
    GaugeVec, GeoReader};
use crate::wireguard::{PeerV, StateV, WireguardState};

verus! {

/// Why the registry could not be set up.
#[derive(Clone, Copy, Debug, PartialEq, Eq, Structural)]
pub enum MetricsError {
    /// A family could not be declared or registered.
    Registry,
}

/// Label text of a byte string.
pub open spec fn text(b: Seq<u8>) -> Seq<char> {
    lossy_text(b)
}

/// Label text of an optional alias: the empty string when absent.
pub open spec fn alias_text(a: Option<Seq<u8>>) -> Seq<char> {
    match a {
        Some(x) => lossy_text(x),
        None => Seq::empty(),
    }
}

pub open spec fn tx_text() -> Seq<char> {
    "tx"@
}

pub open spec fn rx_text() -> Seq<char> {
    "rx"@
}

// The fixed label schemas of the six families.

pub open spec fn no_labels() -> Seq<Seq<char>> {
    Seq::empty()
}

pub open spec fn iface_labels() -> Seq<Seq<char>> {
    seq!["interface"@]
}

pub open spec fn bytes_labels() -> Seq<Seq<char>> {
    seq!["interface"@, "direction"@]
}

pub open spec fn peer_bytes_labels() -> Seq<Seq<char>> {
    seq!["interface"@, "peer"@, "direction"@, "alias"@]
}

pub open spec fn handshake_labels() -> Seq<Seq<char>> {
    seq!["interface"@, "peer"@, "alias"@]
}

/// The six family names, in declaration order: the families' identity
/// at the metrics sink.
pub open spec fn family_name_list() -> Seq<Seq<char>> {
    seq![
        "wireguard_interfaces_total"@,
        "wireguard_peers_total"@,
        "wireguard_peer_endpoint"@,
        "wireguard_bytes_total"@,
        "wireguard_peer_bytes_total"@,
        "wireguard_duration_since_latest_handshake"@,
    ]
}

/// The `peer_endpoint` schema carries an `endpoint_country` label
/// exactly when a Geo resolver is configured.
pub open spec fn endpoint_labels(geo: bool) -> Seq<Seq<char>> {
    if geo {
        seq!["interface"@, "endpoint_ip"@, "endpoint_country"@, "peer"@, "alias"@]
    } else {
        seq!["interface"@, "endpoint_ip"@, "peer"@, "alias"@]
    }
}

// The keys the updater writes: each is the concatenated text of the
// label values, as [`crate::shim::key_of`] forms it.

pub open spec fn no_key() -> Seq<char> {
    Seq::empty()
}

pub open spec fn iface_key(name: Seq<char>) -> Seq<char> {
    name
}

pub open spec fn dir_key(name: Seq<char>, dir: Seq<char>) -> Seq<char> {
    name + dir
}

pub open spec fn peer_dir_key(name: Seq<char>, pk: Seq<char>, dir: Seq<char>, al: Seq<char>)
    -> Seq<char> {
    name + pk + dir + al
}

pub open spec fn handshake_key(name: Seq<char>, pk: Seq<char>, al: Seq<char>) -> Seq<char> {
    name + pk + al
}

pub open spec fn endpoint_key(
    geo: bool,
    name: Seq<char>,
    ip: Seq<char>,
    country: Seq<char>,
    pk: Seq<char>,
    al: Seq<char>,
) -> Seq<char> {
    if geo {
        name + ip + country + pk + al
    } else {
        name + ip + pk + al
    }
}

/// Raise a counter entry to `raw`, never lowering it: the published
/// value after a cycle is the maximum of its old value and the raw
/// cumulative value the snapshot reports.
pub open spec fn bump(m: Map<Seq<char>, int>, k: Seq<char>, raw: int) -> Map<Seq<char>, int> {
    m.insert(k, max(at(m, k), raw))
}

/// Peers bound to interface `i`.
pub open spec fn count_peers(ps: Seq<PeerV>, i: int) -> int
    decreases ps.len(),
{
    if ps.len() == 0 {
        0
    } else {
        count_peers(ps.drop_last(), i) + if ps.last().interface == i {
            1int
        } else {
            0int
        }
    }
}

/// Raw cumulative bytes sent over interface `i`.
pub open spec fn sum_tx(ps: Seq<PeerV>, i: int) -> int
    decreases ps.len(),
{
    if ps.len() == 0 {
        0
    } else {
        sum_tx(ps.drop_last(), i) + if ps.last().interface == i {
            ps.last().tx_bytes as int
        } else {
            0int
        }
    }
}

/// Raw cumulative bytes received over interface `i`.
pub open spec fn sum_rx(ps: Seq<PeerV>, i: int) -> int
    decreases ps.len(),
{
    if ps.len() == 0 {
        0
    } else {
        sum_rx(ps.drop_last(), i) + if ps.last().interface == i {
            ps.last().rx_bytes as int
        } else {
            0int
        }
    }
}

/// The per-interface totals fit the counters' machine words.
pub open spec fn sums_fit(s: StateV) -> bool {
    forall|i: int| 0 <= i < s.interfaces.len() ==> #[trigger] sum_tx(s.peers, i) <= u64::MAX
        && sum_rx(s.peers, i) <= u64::MAX
}

/// Clamp to the gauge's machine word.
pub open spec fn clamp_i64(x: int) -> int {
    if x > i64::MAX {
        i64::MAX as int
    } else if x < i64::MIN {
        i64::MIN as int
    } else {
        x
    }
}

/// Milliseconds from the handshake at `ts` to `now`.
pub open spec fn elapsed_ms(now: int, ts: int) -> int {
    clamp_i64((now - ts) * 1000)
}

/// Spec-level registry contents: one value map per family.
#[verifier::ext_equal]
pub struct MetricsV {
    pub interfaces_total: Map<Seq<char>, int>,
    pub peers_total: Map<Seq<char>, int>,
    pub peer_endpoint: Map<Seq<char>, int>,
    pub bytes_total: Map<Seq<char>, int>,
    pub peer_bytes_total: Map<Seq<char>, int>,
    pub handshake: Map<Seq<char>, int>,
    pub geo: bool,
}

/// What one interface contributes: its peer count, and its two byte
/// counters raised to the snapshot's raw sums.
pub open spec fn iface_step(m: MetricsV, s: StateV, i: int) -> MetricsV {
    let name = text(s.interfaces[i]);
    MetricsV {
        peers_total: m.peers_total.insert(iface_key(name), count_peers(s.peers, i)),
        bytes_total: bump(
            bump(m.bytes_total, dir_key(name, tx_text()), sum_tx(s.peers, i)),
            dir_key(name, rx_text()),
            sum_rx(s.peers, i),
        ),
        ..m
    }
}

pub open spec fn apply_ifaces(m: MetricsV, s: StateV, n: int) -> MetricsV
    decreases n,
{
    if n <= 0 {
        m
    } else {
        iface_step(apply_ifaces(m, s, n - 1), s, n - 1)
    }
}

/// What one peer contributes: its endpoint presence marker, its two
/// byte counters raised to the raw values, and its handshake gauge.
pub open spec fn peer_step(m: MetricsV, s: StateV, p: PeerV, country: Seq<char>, now: int)
    -> MetricsV {
    let name = text(s.interfaces[p.interface]);
    let pk = text(p.pubkey);
    let al = alias_text(p.alias);
    let m1 = match p.endpoint {
        Some(e) => MetricsV {
            peer_endpoint: m.peer_endpoint.insert(
                endpoint_key(m.geo, name, text(e.ip), country, pk, al),
                1,
            ),
            ..m
        },
        None => m,
    };
    let m2 = MetricsV {
        peer_bytes_total: bump(
            bump(
                m1.peer_bytes_total,
                peer_dir_key(name, pk, tx_text(), al),
                p.tx_bytes as int,
            ),
            peer_dir_key(name, pk, rx_text(), al),
            p.rx_bytes as int,
        ),
        ..m1
    };
    match p.handshake_timestamp {
        Some(ts) => MetricsV {
            handshake: m2.handshake.insert(
                handshake_key(name, pk, al),
                elapsed_ms(now, ts as int),
            ),
            ..m2
        },
        None => m2,
    }
}

pub open spec fn apply_peers(m: MetricsV, s: StateV, cs: Seq<Seq<char>>, now: int, n: int)
    -> MetricsV
    decreases n,
{
    if n <= 0 {
        m
    } else {
        peer_step(apply_peers(m, s, cs, now, n - 1), s, s.peers[n - 1], cs[n - 1], now)
    }
}

/// What a whole cycle does to the registry, given the snapshot, one
/// country label per peer, and the wall clock.
pub open spec fn apply_spec(m: MetricsV, s: StateV, cs: Seq<Seq<char>>, now: int) -> MetricsV {
    let m0 = MetricsV {
        interfaces_total: m.interfaces_total.insert(no_key(), s.interfaces.len() as int),
        ..m
    };
    apply_peers(apply_ifaces(m0, s, s.interfaces.len() as int), s, cs, now, s.peers.len() as int)
}

/// The country label each peer gets in a cycle: the database's answer
/// for its endpoint IP, and the empty string when no database is
/// configured or the peer has no endpoint.
pub open spec fn snapshot_countries(g: Option<GeoReader>, s: StateV) -> Seq<Seq<char>> {
    Seq::new(
        s.peers.len(),
        |k: int|
            match (g, s.peers[k].endpoint) {
                (Some(db), Some(e)) => geo_country(db, e.ip),
                _ => Seq::empty(),
            },
    )
}

/// The six metric families, declared once and updated in place.
pub struct Metrics {
    interfaces_total: GaugeVec,
    peers_total: GaugeVec,
    peer_endpoint: GaugeVec,
    bytes_total: CounterVec,
    peer_bytes_total: CounterVec,
    duration_since_latest_handshake: GaugeVec,
    geo: bool,
}

// How [`crate::shim::key_of`] unfolds on short label lists.

proof fn lemma_key1(ls: Seq<String>, a: Seq<char>)
    requires
        ls.len() == 1,
        ls[0]@ == a,
    ensures
        key_of(ls) == a,
{
    assert(ls.drop_last() =~= Seq::<String>::empty());
    assert(key_of(Seq::<String>::empty()) == Seq::<char>::empty());
    assert(ls.last() == ls[0]);
    assert(key_of(ls) =~= a);
}

proof fn lemma_key2(ls: Seq<String>, a: Seq<char>, b: Seq<char>)
    requires
        ls.len() == 2,
        ls[0]@ == a,
        ls[1]@ == b,
    ensures
        key_of(ls) == a + b,
{
    lemma_key1(ls.drop_last(), a);
    assert(key_of(ls) =~= a + b);
}

proof fn lemma_key3(ls: Seq<String>, a: Seq<char>, b: Seq<char>, c: Seq<char>)
    requires
        ls.len() == 3,
        ls[0]@ == a,
        ls[1]@ == b,
        ls[2]@ == c,
    ensures
        key_of(ls) == a + b + c,
{
    lemma_key2(ls.drop_last(), a, b);
    assert(key_of(ls) =~= a + b + c);
}

proof fn lemma_key4(ls: Seq<String>, a: Seq<char>, b: Seq<char>, c: Seq<char>, d: Seq<char>)
    requires
        ls.len() == 4,
        ls[0]@ == a,
        ls[1]@ == b,
        ls[2]@ == c,
        ls[3]@ == d,
    ensures
        key_of(ls) == a + b + c + d,
{
    lemma_key3(ls.drop_last(), a, b, c);
    assert(key_of(ls) =~= a + b + c + d);
}

proof fn lemma_key5(
    ls: Seq<String>,
    a: Seq<char>,
    b: Seq<char>,
    c: Seq<char>,
    d: Seq<char>,
    e: Seq<char>,
)
    requires
        ls.len() == 5,
        ls[0]@ == a,
        ls[1]@ == b,
        ls[2]@ == c,
        ls[3]@ == d,
        ls[4]@ == e,
    ensures
        key_of(ls) == a + b + c + d + e,
{
    lemma_key4(ls.drop_last(), a, b, c, d);
    assert(key_of(ls) =~= a + b + c + d + e);
}

impl View for Metrics {
    type V = MetricsV;

    closed spec fn view(&self) -> MetricsV {
        MetricsV {
            interfaces_total: gauge_values(self.interfaces_total),
            peers_total: gauge_values(self.peers_total),
            peer_endpoint: gauge_values(self.peer_endpoint),
            bytes_total: counter_values(self.bytes_total),
            peer_bytes_total: counter_values(self.peer_bytes_total),
            handshake: gauge_values(self.duration_since_latest_handshake),
            geo: self.geo,
        }
    }
}

impl Metrics {
    /// The `peer_endpoint` family's variable label names, so that the
    /// schema can be named from outside this module.
    pub closed spec fn endpoint_schema(&self) -> Seq<Seq<char>> {
        gauge_labels(self.peer_endpoint)
    }

    /// The names the six families were declared with, in the order of
    /// [`family_name_list`], so that the family identity at the sink
    /// can be named from outside this module.
    pub closed spec fn family_names(&self) -> Seq<Seq<char>> {
        seq![
            gauge_name(self.interfaces_total),
            gauge_name(self.peers_total),
            gauge_name(self.peer_endpoint),
            counter_name(self.bytes_total),
            counter_name(self.peer_bytes_total),
            gauge_name(self.duration_since_latest_handshake),
        ]
    }

    /// Every family carries its fixed label schema and its fixed name.
    pub closed spec fn wf(&self) -> bool {
        self.family_names() == family_name_list() && gauge_labels(self.interfaces_total)
            == no_labels() && gauge_labels(self.peers_total)
            == iface_labels() && gauge_labels(self.peer_endpoint) == endpoint_labels(self.geo)
            && counter_labels(self.bytes_total) == bytes_labels() && counter_labels(
            self.peer_bytes_total,
        ) == peer_bytes_labels() && gauge_labels(self.duration_since_latest_handshake)
            == handshake_labels()
    }

    /// Declare and register the six families. The `peer_endpoint` schema
    /// carries `endpoint_country` exactly when `geo` is set, and every
    /// family starts with no populated label combination. The registry's
    /// own contents are outside the model — registration works through
    /// the registry's interior mutability, shared with the exposition
    /// server — so success is not promised: an error comes exactly when
    /// a construction or registration call returned one, but only the
    /// `Ok` families are pinned down.
    pub fn new(r: &prometheus::Registry, geo: bool) -> (res: Result<Metrics, MetricsError>)
        ensures
            match res {
                Ok(m) => m.wf() && m@.geo == geo && m.endpoint_schema() == endpoint_labels(geo)
                    && m.family_names() == family_name_list() && m@.interfaces_total
                    == Map::<Seq<char>, int>::empty() && m@.peers_total
                    == Map::<Seq<char>, int>::empty() && m@.peer_endpoint
                    == Map::<Seq<char>, int>::empty() && m@.bytes_total
                    == Map::<Seq<char>, int>::empty() && m@.peer_bytes_total
                    == Map::<Seq<char>, int>::empty() && m@.handshake
                    == Map::<Seq<char>, int>::empty(),
                Err(_) => true,
            },
    {
        let l0: Vec<&str> = Vec::new();
        let interfaces_total = match GaugeVec::new(
            "wireguard_interfaces_total",
            "Total number of interfaces",
            &l0,
        ) {
            Ok(g) => g,
            Err(_) => {
                return Err(MetricsError::Registry);
            },
        };
        proof {
            assert(gauge_labels(interfaces_total) =~= no_labels());
        }
        let l1: Vec<&str> = vec!["interface"];
        let peers_total = match GaugeVec::new(
            "wireguard_peers_total",
            "Total number of peers per interfaces",
            &l1,
        ) {
            Ok(g) => g,
            Err(_) => {
                return Err(MetricsError::Registry);
            },
        };
        proof {
            assert(gauge_labels(peers_total) =~= iface_labels());
        }
        let le: Vec<&str> = if geo {
            vec!["interface", "endpoint_ip", "endpoint_country", "peer", "alias"]
        } else {
            vec!["interface", "endpoint_ip", "peer", "alias"]
        };
        let peer_endpoint = match GaugeVec::new(
            "wireguard_peer_endpoint",
            "Peers info. static value",
            &le,
        ) {
            Ok(g) => g,
            Err(_) => {
                return Err(MetricsError::Registry);
            },
        };
        proof {
            assert(gauge_labels(peer_endpoint) =~= endpoint_labels(geo));
        }
        let l2: Vec<&str> = vec!["interface", "direction"];
        let bytes_total = match CounterVec::new(
            "wireguard_bytes_total",
            "Total number of bytes per direction per interface",
            &l2,
        ) {
            Ok(c) => c,
            Err(_) => {
                return Err(MetricsError::Registry);
            },
        };
        proof {
            assert(counter_labels(bytes_total) =~= bytes_labels());
        }
        let l3: Vec<&str> = vec!["interface", "peer", "direction", "alias"];
        let peer_bytes_total = match CounterVec::new(
            "wireguard_peer_bytes_total",
            "Total number of bytes per direction for a peer",
            &l3,
        ) {
            Ok(c) => c,
            Err(_) => {
                return Err(MetricsError::Registry);
            },
        };
        proof {
            assert(counter_labels(peer_bytes_total) =~= peer_bytes_labels());
        }
        let l4: Vec<&str> = vec!["interface", "peer", "alias"];
        let duration_since_latest_handshake = match GaugeVec::new(
            "wireguard_duration_since_latest_handshake",
            "Duration in milliseconds since latest handshake for a peer",
            &l4,
        ) {
            Ok(g) => g,
            Err(_) => {
                return Err(MetricsError::Registry);
            },
        };
        proof {
            assert(gauge_labels(duration_since_latest_handshake) =~= handshake_labels());
        }
        if interfaces_total.register(r).is_err() {
            return Err(MetricsError::Registry);
        }
        if peers_total.register(r).is_err() {
            return Err(MetricsError::Registry);
        }
        if peer_endpoint.register(r).is_err() {
            return Err(MetricsError::Registry);
        }
        if bytes_total.register(r).is_err() {
            return Err(MetricsError::Registry);
        }
        if peer_bytes_total.register(r).is_err() {
            return Err(MetricsError::Registry);
        }
        if duration_since_latest_handshake.register(r).is_err() {
            return Err(MetricsError::Registry);
        }
        let m = Metrics {
            interfaces_total,
            peers_total,
            peer_endpoint,
            bytes_total,
            peer_bytes_total,
            duration_since_latest_handshake,
            geo,
        };
        proof {
            assert(m.family_names() =~= family_name_list());
        }
        Ok(m)
    }

    /// Fold one snapshot into the registry, with one country label per
    /// peer and the wall clock given, exactly as [`apply_spec`] says.
    pub fn apply(&mut self, state: &WireguardState, countries: &Vec<String>, now: i64)
        requires
            old(self).wf(),
            state@.wf(),
            sums_fit(state@),
            countries@.len() == state@.peers.len(),
            state@.interfaces.len() <= i64::MAX,
            state@.peers.len() <= i64::MAX,
        ensures
            final(self).wf(),
            final(self)@.geo == old(self)@.geo,
            final(self).endpoint_schema() == endpoint_labels(old(self)@.geo),
            final(self).family_names() == family_name_list(),
            final(self)@ == apply_spec(
                old(self)@,
                state@,
                countries@.map_values(|s: String| s@),
                now as int,
            ),
    {
        let ghost m_pre = self@;
        let ghost cs = countries@.map_values(|s: String| s@);
        let empty_labels: Vec<String> = Vec::new();
        self.interfaces_total.set(&empty_labels, state.interfaces.len() as i64);
        proof {
            assert(key_of(empty_labels@) =~= no_key());
        }
        let ghost m0 = self@;
        proof {
            assert(m0 =~= MetricsV {
                interfaces_total: m_pre.interfaces_total.insert(
                    no_key(),
                    state@.interfaces.len() as int,
                ),
                ..m_pre
            });
        }
        let mut i: usize = 0;
        while i < state.interfaces.len()
            invariant
                self.wf(),
                state@.wf(),
                sums_fit(state@),
                0 <= i <= state@.interfaces.len(),
                state@.peers.len() <= i64::MAX,
                self@ == apply_ifaces(m0, state@, i as int),
                self@.geo == m0.geo,
            decreases state@.interfaces.len() - i,
        {
            let ghost m_i = self@;
            let name_s = to_text(&state.interfaces[i]);
            let ghost name = text(state@.interfaces[i as int]);
            let mut cnt: usize = 0;
            let mut stx: u64 = 0;
            let mut srx: u64 = 0;
            let mut j: usize = 0;
            proof {
                lemma_sums_nonneg(state@.peers, i as int);
                lemma_sum_prefix(state@.peers, i as int, 0);
                assert(state@.peers.take(0) =~= Seq::<PeerV>::empty());
            }
            while j < state.peers.len()
                invariant
                    0 <= j <= state@.peers.len(),
                    i < state@.interfaces.len(),
                    sums_fit(state@),
                    cnt == count_peers(state@.peers.take(j as int), i as int),
                    stx == sum_tx(state@.peers.take(j as int), i as int),
                    srx == sum_rx(state@.peers.take(j as int), i as int),
                    cnt <= j,
                decreases state@.peers.len() - j,
            {
                proof {
                    assert(state@.peers.take(j + 1).drop_last() =~= state@.peers.take(
                        j as int,
                    ));
                    assert(state@.peers.take(j + 1).last() == state@.peers[j as int]);
                    assert(state@.peers[j as int] == state.peers@[j as int]@);
                    lemma_sum_prefix(state@.peers, i as int, j + 1);
                    lemma_sums_nonneg(state@.peers.take(j + 1), i as int);
                    lemma_sums_nonneg(state@.peers.take(j as int), i as int);
                }
                if state.peers[j].interface == i {
                    cnt = cnt + 1;
                    stx = stx + state.peers[j].tx_bytes;
                    srx = srx + state.peers[j].rx_bytes;
                }
                j += 1;
            }
            proof {
                assert(state@.peers.take(state@.peers.len() as int) =~= state@.peers);
            }
            let labels1: Vec<String> = vec![name_s.clone()];
            self.peers_total.set(&labels1, cnt as i64);
            let labels_tx: Vec<String> = vec![name_s.clone(), "tx".to_owned()];
            let cur_tx = self.bytes_total.get(&labels_tx);
            let delta_tx = if stx >= cur_tx {
                stx - cur_tx
            } else {
                0
            };
            self.bytes_total.inc(&labels_tx, delta_tx);
            let labels_rx: Vec<String> = vec![name_s.clone(), "rx".to_owned()];
            let cur_rx = self.bytes_total.get(&labels_rx);
            let delta_rx = if srx >= cur_rx {
                srx - cur_rx
            } else {
                0
            };
            self.bytes_total.inc(&labels_rx, delta_rx);
            proof {
                lemma_key1(labels1@, name);
                lemma_key2(labels_tx@, name, tx_text());
                lemma_key2(labels_rx@, name, rx_text());
                assert(cur_tx as int + delta_tx as int == max(
                    at(m_i.bytes_total, dir_key(name, tx_text())),
                    sum_tx(state@.peers, i as int),
                ));
                assert(self@ =~= iface_step(m_i, state@, i as int));
                assert(apply_ifaces(m0, state@, i + 1) == iface_step(
                    apply_ifaces(m0, state@, i as int),
                    state@,
                    i as int,
                ));
            }
            i += 1;
        }
        let ghost m1 = self@;
        let mut j: usize = 0;
        while j < state.peers.len()
            invariant
                self.wf(),
                state@.wf(),
                0 <= j <= state@.peers.len(),
                countries@.len() == state@.peers.len(),
                cs == countries@.map_values(|s: String| s@),
                self@ == apply_peers(m1, state@, cs, now as int, j as int),
                self@.geo == m1.geo,
            decreases state@.peers.len() - j,
        {
            let ghost m_j = self@;
            let ghost pv = state@.peers[j as int];
            proof {
                assert(state@.peers[j as int] == state.peers@[j as int]@);
            }
            let p = &state.peers[j];
            let name_s = to_text(&state.interfaces[p.interface]);
            let pk_s = to_text(&p.pubkey);
            let al_s = match &p.alias {
                Some(a) => to_text(a),
                None => String::new(),
            };
            let ghost name = text(state@.interfaces[pv.interface]);
            let ghost pk = text(pv.pubkey);
            let ghost al = alias_text(pv.alias);
            proof {
                assert(name_s@ == name);
                assert(pk_s@ == pk);
                assert(al_s@ == al);
            }
            if let Some(e) = &p.endpoint {
                let ip_s = to_text(&e.ip);
                let country_s = countries[j].clone();
                let labels: Vec<String> = if self.geo {
                    vec![
                        name_s.clone(),
                        ip_s,
                        country_s,
                        pk_s.clone(),
                        al_s.clone(),
                    ]
                } else {
                    vec![name_s.clone(), ip_s, pk_s.clone(), al_s.clone()]
                };
                self.peer_endpoint.set(&labels, 1);
                proof {
                    assert(cs[j as int] == countries@[j as int]@);
                    if m_j.geo {
                        lemma_key5(
                            labels@,
                            name,
                            text(pv.endpoint->Some_0.ip),
                            cs[j as int],
                            pk,
                            al,
                        );
                    } else {
                        lemma_key4(labels@, name, text(pv.endpoint->Some_0.ip), pk, al);
                    }
                    assert(key_of(labels@) == endpoint_key(
                        m_j.geo,
                        name,
                        text(pv.endpoint->Some_0.ip),
                        cs[j as int],
                        pk,
                        al,
                    ));
                }
            }
            let labels_tx: Vec<String> = vec![
                name_s.clone(),
                pk_s.clone(),
                "tx".to_owned(),
                al_s.clone(),
            ];
            let cur_tx = self.peer_bytes_total.get(&labels_tx);
            let delta_tx = if p.tx_bytes >= cur_tx {
                p.tx_bytes - cur_tx
            } else {
                0
            };
            self.peer_bytes_total.inc(&labels_tx, delta_tx);
            let labels_rx: Vec<String> = vec![
                name_s.clone(),
                pk_s.clone(),
                "rx".to_owned(),
                al_s.clone(),
            ];
            let cur_rx = self.peer_bytes_total.get(&labels_rx);
            let delta_rx = if p.rx_bytes >= cur_rx {
                p.rx_bytes - cur_rx
            } else {
                0
            };
            self.peer_bytes_total.inc(&labels_rx, delta_rx);
            proof {
                lemma_key4(labels_tx@, name, pk, tx_text(), al);
                lemma_key4(labels_rx@, name, pk, rx_text(), al);
            }
            if let Some(ts) = p.handshake_timestamp {
                let diff: i128 = (now as i128 - ts as i128) * 1000;
                let v: i64 = if diff > i64::MAX as i128 {
                    i64::MAX
                } else if diff < i64::MIN as i128 {
                    i64::MIN
                } else {
                    diff as i64
                };
                proof {
                    assert(v as int == elapsed_ms(now as int, ts as int));
                }
                let labels_h: Vec<String> = vec![name_s.clone(), pk_s.clone(), al_s.clone()];
                self.duration_since_latest_handshake.set(&labels_h, v);
                proof {
                    lemma_key3(labels_h@, name, pk, al);
                }
            }
            proof {
                assert(self@ =~= peer_step(m_j, state@, pv, cs[j as int], now as int));
                assert(apply_peers(m1, state@, cs, now as int, j + 1) == peer_step(
                    apply_peers(m1, state@, cs, now as int, j as int),
                    state@,
                    state@.peers[j as int],
                    cs[j as int],
                    now as int,
                ));
            }
            j += 1;
        }
    }

    /// Fold one snapshot into the registry, reading the wall clock and —
    /// when a Geo resolver is configured — looking each peer's endpoint
    /// country up. Enrichment failures degrade to empty labels; the
    /// registry afterwards is one cycle of [`apply_spec`] over the
    /// snapshot with the countries of [`snapshot_countries`], for some
    /// wall-clock reading. A configured database is assumed sound
    /// ([`geo_wf`]): its lookups index the loaded buffer unchecked.
    pub fn update(&mut self, state: &WireguardState, geo_db: &Option<GeoReader>)
        requires
            old(self).wf(),
            state@.wf(),
            sums_fit(state@),
            state@.interfaces.len() <= i64::MAX,
            state@.peers.len() <= i64::MAX,
            old(self)@.geo == (geo_db is Some),
            match *geo_db {
                Some(g) => geo_wf(g),
                None => true,
            },
        ensures
            final(self).wf(),
            final(self)@.geo == old(self)@.geo,
            final(self).endpoint_schema() == endpoint_labels(old(self)@.geo),
            final(self).family_names() == family_name_list(),
            exists|now: i64|
                final(self)@ == #[trigger] apply_spec(
                    old(self)@,
                    state@,
                    snapshot_countries(*geo_db, state@),
                    now as int,
                ),
    {
        let ghost expected = snapshot_countries(*geo_db, state@);
        let mut countries: Vec<String> = Vec::new();
        let mut j: usize = 0;
        while j < state.peers.len()
            invariant
                0 <= j <= state@.peers.len(),
                countries@.len() == j,
                expected == snapshot_countries(*geo_db, state@),
                match *geo_db {
                    Some(g) => geo_wf(g),
                    None => true,
                },
                forall|k: int| 0 <= k < j ==> (#[trigger] countries@[k])@ == expected[k],
            decreases state@.peers.len() - j,
        {
            proof {
                assert(state@.peers[j as int] == state.peers@[j as int]@);
            }
            let c: String = match (geo_db, &state.peers[j].endpoint) {
                (Some(db), Some(e)) => db.lookup_country(&e.ip),
                _ => String::new(),
            };
            proof {
                assert(c@ == expected[j as int]);
            }
            countries.push(c);
            j += 1;
        }
        let now = now_unix();
        self.apply(state, &countries, now);
        proof {
            let cs = countries@.map_values(|s: String| s@);
            assert(cs =~= expected);
            assert(self@ == apply_spec(old(self)@, state@, expected, now as int));
        }
    }
}

/// Peer counts and byte sums are nonnegative, and counts peers.
proof fn lemma_sums_nonneg(ps: Seq<PeerV>, i: int)
    ensures
        0 <= count_peers(ps, i) <= ps.len(),
        0 <= sum_tx(ps, i),
        0 <= sum_rx(ps, i),
    decreases ps.len(),
{
    if ps.len() > 0 {
        lemma_sums_nonneg(ps.drop_last(), i);
    }
}

/// A prefix never counts or sums more than the whole.
proof fn lemma_sum_prefix(ps: Seq<PeerV>, i: int, j: int)
    requires
        0 <= j <= ps.len(),
    ensures
        count_peers(ps.take(j), i) <= count_peers(ps, i),
        sum_tx(ps.take(j), i) <= sum_tx(ps, i),
        sum_rx(ps.take(j), i) <= sum_rx(ps, i),
    decreases ps.len() - j,
{
    if j < ps.len() {
        assert(ps.take(j + 1).drop_last() =~= ps.take(j));
        assert(ps.take(j + 1).last() == ps[j]);
        lemma_sum_prefix(ps, i, j + 1);
    } else {
        assert(ps.take(j) =~= ps);
    }
}

/// What one cycle does to a single counter entry, seen as a value:
/// raise it to the raw cumulative reading, never lower it.
pub open spec fn bump_val(c: int, raw: int) -> int {
    max(c, raw)
}

/// The counter value after a run of cycles with raw readings `raws`.
pub open spec fn fold_bump(c0: int, raws: Seq<int>) -> int
    decreases raws.len(),
{
    if raws.len() == 0 {
        c0
    } else {
        bump_val(fold_bump(c0, raws.drop_last()), raws.last())
    }
}

/// A cycle never lowers a counter value.
pub proof fn lemma_bump_val_monotone(c: int, raw: int)
    ensures
        bump_val(c, raw) >= c,
        bump_val(c, raw) - c >= 0,
{
}

/// One more cycle never lowers the published counter.
pub proof fn lemma_fold_bump_step(c0: int, raws: Seq<int>, r: int)
    ensures
        fold_bump(c0, raws.push(r)) >= fold_bump(c0, raws),
{
    assert(raws.push(r).drop_last() =~= raws);
}

/// Counter monotonicity: over a run of cycles whose raw cumulative
/// readings never decrease, starting at or below the first reading, the
/// published value ends at exactly the final reading — so the total
/// increase across the run is the final reading minus the first, the
/// value after the first cycle.
pub proof fn lemma_counter_monotonicity(c0: int, raws: Seq<int>)
    requires
        raws.len() > 0,
        c0 <= raws[0],
        forall|i: int| 0 <= i < raws.len() - 1 ==> #[trigger] raws[i] <= raws[i + 1],
    ensures
        fold_bump(c0, raws) == raws.last(),
        fold_bump(c0, raws.take(1)) == raws[0],
    decreases raws.len(),
{
    assert(raws.take(1).drop_last() =~= Seq::<int>::empty());
    assert(raws.take(1).last() == raws[0]);
    if raws.len() > 1 {
        let r2 = raws.drop_last();
        assert(r2[0] == raws[0]);
        assert forall|i: int| 0 <= i < r2.len() - 1 implies #[trigger] r2[i] <= r2[i + 1] by {
            assert(r2[i] == raws[i]);
            assert(r2[i + 1] == raws[i + 1]);
        }
        lemma_counter_monotonicity(c0, r2);
        assert(fold_bump(c0, r2) == r2.last());
        assert(fold_bump(c0, raws) == bump_val(fold_bump(c0, r2), raws.last()));
        assert(raws.take(1) =~= r2.take(1));
        assert(raws[raws.len() - 2] <= raws[raws.len() - 1]);
        assert(r2.last() == raws[raws.len() - 2]);
        assert(fold_bump(c0, raws) == raws.last());
    } else {
        assert(raws.len() == 1);
        assert(raws.drop_last().len() == 0);
        assert(fold_bump(c0, raws.drop_last()) == c0);
        assert(fold_bump(c0, raws) == bump_val(c0, raws.last()));
        assert(raws.take(1) =~= raws);
        assert(fold_bump(c0, raws) == raws[0]);
    }
}

/// Concatenations with equal-length suffixes agree only componentwise.
proof fn lemma_cancel_suffix(a: Seq<char>, b: Seq<char>, s: Seq<char>, t: Seq<char>)
    requires
        s.len() == t.len(),
        a + s == b + t,
    ensures
        a == b,
        s == t,
{
    assert((a + s).len() == a.len() + s.len());
    assert((b + t).len() == b.len() + t.len());
    assert(a.len() == b.len());
    assert(a =~= b) by {
        assert forall|i: int| 0 <= i < a.len() implies a[i] == b[i] by {
            assert((a + s)[i] == a[i]);
            assert((b + t)[i] == b[i]);
        }
    }
    assert(s =~= t) by {
        assert forall|i: int| 0 <= i < s.len() implies s[i] == t[i] by {
            assert((a + s)[a.len() + i] == s[i]);
            assert((b + t)[b.len() + i] == t[i]);
        }
    }
}

proof fn lemma_tx_rx_text()
    ensures
        tx_text().len() == 2,
        rx_text().len() == 2,
        tx_text() != rx_text(),
{
    reveal_strlit("tx");
    reveal_strlit("rx");
    assert(tx_text()[0] == 't');
    assert(rx_text()[0] == 'r');
}

/// Direction keys of different interfaces, or different directions of
/// one interface, never share an entry: the direction text has fixed
/// length, so the concatenated key splits only one way.
proof fn lemma_dir_key_ne(n1: Seq<char>, d1: Seq<char>, n2: Seq<char>, d2: Seq<char>)
    requires
        d1.len() == d2.len(),
        n1 != n2 || d1 != d2,
    ensures
        dir_key(n1, d1) != dir_key(n2, d2),
{
    if dir_key(n1, d1) == dir_key(n2, d2) {
        lemma_cancel_suffix(n1, n2, d1, d2);
    }
}

/// One peer's tx and rx keys differ: the direction sits between a
/// shared prefix and a shared suffix of fixed lengths.
proof fn lemma_peer_dir_key_ne(name: Seq<char>, pk: Seq<char>, al: Seq<char>)
    ensures
        peer_dir_key(name, pk, tx_text(), al) != peer_dir_key(name, pk, rx_text(), al),
{
    lemma_tx_rx_text();
    if peer_dir_key(name, pk, tx_text(), al) == peer_dir_key(name, pk, rx_text(), al) {
        lemma_cancel_suffix(name + pk + tx_text(), name + pk + rx_text(), al, al);
        lemma_cancel_suffix(name + pk, name + pk, tx_text(), rx_text());
    }
}

proof fn lemma_bump_at_le(m: Map<Seq<char>, int>, k0: Seq<char>, raw: int, k: Seq<char>)
    ensures
        at(bump(m, k0, raw), k) >= at(m, k),
        k != k0 ==> at(bump(m, k0, raw), k) == at(m, k),
{
}

/// The interface phase touches only the per-interface families.
proof fn lemma_apply_ifaces_frame(m: MetricsV, s: StateV, n: int)
    ensures
        apply_ifaces(m, s, n).interfaces_total == m.interfaces_total,
        apply_ifaces(m, s, n).peer_endpoint == m.peer_endpoint,
        apply_ifaces(m, s, n).peer_bytes_total == m.peer_bytes_total,
        apply_ifaces(m, s, n).handshake == m.handshake,
        apply_ifaces(m, s, n).geo == m.geo,
    decreases n,
{
    if n > 0 {
        lemma_apply_ifaces_frame(m, s, n - 1);
    }
}

/// The peer phase touches only the per-peer families.
proof fn lemma_apply_peers_frame(m: MetricsV, s: StateV, cs: Seq<Seq<char>>, now: int, n: int)
    ensures
        apply_peers(m, s, cs, now, n).interfaces_total == m.interfaces_total,
        apply_peers(m, s, cs, now, n).peers_total == m.peers_total,
        apply_peers(m, s, cs, now, n).bytes_total == m.bytes_total,
        apply_peers(m, s, cs, now, n).geo == m.geo,
    decreases n,
{
    if n > 0 {
        lemma_apply_peers_frame(m, s, cs, now, n - 1);
    }
}

proof fn lemma_apply_ifaces_bytes_monotone(m: MetricsV, s: StateV, n: int, k: Seq<char>)
    ensures
        at(apply_ifaces(m, s, n).bytes_total, k) >= at(m.bytes_total, k),
    decreases n,
{
    if n > 0 {
        lemma_apply_ifaces_bytes_monotone(m, s, n - 1, k);
        let prev = apply_ifaces(m, s, n - 1);
        let name = text(s.interfaces[n - 1]);
        lemma_bump_at_le(prev.bytes_total, dir_key(name, tx_text()), sum_tx(s.peers, n - 1), k);
        lemma_bump_at_le(
            bump(prev.bytes_total, dir_key(name, tx_text()), sum_tx(s.peers, n - 1)),
            dir_key(name, rx_text()),
            sum_rx(s.peers, n - 1),
            k,
        );
    }
}

proof fn lemma_apply_peers_bytes_monotone(
    m: MetricsV,
    s: StateV,
    cs: Seq<Seq<char>>,
    now: int,
    n: int,
    k: Seq<char>,
)
    ensures
        at(apply_peers(m, s, cs, now, n).peer_bytes_total, k) >= at(m.peer_bytes_total, k),
    decreases n,
{
    if n > 0 {
        lemma_apply_peers_bytes_monotone(m, s, cs, now, n - 1, k);
        let prev = apply_peers(m, s, cs, now, n - 1);
        let p = s.peers[n - 1];
        let name = text(s.interfaces[p.interface]);
        let pk = text(p.pubkey);
        let al = alias_text(p.alias);
        lemma_bump_at_le(
            prev.peer_bytes_total,
            peer_dir_key(name, pk, tx_text(), al),
            p.tx_bytes as int,
            k,
        );
        lemma_bump_at_le(
            bump(prev.peer_bytes_total, peer_dir_key(name, pk, tx_text(), al), p.tx_bytes as int),
            peer_dir_key(name, pk, rx_text(), al),
            p.rx_bytes as int,
            k,
        );
    }
}

/// Rollback safety: whatever raw values a snapshot reports — including
/// ones smaller than before, as after an interface reset — a cycle
/// never lowers any published counter entry, so no negative increment
/// is ever applied.
pub proof fn lemma_rollback_safety(
    m: MetricsV,
    s: StateV,
    cs: Seq<Seq<char>>,
    now: int,
    k: Seq<char>,
)
    ensures
        at(apply_spec(m, s, cs, now).bytes_total, k) >= at(m.bytes_total, k),
        at(apply_spec(m, s, cs, now).peer_bytes_total, k) >= at(m.peer_bytes_total, k),
{
    let m0 = MetricsV {
        interfaces_total: m.interfaces_total.insert(no_key(), s.interfaces.len() as int),
        ..m
    };
    let mi = apply_ifaces(m0, s, s.interfaces.len() as int);
    lemma_apply_ifaces_bytes_monotone(m0, s, s.interfaces.len() as int, k);
    lemma_apply_ifaces_frame(m0, s, s.interfaces.len() as int);
    lemma_apply_peers_frame(mi, s, cs, now, s.peers.len() as int);
    lemma_apply_peers_bytes_monotone(mi, s, cs, now, s.peers.len() as int, k);
}

proof fn lemma_apply_ifaces_bytes_untouched(m: MetricsV, s: StateV, n: int, i: int)
    requires
        0 <= n <= i < s.interfaces.len(),
        forall|j: int| 0 <= j < s.interfaces.len() && j != i ==> text(
            #[trigger] s.interfaces[j],
        ) != text(s.interfaces[i]),
    ensures
        at(
            apply_ifaces(m, s, n).bytes_total,
            dir_key(text(s.interfaces[i]), tx_text()),
        ) == at(m.bytes_total, dir_key(text(s.interfaces[i]), tx_text())),
        at(
            apply_ifaces(m, s, n).bytes_total,
            dir_key(text(s.interfaces[i]), rx_text()),
        ) == at(m.bytes_total, dir_key(text(s.interfaces[i]), rx_text())),
    decreases n,
{
    if n > 0 {
        lemma_apply_ifaces_bytes_untouched(m, s, n - 1, i);
        let prev = apply_ifaces(m, s, n - 1);
        let name = text(s.interfaces[n - 1]);
        let ni = text(s.interfaces[i]);
        assert(name != ni);
        lemma_tx_rx_text();
        lemma_dir_key_ne(name, tx_text(), ni, tx_text());
        lemma_dir_key_ne(name, tx_text(), ni, rx_text());
        lemma_dir_key_ne(name, rx_text(), ni, tx_text());
        lemma_dir_key_ne(name, rx_text(), ni, rx_text());
        lemma_bump_at_le(prev.bytes_total, dir_key(name, tx_text()), sum_tx(s.peers, n - 1),
            dir_key(ni, tx_text()));
        lemma_bump_at_le(prev.bytes_total, dir_key(name, tx_text()), sum_tx(s.peers, n - 1),
            dir_key(ni, rx_text()));
        let b1 = bump(prev.bytes_total, dir_key(name, tx_text()), sum_tx(s.peers, n - 1));
        lemma_bump_at_le(b1, dir_key(name, rx_text()), sum_rx(s.peers, n - 1),
            dir_key(ni, tx_text()));
        lemma_bump_at_le(b1, dir_key(name, rx_text()), sum_rx(s.peers, n - 1),
            dir_key(ni, rx_text()));
    }
}

proof fn lemma_apply_ifaces_bytes_at(m: MetricsV, s: StateV, n: int, i: int)
    requires
        0 <= i < n <= s.interfaces.len(),
        forall|j: int| 0 <= j < s.interfaces.len() && j != i ==> text(
            #[trigger] s.interfaces[j],
        ) != text(s.interfaces[i]),
    ensures
        at(
            apply_ifaces(m, s, n).bytes_total,
            dir_key(text(s.interfaces[i]), tx_text()),
        ) == bump_val(
            at(m.bytes_total, dir_key(text(s.interfaces[i]), tx_text())),
            sum_tx(s.peers, i),
        ),
        at(
            apply_ifaces(m, s, n).bytes_total,
            dir_key(text(s.interfaces[i]), rx_text()),
        ) == bump_val(
            at(m.bytes_total, dir_key(text(s.interfaces[i]), rx_text())),
            sum_rx(s.peers, i),
        ),
    decreases n,
{
    let ni = text(s.interfaces[i]);
    lemma_tx_rx_text();
    lemma_dir_key_ne(ni, tx_text(), ni, rx_text());
    if n - 1 == i {
        lemma_apply_ifaces_bytes_untouched(m, s, i, i);
        let prev = apply_ifaces(m, s, i);
        let b1 = bump(prev.bytes_total, dir_key(ni, tx_text()), sum_tx(s.peers, i));
        lemma_bump_at_le(b1, dir_key(ni, rx_text()), sum_rx(s.peers, i), dir_key(ni, tx_text()));
        lemma_bump_at_le(prev.bytes_total, dir_key(ni, tx_text()), sum_tx(s.peers, i),
            dir_key(ni, rx_text()));
    } else {
        lemma_apply_ifaces_bytes_at(m, s, n - 1, i);
        let prev = apply_ifaces(m, s, n - 1);
        let name = text(s.interfaces[n - 1]);
        assert(name != ni);
        lemma_dir_key_ne(name, tx_text(), ni, tx_text());
        lemma_dir_key_ne(name, tx_text(), ni, rx_text());
        lemma_dir_key_ne(name, rx_text(), ni, tx_text());
        lemma_dir_key_ne(name, rx_text(), ni, rx_text());
        let b1 = bump(prev.bytes_total, dir_key(name, tx_text()), sum_tx(s.peers, n - 1));
        lemma_bump_at_le(prev.bytes_total, dir_key(name, tx_text()), sum_tx(s.peers, n - 1),
            dir_key(ni, tx_text()));
        lemma_bump_at_le(prev.bytes_total, dir_key(name, tx_text()), sum_tx(s.peers, n - 1),
            dir_key(ni, rx_text()));
        lemma_bump_at_le(b1, dir_key(name, rx_text()), sum_rx(s.peers, n - 1),
            dir_key(ni, tx_text()));
        lemma_bump_at_le(b1, dir_key(name, rx_text()), sum_rx(s.peers, n - 1),
            dir_key(ni, rx_text()));
    }
}

/// One cycle raises each interface's byte counters to exactly the
/// maximum of their previous value and the snapshot's raw sums. The
/// hypothesis that the other interfaces' name texts differ is needed:
/// two interfaces with one name share one label key, and the later
/// bump lands on the earlier one's entry.
pub proof fn lemma_cycle_bumps_bytes_counter(
    m: MetricsV,
    s: StateV,
    cs: Seq<Seq<char>>,
    now: int,
    i: int,
)
    requires
        0 <= i < s.interfaces.len(),
        forall|j: int| 0 <= j < s.interfaces.len() && j != i ==> text(
            #[trigger] s.interfaces[j],
        ) != text(s.interfaces[i]),
    ensures
        at(
            apply_spec(m, s, cs, now).bytes_total,
            dir_key(text(s.interfaces[i]), tx_text()),
        ) == bump_val(
            at(m.bytes_total, dir_key(text(s.interfaces[i]), tx_text())),
            sum_tx(s.peers, i),
        ),
        at(
            apply_spec(m, s, cs, now).bytes_total,
            dir_key(text(s.interfaces[i]), rx_text()),
        ) == bump_val(
            at(m.bytes_total, dir_key(text(s.interfaces[i]), rx_text())),
            sum_rx(s.peers, i),
        ),
{
    let m0 = MetricsV {
        interfaces_total: m.interfaces_total.insert(no_key(), s.interfaces.len() as int),
        ..m
    };
    let mi = apply_ifaces(m0, s, s.interfaces.len() as int);
    lemma_apply_ifaces_bytes_at(m0, s, s.interfaces.len() as int, i);
    lemma_apply_peers_frame(mi, s, cs, now, s.peers.len() as int);
}

proof fn lemma_apply_peers_endpoint_kept(
    m: MetricsV,
    s: StateV,
    cs: Seq<Seq<char>>,
    now: int,
    n: int,
    k: Seq<char>,
)
    requires
        m.peer_endpoint.contains_key(k),
    ensures
        apply_peers(m, s, cs, now, n).peer_endpoint.contains_key(k),
    decreases n,
{
    if n > 0 {
        lemma_apply_peers_endpoint_kept(m, s, cs, now, n - 1, k);
    }
}

/// Stale label combinations accumulate: a cycle never removes a
/// populated `peer_endpoint` combination, so a peer whose endpoint
/// changes leaves its old combination behind.
pub proof fn lemma_stale_endpoints_accumulate(
    m: MetricsV,
    s: StateV,
    cs: Seq<Seq<char>>,
    now: int,
    k: Seq<char>,
)
    requires
        m.peer_endpoint.contains_key(k),
    ensures
        apply_spec(m, s, cs, now).peer_endpoint.contains_key(k),
{
    let m0 = MetricsV {
        interfaces_total: m.interfaces_total.insert(no_key(), s.interfaces.len() as int),
        ..m
    };
    let mi = apply_ifaces(m0, s, s.interfaces.len() as int);
    lemma_apply_ifaces_frame(m0, s, s.interfaces.len() as int);
    lemma_apply_peers_endpoint_kept(mi, s, cs, now, s.peers.len() as int, k);
}


/// Peer `k`'s byte-counter keys are disjoint from peer `j`'s. With
/// keys formed by concatenation, distinct public keys alone do not
/// give this — interface `ab` with peer `c` and interface `a` with
/// peer `bc` share a key — so the needed disjointness is stated
/// directly.
pub open spec fn peer_keys_disjoint(s: StateV, j: int, k: int) -> bool {
    let nj = text(s.interfaces[s.peers[j].interface]);
    let pj = text(s.peers[j].pubkey);
    let aj = alias_text(s.peers[j].alias);
    let nk = text(s.interfaces[s.peers[k].interface]);
    let pk = text(s.peers[k].pubkey);
    let ak = alias_text(s.peers[k].alias);
    peer_dir_key(nk, pk, tx_text(), ak) != peer_dir_key(nj, pj, tx_text(), aj) && peer_dir_key(
        nk,
        pk,
        tx_text(),
        ak,
    ) != peer_dir_key(nj, pj, rx_text(), aj) && peer_dir_key(nk, pk, rx_text(), ak)
        != peer_dir_key(nj, pj, tx_text(), aj) && peer_dir_key(nk, pk, rx_text(), ak)
        != peer_dir_key(nj, pj, rx_text(), aj)
}

proof fn lemma_apply_peers_peer_bytes_untouched(
    m: MetricsV,
    s: StateV,
    cs: Seq<Seq<char>>,
    now: int,
    n: int,
    j: int,
)
    requires
        s.wf(),
        0 <= n <= j < s.peers.len(),
        forall|k: int| 0 <= k < s.peers.len() && k != j ==> #[trigger] peer_keys_disjoint(
            s,
            j,
            k,
        ),
    ensures
        at(
            apply_peers(m, s, cs, now, n).peer_bytes_total,
            peer_dir_key(
                text(s.interfaces[s.peers[j].interface]),
                text(s.peers[j].pubkey),
                tx_text(),
                alias_text(s.peers[j].alias),
            ),
        ) == at(
            m.peer_bytes_total,
            peer_dir_key(
                text(s.interfaces[s.peers[j].interface]),
                text(s.peers[j].pubkey),
                tx_text(),
                alias_text(s.peers[j].alias),
            ),
        ),
        at(
            apply_peers(m, s, cs, now, n).peer_bytes_total,
            peer_dir_key(
                text(s.interfaces[s.peers[j].interface]),
                text(s.peers[j].pubkey),
                rx_text(),
                alias_text(s.peers[j].alias),
            ),
        ) == at(
            m.peer_bytes_total,
            peer_dir_key(
                text(s.interfaces[s.peers[j].interface]),
                text(s.peers[j].pubkey),
                rx_text(),
                alias_text(s.peers[j].alias),
            ),
        ),
    decreases n,
{
    if n > 0 {
        lemma_apply_peers_peer_bytes_untouched(m, s, cs, now, n - 1, j);
        let prev = apply_peers(m, s, cs, now, n - 1);
        let p = s.peers[n - 1];
        let q = s.peers[j];
        let name = text(s.interfaces[p.interface]);
        let pk = text(p.pubkey);
        let al = alias_text(p.alias);
        let nj = text(s.interfaces[q.interface]);
        let pj = text(q.pubkey);
        let aj = alias_text(q.alias);
        assert(peer_keys_disjoint(s, j, n - 1));
        let b1 = bump(prev.peer_bytes_total, peer_dir_key(name, pk, tx_text(), al),
            p.tx_bytes as int);
        lemma_bump_at_le(prev.peer_bytes_total, peer_dir_key(name, pk, tx_text(), al),
            p.tx_bytes as int, peer_dir_key(nj, pj, tx_text(), aj));
        lemma_bump_at_le(prev.peer_bytes_total, peer_dir_key(name, pk, tx_text(), al),
            p.tx_bytes as int, peer_dir_key(nj, pj, rx_text(), aj));
        lemma_bump_at_le(b1, peer_dir_key(name, pk, rx_text(), al), p.rx_bytes as int,
            peer_dir_key(nj, pj, tx_text(), aj));
        lemma_bump_at_le(b1, peer_dir_key(name, pk, rx_text(), al), p.rx_bytes as int,
            peer_dir_key(nj, pj, rx_text(), aj));
    }
}

proof fn lemma_apply_peers_peer_bytes_at(
    m: MetricsV,
    s: StateV,
    cs: Seq<Seq<char>>,
    now: int,
    n: int,
    j: int,
)
    requires
        s.wf(),
        0 <= j < n <= s.peers.len(),
        forall|k: int| 0 <= k < s.peers.len() && k != j ==> #[trigger] peer_keys_disjoint(
            s,
            j,
            k,
        ),
    ensures
        at(
            apply_peers(m, s, cs, now, n).peer_bytes_total,
            peer_dir_key(
                text(s.interfaces[s.peers[j].interface]),
                text(s.peers[j].pubkey),
                tx_text(),
                alias_text(s.peers[j].alias),
            ),
        ) == bump_val(
            at(
                m.peer_bytes_total,
                peer_dir_key(
                    text(s.interfaces[s.peers[j].interface]),
                    text(s.peers[j].pubkey),
                    tx_text(),
                    alias_text(s.peers[j].alias),
                ),
            ),
            s.peers[j].tx_bytes as int,
        ),
        at(
            apply_peers(m, s, cs, now, n).peer_bytes_total,
            peer_dir_key(
                text(s.interfaces[s.peers[j].interface]),
                text(s.peers[j].pubkey),
                rx_text(),
                alias_text(s.peers[j].alias),
            ),
        ) == bump_val(
            at(
                m.peer_bytes_total,
                peer_dir_key(
                    text(s.interfaces[s.peers[j].interface]),
                    text(s.peers[j].pubkey),
                    rx_text(),
                    alias_text(s.peers[j].alias),
                ),
            ),
            s.peers[j].rx_bytes as int,
        ),
    decreases n,
{
    let q = s.peers[j];
    let nj = text(s.interfaces[q.interface]);
    let pj = text(q.pubkey);
    let aj = alias_text(q.alias);
    lemma_peer_dir_key_ne(nj, pj, aj);
    if n - 1 == j {
        lemma_apply_peers_peer_bytes_untouched(m, s, cs, now, j, j);
        let prev = apply_peers(m, s, cs, now, j);
        let b1 = bump(prev.peer_bytes_total, peer_dir_key(nj, pj, tx_text(), aj),
            q.tx_bytes as int);
        lemma_bump_at_le(b1, peer_dir_key(nj, pj, rx_text(), aj), q.rx_bytes as int,
            peer_dir_key(nj, pj, tx_text(), aj));
        lemma_bump_at_le(prev.peer_bytes_total, peer_dir_key(nj, pj, tx_text(), aj),
            q.tx_bytes as int, peer_dir_key(nj, pj, rx_text(), aj));
    } else {
        lemma_apply_peers_peer_bytes_at(m, s, cs, now, n - 1, j);
        let prev = apply_peers(m, s, cs, now, n - 1);
        let p = s.peers[n - 1];
        let name = text(s.interfaces[p.interface]);
        let pk = text(p.pubkey);
        let al = alias_text(p.alias);
        assert(peer_keys_disjoint(s, j, n - 1));
        let b1 = bump(prev.peer_bytes_total, peer_dir_key(name, pk, tx_text(), al),
            p.tx_bytes as int);
        lemma_bump_at_le(prev.peer_bytes_total, peer_dir_key(name, pk, tx_text(), al),
            p.tx_bytes as int, peer_dir_key(nj, pj, tx_text(), aj));
        lemma_bump_at_le(prev.peer_bytes_total, peer_dir_key(name, pk, tx_text(), al),
            p.tx_bytes as int, peer_dir_key(nj, pj, rx_text(), aj));
        lemma_bump_at_le(b1, peer_dir_key(name, pk, rx_text(), al), p.rx_bytes as int,
            peer_dir_key(nj, pj, tx_text(), aj));
        lemma_bump_at_le(b1, peer_dir_key(name, pk, rx_text(), al), p.rx_bytes as int,
            peer_dir_key(nj, pj, rx_text(), aj));
    }
}

/// One cycle raises each peer's byte counters to exactly the maximum
/// of their previous value and the peer's raw cumulative values. The
/// hypothesis is [`peer_keys_disjoint`] against every other peer: with
/// keys formed by concatenation, as prometheus hashes them, sharing a
/// key — duplicate public keys, or names and keys that concatenate
/// alike — makes the later bump land on the shared entry.
pub proof fn lemma_cycle_bumps_peer_bytes_counter(
    m: MetricsV,
    s: StateV,
    cs: Seq<Seq<char>>,
    now: int,
    j: int,
)
    requires
        s.wf(),
        0 <= j < s.peers.len(),
        forall|k: int| 0 <= k < s.peers.len() && k != j ==> #[trigger] peer_keys_disjoint(
            s,
            j,
            k,
        ),
    ensures
        at(
            apply_spec(m, s, cs, now).peer_bytes_total,
            peer_dir_key(
                text(s.interfaces[s.peers[j].interface]),
                text(s.peers[j].pubkey),
                tx_text(),
                alias_text(s.peers[j].alias),
            ),
        ) == bump_val(
            at(
                m.peer_bytes_total,
                peer_dir_key(
                    text(s.interfaces[s.peers[j].interface]),
                    text(s.peers[j].pubkey),
                    tx_text(),
                    alias_text(s.peers[j].alias),
                ),
            ),
            s.peers[j].tx_bytes as int,
        ),
        at(
            apply_spec(m, s, cs, now).peer_bytes_total,
            peer_dir_key(
                text(s.interfaces[s.peers[j].interface]),
                text(s.peers[j].pubkey),
                rx_text(),
                alias_text(s.peers[j].alias),
            ),
        ) == bump_val(
            at(
                m.peer_bytes_total,
                peer_dir_key(
                    text(s.interfaces[s.peers[j].interface]),
                    text(s.peers[j].pubkey),
                    rx_text(),
                    alias_text(s.peers[j].alias),
                ),
            ),
            s.peers[j].rx_bytes as int,
        ),
{
    let m0 = MetricsV {
        interfaces_total: m.interfaces_total.insert(no_key(), s.interfaces.len() as int),
        ..m
    };
    let mi = apply_ifaces(m0, s, s.interfaces.len() as int);
    lemma_apply_ifaces_frame(m0, s, s.interfaces.len() as int);
    lemma_apply_peers_peer_bytes_at(mi, s, cs, now, s.peers.len() as int, j);
}

} // verus!
