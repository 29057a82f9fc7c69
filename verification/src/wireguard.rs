//! The WireGuard snapshot model and the dump parser.
//!
//! The raw dump is a sequence of newline-separated records of
//! tab-separated fields. A record with five fields declares an
//! interface; one with nine fields declares a peer, which belongs to the
//! most recently declared interface. Any other shape is rejected, and a
//! parse failure aborts the whole snapshot.

use vstd::prelude::*;
use crate::alias::{alias_lookup, AliasMap};
use crate::text::{all_digits, dec_val, parse_u64, parses_u64, rfind, rfind_byte, split,
    split_bytes, subvec, bytes_eq};

verus! {

/// The field of a peer record that failed to parse.
#[derive(Clone, Copy, Debug, PartialEq, Eq, Structural)]
pub enum FieldKind {
    Handshake,
    TxBytes,
    RxBytes,
}

/// Why a dump failed to parse. Any of these aborts the snapshot.
#[derive(Clone, Copy, Debug, PartialEq, Eq, Structural)]
pub enum ParseError {
    /// A record matches neither the five-field nor the nine-field shape.
    UnrecognizedLine,
    /// A peer record appeared before any interface record. A
    /// structural failure of the dump's record order, kept apart from
    /// the shape failure of a single record.
    PeerBeforeInterface,
    /// An integer field of a peer record failed to parse.
    FieldParseFailure(FieldKind),
}

/// A peer's last-known transport endpoint.
#[derive(Debug, PartialEq, Eq, Clone)]
pub struct Endpoint {
    /// IP address text; for IPv6 the brackets and any zone suffix are
    /// stripped, as the reference formatting of the parsed address
    /// drops them, but an otherwise non-canonical spelling in the dump
    /// is kept as written.
    pub ip: Vec<u8>,
    pub port: u16,
}

/// Spec-level endpoint.
#[verifier::ext_equal]
pub struct EndpointV {
    pub ip: Seq<u8>,
    pub port: u16,
}

impl View for Endpoint {
    type V = EndpointV;

    open spec fn view(&self) -> EndpointV {
        EndpointV { ip: self.ip@, port: self.port }
    }
}

/// A peer as reported by one snapshot.
#[derive(Debug, PartialEq, Eq, Clone)]
pub struct Peer {
    /// The peer's public key, its identity within the snapshot.
    pub pubkey: Vec<u8>,
    /// Operator-supplied label, when the resolver knows the key.
    pub alias: Option<Vec<u8>>,
    /// Index of the owning interface in `WireguardState::interfaces`.
    pub interface: usize,
    /// Cumulative bytes sent to the peer.
    pub tx_bytes: u64,
    /// Cumulative bytes received from the peer.
    pub rx_bytes: u64,
    /// Epoch seconds of the latest handshake; `None` means never.
    pub handshake_timestamp: Option<u64>,
    /// Last-known remote endpoint, when one was observed.
    pub endpoint: Option<Endpoint>,
}

/// Spec-level peer.
#[verifier::ext_equal]
pub struct PeerV {
    pub pubkey: Seq<u8>,
    pub alias: Option<Seq<u8>>,
    pub interface: int,
    pub tx_bytes: u64,
    pub rx_bytes: u64,
    pub handshake_timestamp: Option<u64>,
    pub endpoint: Option<EndpointV>,
}

impl View for Peer {
    type V = PeerV;

    open spec fn view(&self) -> PeerV {
        PeerV {
            pubkey: self.pubkey@,
            alias: match self.alias {
                Some(a) => Some(a@),
                None => None,
            },
            interface: self.interface as int,
            tx_bytes: self.tx_bytes,
            rx_bytes: self.rx_bytes,
            handshake_timestamp: self.handshake_timestamp,
            endpoint: match self.endpoint {
                Some(e) => Some(e@),
                None => None,
            },
        }
    }
}

/// One snapshot of the running configuration.
#[derive(Debug, PartialEq, Eq, Clone)]
pub struct WireguardState {
    /// Interface names, in dump order; peers refer to them by index.
    pub interfaces: Vec<Vec<u8>>,
    pub peers: Vec<Peer>,
}

/// Spec-level snapshot.
#[verifier::ext_equal]
pub struct StateV {
    pub interfaces: Seq<Seq<u8>>,
    pub peers: Seq<PeerV>,
}

impl StateV {
    /// Every peer's interface index is in range.
    pub open spec fn wf(self) -> bool {
        forall|i: int| 0 <= i < self.peers.len() ==> 0 <= (#[trigger] self.peers[i]).interface
            < self.interfaces.len()
    }

    pub open spec fn empty() -> StateV {
        StateV { interfaces: Seq::empty(), peers: Seq::empty() }
    }
}

impl View for WireguardState {
    type V = StateV;

    open spec fn view(&self) -> StateV {
        StateV {
            interfaces: self.interfaces@.map_values(|v: Vec<u8>| v@),
            peers: self.peers@.map_values(|p: Peer| p@),
        }
    }
}

/// The placeholder the dump shows for a peer with no known endpoint.
pub open spec fn none_marker() -> Seq<u8> {
    seq![40u8, 110u8, 111u8, 110u8, 101u8, 41u8]
}

/// ASCII hexadecimal digit.
pub open spec fn is_hex_digit(b: u8) -> bool {
    (48 <= b && b <= 57) || (97 <= b && b <= 102) || (65 <= b && b <= 70)
}

/// An IPv6 group: one to four hexadecimal digits.
pub open spec fn is_h16(p: Seq<u8>) -> bool {
    1 <= p.len() <= 4 && forall|i: int| 0 <= i < p.len() ==> is_hex_digit(#[trigger] p[i])
}

/// Every part in `[a, b)` is an IPv6 group.
pub open spec fn h16_parts(ps: Seq<Seq<u8>>, a: int, b: int) -> bool {
    forall|j: int| a <= j < b ==> is_h16(#[trigger] ps[j])
}

/// An IPv4 octet: one to three digits, no leading zero, value at most
/// 255 — the grammar std's address parser accepts.
pub open spec fn is_octet(p: Seq<u8>) -> bool {
    1 <= p.len() <= 3 && all_digits(p) && dec_val(p) <= 255 && (p.len() == 1 || p[0] != 48)
}

/// A dotted-quad IPv4 address.
pub open spec fn is_ipv4(s: Seq<u8>) -> bool {
    split_bytes(s, 46).len() == 4 && forall|i: int|
        0 <= i < 4 ==> #[trigger] is_octet(split_bytes(s, 46)[i])
}

/// Empty parts among `ps[0..j)`.
pub open spec fn n_empty(ps: Seq<Seq<u8>>, j: int) -> int
    decreases j,
{
    if j <= 0 {
        0
    } else {
        n_empty(ps, j - 1) + if ps[j - 1].len() == 0 {
            1int
        } else {
            0int
        }
    }
}

/// An IPv6 address, over its colon-separated parts: eight groups, six
/// groups with a trailing embedded IPv4 address, or a form with one
/// `::` — which shows up as adjacent empty parts — covering at least
/// one group. The case is picked by how many parts are empty.
pub open spec fn is_ipv6(s: Seq<u8>) -> bool {
    let ps = split_bytes(s, 58);
    let n = ps.len() as int;
    let c = n_empty(ps, n);
    if c == 0 {
        (n == 8 && h16_parts(ps, 0, 8)) || (n == 7 && h16_parts(ps, 0, 6) && is_ipv4(ps[6]))
    } else if c == 1 {
        let k = choose|k: int| 0 <= k < n && (#[trigger] ps[k]).len() == 0;
        1 <= k <= n - 2 && h16_parts(ps, 0, k) && h16_parts(ps, k + 1, n - 1) && ((is_h16(
            ps[n - 1],
        ) && n - 1 <= 7) || (is_ipv4(ps[n - 1]) && n <= 7))
    } else if c == 2 {
        if ps[0].len() == 0 && ps[1].len() == 0 {
            n >= 3 && h16_parts(ps, 2, n - 1) && ((is_h16(ps[n - 1]) && n - 2 <= 7) || (
            is_ipv4(ps[n - 1]) && n - 1 <= 7))
        } else if ps[n - 1].len() == 0 && ps[n - 2].len() == 0 {
            n >= 3 && h16_parts(ps, 0, n - 2) && n - 2 <= 7
        } else {
            false
        }
    } else {
        c == 3 && n == 3
    }
}

/// Where a bracketed host's numeric zone suffix starts, if any.
pub open spec fn zone_start(h: Seq<u8>) -> int {
    rfind(h, 37)
}

/// A bracketed IPv6 host: the address, optionally followed by `%` and
/// a numeric zone identifier, as std's socket-address parser accepts.
pub open spec fn is_ipv6_host(h: Seq<u8>) -> bool {
    let z = zone_start(h);
    if z < 0 {
        is_ipv6(h)
    } else {
        is_ipv6(h.take(z)) && ({
            let zs = h.skip(z + 1);
            zs.len() > 0 && all_digits(zs) && dec_val(zs) <= u32::MAX
        })
    }
}

/// The address text of a bracketed host: the zone suffix stripped, as
/// the reference formatting of the parsed address would drop it.
pub open spec fn ipv6_text(h: Seq<u8>) -> Seq<u8> {
    if zone_start(h) < 0 {
        h
    } else {
        h.take(zone_start(h))
    }
}

/// Check one IPv6 group.
fn check_h16(p: &[u8]) -> (r: bool)
    ensures
        r == is_h16(p@),
{
    if p.len() < 1 || p.len() > 4 {
        return false;
    }
    let mut i: usize = 0;
    while i < p.len()
        invariant
            0 <= i <= p@.len(),
            forall|j: int| 0 <= j < i ==> is_hex_digit(#[trigger] p@[j]),
        decreases p@.len() - i,
    {
        let b = p[i];
        if !((48 <= b && b <= 57) || (97 <= b && b <= 102) || (65 <= b && b <= 70)) {
            return false;
        }
        i += 1;
    }
    true
}

/// Check one IPv4 octet.
fn check_octet(p: &[u8]) -> (r: bool)
    ensures
        r == is_octet(p@),
{
    if p.len() < 1 || p.len() > 3 {
        return false;
    }
    match parse_u64(p) {
        Some(v) => v <= 255 && (p.len() == 1 || p[0] != 48),
        None => false,
    }
}

/// Check a dotted-quad IPv4 address.
pub fn check_ipv4(s: &[u8]) -> (r: bool)
    ensures
        r == is_ipv4(s@),
{
    let parts = split(s, 46);
    proof {
        assert(parts@.map_values(|v: Vec<u8>| v@) == split_bytes(s@, 46));
    }
    if parts.len() != 4 {
        return false;
    }
    let mut i: usize = 0;
    while i < 4
        invariant
            parts@.len() == 4,
            split_bytes(s@, 46).len() == 4,
            parts@.map_values(|v: Vec<u8>| v@) == split_bytes(s@, 46),
            0 <= i <= 4,
            forall|j: int| 0 <= j < i ==> #[trigger] is_octet(split_bytes(s@, 46)[j]),
        decreases 4 - i,
    {
        proof {
            assert(split_bytes(s@, 46)[i as int] == parts@[i as int]@);
        }
        if !check_octet(parts[i].as_slice()) {
            proof {
                assert(!is_octet(split_bytes(s@, 46)[i as int]));
            }
            return false;
        }
        i += 1;
    }
    true
}

/// Check that every part in `[a, b)` is an IPv6 group.
fn check_h16_parts(parts: &Vec<Vec<u8>>, a: usize, b: usize) -> (r: bool)
    requires
        a <= b <= parts@.len(),
    ensures
        r == h16_parts(parts@.map_values(|v: Vec<u8>| v@), a as int, b as int),
{
    let ghost ps = parts@.map_values(|v: Vec<u8>| v@);
    let mut i: usize = a;
    while i < b
        invariant
            a <= i <= b <= parts@.len(),
            ps == parts@.map_values(|v: Vec<u8>| v@),
            forall|j: int| a <= j < i ==> is_h16(#[trigger] ps[j]),
        decreases b - i,
    {
        proof {
            assert(ps[i as int] == parts@[i as int]@);
        }
        if !check_h16(parts[i].as_slice()) {
            return false;
        }
        i += 1;
    }
    true
}

/// Check an IPv6 address.
pub fn check_ipv6(s: &[u8]) -> (r: bool)
    ensures
        r == is_ipv6(s@),
{
    let parts = split(s, 58);
    let ghost ps = split_bytes(s@, 58);
    proof {
        assert(parts@.map_values(|v: Vec<u8>| v@) == ps);
        assert(parts@.len() == ps.len());
    }
    let n = parts.len();
    let mut c: usize = 0;
    let mut e1: usize = 0;
    let mut i: usize = 0;
    while i < n
        invariant
            parts@.map_values(|v: Vec<u8>| v@) == ps,
            parts@.len() == ps.len(),
            n == ps.len(),
            0 <= i <= n,
            c <= i,
            c == n_empty(ps, i as int),
            c >= 1 ==> e1 < i && ps[e1 as int].len() == 0,
            c == 1 ==> forall|j: int| 0 <= j < i && (#[trigger] ps[j]).len() == 0 ==> j
                == e1,
            c == 0 ==> forall|j: int| 0 <= j < i ==> (#[trigger] ps[j]).len() > 0,
        decreases n - i,
    {
        proof {
            assert(ps[i as int] == parts@[i as int]@);
        }
        if parts[i].len() == 0 {
            if c == 0 {
                e1 = i;
            }
            c += 1;
        }
        i += 1;
    }
    if c == 0 {
        if n == 8 {
            return check_h16_parts(&parts, 0, 8);
        }
        if n == 7 {
            proof {
                assert(ps[6] == parts@[6]@);
            }
            return check_h16_parts(&parts, 0, 6) && check_ipv4(parts[6].as_slice());
        }
        return false;
    }
    if c == 1 {
        proof {
            let k0 = choose|k: int| 0 <= k < ps.len() && (#[trigger] ps[k]).len() == 0;
            assert(0 <= e1 as int && (e1 as int) < ps.len() && ps[e1 as int].len() == 0);
            assert(ps[k0].len() == 0);
            assert(k0 == e1 as int);
        }
        if e1 >= 1 && e1 + 1 < n {
            proof {
                assert(ps[n - 1] == parts@[n - 1]@);
            }
            let last_h16 = check_h16(parts[n - 1].as_slice());
            let last_v4 = check_ipv4(parts[n - 1].as_slice());
            return check_h16_parts(&parts, 0, e1) && check_h16_parts(&parts, e1 + 1, n - 1)
                && ((last_h16 && n - 1 <= 7) || (last_v4 && n <= 7));
        }
        return false;
    }
    if c == 2 {
        proof {
            assert(ps[0] == parts@[0]@);
            assert(ps[1] == parts@[1]@);
            assert(ps[n - 1] == parts@[n - 1]@);
            assert(ps[n - 2] == parts@[n - 2]@);
        }
        if parts[0].len() == 0 && parts[1].len() == 0 {
            if n < 3 {
                return false;
            }
            let last_h16 = check_h16(parts[n - 1].as_slice());
            let last_v4 = check_ipv4(parts[n - 1].as_slice());
            return check_h16_parts(&parts, 2, n - 1) && ((last_h16 && n - 2 <= 7) || (
            last_v4 && n - 1 <= 7));
        }
        if parts[n - 1].len() == 0 && parts[n - 2].len() == 0 {
            return n >= 3 && check_h16_parts(&parts, 0, n - 2) && n - 2 <= 7;
        }
        return false;
    }
    c == 3 && n == 3
}

/// Check a bracketed IPv6 host, optional numeric zone included.
pub fn check_ipv6_host(h: &[u8]) -> (r: bool)
    ensures
        r == is_ipv6_host(h@),
{
    match rfind_byte(h, 37) {
        None => check_ipv6(h),
        Some(z) => {
            let hl = h.len();
            proof {
                crate::text::lemma_rfind_bounds(h@, 37);
                assert(z < hl);
            }
            let addr = vstd::slice::slice_subrange(h, 0, z);
            let zone = vstd::slice::slice_subrange(h, z + 1, hl);
            proof {
                assert(addr@ =~= h@.take(z as int));
                assert(zone@ =~= h@.skip(z + 1));
            }
            let zone_ok = match parse_u64(zone) {
                Some(v) => v <= u32::MAX as u64,
                None => false,
            };
            zone_ok && check_ipv6(addr)
        },
    }
}

/// What the endpoint field yields: an IPv4 address or a bracketed IPv6
/// host followed by `:` and a port, with the empty field, the `(none)`
/// placeholder and any text that is no such address degrading to
/// `None` rather than an error.
pub open spec fn spec_endpoint(f: Seq<u8>) -> Option<EndpointV> {
    if f.len() == 0 || f == none_marker() {
        None
    } else {
        let c = rfind(f, 58);
        if c <= 0 {
            None
        } else {
            let host = f.take(c);
            let ps = f.skip(c + 1);
            if !(ps.len() > 0 && all_digits(ps) && dec_val(ps) <= 65535) {
                None
            } else if host[0] == 91 {
                if host.len() >= 3 && host.last() == 93 && is_ipv6_host(
                    host.subrange(1, host.len() - 1),
                ) {
                    Some(
                        EndpointV {
                            ip: ipv6_text(host.subrange(1, host.len() - 1)),
                            port: dec_val(ps) as u16,
                        },
                    )
                } else {
                    None
                }
            } else if rfind(host, 58) >= 0 || !is_ipv4(host) {
                None
            } else {
                Some(EndpointV { ip: host, port: dec_val(ps) as u16 })
            }
        }
    }
}

/// Parse the endpoint field, exactly as [`spec_endpoint`] says.
pub fn parse_endpoint(f: &[u8]) -> (r: Option<Endpoint>)
    ensures
        match r {
            Some(e) => spec_endpoint(f@) == Some(e@),
            None => spec_endpoint(f@) is None,
        },
{
    let marker: Vec<u8> = vec![40u8, 110u8, 111u8, 110u8, 101u8, 41u8];
    proof {
        assert(marker@ =~= none_marker());
    }
    if f.len() == 0 || bytes_eq(f, marker.as_slice()) {
        return None;
    }
    let c = match rfind_byte(f, 58) {
        Some(c) => c,
        None => {
            return None;
        },
    };
    if c == 0 {
        return None;
    }
    proof {
        crate::text::lemma_rfind_bounds(f@, 58);
    }
    let host = vstd::slice::slice_subrange(f, 0, c);
    let ps = vstd::slice::slice_subrange(f, c + 1, f.len());
    proof {
        assert(host@ =~= f@.take(c as int));
        assert(ps@ =~= f@.skip(c + 1));
    }
    let port_val = match parse_u64(ps) {
        Some(v) => v,
        None => {
            return None;
        },
    };
    if port_val > 65535 {
        return None;
    }
    let port: u16 = port_val as u16;
    if host[0] == 91 {
        if host.len() >= 3 && host[host.len() - 1] == 93 {
            let inner = vstd::slice::slice_subrange(host, 1, host.len() - 1);
            proof {
                assert(inner@ =~= f@.take(c as int).subrange(1, f@.take(c as int).len() - 1));
            }
            if !check_ipv6_host(inner) {
                return None;
            }
            proof {
                crate::text::lemma_rfind_bounds(inner@, 37);
            }
            let ip = match rfind_byte(inner, 37) {
                Some(z) => subvec(inner, 0, z),
                None => subvec(inner, 0, inner.len()),
            };
            proof {
                assert(ip@ =~= ipv6_text(inner@));
            }
            return Some(Endpoint { ip, port });
        } else {
            return None;
        }
    }
    match rfind_byte(host, 58) {
        Some(_) => None,
        None => {
            proof {
                crate::text::lemma_rfind_bounds(host@, 58);
            }
            if !check_ipv4(host) {
                return None;
            }
            let ip = subvec(host, 0, host.len());
            proof {
                assert(ip@ =~= f@.take(c as int));
            }
            Some(Endpoint { ip, port })
        },
    }
}

/// What one record does to the snapshot being built: five fields append
/// an interface, nine fields append a peer bound to the latest
/// interface, anything else is rejected.
pub open spec fn spec_step(st: StateV, line: Seq<u8>, am: Seq<(Seq<u8>, Seq<u8>)>) -> Result<
    StateV,
    ParseError,
> {
    let fields = split_bytes(line, 9);
    if fields.len() == 5 {
        Ok(StateV { interfaces: st.interfaces.push(fields[0]), peers: st.peers })
    } else if fields.len() == 9 {
        if st.interfaces.len() == 0 {
            Err(ParseError::PeerBeforeInterface)
        } else if !parses_u64(fields[5]) {
            Err(ParseError::FieldParseFailure(FieldKind::Handshake))
        } else if !parses_u64(fields[6]) {
            Err(ParseError::FieldParseFailure(FieldKind::TxBytes))
        } else if !parses_u64(fields[7]) {
            Err(ParseError::FieldParseFailure(FieldKind::RxBytes))
        } else {
            Ok(
                StateV {
                    interfaces: st.interfaces,
                    peers: st.peers.push(
                        PeerV {
                            pubkey: fields[1],
                            alias: alias_lookup(am, fields[1]),
                            interface: st.interfaces.len() - 1,
                            tx_bytes: dec_val(fields[6]) as u64,
                            rx_bytes: dec_val(fields[7]) as u64,
                            handshake_timestamp: if dec_val(fields[5]) == 0 {
                                None
                            } else {
                                Some(dec_val(fields[5]) as u64)
                            },
                            endpoint: spec_endpoint(fields[3]),
                        },
                    ),
                },
            )
        }
    } else {
        Err(ParseError::UnrecognizedLine)
    }
}

/// Fold [`spec_step`] over the records from `i` on, stopping at the
/// first rejection.
pub open spec fn spec_parse_from(
    st: StateV,
    lines: Seq<Seq<u8>>,
    i: int,
    am: Seq<(Seq<u8>, Seq<u8>)>,
) -> Result<StateV, ParseError>
    decreases lines.len() - i,
{
    if i < 0 || i >= lines.len() {
        Ok(st)
    } else {
        match spec_step(st, lines[i], am) {
            Ok(st2) => spec_parse_from(st2, lines, i + 1, am),
            Err(e) => Err(e),
        }
    }
}

/// The records of a dump: newline-separated, one trailing newline
/// tolerated, as `str::lines` does.
pub open spec fn dump_lines(s: Seq<u8>) -> Seq<Seq<u8>> {
    if s.len() == 0 {
        Seq::empty()
    } else if s.last() == 10 {
        split_bytes(s.drop_last(), 10)
    } else {
        split_bytes(s, 10)
    }
}

/// What parsing a whole dump yields.
pub open spec fn spec_parse(s: Seq<u8>, am: Seq<(Seq<u8>, Seq<u8>)>) -> Result<
    StateV,
    ParseError,
> {
    spec_parse_from(StateV::empty(), dump_lines(s), 0, am)
}

impl WireguardState {
    /// Parse a raw dump into a snapshot, resolving aliases as it goes,
    /// exactly as [`spec_parse`] says; a parsed snapshot is well-formed.
    pub fn parse(input: &[u8], aliases: &AliasMap) -> (r: Result<WireguardState, ParseError>)
        ensures
            match r {
                Ok(st) => spec_parse(input@, aliases@) == Ok::<StateV, ParseError>(st@)
                    && st@.wf(),
                Err(e) => spec_parse(input@, aliases@) == Err::<StateV, ParseError>(e),
            },
    {
        let mut st = WireguardState { interfaces: Vec::new(), peers: Vec::new() };
        proof {
            assert(st@ =~= StateV::empty());
        }
        if input.len() == 0 {
            return Ok(st);
        }
        let trimmed: &[u8] = if input[input.len() - 1] == 10 {
            vstd::slice::slice_subrange(input, 0, input.len() - 1)
        } else {
            input
        };
        proof {
            if input@.last() == 10 {
                assert(trimmed@ =~= input@.drop_last());
            }
        }
        let lines = split(trimmed, 10);
        let ghost lns = dump_lines(input@);
        proof {
            assert(lines@.map_values(|v: Vec<u8>| v@) == lns);
        }
        let mut i: usize = 0;
        while i < lines.len()
            invariant
                0 <= i <= lines@.len(),
                lines@.map_values(|v: Vec<u8>| v@) == lns,
                st@.wf(),
                spec_parse(input@, aliases@) == spec_parse_from(st@, lns, i as int, aliases@),
            decreases lines@.len() - i,
        {
            proof {
                assert(lns[i as int] == lines@[i as int]@);
            }
            let fields = split(lines[i].as_slice(), 9);
            let ghost fv = split_bytes(lns[i as int], 9);
            proof {
                assert(fields@.map_values(|v: Vec<u8>| v@) == fv);
                assert(fields@.len() == fv.len());
            }
            if fields.len() == 5 {
                proof {
                    assert(fv[0] == fields@[0]@);
                }
                let ghost pre = st@;
                let name = fields[0].clone();
                st.interfaces.push(name);
                proof {
                    assert(st@.interfaces =~= pre.interfaces.push(fv[0]));
                    assert(st@.peers =~= pre.peers);
                    assert(spec_step(pre, lns[i as int], aliases@) == Ok::<StateV, ParseError>(
                        st@,
                    ));
                }
            } else if fields.len() == 9 {
                proof {
                    assert(fv[1] == fields@[1]@);
                    assert(fv[3] == fields@[3]@);
                    assert(fv[5] == fields@[5]@);
                    assert(fv[6] == fields@[6]@);
                    assert(fv[7] == fields@[7]@);
                }
                if st.interfaces.len() == 0 {
                    return Err(ParseError::PeerBeforeInterface);
                }
                let hs = match parse_u64(fields[5].as_slice()) {
                    Some(v) => v,
                    None => {
                        return Err(ParseError::FieldParseFailure(FieldKind::Handshake));
                    },
                };
                let tx = match parse_u64(fields[6].as_slice()) {
                    Some(v) => v,
                    None => {
                        return Err(ParseError::FieldParseFailure(FieldKind::TxBytes));
                    },
                };
                let rx = match parse_u64(fields[7].as_slice()) {
                    Some(v) => v,
                    None => {
                        return Err(ParseError::FieldParseFailure(FieldKind::RxBytes));
                    },
                };
                let alias = aliases.lookup(fields[1].as_slice());
                let endpoint = parse_endpoint(fields[3].as_slice());
                let iface = st.interfaces.len() - 1;
                let pubkey = fields[1].clone();
                let ghost pre = st@;
                let peer = Peer {
                    pubkey,
                    alias,
                    interface: iface,
                    tx_bytes: tx,
                    rx_bytes: rx,
                    handshake_timestamp: if hs == 0 {
                        None
                    } else {
                        Some(hs)
                    },
                    endpoint,
                };
                proof {
                    assert(peer@ =~= PeerV {
                        pubkey: fv[1],
                        alias: alias_lookup(aliases@, fv[1]),
                        interface: pre.interfaces.len() - 1,
                        tx_bytes: dec_val(fv[6]) as u64,
                        rx_bytes: dec_val(fv[7]) as u64,
                        handshake_timestamp: if dec_val(fv[5]) == 0 {
                            None
                        } else {
                            Some(dec_val(fv[5]) as u64)
                        },
                        endpoint: spec_endpoint(fv[3]),
                    });
                }
                st.peers.push(peer);
                proof {
                    assert(st@.interfaces =~= pre.interfaces);
                    assert(st@.peers =~= pre.peers.push(peer@));
                    assert(spec_step(pre, lns[i as int], aliases@) == Ok::<StateV, ParseError>(
                        st@,
                    ));
                }
            } else {
                return Err(ParseError::UnrecognizedLine);
            }
            i += 1;
        }
        Ok(st)
    }
}

/// An interface-shaped record: five tab-separated fields.
pub open spec fn iface_line(l: Seq<u8>) -> bool {
    split_bytes(l, 9).len() == 5
}

/// A peer-shaped record whose three integer fields parse.
pub open spec fn peer_line(l: Seq<u8>) -> bool {
    split_bytes(l, 9).len() == 9 && parses_u64(split_bytes(l, 9)[5]) && parses_u64(
        split_bytes(l, 9)[6],
    ) && parses_u64(split_bytes(l, 9)[7])
}

/// Interface records among `lines[0..j)`.
pub open spec fn n_ifaces(lines: Seq<Seq<u8>>, j: int) -> int
    decreases j,
{
    if j <= 0 {
        0
    } else {
        n_ifaces(lines, j - 1) + if iface_line(lines[j - 1]) {
            1int
        } else {
            0int
        }
    }
}

/// Peer records among `lines[0..j)`.
pub open spec fn n_peers(lines: Seq<Seq<u8>>, j: int) -> int
    decreases j,
{
    if j <= 0 {
        0
    } else {
        n_peers(lines, j - 1) + if peer_line(lines[j - 1]) {
            1int
        } else {
            0int
        }
    }
}

/// The peer a peer-shaped record yields when `n_before` interfaces
/// have been declared so far.
pub open spec fn expected_peer(line: Seq<u8>, n_before: int, am: Seq<(Seq<u8>, Seq<u8>)>)
    -> PeerV {
    let fields = split_bytes(line, 9);
    PeerV {
        pubkey: fields[1],
        alias: alias_lookup(am, fields[1]),
        interface: n_before - 1,
        tx_bytes: dec_val(fields[6]) as u64,
        rx_bytes: dec_val(fields[7]) as u64,
        handshake_timestamp: if dec_val(fields[5]) == 0 {
            None
        } else {
            Some(dec_val(fields[5]) as u64)
        },
        endpoint: spec_endpoint(fields[3]),
    }
}

#[verifier::rlimit(100)]
#[verifier::spinoff_prover]
proof fn lemma_round_trip_from(st: StateV, lines: Seq<Seq<u8>>, i: int, am: Seq<(Seq<u8>, Seq<
    u8,
>)>)
    requires
        0 <= i <= lines.len(),
        forall|j: int| i <= j < lines.len() ==> iface_line(#[trigger] lines[j]) || peer_line(
            lines[j],
        ),
        forall|j: int| i <= j < lines.len() && peer_line(#[trigger] lines[j])
            ==> st.interfaces.len() + n_ifaces(lines, j) - n_ifaces(lines, i) > 0,
    ensures
        spec_parse_from(st, lines, i, am) is Ok,
        ({
            let r = spec_parse_from(st, lines, i, am)->Ok_0;
            r.interfaces.len() == st.interfaces.len() + n_ifaces(lines, lines.len() as int)
                - n_ifaces(lines, i) && r.peers.len() == st.peers.len() + n_peers(
                lines,
                lines.len() as int,
            ) - n_peers(lines, i) && (forall|k: int|
                0 <= k < st.interfaces.len() ==> r.interfaces[k] == st.interfaces[k]) && (
            forall|k: int| 0 <= k < st.peers.len() ==> r.peers[k] == st.peers[k]) && (forall|
                j: int,
            |
                i <= j < lines.len() && iface_line(#[trigger] lines[j]) ==> r.interfaces[
                    st.interfaces.len() + n_ifaces(lines, j) - n_ifaces(lines, i)
                ] == split_bytes(lines[j], 9)[0]) && (forall|j: int|
                i <= j < lines.len() && peer_line(#[trigger] lines[j]) ==> r.peers[
                    st.peers.len() + n_peers(lines, j) - n_peers(lines, i)
                ] == expected_peer(
                    lines[j],
                    st.interfaces.len() + n_ifaces(lines, j) - n_ifaces(lines, i),
                    am,
                ))
        }),
    decreases lines.len() - i,
{
    if i < lines.len() {
        let l = lines[i];
        let fields = split_bytes(l, 9);
        assert(iface_line(l) || peer_line(l));
        if iface_line(l) {
            let st2 = StateV { interfaces: st.interfaces.push(fields[0]), peers: st.peers };
            assert(spec_step(st, l, am) == Ok::<StateV, ParseError>(st2));
            assert(n_ifaces(lines, i + 1) == n_ifaces(lines, i) + 1);
            assert(n_peers(lines, i + 1) == n_peers(lines, i));
            assert forall|j: int|
                i + 1 <= j < lines.len() && peer_line(#[trigger] lines[j])
                    implies st2.interfaces.len() + n_ifaces(lines, j) - n_ifaces(lines, i + 1)
                    > 0 by {
                assert(st.interfaces.len() + n_ifaces(lines, j) - n_ifaces(lines, i) > 0);
            }
            lemma_round_trip_from(st2, lines, i + 1, am);
            let r = spec_parse_from(st2, lines, i + 1, am)->Ok_0;
            assert(spec_parse_from(st, lines, i, am) == spec_parse_from(st2, lines, i + 1, am));
            assert(r.interfaces[st.interfaces.len() as int] == st2.interfaces[
                st.interfaces.len() as int
            ]);
            assert(r.interfaces[st.interfaces.len() as int] == fields[0]);
        } else {
            assert(peer_line(l));
            assert(st.interfaces.len() + n_ifaces(lines, i) - n_ifaces(lines, i) > 0);
            assert(st.interfaces.len() > 0);
            let p = PeerV {
                pubkey: fields[1],
                alias: alias_lookup(am, fields[1]),
                interface: st.interfaces.len() - 1,
                tx_bytes: dec_val(fields[6]) as u64,
                rx_bytes: dec_val(fields[7]) as u64,
                handshake_timestamp: if dec_val(fields[5]) == 0 {
                    None
                } else {
                    Some(dec_val(fields[5]) as u64)
                },
                endpoint: spec_endpoint(fields[3]),
            };
            let st2 = StateV { interfaces: st.interfaces, peers: st.peers.push(p) };
            assert(spec_step(st, l, am) == Ok::<StateV, ParseError>(st2));
            assert(n_ifaces(lines, i + 1) == n_ifaces(lines, i));
            assert(n_peers(lines, i + 1) == n_peers(lines, i) + 1);
            assert forall|j: int|
                i + 1 <= j < lines.len() && peer_line(#[trigger] lines[j])
                    implies st2.interfaces.len() + n_ifaces(lines, j) - n_ifaces(lines, i + 1)
                    > 0 by {
                assert(st.interfaces.len() + n_ifaces(lines, j) - n_ifaces(lines, i) > 0);
            }
            lemma_round_trip_from(st2, lines, i + 1, am);
            let r = spec_parse_from(st2, lines, i + 1, am)->Ok_0;
            assert(spec_parse_from(st, lines, i, am) == spec_parse_from(st2, lines, i + 1, am));
            assert(r.peers[st.peers.len() as int] == st2.peers[st.peers.len() as int]);
            assert(r.peers[st.peers.len() as int] == p);
            assert(p =~= expected_peer(l, st.interfaces.len() as int, am));
        }
    }
}

/// Round-trip parse: a dump whose records all match the grammar, every
/// peer record preceded by some interface record, parses successfully,
/// and the snapshot recovers the interface count, every interface name
/// in record order, and every peer in full — bound to the nearest
/// preceding interface record, with the key, counters, normalized
/// handshake, endpoint and alias its record and the resolver give.
pub proof fn lemma_round_trip_parse(lines: Seq<Seq<u8>>, am: Seq<(Seq<u8>, Seq<u8>)>)
    requires
        forall|j: int| 0 <= j < lines.len() ==> iface_line(#[trigger] lines[j]) || peer_line(
            lines[j],
        ),
        forall|j: int| 0 <= j < lines.len() && peer_line(#[trigger] lines[j]) ==> n_ifaces(
            lines,
            j,
        ) > 0,
    ensures
        spec_parse_from(StateV::empty(), lines, 0, am) is Ok,
        ({
            let r = spec_parse_from(StateV::empty(), lines, 0, am)->Ok_0;
            r.interfaces.len() == n_ifaces(lines, lines.len() as int) && r.peers.len()
                == n_peers(lines, lines.len() as int) && (forall|j: int|
                0 <= j < lines.len() && iface_line(#[trigger] lines[j]) ==> r.interfaces[
                    n_ifaces(lines, j)
                ] == split_bytes(lines[j], 9)[0]) && (forall|j: int|
                0 <= j < lines.len() && peer_line(#[trigger] lines[j]) ==> r.peers[
                    n_peers(lines, j)
                ] == expected_peer(lines[j], n_ifaces(lines, j), am))
        }),
{
    lemma_round_trip_from(StateV::empty(), lines, 0, am);
}

/// Ownership binding: an accepted peer record is bound to the most
/// recently declared interface.
pub proof fn lemma_ownership_binding(st: StateV, line: Seq<u8>, am: Seq<(Seq<u8>, Seq<u8>)>)
    requires
        split_bytes(line, 9).len() == 9,
        spec_step(st, line, am) is Ok,
    ensures
        st.interfaces.len() > 0,
        spec_step(st, line, am)->Ok_0.peers.last().interface == st.interfaces.len() - 1,
{
}

/// Ownership binding, rejection half: a dump whose first record is
/// peer-shaped is rejected outright.
pub proof fn lemma_peer_before_interface_rejected(lines: Seq<Seq<u8>>, am: Seq<(Seq<u8>, Seq<
    u8,
>)>)
    requires
        lines.len() > 0,
        split_bytes(lines[0], 9).len() == 9,
    ensures
        spec_parse_from(StateV::empty(), lines, 0, am) == Err::<StateV, ParseError>(
            ParseError::PeerBeforeInterface,
        ),
{
}

/// Zero-handshake normalization: in an accepted peer record, a
/// handshake field worth zero yields no timestamp, and any nonzero
/// value is kept exactly.
pub proof fn lemma_zero_handshake_normalization(st: StateV, line: Seq<u8>, am: Seq<(Seq<u8>, Seq<
    u8,
>)>)
    requires
        split_bytes(line, 9).len() == 9,
        spec_step(st, line, am) is Ok,
    ensures
        ({
            let p = spec_step(st, line, am)->Ok_0.peers.last();
            let hs = dec_val(split_bytes(line, 9)[5]);
            (hs == 0 ==> p.handshake_timestamp is None) && (hs != 0 ==> p.handshake_timestamp
                == Some(hs as u64))
        }),
{
}

} // verus!
