//! The shared connection and routing state: the peer directory consumer,
//! the per-peer connection table, the per-(peer, channel) route table, the
//! cached local addresses and the relay list, together with the
//! reconciliation tick that drives address discovery, relay connection and
//! control-socket setup. The caller serializes access (one coarse lock or
//! one owning task); every operation here is a plain, verified state
//! transition from the values it is handed to the values it returns.

use crate::byte_buffer::bytes_of;
use crate::codec::Frame;
use crate::codec::FrameView;
use crate::codec::MAX_PAYLOAD;
use crate::transport::transport_view_wf;
use crate::transport::SendStatus;
use crate::transport::Transport;
use crate::transport::TransportView;
use crate::transport::QUEUE_CAPACITY;
use bytes::BytesMut;
use vstd::prelude::*;

verus! {

/// The values of a sequence of viewable items.
pub open spec fn views_of<T: View>(s: Seq<T>) -> Seq<T::V> {
    s.map_values(|x: T| x@)
}

/// A socket address as plain data: the IP octets (four for IPv4, sixteen
/// for IPv6) and the port.
pub struct SocketAddress {
    pub ip: Vec<u8>,
    pub port: u16,
}

#[verifier::ext_equal]
pub struct SocketAddressView {
    pub ip: Seq<u8>,
    pub port: u16,
}

impl View for SocketAddress {
    type V = SocketAddressView;

    open spec fn view(&self) -> SocketAddressView {
        SocketAddressView { ip: self.ip@, port: self.port }
    }
}

impl SocketAddress {
    pub fn new(ip: Vec<u8>, port: u16) -> (a: SocketAddress)
        ensures
            a@ == (SocketAddressView { ip: ip@, port }),
    {
        SocketAddress { ip, port }
    }

    pub fn duplicate(&self) -> (a: SocketAddress)
        ensures
            a@ == self@,
    {
        let ip = self.ip.clone();
        proof {
            assert(ip@ =~= self.ip@);
        }
        SocketAddress { ip, port: self.port }
    }
}

/// What the peer directory records of one peer: its addresses in order of
/// preference, and the one certificate pinned for it.
pub struct PeerRecord {
    pub addresses: Vec<SocketAddress>,
    pub certificate: Vec<u8>,
}

#[verifier::ext_equal]
pub struct PeerRecordView {
    pub addresses: Seq<SocketAddressView>,
    pub certificate: Seq<u8>,
}

impl View for PeerRecord {
    type V = PeerRecordView;

    open spec fn view(&self) -> PeerRecordView {
        PeerRecordView { addresses: views_of(self.addresses@), certificate: self.certificate@ }
    }
}

pub struct DirectoryEntry {
    pub id: String,
    pub record: PeerRecord,
}

#[verifier::ext_equal]
pub struct DirectoryEntryView {
    pub id: Seq<char>,
    pub record: PeerRecordView,
}

impl View for DirectoryEntry {
    type V = DirectoryEntryView;

    open spec fn view(&self) -> DirectoryEntryView {
        DirectoryEntryView { id: self.id@, record: self.record@ }
    }
}

/// No two directory entries name the same peer.
pub open spec fn dir_wf(d: Seq<DirectoryEntryView>) -> bool {
    forall|i: int, j: int| 0 <= i < j < d.len() ==> (#[trigger] d[i]).id != (#[trigger] d[j]).id
}

pub open spec fn dir_has(d: Seq<DirectoryEntryView>, id: Seq<char>) -> bool {
    exists|i: int| 0 <= i < d.len() && (#[trigger] d[i]).id == id
}

pub open spec fn dir_index(d: Seq<DirectoryEntryView>, id: Seq<char>) -> int {
    choose|i: int| 0 <= i < d.len() && (#[trigger] d[i]).id == id
}

/// What looking a peer up yields: its first address and its pinned
/// certificate, provided the peer is known and has an address at all.
pub open spec fn spec_lookup(d: Seq<DirectoryEntryView>, id: Seq<char>) -> Option<
    (SocketAddressView, Seq<u8>),
> {
    if dir_has(d, id) && d[dir_index(d, id)].record.addresses.len() > 0 {
        Some((d[dir_index(d, id)].record.addresses[0], d[dir_index(d, id)].record.certificate))
    } else {
        None
    }
}

/// The peer directory as this core consumes it: ids mapped to records,
/// each id held once.
pub struct PeerInformationBase {
    entries: Vec<DirectoryEntry>,
}

impl View for PeerInformationBase {
    type V = Seq<DirectoryEntryView>;

    closed spec fn view(&self) -> Seq<DirectoryEntryView> {
        views_of(self.entries@)
    }
}

impl PeerInformationBase {
    pub fn new() -> (p: PeerInformationBase)
        ensures
            p@ == Seq::<DirectoryEntryView>::empty(),
            dir_wf(p@),
    {
        let p = PeerInformationBase { entries: Vec::new() };
        proof {
            assert(p@ =~= Seq::<DirectoryEntryView>::empty());
        }
        p
    }

    fn find(&self, id: &String) -> (r: Option<usize>)
        ensures
            (r matches Some(i) ==> i < self@.len() && self@[i as int].id == id@),
            r is None ==> forall|j: int| 0 <= j < self@.len() ==> (#[trigger] self@[j]).id != id@,
    {
        let mut k: usize = 0;
        while k < self.entries.len()
            invariant
                k <= self.entries@.len(),
                forall|j: int| 0 <= j < k ==> (#[trigger] self@[j]).id != id@,
            decreases self.entries@.len() - k,
        {
            proof {
                assert(self@[k as int] == self.entries@[k as int]@);
            }
            if self.entries[k].id == *id {
                return Some(k);
            }
            k += 1;
        }
        None
    }

    /// Record `record` under `id`, replacing whatever the directory held
    /// for that peer.
    pub fn add_peer(&mut self, id: String, record: PeerRecord)
        requires
            dir_wf(old(self)@),
        ensures
            dir_wf(final(self)@),
            dir_has(final(self)@, id@),
            !dir_has(old(self)@, id@) ==> final(self)@ == old(self)@.push(
                DirectoryEntryView { id: id@, record: record@ },
            ),
            dir_has(old(self)@, id@) ==> final(self)@ == old(self)@.update(
                dir_index(old(self)@, id@),
                DirectoryEntryView { id: id@, record: record@ },
            ),
    {
        let ghost d0 = self@;
        let entry_view = Ghost(DirectoryEntryView { id: id@, record: record@ });
        match self.find(&id) {
            Some(i) => {
                let ghost gi = i as int;
                self.entries[i] = DirectoryEntry { id, record };
                proof {
                    assert(dir_has(d0, entry_view@.id));
                    let ci = dir_index(d0, entry_view@.id);
                    assert(0 <= ci < d0.len() && d0[ci].id == entry_view@.id);
                    assert(ci == gi);
                    assert(self@ =~= d0.update(gi, entry_view@));
                    assert(dir_wf(self@));
                    assert(self@[gi].id == entry_view@.id);
                }
            },
            None => {
                let ghost n = d0.len() as int;
                self.entries.push(DirectoryEntry { id, record });
                proof {
                    assert(self@ =~= d0.push(entry_view@));
                    assert(self@[n].id == entry_view@.id);
                    assert(dir_wf(self@));
                }
            },
        }
    }

    /// The record held for `id`, if any.
    pub fn get_peer(&self, id: &String) -> (r: Option<&PeerRecord>)
        requires
            dir_wf(self@),
        ensures
            dir_has(self@, id@) ==> (r matches Some(p) && p@ == self@[dir_index(self@, id@)].record),
            !dir_has(self@, id@) ==> r is None,
    {
        match self.find(id) {
            Some(i) => {
                proof {
                    assert(dir_has(self@, id@));
                    let ci = dir_index(self@, id@);
                    assert(0 <= ci < self@.len() && self@[ci].id == id@);
                    assert(ci == i as int);
                }
                Some(&self.entries[i].record)
            },
            None => None,
        }
    }
}

/// One local address: the interface it sits on, the address itself, and
/// the externally mapped address if a NAT-traversal collaborator found one.
pub struct LocalAddress {
    pub interface: String,
    pub internal_address: SocketAddress,
    pub external_address: Option<SocketAddress>,
}

#[verifier::ext_equal]
pub struct LocalAddressView {
    pub interface: Seq<char>,
    pub internal_address: SocketAddressView,
    pub external_address: Option<SocketAddressView>,
}

impl View for LocalAddress {
    type V = LocalAddressView;

    open spec fn view(&self) -> LocalAddressView {
        LocalAddressView {
            interface: self.interface@,
            internal_address: self.internal_address@,
            external_address: match self.external_address {
                Some(ref a) => Some(a@),
                None => None,
            },
        }
    }
}

impl LocalAddress {
    pub fn new(interface: String, internal_address: SocketAddress, external_address: Option<SocketAddress>) -> (a:
        LocalAddress)
        ensures
            a.interface == interface,
            a.internal_address == internal_address,
            a.external_address == external_address,
    {
        LocalAddress { interface, internal_address, external_address }
    }
}

/// One peer's transports, oldest first; the first is the primary route.
pub struct ConnectionEntry {
    pub peer: String,
    pub transports: Vec<Transport>,
}

#[verifier::ext_equal]
pub struct ConnectionEntryView {
    pub peer: Seq<char>,
    pub transports: Seq<TransportView>,
}

impl View for ConnectionEntry {
    type V = ConnectionEntryView;

    open spec fn view(&self) -> ConnectionEntryView {
        ConnectionEntryView { peer: self.peer@, transports: views_of(self.transports@) }
    }
}

/// One registered route: the payloads queued for the local endpoint bound
/// to (peer, channel), oldest first.
pub struct RouteEntry {
    pub peer: String,
    pub channel: u16,
    pub queue: Vec<BytesMut>,
}

#[verifier::ext_equal]
pub struct RouteView {
    pub peer: Seq<char>,
    pub channel: u16,
    pub queue: Seq<Seq<u8>>,
}

impl View for RouteEntry {
    type V = RouteView;

    open spec fn view(&self) -> RouteView {
        RouteView {
            peer: self.peer@,
            channel: self.channel,
            queue: self.queue@.map_values(|b: BytesMut| bytes_of(b)),
        }
    }
}

/// Connection-table well-formedness: one entry per peer, every transport
/// well formed.
pub open spec fn conn_wf(cs: Seq<ConnectionEntryView>) -> bool {
    &&& forall|i: int, j: int|
        0 <= i < j < cs.len() ==> (#[trigger] cs[i]).peer != (#[trigger] cs[j]).peer
    &&& forall|i: int, k: int|
        0 <= i < cs.len() && 0 <= k < (#[trigger] cs[i]).transports.len() ==> transport_view_wf(
            #[trigger] cs[i].transports[k],
        )
}

pub open spec fn conn_has(cs: Seq<ConnectionEntryView>, peer: Seq<char>) -> bool {
    exists|i: int| 0 <= i < cs.len() && (#[trigger] cs[i]).peer == peer
}

pub open spec fn conn_index(cs: Seq<ConnectionEntryView>, peer: Seq<char>) -> int {
    choose|i: int| 0 <= i < cs.len() && (#[trigger] cs[i]).peer == peer
}

/// Route-table well-formedness: one entry per (peer, channel), every
/// delivery queue within its bound.
pub open spec fn route_wf(rs: Seq<RouteView>) -> bool {
    &&& forall|i: int, j: int|
        0 <= i < j < rs.len() ==> !((#[trigger] rs[i]).peer == (#[trigger] rs[j]).peer && rs[i].channel
            == rs[j].channel)
    &&& forall|i: int| 0 <= i < rs.len() ==> (#[trigger] rs[i]).queue.len() <= QUEUE_CAPACITY
}

pub open spec fn route_has(rs: Seq<RouteView>, peer: Seq<char>, channel: u16) -> bool {
    exists|i: int|
        0 <= i < rs.len() && (#[trigger] rs[i]).peer == peer && rs[i].channel == channel
}

pub open spec fn route_index(rs: Seq<RouteView>, peer: Seq<char>, channel: u16) -> int {
    choose|i: int|
        0 <= i < rs.len() && (#[trigger] rs[i]).peer == peer && rs[i].channel == channel
}

/// Registering (peer, channel) binds it to a fresh, empty delivery queue;
/// a prior binding for the same pair is silently overwritten.
pub open spec fn spec_register(rs: Seq<RouteView>, peer: Seq<char>, channel: u16) -> Seq<
    RouteView,
> {
    if route_has(rs, peer, channel) {
        rs.update(
            route_index(rs, peer, channel),
            RouteView { peer, channel, queue: Seq::empty() },
        )
    } else {
        rs.push(RouteView { peer, channel, queue: Seq::empty() })
    }
}

/// The mathematical value of the whole shared state.
#[verifier::ext_equal]
pub struct StateView {
    pub id: Seq<char>,
    pub pib: Seq<DirectoryEntryView>,
    pub connections: Seq<ConnectionEntryView>,
    pub relays: Seq<Seq<char>>,
    pub addresses: Seq<LocalAddressView>,
    pub routes: Seq<RouteView>,
    pub ctl_listening: bool,
}

pub open spec fn state_wf(v: StateView) -> bool {
    dir_wf(v.pib) && conn_wf(v.connections) && route_wf(v.routes)
}

/// The aggregate the daemon shares: local identity, peer directory,
/// connection table, relay list, cached addresses, route table, and
/// whether the control socket is already listening.
pub struct InnerState {
    pub id: String,
    pub pib: PeerInformationBase,
    connections: Vec<ConnectionEntry>,
    pub relays: Vec<String>,
    addresses: Vec<LocalAddress>,
    sockets: Vec<RouteEntry>,
    ctl_listening: bool,
}

impl View for InnerState {
    type V = StateView;

    closed spec fn view(&self) -> StateView {
        StateView {
            id: self.id@,
            pib: self.pib@,
            connections: views_of(self.connections@),
            relays: views_of(self.relays@),
            addresses: views_of(self.addresses@),
            routes: views_of(self.sockets@),
            ctl_listening: self.ctl_listening,
        }
    }
}

/// The shared state handle. The caller guards it (one coarse lock or one
/// owning task); the methods are sequential state transitions.
pub struct State(pub InnerState);

impl View for State {
    type V = StateView;

    open spec fn view(&self) -> StateView {
        self.0@
    }
}

/// What became of a send toward a peer. A missing peer or transport is a
/// silent no-op by design: best-effort, fire-and-forget.
#[derive(Clone, Copy, PartialEq, Eq, Structural, Debug)]
pub enum SendOutcome {
    Enqueued,
    QueueFull,
    TransportClosed,
    NoTransport,
}

/// What became of delivering an inbound payload to a local route. A
/// missing route drops the payload silently by design.
#[derive(Clone, Copy, PartialEq, Eq, Structural, Debug)]
pub enum DeliverOutcome {
    Delivered,
    ChannelFull,
    NoRoute,
}

impl State {
    pub open spec fn wf(&self) -> bool {
        state_wf(self@)
    }

    /// A state built from the startup configuration: the local id, the
    /// relay list and the initial peer-directory snapshot; every table
    /// starts empty and the control socket is not yet listening.
    pub fn from_configuration(id: String, relays: Vec<String>, pib: PeerInformationBase) -> (s:
        State)
        requires
            dir_wf(pib@),
        ensures
            s.wf(),
            s@ == (StateView {
                id: id@,
                pib: pib@,
                connections: Seq::<ConnectionEntryView>::empty(),
                relays: views_of(relays@),
                addresses: Seq::<LocalAddressView>::empty(),
                routes: Seq::<RouteView>::empty(),
                ctl_listening: false,
            }),
    {
        let s = State(
            InnerState {
                id,
                pib,
                connections: Vec::new(),
                relays,
                addresses: Vec::new(),
                sockets: Vec::new(),
                ctl_listening: false,
            },
        );
        proof {
            assert(views_of(s.0.connections@) =~= Seq::<ConnectionEntryView>::empty());
            assert(views_of(s.0.addresses@) =~= Seq::<LocalAddressView>::empty());
            assert(views_of(s.0.sockets@) =~= Seq::<RouteView>::empty());
        }
        s
    }

    /// Append a relay id to the list the reconciliation tick connects to.
    pub fn add_relay(&mut self, id: String)
        ensures
            final(self)@ == (StateView { relays: old(self)@.relays.push(id@), ..old(self)@ }),
            old(self).wf() ==> final(self).wf(),
    {
        let ghost id_view = id@;
        self.0.relays.push(id);
        proof {
            assert(views_of(self.0.relays@) =~= views_of(old(self).0.relays@).push(id_view));
        }
    }

    /// The canonical target for a peer: its first directory address and
    /// its pinned certificate.
    pub fn lookup_peer(&self, id: &String) -> (r: Option<(SocketAddress, Vec<u8>)>)
        requires
            self.wf(),
        ensures
            (r matches Some(p) ==> spec_lookup(self@.pib, id@) == Some((p.0@, p.1@))),
            r is None ==> spec_lookup(self@.pib, id@) is None,
    {
        match self.0.pib.get_peer(id) {
            Some(record) => {
                if record.addresses.len() > 0 {
                    let addr = record.addresses[0].duplicate();
                    let cert = record.certificate.clone();
                    proof {
                        assert(record@.addresses[0] == record.addresses@[0]@);
                        assert(cert@ =~= record@.certificate);
                    }
                    Some((addr, cert))
                } else {
                    None
                }
            },
            None => None,
        }
    }

    fn find_conn(&self, peer: &String) -> (r: Option<usize>)
        ensures
            (r matches Some(i) ==> i < self@.connections.len() && self@.connections[i as int].peer
                == peer@),
            r is None ==> forall|j: int|
                0 <= j < self@.connections.len() ==> (#[trigger] self@.connections[j]).peer
                    != peer@,
    {
        let mut k: usize = 0;
        while k < self.0.connections.len()
            invariant
                k <= self.0.connections@.len(),
                forall|j: int| 0 <= j < k ==> (#[trigger] self@.connections[j]).peer != peer@,
            decreases self.0.connections@.len() - k,
        {
            proof {
                assert(self@.connections[k as int] == self.0.connections@[k as int]@);
            }
            if self.0.connections[k].peer == *peer {
                return Some(k);
            }
            k += 1;
        }
        None
    }

    fn find_route(&self, peer: &String, channel: u16) -> (r: Option<usize>)
        ensures
            (r matches Some(i) ==> i < self@.routes.len() && self@.routes[i as int].peer == peer@
                && self@.routes[i as int].channel == channel),
            r is None ==> forall|j: int|
                0 <= j < self@.routes.len() ==> !((#[trigger] self@.routes[j]).peer == peer@
                    && self@.routes[j].channel == channel),
    {
        let mut k: usize = 0;
        while k < self.0.sockets.len()
            invariant
                k <= self.0.sockets@.len(),
                forall|j: int|
                    0 <= j < k ==> !((#[trigger] self@.routes[j]).peer == peer@
                        && self@.routes[j].channel == channel),
            decreases self.0.sockets@.len() - k,
        {
            proof {
                assert(self@.routes[k as int] == self.0.sockets@[k as int]@);
            }
            if self.0.sockets[k].peer == *peer && self.0.sockets[k].channel == channel {
                return Some(k);
            }
            k += 1;
        }
        None
    }
}

/// The found position of a peer's entry is the one `conn_index` denotes.
proof fn lemma_conn_index_is(cs: Seq<ConnectionEntryView>, peer: Seq<char>, i: int)
    requires
        conn_wf(cs),
        0 <= i < cs.len(),
        cs[i].peer == peer,
    ensures
        conn_has(cs, peer),
        conn_index(cs, peer) == i,
{
    assert(conn_has(cs, peer));
    let ci = conn_index(cs, peer);
    assert(0 <= ci < cs.len() && cs[ci].peer == peer);
    if ci < i {
        assert(cs[ci].peer != cs[i].peer);
    }
    if i < ci {
        assert(cs[i].peer != cs[ci].peer);
    }
}

/// The found position of a route is the one `route_index` denotes.
proof fn lemma_route_index_is(rs: Seq<RouteView>, peer: Seq<char>, channel: u16, i: int)
    requires
        route_wf(rs),
        0 <= i < rs.len(),
        rs[i].peer == peer,
        rs[i].channel == channel,
    ensures
        route_has(rs, peer, channel),
        route_index(rs, peer, channel) == i,
{
    assert(route_has(rs, peer, channel));
    let ri = route_index(rs, peer, channel);
    assert(0 <= ri < rs.len() && rs[ri].peer == peer && rs[ri].channel == channel);
    if ri < i {
        assert(!(rs[ri].peer == rs[i].peer && rs[ri].channel == rs[i].channel));
    }
    if i < ri {
        assert(!(rs[i].peer == rs[ri].peer && rs[i].channel == rs[ri].channel));
    }
}

impl State {
    /// Register a freshly opened transport under its peer: appended to the
    /// peer's list, never replacing an older one. Returns the position
    /// (entry, transport) the transport now occupies.
    pub fn add_connection(&mut self, id: String, conn: Transport) -> (r: (usize, usize))
        requires
            old(self).wf(),
            conn.wf(),
        ensures
            final(self).wf(),
            !conn_has(old(self)@.connections, id@) ==> final(self)@ == (StateView {
                connections: old(self)@.connections.push(
                    ConnectionEntryView { peer: id@, transports: seq![conn@] },
                ),
                ..old(self)@
            }) && r.0 == old(self)@.connections.len() && r.1 == 0,
            conn_has(old(self)@.connections, id@) ==> final(self)@ == (StateView {
                connections: old(self)@.connections.update(
                    conn_index(old(self)@.connections, id@),
                    ConnectionEntryView {
                        peer: old(self)@.connections[conn_index(old(self)@.connections, id@)].peer,
                        transports: old(self)@.connections[conn_index(
                            old(self)@.connections,
                            id@,
                        )].transports.push(conn@),
                    },
                ),
                ..old(self)@
            }) && r.0 == conn_index(old(self)@.connections, id@) && r.1 == old(
                self,
            )@.connections[conn_index(old(self)@.connections, id@)].transports.len(),
    {
        let ghost cs0 = self@.connections;
        let ghost conn_view = conn@;
        match self.find_conn(&id) {
            Some(i) => {
                let ghost gi = i as int;
                proof {
                    lemma_conn_index_is(cs0, id@, gi);
                }
                let mut entry = self.0.connections.remove(i);
                let n = entry.transports.len();
                entry.transports.push(conn);
                let ghost entry_view = entry@;
                self.0.connections.insert(i, entry);
                proof {
                    assert(entry_view.transports =~= cs0[gi].transports.push(conn_view));
                    assert(entry_view =~= (ConnectionEntryView {
                        peer: cs0[gi].peer,
                        transports: cs0[gi].transports.push(conn_view),
                    }));
                    assert(self@.connections =~= cs0.update(gi, entry_view));
                    assert(final(self)@ =~= (StateView {
                        connections: cs0.update(gi, entry_view),
                        ..old(self)@
                    }));
                    assert forall|a: int, b: int| 0 <= a < b < self@.connections.len() implies (
                    #[trigger] self@.connections[a]).peer != (
                    #[trigger] self@.connections[b]).peer by {
                        assert(self@.connections[a].peer == cs0[a].peer);
                        assert(self@.connections[b].peer == cs0[b].peer);
                    }
                    assert forall|a: int, k: int|
                        0 <= a < self@.connections.len() && 0 <= k < (
                        #[trigger] self@.connections[a]).transports.len() implies transport_view_wf(
                        #[trigger] self@.connections[a].transports[k],
                    ) by {
                        if a == gi {
                            if k < cs0[gi].transports.len() {
                                assert(self@.connections[a].transports[k]
                                    == cs0[gi].transports[k]);
                            } else {
                                assert(self@.connections[a].transports[k] == conn_view);
                            }
                        } else {
                            assert(self@.connections[a].transports[k] == cs0[a].transports[k]);
                        }
                    }
                }
                (i, n)
            },
            None => {
                let n = self.0.connections.len();
                let mut transports: Vec<Transport> = Vec::new();
                transports.push(conn);
                let entry = ConnectionEntry { peer: id, transports };
                let ghost entry_view = entry@;
                self.0.connections.push(entry);
                proof {
                    assert(entry_view.transports =~= seq![conn_view]);
                    assert(self@.connections =~= cs0.push(entry_view));
                    assert(final(self)@ =~= (StateView {
                        connections: cs0.push(entry_view),
                        ..old(self)@
                    }));
                    assert forall|a: int, b: int| 0 <= a < b < self@.connections.len() implies (
                    #[trigger] self@.connections[a]).peer != (
                    #[trigger] self@.connections[b]).peer by {
                        if b < cs0.len() {
                            assert(self@.connections[a].peer == cs0[a].peer);
                            assert(self@.connections[b].peer == cs0[b].peer);
                        } else {
                            assert(self@.connections[a].peer == cs0[a].peer);
                            assert(!conn_has(cs0, self@.connections[b].peer));
                        }
                    }
                    assert forall|a: int, k: int|
                        0 <= a < self@.connections.len() && 0 <= k < (
                        #[trigger] self@.connections[a]).transports.len() implies transport_view_wf(
                        #[trigger] self@.connections[a].transports[k],
                    ) by {
                        if a < cs0.len() {
                            assert(self@.connections[a].transports[k] == cs0[a].transports[k]);
                        } else {
                            assert(self@.connections[a].transports[k] == conn_view);
                        }
                    }
                }
                (n, 0)
            },
        }
    }

    /// Forward a payload to a peer as a Data frame through that peer's
    /// primary transport. A peer with no registered transport is a silent
    /// no-op: the call returns at once and surfaces no error.
    pub fn send_frame(&mut self, host_id: String, channel_id: u16, data: BytesMut) -> (r:
        SendOutcome)
        requires
            old(self).wf(),
            bytes_of(data).len() <= MAX_PAYLOAD,
        ensures
            final(self).wf(),
            !conn_has(old(self)@.connections, host_id@) ==> r == SendOutcome::NoTransport
                && final(self)@ == old(self)@,
            conn_has(old(self)@.connections, host_id@) ==> ({
                let ci = conn_index(old(self)@.connections, host_id@);
                let entry = old(self)@.connections[ci];
                &&& entry.transports.len() == 0 ==> r == SendOutcome::NoTransport && final(self)@
                    == old(self)@
                &&& entry.transports.len() > 0 && !entry.transports[0].alive ==> r
                    == SendOutcome::TransportClosed && final(self)@ == old(self)@
                &&& entry.transports.len() > 0 && entry.transports[0].alive
                    && entry.transports[0].outbound.len() >= QUEUE_CAPACITY ==> r
                    == SendOutcome::QueueFull && final(self)@ == old(self)@
                &&& entry.transports.len() > 0 && entry.transports[0].alive
                    && entry.transports[0].outbound.len() < QUEUE_CAPACITY ==> r
                    == SendOutcome::Enqueued && final(self)@ == (StateView {
                    connections: old(self)@.connections.update(
                        ci,
                        ConnectionEntryView {
                            peer: entry.peer,
                            transports: entry.transports.update(
                                0,
                                TransportView {
                                    outbound: entry.transports[0].outbound.push(
                                        FrameView::Data {
                                            channel: channel_id,
                                            payload: bytes_of(data),
                                        },
                                    ),
                                    ..entry.transports[0]
                                },
                            ),
                        },
                    ),
                    ..old(self)@
                })
            }),
    {
        let ghost cs0 = self@.connections;
        let i = match self.find_conn(&host_id) {
            Some(i) => i,
            None => {
                return SendOutcome::NoTransport;
            },
        };
        let ghost gi = i as int;
        proof {
            lemma_conn_index_is(cs0, host_id@, gi);
        }
        if self.0.connections[i].transports.len() == 0 {
            return SendOutcome::NoTransport;
        }
        let ghost e0 = cs0[gi];
        let ghost t0 = e0.transports[0];
        let mut entry = self.0.connections.remove(i);
        let mut t = entry.transports.remove(0);
        proof {
            assert(t@ == t0);
            assert(transport_view_wf(t0));
        }
        let status = t.send_frame(channel_id, data);
        let ghost t1 = t@;
        entry.transports.insert(0, t);
        let ghost entry_view = entry@;
        self.0.connections.insert(i, entry);
        proof {
            assert(entry_view.transports =~= e0.transports.update(0, t1));
            assert(self@.connections =~= cs0.update(gi, entry_view));
            if t1 == t0 {
                assert(entry_view =~= e0);
                assert(self@.connections =~= cs0);
                assert(final(self)@ =~= old(self)@);
            }
            assert forall|a: int, b: int| 0 <= a < b < self@.connections.len() implies (
            #[trigger] self@.connections[a]).peer != (#[trigger] self@.connections[b]).peer by {
                assert(self@.connections[a].peer == cs0[a].peer);
                assert(self@.connections[b].peer == cs0[b].peer);
            }
            assert forall|a: int, k: int|
                0 <= a < self@.connections.len() && 0 <= k < (
                #[trigger] self@.connections[a]).transports.len() implies transport_view_wf(
                #[trigger] self@.connections[a].transports[k],
            ) by {
                if a == gi && k == 0 {
                    assert(self@.connections[a].transports[k] == t1);
                } else if a == gi {
                    assert(self@.connections[a].transports[k] == e0.transports[k]);
                } else {
                    assert(self@.connections[a].transports[k] == cs0[a].transports[k]);
                }
            }
        }
        match status {
            SendStatus::Enqueued => SendOutcome::Enqueued,
            SendStatus::Full => SendOutcome::QueueFull,
            SendStatus::Closed => SendOutcome::TransportClosed,
        }
    }
}

impl State {
    /// Hand an inbound payload to the local endpoint registered for
    /// (peer, channel): queued for the bridging task that writes it to the
    /// application socket. No registration means the payload is silently
    /// dropped; a full queue stalls only this channel.
    pub fn deliver_frame(&mut self, host_id: String, channel_id: u16, data: BytesMut) -> (r:
        DeliverOutcome)
        requires
            old(self).wf(),
        ensures
            final(self).wf(),
            !route_has(old(self)@.routes, host_id@, channel_id) ==> r == DeliverOutcome::NoRoute
                && final(self)@ == old(self)@,
            route_has(old(self)@.routes, host_id@, channel_id) ==> ({
                let ri = route_index(old(self)@.routes, host_id@, channel_id);
                let entry = old(self)@.routes[ri];
                &&& entry.queue.len() >= QUEUE_CAPACITY ==> r == DeliverOutcome::ChannelFull
                    && final(self)@ == old(self)@
                &&& entry.queue.len() < QUEUE_CAPACITY ==> r == DeliverOutcome::Delivered
                    && final(self)@ == (StateView {
                    routes: old(self)@.routes.update(
                        ri,
                        RouteView { queue: entry.queue.push(bytes_of(data)), ..entry },
                    ),
                    ..old(self)@
                })
            }),
    {
        let ghost rs0 = self@.routes;
        let i = match self.find_route(&host_id, channel_id) {
            Some(i) => i,
            None => {
                return DeliverOutcome::NoRoute;
            },
        };
        let ghost gi = i as int;
        proof {
            lemma_route_index_is(rs0, host_id@, channel_id, gi);
        }
        if self.0.sockets[i].queue.len() >= QUEUE_CAPACITY {
            return DeliverOutcome::ChannelFull;
        }
        let ghost e0 = rs0[gi];
        let ghost payload = bytes_of(data);
        let mut entry = self.0.sockets.remove(i);
        entry.queue.push(data);
        let ghost entry_view = entry@;
        self.0.sockets.insert(i, entry);
        proof {
            assert(entry_view.queue =~= e0.queue.push(payload));
            assert(entry_view =~= (RouteView { queue: e0.queue.push(payload), ..e0 }));
            assert(self@.routes =~= rs0.update(gi, entry_view));
            assert forall|a: int, b: int| 0 <= a < b < self@.routes.len() implies !((
            #[trigger] self@.routes[a]).peer == (#[trigger] self@.routes[b]).peer
                && self@.routes[a].channel == self@.routes[b].channel) by {
                assert(self@.routes[a].peer == rs0[a].peer);
                assert(self@.routes[b].peer == rs0[b].peer);
                assert(self@.routes[a].channel == rs0[a].channel);
                assert(self@.routes[b].channel == rs0[b].channel);
            }
            assert forall|a: int| 0 <= a < self@.routes.len() implies (
            #[trigger] self@.routes[a]).queue.len() <= QUEUE_CAPACITY by {
                if a != gi {
                    assert(self@.routes[a] == rs0[a]);
                }
            }
        }
        DeliverOutcome::Delivered
    }

    /// Bind (peer, channel) to a freshly opened local endpoint: a new
    /// route with an empty delivery queue, silently replacing any earlier
    /// binding for the same pair.
    pub fn register_route(&mut self, host_id: String, channel_id: u16)
        requires
            old(self).wf(),
        ensures
            final(self).wf(),
            final(self)@ == (StateView {
                routes: spec_register(old(self)@.routes, host_id@, channel_id),
                ..old(self)@
            }),
            route_has(final(self)@.routes, host_id@, channel_id),
            !route_has(old(self)@.routes, host_id@, channel_id) ==> final(self)@.routes.len()
                == old(self)@.routes.len() + 1,
            route_has(old(self)@.routes, host_id@, channel_id) ==> final(self)@.routes.len()
                == old(self)@.routes.len(),
    {
        let ghost rs0 = self@.routes;
        let ghost key_peer = host_id@;
        match self.find_route(&host_id, channel_id) {
            Some(i) => {
                let ghost gi = i as int;
                proof {
                    lemma_route_index_is(rs0, key_peer, channel_id, gi);
                }
                self.0.sockets[i] = RouteEntry { peer: host_id, channel: channel_id, queue: Vec::new() };
                proof {
                    let ghost nv = (RouteView {
                        peer: key_peer,
                        channel: channel_id,
                        queue: Seq::empty(),
                    });
                    assert(self.0.sockets@[gi]@ =~= nv);
                    assert(self@.routes =~= rs0.update(gi, nv));
                    assert(self@.routes == spec_register(rs0, key_peer, channel_id));
                    assert(self@.routes[gi] == nv);
                    assert(route_has(self@.routes, key_peer, channel_id));
                    assert forall|a: int, b: int| 0 <= a < b < self@.routes.len() implies !((
                    #[trigger] self@.routes[a]).peer == (#[trigger] self@.routes[b]).peer
                        && self@.routes[a].channel == self@.routes[b].channel) by {
                        assert(self@.routes[a].peer == rs0[a].peer);
                        assert(self@.routes[b].peer == rs0[b].peer);
                        assert(self@.routes[a].channel == rs0[a].channel);
                        assert(self@.routes[b].channel == rs0[b].channel);
                    }
                    assert forall|a: int| 0 <= a < self@.routes.len() implies (
                    #[trigger] self@.routes[a]).queue.len() <= QUEUE_CAPACITY by {
                        if a != gi {
                            assert(self@.routes[a] == rs0[a]);
                        }
                    }
                }
            },
            None => {
                let ghost n = rs0.len() as int;
                self.0.sockets.push(
                    RouteEntry { peer: host_id, channel: channel_id, queue: Vec::new() },
                );
                proof {
                    let ghost nv = (RouteView {
                        peer: key_peer,
                        channel: channel_id,
                        queue: Seq::empty(),
                    });
                    assert(self.0.sockets@[n]@ =~= nv);
                    assert(self@.routes =~= rs0.push(nv));
                    assert(self@.routes == spec_register(rs0, key_peer, channel_id));
                    assert(self@.routes[n] == nv);
                    assert(route_has(self@.routes, key_peer, channel_id));
                    assert forall|a: int, b: int| 0 <= a < b < self@.routes.len() implies !((
                    #[trigger] self@.routes[a]).peer == (#[trigger] self@.routes[b]).peer
                        && self@.routes[a].channel == self@.routes[b].channel) by {
                        assert(self@.routes[a] == rs0[a]);
                        if b < n {
                            assert(self@.routes[b] == rs0[b]);
                        } else {
                            assert(self@.routes[b] == nv);
                            assert(!route_has(rs0, key_peer, channel_id));
                        }
                    }
                    assert forall|a: int| 0 <= a < self@.routes.len() implies (
                    #[trigger] self@.routes[a]).queue.len() <= QUEUE_CAPACITY by {
                        if a != n {
                            assert(self@.routes[a] == rs0[a]);
                        }
                    }
                }
            },
        }
    }

    /// Take the oldest payload queued for (peer, channel), if any: the
    /// bridging task writes it raw to the bound application socket.
    pub fn pop_route_payload(&mut self, host_id: String, channel_id: u16) -> (r: Option<BytesMut>)
        requires
            old(self).wf(),
        ensures
            final(self).wf(),
            !route_has(old(self)@.routes, host_id@, channel_id) ==> r is None && final(self)@
                == old(self)@,
            route_has(old(self)@.routes, host_id@, channel_id) ==> ({
                let ri = route_index(old(self)@.routes, host_id@, channel_id);
                let entry = old(self)@.routes[ri];
                &&& entry.queue.len() == 0 ==> r is None && final(self)@ == old(self)@
                &&& entry.queue.len() > 0 ==> (r matches Some(b) && bytes_of(b) == entry.queue[0]
                    && final(self)@ == (StateView {
                    routes: old(self)@.routes.update(
                        ri,
                        RouteView { queue: entry.queue.skip(1), ..entry },
                    ),
                    ..old(self)@
                }))
            }),
    {
        let ghost rs0 = self@.routes;
        let i = match self.find_route(&host_id, channel_id) {
            Some(i) => i,
            None => {
                return None;
            },
        };
        let ghost gi = i as int;
        proof {
            lemma_route_index_is(rs0, host_id@, channel_id, gi);
        }
        if self.0.sockets[i].queue.len() == 0 {
            return None;
        }
        let ghost e0 = rs0[gi];
        let mut entry = self.0.sockets.remove(i);
        let payload = entry.queue.remove(0);
        let ghost entry_view = entry@;
        self.0.sockets.insert(i, entry);
        proof {
            assert(bytes_of(payload) == e0.queue[0]);
            assert(entry_view.queue =~= e0.queue.skip(1));
            assert(entry_view =~= (RouteView { queue: e0.queue.skip(1), ..e0 }));
            assert(self@.routes =~= rs0.update(gi, entry_view));
            assert forall|a: int, b: int| 0 <= a < b < self@.routes.len() implies !((
            #[trigger] self@.routes[a]).peer == (#[trigger] self@.routes[b]).peer
                && self@.routes[a].channel == self@.routes[b].channel) by {
                assert(self@.routes[a].peer == rs0[a].peer);
                assert(self@.routes[b].peer == rs0[b].peer);
                assert(self@.routes[a].channel == rs0[a].channel);
                assert(self@.routes[b].channel == rs0[b].channel);
            }
            assert forall|a: int| 0 <= a < self@.routes.len() implies (
            #[trigger] self@.routes[a]).queue.len() <= QUEUE_CAPACITY by {
                if a != gi {
                    assert(self@.routes[a] == rs0[a]);
                }
            }
        }
        Some(payload)
    }

    /// How many routes are registered.
    pub fn route_count(&self) -> (r: usize)
        ensures
            r == self@.routes.len(),
    {
        self.0.sockets.len()
    }

    /// How many transports a peer has registered.
    pub fn transport_count(&self, host_id: &String) -> (r: usize)
        requires
            self.wf(),
        ensures
            !conn_has(self@.connections, host_id@) ==> r == 0,
            conn_has(self@.connections, host_id@) ==> r == self@.connections[conn_index(
                self@.connections,
                host_id@,
            )].transports.len(),
    {
        match self.find_conn(host_id) {
            Some(i) => {
                proof {
                    lemma_conn_index_is(self@.connections, host_id@, i as int);
                }
                self.0.connections[i].transports.len()
            },
            None => 0,
        }
    }

    /// The cached local addresses, as the last successful scan left them.
    pub fn local_addresses(&self) -> (r: &Vec<LocalAddress>)
        ensures
            views_of(r@) == self@.addresses,
    {
        &self.0.addresses
    }

    /// Note that the control socket is listening, so the next tick does
    /// not open it again.
    pub fn ctl_socket_opened(&mut self)
        ensures
            final(self)@ == (StateView { ctl_listening: true, ..old(self)@ }),
            old(self).wf() ==> final(self).wf(),
    {
        self.0.ctl_listening = true;
    }
}

impl State {
    /// Encode and take the next outbound frame of the given transport, in
    /// enqueue order: what its forwarding task writes to the wire next. An
    /// unknown peer or position, or an empty queue, yields nothing.
    pub fn pop_outbound(&mut self, host_id: &String, idx: usize) -> (r: Option<BytesMut>)
        requires
            old(self).wf(),
        ensures
            final(self).wf(),
            !conn_has(old(self)@.connections, host_id@) ==> r is None && final(self)@ == old(
                self,
            )@,
            conn_has(old(self)@.connections, host_id@) ==> ({
                let ci = conn_index(old(self)@.connections, host_id@);
                let entry = old(self)@.connections[ci];
                &&& idx >= entry.transports.len() ==> r is None && final(self)@ == old(self)@
                &&& idx < entry.transports.len() && entry.transports[idx as int].outbound.len()
                    == 0 ==> r is None && final(self)@ == old(self)@
                &&& idx < entry.transports.len() && entry.transports[idx as int].outbound.len()
                    > 0 ==> (r matches Some(b) && bytes_of(b) == crate::codec::spec_encode(
                    entry.transports[idx as int].outbound[0],
                ) && final(self)@ == (StateView {
                    connections: old(self)@.connections.update(
                        ci,
                        ConnectionEntryView {
                            peer: entry.peer,
                            transports: entry.transports.update(
                                idx as int,
                                TransportView {
                                    outbound: entry.transports[idx as int].outbound.skip(1),
                                    ..entry.transports[idx as int]
                                },
                            ),
                        },
                    ),
                    ..old(self)@
                }))
            }),
    {
        let ghost cs0 = self@.connections;
        let i = match self.find_conn(host_id) {
            Some(i) => i,
            None => {
                return None;
            },
        };
        let ghost gi = i as int;
        proof {
            lemma_conn_index_is(cs0, host_id@, gi);
        }
        if idx >= self.0.connections[i].transports.len() {
            return None;
        }
        let ghost e0 = cs0[gi];
        let ghost t0 = e0.transports[idx as int];
        let mut entry = self.0.connections.remove(i);
        let mut t = entry.transports.remove(idx);
        proof {
            assert(t@ == t0);
            assert(transport_view_wf(t0));
        }
        let r = t.pop_outbound();
        let ghost t1 = t@;
        entry.transports.insert(idx, t);
        let ghost entry_view = entry@;
        self.0.connections.insert(i, entry);
        proof {
            assert(entry_view.transports =~= e0.transports.update(idx as int, t1));
            assert(self@.connections =~= cs0.update(gi, entry_view));
            if t1 == t0 {
                assert(entry_view =~= e0);
                assert(self@.connections =~= cs0);
                assert(final(self)@ =~= old(self)@);
            }
            assert forall|a: int, b: int| 0 <= a < b < self@.connections.len() implies (
            #[trigger] self@.connections[a]).peer != (#[trigger] self@.connections[b]).peer by {
                assert(self@.connections[a].peer == cs0[a].peer);
                assert(self@.connections[b].peer == cs0[b].peer);
            }
            assert forall|a: int, k: int|
                0 <= a < self@.connections.len() && 0 <= k < (
                #[trigger] self@.connections[a]).transports.len() implies transport_view_wf(
                #[trigger] self@.connections[a].transports[k],
            ) by {
                if a == gi && k == idx as int {
                    assert(self@.connections[a].transports[k] == t1);
                } else if a == gi {
                    assert(self@.connections[a].transports[k] == e0.transports[k]);
                } else {
                    assert(self@.connections[a].transports[k] == cs0[a].transports[k]);
                }
            }
        }
        r
    }

    /// Feed bytes the given transport's connection delivered, and hand
    /// back the frames that are now complete, in wire order. A protocol
    /// error marks that transport dead; its read loop then stops. An
    /// unknown peer or position yields nothing.
    pub fn transport_read(&mut self, host_id: &String, idx: usize, data: &[u8]) -> (r: Vec<Frame>)
        requires
            old(self).wf(),
        ensures
            final(self).wf(),
            !conn_has(old(self)@.connections, host_id@) ==> r@.len() == 0 && final(self)@ == old(
                self,
            )@,
            conn_has(old(self)@.connections, host_id@) ==> ({
                let ci = conn_index(old(self)@.connections, host_id@);
                let entry = old(self)@.connections[ci];
                &&& idx >= entry.transports.len() ==> r@.len() == 0 && final(self)@ == old(self)@
                &&& idx < entry.transports.len() && !entry.transports[idx as int].alive ==> r@.len()
                    == 0 && final(self)@ == old(self)@
                &&& idx < entry.transports.len() && entry.transports[idx as int].alive ==> ({
                    let drained = crate::codec::spec_drain(
                        entry.transports[idx as int].inbound + data@,
                    );
                    &&& crate::codec::frames_views(r@) == drained.frames
                    &&& final(self)@ == (StateView {
                        connections: old(self)@.connections.update(
                            ci,
                            ConnectionEntryView {
                                peer: entry.peer,
                                transports: entry.transports.update(
                                    idx as int,
                                    TransportView {
                                        alive: !drained.failed,
                                        inbound: drained.rest,
                                        ..entry.transports[idx as int]
                                    },
                                ),
                            },
                        ),
                        ..old(self)@
                    })
                })
            }),
    {
        let ghost cs0 = self@.connections;
        let i = match self.find_conn(host_id) {
            Some(i) => i,
            None => {
                return Vec::new();
            },
        };
        let ghost gi = i as int;
        proof {
            lemma_conn_index_is(cs0, host_id@, gi);
        }
        if idx >= self.0.connections[i].transports.len() {
            return Vec::new();
        }
        let ghost e0 = cs0[gi];
        let ghost t0 = e0.transports[idx as int];
        let mut entry = self.0.connections.remove(i);
        let mut t = entry.transports.remove(idx);
        proof {
            assert(t@ == t0);
            assert(transport_view_wf(t0));
        }
        let r = t.read_frames(data);
        let ghost t1 = t@;
        entry.transports.insert(idx, t);
        let ghost entry_view = entry@;
        self.0.connections.insert(i, entry);
        proof {
            assert(entry_view.transports =~= e0.transports.update(idx as int, t1));
            assert(self@.connections =~= cs0.update(gi, entry_view));
            if t1 == t0 {
                assert(entry_view =~= e0);
                assert(self@.connections =~= cs0);
                assert(final(self)@ =~= old(self)@);
            }
            assert forall|a: int, b: int| 0 <= a < b < self@.connections.len() implies (
            #[trigger] self@.connections[a]).peer != (#[trigger] self@.connections[b]).peer by {
                assert(self@.connections[a].peer == cs0[a].peer);
                assert(self@.connections[b].peer == cs0[b].peer);
            }
            assert forall|a: int, k: int|
                0 <= a < self@.connections.len() && 0 <= k < (
                #[trigger] self@.connections[a]).transports.len() implies transport_view_wf(
                #[trigger] self@.connections[a].transports[k],
            ) by {
                if a == gi && k == idx as int {
                    assert(self@.connections[a].transports[k] == t1);
                } else if a == gi {
                    assert(self@.connections[a].transports[k] == e0.transports[k]);
                } else {
                    assert(self@.connections[a].transports[k] == cs0[a].transports[k]);
                }
            }
        }
        r
    }
}

/// What kind of address an interface reports.
#[derive(Clone, Copy, PartialEq, Eq, Structural, Debug)]
pub enum AddressKind {
    Ipv4,
    Ipv6,
    Other,
}

/// One address of one local interface, as the enumeration reports it.
pub struct InterfaceAddress {
    pub kind: AddressKind,
    pub address: Option<SocketAddress>,
}

#[verifier::ext_equal]
pub struct InterfaceAddressView {
    pub kind: AddressKind,
    pub address: Option<SocketAddressView>,
}

impl View for InterfaceAddress {
    type V = InterfaceAddressView;

    open spec fn view(&self) -> InterfaceAddressView {
        InterfaceAddressView {
            kind: self.kind,
            address: match self.address {
                Some(ref a) => Some(a@),
                None => None,
            },
        }
    }
}

/// One local interface, as the enumeration reports it.
pub struct InterfaceReport {
    pub name: String,
    pub loopback: bool,
    pub up: bool,
    pub addresses: Vec<InterfaceAddress>,
}

#[verifier::ext_equal]
pub struct InterfaceReportView {
    pub name: Seq<char>,
    pub loopback: bool,
    pub up: bool,
    pub addresses: Seq<InterfaceAddressView>,
}

impl View for InterfaceReport {
    type V = InterfaceReportView;

    open spec fn view(&self) -> InterfaceReportView {
        InterfaceReportView {
            name: self.name@,
            loopback: self.loopback,
            up: self.up,
            addresses: views_of(self.addresses@),
        }
    }
}

/// An address is kept when it is present and IPv4 or IPv6.
pub open spec fn keep_address(a: InterfaceAddressView) -> bool {
    a.address is Some && (a.kind == AddressKind::Ipv4 || a.kind == AddressKind::Ipv6)
}

/// What one reported address contributes to the cached list.
pub open spec fn addr_contrib(name: Seq<char>, a: InterfaceAddressView) -> Seq<LocalAddressView> {
    if keep_address(a) {
        seq![
            LocalAddressView {
                interface: name,
                internal_address: a.address.unwrap(),
                external_address: None,
            },
        ]
    } else {
        Seq::empty()
    }
}

/// The kept addresses of one interface, in reported order.
pub open spec fn iface_addresses(name: Seq<char>, addrs: Seq<InterfaceAddressView>) -> Seq<
    LocalAddressView,
>
    decreases addrs.len(),
{
    if addrs.len() == 0 {
        Seq::empty()
    } else {
        addr_contrib(name, addrs[0]) + iface_addresses(name, addrs.skip(1))
    }
}

/// What one interface contributes: nothing when it is loopback or down.
pub open spec fn iface_contrib(r: InterfaceReportView) -> Seq<LocalAddressView> {
    if !r.loopback && r.up {
        iface_addresses(r.name, r.addresses)
    } else {
        Seq::empty()
    }
}

/// The local addresses a whole interface scan yields, in scan order.
pub open spec fn scan_addresses(rs: Seq<InterfaceReportView>) -> Seq<LocalAddressView>
    decreases rs.len(),
{
    if rs.len() == 0 {
        Seq::empty()
    } else {
        iface_contrib(rs[0]) + scan_addresses(rs.skip(1))
    }
}

proof fn lemma_iface_addresses_push(
    name: Seq<char>,
    s: Seq<InterfaceAddressView>,
    x: InterfaceAddressView,
)
    ensures
        iface_addresses(name, s.push(x)) == iface_addresses(name, s) + addr_contrib(name, x),
    decreases s.len(),
{
    if s.len() == 0 {
        assert(s.push(x)[0] == x);
        assert(s.push(x).skip(1) =~= Seq::<InterfaceAddressView>::empty());
        assert(iface_addresses(name, Seq::<InterfaceAddressView>::empty())
            =~= Seq::<LocalAddressView>::empty());
        assert(iface_addresses(name, s.push(x)) =~= iface_addresses(name, s) + addr_contrib(
            name,
            x,
        ));
    } else {
        assert(s.push(x)[0] == s[0]);
        assert(s.push(x).skip(1) =~= s.skip(1).push(x));
        lemma_iface_addresses_push(name, s.skip(1), x);
        assert(addr_contrib(name, s[0]) + (iface_addresses(name, s.skip(1)) + addr_contrib(
            name,
            x,
        )) =~= (addr_contrib(name, s[0]) + iface_addresses(name, s.skip(1))) + addr_contrib(
            name,
            x,
        ));
        assert(iface_addresses(name, s.push(x)) =~= iface_addresses(name, s) + addr_contrib(
            name,
            x,
        ));
    }
}

proof fn lemma_scan_addresses_push(s: Seq<InterfaceReportView>, x: InterfaceReportView)
    ensures
        scan_addresses(s.push(x)) == scan_addresses(s) + iface_contrib(x),
    decreases s.len(),
{
    if s.len() == 0 {
        assert(s.push(x)[0] == x);
        assert(s.push(x).skip(1) =~= Seq::<InterfaceReportView>::empty());
        assert(scan_addresses(Seq::<InterfaceReportView>::empty())
            =~= Seq::<LocalAddressView>::empty());
        assert(scan_addresses(s.push(x)) =~= scan_addresses(s) + iface_contrib(x));
    } else {
        assert(s.push(x)[0] == s[0]);
        assert(s.push(x).skip(1) =~= s.skip(1).push(x));
        lemma_scan_addresses_push(s.skip(1), x);
        assert(iface_contrib(s[0]) + (scan_addresses(s.skip(1)) + iface_contrib(x)) =~= (
        iface_contrib(s[0]) + scan_addresses(s.skip(1))) + iface_contrib(x));
        assert(scan_addresses(s.push(x)) =~= scan_addresses(s) + iface_contrib(x));
    }
}

/// One intended relay connection: the peer, the address to dial and the
/// certificate to pin for it.
pub struct ConnectPlan {
    pub peer: String,
    pub address: SocketAddress,
    pub certificate: Vec<u8>,
}

#[verifier::ext_equal]
pub struct ConnectPlanView {
    pub peer: Seq<char>,
    pub address: SocketAddressView,
    pub certificate: Seq<u8>,
}

impl View for ConnectPlan {
    type V = ConnectPlanView;

    open spec fn view(&self) -> ConnectPlanView {
        ConnectPlanView {
            peer: self.peer@,
            address: self.address@,
            certificate: self.certificate@,
        }
    }
}

/// What one relay id contributes to the plan: nothing unless the peer
/// directory resolves it to at least one address.
pub open spec fn relay_contrib(pib: Seq<DirectoryEntryView>, id: Seq<char>) -> Seq<
    ConnectPlanView,
> {
    match spec_lookup(pib, id) {
        Some(p) => seq![ConnectPlanView { peer: id, address: p.0, certificate: p.1 }],
        None => Seq::empty(),
    }
}

/// The connections one reconciliation tick intends: each configured relay
/// the directory resolves, in list order.
pub open spec fn spec_relay_plan(
    relays: Seq<Seq<char>>,
    pib: Seq<DirectoryEntryView>,
) -> Seq<ConnectPlanView>
    decreases relays.len(),
{
    if relays.len() == 0 {
        Seq::empty()
    } else {
        relay_contrib(pib, relays[0]) + spec_relay_plan(relays.skip(1), pib)
    }
}

proof fn lemma_relay_plan_push(relays: Seq<Seq<char>>, pib: Seq<DirectoryEntryView>, x: Seq<char>)
    ensures
        spec_relay_plan(relays.push(x), pib) == spec_relay_plan(relays, pib) + relay_contrib(
            pib,
            x,
        ),
    decreases relays.len(),
{
    if relays.len() == 0 {
        assert(relays.push(x)[0] == x);
        assert(relays.push(x).skip(1) =~= Seq::<Seq<char>>::empty());
        assert(spec_relay_plan(Seq::<Seq<char>>::empty(), pib)
            =~= Seq::<ConnectPlanView>::empty());
        assert(spec_relay_plan(relays.push(x), pib) =~= spec_relay_plan(relays, pib)
            + relay_contrib(pib, x));
    } else {
        assert(relays.push(x)[0] == relays[0]);
        assert(relays.push(x).skip(1) =~= relays.skip(1).push(x));
        lemma_relay_plan_push(relays.skip(1), pib, x);
        assert(relay_contrib(pib, relays[0]) + (spec_relay_plan(relays.skip(1), pib)
            + relay_contrib(pib, x)) =~= (relay_contrib(pib, relays[0]) + spec_relay_plan(
            relays.skip(1),
            pib,
        )) + relay_contrib(pib, x));
        assert(spec_relay_plan(relays.push(x), pib) =~= spec_relay_plan(relays, pib)
            + relay_contrib(pib, x));
    }
}

impl State {
    /// Replace the cached local addresses with what a fresh interface
    /// scan yields: every present IPv4 or IPv6 address of every interface
    /// that is up and not loopback. A failed enumeration (`None`) leaves
    /// the previous list untouched.
    pub fn discover_addresses(&mut self, scan: Option<Vec<InterfaceReport>>)
        ensures
            old(self).wf() ==> final(self).wf(),
            scan is None ==> final(self)@ == old(self)@,
            (scan matches Some(list) ==> final(self)@ == (StateView {
                addresses: scan_addresses(views_of(list@)),
                ..old(self)@
            })),
    {
        let list = match scan {
            None => {
                return;
            },
            Some(l) => l,
        };
        let ghost lv = views_of(list@);
        let mut fresh: Vec<LocalAddress> = Vec::new();
        proof {
            assert(lv.take(0) =~= Seq::<InterfaceReportView>::empty());
            assert(views_of(fresh@) =~= scan_addresses(lv.take(0)));
        }
        let mut i: usize = 0;
        while i < list.len()
            invariant
                i <= list@.len(),
                lv == views_of(list@),
                views_of(fresh@) == scan_addresses(lv.take(i as int)),
            decreases list@.len() - i,
        {
            let ghost iv = lv[i as int];
            proof {
                assert(iv == list@[i as int]@);
            }
            let iface = &list[i];
            if !iface.loopback && iface.up {
                let ghost av = iv.addresses;
                let ghost fresh_before = views_of(fresh@);
                proof {
                    assert(av.take(0) =~= Seq::<InterfaceAddressView>::empty());
                    assert(views_of(fresh@) =~= fresh_before + iface_addresses(
                        iv.name,
                        av.take(0),
                    ));
                }
                let mut j: usize = 0;
                while j < iface.addresses.len()
                    invariant
                        j <= iface.addresses@.len(),
                        av == views_of(iface.addresses@),
                        iv.name == iface.name@,
                        views_of(fresh@) == fresh_before + iface_addresses(
                            iv.name,
                            av.take(j as int),
                        ),
                    decreases iface.addresses@.len() - j,
                {
                    let ghost a = av[j as int];
                    proof {
                        assert(a == iface.addresses@[j as int]@);
                    }
                    let ghost before = views_of(fresh@);
                    match &iface.addresses[j].address {
                        Some(addr) => {
                            let kind = iface.addresses[j].kind;
                            if kind == AddressKind::Ipv4 || kind == AddressKind::Ipv6 {
                                let entry = LocalAddress::new(
                                    iface.name.clone(),
                                    addr.duplicate(),
                                    None,
                                );
                                let ghost ev = entry@;
                                fresh.push(entry);
                                proof {
                                    assert(keep_address(a));
                                    assert(ev == (LocalAddressView {
                                        interface: iv.name,
                                        internal_address: a.address.unwrap(),
                                        external_address: None,
                                    }));
                                    assert(views_of(fresh@) =~= before + addr_contrib(iv.name, a));
                                }
                            } else {
                                proof {
                                    assert(!keep_address(a));
                                    assert(views_of(fresh@) =~= before + addr_contrib(iv.name, a));
                                }
                            }
                        },
                        None => {
                            proof {
                                assert(!keep_address(a));
                                assert(views_of(fresh@) =~= before + addr_contrib(iv.name, a));
                            }
                        },
                    }
                    proof {
                        lemma_iface_addresses_push(iv.name, av.take(j as int), a);
                        assert(av.take(j as int + 1) =~= av.take(j as int).push(a));
                    }
                    j += 1;
                }
                proof {
                    assert(av.take(av.len() as int) =~= av);
                    assert(views_of(fresh@) == fresh_before + iface_contrib(iv));
                    lemma_scan_addresses_push(lv.take(i as int), iv);
                    assert(lv.take(i as int + 1) =~= lv.take(i as int).push(iv));
                }
            } else {
                proof {
                    assert(iface_contrib(iv) =~= Seq::<LocalAddressView>::empty());
                    lemma_scan_addresses_push(lv.take(i as int), iv);
                    assert(lv.take(i as int + 1) =~= lv.take(i as int).push(iv));
                    assert(views_of(fresh@) =~= scan_addresses(lv.take(i as int)) + iface_contrib(
                        iv,
                    ));
                }
            }
            i += 1;
        }
        self.0.addresses = fresh;
        proof {
            assert(lv.take(list@.len() as int) =~= lv);
            assert(final(self)@ =~= (StateView {
                addresses: scan_addresses(lv),
                ..old(self)@
            }));
        }
    }

    /// The relay connections this tick should open: every configured
    /// relay the directory resolves, with the address to dial and the
    /// certificate to pin. Failures and retries are the caller's business;
    /// the next tick recomputes the plan.
    pub fn connect_to_relays(&self) -> (plan: Vec<ConnectPlan>)
        requires
            self.wf(),
        ensures
            views_of(plan@) == spec_relay_plan(self@.relays, self@.pib),
    {
        let ghost rv = self@.relays;
        let mut plan: Vec<ConnectPlan> = Vec::new();
        proof {
            assert(rv.take(0) =~= Seq::<Seq<char>>::empty());
            assert(views_of(plan@) =~= spec_relay_plan(rv.take(0), self@.pib));
        }
        let mut k: usize = 0;
        while k < self.0.relays.len()
            invariant
                self.wf(),
                k <= self.0.relays@.len(),
                rv == self@.relays,
                views_of(plan@) == spec_relay_plan(rv.take(k as int), self@.pib),
            decreases self.0.relays@.len() - k,
        {
            let ghost idv = rv[k as int];
            proof {
                assert(idv == self.0.relays@[k as int]@);
            }
            let ghost before = views_of(plan@);
            let relay = &self.0.relays[k];
            match self.lookup_peer(relay) {
                Some((address, certificate)) => {
                    let entry = ConnectPlan { peer: relay.clone(), address, certificate };
                    let ghost ev = entry@;
                    plan.push(entry);
                    proof {
                        assert(spec_lookup(self@.pib, idv) == Some((ev.address, ev.certificate)));
                        assert(views_of(plan@) =~= before + relay_contrib(self@.pib, idv));
                    }
                },
                None => {
                    proof {
                        assert(views_of(plan@) =~= before + relay_contrib(self@.pib, idv));
                    }
                },
            }
            proof {
                lemma_relay_plan_push(rv.take(k as int), self@.pib, idv);
                assert(rv.take(k as int + 1) =~= rv.take(k as int).push(idv));
            }
            k += 1;
        }
        proof {
            assert(rv.take(rv.len() as int) =~= rv);
        }
        plan
    }

    /// One reconciliation tick: refresh the cached addresses from the
    /// scan, compute the relay connections to open, and say whether the
    /// control socket still has to be opened. Level-triggered: every tick
    /// re-evaluates desired against actual state.
    pub fn tick(&mut self, scan: Option<Vec<InterfaceReport>>) -> (r: (Vec<ConnectPlan>, bool))
        requires
            old(self).wf(),
        ensures
            final(self).wf(),
            views_of(r.0@) == spec_relay_plan(old(self)@.relays, old(self)@.pib),
            r.1 == !old(self)@.ctl_listening,
            scan is None ==> final(self)@ == old(self)@,
            (scan matches Some(list) ==> final(self)@ == (StateView {
                addresses: scan_addresses(views_of(list@)),
                ..old(self)@
            })),
    {
        self.discover_addresses(scan);
        let plan = self.connect_to_relays();
        let open_ctl = !self.0.ctl_listening;
        (plan, open_ctl)
    }
}

/// Registering a pair that has no route yet appends exactly one entry:
/// the table grows by one, stays well formed, holds the new pair, and
/// every other pair's presence is untouched.
pub proof fn lemma_register_new(rs: Seq<RouteView>, peer: Seq<char>, channel: u16)
    requires
        route_wf(rs),
        !route_has(rs, peer, channel),
    ensures
        spec_register(rs, peer, channel) == rs.push(
            RouteView { peer, channel, queue: Seq::empty() },
        ),
        spec_register(rs, peer, channel).len() == rs.len() + 1,
        route_wf(spec_register(rs, peer, channel)),
        route_has(spec_register(rs, peer, channel), peer, channel),
        forall|p2: Seq<char>, c2: u16|
            !(p2 == peer && c2 == channel) ==> (#[trigger] route_has(
                spec_register(rs, peer, channel),
                p2,
                c2,
            ) == route_has(rs, p2, c2)),
{
    let nv = RouteView { peer, channel, queue: Seq::empty() };
    let nrs = rs.push(nv);
    let n = rs.len() as int;
    assert(nrs[n] == nv);
    assert(route_has(nrs, peer, channel));
    assert forall|a: int, b: int| 0 <= a < b < nrs.len() implies !((#[trigger] nrs[a]).peer == (
    #[trigger] nrs[b]).peer && nrs[a].channel == nrs[b].channel) by {
        if b < n {
            assert(nrs[a] == rs[a] && nrs[b] == rs[b]);
        } else {
            assert(nrs[a] == rs[a] && nrs[b] == nv);
            if rs[a].peer == peer && rs[a].channel == channel {
                assert(route_has(rs, peer, channel));
            }
        }
    }
    assert forall|a: int| 0 <= a < nrs.len() implies (#[trigger] nrs[a]).queue.len()
        <= QUEUE_CAPACITY by {
        if a < n {
            assert(nrs[a] == rs[a]);
        } else {
            assert(nrs[a] == nv);
        }
    }
    assert forall|p2: Seq<char>, c2: u16| !(p2 == peer && c2 == channel) implies (
    #[trigger] route_has(nrs, p2, c2) == route_has(rs, p2, c2)) by {
        if route_has(nrs, p2, c2) {
            let i = choose|i: int|
                0 <= i < nrs.len() && (#[trigger] nrs[i]).peer == p2 && nrs[i].channel == c2;
            if i < n {
                assert(rs[i] == nrs[i]);
                assert(route_has(rs, p2, c2));
            } else {
                assert(nrs[i] == nv);
            }
        }
        if route_has(rs, p2, c2) {
            let i = choose|i: int|
                0 <= i < rs.len() && (#[trigger] rs[i]).peer == p2 && rs[i].channel == c2;
            assert(nrs[i] == rs[i]);
            assert(route_has(nrs, p2, c2));
        }
    }
}

/// The route table after a whole sequence of registrations, first first.
pub open spec fn spec_register_all(
    rs: Seq<RouteView>,
    reqs: Seq<(Seq<char>, u16)>,
) -> Seq<RouteView>
    decreases reqs.len(),
{
    if reqs.len() == 0 {
        rs
    } else {
        spec_register_all(spec_register(rs, reqs[0].0, reqs[0].1), reqs.skip(1))
    }
}

/// Registering any number of distinct, previously unregistered
/// (peer, channel) pairs yields exactly that many new route entries:
/// none is lost, whatever order the registrations are serialized in.
pub proof fn lemma_distinct_registrations(rs: Seq<RouteView>, reqs: Seq<(Seq<char>, u16)>)
    requires
        route_wf(rs),
        forall|a: int, b: int| 0 <= a < b < reqs.len() ==> #[trigger] reqs[a] != #[trigger] reqs[b],
        forall|a: int|
            0 <= a < reqs.len() ==> !route_has(rs, (#[trigger] reqs[a]).0, reqs[a].1),
    ensures
        spec_register_all(rs, reqs).len() == rs.len() + reqs.len(),
        route_wf(spec_register_all(rs, reqs)),
        forall|a: int|
            0 <= a < reqs.len() ==> route_has(
                spec_register_all(rs, reqs),
                (#[trigger] reqs[a]).0,
                reqs[a].1,
            ),
    decreases reqs.len(),
{
    if reqs.len() == 0 {
    } else {
        let key = reqs[0];
        let rs1 = spec_register(rs, key.0, key.1);
        lemma_register_new(rs, key.0, key.1);
        let rest = reqs.skip(1);
        assert forall|a: int, b: int| 0 <= a < b < rest.len() implies #[trigger] rest[a]
            != #[trigger] rest[b] by {
            assert(rest[a] == reqs[a + 1] && rest[b] == reqs[b + 1]);
        }
        assert forall|a: int| 0 <= a < rest.len() implies !route_has(
            rs1,
            (#[trigger] rest[a]).0,
            rest[a].1,
        ) by {
            assert(rest[a] == reqs[a + 1]);
            assert(reqs[a + 1] != reqs[0]);
            assert(!route_has(rs, reqs[a + 1].0, reqs[a + 1].1));
            if rest[a].0 == key.0 && rest[a].1 == key.1 {
                assert(reqs[a + 1] == reqs[0]);
            }
            assert(route_has(rs1, rest[a].0, rest[a].1) == route_has(rs, rest[a].0, rest[a].1));
        }
        lemma_distinct_registrations(rs1, rest);
        assert(spec_register_all(rs, reqs) == spec_register_all(rs1, rest));
        assert forall|a: int| 0 <= a < reqs.len() implies route_has(
            spec_register_all(rs, reqs),
            (#[trigger] reqs[a]).0,
            reqs[a].1,
        ) by {
            if a == 0 {
                assert(route_has(rs1, key.0, key.1));
                if !route_has(spec_register_all(rs1, rest), key.0, key.1) {
                    lemma_register_all_preserves(rs1, rest, key.0, key.1);
                }
            } else {
                assert(rest[a - 1] == reqs[a]);
            }
        }
    }
}

/// A registration never removes an existing route: presence survives any
/// later sequence of registrations.
pub proof fn lemma_register_all_preserves(
    rs: Seq<RouteView>,
    reqs: Seq<(Seq<char>, u16)>,
    peer: Seq<char>,
    channel: u16,
)
    requires
        route_has(rs, peer, channel),
    ensures
        route_has(spec_register_all(rs, reqs), peer, channel),
    decreases reqs.len(),
{
    if reqs.len() == 0 {
    } else {
        let rs1 = spec_register(rs, reqs[0].0, reqs[0].1);
        if route_has(rs, reqs[0].0, reqs[0].1) {
            let ri = route_index(rs, reqs[0].0, reqs[0].1);
            assert(0 <= ri < rs.len() && rs[ri].peer == reqs[0].0 && rs[ri].channel == reqs[0].1);
            let i = choose|i: int|
                0 <= i < rs.len() && (#[trigger] rs[i]).peer == peer && rs[i].channel == channel;
            if peer == reqs[0].0 && channel == reqs[0].1 {
                assert(rs1[ri].peer == peer && rs1[ri].channel == channel);
                assert(route_has(rs1, peer, channel));
            } else {
                assert(rs1[i] == rs[i] || i == ri);
                if i == ri {
                    assert(rs[i].peer == reqs[0].0 && rs[i].channel == reqs[0].1);
                }
                assert(route_has(rs1, peer, channel));
            }
        } else {
            let i = choose|i: int|
                0 <= i < rs.len() && (#[trigger] rs[i]).peer == peer && rs[i].channel == channel;
            assert(rs1[i] == rs[i]);
            assert(route_has(rs1, peer, channel));
        }
        lemma_register_all_preserves(rs1, reqs.skip(1), peer, channel);
    }
}

} // verus!
