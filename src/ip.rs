//! The IP scheme: opening `<peer>/<protocol>` resolves where frames for the
//! peer go (loopback, a neighbour on the subnet, or the gateway) and which
//! link address reaches it, then reads and writes payloads there.
//!
//! Opening is a sequence of steps. `IpScheme::open_resource` decides the
//! first; where a link is needed the caller opens it, runs the ARP exchange
//! or the promiscuous scan, and hands each frame it reads back to
//! `IpScheme::arp_reply` or `IpScheme::accept_frame`.
use std::collections::VecDeque;

use vstd::prelude::*;

use crate::error::SchemeError;
use crate::net::{
    arp_reply_sender, broadcast_ip, broadcast_mac, ipv4_header_len, ipv4_of_text, ipv4_total_len,
    ipv4_well_formed, localhost_ip, parse_arp_reply, parse_ipv4, copy_range, Ipv4Addr, MacAddr,
};
use crate::text::{after, field, parse_below, parse_number, split_once};

verus! {

/// The addresses this host is configured with.
#[derive(Clone, Copy, Debug)]
pub struct IpConfig {
    pub mac: MacAddr,
    pub ip: Ipv4Addr,
    pub subnet: Ipv4Addr,
    pub router: Ipv4Addr,
}

/// A learnt mapping from an IP address to the link address that holds it.
#[derive(Clone, Copy, Debug)]
pub struct ArpEntry {
    pub ip: Ipv4Addr,
    pub mac: MacAddr,
}

/// How an open resource moves its payloads.
pub enum Connection {
    /// Through an opened link-layer descriptor; `init_data` is a payload
    /// already read while opening, delivered before the link is read again.
    Device { link: usize, init_data: Vec<u8> },
    /// Through the scheme's loopback queue.
    Loopback,
}

/// An open network endpoint.
pub struct IpResource {
    pub connection: Connection,
    pub host_addr: Ipv4Addr,
    pub peer_addr: Ipv4Addr,
    pub proto: u8,
    /// Identifier for fragmentation, drawn at random by the opener.
    pub id: u16,
}

/// What opening needs next.
pub enum OpenStep {
    /// The resource is open.
    Ready(IpResource),
    /// The link address of `route` is unknown: open the Ethernet resource
    /// for ARP (type 0x0806) at the broadcast address, write
    /// `arp_request`, and hand each frame read to `arp_reply` until it
    /// returns the address. Then connect to it, or to the broadcast address
    /// when the ARP link could not be used.
    Resolve { route: Ipv4Addr, peer: Ipv4Addr, proto: u8 },
    /// Open the Ethernet resource for IPv4 (type 0x0800) at `mac` and pass
    /// its descriptor to `device_resource`.
    Connect { mac: MacAddr, peer: Ipv4Addr, proto: u8 },
    /// No peer: open the Ethernet resource for IPv4 without an address,
    /// read a frame and hand it to `accept_frame`, and repeat until it
    /// accepts one or the link fails (then `NotFound`).
    Listen { proto: u8 },
}

/// What a read or write on a resource comes to.
pub enum IoStep {
    /// Served here, moving this many bytes.
    Done(usize),
    /// To be passed through to this link-layer descriptor unchanged.
    Link(usize),
}

/// The IP scheme's state: the ARP cache and the loopback queue shared by
/// every loopback resource.
pub struct IpScheme {
    pub arp: Vec<ArpEntry>,
    pub loopback_fifo: VecDeque<Vec<u8>>,
}

/// `a` and `b` agree on every bit that `mask` sets.
pub open spec fn same_subnet(a: Seq<u8>, b: Seq<u8>, mask: Seq<u8>) -> bool {
    forall|k: int| 0 <= k < 4 ==> #[trigger] (a[k] & mask[k]) == b[k] & mask[k]
}

/// The next hop for `peer`: the peer itself when it is on this host's
/// subnet, the gateway otherwise.
pub open spec fn route_target(cfg: IpConfig, peer: Seq<u8>) -> Seq<u8> {
    if same_subnet(cfg.ip.bytes@, peer, cfg.subnet.bytes@) {
        peer
    } else {
        cfg.router.bytes@
    }
}

/// Position of the first cache entry for `ip`, or the cache's length.
pub open spec fn arp_index(arp: Seq<ArpEntry>, ip: Seq<u8>) -> nat
    decreases arp.len(),
{
    if arp.len() == 0 {
        0
    } else if arp[0].ip.bytes@ == ip {
        0
    } else {
        1 + arp_index(arp.drop_first(), ip)
    }
}

/// The link address that the first cache entry for `ip` gives.
pub open spec fn arp_lookup(arp: Seq<ArpEntry>, ip: Seq<u8>) -> Option<Seq<u8>> {
    if arp_index(arp, ip) < arp.len() {
        Some(arp[arp_index(arp, ip) as int].mac.bytes@)
    } else {
        None
    }
}

/// The protocol number written in hexadecimal as `s`; 0 when `s` spells no
/// byte.
pub open spec fn proto_value(s: Seq<u8>) -> u8 {
    match parse_number(s, 16) {
        Some(v) => if v < 256 {
            v as u8
        } else {
            0
        },
        None => 0,
    }
}

/// The peer text and protocol of an IP path `<peer>/<protocol>`; `None`
/// when there is no `/`.
pub open spec fn url_parts(url: Seq<u8>) -> Option<(Seq<u8>, u8)> {
    match after(url, 47) {
        Some(rest) => Some((field(url, 47), proto_value(field(rest, 47)))),
        None => None,
    }
}

/// `step` is what opening `host` with protocol `proto` comes to first,
/// given the configuration, the ARP cache and the identifier `id`.
pub open spec fn planned(cfg: IpConfig, arp: Seq<ArpEntry>, host: Seq<u8>, proto: u8, id: u16, step: OpenStep) -> bool {
    if host.len() == 0 {
        step matches OpenStep::Listen { proto: p } && p == proto
    } else {
        let peer = ipv4_of_text(host);
        if peer == broadcast_ip() {
            step matches OpenStep::Connect { mac, peer: q, proto: p } && mac.bytes@ == broadcast_mac()
                && q.bytes@ == peer && p == proto
        } else if peer == localhost_ip() {
            step matches OpenStep::Ready(res) && res.connection is Loopback && res.host_addr.bytes@
                == cfg.ip.bytes@ && res.peer_addr.bytes@ == peer && res.proto == proto && res.id == id
        } else {
            match arp_lookup(arp, route_target(cfg, peer)) {
                Some(m) => step matches OpenStep::Connect { mac, peer: q, proto: p } && mac.bytes@ == m
                    && q.bytes@ == peer && p == proto,
                None => step matches OpenStep::Resolve { route, peer: q, proto: p } && route.bytes@
                    == route_target(cfg, peer) && q.bytes@ == peer && p == proto,
            }
        }
    }
}

/// Relies on core::str::from_utf8: it fails exactly on byte strings that
/// are not well-formed UTF-8.
#[verifier::external_body]
fn is_utf8(b: &[u8]) -> (r: bool)
    ensures
        r == vstd::utf8::valid_utf8(b@),
{
    core::str::from_utf8(b).is_ok()
}

proof fn lemma_arp_index(arp: Seq<ArpEntry>, ip: Seq<u8>, i: int)
    requires
        0 <= i <= arp.len(),
        forall|j: int| 0 <= j < i ==> arp[j].ip.bytes@ != ip,
        i == arp.len() || arp[i].ip.bytes@ == ip,
    ensures
        arp_index(arp, ip) == i,
    decreases i,
{
    if i > 0 {
        lemma_arp_index(arp.drop_first(), ip, i - 1);
    }
}

/// Whether `peer` is on the subnet of `cfg`.
pub fn on_subnet(cfg: &IpConfig, peer: &Ipv4Addr) -> (r: bool)
    ensures
        r == same_subnet(cfg.ip.bytes@, peer.bytes@, cfg.subnet.bytes@),
{
    let mut octet: usize = 0;
    while octet < 4
        invariant
            octet <= 4,
            forall|k: int| 0 <= k < octet ==> #[trigger] (cfg.ip.bytes@[k] & cfg.subnet.bytes@[k])
                == peer.bytes@[k] & cfg.subnet.bytes@[k],
        decreases 4 - octet,
    {
        let me = cfg.ip.bytes[octet];
        let mask = cfg.subnet.bytes[octet];
        let them = peer.bytes[octet];
        if me & mask != them & mask {
            return false;
        }
        octet = octet + 1;
    }
    true
}

/// The next hop for `peer` under `cfg`.
pub fn route_for(cfg: &IpConfig, peer: &Ipv4Addr) -> (r: Ipv4Addr)
    ensures
        r.bytes@ == route_target(*cfg, peer.bytes@),
{
    if on_subnet(cfg, peer) {
        *peer
    } else {
        cfg.router
    }
}

/// Copies as much of `src` as fits to the front of `buf`; the count copied.
fn copy_prefix(buf: &mut [u8], src: &[u8]) -> (n: usize)
    ensures
        n == (if src@.len() < old(buf)@.len() {
            src@.len()
        } else {
            old(buf)@.len()
        }),
        final(buf)@ == src@.take(n as int) + old(buf)@.skip(n as int),
{
    let n = if src.len() < buf.len() {
        src.len()
    } else {
        buf.len()
    };
    let mut i: usize = 0;
    while i < n
        invariant
            n <= src@.len(),
            n <= old(buf)@.len(),
            buf@.len() == old(buf)@.len(),
            i <= n,
            forall|k: int| 0 <= k < i ==> buf@[k] == src@[k],
            forall|k: int| i <= k < buf@.len() ==> buf@[k] == old(buf)@[k],
        decreases n - i,
    {
        buf[i] = src[i];
        i = i + 1;
    }
    assert(buf@ =~= src@.take(n as int) + old(buf)@.skip(n as int));
    n
}

impl IpScheme {
    /// A scheme with an empty ARP cache and an empty loopback queue.
    pub fn new() -> (r: IpScheme)
        ensures
            r.arp@.len() == 0,
            r.loopback_fifo@.len() == 0,
    {
        IpScheme { arp: Vec::new(), loopback_fifo: VecDeque::new() }
    }

    /// The payloads waiting in the loopback queue, oldest first.
    pub open spec fn queue(&self) -> Seq<Seq<u8>> {
        self.loopback_fifo@.map_values(|p: Vec<u8>| p@)
    }

    /// The link address cached for `ip`: the first entry that names it.
    pub fn arp_find(&self, ip: &Ipv4Addr) -> (r: Option<MacAddr>)
        ensures
            r is Some == arp_lookup(self.arp@, ip.bytes@) is Some,
            r matches Some(m) ==> arp_lookup(self.arp@, ip.bytes@) == Some(m.bytes@),
    {
        let mut i: usize = 0;
        while i < self.arp.len()
            invariant
                i <= self.arp.len(),
                forall|j: int| 0 <= j < i ==> self.arp@[j].ip.bytes@ != ip.bytes@,
            decreases self.arp.len() - i,
        {
            if self.arp[i].ip.equals(ip) {
                proof {
                    lemma_arp_index(self.arp@, ip.bytes@, i as int);
                }
                return Some(self.arp[i].mac);
            }
            i = i + 1;
        }
        proof {
            lemma_arp_index(self.arp@, ip.bytes@, i as int);
        }
        None
    }

    /// The first step of opening `url`, `<peer>/<protocol>` with the
    /// protocol in hexadecimal, for the user `uid`, with `id` as the
    /// resource's fragmentation identifier. Only user 0 may open
    /// (`AccessDenied`); a path that is not UTF-8 is `InvalidArgument`, one
    /// without `/` is `NotFound`.
    pub fn open_resource(&self, cfg: &IpConfig, url: &[u8], uid: u32, id: u16) -> (r: Result<OpenStep, SchemeError>)
        ensures
            uid != 0 ==> r == Err::<OpenStep, SchemeError>(SchemeError::AccessDenied),
            uid == 0 && !vstd::utf8::valid_utf8(url@) ==> r == Err::<OpenStep, SchemeError>(
                SchemeError::InvalidArgument,
            ),
            uid == 0 && vstd::utf8::valid_utf8(url@) ==> match url_parts(url@) {
                None => r == Err::<OpenStep, SchemeError>(SchemeError::NotFound),
                Some((host, proto)) => r matches Ok(step) && planned(*cfg, self.arp@, host, proto, id, step),
            },
    {
        if uid != 0 {
            return Err(SchemeError::AccessDenied);
        }
        if !is_utf8(url) {
            return Err(SchemeError::InvalidArgument);
        }
        let (host, rest) = split_once(url, 47);
        let rest = match rest {
            Some(rest) => rest,
            None => {
                return Err(SchemeError::NotFound);
            },
        };
        let (proto_text, _) = split_once(rest, 47);
        let proto: u8 = match parse_below(proto_text, 16, 256) {
            Some(v) => v as u8,
            None => 0,
        };
        if host.len() == 0 {
            return Ok(OpenStep::Listen { proto });
        }
        let peer = Ipv4Addr::from_str(host);
        if peer.equals(&Ipv4Addr::broadcast()) {
            return Ok(OpenStep::Connect { mac: MacAddr::broadcast(), peer, proto });
        }
        if peer.equals(&Ipv4Addr::localhost()) {
            return Ok(
                OpenStep::Ready(
                    IpResource {
                        connection: Connection::Loopback,
                        host_addr: cfg.ip,
                        peer_addr: peer,
                        proto,
                        id,
                    },
                ),
            );
        }
        let route = route_for(cfg, &peer);
        match self.arp_find(&route) {
            Some(mac) => Ok(OpenStep::Connect { mac, peer, proto }),
            None => Ok(OpenStep::Resolve { route, peer, proto }),
        }
    }

    /// Takes in a frame read during resolution of `route`. When it is an ARP
    /// reply sent from `route`, the sender's link address is cached and
    /// returned; any other frame changes nothing.
    pub fn arp_reply(&mut self, route: &Ipv4Addr, frame: &[u8]) -> (r: Option<MacAddr>)
        ensures
            final(self).loopback_fifo@ == old(self).loopback_fifo@,
            match arp_reply_sender(frame@) {
                Some((mac, ip)) => if ip == route.bytes@ {
                    r matches Some(m) && m.bytes@ == mac && final(self).arp@.len() == old(self).arp@.len() + 1
                        && final(self).arp@.drop_last() == old(self).arp@
                        && final(self).arp@.last().ip.bytes@ == route.bytes@
                        && final(self).arp@.last().mac.bytes@ == mac
                } else {
                    r is None && final(self).arp@ == old(self).arp@
                },
                None => r is None && final(self).arp@ == old(self).arp@,
            },
    {
        match parse_arp_reply(frame) {
            Some((mac, ip)) => {
                if ip.equals(route) {
                    self.arp.push(ArpEntry { ip: *route, mac });
                    assert(self.arp@.drop_last() =~= old(self).arp@);
                    Some(mac)
                } else {
                    None
                }
            },
            None => None,
        }
    }

    /// The resource for `peer` over the opened link `link`.
    pub fn device_resource(cfg: &IpConfig, peer: &Ipv4Addr, proto: u8, link: usize, id: u16) -> (r: IpResource)
        ensures
            r.connection matches Connection::Device { link: l, init_data } && l == link && init_data@.len() == 0,
            r.host_addr.bytes@ == cfg.ip.bytes@,
            r.peer_addr.bytes@ == peer.bytes@,
            r.proto == proto,
            r.id == id,
    {
        IpResource {
            connection: Connection::Device { link, init_data: Vec::new() },
            host_addr: cfg.ip,
            peer_addr: *peer,
            proto,
            id,
        }
    }

    /// Takes in a frame read from `link` during a promiscuous open for
    /// `proto`. An IPv4 packet of that protocol addressed to this host or
    /// to the broadcast address becomes the resource: its source is the
    /// peer and its payload is delivered by the first read.
    pub fn accept_frame(cfg: &IpConfig, proto: u8, link: usize, frame: &[u8], id: u16) -> (r: Option<IpResource>)
        ensures
            r is Some == (ipv4_well_formed(frame@) && frame@[9] == proto && (frame@.subrange(16, 20)
                == cfg.ip.bytes@ || frame@.subrange(16, 20) == broadcast_ip())),
            r matches Some(res) ==> {
                &&& res.connection matches Connection::Device { link: l, init_data } && l == link
                    && init_data@ == frame@.subrange(ipv4_header_len(frame@), ipv4_total_len(frame@))
                &&& res.host_addr.bytes@ == cfg.ip.bytes@
                &&& res.peer_addr.bytes@ == frame@.subrange(12, 16)
                &&& res.proto == proto
                &&& res.id == id
            },
    {
        let packet = match parse_ipv4(frame) {
            Some(p) => p,
            None => {
                return None;
            },
        };
        if packet.proto == proto && (packet.dst.equals(&cfg.ip) || packet.dst.equals(&Ipv4Addr::broadcast())) {
            Some(
                IpResource {
                    connection: Connection::Device { link, init_data: packet.data },
                    host_addr: cfg.ip,
                    peer_addr: packet.src,
                    proto,
                    id,
                },
            )
        } else {
            None
        }
    }

    /// Reads from `resource` into `buf`. A loopback resource takes the
    /// oldest queued payload, as much of it as fits; with none queued it
    /// reads nothing. A device resource first hands out what remains of the
    /// payload staged while opening, and otherwise passes the read through
    /// to its link.
    pub fn read(&mut self, resource: &mut IpResource, buf: &mut [u8]) -> (r: IoStep)
        ensures
            final(self).arp@ == old(self).arp@,
            old(resource).connection is Loopback ==> {
                &&& *final(resource) == *old(resource)
                &&& if old(self).queue().len() == 0 {
                    &&& r == IoStep::Done(0)
                    &&& final(buf)@ == old(buf)@
                    &&& final(self).queue() == old(self).queue()
                } else {
                    let p = old(self).queue()[0];
                    let n = if p.len() < old(buf)@.len() {
                        p.len()
                    } else {
                        old(buf)@.len()
                    };
                    &&& r == IoStep::Done(n as usize)
                    &&& final(buf)@ == p.take(n as int) + old(buf)@.skip(n as int)
                    &&& final(self).queue() == old(self).queue().drop_first()
                }
            },
            old(resource).connection matches Connection::Device { link, init_data } ==> {
                &&& final(self).queue() == old(self).queue()
                &&& final(resource).host_addr == old(resource).host_addr
                &&& final(resource).peer_addr == old(resource).peer_addr
                &&& final(resource).proto == old(resource).proto
                &&& final(resource).id == old(resource).id
                &&& if init_data@.len() == 0 {
                    &&& r == IoStep::Link(link)
                    &&& final(buf)@ == old(buf)@
                    &&& *final(resource) == *old(resource)
                } else {
                    let n = if init_data@.len() < old(buf)@.len() {
                        init_data@.len()
                    } else {
                        old(buf)@.len()
                    };
                    &&& r == IoStep::Done(n as usize)
                    &&& final(buf)@ == init_data@.take(n as int) + old(buf)@.skip(n as int)
                    &&& final(resource).connection matches Connection::Device { link: l, init_data: d }
                        && l == link && d@ == init_data@.skip(n as int)
                }
            },
    {
        match &mut resource.connection {
            Connection::Loopback => {
                let ghost q = self.queue();
                match self.loopback_fifo.pop_front() {
                    Some(packet) => {
                        assert(self.queue() =~= q.drop_first());
                        IoStep::Done(copy_prefix(buf, packet.as_slice()))
                    },
                    None => IoStep::Done(0),
                }
            },
            Connection::Device { link, init_data } => {
                if init_data.len() == 0 {
                    return IoStep::Link(*link);
                }
                let n = copy_prefix(buf, init_data.as_slice());
                let rest = copy_range(init_data.as_slice(), n, init_data.len());
                assert(rest@ =~= old(resource).connection->init_data@.skip(n as int));
                *init_data = rest;
                IoStep::Done(n)
            },
        }
    }

    /// Writes `buf` through `resource`. On a loopback resource the payload
    /// joins the end of the loopback queue as it is; a device resource
    /// passes the write through to its link.
    pub fn write(&mut self, resource: &IpResource, buf: &[u8]) -> (r: IoStep)
        ensures
            final(self).arp@ == old(self).arp@,
            resource.connection is Loopback ==> r == IoStep::Done(buf@.len() as usize) && final(self).queue()
                == old(self).queue().push(buf@),
            resource.connection matches Connection::Device { link, .. } ==> r == IoStep::Link(link)
                && final(self).queue() == old(self).queue(),
    {
        match &resource.connection {
            Connection::Loopback => {
                let packet = copy_range(buf, 0, buf.len());
                assert(packet@ =~= buf@);
                self.loopback_fifo.push_back(packet);
                assert(self.queue() =~= old(self).queue().push(buf@));
                IoStep::Done(buf.len())
            },
            Connection::Device { link, .. } => IoStep::Link(*link),
        }
    }

    /// Closes `resource`: the link descriptor that is to be closed with it,
    /// if it has one.
    pub fn close(resource: IpResource) -> (r: Option<usize>)
        ensures
            resource.connection matches Connection::Device { link, .. } ==> r == Some(link),
            resource.connection is Loopback ==> r is None,
    {
        match resource.connection {
            Connection::Device { link, .. } => Some(link),
            Connection::Loopback => None,
        }
    }
}

} // verus!

verus! {

proof fn lemma_arp_index_push(arp: Seq<ArpEntry>, e: ArpEntry, ip: Seq<u8>)
    requires
        arp_index(arp, ip) == arp.len(),
    ensures
        arp_index(arp.push(e), ip) == (if e.ip.bytes@ == ip {
            arp.len()
        } else {
            arp.len() + 1
        }),
    decreases arp.len(),
{
    if arp.len() > 0 {
        assert(arp.push(e).drop_first() =~= arp.drop_first().push(e));
        assert(arp.push(e)[0] == arp[0]);
        assert(arp[0].ip.bytes@ != ip);
        lemma_arp_index_push(arp.drop_first(), e, ip);
        assert(arp_index(arp.push(e), ip) == 1 + arp_index(arp.push(e).drop_first(), ip));
    } else {
        assert(arp.push(e).drop_first() =~= Seq::<ArpEntry>::empty());
        assert(arp.push(e)[0] == e);
        assert(arp_index(Seq::<ArpEntry>::empty(), ip) == 0);
        assert(arp_index(arp.push(e), ip) == (if e.ip.bytes@ == ip { 0 } else { 1 + arp_index(arp.push(e).drop_first(), ip) }));
    }
}

proof fn lemma_arp_index_bound(arp: Seq<ArpEntry>, ip: Seq<u8>)
    ensures
        arp_index(arp, ip) <= arp.len(),
    decreases arp.len(),
{
    if arp.len() > 0 {
        lemma_arp_index_bound(arp.drop_first(), ip);
    }
}

/// Once an ARP reply has answered for a route target that the cache did not
/// know, the cache gives that reply's address for the target, so the next
/// open that routes through it connects at once and sends no second ARP
/// request. The premises on `after` are what `arp_reply` guarantees.
pub proof fn lemma_resolution_is_cached(
    cfg: IpConfig,
    before: Seq<ArpEntry>,
    after: Seq<ArpEntry>,
    route: Seq<u8>,
    mac: Seq<u8>,
    host: Seq<u8>,
    proto: u8,
    id: u16,
    step: OpenStep,
)
    requires
        arp_lookup(before, route) is None,
        after.len() == before.len() + 1,
        after.drop_last() == before,
        after.last().ip.bytes@ == route,
        after.last().mac.bytes@ == mac,
        host.len() > 0,
        route_target(cfg, ipv4_of_text(host)) == route,
        planned(cfg, after, host, proto, id, step),
    ensures
        arp_lookup(after, route) == Some(mac),
        !(step is Resolve),
{
    assert(after =~= before.push(after.last()));
    lemma_arp_index_bound(before, route);
    lemma_arp_index_push(before, after.last(), route);
}

/// A payload written to a loopback resource while the queue is empty is what
/// the next read on any loopback resource returns, unmodified, when the
/// buffer holds it. The premises are what `write` and then `read`
/// guarantee.
pub proof fn lemma_loopback_round_trip(
    before: Seq<Seq<u8>>,
    between: Seq<Seq<u8>>,
    after: Seq<Seq<u8>>,
    payload: Seq<u8>,
    old_buf: Seq<u8>,
    new_buf: Seq<u8>,
    r: IoStep,
)
    requires
        before.len() == 0,
        between == before.push(payload),
        payload.len() <= old_buf.len(),
        between.len() > 0 ==> {
            let p = between[0];
            let n = if p.len() < old_buf.len() {
                p.len()
            } else {
                old_buf.len()
            };
            &&& r == IoStep::Done(n as usize)
            &&& new_buf == p.take(n as int) + old_buf.skip(n as int)
            &&& after == between.drop_first()
        },
    ensures
        r == IoStep::Done(payload.len() as usize),
        new_buf.take(payload.len() as int) == payload,
        after.len() == 0,
{
    assert(between[0] == payload);
    assert(payload.take(payload.len() as int) =~= payload);
    assert(new_buf.take(payload.len() as int) =~= payload);
}

/// The loopback queue is first in, first out: a write leaves the payload
/// that the next read returns as it was, and queues its own behind the
/// others. The premise is what `write` guarantees.
pub proof fn lemma_loopback_order(before: Seq<Seq<u8>>, after: Seq<Seq<u8>>, payload: Seq<u8>)
    requires
        after == before.push(payload),
        before.len() > 0,
    ensures
        after[0] == before[0],
        after.drop_first() == before.drop_first().push(payload),
{
    assert(after.drop_first() =~= before.drop_first().push(payload));
}

} // verus!

verus! {

proof fn lemma_writes_queue_prefix(writes: Seq<Seq<Seq<u8>>>, payloads: Seq<Seq<u8>>, i: int)
    requires
        writes.len() == payloads.len() + 1,
        writes[0].len() == 0,
        forall|k: int| 0 <= k < payloads.len() ==> #[trigger] writes[k + 1] == writes[k].push(payloads[k]),
        0 <= i <= payloads.len(),
    ensures
        writes[i] == payloads.take(i),
    decreases i,
{
    if i == 0 {
        assert(writes[0] =~= payloads.take(0));
    } else {
        lemma_writes_queue_prefix(writes, payloads, i - 1);
        let k = i - 1;
        assert(writes[k + 1] == writes[k].push(payloads[k]));
        assert(payloads.take(i - 1).push(payloads[i - 1]) =~= payloads.take(i));
    }
}

proof fn lemma_reads_queue_suffix(reads: Seq<Seq<Seq<u8>>>, payloads: Seq<Seq<u8>>, j: int)
    requires
        reads.len() == payloads.len() + 1,
        reads[0] == payloads,
        forall|k: int| 0 <= k < payloads.len() ==> #[trigger] reads[k + 1] == reads[k].drop_first(),
        0 <= j <= payloads.len(),
    ensures
        reads[j] == payloads.skip(j),
    decreases j,
{
    if j == 0 {
        assert(payloads.skip(0) =~= payloads);
    } else {
        lemma_reads_queue_suffix(reads, payloads, j - 1);
        let k = j - 1;
        assert(reads[k + 1] == reads[k].drop_first());
        assert(payloads.skip(j - 1).drop_first() =~= payloads.skip(j));
    }
}

/// Payloads written one after another to loopback resources, starting from
/// an empty queue, come out of as many successive reads on any loopback
/// resources in the order they were written, each whole and unmodified:
/// read `j` takes payload `j`. `writes[i]` is the queue before write `i`,
/// `reads[j]` the queue before read `j`; the premises are what `write` and
/// `read` guarantee of each call.
pub proof fn lemma_loopback_delivers_in_order(
    writes: Seq<Seq<Seq<u8>>>,
    payloads: Seq<Seq<u8>>,
    reads: Seq<Seq<Seq<u8>>>,
)
    requires
        writes.len() == payloads.len() + 1,
        writes[0].len() == 0,
        forall|k: int| 0 <= k < payloads.len() ==> #[trigger] writes[k + 1] == writes[k].push(payloads[k]),
        reads.len() == payloads.len() + 1,
        reads[0] == writes[payloads.len() as int],
        forall|k: int|
            0 <= k < payloads.len() ==> #[trigger] reads[k + 1] == reads[k].drop_first(),
    ensures
        forall|j: int| 0 <= j < payloads.len() ==> #[trigger] reads[j].len() > 0 && reads[j][0] == payloads[j],
        reads[payloads.len() as int].len() == 0,
{
    lemma_writes_queue_prefix(writes, payloads, payloads.len() as int);
    assert(payloads.take(payloads.len() as int) =~= payloads);
    assert forall|j: int| 0 <= j < payloads.len() implies #[trigger] reads[j].len() > 0 && reads[j][0]
        == payloads[j] by {
        lemma_reads_queue_suffix(reads, payloads, j);
    }
    lemma_reads_queue_suffix(reads, payloads, payloads.len() as int);
}

} // verus!
