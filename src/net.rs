//! Link and network addresses, and the frames of ARP and IPv4 as they are
//! laid out on the wire.
use vstd::prelude::*;

use crate::text::{after, field, parse_below, parse_number, split_once};

verus! {

/// An IPv4 address.
#[derive(Clone, Copy, Debug)]
pub struct Ipv4Addr {
    pub bytes: [u8; 4],
}

/// An Ethernet address.
#[derive(Clone, Copy, Debug)]
pub struct MacAddr {
    pub bytes: [u8; 6],
}

/// What is left of `s` after the first `n` fields separated by `sep`.
pub open spec fn rest_after(s: Seq<u8>, sep: u8, n: nat) -> Option<Seq<u8>>
    decreases n,
{
    if n == 0 {
        Some(s)
    } else {
        match rest_after(s, sep, (n - 1) as nat) {
            Some(t) => after(t, sep),
            None => None,
        }
    }
}

/// The value of one dotted field: a decimal number below 256, else 0.
pub open spec fn octet_value(f: Seq<u8>) -> u8 {
    match parse_number(f, 10) {
        Some(v) => if v < 256 {
            v as u8
        } else {
            0
        },
        None => 0,
    }
}

/// Octet `k` of the address written as `s`: the value of the `k`-th field
/// between dots, 0 when there is no such field.
pub open spec fn text_octet(s: Seq<u8>, k: nat) -> u8 {
    match rest_after(s, 46, k) {
        Some(t) => octet_value(field(t, 46)),
        None => 0,
    }
}

/// The address written as `s` in dotted decimal.
pub open spec fn ipv4_of_text(s: Seq<u8>) -> Seq<u8> {
    seq![text_octet(s, 0), text_octet(s, 1), text_octet(s, 2), text_octet(s, 3)]
}

pub open spec fn broadcast_ip() -> Seq<u8> {
    seq![255u8, 255, 255, 255]
}

pub open spec fn localhost_ip() -> Seq<u8> {
    seq![127u8, 0, 0, 1]
}

pub open spec fn broadcast_mac() -> Seq<u8> {
    seq![255u8, 255, 255, 255, 255, 255]
}

fn octet_of(f: &[u8]) -> (r: u8)
    ensures
        r == octet_value(f@),
{
    match parse_below(f, 10, 256) {
        Some(v) => v as u8,
        None => 0,
    }
}

impl Ipv4Addr {
    /// 255.255.255.255
    pub fn broadcast() -> (r: Ipv4Addr)
        ensures
            r.bytes@ == broadcast_ip(),
    {
        let r = Ipv4Addr { bytes: [255, 255, 255, 255] };
        assert(r.bytes@ =~= broadcast_ip());
        r
    }

    /// 127.0.0.1
    pub fn localhost() -> (r: Ipv4Addr)
        ensures
            r.bytes@ == localhost_ip(),
    {
        let r = Ipv4Addr { bytes: [127, 0, 0, 1] };
        assert(r.bytes@ =~= localhost_ip());
        r
    }

    pub fn equals(&self, other: &Ipv4Addr) -> (r: bool)
        ensures
            r == (self.bytes@ == other.bytes@),
    {
        let r = self.bytes[0] == other.bytes[0] && self.bytes[1] == other.bytes[1] && self.bytes[2]
            == other.bytes[2] && self.bytes[3] == other.bytes[3];
        assert(r ==> self.bytes@ =~= other.bytes@);
        r
    }

    /// The address written as `s` in dotted decimal: each of the first four
    /// fields between dots is a decimal octet; a missing or malformed field
    /// reads as 0 and fields past the fourth are ignored.
    pub fn from_str(s: &[u8]) -> (r: Ipv4Addr)
        ensures
            r.bytes@ == ipv4_of_text(s@),
    {
        let mut bytes: [u8; 4] = [0, 0, 0, 0];
        let mut rest: Option<&[u8]> = Some(s);
        let mut k: usize = 0;
        while k < 4
            invariant
                k <= 4,
                rest is Some == rest_after(s@, 46, k as nat) is Some,
                rest matches Some(t) ==> rest_after(s@, 46, k as nat) == Some(t@),
                forall|j: int| 0 <= j < k ==> bytes@[j] == text_octet(s@, j as nat),
                forall|j: int| k <= j < 4 ==> bytes@[j] == 0,
            decreases 4 - k,
        {
            match rest {
                Some(t) => {
                    let (f, next) = split_once(t, 46);
                    bytes[k] = octet_of(f);
                    rest = next;
                },
                None => {},
            }
            k = k + 1;
        }
        assert(bytes@ =~= ipv4_of_text(s@));
        Ipv4Addr { bytes }
    }
}

impl MacAddr {
    /// ff:ff:ff:ff:ff:ff
    pub fn broadcast() -> (r: MacAddr)
        ensures
            r.bytes@ == broadcast_mac(),
    {
        let r = MacAddr { bytes: [255, 255, 255, 255, 255, 255] };
        assert(r.bytes@ =~= broadcast_mac());
        r
    }

    pub fn equals(&self, other: &MacAddr) -> (r: bool)
        ensures
            r == (self.bytes@ == other.bytes@),
    {
        let mut i: usize = 0;
        while i < 6
            invariant
                i <= 6,
                forall|j: int| 0 <= j < i ==> self.bytes@[j] == other.bytes@[j],
            decreases 6 - i,
        {
            if self.bytes[i] != other.bytes[i] {
                return false;
            }
            i = i + 1;
        }
        assert(self.bytes@ =~= other.bytes@);
        true
    }
}


/// Length of an ARP packet for Ethernet and IPv4.
pub const ARP_LEN: usize = 28;

/// Length of an IPv4 header without options.
pub const IPV4_HEADER_LEN: usize = 20;

/// An ARP packet for Ethernet and IPv4: hardware type 1, protocol type
/// 0x0800, address lengths 6 and 4, the operation (1 request, 2 reply), then
/// sender MAC and IP and target MAC and IP; multi-byte fields big-endian.
pub open spec fn arp_packet(oper: u8, src_mac: Seq<u8>, src_ip: Seq<u8>, dst_mac: Seq<u8>, dst_ip: Seq<u8>) -> Seq<u8> {
    seq![0u8, 1, 8, 0, 6, 4, 0, oper] + src_mac + src_ip + dst_mac + dst_ip
}

/// The sender of an ARP reply: `Some((mac, ip))` when `frame` holds a whole
/// ARP packet whose operation is reply.
pub open spec fn arp_reply_sender(frame: Seq<u8>) -> Option<(Seq<u8>, Seq<u8>)> {
    if frame.len() >= ARP_LEN && frame[6] == 0 && frame[7] == 2 {
        Some((frame.subrange(8, 14), frame.subrange(14, 18)))
    } else {
        None
    }
}

/// A decoded IPv4 packet: protocol, source, destination and payload.
pub struct Ipv4Packet {
    pub proto: u8,
    pub src: Ipv4Addr,
    pub dst: Ipv4Addr,
    pub data: Vec<u8>,
}

/// Length of the header that `frame` declares, options included.
pub open spec fn ipv4_header_len(frame: Seq<u8>) -> int {
    (frame[0] % 16) as int * 4
}

/// Total length that `frame` declares, header and payload.
pub open spec fn ipv4_total_len(frame: Seq<u8>) -> int {
    frame[2] as int * 256 + frame[3] as int
}

/// `frame` holds a whole IPv4 packet: a header of at least 20 bytes and a
/// declared total length that covers the header and fits in the frame.
pub open spec fn ipv4_well_formed(frame: Seq<u8>) -> bool {
    &&& frame.len() >= IPV4_HEADER_LEN
    &&& IPV4_HEADER_LEN <= ipv4_header_len(frame) <= ipv4_total_len(frame) <= frame.len()
}

/// Appends `b` to `out`.
fn push_all(out: &mut Vec<u8>, b: &[u8])
    ensures
        final(out)@ == old(out)@ + b@,
{
    let mut i: usize = 0;
    while i < b.len()
        invariant
            i <= b.len(),
            out@ == old(out)@ + b@.subrange(0, i as int),
        decreases b.len() - i,
    {
        out.push(b[i]);
        i = i + 1;
    }
    assert(b@.subrange(0, b@.len() as int) =~= b@);
}

/// The bytes of `s` from `lo` up to `hi`, as a vector.
pub(crate) fn copy_range(s: &[u8], lo: usize, hi: usize) -> (r: Vec<u8>)
    requires
        lo <= hi <= s@.len(),
    ensures
        r@ == s@.subrange(lo as int, hi as int),
{
    let mut out: Vec<u8> = Vec::new();
    push_all(&mut out, vstd::slice::slice_subrange(s, lo, hi));
    out
}

/// The ARP packet asking who holds `target_ip`, sent from `src_mac` and
/// `src_ip` to `dst_mac`.
pub fn arp_request(src_mac: &MacAddr, src_ip: &Ipv4Addr, dst_mac: &MacAddr, target_ip: &Ipv4Addr) -> (r: Vec<u8>)
    ensures
        r@ == arp_packet(1, src_mac.bytes@, src_ip.bytes@, dst_mac.bytes@, target_ip.bytes@),
{
    let mut out: Vec<u8> = vec![0u8, 1, 8, 0, 6, 4, 0, 1];
    push_all(&mut out, src_mac.bytes.as_slice());
    push_all(&mut out, src_ip.bytes.as_slice());
    push_all(&mut out, dst_mac.bytes.as_slice());
    push_all(&mut out, target_ip.bytes.as_slice());
    assert(out@ =~= arp_packet(1, src_mac.bytes@, src_ip.bytes@, dst_mac.bytes@, target_ip.bytes@));
    out
}

/// The sender of the ARP reply in `frame`, if it holds one.
pub fn parse_arp_reply(frame: &[u8]) -> (r: Option<(MacAddr, Ipv4Addr)>)
    ensures
        r is Some == arp_reply_sender(frame@) is Some,
        r matches Some((mac, ip)) ==> arp_reply_sender(frame@) == Some((mac.bytes@, ip.bytes@)),
{
    if frame.len() < ARP_LEN || frame[6] != 0 || frame[7] != 2 {
        return None;
    }
    let mac = MacAddr { bytes: [frame[8], frame[9], frame[10], frame[11], frame[12], frame[13]] };
    let ip = Ipv4Addr { bytes: [frame[14], frame[15], frame[16], frame[17]] };
    assert(mac.bytes@ =~= frame@.subrange(8, 14));
    assert(ip.bytes@ =~= frame@.subrange(14, 18));
    Some((mac, ip))
}

/// The IPv4 packet in `frame`, if it holds a whole one: its protocol at
/// byte 9, source at bytes 12 to 16, destination at bytes 16 to 20, and
/// as payload what lies between the header and the declared total length.
pub fn parse_ipv4(frame: &[u8]) -> (r: Option<Ipv4Packet>)
    ensures
        r is Some == ipv4_well_formed(frame@),
        r matches Some(p) ==> {
            &&& p.proto == frame@[9]
            &&& p.src.bytes@ == frame@.subrange(12, 16)
            &&& p.dst.bytes@ == frame@.subrange(16, 20)
            &&& p.data@ == frame@.subrange(ipv4_header_len(frame@), ipv4_total_len(frame@))
        },
{
    if frame.len() < IPV4_HEADER_LEN {
        return None;
    }
    let header_len = ((frame[0] % 16) as usize) * 4;
    let total_len = (frame[2] as usize) * 256 + (frame[3] as usize);
    if header_len < IPV4_HEADER_LEN || header_len > total_len || total_len > frame.len() {
        return None;
    }
    let src = Ipv4Addr { bytes: [frame[12], frame[13], frame[14], frame[15]] };
    let dst = Ipv4Addr { bytes: [frame[16], frame[17], frame[18], frame[19]] };
    assert(src.bytes@ =~= frame@.subrange(12, 16));
    assert(dst.bytes@ =~= frame@.subrange(16, 20));
    Some(Ipv4Packet { proto: frame[9], src, dst, data: copy_range(frame, header_len, total_len) })
}


/// The lower-case hexadecimal digit for `d`, below 16.
pub open spec fn hex_digit(d: nat) -> u8 {
    if d < 10 {
        (48 + d) as u8
    } else {
        (87 + d) as u8
    }
}

/// `v` in lower-case hexadecimal without leading zeros.
pub open spec fn hex_text(v: nat) -> Seq<u8>
    decreases v,
{
    if v < 16 {
        seq![hex_digit(v)]
    } else {
        hex_text(v / 16) + seq![hex_digit(v % 16)]
    }
}

/// A link address as text: six pairs of lower-case hexadecimal digits
/// separated by dots.
pub open spec fn mac_text(mac: Seq<u8>) -> Seq<u8> {
    hex_pair(mac[0]) + seq![46u8] + hex_pair(mac[1]) + seq![46u8] + hex_pair(mac[2]) + seq![46u8]
        + hex_pair(mac[3]) + seq![46u8] + hex_pair(mac[4]) + seq![46u8] + hex_pair(mac[5])
}

pub open spec fn hex_pair(b: u8) -> Seq<u8> {
    seq![hex_digit(b as nat / 16), hex_digit(b as nat % 16)]
}

/// The bytes of `ethernet:`.
pub open spec fn ethernet_prefix() -> Seq<u8> {
    seq![101u8, 116, 104, 101, 114, 110, 101, 116, 58]
}

/// The path of the link-layer resource for frames of `ethertype` exchanged
/// with `mac`, or with any station when there is none:
/// `ethernet:<mac>/<ethertype in hexadecimal>`.
pub open spec fn link_path_text(mac: Option<Seq<u8>>, ethertype: u16) -> Seq<u8> {
    ethernet_prefix() + match mac {
        Some(m) => mac_text(m),
        None => Seq::empty(),
    } + seq![47u8] + hex_text(ethertype as nat)
}

fn hex_digit_of(d: u16) -> (r: u8)
    requires
        d < 16,
    ensures
        r == hex_digit(d as nat),
{
    if d < 10 {
        48 + d as u8
    } else {
        87 + d as u8
    }
}

fn push_hex(out: &mut Vec<u8>, v: u16)
    ensures
        final(out)@ == old(out)@ + hex_text(v as nat),
    decreases v,
{
    if v >= 16 {
        push_hex(out, v / 16);
    }
    out.push(hex_digit_of(v % 16));
    assert(out@ =~= old(out)@ + hex_text(v as nat));
}

/// The path of the link-layer resource for frames of `ethertype`
/// exchanged with `mac`, or with any station when `mac` is `None`.
pub fn link_path(mac: Option<MacAddr>, ethertype: u16) -> (r: Vec<u8>)
    ensures
        r@ == link_path_text(
            match mac {
                Some(m) => Some(m.bytes@),
                None => None,
            },
            ethertype,
        ),
{
    let mut out: Vec<u8> = vec![101u8, 116, 104, 101, 114, 110, 101, 116, 58];
    assert(out@ =~= ethernet_prefix());
    match mac {
        Some(m) => {
            let mut i: usize = 0;
            while i < 6
                invariant
                    i <= 6,
                    i == 0 ==> out@ == ethernet_prefix(),
                    i > 0 ==> out@ == ethernet_prefix() + mac_text_upto(m.bytes@, i as nat),
                decreases 6 - i,
            {
                if i > 0 {
                    out.push(46);
                }
                let b = m.bytes[i] as u16;
                out.push(hex_digit_of(b / 16));
                out.push(hex_digit_of(b % 16));
                i = i + 1;
                assert(out@ =~= ethernet_prefix() + mac_text_upto(m.bytes@, i as nat));
            }
            proof {
                reveal_with_fuel(mac_text_upto, 6);
            }
            assert(mac_text_upto(m.bytes@, 6) =~= mac_text(m.bytes@));
        },
        None => {},
    }
    out.push(47);
    push_hex(&mut out, ethertype);
    assert(out@ =~= link_path_text(
        match mac {
            Some(m) => Some(m.bytes@),
            None => None,
        },
        ethertype,
    ));
    out
}

/// The first `n` pairs of `mac_text`, with the dots between them.
pub open spec fn mac_text_upto(mac: Seq<u8>, n: nat) -> Seq<u8>
    decreases n,
{
    if n <= 1 {
        hex_pair(mac[0])
    } else {
        mac_text_upto(mac, (n - 1) as nat) + seq![46u8] + hex_pair(mac[n - 1])
    }
}

} // verus!
