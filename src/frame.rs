use vstd::prelude::*;
use vstd::slice::{slice_subrange, slice_to_vec};

use pnet::packet::ethernet::{EtherTypes, EthernetPacket, MutableEthernetPacket};
use pnet::packet::Packet as PnetPacket;
use pnet::util::MacAddr;

use crate::error::ArpchatError;
use crate::net::{append_bytes, EtherType, Id};

verus! {

/// Most inner bytes one frame carries: 255 less the 14-byte header of the
/// application bytes.
pub const PACKET_PART_SIZE: usize = 241;

/// One piece of a packet as it travels in one frame.
#[derive(Clone, Debug, PartialEq, Eq)]
pub struct Fragment {
    pub tag: u8,
    pub seq: u8,
    pub total: u8,
    pub id: Id,
    pub inner: Vec<u8>,
}

pub struct FragmentView {
    pub tag: u8,
    pub seq: u8,
    pub total: u8,
    pub id: Seq<u8>,
    pub inner: Seq<u8>,
}

impl View for Fragment {
    type V = FragmentView;

    open spec fn view(&self) -> FragmentView {
        FragmentView {
            tag: self.tag,
            seq: self.seq,
            total: self.total,
            id: self.id@,
            inner: self.inner@,
        }
    }
}

/// The magic prefix "uwu".
pub open spec fn magic() -> Seq<u8> {
    seq![0x75u8, 0x77u8, 0x75u8]
}

/// The application bytes of a fragment: magic, tag, seq, total, id, inner.
pub open spec fn fragment_body(f: FragmentView) -> Seq<u8> {
    magic() + seq![f.tag, f.seq, f.total] + f.id + f.inner
}

/// The ARP request that carries `body` in both protocol-address fields.
pub open spec fn arp_payload(et: EtherType, mac: Seq<u8>, body: Seq<u8>) -> Seq<u8> {
    seq![0x00u8, 0x01u8] + et.spec_bytes() + seq![6u8, body.len() as u8] + seq![0x00u8, 0x01u8]
        + mac + body + seq![0u8, 0u8, 0u8, 0u8, 0u8, 0u8] + body
}

/// A broadcast Ethernet frame from `mac` of EtherType ARP around `payload`.
pub open spec fn ethernet_frame(mac: Seq<u8>, payload: Seq<u8>) -> Seq<u8> {
    seq![0xffu8, 0xffu8, 0xffu8, 0xffu8, 0xffu8, 0xffu8] + mac + seq![0x08u8, 0x06u8] + payload
}

/// The whole frame that carries fragment `f`.
pub open spec fn frame_spec(mac: Seq<u8>, et: EtherType, f: FragmentView) -> Seq<u8> {
    ethernet_frame(mac, arp_payload(et, mac, fragment_body(f)))
}

/// The fragment that application bytes `d` hold, if they start with the magic
/// and have room for the header.
pub open spec fn parse_body(d: Seq<u8>) -> Option<FragmentView> {
    if d.len() < 14 || d.subrange(0, 3) != magic() {
        None
    } else {
        Some(
            FragmentView {
                tag: d[3],
                seq: d[4],
                total: d[5],
                id: d.subrange(6, 14),
                inner: d.subrange(14, d.len() as int),
            },
        )
    }
}

/// The fragment an ARP payload carries: Hardware Type 1, address length 6
/// and Operation 1 are required; the Protocol Type may be anything.
pub open spec fn parse_arp(p: Seq<u8>) -> Option<FragmentView> {
    if p.len() < 14 || p[0] != 0 || p[1] != 1 || p[4] != 6 || p[6] != 0 || p[7] != 1 {
        None
    } else if 14 + p[5] > p.len() {
        None
    } else {
        parse_body(p.subrange(14, 14 + p[5]))
    }
}

/// The fragment a received Ethernet frame carries, if it is one of ours.
pub open spec fn parse_frame_spec(f: Seq<u8>) -> Option<FragmentView> {
    if f.len() < 14 || f[12] != 0x08 || f[13] != 0x06 {
        None
    } else {
        parse_arp(f.subrange(14, f.len() as int))
    }
}

pub open spec fn opt_fragment_view(o: Option<Fragment>) -> Option<FragmentView> {
    match o {
        Some(f) => Some(f@),
        None => None,
    }
}

/// Relies on pnet's MutableEthernetPacket: a buffer of at least 14 bytes is
/// accepted, and the setters write destination, source, EtherType and payload
/// at offsets 0, 6, 12 and 14; MacAddr::broadcast is ff:ff:ff:ff:ff:ff and
/// EtherTypes::Arp is 0x0806.
#[verifier::external_body]
fn ethernet_frame_bytes(src: [u8; 6], payload: &[u8]) -> (r: Option<Vec<u8>>)
    requires
        payload@.len() <= 1024,
    ensures
        r is Some,
        r matches Some(f) ==> f@ == ethernet_frame(src@, payload@),
{
    let mut buf = vec![0u8; 14 + payload.len()];
    let mut eth = MutableEthernetPacket::new(&mut buf)?;
    eth.set_destination(MacAddr::broadcast());
    eth.set_source(MacAddr::new(src[0], src[1], src[2], src[3], src[4], src[5]));
    eth.set_ethertype(EtherTypes::Arp);
    eth.set_payload(payload);
    Some(eth.packet().to_vec())
}

/// Relies on pnet's EthernetPacket: a frame of at least 14 bytes is accepted,
/// its EtherType is read big-endian at offset 12 and its payload is
/// everything from offset 14.
#[verifier::external_body]
fn ethernet_parts(frame: &[u8]) -> (r: Option<(u16, Vec<u8>)>)
    ensures
        r is Some <==> frame@.len() >= 14,
        r matches Some((t, p)) ==> t == frame@[12] as int * 256 + frame@[13] as int,
        r matches Some((t, p)) ==> p@ == frame@.subrange(14, frame@.len() as int),
{
    let eth = EthernetPacket::new(frame)?;
    Some((eth.get_ethertype().0, eth.payload().to_vec()))
}

/// The application bytes of one fragment.
pub fn encode_body(tag: u8, seq: u8, total: u8, id: &Id, part: &[u8]) -> (r: Vec<u8>)
    ensures
        r@ == fragment_body(FragmentView { tag, seq, total, id: id@, inner: part@ }),
{
    let head: [u8; 6] = [0x75, 0x77, 0x75, tag, seq, total];
    let mut out: Vec<u8> = Vec::new();
    append_bytes(&mut out, &head);
    append_bytes(&mut out, id);
    append_bytes(&mut out, part);
    assert(out@ =~= fragment_body(FragmentView { tag, seq, total, id: id@, inner: part@ }));
    out
}

/// The ARP request that carries `body`.
pub fn encode_arp(et: EtherType, mac: &[u8; 6], body: &[u8]) -> (r: Vec<u8>)
    requires
        body@.len() <= 255,
    ensures
        r@ == arp_payload(et, mac@, body@),
{
    let etb = et.bytes();
    let head: [u8; 8] = [0x00, 0x01, etb[0], etb[1], 6, body.len() as u8, 0x00, 0x01];
    let zeros: [u8; 6] = [0; 6];
    let mut out: Vec<u8> = Vec::new();
    append_bytes(&mut out, &head);
    append_bytes(&mut out, mac);
    append_bytes(&mut out, body);
    append_bytes(&mut out, &zeros);
    append_bytes(&mut out, body);
    assert(zeros@ =~= seq![0u8, 0u8, 0u8, 0u8, 0u8, 0u8]);
    assert(out@ =~= arp_payload(et, mac@, body@));
    out
}

/// The complete Ethernet frame for one fragment.
pub fn encode_frame(mac: &[u8; 6], et: EtherType, tag: u8, seq: u8, total: u8, id: &Id, part: &[u8]) -> (r: Result<Vec<u8>, ArpchatError>)
    requires
        part@.len() <= PACKET_PART_SIZE,
    ensures
        r matches Ok(f) && f@ == frame_spec(
            mac@,
            et,
            FragmentView { tag, seq, total, id: id@, inner: part@ },
        ),
{
    let body = encode_body(tag, seq, total, id, part);
    let arp = encode_arp(et, mac, body.as_slice());
    match ethernet_frame_bytes(*mac, arp.as_slice()) {
        Some(f) => Ok(f),
        None => Err(ArpchatError::FrameBuildFailed),
    }
}

/// The fragment a received frame carries; `None` for any frame that is not
/// an ARP request of this protocol.
pub fn parse_frame(frame: &[u8]) -> (r: Option<Fragment>)
    ensures
        opt_fragment_view(r) == parse_frame_spec(frame@),
{
    let (ethertype, p) = match ethernet_parts(frame) {
        Some(parts) => parts,
        None => return None,
    };
    if ethertype != 0x0806 {
        return None;
    }
    assert(frame@[12] == 0x08 && frame@[13] == 0x06);
    let n = p.len();
    if n < 14 || p[0] != 0 || p[1] != 1 || p[4] != 6 || p[6] != 0 || p[7] != 1 {
        return None;
    }
    let l = p[5] as usize;
    if 14 + l > n {
        return None;
    }
    let d = slice_subrange(p.as_slice(), 14, 14 + l);
    if d.len() < 14 || d[0] != 0x75 || d[1] != 0x77 || d[2] != 0x75 {
        proof {
            if d@.len() >= 14 {
                assert(d@.subrange(0, 3)[0] == d@[0]);
                assert(d@.subrange(0, 3)[1] == d@[1]);
                assert(d@.subrange(0, 3)[2] == d@[2]);
            }
        }
        return None;
    }
    assert(d@.subrange(0, 3) =~= magic());
    let mut id: Id = [0; 8];
    let mut i: usize = 0;
    while i < 8
        invariant
            d@.len() >= 14,
            0 <= i <= 8,
            forall|j: int| 0 <= j < i ==> id@[j] == d@[6 + j],
        decreases 8 - i,
    {
        id[i] = d[6 + i];
        i = i + 1;
    }
    assert(id@ =~= d@.subrange(6, 14));
    let inner = slice_to_vec(slice_subrange(d, 14, d.len()));
    Some(Fragment { tag: d[3], seq: d[4], total: d[5], id, inner })
}

/// A frame built for a fragment parses back to that fragment.
pub proof fn lemma_frame_round_trip(mac: Seq<u8>, et: EtherType, f: FragmentView)
    requires
        mac.len() == 6,
        f.id.len() == 8,
        f.inner.len() <= PACKET_PART_SIZE,
    ensures
        parse_frame_spec(frame_spec(mac, et, f)) == Some(f),
{
    let body = fragment_body(f);
    let arp = arp_payload(et, mac, body);
    let frame = frame_spec(mac, et, f);
    assert(frame.subrange(14, frame.len() as int) =~= arp);
    assert(arp.subrange(14, 14 + body.len() as int) =~= body);
    assert(body.subrange(0, 3) =~= magic());
    assert(body.subrange(6, 14) =~= f.id);
    assert(body.subrange(14, body.len() as int) =~= f.inner);
}

} // verus!
