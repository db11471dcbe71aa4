use vstd::prelude::*;
use vstd::slice::slice_subrange;

use crate::error::ArpchatError;
use crate::frame::{
    encode_frame, frame_spec, parse_frame, parse_frame_spec, FragmentView,
    PACKET_PART_SIZE,
};
use crate::net::{random_id, EtherType, Id};
use crate::packet::{Packet, PacketView};
use crate::reassembly::{fragment_wf, opt_packet_view, Reassembler, ReassemblerView};

verus! {

/// The split of payload `d` into the inner bytes of its fragments: runs of
/// `PACKET_PART_SIZE` bytes, the last one shorter; an empty payload travels
/// as the single byte "." so that one real fragment is sent.
pub open spec fn chunks_spec(d: Seq<u8>) -> Seq<Seq<u8>> {
    if d.len() == 0 {
        seq![seq![0x2eu8]]
    } else {
        Seq::new(
            ((d.len() + 240) / 241) as nat,
            |i: int|
                d.subrange(
                    241 * i,
                    if 241 * (i + 1) <= d.len() {
                        241 * (i + 1)
                    } else {
                        d.len() as int
                    },
                ),
        )
    }
}

/// The fragments that carry payload `d` of a packet with tag `tag` and id `id`.
pub open spec fn fragments_spec(tag: u8, id: Seq<u8>, d: Seq<u8>) -> Seq<FragmentView> {
    let c = chunks_spec(d);
    Seq::new(
        c.len(),
        |i: int| FragmentView { tag, seq: i as u8, total: (c.len() - 1) as u8, id, inner: c[i] },
    )
}

/// The link-level endpoint: the local hardware address, the outbound
/// selector and the reassembly state of inbound fragments.
pub struct Channel {
    src_mac: [u8; 6],
    ether_type: EtherType,
    engine: Reassembler,
}

pub struct ChannelView {
    pub mac: Seq<u8>,
    pub ether_type: EtherType,
    pub engine: ReassemblerView,
}

impl View for Channel {
    type V = ChannelView;

    closed spec fn view(&self) -> ChannelView {
        ChannelView { mac: self.src_mac@, ether_type: self.ether_type, engine: self.engine@ }
    }
}

pub open spec fn frames_view(fs: Seq<Vec<u8>>) -> Seq<Seq<u8>> {
    fs.map_values(|f: Vec<u8>| f@)
}

impl ChannelView {
    pub open spec fn wf(self) -> bool {
        self.mac.len() == 6 && self.engine.wf()
    }

    /// Whether packet payload `d` fits in 256 fragments.
    pub open spec fn fits(d: Seq<u8>) -> bool {
        chunks_spec(d).len() <= 256
    }

    /// The frames that carry packet `p` under id `id`.
    pub open spec fn frames_for(self, p: PacketView, id: Seq<u8>) -> Seq<Seq<u8>> {
        let fr = fragments_spec(p.tag(), id, p.serialize());
        Seq::new(fr.len(), |i: int| frame_spec(self.mac, self.ether_type, fr[i]))
    }

    /// The state after a frame arrives, and the packet it completes.
    pub open spec fn receive(self, frame: Seq<u8>) -> (ChannelView, Option<PacketView>) {
        match parse_frame_spec(frame) {
            None => (self, None),
            Some(f) => {
                let (e, r) = self.engine.accept(f);
                (ChannelView { engine: e, ..self }, r)
            },
        }
    }
}

/// Chunk `i` of a payload of `len` bytes starts inside the payload.
proof fn lemma_chunk_bounds(len: int, i: int)
    requires
        len > 0,
        0 <= i < (len + 240) / 241,
    ensures
        241 * i < len,
{
}

impl Channel {
    /// A channel on an interface with hardware address `mac`.
    pub fn from_interface(mac: Option<[u8; 6]>) -> (r: Result<Channel, ArpchatError>)
        ensures
            mac is None ==> r matches Err(ArpchatError::NoMAC),
            mac matches Some(m) ==> (r matches Ok(c) && c@.wf() && c@.mac == m@ && c@.ether_type
                == EtherType::Experimental1 && c@.engine.entries.len() == 0),
            mac matches Some(_) ==> (r matches Ok(c) && forall|i: int|
                0 <= i < c@.engine.recent.slots.len() ==> c@.engine.recent.slots[i] is None),
    {
        match mac {
            Some(m) => Ok(Channel { src_mac: m, ether_type: EtherType::Experimental1, engine: Reassembler::new() }),
            None => Err(ArpchatError::NoMAC),
        }
    }

    pub fn set_ether_type(&mut self, ether_type: EtherType)
        ensures
            final(self)@ == (ChannelView { ether_type, ..old(self)@ }),
    {
        self.ether_type = ether_type;
    }

    pub fn ether_type(&self) -> (r: EtherType)
        ensures
            r == self@.ether_type,
    {
        self.ether_type
    }

    /// The frames that carry `packet` under packet id `id`, in ascending
    /// sequence order; `PacketTooLong` when it needs more than 256.
    pub fn encode(&self, packet: &Packet, id: Id) -> (r: Result<Vec<Vec<u8>>, ArpchatError>)
        requires
            self@.wf(),
        ensures
            packet@.body_decompresses(),
            packet@.wf(),
            ChannelView::fits(packet@.serialize()) ==> (r matches Ok(fs) && frames_view(fs@)
                == self@.frames_for(packet@, id@)),
            !ChannelView::fits(packet@.serialize()) ==> r matches Err(ArpchatError::PacketTooLong),
    {
        let data = packet.serialize();
        let tag = packet.tag();
        let len = data.len();
        let n: usize = if len == 0 {
            1
        } else {
            len / 241 + if len % 241 == 0 {
                0
            } else {
                1
            }
        };
        assert(n == chunks_spec(data@).len());
        if n > 256 {
            return Err(ArpchatError::PacketTooLong);
        }
        let total = (n - 1) as u8;
        let ghost fr = fragments_spec(tag, id@, data@);
        let mut frames: Vec<Vec<u8>> = Vec::new();
        let mut i: usize = 0;
        while i < n
            invariant
                n == chunks_spec(data@).len(),
                n <= 256,
                len == data@.len(),
                total == n - 1,
                fr == fragments_spec(tag, id@, data@),
                self@.wf(),
                i <= n,
                frames@.len() == i,
                forall|j: int| 0 <= j < i ==> (#[trigger] frames@[j])@ == frame_spec(self@.mac, self@.ether_type, fr[j]),
            decreases n - i,
        {
            let f = if len == 0 {
                let dot: [u8; 1] = [0x2e];
                assert(dot@ =~= chunks_spec(data@)[0]);
                encode_frame(&self.src_mac, self.ether_type, tag, 0, total, &id, &dot)
            } else {
                proof {
                    lemma_chunk_bounds(len as int, i as int);
                }
                let start = 241 * i;
                let end = if len - start >= 241 {
                    start + 241
                } else {
                    len
                };
                let part = slice_subrange(data.as_slice(), start, end);
                assert(part@ == chunks_spec(data@)[i as int]);
                encode_frame(&self.src_mac, self.ether_type, tag, i as u8, total, &id, part)
            };
            match f {
                Ok(bytes) => frames.push(bytes),
                Err(e) => return Err(e),
            }
            i = i + 1;
        }
        assert(frames_view(frames@) =~= self@.frames_for(packet@, id@));
        Ok(frames)
    }

    /// The frames that carry `packet` under a freshly drawn packet id.
    pub fn send(&self, packet: &Packet) -> (r: Result<Vec<Vec<u8>>, ArpchatError>)
        requires
            self@.wf(),
        ensures
            ChannelView::fits(packet@.serialize()) ==> (r matches Ok(fs) && exists|id: Seq<u8>|
                id.len() == 8 && frames_view(fs@) == #[trigger] self@.frames_for(packet@, id)),
            !ChannelView::fits(packet@.serialize()) ==> r matches Err(ArpchatError::PacketTooLong),
    {
        let id = random_id();
        self.encode(packet, id)
    }

    /// Takes in one received frame; returns the packet it completes, if any.
    /// Frames that are not ARP requests of this protocol change nothing.
    pub fn try_recv(&mut self, frame: &[u8]) -> (r: Option<Packet>)
        requires
            old(self)@.wf(),
        ensures
            final(self)@.wf(),
            (final(self)@, opt_packet_view(r)) == old(self)@.receive(frame@),
    {
        match parse_frame(frame) {
            None => None,
            Some(f) => {
                proof {
                    lemma_parsed_fragment_wf(frame@);
                }
                self.engine.accept(f)
            },
        }
    }
}

/// A fragment read from a frame is well formed.
pub proof fn lemma_parsed_fragment_wf(frame: Seq<u8>)
    ensures
        parse_frame_spec(frame) matches Some(f) ==> fragment_wf(f),
{
}

/// Each frame built for a packet parses back to the fragment it was built
/// for, so the receiver sees exactly the fragments of the packet.
pub proof fn lemma_frames_parse(c: ChannelView, p: PacketView, id: Seq<u8>)
    requires
        c.wf(),
        id.len() == 8,
    ensures
        forall|i: int|
            0 <= i < c.frames_for(p, id).len() ==> parse_frame_spec(#[trigger] c.frames_for(p, id)[i])
                == Some(fragments_spec(p.tag(), id, p.serialize())[i]),
{
    let d = p.serialize();
    let fr = fragments_spec(p.tag(), id, d);
    crate::delivery::lemma_chunks_wf(d);
    assert forall|i: int| 0 <= i < c.frames_for(p, id).len() implies parse_frame_spec(
        #[trigger] c.frames_for(p, id)[i],
    ) == Some(fr[i]) by {
        crate::frame::lemma_frame_round_trip(c.mac, c.ether_type, fr[i]);
    }
}

/// A frame whose EtherType is not ARP, whose ARP payload does not begin with
/// Hardware Type 1, address length 6 and Operation 1, or whose application
/// bytes lack the "uwu" magic, changes nothing and yields nothing.
pub proof fn lemma_magic_gate(c: ChannelView, frame: Seq<u8>)
    requires
        ({
            let p = frame.subrange(14, frame.len() as int);
            let app = p.subrange(14, 14 + p[5]);
            ||| frame.len() < 22
            ||| frame[12] != 0x08 || frame[13] != 0x06
            ||| p[0] != 0x00 || p[1] != 0x01
            ||| p[4] != 6
            ||| p[6] != 0x00 || p[7] != 0x01
            ||| (14 + p[5] <= p.len() && (app.len() < 3 || app.subrange(0, 3) != seq![0x75u8, 0x77u8, 0x75u8]))
        }),
    ensures
        c.receive(frame) == (c, None::<PacketView>),
{
}

} // verus!
