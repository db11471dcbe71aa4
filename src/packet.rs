use vstd::prelude::*;
use vstd::slice::slice_subrange;
use vstd::utf8::*;

use crate::net::{
    append_bytes, be_to_u32, be_to_u64, be_u32, be_u64, lemma_be_u32_round_trip,
    lemma_be_u64_round_trip, u32_be, u32_to_be, u64_be, u64_to_be, Id,
};

verus! {

broadcast use vstd::utf8::group_utf8_lib;

/// An application-level message of the chat protocol.
#[derive(Clone, Debug, PartialEq, Eq)]
pub enum Packet {
    Message { author: Id, channel: String, message: String },
    PresenceReq,
    Presence(Id, bool, String),
    Disconnect(Id),
    Reaction(Id, char),
}

/// A packet with its identifiers as byte sequences and its strings as
/// character sequences.
pub enum PacketView {
    Message { author: Seq<u8>, channel: Seq<char>, message: Seq<char> },
    PresenceReq,
    Presence(Seq<u8>, bool, Seq<char>),
    Disconnect(Seq<u8>),
    Reaction(Seq<u8>, char),
}

impl View for Packet {
    type V = PacketView;

    open spec fn view(&self) -> PacketView {
        match self {
            Packet::Message { author, channel, message } => PacketView::Message {
                author: author@,
                channel: channel@,
                message: message@,
            },
            Packet::PresenceReq => PacketView::PresenceReq,
            Packet::Presence(id, j, name) => PacketView::Presence(id@, *j, name@),
            Packet::Disconnect(id) => PacketView::Disconnect(id@),
            Packet::Reaction(id, c) => PacketView::Reaction(id@, *c),
        }
    }
}

/// What `smaz::compress` makes of the given bytes.
pub uninterp spec fn smaz_compressed(b: Seq<u8>) -> Seq<u8>;

/// What `smaz::decompress` makes of the given bytes: `None` where it reports
/// invalid data.
pub uninterp spec fn smaz_decompressed(b: Seq<u8>) -> Option<Seq<u8>>;

/// Whether `smaz::decompress`, reading tokens from position `i` on, returns
/// rather than indexing past the end: a byte 254 needs one byte after it, and
/// a byte 255 needs its length byte (what follows that may be short: then it
/// reports invalid data).
pub open spec fn smaz_walk_safe(b: Seq<u8>, i: int) -> bool
    decreases b.len() - i,
{
    if i < 0 || i >= b.len() {
        true
    } else if b[i] == 254 {
        i + 1 < b.len() && smaz_walk_safe(b, i + 2)
    } else if b[i] == 255 {
        i + 1 < b.len() && (i + b[i + 1] + 2 >= b.len() || smaz_walk_safe(b, i + 3 + b[i + 1]))
    } else {
        smaz_walk_safe(b, i + 1)
    }
}

/// Whether `smaz::decompress` can reserve its output buffer: it asks
/// `Vec::with_capacity` for three bytes per input byte, which panics beyond
/// `isize::MAX`.
pub open spec fn smaz_capacity_fits(b: Seq<u8>) -> bool {
    b.len() * 3 <= isize::MAX
}

/// Decompression as the packet layer sees it: input on which the
/// decompressor would panic counts as invalid.
pub open spec fn decompressed(b: Seq<u8>) -> Option<Seq<u8>> {
    if smaz_walk_safe(b, 0) && smaz_capacity_fits(b) {
        smaz_decompressed(b)
    } else {
        None
    }
}

/// Relies on smaz::compress, which encodes every input as codebook indices
/// below 254 and verbatim runs (254 and one byte, or 255, a count and that
/// many plus one bytes), so that smaz::decompress gives the input back.
#[verifier::external_body]
fn compress(b: &[u8]) -> (r: Vec<u8>)
    ensures
        r@ == smaz_compressed(b@),
        smaz_walk_safe(r@, 0),
        smaz_decompressed(r@) == Some(b@),
{
    smaz::compress(b)
}

/// Relies on smaz::decompress; its result is read back unchanged, an error
/// becoming `None`.
#[verifier::external_body]
fn decompress(b: &[u8]) -> (r: Option<Vec<u8>>)
    requires
        smaz_walk_safe(b@, 0),
        smaz_capacity_fits(b@),
    ensures
        match r {
            Some(v) => smaz_decompressed(b@) == Some(v@),
            None => smaz_decompressed(b@) is None,
        },
{
    smaz::decompress(b).ok()
}

/// Relies on String::from_utf8, which fails exactly on bytes that are not
/// UTF-8 and otherwise holds the characters they encode.
#[verifier::external_body]
fn string_from_utf8(b: &[u8]) -> (r: Option<String>)
    ensures
        r is Some <==> valid_utf8(b@),
        r matches Some(s) ==> s@ == decode_utf8(b@),
{
    String::from_utf8(b.to_vec()).ok()
}

/// Relies on char::from_u32, which accepts exactly the Unicode scalar values.
#[verifier::external_body]
fn char_from_u32(v: u32) -> (r: Option<char>)
    ensures
        r is Some <==> is_scalar(v),
        r matches Some(c) ==> c as u32 == v,
{
    char::from_u32(v)
}

/// Checks the condition under which `decompress` may be called.
pub fn smaz_input_is_safe(b: &[u8]) -> (r: bool)
    ensures
        r == smaz_walk_safe(b@, 0),
{
    let n = b.len();
    let mut i: usize = 0;
    while i < n
        invariant
            n == b@.len(),
            i <= n,
            smaz_walk_safe(b@, 0) == smaz_walk_safe(b@, i as int),
        decreases n - i,
    {
        if b[i] == 254 {
            if i + 1 >= n {
                return false;
            }
            i = i + 2;
        } else if b[i] == 255 {
            if i + 1 >= n {
                return false;
            }
            let k = b[i + 1] as usize;
            if k + 2 >= n - i {
                return true;
            }
            i = i + 3 + k;
        } else {
            i = i + 1;
        }
    }
    true
}

impl PacketView {
    pub open spec fn tag(self) -> u8 {
        match self {
            PacketView::Message { .. } => 0,
            PacketView::PresenceReq => 1,
            PacketView::Presence(..) => 2,
            PacketView::Disconnect(..) => 3,
            PacketView::Reaction(..) => 4,
        }
    }

    /// Identifiers are eight bytes long.
    pub open spec fn wf(self) -> bool {
        match self {
            PacketView::Message { author, channel, .. } => author.len() == 8
                && encode_utf8(channel).len() <= u64::MAX,
            PacketView::PresenceReq => true,
            PacketView::Presence(id, _, _) => id.len() == 8,
            PacketView::Disconnect(id) => id.len() == 8,
            PacketView::Reaction(id, _) => id.len() == 8,
        }
    }

    /// The payload bytes of the packet.
    pub open spec fn serialize(self) -> Seq<u8> {
        match self {
            PacketView::Message { author, channel, message } => author + u64_be(
                encode_utf8(channel).len() as u64,
            ) + encode_utf8(channel) + smaz_compressed(encode_utf8(message)),
            PacketView::PresenceReq => Seq::empty(),
            PacketView::Presence(id, is_join, name) => id + seq![
                if is_join {
                    1u8
                } else {
                    0u8
                },
            ] + encode_utf8(name),
            PacketView::Disconnect(id) => id,
            PacketView::Reaction(id, c) => id + u32_be(c as u32),
        }
    }

    /// The compressor gives a message body back unchanged; other packets
    /// carry no compressed bytes.
    pub open spec fn body_decompresses(self) -> bool {
        match self {
            PacketView::Message { message, .. } => smaz_walk_safe(
                smaz_compressed(encode_utf8(message)),
                0,
            ) && smaz_decompressed(smaz_compressed(encode_utf8(message))) == Some(
                encode_utf8(message),
            ),
            _ => true,
        }
    }
}

/// A message packet, from its author, channel, and the decompressed body if
/// decompression succeeded: `None` unless the body is UTF-8.
pub open spec fn message_from_body(author: Seq<u8>, channel: Seq<char>, body: Option<Seq<u8>>) -> Option<PacketView> {
    match body {
        Some(b) => if valid_utf8(b) {
            Some(PacketView::Message { author, channel, message: decode_utf8(b) })
        } else {
            None
        },
        None => None,
    }
}

/// The packet that payload `d` with tag `tag` decodes to, if any.
pub open spec fn deserialize_spec(tag: u8, d: Seq<u8>) -> Option<PacketView> {
    if tag == 0 {
        if d.len() < 16 {
            None
        } else {
            let n = be_u64(d.subrange(8, 16));
            if n > d.len() - 16 {
                None
            } else {
                let chan = d.subrange(16, 16 + n);
                if !valid_utf8(chan) {
                    None
                } else {
                    message_from_body(
                        d.subrange(0, 8),
                        decode_utf8(chan),
                        decompressed(d.subrange(16 + n, d.len() as int)),
                    )
                }
            }
        }
    } else if tag == 1 {
        Some(PacketView::PresenceReq)
    } else if tag == 2 {
        if d.len() < 9 || !valid_utf8(d.subrange(9, d.len() as int)) {
            None
        } else {
            Some(
                PacketView::Presence(
                    d.subrange(0, 8),
                    d[8] > 0,
                    decode_utf8(d.subrange(9, d.len() as int)),
                ),
            )
        }
    } else if tag == 3 {
        if d.len() == 8 {
            Some(PacketView::Disconnect(d))
        } else {
            None
        }
    } else if tag == 4 {
        if d.len() == 12 && is_scalar(be_u32(d.subrange(8, 12))) {
            Some(PacketView::Reaction(d.subrange(0, 8), be_u32(d.subrange(8, 12)) as char))
        } else {
            None
        }
    } else {
        None
    }
}

pub open spec fn opt_view(o: Option<Vec<u8>>) -> Option<Seq<u8>> {
    match o {
        Some(v) => Some(v@),
        None => None,
    }
}

fn id_from(b: &[u8]) -> (r: Id)
    requires
        b@.len() == 8,
    ensures
        r@ == b@,
{
    let r: Id = [b[0], b[1], b[2], b[3], b[4], b[5], b[6], b[7]];
    assert(r@ =~= b@);
    r
}

impl Packet {
    /// The single byte that names the variant on the wire.
    pub fn tag(&self) -> (r: u8)
        ensures
            r == self@.tag(),
    {
        match self {
            Packet::Message { .. } => 0,
            Packet::PresenceReq => 1,
            Packet::Presence(_, _, _) => 2,
            Packet::Disconnect(_) => 3,
            Packet::Reaction(_, _) => 4,
        }
    }

    /// The payload bytes; the message body of a `Message` goes through the
    /// compressor, which gives it back on decompression.
    pub fn serialize(&self) -> (r: Vec<u8>)
        ensures
            r@ == self@.serialize(),
            self@.body_decompresses(),
    {
        let mut out: Vec<u8> = Vec::new();
        match self {
            Packet::Message { author, channel, message } => {
                append_bytes(&mut out, author);
                let cb = channel.as_str().as_bytes();
                let len = u64_to_be(cb.len() as u64);
                append_bytes(&mut out, &len);
                append_bytes(&mut out, cb);
                let body = compress(message.as_str().as_bytes());
                append_bytes(&mut out, body.as_slice());
            },
            Packet::PresenceReq => {},
            Packet::Presence(id, is_join, name) => {
                append_bytes(&mut out, id);
                let flag: [u8; 1] = [if *is_join {
                    1u8
                } else {
                    0u8
                }];
                append_bytes(&mut out, &flag);
                append_bytes(&mut out, name.as_str().as_bytes());
            },
            Packet::Disconnect(id) => {
                append_bytes(&mut out, id);
            },
            Packet::Reaction(id, c) => {
                append_bytes(&mut out, id);
                let v = u32_to_be(*c as u32);
                append_bytes(&mut out, &v);
            },
        }
        assert(out@ =~= self@.serialize());
        out
    }

    /// Builds a message packet from the decompressor's output, which must be
    /// UTF-8.
    pub fn message_from_body(author: Id, channel: String, body: Option<Vec<u8>>) -> (r: Option<
        Packet,
    >)
        ensures
            r matches Some(p) ==> Some(p@) == message_from_body(
                author@,
                channel@,
                opt_view(body),
            ),
            r is None ==> message_from_body(author@, channel@, opt_view(body)) is None,
    {
        match body {
            Some(b) => match string_from_utf8(b.as_slice()) {
                Some(message) => Some(Packet::Message { author, channel, message }),
                None => None,
            },
            None => None,
        }
    }

    /// Decodes a reassembled payload; `None` on anything malformed.
    pub fn deserialize(tag: u8, data: &[u8]) -> (r: Option<Packet>)
        ensures
            r matches Some(p) ==> deserialize_spec(tag, data@) == Some(p@),
            r is None ==> deserialize_spec(tag, data@) is None,
    {
        let n = data.len();
        if tag == 0 {
            if n < 16 {
                return None;
            }
            let chan_len = be_to_u64(slice_subrange(data, 8, 16));
            if chan_len > (n - 16) as u64 {
                return None;
            }
            let chan_end = 16 + chan_len as usize;
            let channel = match string_from_utf8(slice_subrange(data, 16, chan_end)) {
                Some(s) => s,
                None => return None,
            };
            let author = id_from(slice_subrange(data, 0, 8));
            let body = slice_subrange(data, chan_end, n);
            let decoded = if body.len() <= (isize::MAX as usize) / 3 && smaz_input_is_safe(body) {
                decompress(body)
            } else {
                None
            };
            Packet::message_from_body(author, channel, decoded)
        } else if tag == 1 {
            Some(Packet::PresenceReq)
        } else if tag == 2 {
            if n < 9 {
                return None;
            }
            match string_from_utf8(slice_subrange(data, 9, n)) {
                Some(name) => Some(
                    Packet::Presence(id_from(slice_subrange(data, 0, 8)), data[8] > 0, name),
                ),
                None => None,
            }
        } else if tag == 3 {
            if n == 8 {
                Some(Packet::Disconnect(id_from(data)))
            } else {
                None
            }
        } else if tag == 4 {
            if n != 12 {
                return None;
            }
            let v = be_to_u32(slice_subrange(data, 8, 12));
            match char_from_u32(v) {
                Some(c) => {
                    proof {
                        char_u32_cast(c, v);
                    }
                    Some(Packet::Reaction(id_from(slice_subrange(data, 0, 8)), c))
                },
                None => None,
            }
        } else {
            None
        }
    }
}

/// Decoding the payload of a packet gives the packet back, for payloads of
/// at most 256 fragments.
pub proof fn lemma_packet_round_trip(p: PacketView)
    requires
        p.wf(),
        p.body_decompresses(),
        p.serialize().len() <= 241 * 256,
    ensures
        deserialize_spec(p.tag(), p.serialize()) == Some(p),
{
    let d = p.serialize();
    match p {
        PacketView::Message { author, channel, message } => {
            let cb = encode_utf8(channel);
            let n = cb.len() as u64;
            lemma_be_u64_round_trip(n);
            assert(d.subrange(0, 8) =~= author);
            assert(d.subrange(8, 16) =~= u64_be(n));
            assert(d.subrange(16, 16 + n) =~= cb);
            assert(d.subrange(16 + n, d.len() as int) =~= smaz_compressed(encode_utf8(message)));
        },
        PacketView::PresenceReq => {},
        PacketView::Presence(id, is_join, name) => {
            assert(d.subrange(0, 8) =~= id);
            assert(d.subrange(9, d.len() as int) =~= encode_utf8(name));
        },
        PacketView::Disconnect(id) => {},
        PacketView::Reaction(id, c) => {
            lemma_be_u32_round_trip(c as u32);
            assert(d.subrange(0, 8) =~= id);
            assert(d.subrange(8, 12) =~= u32_be(c as u32));
        },
    }
}

} // verus!
